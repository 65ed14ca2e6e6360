//! Markdown reconstruction behind a trusted boundary.
//!
//! A group of events is rendered back to canonical Markdown by the
//! serializer of the `pulldown_cmark_to_cmark` crate.  The canonical
//! style is fixed here: `_` for emphasis, `**` for strong emphasis,
//! `-` for unordered list markers, and a fence token count computed
//! from the events themselves.
//!
//! The serializer threads a resumption state between calls.  That
//! state is opaque to the verifier; its contract-level model is the
//! sequence of events that have been rendered into it, given by the
//! name [`state_events`].  The serializer is deterministic, so the
//! text produced for a group is a function of that event prefix, the
//! group and the fence token count alone; the name
//! [`rendered_after`] stands for it.

use vstd::prelude::*;

use pulldown_cmark::Alignment as PdAlign;
use pulldown_cmark::BlockQuoteKind as PdBq;
use pulldown_cmark::CodeBlockKind as PdCb;
use pulldown_cmark::Event as PdEv;
use pulldown_cmark::HeadingLevel as PdLevel;
use pulldown_cmark::LinkType as PdLink;
use pulldown_cmark::MetadataBlockKind as PdMb;
use pulldown_cmark::Tag as PdTag;
use pulldown_cmark::TagEnd as PdEnd;

use crate::events::{MdCodeBlockKind, MdEvent, MdEventS, MdTag, MdTagEnd, MdAlignment,
    MdBlockQuoteKind, MdHeadingLevel, MdLinkType, MdMathKind, MdMetadataKind};
use crate::events::{bare_events, events_view};

verus! {

/// The serializer's resumption state, carried between reconstruction
/// calls.
pub type RenderState = pulldown_cmark_to_cmark::State<'static>;

#[verifier::external_type_specification]
#[verifier::external_body]
pub struct ExCmarkState<'a>(pulldown_cmark_to_cmark::State<'a>);

#[verifier::external_type_specification]
#[verifier::external_body]
pub struct ExCmarkError(pulldown_cmark_to_cmark::Error);

#[verifier::external_type_specification]
#[verifier::external_body]
pub struct ExCmarkOptions<'a>(pulldown_cmark_to_cmark::Options<'a>);

/// Why reconstruction failed.
#[derive(Clone, Copy, Debug, PartialEq, Eq, Structural)]
pub enum ReconstructError {
    /// The serializer reported a formatting failure.
    FormatFailed,
    /// The event stream was structurally inconsistent, for example a
    /// translation whose Markdown cannot stand where the original
    /// text stood.
    UnexpectedEvent,
}

/// The sequence of events that have been rendered into a serializer
/// state since the start of the document.  A fresh state corresponds
/// to the empty sequence.
pub uninterp spec fn state_events(s: RenderState) -> Seq<MdEventS>;

/// The Markdown text that the serializer produces for `group` when
/// resumed after `prefix`, under the canonical style of this crate
/// (emphasis `_`, strong `**`, list marker `-`, fence token count
/// `token_count`), with the state's pending newlines and padding
/// suppressed so that the rendering is self-contained.  The result is
/// a function of the arguments alone.
pub uninterp spec fn rendered_after(
    prefix: Seq<MdEventS>,
    group: Seq<MdEventS>,
    token_count: usize,
) -> Seq<char>;

/// The fence token count that the serializer derives from the events
/// of a group: one more than the longest run of fence characters seen
/// inside a code block, if that run has length three or more.  The
/// result is a function of the events alone.
pub uninterp spec fn code_token_count_of(group: Seq<MdEventS>) -> Option<usize>;

/// Whether the serializer accepts `group` when resumed after
/// `prefix`: it fails exactly on structurally inconsistent event
/// streams, and like its output, the outcome is a function of the
/// arguments alone.
pub uninterp spec fn render_ok(
    prefix: Seq<MdEventS>,
    group: Seq<MdEventS>,
    token_count: usize,
) -> bool;

/// The event prefix modelled by an optional resumption state.
pub open spec fn opt_state_events(state: Option<&RenderState>) -> Seq<MdEventS> {
    match state {
        Some(s) => state_events(*s),
        None => Seq::empty(),
    }
}

/// Whether an event sequence ends inside an open code block.
pub open spec fn in_code_block_after(evs: Seq<MdEventS>) -> bool
    decreases evs.len(),
{
    if evs.len() == 0 {
        false
    } else {
        match evs.last() {
            MdEventS::Start(crate::events::MdTagS::CodeBlock(_)) => true,
            MdEventS::End(MdTagEnd::CodeBlock) => false,
            _ => in_code_block_after(evs.drop_last()),
        }
    }
}

/// Converts the crate's `MdHeadingLevel` back, one arm per variant.
#[verifier::external_body]
fn to_pd_level(l: &MdHeadingLevel) -> PdLevel {
    match l {
        MdHeadingLevel::H1 => PdLevel::H1,
        MdHeadingLevel::H2 => PdLevel::H2,
        MdHeadingLevel::H3 => PdLevel::H3,
        MdHeadingLevel::H4 => PdLevel::H4,
        MdHeadingLevel::H5 => PdLevel::H5,
        MdHeadingLevel::H6 => PdLevel::H6,
    }
}

/// Converts the crate's `MdLinkType` back, one arm per variant.
#[verifier::external_body]
fn to_pd_linktype(l: &MdLinkType) -> PdLink {
    match l {
        MdLinkType::Inline => PdLink::Inline,
        MdLinkType::Reference => PdLink::Reference,
        MdLinkType::ReferenceUnknown => PdLink::ReferenceUnknown,
        MdLinkType::Collapsed => PdLink::Collapsed,
        MdLinkType::CollapsedUnknown => PdLink::CollapsedUnknown,
        MdLinkType::Shortcut => PdLink::Shortcut,
        MdLinkType::ShortcutUnknown => PdLink::ShortcutUnknown,
        MdLinkType::Autolink => PdLink::Autolink,
        MdLinkType::Email => PdLink::Email,
    }
}

/// Converts the crate's `MdBlockQuoteKind` back, one arm per variant.
#[verifier::external_body]
fn to_pd_bq(k: &Option<MdBlockQuoteKind>) -> Option<PdBq> {
    match k.as_ref()? {
        MdBlockQuoteKind::Note => Some(PdBq::Note),
        MdBlockQuoteKind::Tip => Some(PdBq::Tip),
        MdBlockQuoteKind::Important => Some(PdBq::Important),
        MdBlockQuoteKind::Warning => Some(PdBq::Warning),
        MdBlockQuoteKind::Caution => Some(PdBq::Caution),
    }
}

/// Converts the crate's `MdMetadataKind` back, one arm per variant.
#[verifier::external_body]
fn to_pd_mb(k: &MdMetadataKind) -> PdMb {
    match k {
        MdMetadataKind::YamlStyle => PdMb::YamlStyle,
        MdMetadataKind::PlusesStyle => PdMb::PlusesStyle,
    }
}

/// Converts the crate's `MdAlignment` back, one arm per variant.
#[verifier::external_body]
fn to_pd_align(a: &MdAlignment) -> PdAlign {
    match a {
        MdAlignment::Unspecified => PdAlign::None,
        MdAlignment::Left => PdAlign::Left,
        MdAlignment::Center => PdAlign::Center,
        MdAlignment::Right => PdAlign::Right,
    }
}

/// Converts the crate's `MdCodeBlockKind` back, one arm per variant.
#[verifier::external_body]
fn to_pd_cb(k: &MdCodeBlockKind) -> PdCb<'static> {
    match k {
        MdCodeBlockKind::Indented => PdCb::Indented,
        MdCodeBlockKind::Fenced(info) => PdCb::Fenced(info.clone().into()),
    }
}

/// Converts the fields of the crate's heading tag back.
#[verifier::external_body]
fn to_pd_heading(
    level: &MdHeadingLevel,
    id: &Option<String>,
    classes: &Vec<String>,
    attrs: &Vec<(String, Option<String>)>,
) -> PdTag<'static> {
    PdTag::Heading {
        level: to_pd_level(level),
        id: id.clone().map(|s| s.into()),
        classes: classes.iter().map(|s| s.clone().into()).collect(),
        attrs: attrs.iter().map(|(k, v)| (k.clone().into(), v.clone().map(|s| s.into()))).collect(),
    }
}

/// Converts the fields of the crate's link tag back.
#[verifier::external_body]
fn to_pd_link(lt: &MdLinkType, dest_url: &String, title: &String, id: &String) -> PdTag<'static> {
    PdTag::Link {
        link_type: to_pd_linktype(lt),
        dest_url: dest_url.clone().into(),
        title: title.clone().into(),
        id: id.clone().into(),
    }
}

/// Converts the fields of the crate's image tag back.
#[verifier::external_body]
fn to_pd_image(lt: &MdLinkType, dest_url: &String, title: &String, id: &String) -> PdTag<'static> {
    PdTag::Image {
        link_type: to_pd_linktype(lt),
        dest_url: dest_url.clone().into(),
        title: title.clone().into(),
        id: id.clone().into(),
    }
}

/// Converts the crate's `MdTag` back, field-carrying variants.
#[verifier::external_body]
fn to_pd_tag(t: &MdTag) -> PdTag<'static> {
    match t {
        MdTag::Heading { level, id, classes, attrs } => to_pd_heading(level, id, classes, attrs),
        MdTag::BlockQuote(k) => PdTag::BlockQuote(to_pd_bq(k)),
        MdTag::CodeBlock(k) => PdTag::CodeBlock(to_pd_cb(k)),
        MdTag::List(start) => PdTag::List(*start),
        MdTag::FootnoteDefinition(l) => PdTag::FootnoteDefinition(l.clone().into()),
        MdTag::Table(a) => PdTag::Table(a.iter().map(to_pd_align).collect()),
        MdTag::Link { link_type, dest_url, title, id } => to_pd_link(link_type, dest_url, title, id),
        MdTag::Image { link_type, dest_url, title, id } => to_pd_image(link_type, dest_url, title, id),
        MdTag::MetadataBlock(k) => PdTag::MetadataBlock(to_pd_mb(k)),
        other => to_pd_tag_unit(other),
    }
}

/// Converts the crate's `MdTag` back, field-less block variants.
#[verifier::external_body]
fn to_pd_tag_unit(t: &MdTag) -> PdTag<'static> {
    match t {
        MdTag::Paragraph => PdTag::Paragraph,
        MdTag::HtmlBlock => PdTag::HtmlBlock,
        MdTag::Item => PdTag::Item,
        MdTag::DefinitionList => PdTag::DefinitionList,
        MdTag::DefinitionListTitle => PdTag::DefinitionListTitle,
        MdTag::DefinitionListDefinition => PdTag::DefinitionListDefinition,
        MdTag::TableHead => PdTag::TableHead,
        other => to_pd_tag_span(other),
    }
}

/// Converts the crate's `MdTag` back, field-less span variants.
#[verifier::external_body]
fn to_pd_tag_span(t: &MdTag) -> PdTag<'static> {
    match t {
        MdTag::TableRow => PdTag::TableRow,
        MdTag::TableCell => PdTag::TableCell,
        MdTag::Emphasis => PdTag::Emphasis,
        MdTag::Strong => PdTag::Strong,
        MdTag::Strikethrough => PdTag::Strikethrough,
        MdTag::Superscript => PdTag::Superscript,
        _ => PdTag::Subscript,
    }
}

/// Converts the crate's `MdTagEnd` back, block-level variants.
#[verifier::external_body]
fn to_pd_end(e: &MdTagEnd) -> PdEnd {
    match e {
        MdTagEnd::Paragraph => PdEnd::Paragraph,
        MdTagEnd::Heading(l) => PdEnd::Heading(to_pd_level(l)),
        MdTagEnd::BlockQuote(k) => PdEnd::BlockQuote(to_pd_bq(k)),
        MdTagEnd::CodeBlock => PdEnd::CodeBlock,
        MdTagEnd::HtmlBlock => PdEnd::HtmlBlock,
        MdTagEnd::List(ordered) => PdEnd::List(*ordered),
        MdTagEnd::Item => PdEnd::Item,
        MdTagEnd::FootnoteDefinition => PdEnd::FootnoteDefinition,
        MdTagEnd::MetadataBlock(k) => PdEnd::MetadataBlock(to_pd_mb(k)),
        other => to_pd_end_mid(other),
    }
}

/// Converts the crate's `MdTagEnd` back, table and emphasis
/// variants.
#[verifier::external_body]
fn to_pd_end_mid(e: &MdTagEnd) -> PdEnd {
    match e {
        MdTagEnd::Table => PdEnd::Table,
        MdTagEnd::TableHead => PdEnd::TableHead,
        MdTagEnd::TableRow => PdEnd::TableRow,
        MdTagEnd::TableCell => PdEnd::TableCell,
        MdTagEnd::Emphasis => PdEnd::Emphasis,
        MdTagEnd::Strong => PdEnd::Strong,
        MdTagEnd::Strikethrough => PdEnd::Strikethrough,
        other => to_pd_end_inline(other),
    }
}

/// Converts the crate's `MdTagEnd` back, remaining variants.
#[verifier::external_body]
fn to_pd_end_inline(e: &MdTagEnd) -> PdEnd {
    match e {
        MdTagEnd::Superscript => PdEnd::Superscript,
        MdTagEnd::Subscript => PdEnd::Subscript,
        MdTagEnd::Link => PdEnd::Link,
        MdTagEnd::Image => PdEnd::Image,
        MdTagEnd::DefinitionList => PdEnd::DefinitionList,
        MdTagEnd::DefinitionListTitle => PdEnd::DefinitionListTitle,
        _ => PdEnd::DefinitionListDefinition,
    }
}

/// Converts the crate's `MdEvent` back, structured variants.
#[verifier::external_body]
fn to_pd_event(e: &MdEvent) -> PdEv<'static> {
    match e {
        MdEvent::Start(t) => PdEv::Start(to_pd_tag(t)),
        MdEvent::End(t) => PdEv::End(to_pd_end(t)),
        MdEvent::Text(s) => PdEv::Text(s.clone().into()),
        MdEvent::Code(s) => PdEv::Code(s.clone().into()),
        MdEvent::Math(MdMathKind::Inline, s) => PdEv::InlineMath(s.clone().into()),
        MdEvent::Math(MdMathKind::Display, s) => PdEv::DisplayMath(s.clone().into()),
        MdEvent::Html(s) => PdEv::Html(s.clone().into()),
        other => to_pd_event_leaf(other),
    }
}

/// Converts the crate's `MdEvent` back, leaf variants.
#[verifier::external_body]
fn to_pd_event_leaf(e: &MdEvent) -> PdEv<'static> {
    match e {
        MdEvent::InlineHtml(s) => PdEv::InlineHtml(s.clone().into()),
        MdEvent::FootnoteReference(s) => PdEv::FootnoteReference(s.clone().into()),
        MdEvent::SoftBreak => PdEv::SoftBreak,
        MdEvent::HardBreak => PdEv::HardBreak,
        MdEvent::TaskListMarker(b) => PdEv::TaskListMarker(*b),
        _ => PdEv::Rule,
    }
}

/// Converts a group of the crate's events back, in order.
#[verifier::external_body]
fn to_pd_events(group: &Vec<(usize, MdEvent)>) -> Vec<PdEv<'static>> {
    group.iter().map(|(_, e)| to_pd_event(e)).collect()
}

/// Converts `pulldown_cmark_to_cmark::Error`, one arm per variant.
#[verifier::external_body]
fn conv_cmark_err(e: pulldown_cmark_to_cmark::Error) -> ReconstructError {
    match e {
        pulldown_cmark_to_cmark::Error::FormatFailed(_) => ReconstructError::FormatFailed,
        pulldown_cmark_to_cmark::Error::UnexpectedEvent => ReconstructError::UnexpectedEvent,
    }
}

/// Relies on `pulldown_cmark_to_cmark::Options`: the canonical style
/// handed to the serializer, with the given fence token count.
#[verifier::external_body]
fn render_options(token_count: usize) -> pulldown_cmark_to_cmark::Options<'static> {
    pulldown_cmark_to_cmark::Options {
        code_block_token_count: token_count,
        list_token: '-',
        emphasis_token: '_',
        strong_token: "**",
        ..Default::default()
    }
}

/// Relies on the public fields of `pulldown_cmark_to_cmark::State`:
/// the same state with pending newlines and padding suppressed.
#[verifier::external_body]
fn simplified_state(state: Option<&RenderState>) -> Option<RenderState> {
    state.cloned().map(|mut s| {
        s.newlines_before_start = 0;
        s.padding = Vec::new();
        s
    })
}

/// Relies on `pulldown_cmark_to_cmark::calculate_code_block_token_count`:
/// the fence token count needed so that fences inside the group stay
/// nested, a function of the events alone.
#[verifier::external_body]
fn calc_code_block_token_count(group: &Vec<(usize, MdEvent)>) -> (r: Option<usize>)
    ensures
        r == code_token_count_of(bare_events(events_view(group@))),
{
    pulldown_cmark_to_cmark::calculate_code_block_token_count(
        group.iter().map(|(_, e)| to_pd_event(e)),
    )
}

/// Relies on `pulldown_cmark_to_cmark::cmark_resume_with_options`,
/// called twice as one unit: a first pass resumed from `state` whose
/// output is discarded but whose final state is kept, and a second
/// pass from `state` with pending newlines and padding suppressed,
/// whose output is kept.  The serializer is deterministic, so the
/// output is `rendered_after` of the state's event prefix, and the
/// returned state models the prefix extended by the group.
#[verifier::external_body]
fn cmark_render(
    group: &Vec<(usize, MdEvent)>,
    state: Option<&RenderState>,
    token_count: usize,
) -> (r: Result<(String, RenderState), ReconstructError>)
    ensures
        r is Ok <==> render_ok(
            opt_state_events(state),
            bare_events(events_view(group@)),
            token_count,
        ),
        r matches Ok(p) ==> p.0@ == rendered_after(
            opt_state_events(state),
            bare_events(events_view(group@)),
            token_count,
        ),
        r matches Ok(p) ==> state_events(p.1) == opt_state_events(state) + bare_events(
            events_view(group@),
        ),
{
    let events = to_pd_events(group);
    let new_state = match pulldown_cmark_to_cmark::cmark_resume_with_options(
        events.iter(), String::new(), state.cloned(), render_options(token_count))
    {
        Ok(s) => s,
        Err(e) => return Err(conv_cmark_err(e)),
    };
    let mut markdown = String::new();
    match pulldown_cmark_to_cmark::cmark_resume_with_options(
        events.iter(), &mut markdown, simplified_state(state), render_options(token_count))
    {
        Ok(_) => Ok((markdown, new_state)),
        Err(e) => Err(conv_cmark_err(e)),
    }
}

/// Relies on `pulldown_cmark_to_cmark::State::is_in_code_block`: the
/// state's code block field is set while the rendered events stand
/// inside an open code block.
#[verifier::external_body]
pub fn state_in_code_block(state: &RenderState) -> (r: bool)
    ensures
        r == in_code_block_after(state_events(*state)),
{
    state.is_in_code_block()
}

/// The position of the first character of `s` that is not a newline.
pub open spec fn first_non_newline(s: Seq<char>) -> int
    decreases s.len(),
{
    if s.len() == 0 {
        0
    } else if s[0] != '\n' {
        0
    } else {
        1 + first_non_newline(s.drop_first())
    }
}

/// `s` without its leading newline characters.
pub open spec fn trim_leading_newlines(s: Seq<char>) -> Seq<char> {
    s.skip(first_non_newline(s))
}

proof fn lemma_first_non_newline_bounds(s: Seq<char>)
    ensures
        0 <= first_non_newline(s) <= s.len(),
        forall|i: int| 0 <= i < first_non_newline(s) ==> s[i] == '\n',
        first_non_newline(s) < s.len() ==> s[first_non_newline(s)] != '\n',
    decreases s.len(),
{
    if s.len() != 0 && s[0] == '\n' {
        lemma_first_non_newline_bounds(s.drop_first());
        assert forall|i: int| 0 <= i < first_non_newline(s) implies s[i] == '\n' by {
            if i > 0 {
                assert(s.drop_first()[i - 1] == '\n');
            }
        }
    }
}

/// Removes leading newline characters from `s`.
fn strip_leading_newlines(s: String) -> (r: String)
    ensures
        r@ == trim_leading_newlines(s@),
{
    let text: &str = s.as_str();
    let len: usize = text.unicode_len();
    let mut i: usize = 0;
    proof {
        lemma_first_non_newline_bounds(s@);
    }
    while i < len && text.get_char(i) == '\n'
        invariant
            0 <= i <= len,
            len == s@.len(),
            text@ == s@,
            forall|j: int| 0 <= j < i ==> s@[j] == '\n',
            i <= first_non_newline(s@),
        decreases len - i,
    {
        proof {
            lemma_first_non_newline_bounds(s@);
        }
        i = i + 1;
    }
    proof {
        lemma_first_non_newline_bounds(s@);
        if i < len {
            assert(s@[i as int] != '\n');
        }
        assert(i == first_non_newline(s@));
    }
    let rest: &str = text.substring_char(i, len);
    let r = rest.to_owned();
    proof {
        assert(r@ =~= trim_leading_newlines(s@));
    }
    r
}

/// The fence token count used to render a group: the count the
/// serializer derives from the events, or three if it derives none.
pub open spec fn spec_token_count(group: Seq<MdEventS>) -> usize {
    match code_token_count_of(group) {
        Some(n) => n,
        None => 3,
    }
}

/// Render a group of Markdown events back to canonical Markdown.
///
/// The `state` resumes reconstruction after earlier groups; `None`
/// starts a fresh document.  On success the result holds the
/// rendered text, with leading newlines removed so that the group is
/// self-contained, and the state to use for the next group.
pub fn reconstruct_markdown(
    group: &Vec<(usize, MdEvent)>,
    state: Option<&RenderState>,
) -> (r: Result<(String, RenderState), ReconstructError>)
    ensures
        r is Ok <==> render_ok(
            opt_state_events(state),
            bare_events(events_view(group@)),
            spec_token_count(bare_events(events_view(group@))),
        ),
        r matches Ok(p) ==> {
            &&& p.0@ == trim_leading_newlines(
                rendered_after(
                    opt_state_events(state),
                    bare_events(events_view(group@)),
                    spec_token_count(bare_events(events_view(group@))),
                ),
            )
            &&& state_events(p.1) == opt_state_events(state) + bare_events(events_view(group@))
        },
{
    let token_count: usize = match calc_code_block_token_count(group) {
        Some(n) => n,
        None => 3,
    };
    match cmark_render(group, state, token_count) {
        Ok((markdown, new_state)) => Ok((strip_leading_newlines(markdown), new_state)),
        Err(e) => Err(e),
    }
}

} // verus!
