//! Markdown parsing behind a trusted boundary.
//!
//! The CommonMark parser of the `pulldown_cmark` crate turns text
//! into a stream of events with byte ranges.  The wrappers here run
//! the parser with the extension set used for book chapters (tables,
//! old-style footnotes, strikethrough, task lists, heading
//! attributes) and convert each event, one for one, into the crate's
//! own [`MdEvent`](crate::events::MdEvent) model.  Everything after the
//! byte offsets — line numbering, soft-break normalization, shortcut
//! link expansion — is verified code in this module.

use vstd::prelude::*;
use vstd::string::StringSliceAdditionalSpecFns;

use pulldown_cmark::Alignment as PdAlign;
use pulldown_cmark::BlockQuoteKind as PdBq;
use pulldown_cmark::CodeBlockKind as PdCb;
use pulldown_cmark::CowStr;
use pulldown_cmark::Event as PdEv;
use pulldown_cmark::HeadingLevel as PdLevel;
use pulldown_cmark::LinkType as PdLink;
use pulldown_cmark::MetadataBlockKind as PdMb;
use pulldown_cmark::Tag as PdTag;
use pulldown_cmark::TagEnd as PdEnd;

use crate::events::{MdAlignment, MdBlockQuoteKind, MdCodeBlockKind, MdEvent, MdHeadingLevel, MdLinkType,
    MdMathKind, MdMetadataKind, MdTag, MdTagEnd};
use crate::events::{MdEventS, MdTagS, events_view, pos_event_view};
use crate::render::{RenderState, in_code_block_after, opt_state_events, state_events, state_in_code_block};

verus! {

#[verifier::external_type_specification]
#[verifier::external_body]
pub struct ExPdEvent<'a>(pulldown_cmark::Event<'a>);

#[verifier::external_type_specification]
#[verifier::external_body]
pub struct ExPdTag<'a>(pulldown_cmark::Tag<'a>);

#[verifier::external_type_specification]
#[verifier::external_body]
pub struct ExPdTagEnd(pulldown_cmark::TagEnd);

#[verifier::external_type_specification]
#[verifier::external_body]
pub struct ExPdLinkType(pulldown_cmark::LinkType);

#[verifier::external_type_specification]
#[verifier::external_body]
pub struct ExPdCodeBlockKind<'a>(pulldown_cmark::CodeBlockKind<'a>);

#[verifier::external_type_specification]
#[verifier::external_body]
pub struct ExPdHeadingLevel(pulldown_cmark::HeadingLevel);

#[verifier::external_type_specification]
#[verifier::external_body]
pub struct ExPdAlignment(pulldown_cmark::Alignment);

#[verifier::external_type_specification]
#[verifier::external_body]
pub struct ExPdBlockQuoteKind(pulldown_cmark::BlockQuoteKind);

#[verifier::external_type_specification]
#[verifier::external_body]
pub struct ExPdMetadataBlockKind(pulldown_cmark::MetadataBlockKind);

#[verifier::external_type_specification]
#[verifier::external_body]
pub struct ExPdCowStr<'a>(pulldown_cmark::CowStr<'a>);

#[verifier::external_type_specification]
#[verifier::external_body]
pub struct ExPdOptions(pulldown_cmark::Options);

/// Converts `pulldown_cmark::CowStr` into an owned string.
#[verifier::external_body]
fn conv_cow(s: CowStr<'_>) -> String {
    s.into_string()
}

/// Converts `pulldown_cmark::HeadingLevel`, one arm per variant.
#[verifier::external_body]
fn conv_level(l: PdLevel) -> MdHeadingLevel {
    match l {
        PdLevel::H1 => MdHeadingLevel::H1,
        PdLevel::H2 => MdHeadingLevel::H2,
        PdLevel::H3 => MdHeadingLevel::H3,
        PdLevel::H4 => MdHeadingLevel::H4,
        PdLevel::H5 => MdHeadingLevel::H5,
        PdLevel::H6 => MdHeadingLevel::H6,
    }
}

/// Converts `pulldown_cmark::LinkType`, one arm per variant.  The
/// wikilink extension is never enabled by the parser wrappers.
#[verifier::external_body]
fn conv_linktype(l: PdLink) -> MdLinkType {
    match l {
        PdLink::Inline => MdLinkType::Inline,
        PdLink::Reference => MdLinkType::Reference,
        PdLink::ReferenceUnknown => MdLinkType::ReferenceUnknown,
        PdLink::Collapsed => MdLinkType::Collapsed,
        PdLink::CollapsedUnknown => MdLinkType::CollapsedUnknown,
        PdLink::Shortcut => MdLinkType::Shortcut,
        PdLink::ShortcutUnknown => MdLinkType::ShortcutUnknown,
        PdLink::Autolink => MdLinkType::Autolink,
        PdLink::Email => MdLinkType::Email,
        PdLink::WikiLink { .. } => MdLinkType::Inline,
    }
}

/// Converts `pulldown_cmark::BlockQuoteKind`, one arm per variant.
#[verifier::external_body]
fn conv_bq(k: Option<PdBq>) -> Option<MdBlockQuoteKind> {
    match k? {
        PdBq::Note => Some(MdBlockQuoteKind::Note),
        PdBq::Tip => Some(MdBlockQuoteKind::Tip),
        PdBq::Important => Some(MdBlockQuoteKind::Important),
        PdBq::Warning => Some(MdBlockQuoteKind::Warning),
        PdBq::Caution => Some(MdBlockQuoteKind::Caution),
    }
}

/// Converts `pulldown_cmark::MetadataBlockKind`, one arm per variant.
#[verifier::external_body]
fn conv_mb(k: PdMb) -> MdMetadataKind {
    match k {
        PdMb::YamlStyle => MdMetadataKind::YamlStyle,
        PdMb::PlusesStyle => MdMetadataKind::PlusesStyle,
    }
}

/// Converts `pulldown_cmark::Alignment`, one arm per variant.
#[verifier::external_body]
fn conv_align(a: PdAlign) -> MdAlignment {
    match a {
        PdAlign::None => MdAlignment::Unspecified,
        PdAlign::Left => MdAlignment::Left,
        PdAlign::Center => MdAlignment::Center,
        PdAlign::Right => MdAlignment::Right,
    }
}

/// Converts `pulldown_cmark::CodeBlockKind`, one arm per variant.
#[verifier::external_body]
fn conv_cb(k: PdCb<'_>) -> MdCodeBlockKind {
    match k {
        PdCb::Indented => MdCodeBlockKind::Indented,
        PdCb::Fenced(info) => MdCodeBlockKind::Fenced(conv_cow(info)),
    }
}

/// Converts the fields of `pulldown_cmark::Tag::Heading`.
#[verifier::external_body]
fn conv_heading(
    level: PdLevel,
    id: Option<CowStr<'_>>,
    classes: Vec<CowStr<'_>>,
    attrs: Vec<(CowStr<'_>, Option<CowStr<'_>>)>,
) -> MdTag {
    MdTag::Heading {
        level: conv_level(level),
        id: id.map(conv_cow),
        classes: classes.into_iter().map(conv_cow).collect(),
        attrs: attrs.into_iter().map(|(k, v)| (conv_cow(k), v.map(conv_cow))).collect(),
    }
}

/// Converts the fields of `pulldown_cmark::Tag::Link`.
#[verifier::external_body]
fn conv_link(lt: PdLink, dest_url: CowStr<'_>, title: CowStr<'_>, id: CowStr<'_>) -> MdTag {
    MdTag::Link {
        link_type: conv_linktype(lt),
        dest_url: conv_cow(dest_url),
        title: conv_cow(title),
        id: conv_cow(id),
    }
}

/// Converts the fields of `pulldown_cmark::Tag::Image`.
#[verifier::external_body]
fn conv_image(lt: PdLink, dest_url: CowStr<'_>, title: CowStr<'_>, id: CowStr<'_>) -> MdTag {
    MdTag::Image {
        link_type: conv_linktype(lt),
        dest_url: conv_cow(dest_url),
        title: conv_cow(title),
        id: conv_cow(id),
    }
}

/// Converts the field-carrying variants of `pulldown_cmark::Tag`.
#[verifier::external_body]
fn conv_tag(t: PdTag<'_>) -> MdTag {
    match t {
        PdTag::Heading { level, id, classes, attrs } => conv_heading(level, id, classes, attrs),
        PdTag::BlockQuote(k) => MdTag::BlockQuote(conv_bq(k)),
        PdTag::CodeBlock(k) => MdTag::CodeBlock(conv_cb(k)),
        PdTag::List(start) => MdTag::List(start),
        PdTag::FootnoteDefinition(l) => MdTag::FootnoteDefinition(conv_cow(l)),
        PdTag::Table(a) => MdTag::Table(a.into_iter().map(conv_align).collect()),
        PdTag::Link { link_type, dest_url, title, id } => conv_link(link_type, dest_url, title, id),
        PdTag::Image { link_type, dest_url, title, id } => conv_image(link_type, dest_url, title, id),
        PdTag::MetadataBlock(k) => MdTag::MetadataBlock(conv_mb(k)),
        other => conv_tag_unit(other),
    }
}

/// Converts the field-less block variants of `pulldown_cmark::Tag`.
#[verifier::external_body]
fn conv_tag_unit(t: PdTag<'_>) -> MdTag {
    match t {
        PdTag::Paragraph => MdTag::Paragraph,
        PdTag::HtmlBlock => MdTag::HtmlBlock,
        PdTag::Item => MdTag::Item,
        PdTag::DefinitionList => MdTag::DefinitionList,
        PdTag::DefinitionListTitle => MdTag::DefinitionListTitle,
        PdTag::DefinitionListDefinition => MdTag::DefinitionListDefinition,
        PdTag::TableHead => MdTag::TableHead,
        other => conv_tag_span(other),
    }
}

/// Converts the field-less span variants of `pulldown_cmark::Tag`.
#[verifier::external_body]
fn conv_tag_span(t: PdTag<'_>) -> MdTag {
    match t {
        PdTag::TableRow => MdTag::TableRow,
        PdTag::TableCell => MdTag::TableCell,
        PdTag::Emphasis => MdTag::Emphasis,
        PdTag::Strong => MdTag::Strong,
        PdTag::Strikethrough => MdTag::Strikethrough,
        PdTag::Superscript => MdTag::Superscript,
        _ => MdTag::Subscript,
    }
}

/// Converts `pulldown_cmark::TagEnd`, block-level variants.
#[verifier::external_body]
fn conv_end(e: PdEnd) -> MdTagEnd {
    match e {
        PdEnd::Paragraph => MdTagEnd::Paragraph,
        PdEnd::Heading(l) => MdTagEnd::Heading(conv_level(l)),
        PdEnd::BlockQuote(k) => MdTagEnd::BlockQuote(conv_bq(k)),
        PdEnd::CodeBlock => MdTagEnd::CodeBlock,
        PdEnd::HtmlBlock => MdTagEnd::HtmlBlock,
        PdEnd::List(ordered) => MdTagEnd::List(ordered),
        PdEnd::Item => MdTagEnd::Item,
        PdEnd::FootnoteDefinition => MdTagEnd::FootnoteDefinition,
        PdEnd::MetadataBlock(k) => MdTagEnd::MetadataBlock(conv_mb(k)),
        other => conv_end_mid(other),
    }
}

/// Converts `pulldown_cmark::TagEnd`, table and emphasis variants.
#[verifier::external_body]
fn conv_end_mid(e: PdEnd) -> MdTagEnd {
    match e {
        PdEnd::Table => MdTagEnd::Table,
        PdEnd::TableHead => MdTagEnd::TableHead,
        PdEnd::TableRow => MdTagEnd::TableRow,
        PdEnd::TableCell => MdTagEnd::TableCell,
        PdEnd::Emphasis => MdTagEnd::Emphasis,
        PdEnd::Strong => MdTagEnd::Strong,
        PdEnd::Strikethrough => MdTagEnd::Strikethrough,
        other => conv_end_inline(other),
    }
}

/// Converts `pulldown_cmark::TagEnd`, remaining variants.
#[verifier::external_body]
fn conv_end_inline(e: PdEnd) -> MdTagEnd {
    match e {
        PdEnd::Superscript => MdTagEnd::Superscript,
        PdEnd::Subscript => MdTagEnd::Subscript,
        PdEnd::Link => MdTagEnd::Link,
        PdEnd::Image => MdTagEnd::Image,
        PdEnd::DefinitionList => MdTagEnd::DefinitionList,
        PdEnd::DefinitionListTitle => MdTagEnd::DefinitionListTitle,
        _ => MdTagEnd::DefinitionListDefinition,
    }
}

/// Converts `pulldown_cmark::Event`, structured variants.
#[verifier::external_body]
fn conv_event(e: PdEv<'_>) -> MdEvent {
    match e {
        PdEv::Start(t) => MdEvent::Start(conv_tag(t)),
        PdEv::End(t) => MdEvent::End(conv_end(t)),
        PdEv::Text(s) => MdEvent::Text(conv_cow(s)),
        PdEv::Code(s) => MdEvent::Code(conv_cow(s)),
        PdEv::InlineMath(s) => MdEvent::Math(MdMathKind::Inline, conv_cow(s)),
        PdEv::DisplayMath(s) => MdEvent::Math(MdMathKind::Display, conv_cow(s)),
        PdEv::Html(s) => MdEvent::Html(conv_cow(s)),
        other => conv_event_leaf(other),
    }
}

/// Converts `pulldown_cmark::Event`, leaf variants.
#[verifier::external_body]
fn conv_event_leaf(e: PdEv<'_>) -> MdEvent {
    match e {
        PdEv::InlineHtml(s) => MdEvent::InlineHtml(conv_cow(s)),
        PdEv::FootnoteReference(s) => MdEvent::FootnoteReference(conv_cow(s)),
        PdEv::SoftBreak => MdEvent::SoftBreak,
        PdEv::HardBreak => MdEvent::HardBreak,
        PdEv::TaskListMarker(b) => MdEvent::TaskListMarker(b),
        _ => MdEvent::Rule,
    }
}

/// Relies on `pulldown_cmark::Options`: the extension set used for
/// book chapters.
#[verifier::external_body]
fn parser_options() -> pulldown_cmark::Options {
    let mut options = pulldown_cmark::Options::empty();
    options.insert(pulldown_cmark::Options::ENABLE_TABLES);
    options.insert(pulldown_cmark::Options::ENABLE_OLD_FOOTNOTES);
    options.insert(pulldown_cmark::Options::ENABLE_STRIKETHROUGH);
    options.insert(pulldown_cmark::Options::ENABLE_TASKLISTS);
    options.insert(pulldown_cmark::Options::ENABLE_HEADING_ATTRIBUTES);
    options
}

/// The events and starting byte offsets that the CommonMark parser
/// yields for `text`, with tables, old-style footnotes,
/// strikethrough, task lists and heading attributes enabled, and no
/// broken link callback.  The result is a function of `text` alone.
pub uninterp spec fn parsed_at_offsets(text: Seq<char>) -> Seq<(usize, MdEventS)>;

/// As [`parsed_at_offsets`], but with a broken link callback that
/// resolves every unknown reference to an empty destination, so that
/// reference, collapsed and shortcut links without a definition
/// surface as events with an `Unknown` link type.
pub uninterp spec fn parsed_at_offsets_resolving(text: Seq<char>) -> Seq<(usize, MdEventS)>;

/// Relies on `pulldown_cmark::Parser::new_with_broken_link_callback`
/// and `OffsetIter`: parses `text` as CommonMark and yields each
/// event with the starting byte offset of its source range, which
/// lies within `text`.
#[verifier::external_body]
fn parse_at_offsets(text: &str) -> (r: Vec<(usize, MdEvent)>)
    ensures
        events_view(r@) == parsed_at_offsets(text@),
        forall|i: int| 0 <= i < r@.len() ==> #[trigger] r@[i].0 <= text.spec_bytes().len(),
        forall|i: int| 0 <= i < r@.len() ==> #[trigger] r@[i].0 < usize::MAX,
{
    let parser = pulldown_cmark::Parser::new_with_broken_link_callback(
        text,
        parser_options(),
        None::<pulldown_cmark::DefaultBrokenLinkCallback>,
    );
    parser.into_offset_iter().map(|(event, range)| (range.start, conv_event(event))).collect()
}

/// Relies on `pulldown_cmark::Parser::new_with_broken_link_callback`
/// with a callback resolving every broken reference to an empty
/// destination; otherwise as [`parse_at_offsets`].
#[verifier::external_body]
pub(crate) fn parse_at_offsets_resolving(text: &str) -> (r: Vec<(usize, MdEvent)>)
    ensures
        events_view(r@) == parsed_at_offsets_resolving(text@),
        forall|i: int| 0 <= i < r@.len() ==> #[trigger] r@[i].0 <= text.spec_bytes().len(),
        forall|i: int| 0 <= i < r@.len() ==> #[trigger] r@[i].0 < usize::MAX,
{
    let callback = |_link: pulldown_cmark::BrokenLink<'_>| {
        Some((CowStr::from(""), CowStr::from("")))
    };
    let parser = pulldown_cmark::Parser::new_with_broken_link_callback(
        text,
        parser_options(),
        Some(callback),
    );
    parser.into_offset_iter().map(|(event, range)| (range.start, conv_event(event))).collect()
}


/// The number of newline bytes among the first `end` bytes.
pub open spec fn count_newlines_before(bytes: Seq<u8>, end: int) -> int
    decreases end,
{
    if end <= 0 {
        0
    } else {
        count_newlines_before(bytes, end - 1) + if bytes[end - 1] == 10u8 {
            1int
        } else {
            0int
        }
    }
}

/// The 1-based line number of the character at byte offset `offset`.
pub open spec fn line_number_at(bytes: Seq<u8>, offset: int) -> int {
    1 + count_newlines_before(bytes, offset)
}

/// The number of lines of a document, counting a final line without
/// a terminator; the empty document has one line.
pub open spec fn document_lines(bytes: Seq<u8>) -> int {
    1 + count_newlines_before(bytes, bytes.len() as int)
}

/// A resolved reference, collapsed or shortcut link type becomes an
/// inline link; other types are kept.  The point of the rewrite is
/// that every extracted message is self-contained: its links carry
/// their destinations, so `Click [here]!` with a definition yields
/// the message `Click [here](http://example.net/)!`.  The serializer
/// used here writes reference links in reference style, so the
/// self-contained form is the inline type, and the rewrite covers
/// all three resolved reference forms, not the shortcut form alone.
pub open spec fn expand_shortcut(l: MdLinkType) -> MdLinkType {
    if l is Shortcut || l is Collapsed || l is Reference {
        MdLinkType::Inline
    } else {
        l
    }
}

/// Normalization applied to each parsed event: soft breaks become a
/// single space, and resolved reference, collapsed and shortcut
/// links become inline links, so that the reconstructed Markdown is
/// self-contained.
pub open spec fn normalized_event(e: MdEventS) -> MdEventS {
    match e {
        MdEventS::SoftBreak => MdEventS::Text(seq![' ']),
        MdEventS::Start(MdTagS::Link { link_type, dest_url, title, id }) => MdEventS::Start(
            MdTagS::Link { link_type: expand_shortcut(link_type), dest_url, title, id },
        ),
        MdEventS::Start(MdTagS::Image { link_type, dest_url, title, id }) => MdEventS::Start(
            MdTagS::Image { link_type: expand_shortcut(link_type), dest_url, title, id },
        ),
        _ => e,
    }
}

/// The events that extraction yields for a text outside a code
/// block: the parser's events, labeled with the line on which their
/// source range begins, soft breaks and resolved reference links
/// normalized.
pub open spec fn extraction_of(s: Seq<char>) -> Seq<(usize, MdEventS)> {
    parsed_at_offsets(s).map_values(
        |p: (usize, MdEventS)|
            (
                line_number_at(vstd::utf8::encode_utf8(s), p.0 as int) as usize,
                normalized_event(p.1),
            ),
    )
}

/// [`extraction_of`], applied to a string slice.
pub open spec fn extracted_events_of(text: &str) -> Seq<(usize, MdEventS)> {
    extraction_of(text@)
}

/// As [`extracted_events_of`], for parsing with broken link
/// resolution.
pub open spec fn extracted_events_resolving_of(text: &str) -> Seq<(usize, MdEventS)> {
    parsed_at_offsets_resolving(text@).map_values(
        |p: (usize, MdEventS)|
            (line_number_at(text.spec_bytes(), p.0 as int) as usize, normalized_event(p.1)),
    )
}

/// The position of the first newline of `s`, or `s.len()` if there
/// is none.
pub open spec fn first_newline(s: Seq<char>) -> int
    decreases s.len(),
{
    if s.len() == 0 {
        0
    } else if s[0] == '\n' {
        0
    } else {
        1 + first_newline(s.drop_first())
    }
}

/// `s` split after each newline character, terminators kept; the
/// empty sequence has no lines.
pub open spec fn line_split(s: Seq<char>) -> Seq<Seq<char>>
    decreases s.len(),
{
    if s.len() == 0 {
        Seq::empty()
    } else {
        let i = first_newline(s);
        if 0 <= i < s.len() {
            seq![s.subrange(0, i + 1)] + line_split(s.subrange(i + 1, s.len() as int))
        } else {
            seq![s]
        }
    }
}

/// The events that extraction yields inside a code block: one text
/// event per line of `s`, numbered from one.
pub open spec fn code_line_events(s: Seq<char>) -> Seq<(usize, MdEventS)> {
    line_split(s).map(|i: int, line: Seq<char>| ((i + 1) as usize, MdEventS::Text(line)))
}

/// Inside a code block the line numbers of the extracted events are
/// strictly increasing, starting from one.
pub proof fn lemma_code_line_numbers_increase(s: Seq<char>, i: int, j: int)
    requires
        0 <= i < j < code_line_events(s).len(),
        code_line_events(s).len() <= usize::MAX,
    ensures
        code_line_events(s)[i].0 < code_line_events(s)[j].0,
        code_line_events(s)[i].0 == i + 1,
{
    assert(code_line_events(s)[i].0 == (i + 1) as usize);
    assert(code_line_events(s)[j].0 == (j + 1) as usize);
}

proof fn lemma_first_newline_bounds(s: Seq<char>)
    ensures
        0 <= first_newline(s) <= s.len(),
        forall|i: int| 0 <= i < first_newline(s) ==> s[i] != '\n',
        first_newline(s) < s.len() ==> s[first_newline(s)] == '\n',
    decreases s.len(),
{
    if s.len() != 0 && s[0] != '\n' {
        lemma_first_newline_bounds(s.drop_first());
        assert forall|i: int| 0 <= i < first_newline(s) implies s[i] != '\n' by {
            if i > 0 {
                assert(s.drop_first()[i - 1] != '\n');
            }
        }
    }
}

fn count_newlines(bytes: &[u8], end: usize) -> (c: usize)
    requires
        end <= bytes@.len(),
    ensures
        c == count_newlines_before(bytes@, end as int),
        c <= end,
{
    let mut c: usize = 0;
    let mut j: usize = 0;
    while j < end
        invariant
            0 <= j <= end <= bytes@.len(),
            c == count_newlines_before(bytes@, j as int),
            c <= j,
        decreases end - j,
    {
        if bytes[j] == 10u8 {
            c = c + 1;
        }
        j = j + 1;
    }
    c
}

/// Extraction inside a code block: the text is not parsed as
/// Markdown but split into its lines, so that reconstruction yields
/// the exact bytes of the source.
fn split_code_lines(text: &str) -> (r: Vec<(usize, MdEvent)>)
    ensures
        events_view(r@) =~= code_line_events(text@),
{
    let len: usize = text.unicode_len();
    let mut r: Vec<(usize, MdEvent)> = Vec::new();
    let mut start: usize = 0;
    proof {
        assert(text@.skip(0) =~= text@);
    }
    while start < len
        invariant
            0 <= start <= len,
            len == text@.len(),
            r@.len() <= start,
            line_split(text@) =~= Seq::new(r@.len(), |k: int| r@[k].1->Text_0@) + line_split(
                text@.skip(start as int),
            ),
            forall|k: int|
                0 <= k < r@.len() ==> (#[trigger] r@[k]).0 == k + 1 && r@[k].1 is Text,
        decreases len - start,
    {
        let ghost rest = text@.skip(start as int);
        let ghost prev = r@;
        let mut j: usize = start;
        while j < len && text.get_char(j) != '\n'
            invariant
                start <= j <= len,
                len == text@.len(),
                forall|m: int| start <= m < j ==> text@[m] != '\n',
            decreases len - j,
        {
            j = j + 1;
        }
        proof {
            lemma_first_newline_bounds(rest);
            assert forall|i: int| 0 <= i < j - start implies rest[i] != '\n' by {
                assert(text@[start + i] != '\n');
            }
            if j < len {
                assert(rest[j - start] == '\n');
                if first_newline(rest) < j - start {
                    assert(rest[first_newline(rest)] == '\n');
                }
                assert(first_newline(rest) == j - start);
            } else {
                if first_newline(rest) < rest.len() {
                    assert(rest[first_newline(rest)] == '\n');
                }
                assert(first_newline(rest) == rest.len());
            }
        }
        let end: usize = if j < len {
            j + 1
        } else {
            len
        };
        let line: &str = text.substring_char(start, end);
        let lineno: usize = r.len() + 1;
        let line_string = line.to_owned();
        r.push((lineno, MdEvent::Text(line_string)));
        proof {
            let s = text@;
            if j < len {
                assert(line_split(rest) =~= seq![rest.subrange(0, (j - start) + 1)] + line_split(
                    rest.subrange((j - start) + 1, rest.len() as int),
                ));
                assert(rest.subrange(0, (j - start) + 1) =~= s.subrange(start as int, end as int));
                assert(rest.subrange((j - start) + 1, rest.len() as int) =~= s.skip(end as int));
                assert(line_split(rest) == seq![s.subrange(start as int, end as int)] + line_split(
                    s.skip(end as int),
                ));
            } else {
                assert(first_newline(rest) == rest.len());
                assert(line_split(rest) =~= seq![rest]);
                assert(rest =~= s.subrange(start as int, end as int));
                assert(s.skip(end as int) =~= Seq::<char>::empty());
                assert(line_split(s.skip(end as int)) =~= Seq::<Seq<char>>::empty());
                assert(line_split(rest) == seq![s.subrange(start as int, end as int)] + line_split(
                    s.skip(end as int),
                ));
            }
            assert(r@ == prev + seq![(lineno, MdEvent::Text(line_string))]);
            assert(line_string@ == s.subrange(start as int, end as int));
            assert(Seq::new(r@.len(), |k: int| r@[k].1->Text_0@) =~= Seq::new(
                prev.len(),
                |k: int| prev[k].1->Text_0@,
            ) + seq![s.subrange(start as int, end as int)]);
        }
        start = end;
    }
    proof {
        assert(text@.skip(start as int).len() == 0);
        assert(line_split(text@.skip(start as int)) =~= Seq::<Seq<char>>::empty());
        let lines = line_split(text@);
        assert(lines =~= Seq::new(r@.len(), |k: int| r@[k].1->Text_0@));
        assert forall|k: int| 0 <= k < r@.len() implies events_view(r@)[k] == code_line_events(
            text@,
        )[k] by {
            assert(events_view(r@)[k] == pos_event_view(r@[k]));
            assert(r@[k].1 is Text);
            assert(lines[k] == r@[k].1->Text_0@);
            assert(r@[k].1@ == MdEventS::Text(lines[k]));
        }
        assert(events_view(r@).len() == code_line_events(text@).len());
    }
    r
}

fn normalize_event(e: &MdEvent) -> (r: MdEvent)
    ensures
        r@ == normalized_event(e@),
{
    match e {
        MdEvent::SoftBreak => {
            let space = new_space_string();
            MdEvent::Text(space)
        },
        MdEvent::Start(
            MdTag::Link {
                link_type: MdLinkType::Shortcut | MdLinkType::Collapsed | MdLinkType::Reference,
                dest_url,
                title,
                id,
            },
        ) => {
            MdEvent::Start(
                MdTag::Link {
                    link_type: MdLinkType::Inline,
                    dest_url: dest_url.clone(),
                    title: title.clone(),
                    id: id.clone(),
                },
            )
        },
        MdEvent::Start(
            MdTag::Image {
                link_type: MdLinkType::Shortcut | MdLinkType::Collapsed | MdLinkType::Reference,
                dest_url,
                title,
                id,
            },
        ) => {
            MdEvent::Start(
                MdTag::Image {
                    link_type: MdLinkType::Inline,
                    dest_url: dest_url.clone(),
                    title: title.clone(),
                    id: id.clone(),
                },
            )
        },
        other => other.clone(),
    }
}

fn new_space_string() -> (r: String)
    ensures
        r@ =~= seq![' '],
{
    proof {
        reveal_strlit(" ");
    }
    String::from_str(" ")
}

proof fn lemma_count_newlines_monotonic(bytes: Seq<u8>, a: int, b: int)
    requires
        a <= b,
    ensures
        count_newlines_before(bytes, a) <= count_newlines_before(bytes, b),
    decreases b - a,
{
    if a < b {
        lemma_count_newlines_monotonic(bytes, a, b - 1);
    }
}

/// Extract Markdown events from `text`.
///
/// The `state` resumes extraction after earlier groups.  When the
/// state stands inside a code block the text is split into plain
/// lines instead of being parsed, so that reconstruction reproduces
/// the author's exact bytes.  Otherwise the text is parsed as
/// CommonMark; each event is labeled with the 1-based line number on
/// which its source range begins, soft breaks become a single space,
/// and shortcut links are expanded to reference links.
pub fn extract_events(text: &str, state: Option<&RenderState>) -> (r: Vec<(usize, MdEvent)>)
    ensures
        in_code_block_after(opt_state_events(state)) ==> events_view(r@) == code_line_events(
            text@,
        ),
        !in_code_block_after(opt_state_events(state)) ==> events_view(r@) == extracted_events_of(
            text,
        ),
        !in_code_block_after(opt_state_events(state)) ==> forall|i: int|
            0 <= i < r@.len() ==> 1 <= #[trigger] r@[i].0 <= document_lines(text.spec_bytes()),
{
    let in_code = match state {
        Some(s) => state_in_code_block(s),
        None => false,
    };
    if in_code {
        split_code_lines(text)
    } else {
        let raw = parse_at_offsets(text);
        let bytes: &[u8] = text.as_bytes();
        let mut r: Vec<(usize, MdEvent)> = Vec::new();
        let mut i: usize = 0;
        while i < raw.len()
            invariant
                0 <= i <= raw.len(),
                bytes@ == text.spec_bytes(),
                events_view(raw@) == parsed_at_offsets(text@),
                forall|k: int| 0 <= k < raw@.len() ==> #[trigger] raw@[k].0 <= bytes@.len(),
                forall|k: int| 0 <= k < raw@.len() ==> #[trigger] raw@[k].0 < usize::MAX,
                events_view(r@) == extracted_events_of(text).take(i as int),
                forall|k: int|
                    0 <= k < r@.len() ==> 1 <= (#[trigger] r@[k]).0 <= document_lines(bytes@),
            decreases raw.len() - i,
        {
            let ghost prev = r@;
            let offset: usize = raw[i].0;
            let count: usize = count_newlines(bytes, offset);
            let lineno: usize = count + 1;
            let ev = normalize_event(&raw[i].1);
            proof {
                lemma_count_newlines_monotonic(bytes@, offset as int, bytes@.len() as int);
                assert(events_view(raw@)[i as int] == pos_event_view(raw@[i as int]));
                assert(parsed_at_offsets(text@)[i as int] == (raw@[i as int].0, raw@[i as int].1@));
                assert(extracted_events_of(text)[i as int] == (
                    line_number_at(text.spec_bytes(), raw@[i as int].0 as int) as usize,
                    normalized_event(raw@[i as int].1@),
                ));
                assert(lineno as int == line_number_at(text.spec_bytes(), offset as int));
            }
            proof {
                let target = extracted_events_of(text);
                assert(target.len() == raw@.len());
                assert(events_view(prev).len() == prev.len());
                assert(prev.len() == i);
            }
            r.push((lineno, ev));
            proof {
                assert(r@ == prev + seq![(lineno, ev)]);
                let target = extracted_events_of(text);
                assert(pos_event_view((lineno, ev)) == target[i as int]);
                assert forall|k: int| 0 <= k < i + 1 implies events_view(r@)[k] == target.take(
                    i + 1,
                )[k] by {
                    assert(r@.len() == i + 1);
                    assert(events_view(r@)[k] == pos_event_view(r@[k]));
                    if k < i {
                        assert(r@[k] == prev[k]);
                        assert(events_view(prev)[k] == pos_event_view(prev[k]));
                        assert(events_view(prev)[k] == target.take(i as int)[k]);
                    } else {
                        assert(r@[k] == (lineno, ev));
                    }
                }
                assert(events_view(r@) =~= target.take(i + 1));
            }
            i = i + 1;
        }
        proof {
            assert(extracted_events_of(text).take(i as int) =~= extracted_events_of(text));
        }
        r
    }
}

} // verus!
