//! The event model: a positioned stream of CommonMark parse events.
//!
//! Markdown text is turned into a sequence of `(line number, MdEvent)`
//! pairs.  The events mirror the constructs of CommonMark together
//! with the extensions used for book chapters: tables, footnotes,
//! strikethrough, task lists and heading attributes.

use vstd::prelude::*;

verus! {

/// Heading level of a `MdTag::Heading`.
#[derive(Clone, Copy, Debug, PartialEq, Eq, Structural)]
pub enum MdHeadingLevel {
    H1,
    H2,
    H3,
    H4,
    H5,
    H6,
}

/// The form of a link or image reference.
#[derive(Clone, Copy, Debug, PartialEq, Eq, Structural)]
pub enum MdLinkType {
    /// Inline link like `[foo](bar)`.
    Inline,
    /// Reference link like `[foo][bar]`.
    Reference,
    /// Reference link whose definition is missing from the document.
    ReferenceUnknown,
    /// Collapsed link like `[foo][]`.
    Collapsed,
    /// Collapsed link whose definition is missing from the document.
    CollapsedUnknown,
    /// Shortcut link like `[foo]`.
    Shortcut,
    /// Shortcut link whose definition is missing from the document.
    ShortcutUnknown,
    /// Autolink like `<http://foo.bar/baz>`.
    Autolink,
    /// Email address in an autolink.
    Email,
}

/// Text alignment of a table column.
#[derive(Clone, Copy, Debug, PartialEq, Eq, Structural)]
pub enum MdAlignment {
    Unspecified,
    Left,
    Center,
    Right,
}

/// Kind of an admonition block quote.
#[derive(Clone, Copy, Debug, PartialEq, Eq, Structural)]
pub enum MdBlockQuoteKind {
    Note,
    Tip,
    Important,
    Warning,
    Caution,
}

/// Kind of a metadata block.
#[derive(Clone, Copy, Debug, PartialEq, Eq, Structural)]
pub enum MdMetadataKind {
    YamlStyle,
    PlusesStyle,
}

/// Whether a math environment is inline or display style.
#[derive(Clone, Copy, Debug, PartialEq, Eq, Structural)]
pub enum MdMathKind {
    Inline,
    Display,
}

/// Kind of a code block: indented, or fenced with an info string.
#[derive(Debug, PartialEq)]
pub enum MdCodeBlockKind {
    Indented,
    /// The contained value is the info string of the fence, which
    /// names the language of the code and may be empty.
    Fenced(String),
}

/// Start of a block or inline construct.
#[derive(Debug, PartialEq)]
pub enum MdTag {
    Paragraph,
    /// A heading with optional identifier, classes and custom attributes.
    Heading {
        level: MdHeadingLevel,
        id: Option<String>,
        classes: Vec<String>,
        attrs: Vec<(String, Option<String>)>,
    },
    BlockQuote(Option<MdBlockQuoteKind>),
    CodeBlock(MdCodeBlockKind),
    HtmlBlock,
    /// A list; for an ordered list the field holds the first number.
    List(Option<u64>),
    Item,
    /// A footnote definition with its label.
    FootnoteDefinition(String),
    DefinitionList,
    DefinitionListTitle,
    DefinitionListDefinition,
    /// A table with the alignment of each column.
    Table(Vec<MdAlignment>),
    TableHead,
    TableRow,
    TableCell,
    Emphasis,
    Strong,
    Strikethrough,
    Superscript,
    Subscript,
    Link {
        link_type: MdLinkType,
        dest_url: String,
        title: String,
        id: String,
    },
    Image {
        link_type: MdLinkType,
        dest_url: String,
        title: String,
        id: String,
    },
    MetadataBlock(MdMetadataKind),
}

/// End of a block or inline construct.
#[derive(Clone, Copy, Debug, PartialEq, Eq, Structural)]
pub enum MdTagEnd {
    Paragraph,
    Heading(MdHeadingLevel),
    BlockQuote(Option<MdBlockQuoteKind>),
    CodeBlock,
    HtmlBlock,
    /// `true` for an ordered list.
    List(bool),
    Item,
    FootnoteDefinition,
    DefinitionList,
    DefinitionListTitle,
    DefinitionListDefinition,
    Table,
    TableHead,
    TableRow,
    TableCell,
    Emphasis,
    Strong,
    Strikethrough,
    Superscript,
    Subscript,
    Link,
    Image,
    MetadataBlock(MdMetadataKind),
}

/// One parse event.
#[derive(Debug, PartialEq)]
pub enum MdEvent {
    Start(MdTag),
    End(MdTagEnd),
    Text(String),
    Code(String),
    Math(MdMathKind, String),
    Html(String),
    InlineHtml(String),
    FootnoteReference(String),
    SoftBreak,
    HardBreak,
    Rule,
    TaskListMarker(bool),
}

/// Mathematical model of a `MdCodeBlockKind`: strings become character
/// sequences.
pub enum MdCodeBlockKindS {
    Indented,
    Fenced(Seq<char>),
}

/// Mathematical model of a `MdTag`.
pub enum MdTagS {
    Paragraph,
    Heading {
        level: MdHeadingLevel,
        id: Option<Seq<char>>,
        classes: Seq<Seq<char>>,
        attrs: Seq<(Seq<char>, Option<Seq<char>>)>,
    },
    BlockQuote(Option<MdBlockQuoteKind>),
    CodeBlock(MdCodeBlockKindS),
    HtmlBlock,
    List(Option<u64>),
    Item,
    FootnoteDefinition(Seq<char>),
    DefinitionList,
    DefinitionListTitle,
    DefinitionListDefinition,
    Table(Seq<MdAlignment>),
    TableHead,
    TableRow,
    TableCell,
    Emphasis,
    Strong,
    Strikethrough,
    Superscript,
    Subscript,
    Link { link_type: MdLinkType, dest_url: Seq<char>, title: Seq<char>, id: Seq<char> },
    Image { link_type: MdLinkType, dest_url: Seq<char>, title: Seq<char>, id: Seq<char> },
    MetadataBlock(MdMetadataKind),
}

/// Mathematical model of an `MdEvent`.
pub enum MdEventS {
    Start(MdTagS),
    End(MdTagEnd),
    Text(Seq<char>),
    Code(Seq<char>),
    Math(MdMathKind, Seq<char>),
    Html(Seq<char>),
    InlineHtml(Seq<char>),
    FootnoteReference(Seq<char>),
    SoftBreak,
    HardBreak,
    Rule,
    TaskListMarker(bool),
}

impl View for MdCodeBlockKind {
    type V = MdCodeBlockKindS;

    open spec fn view(&self) -> MdCodeBlockKindS {
        match self {
            MdCodeBlockKind::Indented => MdCodeBlockKindS::Indented,
            MdCodeBlockKind::Fenced(info) => MdCodeBlockKindS::Fenced(info@),
        }
    }
}

impl View for MdTag {
    type V = MdTagS;

    open spec fn view(&self) -> MdTagS {
        match self {
            MdTag::Paragraph => MdTagS::Paragraph,
            MdTag::Heading { level, id, classes, attrs } => MdTagS::Heading {
                level: *level,
                id: match id {
                    Some(s) => Some(s@),
                    None => None,
                },
                classes: classes@.map_values(|s: String| s@),
                attrs: attrs@.map_values(
                    |p: (String, Option<String>)|
                        (
                            p.0@,
                            match p.1 {
                                Some(s) => Some(s@),
                                None => None,
                            },
                        ),
                ),
            },
            MdTag::BlockQuote(k) => MdTagS::BlockQuote(*k),
            MdTag::CodeBlock(kind) => MdTagS::CodeBlock(kind@),
            MdTag::HtmlBlock => MdTagS::HtmlBlock,
            MdTag::List(start) => MdTagS::List(*start),
            MdTag::Item => MdTagS::Item,
            MdTag::FootnoteDefinition(label) => MdTagS::FootnoteDefinition(label@),
            MdTag::DefinitionList => MdTagS::DefinitionList,
            MdTag::DefinitionListTitle => MdTagS::DefinitionListTitle,
            MdTag::DefinitionListDefinition => MdTagS::DefinitionListDefinition,
            MdTag::Table(aligns) => MdTagS::Table(aligns@),
            MdTag::TableHead => MdTagS::TableHead,
            MdTag::TableRow => MdTagS::TableRow,
            MdTag::TableCell => MdTagS::TableCell,
            MdTag::Emphasis => MdTagS::Emphasis,
            MdTag::Strong => MdTagS::Strong,
            MdTag::Strikethrough => MdTagS::Strikethrough,
            MdTag::Superscript => MdTagS::Superscript,
            MdTag::Subscript => MdTagS::Subscript,
            MdTag::Link { link_type, dest_url, title, id } => MdTagS::Link {
                link_type: *link_type,
                dest_url: dest_url@,
                title: title@,
                id: id@,
            },
            MdTag::Image { link_type, dest_url, title, id } => MdTagS::Image {
                link_type: *link_type,
                dest_url: dest_url@,
                title: title@,
                id: id@,
            },
            MdTag::MetadataBlock(k) => MdTagS::MetadataBlock(*k),
        }
    }
}

impl View for MdEvent {
    type V = MdEventS;

    open spec fn view(&self) -> MdEventS {
        match self {
            MdEvent::Start(tag) => MdEventS::Start(tag@),
            MdEvent::End(end) => MdEventS::End(*end),
            MdEvent::Text(s) => MdEventS::Text(s@),
            MdEvent::Code(s) => MdEventS::Code(s@),
            MdEvent::Math(kind, s) => MdEventS::Math(*kind, s@),
            MdEvent::Html(s) => MdEventS::Html(s@),
            MdEvent::InlineHtml(s) => MdEventS::InlineHtml(s@),
            MdEvent::FootnoteReference(s) => MdEventS::FootnoteReference(s@),
            MdEvent::SoftBreak => MdEventS::SoftBreak,
            MdEvent::HardBreak => MdEventS::HardBreak,
            MdEvent::Rule => MdEventS::Rule,
            MdEvent::TaskListMarker(checked) => MdEventS::TaskListMarker(*checked),
        }
    }
}

fn clone_strings(v: &Vec<String>) -> (r: Vec<String>)
    ensures
        r@ =~= v@,
{
    let mut r: Vec<String> = Vec::new();
    let mut i: usize = 0;
    while i < v.len()
        invariant
            0 <= i <= v.len(),
            r@ =~= v@.take(i as int),
        decreases v.len() - i,
    {
        r.push(v[i].clone());
        proof {
            assert(r@ =~= v@.take(i + 1));
        }
        i = i + 1;
    }
    r
}

fn clone_opt_string(v: &Option<String>) -> (r: Option<String>)
    ensures
        r == *v,
{
    match v {
        Some(s) => Some(s.clone()),
        None => None,
    }
}

fn clone_attrs(v: &Vec<(String, Option<String>)>) -> (r: Vec<(String, Option<String>)>)
    ensures
        r@ =~= v@,
{
    let mut r: Vec<(String, Option<String>)> = Vec::new();
    let mut i: usize = 0;
    while i < v.len()
        invariant
            0 <= i <= v.len(),
            r@ =~= v@.take(i as int),
        decreases v.len() - i,
    {
        let (k, val) = &v[i];
        r.push((k.clone(), clone_opt_string(val)));
        proof {
            assert(r@ =~= v@.take(i + 1));
        }
        i = i + 1;
    }
    r
}

impl Clone for MdCodeBlockKind {
    fn clone(&self) -> (r: Self)
        ensures
            r@ == self@,
    {
        match self {
            MdCodeBlockKind::Indented => MdCodeBlockKind::Indented,
            MdCodeBlockKind::Fenced(info) => MdCodeBlockKind::Fenced(info.clone()),
        }
    }
}

impl Clone for MdTag {
    fn clone(&self) -> (r: Self)
        ensures
            r@ == self@,
    {
        match self {
            MdTag::Paragraph => MdTag::Paragraph,
            MdTag::Heading { level, id, classes, attrs } => MdTag::Heading {
                level: *level,
                id: clone_opt_string(id),
                classes: clone_strings(classes),
                attrs: clone_attrs(attrs),
            },
            MdTag::BlockQuote(k) => MdTag::BlockQuote(*k),
            MdTag::CodeBlock(kind) => MdTag::CodeBlock(kind.clone()),
            MdTag::HtmlBlock => MdTag::HtmlBlock,
            MdTag::List(start) => MdTag::List(*start),
            MdTag::Item => MdTag::Item,
            MdTag::FootnoteDefinition(label) => MdTag::FootnoteDefinition(label.clone()),
            MdTag::DefinitionList => MdTag::DefinitionList,
            MdTag::DefinitionListTitle => MdTag::DefinitionListTitle,
            MdTag::DefinitionListDefinition => MdTag::DefinitionListDefinition,
            MdTag::Table(aligns) => MdTag::Table(clone_aligns(aligns)),
            MdTag::TableHead => MdTag::TableHead,
            MdTag::TableRow => MdTag::TableRow,
            MdTag::TableCell => MdTag::TableCell,
            MdTag::Emphasis => MdTag::Emphasis,
            MdTag::Strong => MdTag::Strong,
            MdTag::Strikethrough => MdTag::Strikethrough,
            MdTag::Superscript => MdTag::Superscript,
            MdTag::Subscript => MdTag::Subscript,
            MdTag::Link { link_type, dest_url, title, id } => MdTag::Link {
                link_type: *link_type,
                dest_url: dest_url.clone(),
                title: title.clone(),
                id: id.clone(),
            },
            MdTag::Image { link_type, dest_url, title, id } => MdTag::Image {
                link_type: *link_type,
                dest_url: dest_url.clone(),
                title: title.clone(),
                id: id.clone(),
            },
            MdTag::MetadataBlock(k) => MdTag::MetadataBlock(*k),
        }
    }
}

fn clone_aligns(v: &Vec<MdAlignment>) -> (r: Vec<MdAlignment>)
    ensures
        r@ =~= v@,
{
    let mut r: Vec<MdAlignment> = Vec::new();
    let mut i: usize = 0;
    while i < v.len()
        invariant
            0 <= i <= v.len(),
            r@ =~= v@.take(i as int),
        decreases v.len() - i,
    {
        r.push(v[i]);
        proof {
            assert(r@ =~= v@.take(i + 1));
        }
        i = i + 1;
    }
    r
}

impl Clone for MdEvent {
    fn clone(&self) -> (r: Self)
        ensures
            r@ == self@,
    {
        match self {
            MdEvent::Start(tag) => MdEvent::Start(tag.clone()),
            MdEvent::End(end) => MdEvent::End(*end),
            MdEvent::Text(s) => MdEvent::Text(s.clone()),
            MdEvent::Code(s) => MdEvent::Code(s.clone()),
            MdEvent::Math(kind, s) => MdEvent::Math(*kind, s.clone()),
            MdEvent::Html(s) => MdEvent::Html(s.clone()),
            MdEvent::InlineHtml(s) => MdEvent::InlineHtml(s.clone()),
            MdEvent::FootnoteReference(s) => MdEvent::FootnoteReference(s.clone()),
            MdEvent::SoftBreak => MdEvent::SoftBreak,
            MdEvent::HardBreak => MdEvent::HardBreak,
            MdEvent::Rule => MdEvent::Rule,
            MdEvent::TaskListMarker(checked) => MdEvent::TaskListMarker(*checked),
        }
    }
}

/// The model of a positioned event: the 1-based line number on which
/// the event's bytes begin, and the event itself.
pub open spec fn pos_event_view(p: (usize, MdEvent)) -> (usize, MdEventS) {
    (p.0, p.1@)
}

/// The model of a positioned event sequence.
pub open spec fn events_view(s: Seq<(usize, MdEvent)>) -> Seq<(usize, MdEventS)> {
    s.map_values(|p: (usize, MdEvent)| pos_event_view(p))
}

/// The events of a sequence, with positions dropped.
pub open spec fn bare_events(s: Seq<(usize, MdEventS)>) -> Seq<MdEventS> {
    s.map_values(|p: (usize, MdEventS)| p.1)
}

} // verus!
