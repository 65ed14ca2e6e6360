//! Helpers for translating Markdown books.
//!
//! The crate implements an internationalization workflow for
//! Markdown-based books: it extracts translatable text into gettext
//! catalogs, substitutes translations back into the Markdown, and
//! normalizes existing catalogs onto the current extraction shape.

pub mod events;
pub mod parse;
pub mod render;
pub mod text;
pub mod directives;
pub mod groups;
pub mod syntax;
pub mod catalog;
pub mod messages;
pub mod paths;
pub mod gettext;
pub mod normalize;
pub mod xgettext;
pub mod stats;

pub use catalog::{Catalog, CatalogMetadata, Message, MessageBuilder, MessageFlags};
pub use directives::{Directive, find, is_delimiter};
pub use events::{MdEvent, MdTag, MdTagEnd};
pub use gettext::{add_stripped_summary_translations, strip_formatting, translate, translate_book};
pub use gettext::{Book, BookChapter, BookItem};
pub use groups::{Group, group_events};
pub use messages::{ExtractedMessage, extract_messages, translate_events, trim_paragraph};
pub use normalize::{compute_source, normalize, normalize_with_sources, parse_source,
    MessageField, SourceMap};
pub use parse::extract_events;
pub use paths::{UniquePathBuilder, slug};
pub use render::{ReconstructError, RenderState, reconstruct_markdown};
pub use stats::MessageStats;
pub use text::wrap_sources;
pub use xgettext::{CatalogMap, RenderInput, add_message, build_path, build_source, create_catalog,
    create_catalogs, dedup_sources, strip_link};
