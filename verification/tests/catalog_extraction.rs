//! Tests for extracting catalogs from documents and books.

use mdbook_i18n_helpers::{
    build_path, build_source, create_catalog, create_catalogs, strip_link, BookChapter, BookItem,
    RenderInput,
};

static MARKDOWN_CONTENT: &str = "# How to Foo from wef\n\
                                      \n\
                                      The first paragraph about Foo.\n\
                                      Still the first paragraph.\n";

#[test]
fn test_strip_link_empty() {
    assert_eq!(strip_link("").unwrap(), "");
}

#[test]
fn test_strip_link_text() {
    assert_eq!(strip_link("Summary").unwrap(), "Summary");
}

#[test]
fn test_strip_link_with_formatting() {
    // The formatting is automatically normalized.
    assert_eq!(
        strip_link("[foo *bar* `baz`](foo.md)").unwrap(),
        "foo _bar_ `baz`"
    );
}

#[test]
fn test_build_source_granularity_zero() {
    assert_eq!(build_source("foo.md", 0, 0), "foo.md");
    assert_eq!(build_source("foo.md", 1, 0), "foo.md");
    assert_eq!(build_source("foo.md", 9, 0), "foo.md");
    assert_eq!(build_source("foo.md", 10, 0), "foo.md");
    assert_eq!(build_source("foo.md", 11, 0), "foo.md");
    assert_eq!(build_source("foo.md", 20, 0), "foo.md");
}

#[test]
fn test_build_source_granularity_one() {
    assert_eq!(build_source("foo.md", 0, 1), "foo.md:0");
    assert_eq!(build_source("foo.md", 1, 1), "foo.md:1");
    assert_eq!(build_source("foo.md", 9, 1), "foo.md:9");
    assert_eq!(build_source("foo.md", 10, 1), "foo.md:10");
    assert_eq!(build_source("foo.md", 11, 1), "foo.md:11");
    assert_eq!(build_source("foo.md", 20, 1), "foo.md:20");
}

#[test]
fn test_build_source_granularity_ten() {
    assert_eq!(build_source("foo.md", 0, 10), "foo.md:1");
    assert_eq!(build_source("foo.md", 1, 10), "foo.md:1");
    assert_eq!(build_source("foo.md", 9, 10), "foo.md:1");
    assert_eq!(build_source("foo.md", 10, 10), "foo.md:10");
    assert_eq!(build_source("foo.md", 11, 10), "foo.md:10");
    assert_eq!(build_source("foo.md", 20, 10), "foo.md:20");
}

#[test]
fn test_build_path_given_invalid_dir() {
    let invalid_dir = "/path/to/nonexistent/dir";
    let pot_title = "test.po";

    let result = build_path(Some(invalid_dir), pot_title);

    assert!(result.is_err())
}

#[test]
fn test_build_path_default() {
    let pot_title = "test.po";
    let result = build_path(None, pot_title).unwrap();

    let mut expected = std::path::PathBuf::from(".");
    expected.push(pot_title);
    assert_eq!(expected.to_str().unwrap(), result);
}

#[test]
fn test_create_catalog_from_stdin() {
    let source_path = "-";
    let catalog = create_catalog(MARKDOWN_CONTENT, source_path, "fr", Some("wef"), "").unwrap();

    for msg in catalog.messages() {
        assert!(!msg.is_translated());
    }

    assert_eq!(catalog.metadata.language, "fr");
    assert_eq!(catalog.metadata.project_id_version, "wef");
    assert_eq!(
        catalog
            .messages()
            .iter()
            .map(|msg| msg.msgid())
            .collect::<Vec<&str>>(),
        &[
            "How to Foo from wef",
            "The first paragraph about Foo. Still the first paragraph."
        ]
    );
}

fn chapter(name: &str, content: &str, path: &str) -> BookItem {
    BookItem::Chapter(BookChapter {
        name: name.to_string(),
        content: content.to_string(),
        path: Some(path.to_string()),
        sub_items: Vec::new(),
    })
}

fn render_input(depth: usize, granularity: usize, sections: Vec<BookItem>) -> RenderInput {
    RenderInput {
        title: String::new(),
        description: String::new(),
        language: "en".to_string(),
        src_dir: "src".to_string(),
        summary: String::new(),
        summary_path: "src/SUMMARY.md".to_string(),
        granularity,
        depth,
        pot_creation_date: String::new(),
        sections,
    }
}

#[test]
fn test_create_catalogs_single_file() {
    let input = render_input(
        0,
        1,
        vec![chapter(
            "The Foo Chapter",
            "# How to Foo\n\nFirst paragraph.\nSame paragraph.\n\n[Link](https://example.com)\n",
            "foo.md",
        )],
    );
    let catalogs = create_catalogs(&input).unwrap();
    assert_eq!(catalogs.entries.len(), 1);
    assert_eq!(catalogs.entries[0].0, "messages.pot");
    let catalog = &catalogs.entries[0].1;
    assert_eq!(
        catalog
            .messages()
            .iter()
            .map(|msg| (msg.source(), msg.msgid()))
            .collect::<Vec<_>>(),
        &[
            ("src/foo.md:1", "How to Foo"),
            ("src/foo.md:3", "First paragraph. Same paragraph."),
            ("src/foo.md:6", "[Link](https://example.com)"),
        ]
    );
}

#[test]
fn test_create_catalogs_deduplicates() {
    let input = render_input(0, 1, vec![chapter("Foo", "# Foo\n\nFoo\n", "foo.md")]);
    let catalogs = create_catalogs(&input).unwrap();
    let catalog = &catalogs.entries[0].1;
    assert_eq!(
        catalog
            .messages()
            .iter()
            .map(|msg| (msg.source(), msg.msgid()))
            .collect::<Vec<_>>(),
        &[("src/foo.md:1 src/foo.md:3", "Foo")]
    );
}

#[test]
fn test_create_catalogs_granularity() {
    let input = render_input(
        0,
        5,
        vec![chapter(
            "Foo",
            "- Line 1\n\n- Line 3\n\n- Line 5\n\n- Line 7\n",
            "foo.md",
        )],
    );
    let catalogs = create_catalogs(&input).unwrap();
    let catalog = &catalogs.entries[0].1;
    assert_eq!(
        catalog
            .messages()
            .iter()
            .map(|msg| (msg.source(), msg.msgid()))
            .collect::<Vec<_>>(),
        &[
            ("src/foo.md:1", "Line 1"),
            ("src/foo.md:1", "Line 3"),
            ("src/foo.md:5", "Line 5"),
            ("src/foo.md:5", "Line 7"),
        ]
    );
}

#[test]
fn test_create_catalogs_depth_split_duplicate_parts() {
    // Three parts with the same name are disambiguated in order.
    let input = render_input(
        1,
        1,
        vec![
            BookItem::PartTitle("Foo".to_string()),
            chapter("The Foo Chapter", "# How to Foo", "foo.md"),
            BookItem::PartTitle("Foo".to_string()),
            chapter("The Foo Chapter IS BACK!", "# How to Foo Again", "foo-back.md"),
            BookItem::PartTitle("Foo".to_string()),
            chapter("Foo Chapter Again???", "# Stop the Foo", "oh-no-foo-again.md"),
        ],
    );
    let catalogs = create_catalogs(&input).unwrap();
    let keys = catalogs
        .entries
        .iter()
        .map(|(k, _)| k.as_str())
        .collect::<Vec<_>>();
    assert_eq!(keys, &["summary.pot", "foo.pot", "foo-1.pot", "foo-2.pot"]);
}

#[test]
fn test_create_catalogs_nested_chapters_depth_two() {
    let mut parent = BookChapter {
        name: "The Foo Chapter".to_string(),
        content: "# How to Foo".to_string(),
        path: Some("foo.md".to_string()),
        sub_items: Vec::new(),
    };
    parent.sub_items.push(chapter("The Bar Section", "# How to Bar", "foo/bar.md"));
    let input = render_input(
        2,
        1,
        vec![
            BookItem::PartTitle("Foo".to_string()),
            BookItem::Chapter(parent),
        ],
    );
    let catalogs = create_catalogs(&input).unwrap();
    let keys = catalogs
        .entries
        .iter()
        .map(|(k, _)| k.as_str())
        .collect::<Vec<_>>();
    assert_eq!(
        keys,
        &["summary/summary.pot", "foo/the-foo-chapter.pot"]
    );
    // Both chapters land in the part's catalog at depth two.
    let part = &catalogs.entries[1].1;
    assert_eq!(
        part.messages()
            .iter()
            .map(|msg| (msg.source(), msg.msgid()))
            .collect::<Vec<_>>(),
        &[
            ("src/foo.md:1", "How to Foo"),
            ("src/foo/bar.md:1", "How to Bar"),
        ]
    );
}

#[test]
fn test_create_catalog_metadata() {
    let input = RenderInput {
        title: "My Translatable Book".to_string(),
        description: "A lovely book".to_string(),
        language: "fr".to_string(),
        src_dir: "src".to_string(),
        summary: String::new(),
        summary_path: "src/SUMMARY.md".to_string(),
        granularity: 1,
        depth: 0,
        pot_creation_date: String::new(),
        sections: Vec::new(),
    };
    let catalogs = create_catalogs(&input).unwrap();
    let catalog = &catalogs.entries[0].1;
    assert_eq!(catalog.metadata.project_id_version, "My Translatable Book");
    assert_eq!(catalog.metadata.language, "fr");
    assert_eq!(catalog.metadata.mime_version, "1.0");
    assert_eq!(catalog.metadata.content_type, "text/plain; charset=UTF-8");
    assert_eq!(catalog.metadata.content_transfer_encoding, "8bit");
    assert_eq!(
        catalog
            .messages()
            .iter()
            .map(|msg| (msg.source(), msg.msgid(), msg.comments()))
            .collect::<Vec<_>>(),
        vec![
            ("book.toml:1", "My Translatable Book", "Book title"),
            ("book.toml:1", "A lovely book", "Book description"),
        ]
    );
}

#[test]
fn test_create_catalog_summary_formatting() {
    let mut input = render_input(
        0,
        1,
        vec![
            chapter("Prefix Chapter", "", "prefix.md"),
            BookItem::PartTitle("Part Title".to_string()),
            chapter("Foo *Bar*", "", "foo.md"),
            BookItem::Separator,
            chapter("Baz `Quux`", "", "baz.md"),
            chapter("Suffix Chapter", "", "suffix.md"),
        ],
    );
    input.summary = "# Summary\n\
                 \n\
                 [Prefix Chapter](prefix.md)\n\
                 \n\
                 # Part Title\n\
                 \n\
                 - [Foo *Bar*](foo.md)\n\
                 \n\
                 ----------\n\
                 \n\
                 - [Baz `Quux`](baz.md)\n\
                 \n\
                 [Suffix Chapter](suffix.md)"
        .to_string();
    let catalogs = create_catalogs(&input).unwrap();
    let catalog = &catalogs.entries[0].1;
    assert_eq!(
        catalog
            .messages()
            .iter()
            .map(|msg| msg.msgid())
            .collect::<Vec<&str>>(),
        &[
            "Summary",
            "Prefix Chapter",
            "Part Title",
            "Foo _Bar_",
            "Baz `Quux`",
            "Suffix Chapter",
        ]
    );
}

#[test]
fn test_split_catalog_nested_directories_depth_1() {
    let mut bar = BookChapter {
        name: "The Bar Section".to_string(),
        content: "# How to Bar".to_string(),
        path: Some("foo/bar.md".to_string()),
        sub_items: Vec::new(),
    };
    bar.sub_items.push(chapter("The Baz Subsection", "# How to Baz", "foo/bar/baz.md"));
    let mut foo = BookChapter {
        name: "The Foo Chapter".to_string(),
        content: "# How to Foo".to_string(),
        path: Some("foo.md".to_string()),
        sub_items: Vec::new(),
    };
    foo.sub_items.push(BookItem::Chapter(bar));
    let mut input = render_input(
        1,
        1,
        vec![
            chapter("Intro", "# Intro to X", "index.md"),
            BookItem::PartTitle("Foo".to_string()),
            BookItem::Chapter(foo),
            chapter("Foo Exercises", "# Exercises on Foo", "exercises/foo.md"),
        ],
    );
    input.summary = "# Summary\n\n\
                 - [Intro](index.md)\n\
                 # Foo\n\n\
                 - [The Foo Chapter](foo.md)\n\
                 \t- [The Bar Section](foo/bar.md)\n\
                 \t\t- [The Baz Subsection](foo/bar/baz.md)\n\
                 - [Foo Exercises](exercises/foo.md)"
        .to_string();
    let catalogs = create_catalogs(&input).unwrap();

    let expected: Vec<(&str, Vec<&str>)> = vec![
        (
            "summary.pot",
            vec![
                "src/SUMMARY.md:1",
                "src/SUMMARY.md:3",
                "src/SUMMARY.md:4",
                "src/SUMMARY.md:6",
                "src/SUMMARY.md:7",
                "src/SUMMARY.md:8",
                "src/SUMMARY.md:9",
                "src/index.md:1",
            ],
        ),
        (
            "foo.pot",
            vec![
                "src/foo.md:1",
                "src/foo/bar.md:1",
                "src/foo/bar/baz.md:1",
                "src/exercises/foo.md:1",
            ],
        ),
    ];
    assert_eq!(catalogs.entries.len(), expected.len());
    for (path, sources) in expected {
        let catalog = catalogs
            .entries
            .iter()
            .find(|(k, _)| k == path)
            .map(|(_, c)| c)
            .unwrap();
        assert_eq!(
            catalog
                .messages()
                .iter()
                .map(|msg| msg.source())
                .collect::<Vec<_>>(),
            sources
        );
    }
}
