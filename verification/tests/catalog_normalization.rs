//! Tests for normalizing catalogs onto the current extraction shape.

use mdbook_i18n_helpers::{normalize, Catalog, CatalogMetadata, Message};

// Create a catalog from the translation pairs given.
fn create_catalog(translations: &[(&str, &str)]) -> Catalog {
    let mut catalog = Catalog::new(CatalogMetadata::new());
    for (idx, (msgid, msgstr)) in translations.iter().enumerate() {
        let message = Message::build_singular()
            .with_source(format!("foo.md:{idx}"))
            .with_msgid(String::from(*msgid))
            .with_msgstr(String::from(*msgstr))
            .done();
        catalog.append_or_update(message);
    }
    catalog
}

fn exact<'a>(msgid: &'a str, msgstr: &'a str) -> (bool, &'a str, &'a str) {
    (false, msgid, msgstr)
}

fn fuzzy<'a>(msgid: &'a str, msgstr: &'a str) -> (bool, &'a str, &'a str) {
    (true, msgid, msgstr)
}

fn assert_normalized_messages_eq(catalog: Catalog, expected_messages: &[(bool, &str, &str)]) {
    let normalized = normalize(catalog).expect("Could not normalize");
    let messages = normalized
        .messages()
        .iter()
        .map(|msg| (msg.is_fuzzy(), msg.msgid(), msg.msgstr().unwrap()))
        .collect::<Vec<(bool, &str, &str)>>();
    assert_eq!(messages, expected_messages);
}

#[test]
fn test_normalize_untranslated() {
    let catalog = create_catalog(&[("foo bar", "")]);
    assert_normalized_messages_eq(catalog, &[exact("foo bar", "")]);
}

#[test]
fn test_normalize_first_wins() {
    let catalog = create_catalog(&[("foo", "FOO 1"), ("# foo", "# FOO 2")]);
    assert_normalized_messages_eq(catalog, &[exact("foo", "FOO 1")]);
}

#[test]
fn test_normalize_early_translation_wins() {
    let catalog = create_catalog(&[("foo", "FOO 1"), ("# foo", "")]);
    assert_normalized_messages_eq(catalog, &[exact("foo", "FOO 1")]);
}

#[test]
fn test_normalize_late_translation_wins() {
    let catalog = create_catalog(&[("foo", ""), ("# foo", "# FOO 2")]);
    assert_normalized_messages_eq(catalog, &[exact("foo", "FOO 2")]);
}

#[test]
fn test_normalize_fuzzy_wins() {
    let mut catalog = create_catalog(&[("foo", ""), ("# foo", "# FOO 2")]);
    catalog.messages[1].flags.add_flag("fuzzy");
    assert_normalized_messages_eq(catalog, &[fuzzy("foo", "FOO 2")]);
}

#[test]
fn test_normalize_softbreak() {
    let catalog = create_catalog(&[("foo\nbar", "FOO\nBAR\nBAZ")]);
    assert_normalized_messages_eq(catalog, &[exact("foo bar", "FOO BAR BAZ")]);
}

#[test]
fn test_normalize_inline_link() {
    let catalog = create_catalog(&[(
        "foo [bar](http://example.net/) baz",
        "FOO [BAR](http://example.net/) BAZ",
    )]);
    assert_normalized_messages_eq(
        catalog,
        &[exact(
            "foo [bar](http://example.net/) baz",
            "FOO [BAR](http://example.net/) BAZ",
        )],
    );
}

#[test]
fn test_normalize_reference_link() {
    // Check that we can normalize a reference link when its link
    // definition is in a different message.
    let catalog = create_catalog(&[
        ("Unrelated paragraph before.", "UNRELATED PARAGRAPH BEFORE."),
        (
            "foo [bar][reference-link] baz",
            "FOO [BAR][reference-link] BAZ",
        ),
        ("Unrelated paragraph after.", "UNRELATED PARAGRAPH AFTER."),
        (
            "[reference-link]: http://example.net/\n[other-link]: http://example.com/",
            "[reference-link]: HTTP://EXAMPLE.NET/\n[other-link]: HTTP://EXAMPLE.COM/",
        ),
    ]);
    assert_normalized_messages_eq(
        catalog,
        &[
            exact("Unrelated paragraph before.", "UNRELATED PARAGRAPH BEFORE."),
            exact(
                "foo [bar](http://example.net/) baz",
                "FOO [BAR](HTTP://EXAMPLE.NET/) BAZ",
            ),
            exact("Unrelated paragraph after.", "UNRELATED PARAGRAPH AFTER."),
        ],
    );
}

#[test]
fn test_normalize_paragraphs() {
    let catalog = create_catalog(&[("foo\n\nbar", "FOO\n\nBAR")]);
    assert_normalized_messages_eq(catalog, &[exact("foo", "FOO"), exact("bar", "BAR")]);
}

#[test]
fn test_normalize_fuzzy_paragraphs_too_many() {
    let catalog = create_catalog(&[("foo\n\nbar", "FOO\n\nBAR\n\nBAZ")]);
    assert_normalized_messages_eq(catalog, &[fuzzy("foo", "FOO"), fuzzy("bar", "BAR\n\nBAZ")]);
}

#[test]
fn test_normalize_fuzzy_paragraphs_too_few() {
    let catalog = create_catalog(&[("foo\n\nbar\n\nbaz", "FOO\n\nBAR")]);
    assert_normalized_messages_eq(
        catalog,
        &[fuzzy("foo", "FOO"), fuzzy("bar", "BAR"), fuzzy("baz", "")],
    );
}

#[test]
fn test_normalize_list_items() {
    let catalog = create_catalog(&[("* foo\n* bar", "* FOO\n* BAR")]);
    assert_normalized_messages_eq(catalog, &[exact("foo", "FOO"), exact("bar", "BAR")]);
}

#[test]
fn test_normalize_fuzzy_list_items_too_many() {
    let catalog = create_catalog(&[("* foo\n* bar", "* FOO\n* BAR\n* BAZ")]);
    assert_normalized_messages_eq(catalog, &[fuzzy("foo", "FOO"), fuzzy("bar", "BAR\n\nBAZ")]);
}

#[test]
fn test_normalize_fuzzy_list_items_too_few() {
    let catalog = create_catalog(&[("* foo\n* bar\n* baz", "* FOO\n* BAR")]);
    assert_normalized_messages_eq(
        catalog,
        &[fuzzy("foo", "FOO"), fuzzy("bar", "BAR"), fuzzy("baz", "")],
    );
}

#[test]
fn test_normalize_inline_html() {
    let catalog = create_catalog(&[("foo <span>bar</span>", "FOO <span>BAR</span>")]);
    assert_normalized_messages_eq(
        catalog,
        &[exact("foo <span>bar</span>", "FOO <span>BAR</span>")],
    );
}

#[test]
fn test_normalize_block_html() {
    let catalog = create_catalog(&[(
        "<div class=\"warning\">\n\nfoo\n\n</div>",
        "<div class=\"warning\">\n\nFOO\n\n</div>",
    )]);
    assert_normalized_messages_eq(catalog, &[exact("foo", "FOO")]);
}

#[test]
fn test_normalize_disappearing_html() {
    // Normalizing "<b>" results in no messages.
    let catalog = create_catalog(&[("<b>", "FOO")]);
    assert_normalized_messages_eq(catalog, &[]);
}

#[test]
fn test_normalize_code_blocks() {
    let catalog = create_catalog(&[(
        "```rust,editable\n// Example\nfoo\n\n* bar\n```",
        "```rust,editable\n// Beispiel\nFOO\n\n* BAR\n```",
    )]);
    assert_normalized_messages_eq(catalog, &[exact("// Example\n", "// Beispiel\n")]);
}

#[test]
fn test_normalize_block_quote() {
    let catalog = create_catalog(&[("> foo bar\n> baz", "> FOO BAR\n> BAZ")]);
    assert_normalized_messages_eq(catalog, &[exact("foo bar baz", "FOO BAR BAZ")]);
}

#[test]
fn test_normalize_block_quote_with_list() {
    let catalog = create_catalog(&[(
        "> * foo bar\n>   baz\n> * quux",
        "> * FOO BAR\n>   BAZ\n> * QUUX",
    )]);
    assert_normalized_messages_eq(
        catalog,
        &[exact("foo bar baz", "FOO BAR BAZ"), exact("quux", "QUUX")],
    );
}

#[test]
fn test_normalize_table() {
    let catalog = create_catalog(&[(
        "\
            |        | Types       |\n\
            |--------|-------------|\n\
            | Arrays | `[T; N]`    |\n\
            | Tuples | `()`, ...   |",
        "\
            |   | TYPES |\n\
            |---|---|\n\
            | ARRAYS | `[T; N]`  |\n\
            | TUPLES | `()`, ... |",
    )]);
    assert_normalized_messages_eq(
        catalog,
        &[
            exact("Types", "TYPES"),
            exact("Arrays", "ARRAYS"),
            exact("`[T; N]`", "`[T; N]`"),
            exact("Tuples", "TUPLES"),
            exact("`()`, ...", "`()`, ..."),
        ],
    );
}

#[test]
fn test_normalize_twice_is_stable() {
    // Normalizing a normalized catalog changes nothing.
    let samples: Vec<Vec<(&str, &str)>> = vec![
        vec![("foo\n\nbar", "FOO\n\nBAR\n\nBAZ")],
        vec![("# Title", "# TITre"), ("* a\n* b", "* A\n* B")],
        vec![("foo bar", "")],
    ];
    for translations in samples {
        let once = normalize(create_catalog(&translations)).unwrap();
        let first = once
            .messages()
            .iter()
            .map(|m| {
                (
                    m.is_fuzzy(),
                    m.msgid().to_string(),
                    m.msgstr().unwrap().to_string(),
                )
            })
            .collect::<Vec<_>>();
        let twice = normalize(once).unwrap();
        let second = twice
            .messages()
            .iter()
            .map(|m| {
                (
                    m.is_fuzzy(),
                    m.msgid().to_string(),
                    m.msgstr().unwrap().to_string(),
                )
            })
            .collect::<Vec<_>>();
        assert_eq!(first, second);
    }
}
