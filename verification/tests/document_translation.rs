//! Tests for translating documents and books with a catalog.

use mdbook_i18n_helpers::{
    add_stripped_summary_translations, translate, translate_book, Book, BookItem, Catalog,
    CatalogMetadata, Message,
};

fn create_catalog(translations: &[(&str, &str)]) -> Catalog {
    let mut catalog = Catalog::new(CatalogMetadata::new());
    for (msgid, msgstr) in translations {
        let message = Message::build_singular()
            .with_msgid(String::from(*msgid))
            .with_msgstr(String::from(*msgstr))
            .done();
        catalog.append_or_update(message);
    }
    catalog
}

fn create_book(items: Vec<BookItem>) -> Book {
    Book { sections: items }
}

#[test]
fn test_add_stripped_summary_translations() {
    // Add two messages which map to the same stripped message.
    let mut catalog = create_catalog(&[
        ("foo `bar`", "FOO `BAR`"),
        ("**foo** _bar_", "**FOO** _BAR_"),
    ]);
    for idx in 0..catalog.messages().len() {
        // Set the source to SUMMARY.md to ensure
        // add_stripped_summary_translations will add a stripped
        // version.
        catalog.messages[idx].source = format!("src/SUMMARY.md:{idx}");
    }
    add_stripped_summary_translations(&mut catalog);

    assert_eq!(
        catalog
            .messages()
            .iter()
            .map(|msg| (msg.source(), msg.msgid(), msg.msgstr().unwrap()))
            .collect::<Vec<_>>(),
        &[
            ("src/SUMMARY.md:0", "foo `bar`", "FOO `BAR`"),
            ("src/SUMMARY.md:1", "**foo** _bar_", "**FOO** _BAR_"),
            ("", "foo bar", "FOO BAR")
        ]
    );
}

#[test]
fn test_translate_single_line() {
    let catalog = create_catalog(&[("foo bar", "FOO BAR")]);
    assert_eq!(translate("foo bar", &catalog).unwrap(), "FOO BAR");
}

#[test]
fn test_translate_single_paragraph() {
    let catalog = create_catalog(&[("foo bar", "FOO BAR")]);
    // The output is normalized so the newline disappears.
    assert_eq!(translate("foo bar\n", &catalog).unwrap(), "FOO BAR");
}

#[test]
fn test_translate_paragraph_with_leading_newlines() {
    let catalog = create_catalog(&[("foo bar", "FOO BAR")]);
    assert_eq!(translate("\n\n\nfoo bar\n", &catalog).unwrap(), "FOO BAR");
}

#[test]
fn test_translate_paragraph_with_trailing_newlines() {
    let catalog = create_catalog(&[("foo bar", "FOO BAR")]);
    assert_eq!(translate("foo bar\n\n\n", &catalog).unwrap(), "FOO BAR");
}

#[test]
fn test_translate_multiple_paragraphs() {
    let catalog = create_catalog(&[("foo bar", "FOO BAR")]);
    assert_eq!(
        translate(
            "first paragraph\n\nfoo bar\n\nlast paragraph\n",
            &catalog
        )
        .unwrap(),
        "first paragraph\n\nFOO BAR\n\nlast paragraph"
    );
}

#[test]
fn test_translate_multiple_paragraphs_extra_newlines() {
    // Notice how the translated paragraphs have more lines.
    let catalog = create_catalog(&[
        ("first paragraph", "FIRST TRANSLATED PARAGRAPH"),
        ("last paragraph", "LAST TRANSLATED PARAGRAPH"),
    ]);
    assert_eq!(
        translate(
            "first\nparagraph\n\n\nlast\nparagraph\n",
            &catalog
        )
        .unwrap(),
        "FIRST TRANSLATED PARAGRAPH\n\nLAST TRANSLATED PARAGRAPH"
    );
}

#[test]
fn test_translate_code_block() {
    let catalog = create_catalog(&[
        ("\"hello\"", "\"guten tag\""),
        ("// line comment\n", "// linie kommentar\n"),
        ("/* block\ncomment */", "/* block\nkommentar */"),
        ("/* inline comment */", "/* inline kommentar */"),
    ]);
    assert_eq!(
        translate(
            "Text before.\n\n\n```rust,editable\n// line comment\nfn foo() {\n\n    let x /* inline comment */ = \"hello\"; // line comment\n\n}\n/* block\ncomment */\n```\n\nText after.\n",
            &catalog
        ).unwrap(),
        "Text before.\n\n```rust,editable\n// linie kommentar\nfn foo() {\n\n    let x /* inline kommentar */ = \"guten tag\"; // linie kommentar\n\n}\n/* block\nkommentar */\n```\n\nText after.",
    );
}

#[test]
fn test_translate_code_block_multiple_line_comments() {
    let catalog = create_catalog(&[(
        "// Fun fact\n\
              // \n\
              // The star waves trembled slightly,\n\
              // neutrons and nuclei whispered,\n\
              // and the mystery became clearer.\n",
        "// 趣味事实\n\
              // \n\
              // 星波轻颤动，\n\
              // 中子核密语声声，\n\
              // 奥秘渐分明。\n",
    )]);
    assert_eq!(
        translate(
            "```c++\n\
                // Fun fact\n\
                // \n\
                // The star waves trembled slightly,\n\
                // neutrons and nuclei whispered,\n\
                // and the mystery became clearer.\n\
                ```",
            &catalog
        )
        .unwrap(),
        "```c++\n\
            // 趣味事实\n\
            // \n\
            // 星波轻颤动，\n\
            // 中子核密语声声，\n\
            // 奥秘渐分明。\n\
            ```",
    );
}

#[test]
fn test_translate_code_block_multiline_block_comment() {
    let catalog = create_catalog(&[(
        "/* Fun fact\n\
               * \n\
               * The star waves trembled slightly,\n\
               * neutrons and nuclei whispered,\n\
               * and the mystery became clearer.\n\
               */",
        "/* 趣味事实\n\
               * \n\
               * 星波轻颤动，\n\
               * 中子核密语声声，\n\
               * 奥秘渐分明。\n\
               */",
    )]);
    assert_eq!(
        translate(
            "```c++\n\
                /* Fun fact\n\
                 * \n\
                 * The star waves trembled slightly,\n\
                 * neutrons and nuclei whispered,\n\
                 * and the mystery became clearer.\n\
                 */\n\
                ```",
            &catalog
        )
        .unwrap(),
        "```c++\n\
            /* 趣味事实\n\
             * \n\
             * 星波轻颤动，\n\
             * 中子核密语声声，\n\
             * 奥秘渐分明。\n\
             */\n\
            ```",
    );
}

#[test]
fn test_translate_custom_code_block_admonish() {
    let catalog = create_catalog(&[(
        "```admonish tip title=\"Fun fact\"\n\
            The star waves trembled slightly, \n\
            neutrons and nuclei whispered, \n\
            and the mystery became clearer. \n```",
        "```admonish tip title=\"趣味事实\"\n\
             星波轻颤动，\n\
             中子核密语声声，\n\
             奥秘渐分明。\n```",
    )]);
    assert_eq!(
        translate(
            "```admonish tip title=\"Fun fact\"\n\
                The star waves trembled slightly, \n\
                neutrons and nuclei whispered, \n\
                and the mystery became clearer. \n\
                ```",
            &catalog
        )
        .unwrap(),
        "```admonish tip title=\"趣味事实\"\n\
            星波轻颤动，\n\
            中子核密语声声，\n\
            奥秘渐分明。\n\
            ```",
    );
}

#[test]
fn test_translate_custom_code_block_admonish_no_title() {
    // The info string names no known language, so the block falls
    // back to the heuristic; without a string literal or a line
    // comment it is not translated.
    let catalog = create_catalog(&[(
        "```admonish tip\n\
            The star waves trembled slightly, \n\
            neutrons and nuclei whispered, \n\
            and the mystery became clearer. \n```",
        "```admonish tip\n\
             星波轻颤动，\n\
             中子核密语声声，\n\
             奥秘渐分明。\n```",
    )]);
    assert_eq!(
        translate(
            "```admonish tip\n\
                The star waves trembled slightly, \n\
                neutrons and nuclei whispered, \n\
                and the mystery became clearer. \n\
                ```",
            &catalog
        )
        .unwrap(),
        "```admonish tip\n\
            The star waves trembled slightly, \n\
            neutrons and nuclei whispered, \n\
            and the mystery became clearer. \n\
            ```",
    );
}

#[test]
fn test_translate_inline_html() {
    let catalog = create_catalog(&[("foo <b>bar</b> baz", "FOO <b>BAR</b> BAZ")]);
    assert_eq!(
        translate("foo <b>bar</b> baz", &catalog).unwrap(),
        "FOO <b>BAR</b> BAZ"
    );
}

#[test]
fn test_translate_block_html() {
    let catalog = create_catalog(&[("foo", "FOO"), ("bar", "BAR")]);
    assert_eq!(
        translate("<div>\n\nfoo\n\n</div><div>\n\nbar\n\n</div>", &catalog).unwrap(),
        "<div>\n\nFOO\n\n</div><div>\n\nBAR\n\n</div>"
    );
}

#[test]
fn test_translate_table() {
    let catalog = create_catalog(&[
        ("Types", "TYPES"),
        ("Literals", "LITERALS"),
        ("Arrays", "ARRAYS"),
        ("Tuples", "TUPLES"),
    ]);
    // The alignment is lost when we generate new Markdown.
    assert_eq!(
        translate(
            "\
                |        | Types       | Literals        |\n\
                |--------|-------------|-----------------|\n\
                | Arrays | `[T; N]`    | `[20, 30, 40]`  |\n\
                | Tuples | `()`, ...   | `()`, `('x',)`  |",
            &catalog
        )
        .unwrap(),
        "\
            ||TYPES|LITERALS|\n\
            |-|-----|--------|\n\
            |ARRAYS|`[T; N]`|`[20, 30, 40]`|\n\
            |TUPLES|`()`, ...|`()`, `('x',)`|",
    );
}

#[test]
fn test_translate_html_in_table() {
    let catalog = create_catalog(&[
        ("Icon", "ICON"),
        ("Description", "DESCRIPTION"),
        ("<img src=\"some-icon.svg\"", "<img src=\"some-icon.svg\""),
        ("Some description.", "SOME DESCRIPTION."),
    ]);
    assert_eq!(
        translate(
            "\
                | Icon                         | Description       |\n\
                |------------------------------|-------------------|\n\
                | <img src=\"some-icon.svg\"/> | Some description. |",
            &catalog
        )
        .unwrap(),
        "\
            |ICON|DESCRIPTION|\n\
            |----|-----------|\n\
            |<img src=\"some-icon.svg\"/>|SOME DESCRIPTION.|"
    );
}

#[test]
fn test_translate_escaped_pipe_in_table() {
    let catalog = create_catalog(&[("foo\\|bar", "FOO\\|BAR")]);
    assert_eq!(
        translate("|foo\\|bar|\n|---------|", &catalog).unwrap(),
        "|FOO\\|BAR|\n|-------|",
    );
}

#[test]
fn test_footnote() {
    let catalog = create_catalog(&[
        ("A footnote[^note].", "A FOOTNOTE[^note]."),
        ("More details.", "MORE DETAILS."),
    ]);
    assert_eq!(
        translate("A footnote[^note].\n\n[^note]: More details.", &catalog).unwrap(),
        "A FOOTNOTE[^note].\n\n[^note]: MORE DETAILS."
    );
}

#[test]
fn test_strikethrough() {
    let catalog = create_catalog(&[("~~foo~~", "~~FOO~~")]);
    assert_eq!(translate("~~foo~~", &catalog).unwrap(), "~~FOO~~");
}

#[test]
fn test_tasklists() {
    let catalog = create_catalog(&[("Foo", "FOO"), ("Bar", "BAR")]);
    assert_eq!(
        translate("- [x] Foo\n- [ ] Bar\n", &catalog).unwrap(),
        "- [x] FOO\n- [ ] BAR",
    );
}

#[test]
fn test_heading_attributes() {
    let catalog = create_catalog(&[("Foo", "FOO"), ("Bar", "BAR")]);
    assert_eq!(
        translate("# Foo { #id .foo }", &catalog).unwrap(),
        "# FOO { #id .foo }"
    );
}

#[test]
fn test_backquote_in_codeblock() {
    let catalog = create_catalog(&[]);
    assert_eq!(
        translate("````d\n```\n````\n", &catalog).unwrap(),
        "````d\n```\n````",
    );
}

#[test]
fn test_translate_book_invalid() {
    let catalog = create_catalog(&[("Hello", "Ciao\n---")]);
    let mut book = create_book(vec![BookItem::PartTitle(String::from("Hello\n---"))]);
    assert!(translate_book(&catalog, &mut book).is_err());
}

#[test]
fn test_translate_empty_catalog_identity() {
    // With an empty catalog, translation reconstructs the document.
    let catalog = create_catalog(&[]);
    assert_eq!(
        translate("# One\n\nTwo *three* four.\n\n- a\n- b\n", &catalog).unwrap(),
        "# One\n\nTwo _three_ four.\n\n- a\n- b"
    );
}
