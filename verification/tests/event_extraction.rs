//! Tests for event extraction and message extraction.

use mdbook_i18n_helpers::{extract_events, extract_messages, reconstruct_markdown, ExtractedMessage};
use mdbook_i18n_helpers::events::MdCodeBlockKind;
use mdbook_i18n_helpers::events::MdHeadingLevel::H1;
use mdbook_i18n_helpers::MdEvent::{self, End, Html, Start, Text};
use mdbook_i18n_helpers::MdTag;
use mdbook_i18n_helpers::MdTagEnd;

fn t(s: &str) -> String {
    String::from(s)
}

/// Extract messages in `document`, assert they match `expected`.
fn assert_extract_messages(document: &str, expected: &[(usize, &str)]) {
    assert_eq!(
        extract_messages(document)
            .unwrap()
            .iter()
            .map(|(lineno, msg)| (*lineno, &msg.message[..]))
            .collect::<Vec<_>>(),
        expected,
    );
}

#[test]
fn extract_events_empty() {
    assert_eq!(extract_events("", None), vec![]);
}

#[test]
fn extract_events_paragraph() {
    assert_eq!(
        extract_events("foo bar", None),
        vec![
            (1, Start(MdTag::Paragraph)),
            (1, Text(t("foo bar"))),
            (1, End(MdTagEnd::Paragraph)),
        ]
    );
}

#[test]
fn extract_events_softbreak() {
    assert_eq!(
        extract_events("foo\nbar", None),
        vec![
            (1, Start(MdTag::Paragraph)),
            (1, Text(t("foo"))),
            (1, Text(t(" "))),
            (2, Text(t("bar"))),
            (1, End(MdTagEnd::Paragraph)),
        ]
    );
}

#[test]
fn extract_events_heading() {
    assert_eq!(
        extract_events("# Foo Bar", None),
        vec![
            (
                1,
                Start(MdTag::Heading {
                    level: H1,
                    id: None,
                    classes: vec![],
                    attrs: vec![]
                })
            ),
            (1, Text(t("Foo Bar"))),
            (1, End(MdTagEnd::Heading(H1))),
        ]
    );
}

#[test]
fn extract_events_list_item() {
    assert_eq!(
        extract_events("* foo bar", None),
        vec![
            (1, Start(MdTag::List(None))),
            (1, Start(MdTag::Item)),
            (1, Text(t("foo bar"))),
            (1, End(MdTagEnd::Item)),
            (1, End(MdTagEnd::List(false))),
        ]
    );
}

#[test]
fn extract_events_code_block() {
    let (_, state) = reconstruct_markdown(
        &vec![(1, Start(MdTag::CodeBlock(MdCodeBlockKind::Indented)))],
        None,
    )
    .unwrap();
    assert_eq!(
        extract_events("foo\nbar\nbaz", Some(&state)),
        vec![
            (1, Text(t("foo\n"))),
            (2, Text(t("bar\n"))),
            (3, Text(t("baz"))),
        ]
    );

    // Compare with extraction without state:
    assert_eq!(
        extract_events("foo\nbar\nbaz", None),
        vec![
            (1, Start(MdTag::Paragraph)),
            (1, Text(t("foo"))),
            (1, Text(t(" "))),
            (2, Text(t("bar"))),
            (2, Text(t(" "))),
            (3, Text(t("baz"))),
            (1, End(MdTagEnd::Paragraph)),
        ]
    );
}

#[test]
fn extract_events_comments() {
    assert_eq!(
        extract_events("<!-- mdbook-xgettext:skip -->\nHello", None),
        vec![
            (1, Start(MdTag::HtmlBlock)),
            (1, Html(t("<!-- mdbook-xgettext:skip -->\n"))),
            (1, End(MdTagEnd::HtmlBlock)),
            (2, Start(MdTag::Paragraph)),
            (2, Text(t("Hello"))),
            (2, End(MdTagEnd::Paragraph)),
        ]
    );
}

#[test]
fn extract_messages_empty() {
    assert_extract_messages("", &[]);
}

#[test]
fn extract_messages_keep_empty_inline_html() {
    assert_extract_messages("<span></span>", &[(1, "<span></span>")]);
}

#[test]
fn extract_messages_keep_whitespace_inline_html() {
    assert_extract_messages("<span>  </span>", &[(1, "<span>  </span>")]);
}

#[test]
fn extract_messages_ignore_whitespace_only_block_html() {
    assert_extract_messages("<p>  </p>", &[]);
}

#[test]
fn extract_messages_single_line() {
    assert_extract_messages("This is a paragraph.", &[(1, "This is a paragraph.")]);
}

#[test]
fn extract_messages_simple() {
    assert_extract_messages(
        "This is\nthe first\nparagraph.🦀\n\nSecond paragraph.",
        &[
            (1, "This is the first paragraph.🦀"),
            (5, "Second paragraph."),
        ],
    );
}

#[test]
fn extract_messages_leading_newlines() {
    assert_extract_messages(
        "\n\n\nThis is the\nfirst paragraph.",
        &[(4, "This is the first paragraph.")],
    );
}

#[test]
fn extract_messages_trailing_newlines() {
    assert_extract_messages("This is\na paragraph.\n\n\n", &[(1, "This is a paragraph.")]);
}

#[test]
fn extract_messages_styled_text() {
    assert_extract_messages(
        "**This** __~~message~~__ _has_ `code` *style*\n",
        &[(1, "**This** **~~message~~** _has_ `code` _style_")],
    );
}

#[test]
fn extract_messages_inline_html() {
    assert_extract_messages(
        "Hi from <span dir=\"ltr\">Rust</div>",
        &[(1, "Hi from <span dir=\"ltr\">Rust</div>")],
    );
}

#[test]
fn extract_messages_block_html() {
    assert_extract_messages(
        "<div class=\"warning\">\n\nBeware of the dog!\n\n</div>",
        &[(3, "Beware of the dog!")],
    );
}

#[test]
fn extract_messages_mixed_html() {
    assert_extract_messages(
        "<div>\n\nHi from <span dir=\"ltr\">Rust</span>\n\n</div>",
        &[(3, "Hi from <span dir=\"ltr\">Rust</span>")],
    );
}

#[test]
fn extract_messages_inline_link() {
    assert_extract_messages(
        "See [this page](https://example.com) for more info.",
        &[(1, "See [this page](https://example.com) for more info.")],
    );
}

#[test]
fn extract_messages_reference_link() {
    assert_extract_messages(
        "See [this page][1] for more info.\n\n[1]: https://example.com",
        &[(1, "See [this page](https://example.com) for more info.")],
    );
}

#[test]
fn extract_messages_collapsed_link() {
    assert_extract_messages(
        "Click [here][]!\n\n[here]: http://example.net/",
        &[(1, "Click [here](http://example.net/)!")],
    );
}

#[test]
fn extract_messages_shortcut_link() {
    assert_extract_messages(
        "Click [here]!\n\n[here]: http://example.net/",
        &[(1, "Click [here](http://example.net/)!")],
    );
}

#[test]
fn extract_messages_autolink() {
    assert_extract_messages("Visit <http://example.net>!", &[(1, "Visit <http://example.net>!")]);
}

#[test]
fn extract_messages_email() {
    assert_extract_messages(
        "Contact <info@example.net>!",
        &[(1, "Contact <info@example.net>!")],
    );
}

#[test]
fn extract_messages_broken_reference_link() {
    assert_extract_messages("[foo][unknown]", &[(1, r"\[foo\]\[unknown\]")]);
}

#[test]
fn extract_messages_footnotes() {
    assert_extract_messages(
        "\nThe document[^1] text.\n\n[^1]: The footnote text.\n",
        &[(2, "The document[^1] text."), (4, "The footnote text.")],
    );
}

#[test]
fn extract_messages_block_quote() {
    assert_extract_messages(
        r"One of my favorite quotes is:

> Don't believe everything you read on the Internet.
>
> I didn't say this second part, but I needed a paragraph for testing.

--Abraham Lincoln
",
        &[
            (1, "One of my favorite quotes is:"),
            (3, "Don't believe everything you read on the Internet."),
            (
                5,
                "I didn't say this second part, but I needed a paragraph for testing.",
            ),
            (7, "\\--Abraham Lincoln"),
        ],
    );
}

#[test]
fn extract_messages_table() {
    let input = "\
            | Module Type       | Description\n\
            |-------------------|-------------------------\n\
            | `rust_binary`     | Produces a Rust binary.\n\
            | `rust_library`    | Produces a Rust library.\n\
        ";
    assert_extract_messages(
        input,
        &[
            (1, "Module Type"),
            (1, "Description"),
            (3, "`rust_binary`"),
            (3, "Produces a Rust binary."),
            (4, "`rust_library`"),
            (4, "Produces a Rust library."),
        ],
    );
}

#[test]
fn extract_messages_code_block() {
    assert_extract_messages(
        "Preamble\n```rust\n// Example:\nfn hello() {\n  some_code()\n\n  todo!()\n}\n```\nPostamble",
        &[(1, "Preamble"), (3, "// Example:\n"), (10, "Postamble")],
    );
}

#[test]
fn extract_messages_two_code_blocks() {
    assert_extract_messages(
        "```\n\"First\" block\n```\n```\n\"Second\" block\n```\n",
        &[
            (1, "```\n\"First\" block\n```"),
            (4, "```\n\"Second\" block\n```"),
        ],
    );
}

#[test]
fn extract_messages_quoted_code_block() {
    assert_extract_messages(
        "\
            > Preamble\n\
            > ```rust\n\
            > fn hello() {\n\
            >     some_code()\n\
            >\n\
            >     // FIXME: do something here!\n\
            >     todo!()\n\
            > }\n\
            > ```\n\
            > Postamble",
        &[
            (1, "Preamble"),
            (6, "// FIXME: do something here!\n"),
            (10, "Postamble"),
        ],
    );
}

#[test]
fn extract_messages_code_block_with_block_comment() {
    // Whitespace between two translatable ranges is absorbed into
    // the translatable sub-group, so the comment keeps its leading
    // spaces.
    assert_extract_messages(
        "```rust\n/* block comment\n * /* nested block comment\n * */\n * \n * \n * \n * */\n```\n",
        &[(
            2,
            "/* block comment\n * /* nested block comment\n * */\n * \n * \n * \n * */",
        )],
    );
}

#[test]
fn extract_messages_code_block_with_continuous_line_comments() {
    assert_extract_messages(
        r"```rust
// continuous
// line
// comments
{
    // continuous
    // line
    // comments
    let a = 1; // single line comment
    let b = 1; // single line comment
}
```",
        &[
            (2, "// continuous\n// line\n// comments\n"),
            (6, "// continuous\n    // line\n    // comments\n"),
            (9, "// single line comment\n"),
            (10, "// single line comment\n"),
        ],
    );
}

#[test]
fn extract_messages_multi_language_code_blocks() {
    assert_extract_messages(
        r#"```c
// C
'C'; "C";
```
```html
<!-- HTML
HTML -->
```
```javascript
`JavaScript`
```
```ruby
# Ruby
```"#,
        &[
            (2, "// C\n'C'"),
            (3, "\"C\""),
            (6, "<!-- HTML\nHTML -->"),
            (10, "`JavaScript`"),
            (13, "# Ruby\n"),
        ],
    );
}

#[test]
fn extract_messages_details() {
    assert_extract_messages(
        "Preamble\n<details>\nSome Details\n</details>\n\nPostamble",
        &[(1, "Preamble"), (6, "Postamble")],
    );
    assert_extract_messages(
        "Preamble\n\n<details>\n\nSome Details\n\n</details>\n\nPostamble",
        &[(1, "Preamble"), (5, "Some Details"), (9, "Postamble")],
    );
}

#[test]
fn extract_messages_list() {
    assert_extract_messages(
        "Some text\n * List item 1🦀\n * List item 2\n\nMore text",
        &[
            (1, "Some text"),
            (2, "List item 1🦀"),
            (3, "List item 2"),
            (5, "More text"),
        ],
    );
}

#[test]
fn extract_messages_multilevel_list() {
    assert_extract_messages(
        "Some text\n * List item 1\n * List item 2\n    * Sublist 1\n    * Sublist 2\n\nMore text",
        &[
            (1, "Some text"),
            (2, "List item 1"),
            (3, "List item 2"),
            (4, "Sublist 1"),
            (5, "Sublist 2"),
            (7, "More text"),
        ],
    );
}

#[test]
fn extract_messages_list_with_paragraphs() {
    assert_extract_messages(
        r"* Item 1.
* Item 2,
  two lines.

  * Sub 1.
  * Sub 2.
",
        &[
            (1, "Item 1."),
            (2, "Item 2, two lines."),
            (5, "Sub 1."),
            (6, "Sub 2."),
        ],
    );
}

#[test]
fn extract_messages_headings() {
    assert_extract_messages(
        r"Some text
# Headline News🦀

* A
* List

## Subheading
",
        &[
            (1, "Some text"),
            (2, "Headline News🦀"),
            (4, "A"),
            (5, "List"),
            (7, "Subheading"),
        ],
    );
}

#[test]
fn extract_messages_code_followed_by_details() {
    assert_extract_messages(
        r"```bob
// BOB
```

<details>

* Blah blah

</details>
",
        &[(1, "```bob\n// BOB\n```"), (7, "Blah blah")],
    );
}

#[test]
fn extract_messages_backslashes() {
    assert_extract_messages(
        r"
$$
\sum_{n=1}^{\infty} 2^{-n} = 1
$$
",
        &[(2, r"$$ \\sum\_{n=1}^{\infty} 2^{-n} = 1 $$")],
    );
}

#[test]
fn extract_messages_skip_simple() {
    assert_extract_messages(
        r"<!-- mdbook-xgettext:skip -->

This is a paragraph.",
        &[],
    );
}

#[test]
fn extract_messages_skip_next_paragraph_ok() {
    assert_extract_messages(
        r"<!-- mdbook-xgettext:skip -->
This is a paragraph.

This should be translated.
",
        &[(4, "This should be translated.")],
    );
}

#[test]
fn extract_messages_skip_next_codeblock() {
    assert_extract_messages(
        r"<!-- mdbook-xgettext:skip -->
```
def f(x): return x * x
```
This should be translated.
",
        &[(5, "This should be translated.")],
    );
}

#[test]
fn extract_messages_skip_back_to_back() {
    assert_extract_messages(
        r"<!-- mdbook-xgettext:skip -->
```
def f(x): return x * x
```
<!-- mdbook-xgettext:skip -->
This should not translated.

But *this* should!
",
        &[(8, "But _this_ should!")],
    );
}

#[test]
fn extract_messages_block_html_skip() {
    assert_extract_messages(
        "<!-- mdbook-xgettext:skip -->\nThis is ignored\n\nbut this is not",
        &[(4, "but this is not")],
    );
}

#[test]
fn extract_messages_inline_html_skips() {
    assert_extract_messages(
        "
this should be translated <!-- mdbook-xgettext:skip --> but not this.
... nor this.

But *this* should!",
        &[(2, "this should be translated "), (5, "But _this_ should!")],
    );
}

#[test]
fn extract_messages_skipping_second_item() {
    assert_extract_messages(
        "
* A
<!-- mdbook-xgettext:skip -->
* B
* C
",
        &[(2, "A"), (5, "C")],
    );
}

#[test]
fn extract_messages_skipping_second_paragraphed_item() {
    assert_extract_messages(
        "
* A

<!-- mdbook-xgettext:skip -->
* B

* C
",
        &[(2, "A"), (7, "C")],
    );
}

#[test]
fn extract_messages_skipping_inline_second_item() {
    assert_extract_messages(
        "
* A
* <!-- mdbook-xgettext:skip --> B
* C
",
        &[(2, "A")],
    );
}

#[test]
fn extract_messages_inline_skip_to_end_of_block() {
    assert_extract_messages(
        "foo <!-- mdbook-xgettext:skip --> **bold** bar
still skipped

not-skipped",
        &[(1, "foo "), (4, "not-skipped")],
    );
}

#[test]
fn extract_messages_automatic_skipping_nontranslatable_codeblocks_simple() {
    assert_extract_messages(
        r"
```python
def g(x):
  this_should_be_skipped_no_strings_or_comments()
```
",
        &[],
    );
}

#[test]
fn extract_messages_automatic_skipping_nontranslatable_codeblocks() {
    assert_extract_messages(
        r#"
```python
def f(x):
  print("this should be translated")
```


```python
def g(x):
  but_this_should_not()
```
"#,
        &[(4, "\"this should be translated\"")],
    );
}

#[test]
fn extract_messages_without_language_specifier() {
    assert_extract_messages(
        r#"
```
def f(x):
  print("this should be translated")
```


```
def g(x):
  but_this_should_not()
```
"#,
        &[(2, "```\ndef f(x):\n  print(\"this should be translated\")\n```")],
    );
}

#[test]
fn extract_messages_codeblock_in_codeblock() {
    assert_extract_messages(
        "\n````\n```\n// codeblock in codeblock\n```\n````\n",
        &[(2, "````\n```\n// codeblock in codeblock\n```\n````")],
    );
}

#[test]
fn extract_message_comments() {
    assert_eq!(
        extract_messages("\n<!-- mdbook-xgettext:comment: first comment! -->\nHello world!\n")
            .unwrap(),
        vec![(
            3,
            ExtractedMessage {
                message: "Hello world!".into(),
                comment: "first comment!".into(),
            }
        )]
    );
}

#[test]
fn extract_message_comments_multiple_joined() {
    assert_eq!(
        extract_messages(
            "
<!-- mdbook-xgettext:comment: this is a test -->
<!-- mdbook-xgettext:comment: of a comment that spans. -->
Greetings!
"
        )
        .unwrap(),
        vec![(
            4,
            ExtractedMessage {
                message: "Greetings!".into(),
                comment: "this is a test of a comment that spans.".into(),
            }
        )]
    );
}

#[test]
fn extract_message_multiple_comments() {
    assert_eq!(
        extract_messages(
            "
before-no-comment

<!-- mdbook-xgettext:comment: another -->
Hello again, this is some text
with a comment on it.

<!-- mdbook-xgettext:comment: one more comment. -->
after

after-no-comment
"
        )
        .unwrap(),
        vec![
            (
                2,
                ExtractedMessage {
                    message: "before-no-comment".into(),
                    comment: "".into(),
                }
            ),
            (
                5,
                ExtractedMessage {
                    message: "Hello again, this is some text with a comment on it.".into(),
                    comment: "another".into(),
                }
            ),
            (
                9,
                ExtractedMessage {
                    message: "after".into(),
                    comment: "one more comment.".into(),
                }
            ),
            (
                11,
                ExtractedMessage {
                    message: "after-no-comment".into(),
                    comment: "".into(),
                }
            ),
        ]
    );
}

#[test]
fn extract_message_comments_on_codeblock() {
    assert_eq!(
        extract_messages(
            r#"
<!-- mdbook-xgettext:comment: greetings! -->
```python
print("Hello world")
```
"#
        )
        .unwrap(),
        vec![(
            4,
            ExtractedMessage {
                message: "\"Hello world\"".into(),
                comment: "greetings!".into(),
            }
        ),]
    );
}
