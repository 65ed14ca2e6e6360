//! Tests for the directive scanner.

use mdbook_i18n_helpers::{find, Directive};

#[test]
fn test_is_comment_skip_directive_simple() {
    assert!(matches!(find("<!-- i18n:skip -->"), Some(Directive::Skip)));
}

#[test]
fn test_is_comment_skip_directive_tolerates_spaces() {
    assert!(matches!(find("<!-- i18n: skip -->"), Some(Directive::Skip)));
}

#[test]
fn test_is_comment_skip_directive_tolerates_dashes() {
    assert!(matches!(find("<!--- i18n:skip ---->"), Some(Directive::Skip)));
}

#[test]
fn test_is_comment_skip_directive_needs_skip() {
    assert!(find("<!-- i18n: foo -->").is_none());
}

#[test]
fn test_is_comment_skip_directive_needs_to_be_a_comment() {
    assert!(find("<div>i18: skip</div>").is_none());
}

#[test]
fn test_different_prefix() {
    assert!(matches!(
        find("<!-- mdbook-xgettext:skip -->"),
        Some(Directive::Skip)
    ));
}

#[test]
fn test_comment() {
    assert!(match find("<!-- i18n:comment: hello world! -->") {
        Some(Directive::Comment(s)) => s == "hello world!",
        _ => false,
    });
}

#[test]
fn test_empty_comment_does_nothing() {
    assert!(match find("<!-- i18n:comment -->") {
        Some(Directive::Comment(s)) => s.is_empty(),
        _ => false,
    });
}

#[test]
fn test_directive_surrounded_by_text() {
    assert!(matches!(
        find("some text <!-- mdbook-xgettext: skip --> more text"),
        Some(Directive::Skip)
    ));
}

#[test]
fn test_unknown_command_is_ignored() {
    assert!(find("<!-- i18n:translate -->").is_none());
}
