//! Tests for the unique path builder.

use mdbook_i18n_helpers::{slug, UniquePathBuilder};

fn get_str(pb: &UniquePathBuilder) -> String {
    pb.get()
}

#[test]
fn test_basic_usage() {
    let mut unique_path_builder = UniquePathBuilder::new(2);

    unique_path_builder.push("foo"); // Pushes "foo"
    unique_path_builder.push("bar"); // Pushes "bar"

    assert_eq!(get_str(&unique_path_builder), "foo/bar.pot");

    unique_path_builder.push("baz"); // No-op for the user

    assert_eq!(get_str(&unique_path_builder), "foo/bar.pot");

    unique_path_builder.pop(); // No-op
    unique_path_builder.pop(); // Pops "bar"
    unique_path_builder.pop(); // Pops "foo"
    unique_path_builder.push("foo"); // Pushes "foo_1"
    unique_path_builder.push("bar"); // Pushes "bar"
    unique_path_builder.pop(); // Pops "bar"
    unique_path_builder.push("bar"); // Pushes "bar_1"

    assert_eq!(get_str(&unique_path_builder), "foo-1/bar-1.pot");
}

#[test]
fn test_depth_zero_default() {
    let mut pb = UniquePathBuilder::new(0);
    assert_eq!(pb.get(), "messages.pot");
    pb.push("foo");
    assert_eq!(pb.get(), "messages.pot");
}

#[test]
fn test_slug_simple() {
    assert_eq!(slug("The Foo Chapter"), "the-foo-chapter");
}

#[test]
fn test_slug_cpp() {
    assert_eq!(slug("Why C++?"), "why-cpp");
}

#[test]
fn test_slug_empty_is_null() {
    assert_eq!(slug("???"), "null");
    assert_eq!(slug(""), "null");
}

#[test]
fn test_slug_keeps_dashes_and_digits() {
    assert_eq!(slug("Day 1 - Morning"), "day-1---morning");
}

#[test]
fn test_determinism_same_operations_same_paths() {
    // The same sequence of operations yields the same paths.
    let run = || {
        let mut pb = UniquePathBuilder::new(2);
        let mut paths = Vec::new();
        pb.push("a");
        paths.push(pb.get());
        pb.pop();
        pb.push("a");
        paths.push(pb.get());
        pb.push("b");
        paths.push(pb.get());
        paths
    };
    assert_eq!(run(), run());
    assert_eq!(run(), vec!["a.pot", "a-1.pot", "a-1/b.pot"]);
}
