//! Round-trip and stability checks over concrete documents.

use mdbook_i18n_helpers::{
    extract_events, extract_messages, group_events, reconstruct_markdown, wrap_sources, Catalog,
    CatalogMetadata, Group, Message, MessageStats,
};

fn reconstruct_document(s: &str) -> String {
    let events = extract_events(s, None);
    reconstruct_markdown(&events, None).unwrap().0
}

fn sample_documents() -> Vec<&'static str> {
    vec![
        "Hello, *world*!\n",
        "# Heading\n\nBody text\nover two lines.\n",
        "> A quote\n>\n> with two paragraphs.\n",
        "* one\n* two\n  * nested\n",
        "| a | b |\n|---|---|\n| 1 | 2 |\n",
        "Pre\n\n```\nlet x = \"s\";\n```\n\nPost\n",
        "A [link](https://example.com) and `code`.\n",
    ]
}

#[test]
fn reconstruction_is_stable() {
    // Reconstructing a reconstructed document changes nothing.
    for doc in sample_documents() {
        let once = reconstruct_document(doc);
        let twice = reconstruct_document(&once);
        assert_eq!(once, twice, "document: {doc:?}");
    }
}

#[test]
fn extraction_is_idempotent() {
    // Extracting from a reconstructed document yields the same
    // message texts.
    for doc in sample_documents() {
        let original = extract_messages(doc)
            .unwrap()
            .into_iter()
            .map(|(_, m)| m.message)
            .collect::<Vec<_>>();
        let reconstructed = extract_messages(&reconstruct_document(doc))
            .unwrap()
            .into_iter()
            .map(|(_, m)| m.message)
            .collect::<Vec<_>>();
        assert_eq!(original, reconstructed, "document: {doc:?}");
    }
}

#[test]
fn grouping_partitions_the_events() {
    // Concatenating the events of all groups gives back the event
    // stream, for documents without code blocks.
    for doc in vec![
        "Hello, *world*!\n",
        "# Heading\n\nBody text.\n",
        "> quote\n",
        "* one\n* two\n",
    ] {
        let events = extract_events(doc, None);
        let groups = group_events(&events);
        let mut flattened = Vec::new();
        for group in groups {
            match group {
                Group::Translate { events, .. } => flattened.extend(events),
                Group::Skip(events) => flattened.extend(events),
            }
        }
        assert_eq!(flattened, events, "document: {doc:?}");
    }
}

#[test]
fn grouping_preserves_code_block_text() {
    // Inside code blocks text events may be split, but their
    // characters are kept in order.
    let doc = "```rust\nlet x = \"hello\"; // greet\n```\n";
    let events = extract_events(doc, None);
    let original_text: String = events
        .iter()
        .filter_map(|(_, e)| match e {
            mdbook_i18n_helpers::MdEvent::Text(t) => Some(t.as_str()),
            _ => None,
        })
        .collect();
    let groups = group_events(&events);
    let mut grouped_text = String::new();
    for group in groups {
        let evs = match group {
            Group::Translate { events, .. } => events,
            Group::Skip(events) => events,
        };
        for (_, e) in evs {
            if let mdbook_i18n_helpers::MdEvent::Text(t) = e {
                grouped_text.push_str(&t);
            }
        }
    }
    assert_eq!(grouped_text, original_text);
}

#[test]
fn wrap_sources_rewraps_lines() {
    // Short sources collapse onto one line; long ones wrap at the
    // gettext column.
    assert_eq!(wrap_sources("a.md:1\nb.md:2"), "a.md:1 b.md:2");
    assert_eq!(
        wrap_sources(
            "chapter-one.md:11 chapter-two.md:22 chapter-three.md:33 \
             chapter-four.md:44 chapter-five.md:55 chapter-six.md:66"
        ),
        "chapter-one.md:11 chapter-two.md:22 chapter-three.md:33 chapter-four.md:44\n\
         chapter-five.md:55 chapter-six.md:66"
    );
}

#[test]
fn message_stats_counts_statuses() {
    let mut catalog = Catalog::new(CatalogMetadata::new());
    catalog.append_or_update(
        Message::build_singular()
            .with_msgid("a".to_string())
            .with_msgstr("A".to_string())
            .done(),
    );
    catalog.append_or_update(
        Message::build_singular().with_msgid("b".to_string()).done(),
    );
    let mut fuzzy_msg = Message::build_singular()
        .with_msgid("c".to_string())
        .with_msgstr("C".to_string())
        .done();
    fuzzy_msg.flags.add_flag("fuzzy");
    catalog.append_or_update(fuzzy_msg);

    let stats = MessageStats::for_catalog(&catalog);
    assert_eq!(stats.translated_count, 1);
    assert_eq!(stats.non_translated_count, 1);
    assert_eq!(stats.fuzzy_translated_count, 1);
    assert_eq!(stats.fuzzy_non_translated_count, 0);
    assert_eq!(stats.total(), 3);
}

#[test]
fn catalog_keeps_msgids_unique() {
    let mut catalog = Catalog::new(CatalogMetadata::new());
    for msgid in ["x", "y", "x", "z", "y"] {
        catalog.append_or_update(
            Message::build_singular()
                .with_msgid(msgid.to_string())
                .done(),
        );
    }
    let ids = catalog
        .messages()
        .iter()
        .map(|m| m.msgid())
        .collect::<Vec<_>>();
    assert_eq!(ids, &["x", "y", "z"]);
}

#[test]
fn find_message_hits_and_misses() {
    let mut catalog = Catalog::new(CatalogMetadata::new());
    catalog.append_or_update(
        Message::build_singular()
            .with_msgid("hello".to_string())
            .with_msgstr("HELLO".to_string())
            .done(),
    );
    assert_eq!(
        catalog.find_message("hello").unwrap().msgstr().unwrap(),
        "HELLO"
    );
    assert!(catalog.find_message("missing").is_none());
}
