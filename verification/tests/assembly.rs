//! End-to-end assembly of documents from event sequences.

use yaml_doc::{YamlDocument, YamlElement, YamlEvent};

fn scalar(value: &str) -> YamlEvent {
    YamlEvent::Scalar { value: String::from(value), anchor: None, tag: None }
}

fn anchored_scalar(value: &str, anchor: &str) -> YamlEvent {
    YamlEvent::Scalar {
        value: String::from(value),
        anchor: Some(String::from(anchor)),
        tag: None,
    }
}

#[test]
fn map_of_one_pair() {
    let events = vec![
        YamlEvent::StreamStart,
        YamlEvent::DocumentStart,
        YamlEvent::MappingStart { anchor: None, tag: None },
        scalar("k"),
        scalar("v"),
        YamlEvent::MappingEnd,
        YamlEvent::DocumentEnd,
        YamlEvent::StreamEnd,
    ];
    let doc = YamlDocument::from_events(&events).expect("build");
    assert_eq!(doc.root().len(), 1);
    let top = &doc.root()[0];
    let map = top.as_map().expect("map");
    assert_eq!(map.len(), 1);
    assert!(map.contains_key("k"));
    assert_eq!(map.get("k").unwrap().as_str(), Some("v"));
    assert_eq!(top.get("k").as_str(), Some("v"));
}

#[test]
fn sequence_with_alias_resolves() {
    let events = vec![
        YamlEvent::StreamStart,
        YamlEvent::DocumentStart,
        YamlEvent::SequenceStart { anchor: None, tag: None },
        anchored_scalar("shared", "X"),
        YamlEvent::Alias { anchor: String::from("X") },
        YamlEvent::SequenceEnd,
        YamlEvent::DocumentEnd,
        YamlEvent::StreamEnd,
    ];
    let doc = YamlDocument::from_events(&events).expect("build");
    assert_eq!(doc.root().len(), 1);
    let seq = doc.root()[0].as_vec().expect("sequence");
    assert_eq!(seq.len(), 2);
    assert_eq!(seq[0].as_str(), Some("shared"));
    assert!(seq[0].as_str() == Some("shared"));
    let second = &seq[1];
    assert!(matches!(**second, YamlElement::Alias(_)));
    let resolved = doc.resolve_alias(second).expect("resolves");
    assert_eq!(resolved.as_str(), Some("shared"));
}

#[test]
fn mapping_end_while_value_expected_is_rejected() {
    let events = vec![
        YamlEvent::StreamStart,
        YamlEvent::DocumentStart,
        YamlEvent::MappingStart { anchor: None, tag: None },
        scalar("dangling-key"),
        YamlEvent::MappingEnd,
        YamlEvent::DocumentEnd,
        YamlEvent::StreamEnd,
    ];
    assert!(YamlDocument::from_events(&events).is_none());
}

#[test]
fn nested_containers_keep_order_and_depth() {
    let events = vec![
        YamlEvent::StreamStart,
        YamlEvent::DocumentStart,
        YamlEvent::SequenceStart { anchor: None, tag: None },
        scalar("a"),
        YamlEvent::SequenceStart { anchor: None, tag: None },
        scalar("b"),
        scalar("c"),
        YamlEvent::SequenceEnd,
        YamlEvent::MappingStart { anchor: None, tag: None },
        scalar("k"),
        scalar("v"),
        YamlEvent::MappingEnd,
        YamlEvent::SequenceEnd,
        YamlEvent::DocumentEnd,
        YamlEvent::StreamEnd,
    ];
    let doc = YamlDocument::from_events(&events).expect("build");
    let outer = doc.root()[0].as_vec().expect("sequence");
    assert_eq!(outer.len(), 3);
    assert_eq!(outer[0].as_str(), Some("a"));
    let inner = outer[1].as_vec().expect("inner sequence");
    assert_eq!(inner.len(), 2);
    assert_eq!(inner[0].as_str(), Some("b"));
    assert_eq!(inner[1].as_str(), Some("c"));
    let map = outer[2].as_map().expect("inner map");
    assert_eq!(map.get("k").unwrap().as_str(), Some("v"));
}

#[test]
fn re_registered_anchor_resolves_to_second_node() {
    let events = vec![
        YamlEvent::StreamStart,
        YamlEvent::DocumentStart,
        YamlEvent::SequenceStart { anchor: None, tag: None },
        anchored_scalar("first", "A"),
        anchored_scalar("second", "A"),
        YamlEvent::Alias { anchor: String::from("A") },
        YamlEvent::SequenceEnd,
        YamlEvent::DocumentEnd,
        YamlEvent::StreamEnd,
    ];
    let doc = YamlDocument::from_events(&events).expect("build");
    let seq = doc.root()[0].as_vec().expect("sequence");
    let resolved = doc.resolve_alias(&seq[2]).expect("resolves");
    assert_eq!(resolved.as_str(), Some("second"));
}

#[test]
fn unregistered_alias_does_not_resolve() {
    let events = vec![
        YamlEvent::StreamStart,
        YamlEvent::DocumentStart,
        YamlEvent::SequenceStart { anchor: None, tag: None },
        YamlEvent::Alias { anchor: String::from("nowhere") },
        YamlEvent::SequenceEnd,
        YamlEvent::DocumentEnd,
        YamlEvent::StreamEnd,
    ];
    let doc = YamlDocument::from_events(&events).expect("build");
    let seq = doc.root()[0].as_vec().expect("sequence");
    assert!(doc.resolve_alias(&seq[0]).is_none());
}

#[test]
fn resolve_on_non_alias_is_absent() {
    let events = vec![
        YamlEvent::StreamStart,
        YamlEvent::DocumentStart,
        YamlEvent::SequenceStart { anchor: None, tag: None },
        anchored_scalar("x", "A"),
        YamlEvent::SequenceEnd,
        YamlEvent::DocumentEnd,
        YamlEvent::StreamEnd,
    ];
    let doc = YamlDocument::from_events(&events).expect("build");
    let seq = doc.root()[0].as_vec().expect("sequence");
    assert!(doc.resolve_alias(&seq[0]).is_none());
}

#[test]
fn anchored_container_resolves_after_its_end() {
    let events = vec![
        YamlEvent::StreamStart,
        YamlEvent::DocumentStart,
        YamlEvent::SequenceStart { anchor: None, tag: None },
        YamlEvent::MappingStart { anchor: Some(String::from("M")), tag: None },
        scalar("k"),
        scalar("v"),
        YamlEvent::MappingEnd,
        YamlEvent::Alias { anchor: String::from("M") },
        YamlEvent::SequenceEnd,
        YamlEvent::DocumentEnd,
        YamlEvent::StreamEnd,
    ];
    let doc = YamlDocument::from_events(&events).expect("build");
    let seq = doc.root()[0].as_vec().expect("sequence");
    let resolved = doc.resolve_alias(&seq[1]).expect("resolves");
    assert_eq!(resolved.get("k").as_str(), Some("v"));
}

#[test]
fn scalar_at_top_level_is_rejected() {
    let events = vec![
        YamlEvent::StreamStart,
        YamlEvent::DocumentStart,
        scalar("loose"),
        YamlEvent::DocumentEnd,
        YamlEvent::StreamEnd,
    ];
    assert!(YamlDocument::from_events(&events).is_none());
}

#[test]
fn unmatched_sequence_end_is_rejected() {
    let events = vec![
        YamlEvent::StreamStart,
        YamlEvent::DocumentStart,
        YamlEvent::MappingStart { anchor: None, tag: None },
        YamlEvent::SequenceEnd,
        YamlEvent::DocumentEnd,
        YamlEvent::StreamEnd,
    ];
    assert!(YamlDocument::from_events(&events).is_none());
}

#[test]
fn truncated_stream_is_rejected() {
    let events = vec![
        YamlEvent::StreamStart,
        YamlEvent::DocumentStart,
        YamlEvent::SequenceStart { anchor: None, tag: None },
        scalar("a"),
    ];
    assert!(YamlDocument::from_events(&events).is_none());
}

#[test]
fn container_event_in_key_position_is_rejected() {
    let events = vec![
        YamlEvent::StreamStart,
        YamlEvent::DocumentStart,
        YamlEvent::MappingStart { anchor: None, tag: None },
        YamlEvent::SequenceStart { anchor: None, tag: None },
        YamlEvent::SequenceEnd,
        YamlEvent::MappingEnd,
        YamlEvent::DocumentEnd,
        YamlEvent::StreamEnd,
    ];
    assert!(YamlDocument::from_events(&events).is_none());
}

#[test]
fn duplicate_map_key_last_write_wins() {
    let events = vec![
        YamlEvent::StreamStart,
        YamlEvent::DocumentStart,
        YamlEvent::MappingStart { anchor: None, tag: None },
        scalar("k"),
        scalar("old"),
        scalar("k"),
        scalar("new"),
        YamlEvent::MappingEnd,
        YamlEvent::DocumentEnd,
        YamlEvent::StreamEnd,
    ];
    let doc = YamlDocument::from_events(&events).expect("build");
    let map = doc.root()[0].as_map().expect("map");
    assert_eq!(map.len(), 1);
    assert_eq!(map.get("k").unwrap().as_str(), Some("new"));
}

#[test]
fn tags_are_carried_through() {
    let events = vec![
        YamlEvent::StreamStart,
        YamlEvent::DocumentStart,
        YamlEvent::SequenceStart { anchor: None, tag: Some(String::from("!pair")) },
        YamlEvent::Scalar {
            value: String::from("x"),
            anchor: None,
            tag: Some(String::from("!!str")),
        },
        YamlEvent::SequenceEnd,
        YamlEvent::DocumentEnd,
        YamlEvent::StreamEnd,
    ];
    let doc = YamlDocument::from_events(&events).expect("build");
    let top = &doc.root()[0];
    assert_eq!(top.get_tag(), Some(String::from("!pair")));
    let seq = top.as_vec().expect("sequence");
    assert_eq!(seq[0].get_tag(), Some(String::from("!!str")));
}

#[test]
fn empty_event_sequence_is_rejected() {
    let events: Vec<YamlEvent> = vec![];
    assert!(YamlDocument::from_events(&events).is_none());
}

#[test]
fn two_top_level_documents_in_one_stream() {
    let events = vec![
        YamlEvent::StreamStart,
        YamlEvent::DocumentStart,
        YamlEvent::SequenceStart { anchor: None, tag: None },
        scalar("a"),
        YamlEvent::SequenceEnd,
        YamlEvent::DocumentEnd,
        YamlEvent::DocumentStart,
        YamlEvent::MappingStart { anchor: None, tag: None },
        scalar("k"),
        scalar("v"),
        YamlEvent::MappingEnd,
        YamlEvent::DocumentEnd,
        YamlEvent::StreamEnd,
    ];
    let doc = YamlDocument::from_events(&events).expect("build");
    assert_eq!(doc.root().len(), 2);
    assert!(doc.root()[0].as_vec().is_some());
    assert!(doc.root()[1].as_map().is_some());
}
