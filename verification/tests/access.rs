//! The read-only accessors over nodes, exercised on every variant.

use yaml_doc::{YamlDocument, YamlElement, YamlEvent, YamlMap};

fn scalar(value: &str) -> YamlEvent {
    YamlEvent::Scalar { value: String::from(value), anchor: None, tag: None }
}

fn build_sample() -> YamlDocument {
    let events = vec![
        YamlEvent::StreamStart,
        YamlEvent::DocumentStart,
        YamlEvent::SequenceStart { anchor: None, tag: None },
        scalar("42"),
        YamlEvent::MappingStart { anchor: None, tag: None },
        scalar("k"),
        scalar("v"),
        YamlEvent::MappingEnd,
        YamlEvent::Alias { anchor: String::from("loose") },
        YamlEvent::SequenceEnd,
        YamlEvent::DocumentEnd,
        YamlEvent::StreamEnd,
    ];
    YamlDocument::from_events(&events).expect("build")
}

#[test]
fn as_scalar_parses_matching_text() {
    let doc = build_sample();
    let seq = doc.root()[0].as_vec().expect("sequence");
    let n: Option<i64> = seq[0].as_scalar();
    assert_eq!(n, Some(42));
    let f: Option<bool> = seq[0].as_scalar();
    assert_eq!(f, None);
    let m: Option<i64> = seq[1].as_scalar();
    assert_eq!(m, None);
}

#[test]
fn as_str_only_on_scalars() {
    let doc = build_sample();
    let seq = doc.root()[0].as_vec().expect("sequence");
    assert_eq!(seq[0].as_str(), Some("42"));
    assert_eq!(seq[1].as_str(), None);
    assert_eq!(seq[2].as_str(), None);
    assert_eq!(YamlElement::Empty.as_str(), None);
}

#[test]
fn as_map_only_on_mappings() {
    let doc = build_sample();
    let seq = doc.root()[0].as_vec().expect("sequence");
    assert!(seq[0].as_map().is_none());
    assert!(seq[1].as_map().is_some());
    assert!(seq[2].as_map().is_none());
    assert!(YamlElement::Empty.as_map().is_none());
}

#[test]
fn as_vec_on_empty_node_is_empty_sequence() {
    let v = YamlElement::Empty.as_vec().expect("empty sequence");
    assert_eq!(v.len(), 0);
}

#[test]
fn as_vec_on_scalar_is_absent() {
    let s = YamlElement::Scalar(String::from("x"), None);
    assert!(s.as_vec().is_none());
    let doc = build_sample();
    let seq = doc.root()[0].as_vec().expect("sequence");
    assert!(seq[1].as_vec().is_none());
    assert!(seq[2].as_vec().is_none());
}

#[test]
fn get_tag_by_variant() {
    let s = YamlElement::Scalar(String::from("x"), Some(String::from("!t")));
    assert_eq!(s.get_tag(), Some(String::from("!t")));
    let bare = YamlElement::Scalar(String::from("x"), None);
    assert_eq!(bare.get_tag(), None);
    let a = YamlElement::Alias(String::from("A"));
    assert_eq!(a.get_tag(), None);
    assert_eq!(YamlElement::Empty.get_tag(), None);
}

#[test]
fn missing_key_and_non_map_access_yield_empty() {
    let doc = build_sample();
    let seq = doc.root()[0].as_vec().expect("sequence");
    // missing key on a map node
    let map_node = &seq[1];
    assert!(matches!(map_node.get("absent"), YamlElement::Empty));
    // any key on each non-map variant
    assert!(matches!(seq[0].get("k"), YamlElement::Empty));
    assert!(matches!(seq[2].get("k"), YamlElement::Empty));
    assert!(matches!(YamlElement::Empty.get("k"), YamlElement::Empty));
    // a present key is found
    assert_eq!(map_node.get("k").as_str(), Some("v"));
}

#[test]
fn yaml_map_insert_and_lookup() {
    let mut m = YamlMap::new();
    assert_eq!(m.len(), 0);
    assert!(!m.contains_key("a"));
    m.insert(
        String::from("a"),
        Box::new(YamlElement::Scalar(String::from("1"), None)),
    );
    m.insert(
        String::from("b"),
        Box::new(YamlElement::Scalar(String::from("2"), None)),
    );
    assert_eq!(m.len(), 2);
    assert_eq!(m.get("a").unwrap().as_str(), Some("1"));
    assert_eq!(m.get("b").unwrap().as_str(), Some("2"));
    assert!(m.get("c").is_none());
    // overwriting keeps the key count and replaces the value
    m.insert(
        String::from("a"),
        Box::new(YamlElement::Scalar(String::from("3"), None)),
    );
    assert_eq!(m.len(), 2);
    assert_eq!(m.get("a").unwrap().as_str(), Some("3"));
}

#[test]
fn deep_copy_is_independent_and_equal() {
    let doc = build_sample();
    let top = &doc.root()[0];
    let copy = top.deep_copy();
    let seq = copy.as_vec().expect("sequence");
    assert_eq!(seq[0].as_str(), Some("42"));
    assert_eq!(seq[1].get("k").as_str(), Some("v"));
}
