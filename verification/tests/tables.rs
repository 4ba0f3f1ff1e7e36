//! The bidirectional tables and the plain value vocabulary.

use dioxus_bevy::adapter::node;
use dioxus_bevy::registry::BiMap;
use dioxus_bevy::values::AttributeValue;

#[test]
fn bimap_binds_both_directions() {
    let mut m = BiMap::new();
    m.bind(1, 100);
    m.bind(2, 200);
    assert_eq!(m.get(1), Some(100));
    assert_eq!(m.get_back(200), Some(2));
    assert_eq!(m.get(3), None);
}

#[test]
fn bimap_bind_displaces_both_stale_bindings() {
    let mut m = BiMap::new();
    m.bind(1, 100);
    m.bind(2, 200);
    // key 1 takes value 200: value 100 loses its key, key 2 loses its value
    m.bind(1, 200);
    assert_eq!(m.get(1), Some(200));
    assert_eq!(m.get(2), None);
    assert_eq!(m.get_back(100), None);
    assert_eq!(m.get_back(200), Some(1));
}

#[test]
fn bimap_remove_by_value_clears_the_pair() {
    let mut m = BiMap::new();
    m.bind(1, 100);
    m.remove_by_value(100);
    assert_eq!(m.get(1), None);
    assert_eq!(m.get_back(100), None);
}

#[test]
fn attribute_value_accessors() {
    assert_eq!(AttributeValue::Int(5).as_i64(), Some(5));
    assert_eq!(AttributeValue::Bool(true).as_bool(), Some(true));
    assert_eq!(AttributeValue::Int(5).as_bool(), None);
    let t = AttributeValue::Text("x".to_owned());
    assert_eq!(t.as_string().map(|s| s.as_str()), Some("x"));
    assert_eq!(t.as_i64(), None);
}

#[test]
fn default_element_kind_tag() {
    assert_eq!(node::TAG_NAME, "node");
}
