//! Defining a renderer: a closed element-kind set with its attribute schema.

use dioxus_bevy::adapter::{AttrType, ElementRegistry};
use dioxus_bevy::graph::Graph;
use dioxus_bevy::template::{BevyTemplate, BevyTemplateNode, TemplateCache};

fn basic_renderer() -> ElementRegistry {
    let mut reg = ElementRegistry::new();
    reg.register_element("node".to_owned());
    reg.register_attribute("position_x".to_owned(), AttrType::Int);
    reg.register_attribute("position_y".to_owned(), AttrType::Int);
    reg
}

#[test]
fn defines_a_basic_renderer() {
    let reg = basic_renderer();
    assert!(reg.has_tag(&"node".to_owned()));
    let mut cache = TemplateCache::new();
    let row = BevyTemplate {
        roots: vec![BevyTemplateNode {
            tag: "node".to_owned(),
            attributes: vec![],
            static_attributes: vec![],
            children: vec![],
        }],
    };
    assert!(cache.register("row".to_owned(), row, &reg).is_ok());
    let mut g = Graph::new();
    let spawned = cache.instantiate_root(&"row".to_owned(), 0, &mut g);
    assert!(spawned.is_ok());
}

#[test]
fn unknown_element_kind_is_refused() {
    let reg = basic_renderer();
    let mut cache = TemplateCache::new();
    let t = BevyTemplate {
        roots: vec![BevyTemplateNode {
            tag: "widget".to_owned(),
            attributes: vec![],
            static_attributes: vec![],
            children: vec![],
        }],
    };
    assert!(cache.register("w".to_owned(), t, &reg).is_err());
}
