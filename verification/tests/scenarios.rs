//! Scenario tests for the reconciliation engine: template instantiation,
//! cascading removal, back-reference handles, attribute application, and
//! the per-tick build decision.

use dioxus_bevy::adapter::{AttrType, ElementRegistry};
use dioxus_bevy::graph::Graph;
use dioxus_bevy::mutations::{EngineError, Mutation, MutationApplier};
use dioxus_bevy::registry::BiMap;
use dioxus_bevy::template::{BevyTemplate, BevyTemplateNode, TemplateCache};
use dioxus_bevy::values::{AttributeValue, ElementId, StaticTemplateAttribute};

fn registry_with_node() -> ElementRegistry {
    let mut reg = ElementRegistry::new();
    reg.register_element("node".to_owned());
    reg.register_attribute("position_x".to_owned(), AttrType::Int);
    reg.register_attribute("label".to_owned(), AttrType::Text);
    reg
}

fn plain_node(children: Vec<BevyTemplateNode>) -> BevyTemplateNode {
    BevyTemplateNode {
        tag: "node".to_owned(),
        attributes: vec![],
        static_attributes: vec![],
        children,
    }
}

fn fresh(reg: &ElementRegistry) -> (Graph, usize, MutationApplier) {
    let mut g = Graph::new();
    let root = g.spawn(None);
    let mut templates = TemplateCache::new();
    // template "row": two placeholder children at the template's top level
    let row = BevyTemplate { roots: vec![plain_node(vec![]), plain_node(vec![])] };
    templates.register("row".to_owned(), row, reg).unwrap();
    let applier = MutationApplier::new(BiMap::new(), BiMap::new(), templates, root, &g);
    (g, root, applier)
}

/// Template "row" has two placeholder children; loading root 0 as id 1 and
/// appending two fresh placeholders leaves the node for id 1 with exactly
/// those two children, in push order.
#[test]
fn load_template_then_append_two_placeholders() {
    let reg = registry_with_node();
    let (mut g, root, mut a) = fresh(&reg);
    let script = vec![
        Mutation::LoadTemplate { name: "row".to_owned(), index: 0, id: ElementId(1) },
        Mutation::CreatePlaceholder { id: ElementId(2) },
        Mutation::CreatePlaceholder { id: ElementId(3) },
        Mutation::AppendChildren { id: ElementId(1), m: 2 },
        Mutation::AppendChildren { id: ElementId(0), m: 1 },
    ];
    a.apply(&mut g, &reg, &script).unwrap();
    // the loaded root sits under the anchor
    assert_eq!(g.children_len(root), 1);
    let loaded = g.child_at(root, 0);
    assert_eq!(g.tag(loaded), &Some("node".to_owned()));
    // exactly the two placeholders, in push order
    assert_eq!(g.children_len(loaded), 2);
    let first = g.child_at(loaded, 0);
    let second = g.child_at(loaded, 1);
    assert!(first < second);
    assert_eq!(g.tag(first), &None);
    assert_eq!(g.tag(second), &None);
}

/// RemoveNode removes exactly the subtree rooted at the id: the sibling and
/// the anchor survive, the subtree's nodes die.
#[test]
fn remove_node_removes_exactly_the_subtree() {
    let reg = registry_with_node();
    let (mut g, root, mut a) = fresh(&reg);
    let script = vec![
        // one subtree of two nodes under id 1, one sibling under id 3
        Mutation::CreatePlaceholder { id: ElementId(1) },
        Mutation::CreatePlaceholder { id: ElementId(2) },
        Mutation::AppendChildren { id: ElementId(1), m: 1 },
        Mutation::CreatePlaceholder { id: ElementId(3) },
        Mutation::AppendChildren { id: ElementId(0), m: 2 },
        Mutation::RemoveNode { id: ElementId(1) },
    ];
    a.apply(&mut g, &reg, &script).unwrap();
    let outer = 1usize;  // node spawned for id 1
    let inner = 2usize;  // node spawned for id 2
    let sibling = 3usize;  // node spawned for id 3
    assert!(g.live(root));
    assert!(g.live(sibling));
    assert!(!g.live(outer));
    assert!(!g.live(inner));
    assert_eq!(g.children_len(root), 1);
    assert_eq!(g.child_at(root, 0), sibling);
    // the registry forgot id 1 and its descendant's id 2, but not id 3
    let mut a = a;
    assert_eq!(a.push_root(&g, ElementId(1)), Err(EngineError::MissingMapping));
    assert_eq!(a.push_root(&g, ElementId(2)), Err(EngineError::MissingMapping));
    assert!(a.push_root(&g, ElementId(3)).is_ok());
}

/// Applying SetAttribute twice with the same name and value yields the same
/// observable state as applying it once.
#[test]
fn set_attribute_twice_is_idempotent() {
    let reg = registry_with_node();
    let (mut g, _root, mut a) = fresh(&reg);
    a.create_placeholder(&mut g, ElementId(1));
    let name = "position_x".to_owned();
    let v = AttributeValue::Int(7);
    assert_eq!(a.set_attribute(&mut g, &reg, &name, &v, ElementId(1)), Ok(true));
    let after_once = match g.attr(1, "position_x") {
        Some(AttributeValue::Int(x)) => *x,
        _ => panic!("attribute missing"),
    };
    assert_eq!(a.set_attribute(&mut g, &reg, &name, &v, ElementId(1)), Ok(true));
    let after_twice = match g.attr(1, "position_x") {
        Some(AttributeValue::Int(x)) => *x,
        _ => panic!("attribute missing"),
    };
    assert_eq!(after_once, after_twice);
    assert_eq!(after_twice, 7);
}

/// An unknown attribute name, or a value whose shape does not match the
/// schema, is dropped and the node keeps its prior state.
#[test]
fn mismatched_attribute_is_dropped() {
    let reg = registry_with_node();
    let (mut g, _root, mut a) = fresh(&reg);
    a.create_placeholder(&mut g, ElementId(1));
    let r = a.set_attribute(
        &mut g,
        &reg,
        &"position_x".to_owned(),
        &AttributeValue::Text("3".to_owned()),
        ElementId(1),
    );
    assert_eq!(r, Ok(false));
    assert!(g.attr(1, "position_x").is_none());
    let r2 = a.set_attribute(
        &mut g,
        &reg,
        &"unknown".to_owned(),
        &AttributeValue::Int(1),
        ElementId(1),
    );
    assert_eq!(r2, Ok(false));
}

/// Binding a back-reference handle through the reserved attribute, then
/// removing the node, clears the handle to "absent" in the same pass.
#[test]
fn removing_a_node_clears_its_bound_handle() {
    let reg = registry_with_node();
    let (mut g, _root, mut a) = fresh(&reg);
    let script = vec![
        Mutation::CreatePlaceholder { id: ElementId(1) },
        Mutation::AppendChildren { id: ElementId(0), m: 1 },
        Mutation::SetAttribute {
            name: "entity".to_owned(),
            ns: None,
            value: AttributeValue::EntityRef(42),
            id: ElementId(1),
        },
    ];
    a.apply(&mut g, &reg, &script).unwrap();
    assert_eq!(a.handle_target(42), Some(1));
    let removal = vec![Mutation::RemoveNode { id: ElementId(1) }];
    a.apply(&mut g, &reg, &removal).unwrap();
    assert_eq!(a.handle_target(42), None);
}

/// InsertNodesBefore and InsertNodesAfter with zero nodes leave the graph
/// and the stack unchanged apart from popping zero elements.
#[test]
fn inserting_zero_nodes_changes_nothing() {
    let reg = registry_with_node();
    let (mut g, root, mut a) = fresh(&reg);
    let script = vec![
        Mutation::CreatePlaceholder { id: ElementId(1) },
        Mutation::AppendChildren { id: ElementId(0), m: 1 },
        Mutation::InsertBefore { id: ElementId(1), m: 0 },
        Mutation::InsertAfter { id: ElementId(1), m: 0 },
    ];
    a.apply(&mut g, &reg, &script).unwrap();
    assert_eq!(g.children_len(root), 1);
    assert_eq!(g.child_at(root, 0), 1);
    assert_eq!(g.children_len(1), 0);
}

/// Siblings spliced before and after a node land on the right sides.
#[test]
fn insert_before_and_after_order() {
    let reg = registry_with_node();
    let (mut g, root, mut a) = fresh(&reg);
    let script = vec![
        Mutation::CreatePlaceholder { id: ElementId(1) },
        Mutation::AppendChildren { id: ElementId(0), m: 1 },
        Mutation::CreatePlaceholder { id: ElementId(2) },
        Mutation::InsertBefore { id: ElementId(1), m: 1 },
        Mutation::CreatePlaceholder { id: ElementId(3) },
        Mutation::InsertAfter { id: ElementId(1), m: 1 },
    ];
    a.apply(&mut g, &reg, &script).unwrap();
    assert_eq!(g.children_len(root), 3);
    assert_eq!(g.child_at(root, 0), 2);  // node for id 2, before
    assert_eq!(g.child_at(root, 1), 1);  // node for id 1
    assert_eq!(g.child_at(root, 2), 3);  // node for id 3, after
}

/// ReplaceWith splices the popped nodes at the old node's position and
/// cascade-removes it.
#[test]
fn replace_node_with_swaps_in_place() {
    let reg = registry_with_node();
    let (mut g, root, mut a) = fresh(&reg);
    let script = vec![
        Mutation::CreatePlaceholder { id: ElementId(1) },
        Mutation::CreatePlaceholder { id: ElementId(2) },
        Mutation::AppendChildren { id: ElementId(0), m: 2 },
        Mutation::CreatePlaceholder { id: ElementId(3) },
        Mutation::ReplaceWith { id: ElementId(1), m: 1 },
    ];
    a.apply(&mut g, &reg, &script).unwrap();
    assert!(!g.live(1));
    assert_eq!(g.children_len(root), 2);
    assert_eq!(g.child_at(root, 0), 3);  // replacement took the old position
    assert_eq!(g.child_at(root, 1), 2);
}

/// AssignId registers a template-instantiated descendant by child path.
#[test]
fn assign_id_walks_the_path() {
    let reg = registry_with_node();
    let mut g = Graph::new();
    let root = g.spawn(None);
    let mut templates = TemplateCache::new();
    let tree = BevyTemplate { roots: vec![plain_node(vec![plain_node(vec![]), plain_node(vec![])])] };
    templates.register("tree".to_owned(), tree, &reg).unwrap();
    let mut a = MutationApplier::new(BiMap::new(), BiMap::new(), templates, root, &g);
    let script = vec![
        Mutation::LoadTemplate { name: "tree".to_owned(), index: 0, id: ElementId(1) },
        Mutation::AssignId { path: vec![1], id: ElementId(2) },
        Mutation::AppendChildren { id: ElementId(0), m: 1 },
    ];
    a.apply(&mut g, &reg, &script).unwrap();
    let loaded = g.child_at(root, 0);
    let second_child = g.child_at(loaded, 1);
    assert!(a.push_root(&g, ElementId(2)).is_ok());
    assert_eq!(a.stack_top(), Some(second_child));
}

/// Loading an unregistered template is a fatal contract violation.
#[test]
fn unknown_template_is_fatal() {
    let reg = registry_with_node();
    let (mut g, _root, mut a) = fresh(&reg);
    let script = vec![Mutation::LoadTemplate {
        name: "missing".to_owned(),
        index: 0,
        id: ElementId(1),
    }];
    assert_eq!(a.apply(&mut g, &reg, &script), Err(EngineError::ContractViolation));
}

/// Static template attributes are applied when the template instantiates.
#[test]
fn static_attributes_are_applied_on_instantiation() {
    let reg = registry_with_node();
    let mut cache = TemplateCache::new();
    let labelled = BevyTemplate {
        roots: vec![BevyTemplateNode {
            tag: "node".to_owned(),
            attributes: vec![],
            static_attributes: vec![StaticTemplateAttribute {
                name: "label".to_owned(),
                value: "hello".to_owned(),
                namespace: None,
            }],
            children: vec![],
        }],
    };
    cache.register("labelled".to_owned(), labelled, &reg).unwrap();
    let mut g = Graph::new();
    let n = cache.instantiate_root(&"labelled".to_owned(), 0, &mut g).unwrap();
    match g.attr(n, "label") {
        Some(AttributeValue::Text(s)) => assert_eq!(s, "hello"),
        _ => panic!("static attribute not applied"),
    }
}

/// PushRoot reuses an already-produced node: a spliced node can be moved to
/// a new position later in the same script.
#[test]
fn push_root_moves_an_attached_node() {
    let reg = registry_with_node();
    let (mut g, root, mut a) = fresh(&reg);
    let script = vec![
        Mutation::CreatePlaceholder { id: ElementId(1) },
        Mutation::CreatePlaceholder { id: ElementId(2) },
        Mutation::CreatePlaceholder { id: ElementId(3) },
        Mutation::AppendChildren { id: ElementId(0), m: 3 },
        // move the node for id 1 after the node for id 3
        Mutation::PushRoot { id: ElementId(1) },
        Mutation::InsertAfter { id: ElementId(3), m: 1 },
    ];
    a.apply(&mut g, &reg, &script).unwrap();
    assert_eq!(g.children_len(root), 3);
    assert_eq!(g.child_at(root, 0), 2);
    assert_eq!(g.child_at(root, 1), 3);
    assert_eq!(g.child_at(root, 2), 1);
}

/// ReplacePlaceholder resolves its target from below the popped nodes and
/// splices them at the target's position.
#[test]
fn replace_placeholder_splices_at_the_path() {
    let reg = registry_with_node();
    let mut g = Graph::new();
    let root = g.spawn(None);
    let mut templates = TemplateCache::new();
    // one root with a single placeholder child at path [0]
    let holder = BevyTemplate { roots: vec![plain_node(vec![plain_node(vec![])])] };
    templates.register("holder".to_owned(), holder, &reg).unwrap();
    let mut a = MutationApplier::new(BiMap::new(), BiMap::new(), templates, root, &g);
    let script = vec![
        Mutation::LoadTemplate { name: "holder".to_owned(), index: 0, id: ElementId(1) },
        Mutation::CreatePlaceholder { id: ElementId(2) },
        Mutation::ReplacePlaceholder { path: vec![0], m: 1 },
        Mutation::AppendChildren { id: ElementId(0), m: 1 },
    ];
    a.apply(&mut g, &reg, &script).unwrap();
    let loaded = g.child_at(root, 0);
    // the fresh node sits at the placeholder's position, before it
    assert_eq!(g.children_len(loaded), 2);
    let first = g.child_at(loaded, 0);
    assert_eq!(g.tag(first), &None);
}

/// The absent value clears a declared attribute back off the node.
#[test]
fn absent_value_clears_a_set_attribute() {
    let reg = registry_with_node();
    let (mut g, _root, mut a) = fresh(&reg);
    a.create_placeholder(&mut g, ElementId(1));
    let name = "position_x".to_owned();
    a.set_attribute(&mut g, &reg, &name, &AttributeValue::Int(7), ElementId(1)).unwrap();
    assert!(g.attr(1, "position_x").is_some());
    let r = a.set_attribute(&mut g, &reg, &name, &AttributeValue::Absent, ElementId(1));
    assert_eq!(r, Ok(true));
    assert!(g.attr(1, "position_x").is_none());
    // an undeclared name stays refused, absent value or not
    let r2 = a.set_attribute(
        &mut g,
        &reg,
        &"unknown".to_owned(),
        &AttributeValue::Absent,
        ElementId(1),
    );
    assert_eq!(r2, Ok(false));
}
