//! End-to-end checks of the mutation stack machine on a concrete graph.

use dioxus_bevy::adapter::ElementRegistry;
use dioxus_bevy::graph::Graph;
use dioxus_bevy::mutations::{EngineError, Mutation, MutationApplier};
use dioxus_bevy::registry::BiMap;
use dioxus_bevy::template::TemplateCache;
use dioxus_bevy::values::ElementId;

fn fresh_state() -> (Graph, usize, MutationApplier) {
    let mut g = Graph::new();
    let root = g.spawn(None);
    let applier = MutationApplier::new(BiMap::new(), BiMap::new(), TemplateCache::new(), root, &g);
    (g, root, applier)
}

#[test]
fn create_placeholder_registers_and_pushes() {
    let (mut g, _root, mut a) = fresh_state();
    a.create_placeholder(&mut g, ElementId(1));
    let reg = ElementRegistry::new();
    let script = vec![Mutation::AppendChildren { id: ElementId(0), m: 1 }];
    assert!(a.apply(&mut g, &reg, &script).is_ok());
    assert!(g.live(1));
}

#[test]
fn append_children_attaches_in_stack_order() {
    let (mut g, root, mut a) = fresh_state();
    a.create_placeholder(&mut g, ElementId(1));
    a.create_placeholder(&mut g, ElementId(2));
    a.append_children(&mut g, ElementId(0), 2).unwrap();
    assert_eq!(g.children_len(root), 2);
    assert_eq!(g.child_at(root, 0), 1);
    assert_eq!(g.child_at(root, 1), 2);
}

#[test]
fn missing_mapping_is_reported() {
    let (mut g, _root, mut a) = fresh_state();
    let r = a.push_root(&g, ElementId(7));
    assert_eq!(r, Err(EngineError::MissingMapping));
}

#[test]
fn non_empty_stack_at_boundary_is_fatal() {
    let (mut g, _root, mut a) = fresh_state();
    let reg = ElementRegistry::new();
    let script = vec![Mutation::CreatePlaceholder { id: ElementId(1) }];
    // the placeholder stays on the working stack: contract violation
    assert_eq!(a.apply(&mut g, &reg, &script), Err(EngineError::ContractViolation));
}

#[test]
fn popping_more_than_the_stack_holds_is_fatal() {
    let (mut g, _root, mut a) = fresh_state();
    a.create_placeholder(&mut g, ElementId(1));
    assert_eq!(
        a.append_children(&mut g, ElementId(0), 2),
        Err(EngineError::ContractViolation)
    );
    // the failed operation changed nothing: the placeholder is still
    // pending, and appending it still works
    assert_eq!(a.append_children(&mut g, ElementId(0), 1), Ok(()));
}

#[test]
fn inserting_beside_a_detached_node_is_fatal() {
    let (mut g, _root, mut a) = fresh_state();
    // the node for id 1 is created but never attached: it has no parent to
    // splice siblings into
    a.create_placeholder(&mut g, ElementId(1));
    a.append_children(&mut g, ElementId(0), 1).unwrap();
    a.create_placeholder(&mut g, ElementId(2));
    a.append_children(&mut g, ElementId(1), 1).unwrap();
    // id 0 anchors the tree and has no parent itself
    a.create_placeholder(&mut g, ElementId(3));
    assert_eq!(
        a.insert_nodes_before(&mut g, ElementId(0), 1),
        Err(EngineError::ContractViolation)
    );
}

#[test]
fn assigning_an_unresolvable_path_is_fatal() {
    let (mut g, _root, mut a) = fresh_state();
    a.create_placeholder(&mut g, ElementId(1));
    let r = a.assign_node_id(&g, &vec![0], ElementId(2));
    assert_eq!(r, Err(EngineError::ContractViolation));
}
