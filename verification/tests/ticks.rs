//! The per-tick pieces: dirty-scope computation, root lifecycle, and the
//! full-build decision.

use dioxus_bevy::adapter::ElementRegistry;
use dioxus_bevy::ecs_hooks::EcsSubscriptions;
use dioxus_bevy::graph::Graph;
use dioxus_bevy::tick::{render_ui, store_root, take_root, DioxusBevyContext, DioxusBevyRootComponent};

/// A scope subscribed only to resource R is marked dirty exactly when R's
/// version changed since last observed; changing an unrelated resource
/// never marks it.
#[test]
fn resource_scope_dirty_iff_its_resource_changed() {
    let mut subs = EcsSubscriptions::new();
    let scope = 10usize;
    let r = 1usize;
    let s_unrelated = 2usize;
    subs.subscribe_resource(scope, r);
    // first observation of R counts as a change
    let dirty = subs.compute_dirty(&vec![(r, 1), (s_unrelated, 1)], &vec![]);
    assert_eq!(dirty, vec![scope]);
    // nothing changed: not marked
    let dirty = subs.compute_dirty(&vec![(r, 1), (s_unrelated, 1)], &vec![]);
    assert!(dirty.is_empty());
    // only the unrelated resource changed: still not marked
    let dirty = subs.compute_dirty(&vec![(r, 1), (s_unrelated, 2)], &vec![]);
    assert!(dirty.is_empty());
    // R changed: marked
    let dirty = subs.compute_dirty(&vec![(r, 2), (s_unrelated, 2)], &vec![]);
    assert_eq!(dirty, vec![scope]);
}

/// Catch-all scopes are dirty every tick; event scopes only when their
/// event kind has events.
#[test]
fn world_and_event_scopes() {
    let mut subs = EcsSubscriptions::new();
    subs.subscribe_world(5);
    subs.subscribe_event(6, 99);
    let dirty = subs.compute_dirty(&vec![], &vec![]);
    assert_eq!(dirty, vec![5]);
    let dirty = subs.compute_dirty(&vec![], &vec![99]);
    assert_eq!(dirty, vec![5, 6]);
}

/// Tearing a scope down releases every subscription it held.
#[test]
fn scope_teardown_releases_all_tables() {
    let mut subs = EcsSubscriptions::new();
    subs.subscribe_world(5);
    subs.subscribe_resource(5, 1);
    subs.subscribe_event(5, 7);
    subs.remove_scope(5);
    let dirty = subs.compute_dirty(&vec![(1, 1)], &vec![7]);
    assert!(dirty.is_empty());
}

/// A root's first tick always requests a full build, whatever the dirty
/// set holds; its second tick, with an empty dirty set, applies an empty
/// edit-script and the graph does not change.
#[test]
fn first_tick_full_build_second_tick_no_change() {
    let reg = ElementRegistry::new();
    let mut g = Graph::new();
    let anchor = g.spawn(None);
    let mut ctx = DioxusBevyContext::new();
    let descriptor = DioxusBevyRootComponent(0);

    // first tick
    let mut root = take_root(&mut ctx, anchor, descriptor);
    let full = root.begin_pass();
    assert!(full);
    // the external diff engine would now be asked for a full build;
    // apply the script it returned
    let script = vec![
        dioxus_bevy::mutations::Mutation::CreatePlaceholder {
            id: dioxus_bevy::values::ElementId(1),
        },
        dioxus_bevy::mutations::Mutation::AppendChildren {
            id: dioxus_bevy::values::ElementId(0),
            m: 1,
        },
    ];
    render_ui(&mut root, anchor, &mut g, &reg, &script).unwrap();
    store_root(&mut ctx, anchor, descriptor, root);
    assert_eq!(g.children_len(anchor), 1);

    // second tick: the persistent root is fetched back, no full build is
    // requested, and an empty dirty set yields an empty edit-script
    let mut root = take_root(&mut ctx, anchor, descriptor);
    let full = root.begin_pass();
    assert!(!full);
    let empty: Vec<dioxus_bevy::mutations::Mutation> = vec![];
    render_ui(&mut root, anchor, &mut g, &reg, &empty).unwrap();
    store_root(&mut ctx, anchor, descriptor, root);
    assert_eq!(g.children_len(anchor), 1);
    assert!(g.live(1));
}

/// The single-pass driver makes the same decision: full build on first
/// observation, incremental afterwards, with the root persisted in between.
#[test]
fn tick_driver_first_pass_is_full_build() {
    let reg = ElementRegistry::new();
    let mut g = Graph::new();
    let anchor = g.spawn(None);
    let mut ctx = DioxusBevyContext::new();
    let descriptor = DioxusBevyRootComponent(1);

    assert!(ctx.root_never_built(anchor, descriptor));
    let script = vec![
        dioxus_bevy::mutations::Mutation::CreatePlaceholder {
            id: dioxus_bevy::values::ElementId(1),
        },
        dioxus_bevy::mutations::Mutation::AppendChildren {
            id: dioxus_bevy::values::ElementId(0),
            m: 1,
        },
    ];
    let full = dioxus_bevy::tick::tick_dioxus_ui(&mut ctx, anchor, descriptor, &mut g, &reg, &script)
        .unwrap();
    assert!(full);
    assert!(!ctx.root_never_built(anchor, descriptor));
    let empty: Vec<dioxus_bevy::mutations::Mutation> = vec![];
    let full =
        dioxus_bevy::tick::tick_dioxus_ui(&mut ctx, anchor, descriptor, &mut g, &reg, &empty)
            .unwrap();
    assert!(!full);
    assert_eq!(g.children_len(anchor), 1);
}

/// Deferred host commands drain in the order they were enqueued, and the
/// queue is empty afterwards, ready for the next tick.
#[test]
fn deferred_commands_drain_in_order() {
    let mut q = dioxus_bevy::tick::DeferredSystemRunQueue::new();
    q.push(3);
    q.push(1);
    q.push(2);
    let drained = q.drain();
    assert_eq!(drained, vec![3, 1, 2]);
    assert!(q.drain().is_empty());
}

/// A prior bundle persists across ticks: the id registered on the first
/// pass still resolves on the second.
#[test]
fn root_bundle_persists_across_ticks() {
    let reg = ElementRegistry::new();
    let mut g = Graph::new();
    let anchor = g.spawn(None);
    let mut ctx = DioxusBevyContext::new();
    let descriptor = DioxusBevyRootComponent(2);
    let build = vec![
        dioxus_bevy::mutations::Mutation::CreatePlaceholder {
            id: dioxus_bevy::values::ElementId(1),
        },
        dioxus_bevy::mutations::Mutation::AppendChildren {
            id: dioxus_bevy::values::ElementId(0),
            m: 1,
        },
    ];
    dioxus_bevy::tick::tick_dioxus_ui(&mut ctx, anchor, descriptor, &mut g, &reg, &build)
        .unwrap();
    // next tick: an op addressing the id registered last tick still works
    let touch = vec![dioxus_bevy::mutations::Mutation::InsertAfter {
        id: dioxus_bevy::values::ElementId(1),
        m: 0,
    }];
    dioxus_bevy::tick::tick_dioxus_ui(&mut ctx, anchor, descriptor, &mut g, &reg, &touch)
        .unwrap();
    assert_eq!(g.children_len(anchor), 1);
}
