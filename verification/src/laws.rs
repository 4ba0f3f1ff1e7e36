//! The engine's cross-cutting guarantees, stated and proved once over the
//! contracts of the operations they concern.
//!
//! Each law here is a consequence a reader might otherwise have to derive
//! from several operation contracts: what cascade removal spares, that
//! re-applying an attribute changes nothing further, when a resource-only
//! scope is marked dirty, and that splicing zero nodes is a no-op.

use vstd::prelude::*;

use crate::ecs_hooks::{resource_changed, EcsSubscriptions};
use crate::graph::{
    in_subtree, lemma_filter_all_true, lemma_parent_in_subtree, reaches, seq_without, Graph,
};
use crate::mutations::{insert_adjacent_post, remove_node_post, EngineError, MutationApplier};
use crate::values::{AttrValueModel, ElementId};

verus! {

broadcast use crate::graph::lemma_is_live_bounds;

/// Cascade removal removes no sibling: a live node sharing the removed
/// node's parent survives, with its registered id still in place. (The
/// parent itself must not sit inside the removed subtree, which only a
/// cyclic graph would allow.)
pub proof fn lemma_remove_node_spares_siblings(
    a0: MutationApplier,
    g0: Graph,
    a1: MutationApplier,
    g1: Graph,
    id: ElementId,
    s: usize,
    el: usize,
)
    requires
        g0.wf(),
        g0.node_count() <= usize::MAX,
        a0.wf_for(g0),
        remove_node_post(a0, g0, a1, g1, id, Ok(())),
        g0.is_live(s as int),
        s != a0.ids()[id.0],
        g0.parent_of(s as int) == g0.parent_of(a0.ids()[id.0] as int),
        g0.parent_of(s as int) is Some,
        !in_subtree(g0, a0.ids()[id.0] as int, g0.parent_of(s as int).unwrap() as int),
        a0.ids().contains_key(el),
        a0.ids()[el] == s,
    ensures
        g1.is_live(s as int),
        a1.ids().contains_key(el),
        a1.ids()[el] == s,
{
    let t = a0.ids()[id.0] as int;
    assert(g0.is_live(t)) by {
        assert(a0.ids().contains_key(id.0));
    }
    assert(!in_subtree(g0, t, s as int)) by {
        if in_subtree(g0, t, s as int) {
            let k = choose|k: nat| reaches(g0, t, s as int, k);
            lemma_parent_in_subtree(g0, t, s as int, k);
        }
    }
}

/// Applying the same attribute value twice leaves the graph exactly as
/// applying it once did: every node is observably identical.
pub proof fn lemma_set_attribute_idempotent(
    g0: Graph,
    g1: Graph,
    g2: Graph,
    n: usize,
    name: Seq<char>,
    v: AttrValueModel,
)
    requires
        g1.node_count() == g0.node_count(),
        g1.attrs_of(n as int) == g0.attrs_of(n as int).insert(name, v),
        g1.is_live(n as int),
        g1.parent_of(n as int) == g0.parent_of(n as int),
        g1.children_of(n as int) == g0.children_of(n as int),
        g1.tag_of(n as int) == g0.tag_of(n as int),
        forall|m: int| 0 <= m < g0.node_count() && m != n as int ==> g0.node_same(g1, m),
        g2.node_count() == g1.node_count(),
        g2.attrs_of(n as int) == g1.attrs_of(n as int).insert(name, v),
        g2.is_live(n as int),
        g2.parent_of(n as int) == g1.parent_of(n as int),
        g2.children_of(n as int) == g1.children_of(n as int),
        g2.tag_of(n as int) == g1.tag_of(n as int),
        forall|m: int| 0 <= m < g1.node_count() && m != n as int ==> g1.node_same(g2, m),
    ensures
        g2.node_count() == g1.node_count(),
        forall|m: int| 0 <= m < g1.node_count() ==> g1.node_same(g2, m),
{
    assert(g2.attrs_of(n as int) =~= g1.attrs_of(n as int));
    assert forall|m: int| 0 <= m < g1.node_count() implies g1.node_same(g2, m) by {
        if m == n as int {
            assert(g1.is_live(m) == g2.is_live(m));
        }
    }
}

/// Re-binding the same back-reference handle to the same node changes
/// neither table: binding is idempotent.
pub proof fn lemma_bind_handle_idempotent(
    h1: Map<usize, usize>,
    o1: Map<usize, usize>,
    h2: Map<usize, usize>,
    o2: Map<usize, usize>,
    h: usize,
    t: usize,
)
    requires
        // the first bind left `h` observing `t`
        h1.contains_key(h) && h1[h] == t,
        o1.contains_key(t) && o1[t] == h,
        // the tables are mutually inverse
        forall|k: usize| #[trigger] h1.contains_key(k) ==> o1.contains_key(h1[k]) && o1[h1[k]]
            == k,
        forall|v: usize| #[trigger] o1.contains_key(v) ==> h1.contains_key(o1[v]) && h1[o1[v]]
            == v,
        // the second bind of the same pair
        h2 == (match o1.contains_key(t) {
            true => h1.remove(o1[t]),
            false => h1,
        }).insert(h, t),
        o2 == (match h1.contains_key(h) {
            true => o1.remove(h1[h]),
            false => o1,
        }).insert(t, h),
    ensures
        h2 == h1,
        o2 == o1,
{
    assert(h2 =~= h1);
    assert(o2 =~= o1);
}

/// A scope subscribed to exactly one resource is marked dirty on a tick if
/// and only if that resource's version changed since last observed;
/// changing any other resource never marks it.
pub proof fn lemma_resource_scope_dirty_iff(
    subs: EcsSubscriptions,
    versions: Seq<(usize, u64)>,
    events_present: Seq<usize>,
    dirty: Seq<usize>,
    x: usize,
    r0: usize,
)
    requires
        forall|y: usize| #[trigger] dirty.contains(y) <==> (subs.world_subscribed(y) || (
        exists|r: usize| #[trigger] subs.res_subscribed(r, y) && resource_changed(
            subs,
            versions,
            r,
        )) || (exists|k: usize| #[trigger] subs.event_subscribed(k, y) && events_present.contains(
            k,
        ))),
        !subs.world_subscribed(x),
        forall|k: usize| !subs.event_subscribed(k, x),
        forall|r: usize| r != r0 ==> !subs.res_subscribed(r, x),
        subs.res_subscribed(r0, x),
    ensures
        dirty.contains(x) <==> resource_changed(subs, versions, r0),
{
    if dirty.contains(x) {
        if exists|r: usize| #[trigger] subs.res_subscribed(r, x) && resource_changed(
            subs,
            versions,
            r,
        ) {
            let r = choose|r: usize|
                #[trigger] subs.res_subscribed(r, x) && resource_changed(subs, versions, r);
            assert(r == r0);
        } else if exists|k: usize| #[trigger] subs.event_subscribed(k, x)
            && events_present.contains(k) {
            let k = choose|k: usize|
                #[trigger] subs.event_subscribed(k, x) && events_present.contains(k);
            assert(!subs.event_subscribed(k, x));
        }
    } else {
        if resource_changed(subs, versions, r0) {
            assert(subs.res_subscribed(r0, x) && resource_changed(subs, versions, r0));
        }
    }
}

/// Splicing zero nodes before or after a registered node pops nothing and
/// leaves the graph observably unchanged.
pub proof fn lemma_insert_zero_nodes_noop(
    a0: MutationApplier,
    g0: Graph,
    a1: MutationApplier,
    g1: Graph,
    id: ElementId,
    after: bool,
)
    requires
        g0.wf(),
        a0.wf_for(g0),
        insert_adjacent_post(a0, g0, a1, g1, id, 0, after, Ok(())),
    ensures
        a1.stack_view() == a0.stack_view(),
        g1.node_count() == g0.node_count(),
        forall|m: int| 0 <= m < g0.node_count() ==> g0.node_same(g1, m),
{
    let t = a0.ids()[id.0];
    let p = g0.parent_of(t as int).unwrap();
    let cs = a0.stack_view().skip(a0.stack_view().len() as int);
    assert(cs =~= Seq::<usize>::empty());
    assert(a1.stack_view() == a0.stack_view()) by {
        assert(a0.stack_view().take(a0.stack_view().len() as int) =~= a0.stack_view());
    }
    let w = seq_without(g0.children_of(p as int), cs);
    assert(w == g0.children_of(p as int)) by {
        lemma_filter_all_true(g0.children_of(p as int), |e: usize| !cs.contains(e));
    }
    assert(g0.is_live(t as int)) by {
        assert(a0.ids().contains_key(id.0));
    }
    assert(g0.children_of(p as int).contains(t));
    let ti = choose|ti: int|
        0 <= ti < g0.children_of(p as int).len() && g0.children_of(p as int)[ti] == t;
    w.index_of_first_ensures(t);
    assert(w.contains(t));
    let i0 = w.index_of_first(t).unwrap();
    let at = if after {
        i0 + 1
    } else {
        i0
    };
    assert(0 <= at <= w.len());
    assert(g1.children_of(p as int) == w.take(at) + cs + w.skip(at));
    assert(g1.children_of(p as int) =~= w);
    assert forall|m: int| 0 <= m < g0.node_count() implies g0.node_same(g1, m) by {
        if m != p as int {
            assert(g1.children_of(m) == seq_without(g0.children_of(m), cs));
            lemma_filter_all_true(g0.children_of(m), |e: usize| !cs.contains(e));
        }
        assert(g1.is_live(m) == g0.is_live(m));
        assert(g1.tag_of(m) == g0.tag_of(m));
        assert(g1.attrs_of(m) == g0.attrs_of(m));
        assert(g1.parent_of(m) == g0.parent_of(m));
    }
}

/// Removing a node clears any back-reference handle bound to it, in the
/// same pass: afterwards the handle reads "absent".
pub proof fn lemma_remove_clears_bound_handle(
    a0: MutationApplier,
    g0: Graph,
    a1: MutationApplier,
    g1: Graph,
    id: ElementId,
    h: usize,
)
    requires
        remove_node_post(a0, g0, a1, g1, id, Ok(())),
        a0.handles().contains_key(h),
        a0.handles()[h] == a0.ids()[id.0],
    ensures
        !a1.handles().contains_key(h),
{
    let t = a0.ids()[id.0] as int;
    assert(reaches(g0, t, t, 0));
    assert(in_subtree(g0, t, t));
}

} // verus!
