//! Root lifecycle and the per-tick reconciliation pass.
//!
//! A root is the persistent reconciliation unit for one anchor node: its
//! identifier registry, back-reference table, template cache and the "never
//! built" flag live here across ticks, keyed by the pair of anchor node and
//! root descriptor. A root is created lazily the first tick its anchor is
//! observed; pairs absent from a tick's snapshot are simply not stored back.
//!
//! One tick proceeds in order: the host drains its deferred command queue so
//! the graph is consistent, computes the dirty scopes
//! ([`crate::ecs_hooks::EcsSubscriptions::compute_dirty`]), then for each
//! observed root asks the external diff engine for a full build (first use)
//! or an incremental diff of the dirty scopes, and applies the returned
//! edit-script here. The diff engine itself is an external collaborator, so
//! the engine's side of the exchange is split into [`take_root`],
//! [`DioxusBevyRoot::begin_pass`], [`render_ui`] and [`store_root`]; the
//! host loop performs the external calls between them.

use vstd::prelude::*;

use crate::adapter::ElementRegistry;
use crate::graph::Graph;
use crate::mutations::{
    op_ref_id, op_registers_id, script_preserves_ids, EngineError, Mutation, MutationApplier,
};
use crate::registry::BiMap;
use crate::template::TemplateCache;

verus! {

/// The descriptor of a root's UI component, issued by the host when the
/// component is registered with the diff engine.
#[derive(Clone, Copy, PartialEq, Eq, Structural, Debug, Hash)]
pub struct DioxusBevyRootComponent(pub usize);

/// The persistent per-anchor reconciliation bundle.
pub struct DioxusBevyRoot {
    el_to_node: BiMap,
    entity_refs: BiMap,
    templates: TemplateCache,
    needs_rebuild: bool,
}

impl DioxusBevyRoot {
    /// The identifier registry: externally issued id to graph node.
    pub closed spec fn ids(self) -> Map<usize, usize> {
        self.el_to_node.fwd()
    }

    /// The inverse registry: graph node to externally issued id.
    pub closed spec fn node_ids(self) -> Map<usize, usize> {
        self.el_to_node.bwd()
    }

    /// The back-reference table: handle to observed graph node.
    pub closed spec fn handles(self) -> Map<usize, usize> {
        self.entity_refs.fwd()
    }

    /// The inverse back-reference table: graph node to its bound handle.
    pub closed spec fn handle_of(self) -> Map<usize, usize> {
        self.entity_refs.bwd()
    }

    /// The registered templates, by name.
    pub closed spec fn templates_of(self) -> Map<Seq<char>, crate::template::BevyTemplate> {
        self.templates.templates()
    }

    /// Whether this root has never been built.
    pub closed spec fn never_built(self) -> bool {
        self.needs_rebuild
    }

    /// Tables are bijective and point only at live nodes of `g`.
    pub open spec fn wf_for(self, g: Graph) -> bool {
        &&& self.tables_wf()
        &&& forall|el: usize| #[trigger] self.ids().contains_key(el) ==> g.is_live(
            self.ids()[el] as int,
        )
        &&& forall|h: usize| #[trigger] self.handles().contains_key(h) ==> g.is_live(
            self.handles()[h] as int,
        )
    }

    /// Both tables are bijective.
    pub closed spec fn tables_wf(self) -> bool {
        &&& self.el_to_node.wf()
        &&& self.entity_refs.wf()
    }

    /// A fresh root: empty tables, and a forced full build on first use.
    pub fn new() -> (r: DioxusBevyRoot)
        ensures
            r.never_built(),
            r.ids() == Map::<usize, usize>::empty(),
            r.node_ids() == Map::<usize, usize>::empty(),
            r.handles() == Map::<usize, usize>::empty(),
            r.handle_of() == Map::<usize, usize>::empty(),
            r.templates_of() == Map::<Seq<char>, crate::template::BevyTemplate>::empty(),
            forall|g: Graph| r.wf_for(g),
    {
        DioxusBevyRoot {
            el_to_node: BiMap::new(),
            entity_refs: BiMap::new(),
            templates: TemplateCache::new(),
            needs_rebuild: true,
        }
    }

    /// Decides what to request from the diff engine this tick: a full build
    /// exactly on the first pass, an incremental diff afterwards. Clears the
    /// "never built" flag.
    pub fn begin_pass(&mut self) -> (full_build: bool)
        ensures
            full_build == old(self).never_built(),
            !final(self).never_built(),
            final(self).ids() == old(self).ids(),
            final(self).node_ids() == old(self).node_ids(),
            final(self).handles() == old(self).handles(),
            final(self).handle_of() == old(self).handle_of(),
            final(self).templates_of() == old(self).templates_of(),
            final(self).tables_wf() == old(self).tables_wf(),
    {
        let full = self.needs_rebuild;
        self.needs_rebuild = false;
        full
    }
}

/// The host-kept store of roots and subscriptions, persisted across ticks.
pub struct DioxusBevyContext {
    roots: Vec<((usize, DioxusBevyRootComponent), DioxusBevyRoot)>,
    pub subscriptions: crate::ecs_hooks::EcsSubscriptions,
}

impl DioxusBevyContext {
    /// Whether a root is stored under the pair.
    pub closed spec fn has_root(self, anchor: usize, descriptor: DioxusBevyRootComponent) -> bool {
        exists|i: int|
            0 <= i < self.roots@.len() && (#[trigger] self.roots@[i]).0 == (anchor, descriptor)
    }

    /// The subscription registry.
    pub closed spec fn subs(self) -> crate::ecs_hooks::EcsSubscriptions {
        self.subscriptions
    }

    /// The root stored under the pair, if any, is consistent with `g`.
    pub closed spec fn root_ok_for(
        self,
        anchor: usize,
        descriptor: DioxusBevyRootComponent,
        g: Graph,
    ) -> bool {
        forall|i: int|
            0 <= i < self.roots@.len() && (#[trigger] self.roots@[i]).0 == (anchor, descriptor)
                ==> self.roots@[i].1.wf_for(g)
    }

    /// The bundle stored under the pair; meaningful only while
    /// [`DioxusBevyContext::has_root`] holds of the pair and the keys are
    /// unique.
    pub closed spec fn root_of(
        self,
        anchor: usize,
        descriptor: DioxusBevyRootComponent,
    ) -> DioxusBevyRoot {
        self.roots@[choose|i: int|
            0 <= i < self.roots@.len() && (#[trigger] self.roots@[i]).0 == (anchor, descriptor)].1
    }

    /// The root stored under the pair, if any, has never been built.
    pub closed spec fn stored_never_built(
        self,
        anchor: usize,
        descriptor: DioxusBevyRootComponent,
    ) -> bool {
        forall|i: int|
            0 <= i < self.roots@.len() && (#[trigger] self.roots@[i]).0 == (anchor, descriptor)
                ==> self.roots@[i].1.never_built()
    }

    /// Whether the next pass for the pair must request a full build: the
    /// pair was never observed, or its root has never been built.
    pub fn root_never_built(&self, anchor: usize, descriptor: DioxusBevyRootComponent) -> (r: bool)
        requires
            self.roots_wf(),
        ensures
            r == (!self.has_root(anchor, descriptor) || self.stored_never_built(
                anchor,
                descriptor,
            )),
    {
        let len = self.roots.len();
        let mut i: usize = 0;
        while i < len
            invariant
                i <= len,
                len == self.roots@.len(),
                self.roots_wf(),
                forall|j: int| 0 <= j < i ==> (#[trigger] self.roots@[j]).0 != (
                anchor,
                descriptor,
                ),
            decreases len - i,
        {
            if self.roots[i].0.0 == anchor && self.roots[i].0.1 == descriptor {
                let r = self.roots[i].1.needs_rebuild;
                proof {
                    assert(self.roots@[i as int].0 == (anchor, descriptor));
                    assert(self.has_root(anchor, descriptor));
                    if r {
                        assert forall|j: int|
                            0 <= j < self.roots@.len() && (#[trigger] self.roots@[j]).0 == (
                            anchor,
                            descriptor,
                            ) implies self.roots@[j].1.never_built() by {
                            if j != i {
                                assert(self.roots@[j].0 != self.roots@[i as int].0);
                            }
                        }
                    } else {
                        assert(!self.roots@[i as int].1.never_built());
                    }
                }
                return r;
            }
            i += 1;
        }
        proof {
            if self.has_root(anchor, descriptor) {
                let j = choose|j: int|
                    0 <= j < self.roots@.len() && (#[trigger] self.roots@[j]).0 == (
                    anchor,
                    descriptor,
                    );
                assert(false);
            }
        }
        true
    }

    /// Root keys are unique.
    pub closed spec fn roots_wf(self) -> bool {
        forall|i: int, j: int|
            0 <= i < self.roots@.len() && 0 <= j < self.roots@.len() && i != j ==> (
            #[trigger] self.roots@[i]).0 != (#[trigger] self.roots@[j]).0
    }

    /// An empty store.
    pub fn new() -> (r: DioxusBevyContext)
        ensures
            r.roots_wf(),
            forall|a: usize, d: DioxusBevyRootComponent| !r.has_root(a, d),
            r.subs().wf(),
    {
        DioxusBevyContext {
            roots: Vec::new(),
            subscriptions: crate::ecs_hooks::EcsSubscriptions::new(),
        }
    }
}

/// Fetches the persistent root for the pair, removing it from the store, or
/// creates a fresh one (with "never built" set) the first time the pair is
/// observed.
pub fn take_root(
    ctx: &mut DioxusBevyContext,
    anchor: usize,
    descriptor: DioxusBevyRootComponent,
) -> (root: DioxusBevyRoot)
    requires
        old(ctx).roots_wf(),
    ensures
        final(ctx).roots_wf(),
        final(ctx).subs() == old(ctx).subs(),
        !final(ctx).has_root(anchor, descriptor),
        forall|a: usize, d: DioxusBevyRootComponent|
            (a, d) != (anchor, descriptor) ==> final(ctx).has_root(a, d) == old(ctx).has_root(
                a,
                d,
            ),
        !old(ctx).has_root(anchor, descriptor) ==> {
            &&& root.never_built()
            &&& root.ids() == Map::<usize, usize>::empty()
            &&& root.node_ids() == Map::<usize, usize>::empty()
            &&& root.handles() == Map::<usize, usize>::empty()
            &&& root.handle_of() == Map::<usize, usize>::empty()
            &&& root.templates_of() == Map::<Seq<char>, crate::template::BevyTemplate>::empty()
        },
        old(ctx).has_root(anchor, descriptor) ==> root.never_built() == old(ctx).stored_never_built(anchor, descriptor),
        old(ctx).has_root(anchor, descriptor) ==> root == old(ctx).root_of(anchor, descriptor),
        forall|g: Graph|
            #[trigger] old(ctx).root_ok_for(anchor, descriptor, g) ==> root.wf_for(g),
        forall|a: usize, d: DioxusBevyRootComponent, g: Graph|
            #[trigger] old(ctx).root_ok_for(a, d, g) ==> final(ctx).root_ok_for(a, d, g),
{
    let len = ctx.roots.len();
    let mut i: usize = 0;
    while i < len
        invariant
            i <= len,
            len == ctx.roots@.len(),
            *ctx == *old(ctx),
            old(ctx).roots_wf(),
            forall|j: int| 0 <= j < i ==> (#[trigger] ctx.roots@[j]).0 != (anchor, descriptor),
        decreases len - i,
    {
        if ctx.roots[i].0.0 == anchor && ctx.roots[i].0.1 == descriptor {
            let entry = ctx.roots.remove(i);
            proof {
                let pre = old(ctx).roots@;
                assert(pre[i as int].0 == (anchor, descriptor));
                assert(old(ctx).has_root(anchor, descriptor));
                assert(old(ctx).root_of(anchor, descriptor) == pre[i as int].1) by {
                    let j = choose|j: int|
                        0 <= j < old(ctx).roots@.len() && (#[trigger] old(ctx).roots@[j]).0 == (
                        anchor,
                        descriptor,
                        );
                    if j != i {
                        assert(pre[j].0 != pre[i as int].0);
                    }
                }
                assert forall|a: usize, d: DioxusBevyRootComponent|
                    (a, d) != (anchor, descriptor) implies ctx.has_root(a, d) == old(ctx).has_root(a, d) by {
                    if ctx.has_root(a, d) {
                        let j = choose|j: int|
                            0 <= j < ctx.roots@.len() && (#[trigger] ctx.roots@[j]).0 == (a, d);
                        let j2 = if j < i {
                            j
                        } else {
                            j + 1
                        };
                        assert(pre[j2].0 == (a, d));
                    } else {
                        if old(ctx).has_root(a, d) {
                            let j = choose|j: int|
                                0 <= j < pre.len() && (#[trigger] pre[j]).0 == (a, d);
                            assert(j != i);
                            let j2 = if j < i {
                                j
                            } else {
                                j - 1
                            };
                            assert(ctx.roots@[j2].0 == (a, d));
                        }
                    }
                }
                assert(!ctx.has_root(anchor, descriptor)) by {
                    if ctx.has_root(anchor, descriptor) {
                        let j = choose|j: int|
                            0 <= j < ctx.roots@.len() && (#[trigger] ctx.roots@[j]).0 == (
                            anchor,
                            descriptor,
                            );
                        let j2 = if j < i {
                            j
                        } else {
                            j + 1
                        };
                        assert(pre[j2].0 == (anchor, descriptor) && pre[i as int].0 == (
                        anchor,
                        descriptor,
                        ));
                    }
                }
                assert forall|i1: int, j1: int|
                    0 <= i1 < ctx.roots@.len() && 0 <= j1 < ctx.roots@.len() && i1 != j1 implies (
                #[trigger] ctx.roots@[i1]).0 != (#[trigger] ctx.roots@[j1]).0 by {
                    let a1 = if i1 < i {
                        i1
                    } else {
                        i1 + 1
                    };
                    let b1 = if j1 < i {
                        j1
                    } else {
                        j1 + 1
                    };
                    assert(ctx.roots@[i1] == pre[a1] && ctx.roots@[j1] == pre[b1]);
                }
            }
            return entry.1;
        }
        i += 1;
    }
    proof {
        if old(ctx).has_root(anchor, descriptor) {
            let j = choose|j: int|
                0 <= j < old(ctx).roots@.len() && (#[trigger] old(ctx).roots@[j]).0 == (
                anchor,
                descriptor,
                );
            assert(false);
        }
    }
    DioxusBevyRoot::new()
}

/// Stores the (possibly mutated) root back under its pair for the next tick.
pub fn store_root(
    ctx: &mut DioxusBevyContext,
    anchor: usize,
    descriptor: DioxusBevyRootComponent,
    root: DioxusBevyRoot,
)
    requires
        old(ctx).roots_wf(),
        !old(ctx).has_root(anchor, descriptor),
    ensures
        final(ctx).roots_wf(),
        final(ctx).subs() == old(ctx).subs(),
        final(ctx).has_root(anchor, descriptor),
        forall|a: usize, d: DioxusBevyRootComponent|
            (a, d) != (anchor, descriptor) ==> final(ctx).has_root(a, d) == old(ctx).has_root(
                a,
                d,
            ),
        forall|g: Graph| root.wf_for(g) ==> #[trigger] final(ctx).root_ok_for(
            anchor,
            descriptor,
            g,
        ),
        forall|a: usize, d: DioxusBevyRootComponent, g: Graph|
            (a, d) != (anchor, descriptor) && #[trigger] old(ctx).root_ok_for(a, d, g) ==> final(ctx).root_ok_for(a, d, g),
        final(ctx).stored_never_built(anchor, descriptor) == root.never_built(),
        final(ctx).root_of(anchor, descriptor) == root,
{
    let ghost pre = ctx.roots@;
    ctx.roots.push(((anchor, descriptor), root));
    proof {
        assert(ctx.roots@[pre.len() as int].0 == (anchor, descriptor));
        assert(ctx.has_root(anchor, descriptor));
        assert(ctx.root_of(anchor, descriptor) == ctx.roots@[pre.len() as int].1) by {
            let j = choose|j: int|
                0 <= j < ctx.roots@.len() && (#[trigger] ctx.roots@[j]).0 == (anchor, descriptor);
            if j != pre.len() {
                assert(pre[j].0 == (anchor, descriptor));
                assert(old(ctx).has_root(anchor, descriptor));
            }
        }
        assert forall|a: usize, d: DioxusBevyRootComponent|
            (a, d) != (anchor, descriptor) implies ctx.has_root(a, d) == old(ctx).has_root(
            a,
            d,
        ) by {
            if ctx.has_root(a, d) {
                let j = choose|j: int|
                    0 <= j < ctx.roots@.len() && (#[trigger] ctx.roots@[j]).0 == (a, d);
                assert(j < pre.len());
                assert(pre[j].0 == (a, d));
            } else {
                if old(ctx).has_root(a, d) {
                    let j = choose|j: int| 0 <= j < pre.len() && (#[trigger] pre[j]).0 == (a, d);
                    assert(ctx.roots@[j].0 == (a, d));
                }
            }
        }
        assert forall|i1: int, j1: int|
            0 <= i1 < ctx.roots@.len() && 0 <= j1 < ctx.roots@.len() && i1 != j1 implies (
        #[trigger] ctx.roots@[i1]).0 != (#[trigger] ctx.roots@[j1]).0 by {
            let last = ctx.roots@.len() - 1;
            if i1 < last && j1 < last {
                assert(ctx.roots@[i1] == pre[i1] && ctx.roots@[j1] == pre[j1]);
            } else {
                let jo = if i1 == last {
                    j1
                } else {
                    i1
                };
                assert(ctx.roots@[jo] == pre[jo]);
                if pre[jo].0 == (anchor, descriptor) {
                    assert(old(ctx).has_root(anchor, descriptor));
                }
            }
        }
    }
}

/// Applies one edit-script to the graph on behalf of `root`: builds the
/// stack machine over the root's persistent tables, registers the anchor
/// node under id 0, runs the script, and hands the tables back. A malformed
/// script aborts the pass with the error; the tables keep whatever prefix
/// was applied, and the host abandons the tick loudly.
pub fn render_ui(
    root: &mut DioxusBevyRoot,
    root_entity: usize,
    g: &mut Graph,
    reg: &ElementRegistry,
    script: &Vec<Mutation>,
) -> (r: Result<(), EngineError>)
    requires
        old(root).wf_for(*old(g)),
        old(g).wf(),
        old(g).is_live(root_entity as int),
    ensures
        final(root).wf_for(*final(g)),
        final(g).wf(),
        final(root).never_built() == old(root).never_built(),
        final(root).templates_of() == old(root).templates_of(),
        r is Ok && script_preserves_ids(script@) ==> {
            &&& final(root).ids().contains_key(0)
            &&& ((forall|i: int|
                0 <= i < script@.len() ==> op_registers_id(#[trigger] script@[i]) != Some(0usize))
                ==> final(root).ids()[0] == root_entity)
            &&& forall|i: int|
                0 <= i < script@.len() && (#[trigger] op_ref_id(script@[i])) is Some
                    ==> final(root).ids().contains_key(op_ref_id(script@[i]).unwrap()) && final(g).is_live(final(root).ids()[op_ref_id(script@[i]).unwrap()] as int)
        },
        script@.len() == 0 ==> r is Ok && *final(g) == *old(g) && final(root).ids() == (match old(root).node_ids().contains_key(root_entity) {
            true => old(root).ids().remove(old(root).node_ids()[root_entity]),
            false => old(root).ids(),
        }).insert(0, root_entity) && final(root).handles() == old(root).handles() && final(root).handle_of() == old(root).handle_of(),
{
    let mut tmp = DioxusBevyRoot::new();
    core::mem::swap(root, &mut tmp);
    let DioxusBevyRoot { el_to_node, entity_refs, templates, needs_rebuild } = tmp;
    proof {
        assert(el_to_node == old(root).el_to_node);
        assert(entity_refs == old(root).entity_refs);
        assert forall|el: usize| #[trigger] el_to_node.fwd().contains_key(el) implies g.is_live(
            el_to_node.fwd()[el] as int,
        ) by {
            assert(old(root).ids().contains_key(el));
        }
        assert forall|h: usize| #[trigger] entity_refs.fwd().contains_key(h) implies g.is_live(
            entity_refs.fwd()[h] as int,
        ) by {
            assert(old(root).handles().contains_key(h));
        }
    }
    let mut applier = MutationApplier::new(el_to_node, entity_refs, templates, root_entity, g);
    let ghost a0 = applier;
    let out = applier.apply(g, reg, script);
    let (el_to_node, entity_refs, templates) = applier.into_parts();
    *root = DioxusBevyRoot { el_to_node, entity_refs, templates, needs_rebuild };
    proof {
        assert(root.ids() == applier.ids());
        assert(root.node_ids() == applier.node_ids());
        assert(root.handles() == applier.handles());
        assert(root.handle_of() == applier.handle_of());
        assert forall|el: usize| #[trigger] root.ids().contains_key(el) implies g.is_live(
            root.ids()[el] as int,
        ) by {
            assert(applier.ids().contains_key(el));
        }
        assert forall|h: usize| #[trigger] root.handles().contains_key(h) implies g.is_live(
            root.handles()[h] as int,
        ) by {
            assert(applier.handles().contains_key(h));
        }
        if out is Ok && script_preserves_ids(script@) {
            assert(a0.ids().contains_key(0) && a0.ids()[0] == root_entity);
            assert(root.ids().contains_key(0));
        }
    }
    out
}

/// One root's reconciliation pass, as the tick driver runs it for every
/// observed (anchor, descriptor) pair: fetch or create the persistent root,
/// decide between a full build and an incremental diff, apply the
/// edit-script the diff engine returned for that request, and store the
/// root back. Returns whether this pass was the root's full build. The host
/// drains its deferred commands and computes the dirty set before any pass,
/// and consults [`DioxusBevyContext::root_never_built`] to phrase the
/// request whose script it passes in.
pub fn tick_dioxus_ui(
    ctx: &mut DioxusBevyContext,
    anchor: usize,
    descriptor: DioxusBevyRootComponent,
    g: &mut Graph,
    reg: &ElementRegistry,
    script: &Vec<Mutation>,
) -> (r: Result<bool, EngineError>)
    requires
        old(ctx).roots_wf(),
        old(ctx).root_ok_for(anchor, descriptor, *old(g)),
        old(g).wf(),
        old(g).is_live(anchor as int),
    ensures
        final(ctx).roots_wf(),
        final(g).wf(),
        final(ctx).has_root(anchor, descriptor),
        final(ctx).root_ok_for(anchor, descriptor, *final(g)),
        !final(ctx).stored_never_built(anchor, descriptor),
        r is Ok ==> r.unwrap() == (!old(ctx).has_root(anchor, descriptor) || old(ctx).stored_never_built(anchor, descriptor)),
        r is Ok && script_preserves_ids(script@) ==> {
            let stored = final(ctx).root_of(anchor, descriptor);
            &&& stored.ids().contains_key(0)
            &&& ((forall|i: int|
                0 <= i < script@.len() ==> op_registers_id(#[trigger] script@[i]) != Some(0usize))
                ==> stored.ids()[0] == anchor)
            &&& forall|i: int|
                0 <= i < script@.len() && (#[trigger] op_ref_id(script@[i])) is Some
                    ==> stored.ids().contains_key(op_ref_id(script@[i]).unwrap()) && final(g).is_live(stored.ids()[op_ref_id(script@[i]).unwrap()] as int)
        },
        script@.len() == 0 ==> r is Ok && *final(g) == *old(g) && {
            let stored = final(ctx).root_of(anchor, descriptor);
            if old(ctx).has_root(anchor, descriptor) {
                let prior = old(ctx).root_of(anchor, descriptor);
                &&& stored.ids() == (match prior.node_ids().contains_key(anchor) {
                    true => prior.ids().remove(prior.node_ids()[anchor]),
                    false => prior.ids(),
                }).insert(0, anchor)
                &&& stored.handles() == prior.handles()
                &&& stored.handle_of() == prior.handle_of()
                &&& stored.templates_of() == prior.templates_of()
            } else {
                &&& stored.ids() == Map::<usize, usize>::empty().insert(0, anchor)
                &&& stored.handles() == Map::<usize, usize>::empty()
                &&& stored.handle_of() == Map::<usize, usize>::empty()
                &&& stored.templates_of() == Map::<Seq<char>, crate::template::BevyTemplate>::empty()
            }
        },
{
    let mut root = take_root(ctx, anchor, descriptor);
    let full = root.begin_pass();
    let ghost taken = root;
    let out = render_ui(&mut root, anchor, g, reg, script);
    store_root(ctx, anchor, descriptor, root);
    proof {
        if script@.len() == 0 {
            if old(ctx).has_root(anchor, descriptor) {
                assert(taken.node_ids() == old(ctx).root_of(anchor, descriptor).node_ids());
            } else {
                assert(taken.ids() =~= Map::<usize, usize>::empty());
            }
        }
    }
    match out {
        Ok(_) => Ok(full),
        Err(e) => Err(e),
    }
}

/// The deferred host-mutation queue, the second store the host keeps alive
/// across ticks. Reactive code cannot take exclusive graph access at issue
/// time, so it enqueues a command token here; the host drains the queue and
/// executes the commands, in order, strictly before this tick's dirty
/// computation. Effects queued this tick are therefore visible no later than
/// this tick's reconciliation. The commands themselves are host work; the
/// engine guarantees the queue's content and its first-in, first-out order.
pub struct DeferredSystemRunQueue {
    run_queue: Vec<usize>,
}

impl DeferredSystemRunQueue {
    /// The queued command tokens, oldest first.
    pub closed spec fn queued(self) -> Seq<usize> {
        self.run_queue@
    }

    /// An empty queue.
    pub fn new() -> (q: DeferredSystemRunQueue)
        ensures
            q.queued() == Seq::<usize>::empty(),
    {
        DeferredSystemRunQueue { run_queue: Vec::new() }
    }

    /// Enqueues one deferred command, to run on the next drain.
    pub fn push(&mut self, command: usize)
        ensures
            final(self).queued() == old(self).queued().push(command),
    {
        self.run_queue.push(command);
    }

    /// Takes every queued command, in the order it was enqueued, leaving the
    /// queue empty for the rest of the tick.
    pub fn drain(&mut self) -> (commands: Vec<usize>)
        ensures
            commands@ == old(self).queued(),
            final(self).queued() == Seq::<usize>::empty(),
    {
        let mut out: Vec<usize> = Vec::new();
        core::mem::swap(&mut self.run_queue, &mut out);
        proof {
            assert(self.queued() =~= Seq::<usize>::empty());
        }
        out
    }
}

} // verus!
