//! The mutation stack machine: the reconciliation core.
//!
//! One applier is built per reconciliation pass. It consumes one ordered,
//! finite edit-script and applies it to the graph using a LIFO working stack
//! of node references, registering externally issued ids as it goes and
//! driving cascading removal through the identifier registry. Operations
//! apply strictly in emission order; a malformed script (an unregistered id,
//! a stack imbalance, an unknown template) aborts the pass with an error and
//! leaves the current state in place.

use vstd::prelude::*;

use crate::adapter::{value_matches, ElementRegistry};
use crate::graph::{in_subtree, resolve_path, seq_without, Graph};
use crate::registry::BiMap;
use crate::template::{spawned_matches, BevyTemplate, TemplateCache};
use crate::values::{AttrValueModel, AttributeValue, ElementId};

verus! {

broadcast use crate::graph::lemma_is_live_bounds;

/// One operation of an edit-script. The vocabulary is closed: a script
/// holding anything else cannot be represented, so an unsupported kind of
/// operation is rejected at the boundary where a script is built.
pub enum Mutation {
    AppendChildren { id: ElementId, m: usize },
    AssignId { path: Vec<u8>, id: ElementId },
    CreatePlaceholder { id: ElementId },
    LoadTemplate { name: String, index: usize, id: ElementId },
    ReplaceWith { id: ElementId, m: usize },
    ReplacePlaceholder { path: Vec<u8>, m: usize },
    InsertAfter { id: ElementId, m: usize },
    InsertBefore { id: ElementId, m: usize },
    SetAttribute { name: String, ns: Option<String>, value: AttributeValue, id: ElementId },
    RemoveNode { id: ElementId },
    PushRoot { id: ElementId },
}

/// Why a pass was aborted.
#[derive(Clone, Copy, PartialEq, Eq, Structural, Debug)]
pub enum EngineError {
    /// The script is malformed: a stack imbalance, a path that does not
    /// resolve, a duplicated stack target, an unknown template, or a removal
    /// of nodes the script still holds on its stack.
    ContractViolation,
    /// An id was used before any operation registered it.
    MissingMapping,
}

/// The name reserved for binding a back-reference handle instead of
/// delegating to the node adapter.
pub open spec fn is_reserved_entity_name(s: Seq<char>) -> bool {
    s == "entity"@
}

/// The mutation stack machine for one reconciliation pass. It owns the
/// per-root identifier registry, back-reference table and template cache for
/// the duration of the pass; [`MutationApplier::into_parts`] hands them back.
pub struct MutationApplier {
    el_to_node: BiMap,
    entity_refs: BiMap,
    templates: TemplateCache,
    stack: Vec<usize>,
}

impl MutationApplier {
    /// The identifier registry: externally issued id to graph node.
    pub closed spec fn ids(self) -> Map<usize, usize> {
        self.el_to_node.fwd()
    }

    /// The inverse registry: graph node to externally issued id.
    pub closed spec fn node_ids(self) -> Map<usize, usize> {
        self.el_to_node.bwd()
    }

    /// The back-reference table: handle to the graph node it observes. A
    /// handle absent from this table reads "absent".
    pub closed spec fn handles(self) -> Map<usize, usize> {
        self.entity_refs.fwd()
    }

    /// The inverse back-reference table: graph node to its bound handle.
    pub closed spec fn handle_of(self) -> Map<usize, usize> {
        self.entity_refs.bwd()
    }

    /// The registered templates, by name.
    pub closed spec fn templates_of(self) -> Map<Seq<char>, BevyTemplate> {
        self.templates.templates()
    }

    /// The working stack, bottom first.
    pub closed spec fn stack_view(self) -> Seq<usize> {
        self.stack@
    }

    /// Both tables are bijective.
    pub closed spec fn tables_wf(self) -> bool {
        &&& self.el_to_node.wf()
        &&& self.entity_refs.wf()
    }

    /// Registry, back-reference table and stack are consistent with the
    /// graph: both tables are bijective and point only at live nodes, and
    /// every stack entry is live.
    pub open spec fn wf_for(self, g: Graph) -> bool {
        &&& self.tables_wf()
        &&& forall|el: usize| #[trigger] self.ids().contains_key(el) ==> g.is_live(
            self.ids()[el] as int,
        )
        &&& forall|h: usize| #[trigger] self.handles().contains_key(h) ==> g.is_live(
            self.handles()[h] as int,
        )
        &&& forall|i: int| 0 <= i < self.stack_view().len() ==> g.is_live(
            #[trigger] self.stack_view()[i] as int,
        )
    }

    /// Everything except the working stack is as in `other`.
    pub open spec fn same_tables(self, other: MutationApplier) -> bool {
        &&& self.ids() == other.ids()
        &&& self.node_ids() == other.node_ids()
        &&& self.handles() == other.handles()
        &&& self.handle_of() == other.handle_of()
        &&& self.templates_of() == other.templates_of()
    }

    /// Table-related well-formedness carries over to any applier with the
    /// same table views, against any graph that keeps the old live set.
    proof fn lemma_tables_preserved(a0: MutationApplier, a1: MutationApplier, g0: Graph, g1: Graph)
        requires
            a0.wf_for(g0),
            a1.ids() == a0.ids(),
            a1.node_ids() == a0.node_ids(),
            a1.handles() == a0.handles(),
            a1.handle_of() == a0.handle_of(),
            forall|n: int| g0.is_live(n) ==> g1.is_live(n),
        ensures
            a1.tables_wf(),
            forall|el: usize| #[trigger] a1.ids().contains_key(el) ==> g1.is_live(
                a1.ids()[el] as int,
            ),
            forall|h: usize| #[trigger] a1.handles().contains_key(h) ==> g1.is_live(
                a1.handles()[h] as int,
            ),
    {
        assert forall|k: usize| #[trigger] a1.el_to_node.fwd().contains_key(k) implies
            a1.el_to_node.bwd().contains_key(a1.el_to_node.fwd()[k])
                && a1.el_to_node.bwd()[a1.el_to_node.fwd()[k]] == k by {
            assert(a0.el_to_node.fwd().contains_key(k));
        }
        assert forall|v: usize| #[trigger] a1.el_to_node.bwd().contains_key(v) implies
            a1.el_to_node.fwd().contains_key(a1.el_to_node.bwd()[v])
                && a1.el_to_node.fwd()[a1.el_to_node.bwd()[v]] == v by {
            assert(a0.el_to_node.bwd().contains_key(v));
        }
        assert forall|k: usize| #[trigger] a1.entity_refs.fwd().contains_key(k) implies
            a1.entity_refs.bwd().contains_key(a1.entity_refs.fwd()[k])
                && a1.entity_refs.bwd()[a1.entity_refs.fwd()[k]] == k by {
            assert(a0.entity_refs.fwd().contains_key(k));
        }
        assert forall|v: usize| #[trigger] a1.entity_refs.bwd().contains_key(v) implies
            a1.entity_refs.fwd().contains_key(a1.entity_refs.bwd()[v])
                && a1.entity_refs.fwd()[a1.entity_refs.bwd()[v]] == v by {
            assert(a0.entity_refs.bwd().contains_key(v));
        }
        assert forall|el: usize| #[trigger] a1.ids().contains_key(el) implies g1.is_live(
            a1.ids()[el] as int,
        ) by {
            assert(a0.ids().contains_key(el));
            assert(g0.is_live(a0.ids()[el] as int));
        }
        assert forall|h: usize| #[trigger] a1.handles().contains_key(h) implies g1.is_live(
            a1.handles()[h] as int,
        ) by {
            assert(a0.handles().contains_key(h));
            assert(g0.is_live(a0.handles()[h] as int));
        }
    }

    /// Builds the applier for one pass over the given persistent tables,
    /// registering the root anchor node under id 0 and starting with an
    /// empty working stack.
    pub fn new(
        el_to_node: BiMap,
        entity_refs: BiMap,
        templates: TemplateCache,
        root_entity: usize,
        g: &Graph,
    ) -> (a: MutationApplier)
        requires
            el_to_node.wf(),
            entity_refs.wf(),
            forall|el: usize| #[trigger] el_to_node.fwd().contains_key(el) ==> g.is_live(
                el_to_node.fwd()[el] as int,
            ),
            forall|h: usize| #[trigger] entity_refs.fwd().contains_key(h) ==> g.is_live(
                entity_refs.fwd()[h] as int,
            ),
            g.is_live(root_entity as int),
        ensures
            a.wf_for(*g),
            a.ids().contains_key(0) && a.ids()[0] == root_entity,
            a.ids() == (match el_to_node.bwd().contains_key(root_entity) {
                true => el_to_node.fwd().remove(el_to_node.bwd()[root_entity]),
                false => el_to_node.fwd(),
            }).insert(0, root_entity),
            a.node_ids() == (match el_to_node.fwd().contains_key(0) {
                true => el_to_node.bwd().remove(el_to_node.fwd()[0]),
                false => el_to_node.bwd(),
            }).insert(root_entity, 0),
            forall|el: usize|
                el != 0 && el_to_node.fwd().contains_key(el) && el_to_node.fwd()[el]
                    != root_entity ==> #[trigger] a.ids().contains_key(el) && a.ids()[el]
                    == el_to_node.fwd()[el],
            a.handles() == entity_refs.fwd(),
            a.handle_of() == entity_refs.bwd(),
            a.templates_of() == templates.templates(),
            a.stack_view() == Seq::<usize>::empty(),
    {
        let ghost ids0 = el_to_node;
        let mut el_to_node = el_to_node;
        el_to_node.bind(0, root_entity);
        let a = MutationApplier { el_to_node, entity_refs, templates, stack: Vec::new() };
        proof {
            assert forall|el: usize| #[trigger] a.ids().contains_key(el) implies g.is_live(
                a.ids()[el] as int,
            ) by {
                if el != 0 {
                    assert(ids0.fwd().contains_key(el) && ids0.fwd()[el] == a.ids()[el]);
                }
            }
        }
        a
    }

    /// The graph node a back-reference handle currently observes, or
    /// `None` when the handle reads "absent".
    pub fn handle_target(&self, h: usize) -> (r: Option<usize>)
        ensures
            r == (if self.handles().contains_key(h) {
                Some(self.handles()[h])
            } else {
                None::<usize>
            }),
    {
        self.entity_refs.get(h)
    }

    /// The node on top of the working stack, if any.
    pub fn stack_top(&self) -> (r: Option<usize>)
        ensures
            r == (if self.stack_view().len() > 0 {
                Some(self.stack_view().last())
            } else {
                None::<usize>
            }),
    {
        if self.stack.len() > 0 {
            Some(self.stack[self.stack.len() - 1])
        } else {
            None
        }
    }

    /// Hands the persistent tables back at the end of a pass.
    pub fn into_parts(self) -> (r: (BiMap, BiMap, TemplateCache))
        ensures
            r.0.fwd() == self.ids(),
            r.0.bwd() == self.node_ids(),
            r.1.fwd() == self.handles(),
            r.1.bwd() == self.handle_of(),
            r.2.templates() == self.templates_of(),
            self.tables_wf() ==> r.0.wf() && r.1.wf(),
    {
        (self.el_to_node, self.entity_refs, self.templates)
    }

    /// Memoizes a parsed template under a name; see
    /// [`TemplateCache::register`].
    pub fn register_template(
        &mut self,
        g: &Graph,
        name: String,
        t: BevyTemplate,
        reg: &ElementRegistry,
    ) -> (r: Result<(), EngineError>)
        requires
            old(self).wf_for(*g),
        ensures
            final(self).wf_for(*g),
            final(self).ids() == old(self).ids(),
            final(self).node_ids() == old(self).node_ids(),
            final(self).handles() == old(self).handles(),
            final(self).handle_of() == old(self).handle_of(),
            final(self).stack_view() == old(self).stack_view(),
            match r {
                Ok(_) => (if old(self).templates_of().contains_key(name@) {
                    final(self).templates_of() == old(self).templates_of()
                } else {
                    final(self).templates_of() == old(self).templates_of().insert(name@, t)
                }),
                Err(e) => {
                    &&& e == EngineError::ContractViolation
                    &&& final(self).templates_of() == old(self).templates_of()
                    &&& !old(self).templates_of().contains_key(name@)
                    &&& !crate::template::template_tags_known(t, *reg)
                },
            },
    {
        let out = match self.templates.register(name, t, reg) {
            Ok(_) => Ok(()),
            Err(_) => Err(EngineError::ContractViolation),
        };
        proof {
            Self::lemma_tables_preserved(*old(self), *self, *g, *g);
            assert forall|i: int| 0 <= i < self.stack_view().len() implies g.is_live(
                #[trigger] self.stack_view()[i] as int,
            ) by {
                assert(g.is_live(old(self).stack_view()[i] as int));
            }
        }
        out
    }

    /// Spawns an empty placeholder node, registers it under `id` and pushes
    /// it.
    pub fn create_placeholder(&mut self, g: &mut Graph, id: ElementId)
        requires
            old(self).wf_for(*old(g)),
            old(g).wf(),
        ensures
            final(self).wf_for(*final(g)),
            final(g).wf(),
            final(g).node_count() == old(g).node_count() + 1,
            forall|m: int| 0 <= m < old(g).node_count() ==> old(g).node_same(*final(g), m),
            ({
                let n = old(g).node_count() as usize;
                &&& final(g).is_live(n as int)
                &&& final(g).parent_of(n as int) is None
                &&& final(g).children_of(n as int) == Seq::<usize>::empty()
                &&& final(g).tag_of(n as int) is None
                &&& final(g).attrs_of(n as int) == Map::<Seq<char>, AttrValueModel>::empty()
                &&& final(self).ids() == old(self).ids().insert(id.0, n)
                &&& final(self).stack_view() == old(self).stack_view().push(n)
            }),
            final(self).handles() == old(self).handles(),
            final(self).handle_of() == old(self).handle_of(),
            final(self).templates_of() == old(self).templates_of(),
    {
        let n = g.spawn(None);
        proof {
            assert(!self.el_to_node.bwd().contains_key(n)) by {
                if self.el_to_node.bwd().contains_key(n) {
                    assert(self.ids().contains_key(self.el_to_node.bwd()[n]));
                    assert(old(g).is_live(n as int));
                }
            }
        }
        self.el_to_node.bind(id.0, n);
        self.stack.push(n);
        proof {
            self.lemma_wf_after_growth(*old(self), *old(g), *g);
            assert forall|i: int| 0 <= i < self.stack_view().len() implies g.is_live(
                #[trigger] self.stack_view()[i] as int,
            ) by {
                if i < old(self).stack_view().len() {
                    assert(old(g).is_live(old(self).stack_view()[i] as int));
                    assert(old(g).node_same(*g, old(self).stack_view()[i] as int));
                }
            }
            assert forall|el: usize| #[trigger] self.ids().contains_key(el) implies g.is_live(self.ids()[el] as int) by {
                if el != id.0 {
                    assert(old(self).ids().contains_key(el) && old(self).ids()[el]
                        == self.ids()[el]);
                    assert(old(g).node_same(*g, old(self).ids()[el] as int));
                }
            }
        }
    }

    /// Tables that pointed at live nodes still do after the graph only grew.
    proof fn lemma_wf_after_growth(self, a0: MutationApplier, g0: Graph, g1: Graph)
        requires
            a0.wf_for(g0),
            g0.node_count() <= g1.node_count(),
            forall|m: int| 0 <= m < g0.node_count() ==> g0.node_same(g1, m),
            self.handles() == a0.handles(),
            self.handle_of() == a0.handle_of(),
        ensures
            forall|h: usize| #[trigger] self.handles().contains_key(h) ==> g1.is_live(
                self.handles()[h] as int,
            ),
    {
        assert forall|h: usize| #[trigger] self.handles().contains_key(h) implies g1.is_live(
            self.handles()[h] as int,
        ) by {
            assert(g0.is_live(a0.handles()[h] as int));
            assert(g0.node_same(g1, a0.handles()[h] as int));
        }
    }

    /// Pushes the already-registered node for `id`, so a later operation in
    /// the same script can reuse it.
    pub fn push_root(&mut self, g: &Graph, id: ElementId) -> (r: Result<(), EngineError>)
        requires
            old(self).wf_for(*g),
        ensures
            final(self).wf_for(*g),
            final(self).same_tables(*old(self)),
            match r {
                Ok(_) => old(self).ids().contains_key(id.0) && final(self).stack_view() == old(
                    self,
                ).stack_view().push(old(self).ids()[id.0]),
                Err(e) => {
                    &&& e == EngineError::MissingMapping
                    &&& !old(self).ids().contains_key(id.0)
                    &&& final(self).stack_view() == old(self).stack_view()
                },
            },
    {
        let out = match self.el_to_node.get(id.0) {
            Some(n) => {
                self.stack.push(n);
                Ok(())
            },
            None => Err(EngineError::MissingMapping),
        };
        proof {
            Self::lemma_tables_preserved(*old(self), *self, *g, *g);
            assert forall|i: int| 0 <= i < self.stack_view().len() implies g.is_live(
                #[trigger] self.stack_view()[i] as int,
            ) by {
                if i < old(self).stack_view().len() {
                    assert(g.is_live(old(self).stack_view()[i] as int));
                }
            }
        }
        out
    }

    /// Instantiates root `index` of template `name`, registers the spawned
    /// subtree's root under `id` and pushes it.
    pub fn load_template(
        &mut self,
        g: &mut Graph,
        name: &String,
        index: usize,
        id: ElementId,
    ) -> (r: Result<(), EngineError>)
        requires
            old(self).wf_for(*old(g)),
            old(g).wf(),
        ensures
            final(self).wf_for(*final(g)),
            final(g).wf(),
            final(self).handles() == old(self).handles(),
            final(self).handle_of() == old(self).handle_of(),
            final(self).templates_of() == old(self).templates_of(),
            match r {
                Ok(_) => {
                    &&& old(self).templates_of().contains_key(name@)
                    &&& index < old(self).templates_of()[name@].roots@.len()
                    &&& final(g).node_count() > old(g).node_count()
                    &&& forall|m: int|
                        0 <= m < old(g).node_count() ==> old(g).node_same(*final(g), m)
                    &&& {
                        let n = final(self).ids()[id.0];
                        &&& final(self).ids().contains_key(id.0)
                        &&& old(g).node_count() <= n < final(g).node_count()
                        &&& final(self).ids() == old(self).ids().insert(id.0, n)
                        &&& final(g).is_live(n as int)
                        &&& final(g).parent_of(n as int) is None
                        &&& spawned_matches(
                            *final(g),
                            old(self).templates_of()[name@].roots@[index as int],
                            n as int,
                        )
                        &&& final(self).stack_view() == old(self).stack_view().push(n)
                    }
                },
                Err(e) => {
                    &&& e == EngineError::ContractViolation
                    &&& !(old(self).templates_of().contains_key(name@) && index < old(
                        self,
                    ).templates_of()[name@].roots@.len())
                    &&& *final(g) == *old(g)
                    &&& final(self).ids() == old(self).ids()
                    &&& final(self).node_ids() == old(self).node_ids()
                    &&& final(self).stack_view() == old(self).stack_view()
                },
            },
    {
        let n = match self.templates.instantiate_root(name, index, g) {
            Ok(n) => n,
            Err(_) => {
                return Err(EngineError::ContractViolation);
            },
        };
        proof {
            assert(!self.el_to_node.bwd().contains_key(n)) by {
                if self.el_to_node.bwd().contains_key(n) {
                    assert(self.ids().contains_key(self.el_to_node.bwd()[n]));
                    assert(old(g).is_live(n as int));
                }
            }
        }
        self.el_to_node.bind(id.0, n);
        self.stack.push(n);
        proof {
            self.lemma_wf_after_growth(*old(self), *old(g), *g);
            assert forall|i: int| 0 <= i < self.stack_view().len() implies g.is_live(
                #[trigger] self.stack_view()[i] as int,
            ) by {
                if i < old(self).stack_view().len() {
                    assert(old(g).is_live(old(self).stack_view()[i] as int));
                    assert(old(g).node_same(*g, old(self).stack_view()[i] as int));
                }
            }
            assert forall|el: usize| #[trigger] self.ids().contains_key(el) implies g.is_live(self.ids()[el] as int) by {
                if el != id.0 {
                    assert(old(self).ids().contains_key(el) && old(self).ids()[el]
                        == self.ids()[el]);
                    assert(old(g).node_same(*g, old(self).ids()[el] as int));
                }
            }
        }
        Ok(())
    }

    /// Applies an attribute to the node registered under `id`. The reserved
    /// back-reference name binds the handle carried by the value instead,
    /// displacing any prior binding of that handle and any prior handle of
    /// the node; a reserved-name value of any other shape, an unknown name,
    /// or a value whose shape does not match the schema is dropped. Returns
    /// whether anything was applied.
    pub fn set_attribute(
        &mut self,
        g: &mut Graph,
        reg: &ElementRegistry,
        name: &String,
        value: &AttributeValue,
        id: ElementId,
    ) -> (r: Result<bool, EngineError>)
        requires
            old(self).wf_for(*old(g)),
            old(g).wf(),
        ensures
            final(self).wf_for(*final(g)),
            final(g).wf(),
            final(self).ids() == old(self).ids(),
            final(self).node_ids() == old(self).node_ids(),
            final(self).templates_of() == old(self).templates_of(),
            final(self).stack_view() == old(self).stack_view(),
            match r {
                Ok(applied) => {
                    &&& old(self).ids().contains_key(id.0)
                    &&& {
                        let t = old(self).ids()[id.0];
                        if is_reserved_entity_name(name@) {
                            &&& *final(g) == *old(g)
                            &&& match value@ {
                                AttrValueModel::EntityRef(h) => {
                                    &&& applied
                                    &&& final(self).handles() == (match old(
                                        self,
                                    ).handle_of().contains_key(t) {
                                        true => old(self).handles().remove(
                                            old(self).handle_of()[t],
                                        ),
                                        false => old(self).handles(),
                                    }).insert(h, t)
                                    &&& final(self).handle_of() == (match old(
                                        self,
                                    ).handles().contains_key(h) {
                                        true => old(self).handle_of().remove(
                                            old(self).handles()[h],
                                        ),
                                        false => old(self).handle_of(),
                                    }).insert(t, h)
                                },
                                _ => {
                                    &&& !applied
                                    &&& final(self).handles() == old(self).handles()
                                    &&& final(self).handle_of() == old(self).handle_of()
                                },
                            }
                        } else {
                            &&& final(self).handles() == old(self).handles()
                            &&& final(self).handle_of() == old(self).handle_of()
                            &&& applied == (reg.attr_schema().contains_key(name@)
                                && (value_matches(reg.attr_schema()[name@], value@)
                                || value@ is Absent))
                            &&& (if applied {
                                &&& final(g).node_count() == old(g).node_count()
                                &&& final(g).attrs_of(t as int) == (if value@ is Absent {
                                    old(g).attrs_of(t as int).remove(name@)
                                } else {
                                    old(g).attrs_of(t as int).insert(name@, value@)
                                })
                                &&& final(g).is_live(t as int)
                                &&& final(g).parent_of(t as int) == old(g).parent_of(t as int)
                                &&& final(g).children_of(t as int) == old(g).children_of(t as int)
                                &&& final(g).tag_of(t as int) == old(g).tag_of(t as int)
                                &&& forall|m: int|
                                    0 <= m < old(g).node_count() && m != t as int ==> old(
                                        g,
                                    ).node_same(*final(g), m)
                            } else {
                                *final(g) == *old(g)
                            })
                        }
                    }
                },
                Err(e) => {
                    &&& e == EngineError::MissingMapping
                    &&& !old(self).ids().contains_key(id.0)
                    &&& *final(g) == *old(g)
                    &&& final(self).handles() == old(self).handles()
                    &&& final(self).handle_of() == old(self).handle_of()
                },
            },
    {
        let t = match self.el_to_node.get(id.0) {
            Some(t) => t,
            None => {
                return Err(EngineError::MissingMapping);
            },
        };
        let reserved: String = "entity".to_owned();
        if *name == reserved {
            match value {
                AttributeValue::EntityRef(h) => {
                    self.entity_refs.bind(*h, t);
                    proof {
                        assert forall|hh: usize| #[trigger] self.handles().contains_key(
                            hh,
                        ) implies g.is_live(self.handles()[hh] as int) by {
                            if hh != h {
                                assert(old(self).handles().contains_key(hh) && old(
                                    self,
                                ).handles()[hh] == self.handles()[hh]);
                            }
                        }
                    }
                    Ok(true)
                },
                _ => Ok(false),
            }
        } else {
            let applied = reg.apply_attribute(g, t, name, value);
            proof {
                if applied {
                    assert forall|el: usize| #[trigger] self.ids().contains_key(el) implies
                        g.is_live(self.ids()[el] as int) by {
                        if self.ids()[el] != t {
                            assert(old(g).node_same(*g, self.ids()[el] as int));
                        }
                    }
                    assert forall|hh: usize| #[trigger] self.handles().contains_key(hh) implies
                        g.is_live(self.handles()[hh] as int) by {
                        if self.handles()[hh] != t {
                            assert(old(g).node_same(*g, self.handles()[hh] as int));
                        }
                    }
                    assert forall|i: int| 0 <= i < self.stack_view().len() implies g.is_live(#[trigger] self.stack_view()[i] as int) by {
                        if self.stack_view()[i] != t {
                            assert(old(g).node_same(*g, self.stack_view()[i] as int));
                        }
                    }
                }
            }
            Ok(applied)
        }
    }

    /// Removes the whole subtree rooted at `entity`: first clears every
    /// affected back-reference handle and id mapping, while the nodes are
    /// still live, then removes the nodes themselves. Fails, changing
    /// nothing, if `entity` is not live or if the working stack still holds
    /// a node of the subtree.
    pub fn despawn_recursive(&mut self, g: &mut Graph, entity: usize) -> (r: Result<
        (),
        EngineError,
    >)
        requires
            old(self).wf_for(*old(g)),
            old(g).wf(),
        ensures
            final(self).wf_for(*final(g)),
            final(g).wf(),
            final(self).templates_of() == old(self).templates_of(),
            final(self).stack_view() == old(self).stack_view(),
            match r {
                Ok(_) => {
                    &&& old(g).is_live(entity as int)
                    &&& forall|i: int|
                        0 <= i < old(self).stack_view().len() ==> !in_subtree(
                            *old(g),
                            entity as int,
                            #[trigger] old(self).stack_view()[i] as int,
                        )
                    &&& final(g).node_count() == old(g).node_count()
                    &&& forall|n: int| #[trigger] final(g).is_live(n) <==> (old(g).is_live(n)
                        && !in_subtree(*old(g), entity as int, n))
                    &&& forall|m: int|
                        0 <= m < old(g).node_count() && !in_subtree(*old(g), entity as int, m)
                            && old(g).parent_of(entity as int) != Some(m as usize) ==> old(
                            g,
                        ).node_same(*final(g), m)
                    &&& match old(g).parent_of(entity as int) {
                        None => true,
                        Some(p) => !in_subtree(*old(g), entity as int, p as int) ==> {
                            &&& (exists|j: int|
                                0 <= j < old(g).children_of(p as int).len() && old(g).children_of(
                                    p as int,
                                )[j] == entity && final(g).children_of(p as int) == old(
                                    g,
                                ).children_of(p as int).remove(j))
                            &&& final(g).is_live(p as int)
                            &&& final(g).parent_of(p as int) == old(g).parent_of(p as int)
                            &&& final(g).tag_of(p as int) == old(g).tag_of(p as int)
                            &&& final(g).attrs_of(p as int) == old(g).attrs_of(p as int)
                        },
                    }
                    &&& forall|el: usize| #[trigger] final(self).ids().contains_key(el) <==> (old(
                        self,
                    ).ids().contains_key(el) && !in_subtree(
                        *old(g),
                        entity as int,
                        old(self).ids()[el] as int,
                    ))
                    &&& forall|el: usize| final(self).ids().contains_key(el) ==> final(self).ids()[el] == old(self).ids()[el]
                    &&& forall|h: usize| #[trigger] final(self).handles().contains_key(h) <==> (old(
                        self,
                    ).handles().contains_key(h) && !in_subtree(
                        *old(g),
                        entity as int,
                        old(self).handles()[h] as int,
                    ))
                    &&& forall|h: usize| final(self).handles().contains_key(h) ==> final(self).handles()[h] == old(self).handles()[h]
                    &&& forall|n: usize| #[trigger] final(self).node_ids().contains_key(n) <==> (
                    old(self).node_ids().contains_key(n) && !in_subtree(
                        *old(g),
                        entity as int,
                        n as int,
                    ))
                    &&& forall|n: usize| final(self).node_ids().contains_key(n) ==> final(self).node_ids()[n] == old(self).node_ids()[n]
                    &&& forall|n: usize| #[trigger] final(self).handle_of().contains_key(n) <==> (
                    old(self).handle_of().contains_key(n) && !in_subtree(
                        *old(g),
                        entity as int,
                        n as int,
                    ))
                    &&& forall|n: usize| final(self).handle_of().contains_key(n) ==> final(self).handle_of()[n] == old(self).handle_of()[n]
                },
                Err(e) => {
                    &&& *final(g) == *old(g)
                    &&& final(self).same_tables(*old(self))
                    &&& match e {
                        EngineError::MissingMapping => !old(g).is_live(entity as int),
                        EngineError::ContractViolation => old(g).is_live(entity as int)
                            && exists|i: int|
                            0 <= i < old(self).stack_view().len() && in_subtree(
                                *old(g),
                                entity as int,
                                #[trigger] old(self).stack_view()[i] as int,
                            ),
                    }
                },
            },
    {
        if !g.live(entity) {
            return Err(EngineError::MissingMapping);
        }
        let victims = g.collect_subtree(entity);
        // the script must not keep removed nodes on its working stack
        let slen = self.stack.len();
        let mut si: usize = 0;
        while si < slen
            invariant
                si <= slen,
                slen == self.stack_view().len(),
                *self == *old(self),
                *g == *old(g),
                self.wf_for(*g),
                g.wf(),
                g.is_live(entity as int),
                forall|n: usize| #[trigger] victims@.contains(n) <==> in_subtree(
                    *g,
                    entity as int,
                    n as int,
                ),
                forall|i: int|
                    0 <= i < si ==> !in_subtree(
                        *g,
                        entity as int,
                        #[trigger] self.stack_view()[i] as int,
                    ),
            decreases slen - si,
        {
            let se = self.stack[si];
            let mut vi: usize = 0;
            let vlen = victims.len();
            let mut found = false;
            while vi < vlen
                invariant
                    vi <= vlen,
                    vlen == victims@.len(),
                    found == exists|j: int| 0 <= j < vi && victims@[j] == se,
                decreases vlen - vi,
            {
                if victims[vi] == se {
                    found = true;
                }
                vi += 1;
            }
            if found {
                proof {
                    let j = choose|j: int| 0 <= j < vlen && victims@[j] == se;
                    assert(victims@.contains(se));
                }
                return Err(EngineError::ContractViolation);
            }
            proof {
                assert(!victims@.contains(se)) by {
                    if victims@.contains(se) {
                        let j = choose|j: int| 0 <= j < victims@.len() && victims@[j] == se;
                    }
                }
            }
            si += 1;
        }
        // clear handles and id mappings before the nodes become invalid
        let vlen = victims.len();
        let mut k: usize = 0;
        while k < vlen
            invariant
                k <= vlen,
                vlen == victims@.len(),
                *g == *old(g),
                self.el_to_node.wf(),
                self.entity_refs.wf(),
                self.templates_of() == old(self).templates_of(),
                self.stack_view() == old(self).stack_view(),
                forall|el: usize| #[trigger] self.ids().contains_key(el) <==> (old(
                    self,
                ).ids().contains_key(el) && !victims@.take(k as int).contains(
                    old(self).ids()[el],
                )),
                forall|el: usize| self.ids().contains_key(el) ==> self.ids()[el] == old(
                    self,
                ).ids()[el],
                forall|n: usize| #[trigger] self.node_ids().contains_key(n) <==> (old(
                    self,
                ).node_ids().contains_key(n) && !victims@.take(k as int).contains(n)),
                forall|n: usize| self.node_ids().contains_key(n) ==> self.node_ids()[n] == old(
                    self,
                ).node_ids()[n],
                forall|h: usize| #[trigger] self.handles().contains_key(h) <==> (old(
                    self,
                ).handles().contains_key(h) && !victims@.take(k as int).contains(
                    old(self).handles()[h],
                )),
                forall|h: usize| self.handles().contains_key(h) ==> self.handles()[h] == old(
                    self,
                ).handles()[h],
                forall|n: usize| #[trigger] self.handle_of().contains_key(n) <==> (old(
                    self,
                ).handle_of().contains_key(n) && !victims@.take(k as int).contains(n)),
                forall|n: usize| self.handle_of().contains_key(n) ==> self.handle_of()[n] == old(
                    self,
                ).handle_of()[n],
            decreases vlen - k,
        {
            let v = victims[k];
            let ghost apre = *self;
            self.entity_refs.remove_by_value(v);
            self.el_to_node.remove_by_value(v);
            proof {
                assert(victims@.take(k + 1) =~= victims@.take(k as int).push(v));
                self.lemma_clear_step(apre, *old(self), victims@, k as int, v);
            }
            k += 1;
        }
        g.remove_subtree(entity, &victims);
        proof {
            assert(victims@.take(vlen as int) =~= victims@);
            assert forall|el: usize| #[trigger] self.ids().contains_key(el) implies g.is_live(self.ids()[el] as int) by {
                assert(old(self).ids().contains_key(el));
                assert(old(g).is_live(old(self).ids()[el] as int));
                assert(!victims@.contains(old(self).ids()[el]));
                assert(!in_subtree(*old(g), entity as int, old(self).ids()[el] as int));
            }
            assert forall|h: usize| #[trigger] self.handles().contains_key(h) implies g.is_live(self.handles()[h] as int) by {
                assert(old(self).handles().contains_key(h));
                assert(old(g).is_live(old(self).handles()[h] as int));
                assert(!victims@.contains(old(self).handles()[h]));
                assert(!in_subtree(*old(g), entity as int, old(self).handles()[h] as int));
            }
            assert forall|i: int| 0 <= i < self.stack_view().len() implies g.is_live(
                #[trigger] self.stack_view()[i] as int,
            ) by {
                assert(old(g).is_live(old(self).stack_view()[i] as int));
                assert(!in_subtree(*old(g), entity as int, old(self).stack_view()[i] as int));
            }
            assert forall|el: usize| #[trigger] self.ids().contains_key(el) <==> (old(
                self,
            ).ids().contains_key(el) && !in_subtree(
                *old(g),
                entity as int,
                old(self).ids()[el] as int,
            )) by {
                if old(self).ids().contains_key(el) {
                    assert(victims@.contains(old(self).ids()[el]) <==> in_subtree(
                        *old(g),
                        entity as int,
                        old(self).ids()[el] as int,
                    ));
                }
            }
            assert forall|h: usize| #[trigger] self.handles().contains_key(h) <==> (old(
                self,
            ).handles().contains_key(h) && !in_subtree(
                *old(g),
                entity as int,
                old(self).handles()[h] as int,
            )) by {
                if old(self).handles().contains_key(h) {
                    assert(victims@.contains(old(self).handles()[h]) <==> in_subtree(
                        *old(g),
                        entity as int,
                        old(self).handles()[h] as int,
                    ));
                }
            }
            assert forall|n: usize| #[trigger] self.node_ids().contains_key(n) <==> (old(
                self,
            ).node_ids().contains_key(n) && !in_subtree(*old(g), entity as int, n as int)) by {
                assert(victims@.contains(n) <==> in_subtree(*old(g), entity as int, n as int));
            }
            assert forall|n: usize| #[trigger] self.handle_of().contains_key(n) <==> (old(
                self,
            ).handle_of().contains_key(n) && !in_subtree(*old(g), entity as int, n as int)) by {
                assert(victims@.contains(n) <==> in_subtree(*old(g), entity as int, n as int));
            }
        }
        Ok(())
    }

    /// One step of clearing: removing victim `v`'s entries keeps the
    /// characterization of both tables.
    proof fn lemma_clear_step(
        self,
        apre: MutationApplier,
        a0: MutationApplier,
        victims: Seq<usize>,
        k: int,
        v: usize,
    )
        requires
            0 <= k < victims.len(),
            victims[k] == v,
            apre.el_to_node.wf(),
            apre.entity_refs.wf(),
            self.el_to_node.wf(),
            self.entity_refs.wf(),
            forall|el: usize| #[trigger] apre.ids().contains_key(el) <==> (a0.ids().contains_key(
                el,
            ) && !victims.take(k).contains(a0.ids()[el])),
            forall|el: usize| apre.ids().contains_key(el) ==> apre.ids()[el] == a0.ids()[el],
            forall|n: usize| #[trigger] apre.node_ids().contains_key(n) <==> (
            a0.node_ids().contains_key(n) && !victims.take(k).contains(n)),
            forall|n: usize| apre.node_ids().contains_key(n) ==> apre.node_ids()[n]
                == a0.node_ids()[n],
            forall|h: usize| #[trigger] apre.handles().contains_key(h) <==> (
            a0.handles().contains_key(h) && !victims.take(k).contains(a0.handles()[h])),
            forall|h: usize| apre.handles().contains_key(h) ==> apre.handles()[h]
                == a0.handles()[h],
            forall|n: usize| #[trigger] apre.handle_of().contains_key(n) <==> (
            a0.handle_of().contains_key(n) && !victims.take(k).contains(n)),
            forall|n: usize| apre.handle_of().contains_key(n) ==> apre.handle_of()[n]
                == a0.handle_of()[n],
            victims.take(k + 1) == victims.take(k).push(v),
            self.handles() == (match apre.handle_of().contains_key(v) {
                true => apre.handles().remove(apre.handle_of()[v]),
                false => apre.handles(),
            }),
            self.handle_of() == apre.handle_of().remove(v),
            self.ids() == (match apre.node_ids().contains_key(v) {
                true => apre.ids().remove(apre.node_ids()[v]),
                false => apre.ids(),
            }),
            self.node_ids() == apre.node_ids().remove(v),
        ensures
            forall|el: usize| #[trigger] self.ids().contains_key(el) <==> (a0.ids().contains_key(
                el,
            ) && !victims.take(k + 1).contains(a0.ids()[el])),
            forall|el: usize| self.ids().contains_key(el) ==> self.ids()[el] == a0.ids()[el],
            forall|n: usize| #[trigger] self.node_ids().contains_key(n) <==> (
            a0.node_ids().contains_key(n) && !victims.take(k + 1).contains(n)),
            forall|n: usize| self.node_ids().contains_key(n) ==> self.node_ids()[n]
                == a0.node_ids()[n],
            forall|h: usize| #[trigger] self.handles().contains_key(h) <==> (
            a0.handles().contains_key(h) && !victims.take(k + 1).contains(a0.handles()[h])),
            forall|h: usize| self.handles().contains_key(h) ==> self.handles()[h]
                == a0.handles()[h],
            forall|n: usize| #[trigger] self.handle_of().contains_key(n) <==> (
            a0.handle_of().contains_key(n) && !victims.take(k + 1).contains(n)),
            forall|n: usize| self.handle_of().contains_key(n) ==> self.handle_of()[n]
                == a0.handle_of()[n],
    {
        let tk1 = victims.take(k + 1);
        assert forall|e: usize| #[trigger] tk1.contains(e) <==> (victims.take(k).contains(e) || e
            == v) by {
            if tk1.contains(e) {
                let ix = choose|ix: int| 0 <= ix < tk1.len() && tk1[ix] == e;
                if ix < k {
                    assert(victims.take(k)[ix] == e);
                }
            } else {
                if victims.take(k).contains(e) {
                    let ix = choose|ix: int| 0 <= ix < k && victims.take(k)[ix] == e;
                    assert(tk1[ix] == e);
                }
                assert(tk1[k] == v);
            }
        }
        assert forall|el: usize| #[trigger] self.ids().contains_key(el) <==> (
        a0.ids().contains_key(el) && !tk1.contains(a0.ids()[el])) by {
            if self.ids().contains_key(el) {
                assert(apre.ids().contains_key(el));
                assert(apre.ids()[el] != v) by {
                    if apre.ids()[el] == v {
                        assert(apre.node_ids().contains_key(v) && apre.node_ids()[v] == el);
                    }
                }
            } else {
                if a0.ids().contains_key(el) && !tk1.contains(a0.ids()[el]) {
                    assert(apre.ids().contains_key(el));
                    assert(apre.ids()[el] == a0.ids()[el]);
                    assert(apre.ids()[el] != v);
                    if apre.node_ids().contains_key(v) {
                        assert(apre.ids()[apre.node_ids()[v]] == v);
                        assert(apre.node_ids()[v] != el);
                    }
                }
            }
        }
        assert forall|h: usize| #[trigger] self.handles().contains_key(h) <==> (
        a0.handles().contains_key(h) && !tk1.contains(a0.handles()[h])) by {
            if self.handles().contains_key(h) {
                assert(apre.handles().contains_key(h));
                assert(apre.handles()[h] != v) by {
                    if apre.handles()[h] == v {
                        assert(apre.handle_of().contains_key(v) && apre.handle_of()[v] == h);
                    }
                }
            } else {
                if a0.handles().contains_key(h) && !tk1.contains(a0.handles()[h]) {
                    assert(apre.handles().contains_key(h));
                    assert(apre.handles()[h] == a0.handles()[h]);
                    assert(apre.handles()[h] != v);
                    if apre.handle_of().contains_key(v) {
                        assert(apre.handles()[apre.handle_of()[v]] == v);
                        assert(apre.handle_of()[v] != h);
                    }
                }
            }
        }
    }

    /// Whether the top `m` stack entries are pairwise distinct and avoid
    /// both `a` and `b`.
    fn tail_clean(&self, m: usize, a: usize, b: usize) -> (r: bool)
        requires
            m <= self.stack_view().len(),
        ensures
            r == {
                let cs = self.stack_view().skip(self.stack_view().len() - m as int);
                &&& (forall|i1: int, i2: int|
                    0 <= i1 < cs.len() && 0 <= i2 < cs.len() && i1 != i2 ==> cs[i1] != cs[i2])
                &&& !cs.contains(a)
                &&& !cs.contains(b)
            },
    {
        let len = self.stack.len();
        let base = len - m;
        let ghost cs = self.stack_view().skip(base as int);
        let mut i: usize = 0;
        while i < m
            invariant
                i <= m,
                base + m == len,
                len == self.stack_view().len(),
                cs == self.stack_view().skip(base as int),
                cs.len() == m,
                forall|i1: int, i2: int| 0 <= i1 < i && 0 <= i2 < cs.len() && i1 != i2 ==> cs[i1]
                    != cs[i2],
                forall|i1: int| 0 <= i1 < i ==> cs[i1] != a && cs[i1] != b,
            decreases m - i,
        {
            let x = self.stack[base + i];
            proof {
                assert(cs[i as int] == x);
            }
            if x == a || x == b {
                proof {
                    assert(cs.contains(cs[i as int]));
                }
                return false;
            }
            let mut i2: usize = i + 1;
            while i2 < m
                invariant
                    i < i2 <= m,
                    base + m == len,
                    len == self.stack_view().len(),
                    cs == self.stack_view().skip(base as int),
                    cs.len() == m,
                    x == cs[i as int],
                    forall|j2: int| i < j2 < i2 ==> cs[j2] != x,
                decreases m - i2,
            {
                if self.stack[base + i2] == x {
                    proof {
                        assert(cs[i2 as int] == x);
                    }
                    return false;
                }
                i2 += 1;
            }
            i += 1;
        }
        proof {
            if cs.contains(a) {
                let ix = choose|ix: int| 0 <= ix < cs.len() && cs[ix] == a;
                assert(false);
            }
            if cs.contains(b) {
                let ix = choose|ix: int| 0 <= ix < cs.len() && cs[ix] == b;
                assert(false);
            }
            assert forall|i1: int, i2: int|
                0 <= i1 < cs.len() && 0 <= i2 < cs.len() && i1 != i2 implies cs[i1] != cs[
                i2
            ] by {
                if i1 > i2 {
                }
            }
        }
        true
    }

    /// Detaches the popped nodes and splices them into `p`'s child list at
    /// `at_from_target(j)`, where `j` is the current position of `target`.
    /// Used by every splice-family operation once its own checks passed.
    #[verifier::rlimit(60)]
    fn splice_popped(
        &mut self,
        g: &mut Graph,
        p: usize,
        target: usize,
        m: usize,
        after: bool,
    ) -> (jj: usize)
        requires
            old(self).wf_for(*old(g)),
            old(g).wf(),
            m <= old(self).stack_view().len(),
            old(g).is_live(p as int),
            old(g).is_live(target as int),
            old(g).parent_of(target as int) == Some(p),
            ({
                let cs = old(self).stack_view().skip(old(self).stack_view().len() - m as int);
                &&& (forall|i1: int, i2: int|
                    0 <= i1 < cs.len() && 0 <= i2 < cs.len() && i1 != i2 ==> cs[i1] != cs[i2])
                &&& !cs.contains(p)
                &&& !cs.contains(target)
            }),
        ensures
            final(self).wf_for(*final(g)),
            final(g).wf(),
            final(self).same_tables(*old(self)),
            ({
                let cs = old(self).stack_view().skip(old(self).stack_view().len() - m as int);
                let w = seq_without(old(g).children_of(p as int), cs);
                let at = (if after {
                    w.index_of_first(target).unwrap() + 1
                } else {
                    w.index_of_first(target).unwrap()
                });
                &&& w.index_of_first(target) is Some
                &&& jj == w.index_of_first(target).unwrap()
                &&& final(self).stack_view() == old(self).stack_view().take(
                    old(self).stack_view().len() - m as int,
                )
                &&& final(g).node_count() == old(g).node_count()
                &&& forall|x: int|
                    0 <= x < old(g).node_count() ==> #[trigger] final(g).is_live(x) == old(
                        g,
                    ).is_live(x)
                &&& forall|x: int|
                    0 <= x < old(g).node_count() ==> #[trigger] final(g).tag_of(x) == old(
                        g,
                    ).tag_of(x)
                &&& forall|x: int|
                    0 <= x < old(g).node_count() ==> #[trigger] final(g).attrs_of(x) == old(
                        g,
                    ).attrs_of(x)
                &&& forall|x: int|
                    0 <= x < old(g).node_count() && x != p as int ==> #[trigger] final(g).children_of(x) == seq_without(old(g).children_of(x), cs)
                &&& final(g).children_of(p as int) == w.take(at) + cs + w.skip(at)
                &&& forall|i: int| 0 <= i < cs.len() ==> final(g).parent_of(
                    #[trigger] cs[i] as int,
                ) == Some(p)
                &&& forall|x: int|
                    0 <= x < old(g).node_count() && !cs.contains(x as usize)
                        ==> #[trigger] final(g).parent_of(x) == old(g).parent_of(x)
            }),
    {
        let len = self.stack.len();
        let cs_vec = self.stack.split_off(len - m);
        let ghost cs = cs_vec@;
        proof {
            assert(cs == old(self).stack_view().skip(len - m as int));
            assert forall|i: int| 0 <= i < cs.len() implies old(g).is_live(
                #[trigger] cs[i] as int,
            ) by {
                assert(old(self).stack_view()[len - m + i] == cs[i]);
            }
        }
        g.detach_each(&cs_vec);
        let ghost w = seq_without(old(g).children_of(p as int), cs);
        proof {
            assert(g.children_of(p as int) == w);
            assert(g.is_live(p as int));
            assert(g.is_live(target as int));
            // `target` kept its place in `p`'s list: it is not among `cs`
            assert(old(g).children_of(p as int).contains(target));
            let i0 = choose|i0: int|
                0 <= i0 < old(g).children_of(p as int).len() && old(g).children_of(p as int)[i0]
                    == target;
            let pred = |e: usize| !cs.contains(e);
            assert(pred(target));
            old(g).children_of(p as int).lemma_filter_contains(pred, i0);
            assert(w.contains(target));
        }
        let jj = g.find_child_index(p, target);
        proof {
            w.index_of_first_ensures(target);
            assert(w.index_of_first(target) is Some);
            let i0 = w.index_of_first(target).unwrap();
            assert(w[i0] == target);
            assert(i0 == jj) by {
                if i0 != jj {
                    assert(w[jj as int] == target);
                }
            }
        }
        let cl = g.children_len(p);
        proof {
            assert(jj < cl);
            assert forall|i: int| 0 <= i < cs.len() implies {
                &&& g.is_live(#[trigger] cs[i] as int)
                &&& g.parent_of(cs[i] as int) is None
            } by {
                assert(old(g).is_live(cs[i] as int));
            }
        }
        let at = if after {
            jj + 1
        } else {
            jj
        };
        let ghost gmid = *g;
        g.splice(p, at, &cs_vec);
        proof {
            assert(self.ids() == old(self).ids());
            assert(self.handles() == old(self).handles());
            assert forall|el: usize| #[trigger] self.ids().contains_key(el) implies g.is_live(self.ids()[el] as int) by {
                assert(old(self).ids().contains_key(el));
                assert(old(g).is_live(old(self).ids()[el] as int));
            }
            assert forall|h: usize| #[trigger] self.handles().contains_key(h) implies g.is_live(self.handles()[h] as int) by {
                assert(old(self).handles().contains_key(h));
                assert(old(g).is_live(old(self).handles()[h] as int));
            }
            assert forall|i: int| 0 <= i < self.stack_view().len() implies g.is_live(
                #[trigger] self.stack_view()[i] as int,
            ) by {
                assert(self.stack_view()[i] == old(self).stack_view()[i]);
                assert(old(g).is_live(old(self).stack_view()[i] as int));
            }
        }
        jj
    }

    /// Pops `m` nodes and attaches them, in stack order, as the last
    /// children of the node registered under `id`.
    #[verifier::rlimit(60)]
    pub fn append_children(&mut self, g: &mut Graph, id: ElementId, m: usize) -> (r: Result<
        (),
        EngineError,
    >)
        requires
            old(self).wf_for(*old(g)),
            old(g).wf(),
        ensures
            final(self).wf_for(*final(g)),
            final(g).wf(),
            final(self).same_tables(*old(self)),
            match r {
                Ok(_) => {
                    &&& old(self).ids().contains_key(id.0)
                    &&& m <= old(self).stack_view().len()
                    &&& {
                        let p = old(self).ids()[id.0];
                        let cs = old(self).stack_view().skip(
                            old(self).stack_view().len() - m as int,
                        );
                        let w = seq_without(old(g).children_of(p as int), cs);
                        &&& (forall|i1: int, i2: int|
                            0 <= i1 < cs.len() && 0 <= i2 < cs.len() && i1 != i2 ==> cs[i1]
                                != cs[i2])
                        &&& !cs.contains(p)
                        &&& final(self).stack_view() == old(self).stack_view().take(
                            old(self).stack_view().len() - m as int,
                        )
                        &&& final(g).node_count() == old(g).node_count()
                        &&& forall|x: int|
                            0 <= x < old(g).node_count() ==> #[trigger] final(g).is_live(x)
                                == old(g).is_live(x)
                        &&& forall|x: int|
                            0 <= x < old(g).node_count() ==> #[trigger] final(g).tag_of(x) == old(
                                g,
                            ).tag_of(x)
                        &&& forall|x: int|
                            0 <= x < old(g).node_count() ==> #[trigger] final(g).attrs_of(x)
                                == old(g).attrs_of(x)
                        &&& forall|x: int|
                            0 <= x < old(g).node_count() && x != p as int ==> #[trigger] final(g).children_of(x) == seq_without(old(g).children_of(x), cs)
                        &&& final(g).children_of(p as int) == w + cs
                        &&& forall|i: int| 0 <= i < cs.len() ==> final(g).parent_of(
                            #[trigger] cs[i] as int,
                        ) == Some(p)
                        &&& forall|x: int|
                            0 <= x < old(g).node_count() && !cs.contains(x as usize) ==> #[trigger] final(g).parent_of(x) == old(g).parent_of(x)
                    }
                },
                Err(e) => {
                    &&& *final(g) == *old(g)
                    &&& final(self).stack_view() == old(self).stack_view()
                    &&& match e {
                        EngineError::MissingMapping => !old(self).ids().contains_key(id.0),
                        EngineError::ContractViolation => old(self).ids().contains_key(id.0) && {
                            let p = old(self).ids()[id.0];
                            let cs = old(self).stack_view().skip(
                                old(self).stack_view().len() - m as int,
                            );
                            m > old(self).stack_view().len() || !((forall|i1: int, i2: int|
                                0 <= i1 < cs.len() && 0 <= i2 < cs.len() && i1 != i2 ==> cs[i1]
                                    != cs[i2]) && !cs.contains(p))
                        },
                    }
                },
            },
    {
        let p = match self.el_to_node.get(id.0) {
            Some(p) => p,
            None => {
                return Err(EngineError::MissingMapping);
            },
        };
        if m > self.stack.len() {
            return Err(EngineError::ContractViolation);
        }
        if !self.tail_clean(m, p, p) {
            return Err(EngineError::ContractViolation);
        }
        let len = self.stack.len();
        let cs_vec = self.stack.split_off(len - m);
        let ghost cs = cs_vec@;
        proof {
            assert(cs == old(self).stack_view().skip(len - m as int));
            assert forall|i: int| 0 <= i < cs.len() implies old(g).is_live(
                #[trigger] cs[i] as int,
            ) by {
                assert(old(self).stack_view()[len - m + i] == cs[i]);
            }
        }
        g.detach_each(&cs_vec);
        let ghost w = seq_without(old(g).children_of(p as int), cs);
        proof {
            assert(g.node_count() == old(g).node_count());
            assert(old(self).ids().contains_key(id.0));
            assert(old(self).ids()[id.0] == p);
            assert(old(g).is_live(p as int));
            assert(g.is_live(p as int));
            assert(g.children_of(p as int) == w);
            assert forall|i: int| 0 <= i < cs.len() implies {
                &&& g.is_live(#[trigger] cs[i] as int)
                &&& g.parent_of(cs[i] as int) is None
            } by {
                assert(old(g).is_live(cs[i] as int));
            }
        }
        let at = g.children_len(p);
        let ghost gmid = *g;
        g.splice(p, at, &cs_vec);
        proof {
            assert(g.children_of(p as int) =~= w + cs) by {
                assert(gmid.children_of(p as int) == w);
                assert(w.take(at as int) =~= w);
                assert(w.skip(at as int) =~= Seq::<usize>::empty());
            }
            assert(self.ids() == old(self).ids());
            assert(self.handles() == old(self).handles());
            assert forall|el: usize| #[trigger] self.ids().contains_key(el) implies g.is_live(self.ids()[el] as int) by {
                assert(old(self).ids().contains_key(el));
                assert(old(g).is_live(old(self).ids()[el] as int));
            }
            assert forall|h: usize| #[trigger] self.handles().contains_key(h) implies g.is_live(self.handles()[h] as int) by {
                assert(old(self).handles().contains_key(h));
                assert(old(g).is_live(old(self).handles()[h] as int));
            }
            assert forall|i: int| 0 <= i < self.stack_view().len() implies g.is_live(
                #[trigger] self.stack_view()[i] as int,
            ) by {
                assert(self.stack_view()[i] == old(self).stack_view()[i]);
                assert(old(g).is_live(old(self).stack_view()[i] as int));
            }
        }
        Ok(())
    }

    /// Pops `m` nodes and splices them as siblings immediately before the
    /// node registered under `id`.
    pub fn insert_nodes_before(&mut self, g: &mut Graph, id: ElementId, m: usize) -> (r: Result<
        (),
        EngineError,
    >)
        requires
            old(self).wf_for(*old(g)),
            old(g).wf(),
        ensures
            final(self).wf_for(*final(g)),
            final(g).wf(),
            final(self).same_tables(*old(self)),
            insert_adjacent_post(*old(self), *old(g), *final(self), *final(g), id, m, false, r),
    {
        self.insert_adjacent(g, id, m, false)
    }

    /// Pops `m` nodes and splices them as siblings immediately after the
    /// node registered under `id`.
    pub fn insert_nodes_after(&mut self, g: &mut Graph, id: ElementId, m: usize) -> (r: Result<
        (),
        EngineError,
    >)
        requires
            old(self).wf_for(*old(g)),
            old(g).wf(),
        ensures
            final(self).wf_for(*final(g)),
            final(g).wf(),
            final(self).same_tables(*old(self)),
            insert_adjacent_post(*old(self), *old(g), *final(self), *final(g), id, m, true, r),
    {
        self.insert_adjacent(g, id, m, true)
    }

    /// Shared body of the two sibling-insertion operations.
    fn insert_adjacent(&mut self, g: &mut Graph, id: ElementId, m: usize, after: bool) -> (r:
        Result<(), EngineError>)
        requires
            old(self).wf_for(*old(g)),
            old(g).wf(),
        ensures
            final(self).wf_for(*final(g)),
            final(g).wf(),
            final(self).same_tables(*old(self)),
            insert_adjacent_post(*old(self), *old(g), *final(self), *final(g), id, m, after, r),
    {
        let t = match self.el_to_node.get(id.0) {
            Some(t) => t,
            None => {
                return Err(EngineError::MissingMapping);
            },
        };
        if m > self.stack.len() {
            return Err(EngineError::ContractViolation);
        }
        let p = match g.parent(t) {
            Some(p) => p,
            None => {
                return Err(EngineError::ContractViolation);
            },
        };
        if !self.tail_clean(m, p, t) {
            return Err(EngineError::ContractViolation);
        }
        proof {
            assert(old(g).is_live(p as int));
        }
        self.splice_popped(g, p, t, m, after);
        Ok(())
    }
}

/// What the sibling-insertion operations guarantee: on success the popped
/// nodes sit immediately before (or after) the target in its parent's child
/// list; each failure case is exact and changes nothing.
pub open spec fn insert_adjacent_post(
    a0: MutationApplier,
    g0: Graph,
    a1: MutationApplier,
    g1: Graph,
    id: ElementId,
    m: usize,
    after: bool,
    r: Result<(), EngineError>,
) -> bool {
    match r {
        Ok(_) => {
            &&& a0.ids().contains_key(id.0)
            &&& m <= a0.stack_view().len()
            &&& {
                let t = a0.ids()[id.0];
                let p = g0.parent_of(t as int).unwrap();
                let cs = a0.stack_view().skip(a0.stack_view().len() - m as int);
                let w = seq_without(g0.children_of(p as int), cs);
                let at = (if after {
                    w.index_of_first(t).unwrap() + 1
                } else {
                    w.index_of_first(t).unwrap()
                });
                &&& g0.parent_of(t as int) is Some
                &&& (forall|i1: int, i2: int|
                    0 <= i1 < cs.len() && 0 <= i2 < cs.len() && i1 != i2 ==> cs[i1] != cs[i2])
                &&& !cs.contains(p)
                &&& !cs.contains(t)
                &&& a1.stack_view() == a0.stack_view().take(a0.stack_view().len() - m as int)
                &&& g1.node_count() == g0.node_count()
                &&& forall|x: int|
                    0 <= x < g0.node_count() ==> #[trigger] g1.is_live(x) == g0.is_live(x)
                &&& forall|x: int|
                    0 <= x < g0.node_count() ==> #[trigger] g1.tag_of(x) == g0.tag_of(x)
                &&& forall|x: int|
                    0 <= x < g0.node_count() ==> #[trigger] g1.attrs_of(x) == g0.attrs_of(x)
                &&& forall|x: int|
                    0 <= x < g0.node_count() && x != p as int ==> #[trigger] g1.children_of(x)
                        == seq_without(g0.children_of(x), cs)
                &&& g1.children_of(p as int) == w.take(at) + cs + w.skip(at)
                &&& forall|i: int| 0 <= i < cs.len() ==> g1.parent_of(#[trigger] cs[i] as int)
                    == Some(p)
                &&& forall|x: int|
                    0 <= x < g0.node_count() && !cs.contains(x as usize) ==> #[trigger] g1.parent_of(
                        x,
                    ) == g0.parent_of(x)
            }
        },
        Err(e) => {
            &&& g1 == g0
            &&& a1.stack_view() == a0.stack_view()
            &&& match e {
                EngineError::MissingMapping => !a0.ids().contains_key(id.0),
                EngineError::ContractViolation => a0.ids().contains_key(id.0) && {
                    let t = a0.ids()[id.0];
                    let cs = a0.stack_view().skip(a0.stack_view().len() - m as int);
                    ||| m > a0.stack_view().len()
                    ||| g0.parent_of(t as int) is None
                    ||| !((forall|i1: int, i2: int|
                        0 <= i1 < cs.len() && 0 <= i2 < cs.len() && i1 != i2 ==> cs[i1] != cs[i2])
                        && !cs.contains(g0.parent_of(t as int).unwrap()) && !cs.contains(t))
                },
            }
        },
    }
}

/// What cascade removal guarantees: on success exactly the subtree of the
/// node registered under `id` is gone from the graph, the identifier
/// registry and the back-reference table; each failure case is exact and
/// changes nothing.
pub open spec fn remove_node_post(
    a0: MutationApplier,
    g0: Graph,
    a1: MutationApplier,
    g1: Graph,
    id: ElementId,
    r: Result<(), EngineError>,
) -> bool {
    match r {
        Ok(_) => {
            &&& a0.ids().contains_key(id.0)
            &&& {
                let t = a0.ids()[id.0] as int;
                &&& forall|i: int|
                    0 <= i < a0.stack_view().len() ==> !in_subtree(
                        g0,
                        t,
                        #[trigger] a0.stack_view()[i] as int,
                    )
                &&& g1.node_count() == g0.node_count()
                &&& forall|n: int| #[trigger] g1.is_live(n) <==> (g0.is_live(n) && !in_subtree(
                    g0,
                    t,
                    n,
                ))
                &&& forall|m: int|
                    0 <= m < g0.node_count() && !in_subtree(g0, t, m) && g0.parent_of(t) != Some(
                        m as usize,
                    ) ==> g0.node_same(g1, m)
                &&& match g0.parent_of(t) {
                    None => true,
                    Some(p) => !in_subtree(g0, t, p as int) ==> {
                        &&& (exists|j: int|
                            0 <= j < g0.children_of(p as int).len() && g0.children_of(p as int)[j]
                                == a0.ids()[id.0] && g1.children_of(p as int) == g0.children_of(
                                p as int,
                            ).remove(j))
                        &&& g1.is_live(p as int)
                        &&& g1.parent_of(p as int) == g0.parent_of(p as int)
                        &&& g1.tag_of(p as int) == g0.tag_of(p as int)
                        &&& g1.attrs_of(p as int) == g0.attrs_of(p as int)
                    },
                }
                &&& forall|el: usize| #[trigger] a1.ids().contains_key(el) <==> (
                a0.ids().contains_key(el) && !in_subtree(g0, t, a0.ids()[el] as int))
                &&& forall|el: usize| a1.ids().contains_key(el) ==> a1.ids()[el] == a0.ids()[el]
                &&& forall|h: usize| #[trigger] a1.handles().contains_key(h) <==> (
                a0.handles().contains_key(h) && !in_subtree(g0, t, a0.handles()[h] as int))
                &&& forall|h: usize| a1.handles().contains_key(h) ==> a1.handles()[h]
                    == a0.handles()[h]
                &&& forall|n: usize| #[trigger] a1.node_ids().contains_key(n) <==> (
                a0.node_ids().contains_key(n) && !in_subtree(g0, t, n as int))
                &&& forall|n: usize| a1.node_ids().contains_key(n) ==> a1.node_ids()[n]
                    == a0.node_ids()[n]
                &&& forall|n: usize| #[trigger] a1.handle_of().contains_key(n) <==> (
                a0.handle_of().contains_key(n) && !in_subtree(g0, t, n as int))
                &&& forall|n: usize| a1.handle_of().contains_key(n) ==> a1.handle_of()[n]
                    == a0.handle_of()[n]
            }
        },
        Err(e) => {
            &&& g1 == g0
            &&& a1.same_tables(a0)
            &&& match e {
                EngineError::MissingMapping => !a0.ids().contains_key(id.0),
                EngineError::ContractViolation => a0.ids().contains_key(id.0) && exists|i: int|
                    0 <= i < a0.stack_view().len() && in_subtree(
                        g0,
                        a0.ids()[id.0] as int,
                        #[trigger] a0.stack_view()[i] as int,
                    ),
            }
        },
    }
}

impl MutationApplier {
    /// Cascade-removes the subtree of the node registered under `id`; see
    /// [`MutationApplier::despawn_recursive`].
    pub fn remove_node(&mut self, g: &mut Graph, id: ElementId) -> (r: Result<(), EngineError>)
        requires
            old(self).wf_for(*old(g)),
            old(g).wf(),
        ensures
            final(self).wf_for(*final(g)),
            final(g).wf(),
            final(self).templates_of() == old(self).templates_of(),
            final(self).stack_view() == old(self).stack_view(),
            remove_node_post(*old(self), *old(g), *final(self), *final(g), id, r),
    {
        let t = match self.el_to_node.get(id.0) {
            Some(t) => t,
            None => {
                return Err(EngineError::MissingMapping);
            },
        };
        match self.despawn_recursive(g, t) {
            Ok(_) => Ok(()),
            Err(e) => {
                proof {
                    assert(old(g).is_live(t as int));
                }
                Err(e)
            },
        }
    }

    /// Walks the child-index `path` from the node on top of the stack and
    /// registers the node it reaches under `id`. The stack is not changed.
    pub fn assign_node_id(&mut self, g: &Graph, path: &Vec<u8>, id: ElementId) -> (r: Result<
        (),
        EngineError,
    >)
        requires
            old(self).wf_for(*g),
            g.wf(),
        ensures
            final(self).wf_for(*g),
            final(self).handles() == old(self).handles(),
            final(self).handle_of() == old(self).handle_of(),
            final(self).templates_of() == old(self).templates_of(),
            final(self).stack_view() == old(self).stack_view(),
            match r {
                Ok(_) => {
                    &&& old(self).stack_view().len() > 0
                    &&& {
                        let top = old(self).stack_view().last() as int;
                        &&& resolve_path(*g, top, path@) is Some
                        &&& {
                            let n = resolve_path(*g, top, path@).unwrap() as usize;
                            &&& final(self).ids() == (match old(self).node_ids().contains_key(n) {
                                true => old(self).ids().remove(old(self).node_ids()[n]),
                                false => old(self).ids(),
                            }).insert(id.0, n)
                            &&& final(self).node_ids() == (match old(self).ids().contains_key(
                                id.0,
                            ) {
                                true => old(self).node_ids().remove(old(self).ids()[id.0]),
                                false => old(self).node_ids(),
                            }).insert(n, id.0)
                        }
                    }
                },
                Err(e) => {
                    &&& e == EngineError::ContractViolation
                    &&& final(self).same_tables(*old(self))
                    &&& (old(self).stack_view().len() == 0 || resolve_path(
                        *g,
                        old(self).stack_view().last() as int,
                        path@,
                    ) is None)
                },
            },
    {
        let slen = self.stack.len();
        if slen == 0 {
            return Err(EngineError::ContractViolation);
        }
        let top = self.stack[slen - 1];
        let n = match g.resolve(top, path) {
            Some(n) => n,
            None => {
                return Err(EngineError::ContractViolation);
            },
        };
        self.el_to_node.bind(id.0, n);
        proof {
            assert forall|el: usize| #[trigger] self.ids().contains_key(el) implies g.is_live(
                self.ids()[el] as int,
            ) by {
                if el != id.0 {
                    assert(old(self).ids().contains_key(el) && old(self).ids()[el]
                        == self.ids()[el]);
                }
            }
            assert forall|h: usize| #[trigger] self.handles().contains_key(h) implies g.is_live(
                self.handles()[h] as int,
            ) by {
                assert(old(self).handles().contains_key(h));
                assert(g.is_live(old(self).handles()[h] as int));
            }
            assert forall|i: int| 0 <= i < self.stack_view().len() implies g.is_live(
                #[trigger] self.stack_view()[i] as int,
            ) by {
                assert(g.is_live(old(self).stack_view()[i] as int));
            }
        }
        Ok(())
    }

    /// Pops `m` nodes and splices them at the position of a placeholder
    /// resolved by walking `path` from the node `m + 1` below the top of the
    /// stack; the placeholder itself stays in place, immediately after them.
    pub fn replace_placeholder_with_nodes(&mut self, g: &mut Graph, path: &Vec<u8>, m: usize) -> (r:
        Result<(), EngineError>)
        requires
            old(self).wf_for(*old(g)),
            old(g).wf(),
        ensures
            final(self).wf_for(*final(g)),
            final(g).wf(),
            final(self).same_tables(*old(self)),
            match r {
                Ok(_) => {
                    &&& m < old(self).stack_view().len()
                    &&& {
                        let base = old(self).stack_view()[old(self).stack_view().len() - m - 1]
                            as int;
                        let t = resolve_path(*old(g), base, path@).unwrap() as usize;
                        let p = old(g).parent_of(t as int).unwrap();
                        let cs = old(self).stack_view().skip(
                            old(self).stack_view().len() - m as int,
                        );
                        let w = seq_without(old(g).children_of(p as int), cs);
                        let at = w.index_of_first(t).unwrap();
                        &&& resolve_path(*old(g), base, path@) is Some
                        &&& old(g).parent_of(t as int) is Some
                        &&& (forall|i1: int, i2: int|
                            0 <= i1 < cs.len() && 0 <= i2 < cs.len() && i1 != i2 ==> cs[i1]
                                != cs[i2])
                        &&& !cs.contains(p)
                        &&& !cs.contains(t)
                        &&& final(self).stack_view() == old(self).stack_view().take(
                            old(self).stack_view().len() - m as int,
                        )
                        &&& final(g).node_count() == old(g).node_count()
                        &&& forall|x: int|
                            0 <= x < old(g).node_count() ==> #[trigger] final(g).is_live(x)
                                == old(g).is_live(x)
                        &&& forall|x: int|
                            0 <= x < old(g).node_count() ==> #[trigger] final(g).tag_of(x) == old(
                                g,
                            ).tag_of(x)
                        &&& forall|x: int|
                            0 <= x < old(g).node_count() ==> #[trigger] final(g).attrs_of(x)
                                == old(g).attrs_of(x)
                        &&& forall|x: int|
                            0 <= x < old(g).node_count() && x != p as int ==> #[trigger] final(g).children_of(x) == seq_without(old(g).children_of(x), cs)
                        &&& final(g).children_of(p as int) == w.take(at) + cs + w.skip(at)
                        &&& forall|i: int| 0 <= i < cs.len() ==> final(g).parent_of(
                            #[trigger] cs[i] as int,
                        ) == Some(p)
                        &&& forall|x: int|
                            0 <= x < old(g).node_count() && !cs.contains(x as usize) ==> #[trigger] final(g).parent_of(x) == old(g).parent_of(x)
                    }
                },
                Err(e) => {
                    &&& e == EngineError::ContractViolation
                    &&& *final(g) == *old(g)
                    &&& final(self).stack_view() == old(self).stack_view()
                    &&& {
                        let base = old(self).stack_view()[old(self).stack_view().len() - m - 1]
                            as int;
                        let t = resolve_path(*old(g), base, path@).unwrap() as usize;
                        let cs = old(self).stack_view().skip(
                            old(self).stack_view().len() - m as int,
                        );
                        ||| m >= old(self).stack_view().len()
                        ||| resolve_path(*old(g), base, path@) is None
                        ||| old(g).parent_of(t as int) is None
                        ||| !((forall|i1: int, i2: int|
                            0 <= i1 < cs.len() && 0 <= i2 < cs.len() && i1 != i2 ==> cs[i1]
                                != cs[i2]) && !cs.contains(old(g).parent_of(t as int).unwrap())
                            && !cs.contains(t))
                    }
                },
            },
    {
        if m >= self.stack.len() {
            return Err(EngineError::ContractViolation);
        }
        let base = self.stack[self.stack.len() - m - 1];
        let t = match g.resolve(base, path) {
            Some(t) => t,
            None => {
                return Err(EngineError::ContractViolation);
            },
        };
        let p = match g.parent(t) {
            Some(p) => p,
            None => {
                return Err(EngineError::ContractViolation);
            },
        };
        if !self.tail_clean(m, p, t) {
            return Err(EngineError::ContractViolation);
        }
        proof {
            assert(old(g).is_live(p as int));
        }
        self.splice_popped(g, p, t, m, false);
        Ok(())
    }

    /// Pops `m` nodes, splices them at the position of the node registered
    /// under `id`, then cascade-removes that node's subtree.
    pub fn replace_node_with(&mut self, g: &mut Graph, id: ElementId, m: usize) -> (r: Result<
        (),
        EngineError,
    >)
        requires
            old(self).wf_for(*old(g)),
            old(g).wf(),
        ensures
            final(self).wf_for(*final(g)),
            final(g).wf(),
            final(self).templates_of() == old(self).templates_of(),
            match r {
                Ok(_) => exists|am: MutationApplier, gm: Graph|
                    #[trigger] insert_adjacent_post(
                        *old(self),
                        *old(g),
                        am,
                        gm,
                        id,
                        m,
                        false,
                        Ok(()),
                    ) && remove_node_post(am, gm, *final(self), *final(g), id, Ok(()))
                        && am.same_tables(*old(self)) && final(self).stack_view()
                        == am.stack_view(),
                Err(e) => {
                    ||| (insert_adjacent_post(
                        *old(self),
                        *old(g),
                        *final(self),
                        *final(g),
                        id,
                        m,
                        false,
                        Err(e),
                    ) && final(self).same_tables(*old(self)))
                    ||| exists|am: MutationApplier, gm: Graph|
                        #[trigger] insert_adjacent_post(
                            *old(self),
                            *old(g),
                            am,
                            gm,
                            id,
                            m,
                            false,
                            Ok(()),
                        ) && remove_node_post(am, gm, *final(self), *final(g), id, Err(e))
                            && am.same_tables(*old(self)) && final(self).stack_view()
                            == am.stack_view()
                },
            },
    {
        match self.insert_nodes_before(g, id, m) {
            Ok(_) => {},
            Err(e) => {
                return Err(e);
            },
        }
        let ghost am = *self;
        let ghost gm = *g;
        match self.remove_node(g, id) {
            Ok(_) => {
                proof {
                    assert(insert_adjacent_post(
                        *old(self),
                        *old(g),
                        am,
                        gm,
                        id,
                        m,
                        false,
                        Ok(()),
                    ));
                }
                Ok(())
            },
            Err(e) => {
                proof {
                    assert(insert_adjacent_post(
                        *old(self),
                        *old(g),
                        am,
                        gm,
                        id,
                        m,
                        false,
                        Ok(()),
                    ));
                }
                Err(e)
            },
        }
    }
}

/// Whether an operation removes nodes from the graph.
pub open spec fn op_removes(op: Mutation) -> bool {
    match op {
        Mutation::ReplaceWith { .. } => true,
        Mutation::RemoveNode { .. } => true,
        _ => false,
    }
}

/// Whether an operation may re-register an already-registered node under a
/// new id, displacing its old one.
pub open spec fn op_reassigns(op: Mutation) -> bool {
    op is AssignId
}

/// The id an operation binds to a freshly spawned node, if any.
pub open spec fn op_registers_id(op: Mutation) -> Option<usize> {
    match op {
        Mutation::CreatePlaceholder { id } => Some(id.0),
        Mutation::LoadTemplate { id, .. } => Some(id.0),
        _ => None,
    }
}

/// The externally issued id an operation addresses, if any.
pub open spec fn op_ref_id(op: Mutation) -> Option<usize> {
    match op {
        Mutation::AppendChildren { id, .. } => Some(id.0),
        Mutation::AssignId { id, .. } => Some(id.0),
        Mutation::CreatePlaceholder { id } => Some(id.0),
        Mutation::LoadTemplate { id, .. } => Some(id.0),
        Mutation::ReplaceWith { id, .. } => Some(id.0),
        Mutation::ReplacePlaceholder { .. } => None,
        Mutation::InsertAfter { id, .. } => Some(id.0),
        Mutation::InsertBefore { id, .. } => Some(id.0),
        Mutation::SetAttribute { id, .. } => Some(id.0),
        Mutation::RemoveNode { id } => Some(id.0),
        Mutation::PushRoot { id } => Some(id.0),
    }
}

/// No operation of the script removes nodes or re-registers one.
pub open spec fn script_preserves_ids(script: Seq<Mutation>) -> bool {
    forall|i: int|
        0 <= i < script.len() ==> !op_removes(#[trigger] script[i]) && !op_reassigns(script[i])
}

impl MutationApplier {
    /// Applies one whole edit-script in emission order. The working stack
    /// must be exactly empty at the script boundary; anything else is a
    /// fatal contract violation. On success, for a script that removes and
    /// re-registers nothing, every id the script referenced is registered
    /// and maps to a live graph node.
    pub fn apply(&mut self, g: &mut Graph, reg: &ElementRegistry, script: &Vec<Mutation>) -> (r:
        Result<(), EngineError>)
        requires
            old(self).wf_for(*old(g)),
            old(g).wf(),
        ensures
            final(self).wf_for(*final(g)),
            final(g).wf(),
            final(self).templates_of() == old(self).templates_of(),
            r is Ok ==> final(self).stack_view() == Seq::<usize>::empty(),
            script@.len() == 0 && old(self).stack_view().len() == 0 ==> r is Ok && *final(g)
                == *old(g) && *final(self) == *old(self),
            r is Ok && script_preserves_ids(script@) ==> forall|i: int|
                0 <= i < script@.len() && (#[trigger] op_ref_id(script@[i])) is Some ==> final(self).ids().contains_key(op_ref_id(script@[i]).unwrap()) && final(g).is_live(
                    final(self).ids()[op_ref_id(script@[i]).unwrap()] as int,
                ),
            r is Ok && script_preserves_ids(script@) ==> forall|el: usize|
                #[trigger] old(self).ids().contains_key(el) ==> final(self).ids().contains_key(el)
                    && ((forall|i: int|
                    0 <= i < script@.len() ==> op_registers_id(#[trigger] script@[i]) != Some(el))
                    ==> final(self).ids()[el] == old(self).ids()[el]),
    {
        let slen = script.len();
        let mut k: usize = 0;
        while k < slen
            invariant
                k <= slen,
                slen == script@.len(),
                self.wf_for(*g),
                g.wf(),
                slen == 0 ==> *self == *old(self) && *g == *old(g),
                self.templates_of() == old(self).templates_of(),
                script_preserves_ids(script@) ==> forall|el: usize|
                    #[trigger] old(self).ids().contains_key(el) ==> self.ids().contains_key(el)
                        && ((forall|i: int|
                        0 <= i < script@.len() ==> op_registers_id(#[trigger] script@[i]) != Some(
                            el,
                        )) ==> self.ids()[el] == old(self).ids()[el]),
                script_preserves_ids(script@) ==> forall|i: int|
                    0 <= i < k && (#[trigger] op_ref_id(script@[i])) is Some
                        ==> self.ids().contains_key(op_ref_id(script@[i]).unwrap()),
            decreases slen - k,
        {
            let ghost apre = *self;
            let step = match &script[k] {
                Mutation::AppendChildren { id, m } => self.append_children(g, *id, *m),
                Mutation::AssignId { path, id } => self.assign_node_id(g, path, *id),
                Mutation::CreatePlaceholder { id } => {
                    self.create_placeholder(g, *id);
                    Ok(())
                },
                Mutation::LoadTemplate { name, index, id } => self.load_template(
                    g,
                    name,
                    *index,
                    *id,
                ),
                Mutation::ReplaceWith { id, m } => self.replace_node_with(g, *id, *m),
                Mutation::ReplacePlaceholder { path, m } => self.replace_placeholder_with_nodes(
                    g,
                    path,
                    *m,
                ),
                Mutation::InsertAfter { id, m } => self.insert_nodes_after(g, *id, *m),
                Mutation::InsertBefore { id, m } => self.insert_nodes_before(g, *id, *m),
                Mutation::SetAttribute { name, ns, value, id } => {
                    match self.set_attribute(g, reg, name, value, *id) {
                        Ok(_) => Ok(()),
                        Err(e) => Err(e),
                    }
                },
                Mutation::RemoveNode { id } => self.remove_node(g, *id),
                Mutation::PushRoot { id } => self.push_root(g, *id),
            };
            match step {
                Ok(_) => {},
                Err(e) => {
                    return Err(e);
                },
            }
            proof {
                if script_preserves_ids(script@) {
                    assert(!op_removes(script@[k as int]) && !op_reassigns(script@[k as int]));
                    assert forall|el: usize| #[trigger] old(self).ids().contains_key(el) implies
                        self.ids().contains_key(el) && ((forall|i: int|
                        0 <= i < script@.len() ==> op_registers_id(#[trigger] script@[i]) != Some(
                            el,
                        )) ==> self.ids()[el] == old(self).ids()[el]) by {
                        assert(apre.ids().contains_key(el));
                        if forall|i: int|
                            0 <= i < script@.len() ==> op_registers_id(#[trigger] script@[i])
                                != Some(el) {
                            assert(op_registers_id(script@[k as int]) != Some(el));
                            assert(apre.ids()[el] == old(self).ids()[el]);
                        }
                    }
                    assert forall|i: int|
                        0 <= i < k + 1 && (#[trigger] op_ref_id(script@[i])) is Some implies
                        self.ids().contains_key(op_ref_id(script@[i]).unwrap()) by {
                        if i < k {
                            assert(apre.ids().contains_key(op_ref_id(script@[i]).unwrap()));
                        }
                    }
                }
            }
            k += 1;
        }
        if self.stack.len() > 0 {
            return Err(EngineError::ContractViolation);
        }
        proof {
            assert(self.stack_view() =~= Seq::<usize>::empty());
        }
        Ok(())
    }
}

} // verus!
