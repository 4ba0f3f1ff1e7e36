//! Named, immutable node-description trees, and their instantiation.
//!
//! A template is registered once under a name and read many times; the
//! mutation stack machine instantiates one of its roots on demand, spawning a
//! fresh subtree whose shape matches the description exactly.

use vstd::prelude::*;

use crate::adapter::ElementRegistry;
use crate::graph::Graph;
use crate::values::{AttrValueModel, AttributeValue, StaticTemplateAttribute};

verus! {

broadcast use crate::graph::lemma_is_live_bounds;

/// The slot index of a dynamic attribute declared by a template node; the
/// diff engine later targets it through `SetAttribute`.
#[derive(Clone, Copy, PartialEq, Eq, Structural, Debug)]
pub struct DynamicAttributeId(pub usize);

/// One node of a template description: an element tag, its declared dynamic
/// attribute slots, literal attributes applied at instantiation, and child
/// descriptions.
pub struct BevyTemplateNode {
    pub tag: String,
    pub attributes: Vec<DynamicAttributeId>,
    pub static_attributes: Vec<StaticTemplateAttribute>,
    pub children: Vec<BevyTemplateNode>,
}

/// A parsed template: an ordered list of root node descriptions.
pub struct BevyTemplate {
    pub roots: Vec<BevyTemplateNode>,
}

/// The attribute table a fresh node carries after its static attributes are
/// applied in order.
pub open spec fn static_attrs_map(sas: Seq<StaticTemplateAttribute>) -> Map<
    Seq<char>,
    AttrValueModel,
>
    decreases sas.len(),
{
    if sas.len() == 0 {
        Map::empty()
    } else {
        static_attrs_map(sas.drop_last()).insert(
            sas.last().name@,
            AttrValueModel::Text(sas.last().value@),
        )
    }
}

/// Graph node `n` is an instance of description `t`: same tag, the static
/// attributes applied, and one matching child per child description.
pub open spec fn spawned_matches(g: Graph, t: BevyTemplateNode, n: int) -> bool
    decreases t,
{
    &&& g.is_live(n)
    &&& g.tag_of(n) == Some(t.tag@)
    &&& g.attrs_of(n) == static_attrs_map(t.static_attributes@)
    &&& g.children_of(n).len() == t.children@.len()
    &&& forall|i: int|
        0 <= i < t.children@.len() ==> spawned_matches(
            g,
            #[trigger] t.children@[i],
            g.children_of(n)[i] as int,
        )
}

/// All tags of the description are registered element kinds.
pub open spec fn tags_known(t: BevyTemplateNode, reg: ElementRegistry) -> bool
    decreases t,
{
    &&& reg.knows_tag(t.tag@)
    &&& forall|i: int| 0 <= i < t.children@.len() ==> tags_known(#[trigger] t.children@[i], reg)
}

/// Being an instance of a description is stable under graph changes that
/// keep every node of the smaller graph alive with its children, tag and
/// attributes; parent links may change and new nodes may appear.
pub proof fn lemma_spawned_matches_frame(g1: Graph, g2: Graph, t: BevyTemplateNode, n: int)
    requires
        spawned_matches(g1, t, n),
        g1.node_count() <= g2.node_count(),
        forall|m: int|
            0 <= m < g1.node_count() && #[trigger] g1.is_live(m) ==> {
                &&& g2.is_live(m)
                &&& g1.children_of(m) == g2.children_of(m)
                &&& g1.tag_of(m) == g2.tag_of(m)
                &&& g1.attrs_of(m) == g2.attrs_of(m)
            },
    ensures
        spawned_matches(g2, t, n),
    decreases t,
{
    assert(g1.is_live(n));
    assert(g1.children_of(n) == g2.children_of(n));
    assert forall|i: int| 0 <= i < t.children@.len() implies spawned_matches(
        g2,
        #[trigger] t.children@[i],
        g2.children_of(n)[i] as int,
    ) by {
        assert(spawned_matches(g1, t.children@[i], g1.children_of(n)[i] as int));
        lemma_spawned_matches_frame(g1, g2, t.children@[i], g1.children_of(n)[i] as int);
        assert(g2.children_of(n)[i] == g1.children_of(n)[i]);
    }
}

/// Instantiates description `t` as a fresh, detached subtree of `g`,
/// returning the subtree's root.
pub fn spawn_template_node(t: &BevyTemplateNode, g: &mut Graph) -> (n: usize)
    requires
        old(g).wf(),
    ensures
        final(g).wf(),
        final(g).node_count() >= old(g).node_count() + 1,
        forall|m: int| 0 <= m < old(g).node_count() ==> old(g).node_same(*final(g), m),
        old(g).node_count() <= n < final(g).node_count(),
        final(g).is_live(n as int),
        final(g).parent_of(n as int) is None,
        spawned_matches(*final(g), *t, n as int),
    decreases *t,
{
    let clen = t.children.len();
    let mut kids: Vec<usize> = Vec::new();
    let mut i: usize = 0;
    while i < clen
        invariant
            clen == t.children@.len(),
            i <= clen,
            g.wf(),
            g.node_count() >= old(g).node_count(),
            forall|m: int| 0 <= m < old(g).node_count() ==> old(g).node_same(*g, m),
            kids@.len() == i,
            forall|k1: int, k2: int|
                0 <= k1 < kids@.len() && 0 <= k2 < kids@.len() && k1 != k2 ==> kids@[k1]
                    != kids@[k2],
            forall|k: int|
                0 <= k < i ==> {
                    &&& old(g).node_count() <= #[trigger] kids@[k] < g.node_count()
                    &&& g.is_live(kids@[k] as int)
                    &&& g.parent_of(kids@[k] as int) is None
                    &&& spawned_matches(*g, t.children@[k], kids@[k] as int)
                },
        decreases clen - i,
    {
        let ghost gpre = *g;
        let kid = spawn_template_node(&t.children[i], g);
        proof {
            assert forall|k: int|
                0 <= k < i implies {
                &&& old(g).node_count() <= #[trigger] kids@[k] < g.node_count()
                &&& g.is_live(kids@[k] as int)
                &&& g.parent_of(kids@[k] as int) is None
                &&& spawned_matches(*g, t.children@[k], kids@[k] as int)
            } by {
                assert(gpre.node_same(*g, kids@[k] as int));
                assert forall|m: int| 0 <= m < gpre.node_count() && gpre.is_live(m) implies {
                    &&& g.is_live(m)
                    &&& gpre.children_of(m) == g.children_of(m)
                    &&& gpre.tag_of(m) == g.tag_of(m)
                    &&& gpre.attrs_of(m) == g.attrs_of(m)
                } by {
                    assert(gpre.node_same(*g, m));
                }
                lemma_spawned_matches_frame(gpre, *g, t.children@[k], kids@[k] as int);
            }
            assert forall|m: int| 0 <= m < old(g).node_count() implies old(g).node_same(
                *g,
                m,
            ) by {
                assert(old(g).node_same(gpre, m));
                assert(gpre.node_same(*g, m));
            }
        }
        kids.push(kid);
        i += 1;
    }
    let ghost gkids = *g;
    let n = g.spawn(Some(t.tag.clone()));
    let ghost gspawned = *g;
    proof {
        assert forall|k: int|
            0 <= k < kids@.len() implies {
            &&& g.is_live(#[trigger] kids@[k] as int)
            &&& g.parent_of(kids@[k] as int) is None
            &&& kids@[k] != n
        } by {
            assert(gkids.node_same(*g, kids@[k] as int));
            assert(kids@[k] < gkids.node_count());
        }
    }
    g.splice(n, 0, &kids);
    proof {
        assert(g.children_of(n as int) =~= kids@) by {
            assert(gspawned.children_of(n as int).len() == 0);
            assert(gspawned.children_of(n as int).take(0) =~= Seq::<usize>::empty());
            assert(gspawned.children_of(n as int).skip(0) =~= Seq::<usize>::empty());
        }
    }
    let ghost gsp = *g;
    let salen = t.static_attributes.len();
    let mut a: usize = 0;
    proof {
        assert(g.attrs_of(n as int) =~= static_attrs_map(t.static_attributes@.take(0)));
    }
    while a < salen
        invariant
            salen == t.static_attributes@.len(),
            a <= salen,
            g.wf(),
            g.node_count() == gsp.node_count(),
            g.is_live(n as int),
            (n as int) < g.node_count(),
            g.attrs_of(n as int) == static_attrs_map(t.static_attributes@.take(a as int)),
            forall|m: int| 0 <= m < gsp.node_count() && m != n as int ==> gsp.node_same(*g, m),
            g.parent_of(n as int) == gsp.parent_of(n as int),
            g.children_of(n as int) == gsp.children_of(n as int),
            g.tag_of(n as int) == gsp.tag_of(n as int),
        decreases salen - a,
    {
        let sa = &t.static_attributes[a];
        let ghost gpre2 = *g;
        g.set_attr(n, sa.name.clone(), AttributeValue::Text(sa.value.clone()));
        proof {
            assert(t.static_attributes@.take(a + 1).drop_last() =~= t.static_attributes@.take(
                a as int,
            ));
            assert(t.static_attributes@.take(a + 1).last() == t.static_attributes@[a as int]);
            assert forall|m: int|
                0 <= m < gsp.node_count() && m != n as int implies gsp.node_same(*g, m) by {
                assert(gsp.node_same(gpre2, m));
                assert(gpre2.node_same(*g, m));
            }
        }
        a += 1;
    }
    proof {
        assert(t.static_attributes@.take(salen as int) =~= t.static_attributes@);
        // every node of `gkids` keeps its liveness, children, tag and
        // attributes through spawn, splice and the attribute loop
        assert forall|m: int| 0 <= m < gkids.node_count() && gkids.is_live(m) implies {
            &&& g.is_live(m)
            &&& gkids.children_of(m) == g.children_of(m)
            &&& gkids.tag_of(m) == g.tag_of(m)
            &&& gkids.attrs_of(m) == g.attrs_of(m)
        } by {
            assert(gkids.node_same(gspawned, m));
            assert(m != n as int);
            if kids@.contains(m as usize) {
                assert(gsp.node_same(*g, m));
            } else {
                assert(gspawned.node_same(gsp, m));
                assert(gsp.node_same(*g, m));
            }
        }
        assert forall|k: int|
            0 <= k < clen implies spawned_matches(
            *g,
            #[trigger] t.children@[k],
            g.children_of(n as int)[k] as int,
        ) by {
            assert(g.children_of(n as int)[k] == kids@[k]);
            lemma_spawned_matches_frame(gkids, *g, t.children@[k], kids@[k] as int);
        }
        // frame for the caller's pre-existing nodes
        assert forall|m: int| 0 <= m < old(g).node_count() implies old(g).node_same(*g, m) by {
            assert(old(g).node_same(gkids, m));
            assert(gkids.node_same(gspawned, m));
            assert(m != n as int);
            assert(!kids@.contains(m as usize)) by {
                if kids@.contains(m as usize) {
                    let ix = choose|ix: int| 0 <= ix < kids@.len() && kids@[ix] == m as usize;
                }
            }
            assert(gspawned.node_same(gsp, m));
            assert(gsp.node_same(*g, m));
        }
        assert(g.children_of(n as int).len() == clen);
    }
    n
}

/// Every root of the template names only registered element kinds.
pub open spec fn template_tags_known(t: BevyTemplate, reg: ElementRegistry) -> bool {
    forall|i: int| 0 <= i < t.roots@.len() ==> tags_known(#[trigger] t.roots@[i], reg)
}

/// Whether every tag of the description is a registered element kind
/// (executable form of [`tags_known`]).
pub fn check_tags(t: &BevyTemplateNode, reg: &ElementRegistry) -> (r: bool)
    ensures
        r == tags_known(*t, *reg),
    decreases *t,
{
    if !reg.has_tag(&t.tag) {
        return false;
    }
    let clen = t.children.len();
    let mut i: usize = 0;
    while i < clen
        invariant
            clen == t.children@.len(),
            i <= clen,
            reg.knows_tag(t.tag@),
            forall|j: int| 0 <= j < i ==> tags_known(#[trigger] t.children@[j], *reg),
        decreases clen - i,
    {
        if !check_tags(&t.children[i], reg) {
            return false;
        }
        i += 1;
    }
    true
}

/// Memoizes named, parsed templates and instantiates their roots on demand.
pub struct TemplateCache {
    map: vstd::hash_map::StringHashMap<BevyTemplate>,
}

impl TemplateCache {
    /// The registered templates, by name.
    pub closed spec fn templates(self) -> Map<Seq<char>, BevyTemplate> {
        self.map@
    }

    /// An empty cache.
    pub fn new() -> (r: TemplateCache)
        ensures
            r.templates() == Map::<Seq<char>, BevyTemplate>::empty(),
    {
        TemplateCache { map: vstd::hash_map::StringHashMap::new() }
    }

    /// Whether a template is registered under `name`.
    pub fn contains(&self, name: &String) -> (r: bool)
        ensures
            r == self.templates().contains_key(name@),
    {
        self.map.contains_key(name.as_str())
    }

    /// Memoizes `t` under `name`. Registering a name again is a no-op; a
    /// template whose descriptions name an unregistered element kind is
    /// refused, since describing it to the node adapter would fail.
    pub fn register(&mut self, name: String, t: BevyTemplate, reg: &ElementRegistry) -> (r: Result<
        (),
        (),
    >)
        ensures
            match r {
                Ok(_) => (if old(self).templates().contains_key(name@) {
                    final(self).templates() == old(self).templates()
                } else {
                    template_tags_known(t, *reg) && final(self).templates() == old(
                        self,
                    ).templates().insert(name@, t)
                }),
                Err(_) => {
                    &&& final(self).templates() == old(self).templates()
                    &&& !old(self).templates().contains_key(name@)
                    &&& !template_tags_known(t, *reg)
                },
            },
    {
        if self.map.contains_key(name.as_str()) {
            return Ok(());
        }
        let rlen = t.roots.len();
        let mut i: usize = 0;
        while i < rlen
            invariant
                rlen == t.roots@.len(),
                i <= rlen,
                *self == *old(self),
                !old(self).templates().contains_key(name@),
                forall|j: int| 0 <= j < i ==> tags_known(#[trigger] t.roots@[j], *reg),
        decreases rlen - i,
        {
            if !check_tags(&t.roots[i], reg) {
                proof {
                    assert(!tags_known(t.roots@[i as int], *reg));
                }
                return Err(());
            }
            i += 1;
        }
        self.map.insert(name, t);
        Ok(())
    }

    /// Instantiates root `index` of the template registered under `name` as
    /// a fresh, detached subtree of `g`. Fails, leaving the graph untouched,
    /// exactly when `name` is unregistered or `index` is out of range.
    pub fn instantiate_root(&self, name: &String, index: usize, g: &mut Graph) -> (r: Result<
        usize,
        (),
    >)
        requires
            old(g).wf(),
        ensures
            final(g).wf(),
            match r {
                Ok(n) => {
                    &&& self.templates().contains_key(name@)
                    &&& index < self.templates()[name@].roots@.len()
                    &&& final(g).node_count() >= old(g).node_count() + 1
                    &&& forall|m: int|
                        0 <= m < old(g).node_count() ==> old(g).node_same(*final(g), m)
                    &&& old(g).node_count() <= n < final(g).node_count()
                    &&& final(g).is_live(n as int)
                    &&& final(g).parent_of(n as int) is None
                    &&& spawned_matches(
                        *final(g),
                        self.templates()[name@].roots@[index as int],
                        n as int,
                    )
                },
                Err(_) => {
                    &&& *final(g) == *old(g)
                    &&& !(self.templates().contains_key(name@) && index
                        < self.templates()[name@].roots@.len())
                },
            },
    {
        let tpl = match self.map.get(name.as_str()) {
            Some(tpl) => tpl,
            None => {
                return Err(());
            },
        };
        if index >= tpl.roots.len() {
            return Err(());
        }
        let n = spawn_template_node(&tpl.roots[index], g);
        Ok(n)
    }
}

} // verus!
