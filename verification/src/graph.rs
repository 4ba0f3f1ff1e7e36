//! The engine's model of the host graph: an arena of integer-indexed nodes.
//!
//! Nodes are spawned into the arena and never reuse an index; removal marks a
//! node dead. Each live node carries its parent link, an ordered list of
//! children, an optional element tag, and a table of applied attributes. The
//! well-formedness predicate [`Graph::wf`] ties parent links and child lists
//! together; every mutating operation preserves it.

use vstd::prelude::*;

use crate::values::{AttrValueModel, AttributeValue};

verus! {

/// One arena slot: a node of the host graph.
struct GraphNode {
    alive: bool,
    parent: Option<usize>,
    children: Vec<usize>,
    /// Element tag of the node's kind; `None` for a bare placeholder.
    tag: Option<String>,
    /// Attributes applied to this node, keyed by attribute name.
    attrs: vstd::hash_map::StringHashMap<AttributeValue>,
}

/// The arena of nodes.
pub struct Graph {
    nodes: Vec<GraphNode>,
}

/// The spec-level image of one attribute table.
pub open spec fn attrs_model(m: Map<Seq<char>, AttributeValue>) -> Map<Seq<char>, AttrValueModel> {
    Map::new(|k: Seq<char>| m.contains_key(k), |k: Seq<char>| m[k]@)
}

impl Graph {
    /// How many slots the arena has ever allocated (live or dead).
    pub closed spec fn node_count(self) -> nat {
        self.nodes@.len()
    }

    /// Whether `n` names a live node.
    pub closed spec fn is_live(self, n: int) -> bool {
        0 <= n < self.nodes@.len() && self.nodes@[n].alive
    }

    /// The parent link of node `n`.
    pub closed spec fn parent_of(self, n: int) -> Option<usize> {
        self.nodes@[n].parent
    }

    /// The ordered children of node `n`.
    pub closed spec fn children_of(self, n: int) -> Seq<usize> {
        self.nodes@[n].children@
    }

    /// The element tag of node `n`.
    pub closed spec fn tag_of(self, n: int) -> Option<Seq<char>> {
        match self.nodes@[n].tag {
            Some(t) => Some(t@),
            None => None,
        }
    }

    /// The attributes applied to node `n`.
    pub closed spec fn attrs_of(self, n: int) -> Map<Seq<char>, AttrValueModel> {
        attrs_model(self.nodes@[n].attrs@)
    }

    /// Node `n` is identical in `self` and `other`.
    pub open spec fn node_same(self, other: Graph, n: int) -> bool {
        &&& self.is_live(n) == other.is_live(n)
        &&& self.parent_of(n) == other.parent_of(n)
        &&& self.children_of(n) == other.children_of(n)
        &&& self.tag_of(n) == other.tag_of(n)
        &&& self.attrs_of(n) == other.attrs_of(n)
    }

    /// Parent links and child lists agree, children of live nodes are live,
    /// no child list repeats an entry, and dead slots are fully cleared.
    pub open spec fn wf(self) -> bool {
        &&& forall|n: int, j: int|
            self.is_live(n) && 0 <= j < self.children_of(n).len() ==> {
                let c = (#[trigger] self.children_of(n)[j]) as int;
                &&& self.is_live(c)
                &&& self.parent_of(c) == Some(n as usize)
            }
        &&& forall|n: int|
            self.is_live(n) && (#[trigger] self.parent_of(n)) is Some ==> {
                let p = self.parent_of(n).unwrap() as int;
                &&& self.is_live(p)
                &&& self.children_of(p).contains(n as usize)
            }
        &&& forall|n: int, j1: int, j2: int|
            self.is_live(n) && 0 <= j1 < self.children_of(n).len() && 0 <= j2
                < self.children_of(n).len() && j1 != j2 ==> #[trigger] self.children_of(n)[j1]
                != #[trigger] self.children_of(n)[j2]
        &&& forall|n: int|
            0 <= n < self.node_count() && !self.is_live(n) ==> {
                &&& #[trigger] self.parent_of(n) is None
                &&& self.children_of(n).len() == 0
            }
        &&& forall|n: int| self.is_live(n) ==> #[trigger] self.parent_of(n) != Some(n as usize)
    }

    /// An empty arena.
    pub fn new() -> (g: Graph)
        ensures
            g.wf(),
            g.node_count() == 0,
    {
        Graph { nodes: Vec::new() }
    }

    /// Spawns a fresh, live, detached node with no children and no
    /// attributes, returning its index.
    pub fn spawn(&mut self, tag: Option<String>) -> (n: usize)
        requires
            old(self).wf(),
        ensures
            final(self).wf(),
            n == old(self).node_count(),
            final(self).node_count() == old(self).node_count() + 1,
            final(self).is_live(n as int),
            final(self).parent_of(n as int) is None,
            final(self).children_of(n as int) == Seq::<usize>::empty(),
            final(self).attrs_of(n as int) == Map::<Seq<char>, AttrValueModel>::empty(),
            final(self).tag_of(n as int) == (match tag {
                Some(t) => Some(t@),
                None => None::<Seq<char>>,
            }),
            forall|m: int| 0 <= m < old(self).node_count() ==> old(self).node_same(*final(self), m),
    {
        let n = self.nodes.len();
        self.nodes.push(
            GraphNode {
                alive: true,
                parent: None,
                children: Vec::new(),
                tag,
                attrs: vstd::hash_map::StringHashMap::new(),
            },
        );
        proof {
            assert(self.attrs_of(n as int) =~= Map::<Seq<char>, AttrValueModel>::empty());
            assert(self.children_of(n as int) =~= Seq::<usize>::empty());
            assert forall|m: int| 0 <= m < old(self).node_count() implies old(self).node_same(
                *self,
                m,
            ) by {
                assert(self.nodes@[m] == old(self).nodes@[m]);
            }
            assert forall|m: int, j: int|
                self.is_live(m) && 0 <= j < self.children_of(m).len() implies {
                let c = (#[trigger] self.children_of(m)[j]) as int;
                &&& self.is_live(c)
                &&& self.parent_of(c) == Some(m as usize)
            } by {
                if m < old(self).node_count() {
                    assert(old(self).is_live(m));
                    assert(old(self).children_of(m)[j] == self.children_of(m)[j]);
                    let c = self.children_of(m)[j] as int;
                    assert(old(self).is_live(c));
                    assert(old(self).parent_of(c) == Some(m as usize));
                }
            }
            assert forall|m: int|
                self.is_live(m) && (#[trigger] self.parent_of(m)) is Some implies {
                let p = self.parent_of(m).unwrap() as int;
                &&& self.is_live(p)
                &&& self.children_of(p).contains(m as usize)
            } by {
                if m < old(self).node_count() {
                    assert(old(self).parent_of(m) == self.parent_of(m));
                    let p = self.parent_of(m).unwrap() as int;
                    assert(old(self).is_live(p));
                    assert(old(self).children_of(p).contains(m as usize));
                }
            }
            assert forall|m: int| self.is_live(m) implies #[trigger] self.parent_of(m) != Some(
                m as usize,
            ) by {
                if m < old(self).node_count() {
                    assert(old(self).is_live(m));
                    assert(old(self).parent_of(m) == self.parent_of(m));
                }
            }
            assert forall|m: int, j1: int, j2: int|
                self.is_live(m) && 0 <= j1 < self.children_of(m).len() && 0 <= j2
                    < self.children_of(m).len() && j1 != j2 implies #[trigger] self.children_of(
                m,
            )[j1] != #[trigger] self.children_of(m)[j2] by {
                if m < old(self).node_count() {
                    assert(old(self).is_live(m));
                    assert(old(self).children_of(m)[j1] == self.children_of(m)[j1]);
                    assert(old(self).children_of(m)[j2] == self.children_of(m)[j2]);
                }
            }
            assert forall|m: int|
                0 <= m < self.node_count() && !self.is_live(m) implies {
                &&& #[trigger] self.parent_of(m) is None
                &&& self.children_of(m).len() == 0
            } by {
                assert(m < old(self).node_count());
                assert(!old(self).is_live(m));
                assert(old(self).parent_of(m) == self.parent_of(m));
                assert(old(self).children_of(m) == self.children_of(m));
            }
        }
        n
    }

    /// Whether `n` names a live node (executable form).
    pub fn live(&self, n: usize) -> (r: bool)
        ensures
            r == self.is_live(n as int),
    {
        n < self.nodes.len() && self.nodes[n].alive
    }

    /// The parent link of live node `n`.
    pub fn parent(&self, n: usize) -> (r: Option<usize>)
        requires
            self.is_live(n as int),
        ensures
            r == self.parent_of(n as int),
    {
        self.nodes[n].parent
    }

    /// How many children live node `n` has.
    pub fn children_len(&self, n: usize) -> (r: usize)
        requires
            self.is_live(n as int),
        ensures
            r == self.children_of(n as int).len(),
    {
        self.nodes[n].children.len()
    }

    /// The `j`-th child of live node `n`.
    pub fn child_at(&self, n: usize, j: usize) -> (c: usize)
        requires
            self.is_live(n as int),
            j < self.children_of(n as int).len(),
        ensures
            c == self.children_of(n as int)[j as int],
    {
        self.nodes[n].children[j]
    }

    /// The element tag of live node `n`.
    pub fn tag(&self, n: usize) -> (t: &Option<String>)
        requires
            self.is_live(n as int),
        ensures
            self.tag_of(n as int) == (match t {
                Some(s) => Some(s@),
                None => None::<Seq<char>>,
            }),
    {
        &self.nodes[n].tag
    }

    /// The value of attribute `name` on live node `n`, if applied.
    pub fn attr(&self, n: usize, name: &str) -> (r: Option<&AttributeValue>)
        requires
            self.is_live(n as int),
        ensures
            match r {
                Some(v) => self.attrs_of(n as int).contains_key(name@) && self.attrs_of(n as int)[name@]
                    == v@,
                None => !self.attrs_of(n as int).contains_key(name@),
            },
    {
        self.nodes[n].attrs.get(name)
    }

    /// Unlinks live node `c` from its parent, if it has one; returns the
    /// child position it was removed from.
    pub fn detach(&mut self, c: usize) -> (r: Option<usize>)
        requires
            old(self).wf(),
            old(self).is_live(c as int),
        ensures
            final(self).wf(),
            final(self).node_count() == old(self).node_count(),
            final(self).parent_of(c as int) is None,
            final(self).is_live(c as int),
            final(self).children_of(c as int) == old(self).children_of(c as int),
            final(self).tag_of(c as int) == old(self).tag_of(c as int),
            final(self).attrs_of(c as int) == old(self).attrs_of(c as int),
            forall|m: int|
                0 <= m < old(self).node_count() && m != c && old(self).parent_of(c as int) != Some(
                    m as usize,
                ) ==> old(self).node_same(*final(self), m),
            match old(self).parent_of(c as int) {
                None => r is None && forall|m: int|
                    0 <= m < old(self).node_count() ==> old(self).node_same(*final(self), m),
                Some(p) => {
                    &&& r is Some
                    &&& 0 <= r.unwrap() < old(self).children_of(p as int).len()
                    &&& old(self).children_of(p as int)[r.unwrap() as int] == c
                    &&& final(self).children_of(p as int) == old(self).children_of(
                        p as int,
                    ).remove(r.unwrap() as int)
                    &&& final(self).is_live(p as int) && final(self).parent_of(p as int) == old(
                        self,
                    ).parent_of(p as int) && final(self).tag_of(p as int) == old(self).tag_of(
                        p as int,
                    ) && final(self).attrs_of(p as int) == old(self).attrs_of(p as int)
                },
            },
    {
        let _count = self.nodes.len();
        proof {
            assert(old(self).node_count() <= usize::MAX);
        }
        let parent = self.nodes[c].parent;
        match parent {
            None => None,
            Some(p) => {
                proof {
                    assert(old(self).is_live(p as int));
                    assert(old(self).children_of(p as int).contains(c));
                    assert(p != c);
                }
                let j = self.find_child_index(p, c);
                let pnode = &mut self.nodes[p];
                pnode.children.remove(j);
                let cnode = &mut self.nodes[c];
                cnode.parent = None;
                proof {
                    self.lemma_detach_wf(*old(self), p, c, j);
                }
                Some(j)
            },
        }
    }

    /// The position of `c` in live node `p`'s child list.
    pub(crate) fn find_child_index(&self, p: usize, c: usize) -> (j: usize)
        requires
            self.is_live(p as int),
            self.children_of(p as int).contains(c),
        ensures
            j < self.children_of(p as int).len(),
            self.children_of(p as int)[j as int] == c,
    {
        let len = self.nodes[p].children.len();
        let mut j: usize = 0;
        while j < len
            invariant
                j <= len,
                self.is_live(p as int),
                len == self.children_of(p as int).len(),
                self.children_of(p as int).contains(c),
                forall|i: int| 0 <= i < j ==> self.children_of(p as int)[i] != c,
            decreases len - j,
        {
            if self.nodes[p].children[j] == c {
                return j;
            }
            j += 1;
        }
        proof {
            let w = choose|i: int|
                0 <= i < self.children_of(p as int).len() && self.children_of(p as int)[i] == c;
            assert(false);
        }
        0
    }

    /// Inserts detached live node `c` at position `at` among live node `p`'s
    /// children. The host refuses to attach a node under itself; so does the
    /// engine, hence `c != p`.
    pub fn attach(&mut self, p: usize, at: usize, c: usize)
        requires
            old(self).wf(),
            old(self).is_live(p as int),
            old(self).is_live(c as int),
            c != p,
            old(self).parent_of(c as int) is None,
            at <= old(self).children_of(p as int).len(),
        ensures
            final(self).wf(),
            final(self).node_count() == old(self).node_count(),
            final(self).children_of(p as int) == old(self).children_of(p as int).insert(
                at as int,
                c,
            ),
            final(self).parent_of(c as int) == Some(p),
            final(self).is_live(p as int),
            final(self).parent_of(p as int) == old(self).parent_of(p as int),
            final(self).tag_of(p as int) == old(self).tag_of(p as int),
            final(self).attrs_of(p as int) == old(self).attrs_of(p as int),
            final(self).is_live(c as int),
            final(self).children_of(c as int) == old(self).children_of(c as int),
            final(self).tag_of(c as int) == old(self).tag_of(c as int),
            final(self).attrs_of(c as int) == old(self).attrs_of(c as int),
            forall|m: int|
                0 <= m < old(self).node_count() && m != c && m != p ==> old(self).node_same(
                    *final(self),
                    m,
                ),
    {
        let _count = self.nodes.len();
        proof {
            assert(old(self).node_count() <= usize::MAX);
        }
        let pnode = &mut self.nodes[p];
        pnode.children.insert(at, c);
        let cnode = &mut self.nodes[c];
        cnode.parent = Some(p);
        proof {
            self.lemma_attach_wf(*old(self), p, at, c);
        }
    }

    /// `self` arose from well-formed `g` by inserting parentless `c` at
    /// position `at` of `p`'s child list and pointing `c`'s parent at `p`.
    proof fn lemma_attach_wf(self, g: Graph, p: usize, at: usize, c: usize)
        requires
            g.wf(),
            g.node_count() <= usize::MAX,
            g.is_live(p as int),
            g.is_live(c as int),
            c != p,
            g.parent_of(c as int) is None,
            at <= g.children_of(p as int).len(),
            self.node_count() == g.node_count(),
            self.children_of(p as int) == g.children_of(p as int).insert(at as int, c),
            self.parent_of(c as int) == Some(p),
            self.is_live(p as int) == g.is_live(p as int),
            self.is_live(c as int) == g.is_live(c as int),
            self.parent_of(p as int) == g.parent_of(p as int),
            self.children_of(c as int) == g.children_of(c as int),
            forall|m: int| 0 <= m < g.node_count() && m != c && m != p ==> g.node_same(self, m),
        ensures
            self.wf(),
    {
        let sp = g.children_of(p as int);
        // `c` sits in no child list of `g`: its parent link is `None`.
        assert forall|n: int, jj: int|
            g.is_live(n) && 0 <= jj < g.children_of(n).len() implies #[trigger] g.children_of(
            n,
        )[jj] != c by {
            if g.children_of(n)[jj] == c {
                assert(g.parent_of(c as int) == Some(n as usize));
            }
        }
        assert forall|n: int, jj: int|
            self.is_live(n) && 0 <= jj < self.children_of(n).len() implies {
            let cc = (#[trigger] self.children_of(n)[jj]) as int;
            &&& self.is_live(cc)
            &&& self.parent_of(cc) == Some(n as usize)
        } by {
            if n != p && n != c {
                assert(g.node_same(self, n));
            }
            assert(g.is_live(n));
            let cc = self.children_of(n)[jj] as int;
            if n == p {
                if jj == at {
                    assert(cc == c as int);
                    assert(self.is_live(cc));
                    assert(self.parent_of(cc) == Some(n as usize));
                } else {
                    let i = if jj < at { jj } else { jj - 1 };
                    assert(sp.insert(at as int, c)[jj] == sp[i]);
                    assert(g.children_of(n)[i] == cc as usize);
                    assert(g.parent_of(cc) == Some(n as usize));
                    assert(cc != c as int);
                    if cc != p as int {
                        assert(g.node_same(self, cc));
                    }
                    assert(self.is_live(cc));
                    assert(self.parent_of(cc) == Some(n as usize));
                }
            } else {
                assert(self.children_of(n) == g.children_of(n));
                assert(g.children_of(n)[jj] == cc as usize);
                assert(g.parent_of(cc) == Some(n as usize));
                assert(cc != c as int);
                if cc != p as int {
                    assert(g.node_same(self, cc));
                }
                assert(self.is_live(cc));
                assert(self.parent_of(cc) == Some(n as usize));
            }
        }
        assert forall|n: int|
            self.is_live(n) && (#[trigger] self.parent_of(n)) is Some implies {
            let pp = self.parent_of(n).unwrap() as int;
            &&& self.is_live(pp)
            &&& self.children_of(pp).contains(n as usize)
        } by {
            if n == c {
                assert(self.children_of(p as int)[at as int] == c);
                assert(self.children_of(p as int).contains(c));
                assert(self.is_live(p as int));
            } else {
                if n != p {
                    assert(g.node_same(self, n));
                }
                assert(g.is_live(n));
                assert(self.parent_of(n) == g.parent_of(n));
                let pp = self.parent_of(n).unwrap() as int;
                assert(g.is_live(pp) && g.children_of(pp).contains(n as usize));
                if pp != p as int && pp != c as int {
                    assert(g.node_same(self, pp));
                }
                assert(self.is_live(pp));
                if pp == p as int {
                    assert(exists|i: int| 0 <= i < sp.len() && sp[i] == n as usize);
                    let i = choose|i: int| 0 <= i < sp.len() && sp[i] == n as usize;
                    let i2 = if i < at { i } else { i + 1 };
                    assert(sp.insert(at as int, c)[i2] == sp[i]);
                    assert(self.children_of(pp)[i2] == n as usize);
                } else {
                    assert(self.children_of(pp) == g.children_of(pp));
                }
                assert(self.children_of(pp).contains(n as usize));
            }
        }
        assert forall|n: int, j1: int, j2: int|
            self.is_live(n) && 0 <= j1 < self.children_of(n).len() && 0 <= j2 < self.children_of(
                n,
            ).len() && j1 != j2 implies #[trigger] self.children_of(n)[j1]
            != #[trigger] self.children_of(n)[j2] by {
            if n != p && n != c {
                assert(g.node_same(self, n));
            }
            assert(g.is_live(n));
            if n == p {
                let s2 = sp.insert(at as int, c);
                if j1 == at || j2 == at {
                    let jo = if j1 == at { j2 } else { j1 };
                    let io = if jo < at { jo } else { jo - 1 };
                    assert(s2[jo] == sp[io]);
                    assert(g.children_of(n)[io] == s2[jo]);
                    assert(s2[jo] != c);
                    assert(s2[at as int] == c);
                } else {
                    let i1 = if j1 < at { j1 } else { j1 - 1 };
                    let i2 = if j2 < at { j2 } else { j2 - 1 };
                    assert(s2[j1] == sp[i1]);
                    assert(s2[j2] == sp[i2]);
                    assert(sp[i1] != sp[i2]);
                }
            } else {
                assert(self.children_of(n) == g.children_of(n));
                assert(g.children_of(n)[j1] != g.children_of(n)[j2]);
            }
        }
        assert forall|n: int|
            0 <= n < self.node_count() && !self.is_live(n) implies {
            &&& #[trigger] self.parent_of(n) is None
            &&& self.children_of(n).len() == 0
        } by {
            assert(n != c && n != p);
            assert(g.node_same(self, n));
            assert(!g.is_live(n));
            assert(g.parent_of(n) is None && g.children_of(n).len() == 0);
        }
        assert forall|n: int| self.is_live(n) implies #[trigger] self.parent_of(n) != Some(
            n as usize,
        ) by {
            if n == c {
                assert(self.parent_of(n) == Some(p));
            } else {
                if n != p {
                    assert(g.node_same(self, n));
                }
                assert(self.parent_of(n) == g.parent_of(n));
                assert(g.is_live(n));
                assert(g.parent_of(n) != Some(n as usize));
            }
        }
    }

    /// Records attribute `name` with `value` on live node `n`, replacing any
    /// prior value of that name.
    pub fn set_attr(&mut self, n: usize, name: String, value: AttributeValue)
        requires
            old(self).wf(),
            old(self).is_live(n as int),
        ensures
            final(self).wf(),
            final(self).node_count() == old(self).node_count(),
            final(self).attrs_of(n as int) == old(self).attrs_of(n as int).insert(name@, value@),
            final(self).is_live(n as int),
            final(self).parent_of(n as int) == old(self).parent_of(n as int),
            final(self).children_of(n as int) == old(self).children_of(n as int),
            final(self).tag_of(n as int) == old(self).tag_of(n as int),
            forall|m: int|
                0 <= m < old(self).node_count() && m != n ==> old(self).node_same(*final(self), m),
    {
        let node = &mut self.nodes[n];
        node.attrs.insert(name, value);
        proof {
            assert(self.attrs_of(n as int) =~= old(self).attrs_of(n as int).insert(name@, value@));
            assert forall|m: int|
                0 <= m < old(self).node_count() && m != n implies old(self).node_same(
                *self,
                m,
            ) by {
                assert(self.nodes@[m] == old(self).nodes@[m]);
            }
            self.lemma_wf_same_structure(*old(self));
        }
    }

    /// Clears attribute `name` from live node `n`, if applied; the node and
    /// the rest of the graph are otherwise untouched.
    pub fn remove_attr(&mut self, n: usize, name: &str)
        requires
            old(self).wf(),
            old(self).is_live(n as int),
        ensures
            final(self).wf(),
            final(self).node_count() == old(self).node_count(),
            final(self).attrs_of(n as int) == old(self).attrs_of(n as int).remove(name@),
            final(self).is_live(n as int),
            final(self).parent_of(n as int) == old(self).parent_of(n as int),
            final(self).children_of(n as int) == old(self).children_of(n as int),
            final(self).tag_of(n as int) == old(self).tag_of(n as int),
            forall|m: int|
                0 <= m < old(self).node_count() && m != n ==> old(self).node_same(*final(self), m),
    {
        let node = &mut self.nodes[n];
        node.attrs.remove(name);
        proof {
            assert(self.attrs_of(n as int) =~= old(self).attrs_of(n as int).remove(name@));
            assert forall|m: int|
                0 <= m < old(self).node_count() && m != n implies old(self).node_same(
                *self,
                m,
            ) by {
                assert(self.nodes@[m] == old(self).nodes@[m]);
            }
            self.lemma_wf_same_structure(*old(self));
        }
    }

    /// Liveness, parent links and child lists all agree with well-formed
    /// `g`, so `self` is well-formed too.
    proof fn lemma_wf_same_structure(self, g: Graph)
        requires
            g.wf(),
            self.node_count() == g.node_count(),
            forall|n: int| 0 <= n < g.node_count() ==> self.is_live(n) == g.is_live(n),
            forall|n: int|
                0 <= n < g.node_count() ==> #[trigger] self.parent_of(n) == g.parent_of(n),
            forall|n: int|
                0 <= n < g.node_count() ==> #[trigger] self.children_of(n) == g.children_of(n),
        ensures
            self.wf(),
    {
        assert forall|n: int, jj: int|
            self.is_live(n) && 0 <= jj < self.children_of(n).len() implies {
            let cc = (#[trigger] self.children_of(n)[jj]) as int;
            &&& self.is_live(cc)
            &&& self.parent_of(cc) == Some(n as usize)
        } by {
            assert(self.children_of(n) == g.children_of(n));
            assert(g.is_live(n));
            let cc = self.children_of(n)[jj] as int;
            assert(g.children_of(n)[jj] == cc as usize);
            assert(g.is_live(cc) && g.parent_of(cc) == Some(n as usize));
            assert(self.parent_of(cc) == g.parent_of(cc));
        }
        assert forall|n: int|
            self.is_live(n) && (#[trigger] self.parent_of(n)) is Some implies {
            let pp = self.parent_of(n).unwrap() as int;
            &&& self.is_live(pp)
            &&& self.children_of(pp).contains(n as usize)
        } by {
            assert(self.parent_of(n) == g.parent_of(n));
            assert(g.is_live(n));
            let pp = self.parent_of(n).unwrap() as int;
            assert(g.is_live(pp) && g.children_of(pp).contains(n as usize));
            assert(self.children_of(pp) == g.children_of(pp));
        }
        assert forall|n: int, j1: int, j2: int|
            self.is_live(n) && 0 <= j1 < self.children_of(n).len() && 0 <= j2 < self.children_of(
                n,
            ).len() && j1 != j2 implies #[trigger] self.children_of(n)[j1]
            != #[trigger] self.children_of(n)[j2] by {
            assert(self.children_of(n) == g.children_of(n));
            assert(g.is_live(n));
            assert(g.children_of(n)[j1] != g.children_of(n)[j2]);
        }
        assert forall|n: int|
            0 <= n < self.node_count() && !self.is_live(n) implies {
            &&& #[trigger] self.parent_of(n) is None
            &&& self.children_of(n).len() == 0
        } by {
            assert(!g.is_live(n));
            assert(self.parent_of(n) == g.parent_of(n));
            assert(self.children_of(n) == g.children_of(n));
            assert(g.parent_of(n) is None && g.children_of(n).len() == 0);
        }
        assert forall|n: int| self.is_live(n) implies #[trigger] self.parent_of(n) != Some(
            n as usize,
        ) by {
            assert(self.parent_of(n) == g.parent_of(n));
            assert(g.is_live(n));
            assert(g.parent_of(n) != Some(n as usize));
        }
    }

    /// `self` arose from well-formed `g` by removing child `j` (which was
    /// `c`) from `p`'s child list and clearing `c`'s parent link.
    proof fn lemma_detach_wf(self, g: Graph, p: usize, c: usize, j: usize)
        requires
            g.wf(),
            g.node_count() <= usize::MAX,
            g.is_live(c as int),
            g.is_live(p as int),
            p != c,
            g.parent_of(c as int) == Some(p),
            0 <= j < g.children_of(p as int).len(),
            g.children_of(p as int)[j as int] == c,
            self.node_count() == g.node_count(),
            self.children_of(p as int) == g.children_of(p as int).remove(j as int),
            self.parent_of(c as int) is None,
            self.is_live(p as int) == g.is_live(p as int),
            self.is_live(c as int) == g.is_live(c as int),
            self.parent_of(p as int) == g.parent_of(p as int),
            self.children_of(c as int) == g.children_of(c as int),
            forall|m: int| 0 <= m < g.node_count() && m != c && m != p ==> g.node_same(self, m),
        ensures
            self.wf(),
    {
        assert forall|n: int, jj: int|
            self.is_live(n) && 0 <= jj < self.children_of(n).len() implies {
            let cc = (#[trigger] self.children_of(n)[jj]) as int;
            &&& self.is_live(cc)
            &&& self.parent_of(cc) == Some(n as usize)
        } by {
            if n != p && n != c {
                assert(g.node_same(self, n));
            }
            assert(g.is_live(n));
            let cc = self.children_of(n)[jj] as int;
            if n == p {
                let s = g.children_of(p as int);
                if jj < j {
                    assert(s.remove(j as int)[jj] == s[jj]);
                    assert(g.children_of(n)[jj] == cc as usize);
                } else {
                    assert(s.remove(j as int)[jj] == s[jj + 1]);
                    assert(g.children_of(n)[jj + 1] == cc as usize);
                }
                assert(cc != c as int);
            } else {
                assert(g.children_of(n)[jj] == cc as usize);
                assert(g.parent_of(cc) == Some(n as usize));
                assert(cc != c as int);
            }
            assert(g.is_live(cc) && g.parent_of(cc) == Some(n as usize));
            if cc != p as int && cc != c as int {
                assert(g.node_same(self, cc));
            }
            assert(self.is_live(cc));
            assert(self.parent_of(cc) == Some(n as usize));
        }
        assert forall|n: int|
            self.is_live(n) && (#[trigger] self.parent_of(n)) is Some implies {
            let pp = self.parent_of(n).unwrap() as int;
            &&& self.is_live(pp)
            &&& self.children_of(pp).contains(n as usize)
        } by {
            assert(n != c);
            if n != p {
                assert(g.node_same(self, n));
            }
            assert(self.parent_of(n) == g.parent_of(n));
            assert(g.is_live(n));
            let pp = self.parent_of(n).unwrap() as int;
            assert(g.is_live(pp) && g.children_of(pp).contains(n as usize));
            if pp != p as int && pp != c as int {
                assert(g.node_same(self, pp));
            }
            assert(self.is_live(pp));
            if pp == p as int {
                let s = g.children_of(p as int);
                assert(exists|i: int| 0 <= i < s.len() && s[i] == n as usize);
                let i = choose|i: int| 0 <= i < s.len() && s[i] == n as usize;
                assert(i != j as int);
                if i < j {
                    assert(s.remove(j as int)[i] == s[i]);
                } else {
                    assert(s.remove(j as int)[i - 1] == s[i]);
                }
            } else {
                assert(self.children_of(pp) == g.children_of(pp));
            }
            assert(self.children_of(pp).contains(n as usize));
        }
        assert forall|n: int, j1: int, j2: int|
            self.is_live(n) && 0 <= j1 < self.children_of(n).len() && 0 <= j2 < self.children_of(
                n,
            ).len() && j1 != j2 implies #[trigger] self.children_of(n)[j1]
            != #[trigger] self.children_of(n)[j2] by {
            if n != p && n != c {
                assert(g.node_same(self, n));
            }
            assert(g.is_live(n));
            if n == p {
                let s = g.children_of(p as int);
                let i1 = if j1 < j { j1 } else { j1 + 1 };
                let i2 = if j2 < j { j2 } else { j2 + 1 };
                assert(self.children_of(n)[j1] == s[i1]);
                assert(self.children_of(n)[j2] == s[i2]);
                assert(s[i1] != s[i2]);
            } else {
                assert(self.children_of(n) == g.children_of(n));
                assert(g.children_of(n)[j1] != g.children_of(n)[j2]);
            }
        }
        assert forall|n: int|
            0 <= n < self.node_count() && !self.is_live(n) implies {
            &&& #[trigger] self.parent_of(n) is None
            &&& self.children_of(n).len() == 0
        } by {
            assert(n != c && n != p);
            assert(g.node_same(self, n));
            assert(!g.is_live(n));
            assert(g.parent_of(n) is None && g.children_of(n).len() == 0);
        }
        assert forall|n: int| self.is_live(n) implies #[trigger] self.parent_of(n) != Some(
            n as usize,
        ) by {
            if n != c {
                if n != p {
                    assert(g.node_same(self, n));
                }
                assert(self.parent_of(n) == g.parent_of(n));
                assert(g.is_live(n));
                assert(g.parent_of(n) != Some(n as usize));
            }
        }
    }
}

/// A live node index lies within the arena.
pub broadcast proof fn lemma_is_live_bounds(g: Graph, n: int)
    ensures
        #[trigger] g.is_live(n) ==> 0 <= n < g.node_count(),
{
}

/// Node `n` is reachable from `r` by following child links, in at most `k`
/// steps.
pub open spec fn reaches(g: Graph, r: int, n: int, k: nat) -> bool
    decreases k,
{
    if r == n {
        true
    } else if k == 0 {
        false
    } else {
        exists|j: int|
            0 <= j < g.children_of(r).len() && reaches(
                g,
                g.children_of(r)[j] as int,
                n,
                (k - 1) as nat,
            )
    }
}

/// Node `n` belongs to the subtree rooted at `r` (including `r` itself).
pub open spec fn in_subtree(g: Graph, r: int, n: int) -> bool {
    exists|k: nat| reaches(g, r, n, k)
}

/// Reaching `x` from a child of `r` reaches `x` from `r`.
proof fn lemma_reaches_step(g: Graph, r: int, j: int, x: int, k: nat)
    requires
        0 <= j < g.children_of(r).len(),
        reaches(g, g.children_of(r)[j] as int, x, k),
    ensures
        reaches(g, r, x, k + 1),
{
}

/// Everything in a live root's subtree is itself live.
pub proof fn lemma_reaches_live(g: Graph, r: int, n: int, k: nat)
    requires
        g.wf(),
        g.is_live(r),
        reaches(g, r, n, k),
    ensures
        g.is_live(n),
    decreases k,
{
    if r != n {
        let j = choose|j: int|
            0 <= j < g.children_of(r).len() && reaches(g, g.children_of(r)[j] as int, n, (k - 1) as nat);
        assert(g.is_live(g.children_of(r)[j] as int));
        lemma_reaches_live(g, g.children_of(r)[j] as int, n, (k - 1) as nat);
    }
}

/// Every subtree member except the root has its parent in the subtree.
pub proof fn lemma_parent_in_subtree(g: Graph, r: int, n: int, k: nat)
    requires
        g.wf(),
        g.node_count() <= usize::MAX,
        g.is_live(r),
        reaches(g, r, n, k),
        n != r,
    ensures
        g.parent_of(n) is Some,
        in_subtree(g, r, g.parent_of(n).unwrap() as int),
    decreases k,
{
    let j = choose|j: int|
        0 <= j < g.children_of(r).len() && reaches(g, g.children_of(r)[j] as int, n, (k - 1) as nat);
    let c = g.children_of(r)[j] as int;
    assert(g.is_live(c));
    if c == n {
        assert(g.parent_of(n) == Some(r as usize));
        assert(reaches(g, r, r, 0));
        assert(g.parent_of(n).unwrap() as int == r);
    } else {
        lemma_parent_in_subtree(g, c, n, (k - 1) as nat);
        let q = g.parent_of(n).unwrap() as int;
        let kq = choose|kq: nat| reaches(g, c, q, kq);
        lemma_reaches_step(g, r, j, q, kq);
    }
}

/// How many entries of `s` are set.
pub closed spec fn count_marked(s: Seq<bool>) -> nat
    decreases s.len(),
{
    if s.len() == 0 {
        0
    } else {
        count_marked(s.drop_last()) + if s.last() {
            1nat
        } else {
            0nat
        }
    }
}

proof fn lemma_count_marked_le(s: Seq<bool>)
    ensures
        count_marked(s) <= s.len(),
    decreases s.len(),
{
    if s.len() > 0 {
        lemma_count_marked_le(s.drop_last());
    }
}

proof fn lemma_count_marked_update(s: Seq<bool>, i: int)
    requires
        0 <= i < s.len(),
        !s[i],
    ensures
        count_marked(s.update(i, true)) == count_marked(s) + 1,
    decreases s.len(),
{
    let t = s.update(i, true);
    if i == s.len() - 1 {
        assert(t.drop_last() =~= s.drop_last());
    } else {
        assert(t.drop_last() =~= s.drop_last().update(i, true));
        lemma_count_marked_update(s.drop_last(), i);
    }
}

/// A marking closed under children and containing the root covers the whole
/// subtree.
proof fn lemma_closed_covers_subtree(g: Graph, marks: Seq<bool>, r: int, n: int, k: nat)
    requires
        g.wf(),
        g.is_live(r),
        marks.len() == g.node_count(),
        marks[r],
        forall|i: int, j: int|
            0 <= i < marks.len() && marks[i] && g.is_live(i) && 0 <= j < g.children_of(i).len()
                ==> marks[#[trigger] g.children_of(i)[j] as int],
        reaches(g, r, n, k),
    ensures
        0 <= n < marks.len() && marks[n],
    decreases k,
{
    lemma_reaches_live(g, r, n, k);
    if r != n {
        let j = choose|j: int|
            0 <= j < g.children_of(r).len() && reaches(g, g.children_of(r)[j] as int, n, (k - 1) as nat);
        let c = g.children_of(r)[j] as int;
        assert(marks[c]);
        assert(g.is_live(c));
        lemma_closed_covers_subtree(g, marks, c, n, (k - 1) as nat);
    }
}

/// Sets entry `i` of a mark vector.
fn set_mark(v: &mut Vec<bool>, i: usize)
    requires
        i < old(v)@.len(),
    ensures
        final(v)@ == old(v)@.update(i as int, true),
{
    let slot = &mut v[i];
    *slot = true;
}

impl Graph {
    /// Collects every node of the subtree rooted at live node `r`,
    /// `r` included, without duplicates.
    pub fn collect_subtree(&self, r: usize) -> (out: Vec<usize>)
        requires
            self.wf(),
            self.is_live(r as int),
        ensures
            forall|n: usize| #[trigger] out@.contains(n) <==> in_subtree(*self, r as int, n as int),
            forall|i: int, j: int| 0 <= i < out@.len() && 0 <= j < out@.len() && i != j ==> out@[i]
                != out@[j],
            forall|i: int| 0 <= i < out@.len() ==> self.is_live(#[trigger] out@[i] as int),
    {
        let total = self.nodes.len();
        let mut marks: Vec<bool> = Vec::new();
        let mut f: usize = 0;
        while f < total
            invariant
                f <= total,
                marks@.len() == f,
                forall|i: int| 0 <= i < f ==> !marks@[i],
            decreases total - f,
        {
            marks.push(false);
            f += 1;
        }
        let mut marked: usize = 1;
        let mut out: Vec<usize> = Vec::new();
        let mut work: Vec<usize> = Vec::new();
        set_mark(&mut marks, r);
        proof {
            lemma_count_marked_update(Seq::new(total as nat, |i: int| false), r as int);
            assert(Seq::new(total as nat, |i: int| false).update(r as int, true) =~= marks@);
            assert(count_marked(Seq::new(total as nat, |i: int| false)) == 0) by {
                lemma_count_all_false(Seq::new(total as nat, |i: int| false));
            }
            assert(reaches(*self, r as int, r as int, 0));
        }
        out.push(r);
        work.push(r);
        proof {
            assert(marks@ =~= Seq::new(total as nat, |i: int| false).update(r as int, true));
            assert(out@ =~= Seq::<usize>::empty().push(r));
            assert forall|n: usize| #[trigger] out@.contains(n) implies (n < total && marks@[
                n as int
            ]) by {
                assert(n == r);
            }
            assert forall|n: usize| n < total && marks@[n as int] implies #[trigger] out@.contains(
                n,
            ) by {
                assert(n == r);
                assert(out@[0] == r);
            }
        }
        while work.len() > 0
            invariant
                self.wf(),
                self.is_live(r as int),
                total == self.node_count(),
                marks@.len() == total,
                marks@[r as int],
                marked == count_marked(marks@),
                marked <= total,
                forall|i: int|
                    0 <= i < total && #[trigger] marks@[i] ==> self.is_live(i) && in_subtree(
                        *self,
                        r as int,
                        i,
                    ),
                forall|n: usize| #[trigger] out@.contains(n) <==> (n < total && marks@[n as int]),
                forall|i: int, j: int|
                    0 <= i < out@.len() && 0 <= j < out@.len() && i != j ==> out@[i] != out@[j],
                forall|i: int| 0 <= i < work@.len() ==> (#[trigger] work@[i] as int) < total
                    && marks@[work@[i] as int],
                forall|i: int, j: int|
                    0 <= i < total && marks@[i] && !work@.contains(i as usize) && self.is_live(i)
                        && 0 <= j < self.children_of(i).len() ==> marks@[
                        #[trigger] self.children_of(i)[j] as int
                    ],
            decreases total - marked, work@.len(),
        {
            let ghost marked0 = marked;
            let ghost wpre = work@;
            let ghost wl0 = work@.len();
            let n = work.pop().unwrap();
            proof {
                assert(wpre =~= work@.push(n));
                assert forall|i: usize| !work@.contains(i) && i != n implies !wpre.contains(
                    i,
                ) by {
                    if wpre.contains(i) {
                        let ix = choose|ix: int| 0 <= ix < wpre.len() && wpre[ix] == i;
                        if ix < wpre.len() - 1 {
                            assert(work@[ix] == i);
                        }
                    }
                }
            }
            let clen = self.children_len(n);
            let mut j: usize = 0;
            while j < clen
                invariant
                    self.wf(),
                    self.is_live(r as int),
                    self.is_live(n as int),
                    total == self.node_count(),
                    marks@.len() == total,
                    marks@[r as int],
                    marked == count_marked(marks@),
                    marked <= total,
                    j <= clen,
                    clen == self.children_of(n as int).len(),
                    in_subtree(*self, r as int, n as int),
                    marked0 <= marked,
                    work@.len() <= wl0 - 1 + (marked - marked0),
                    forall|i: int|
                        0 <= i < total && #[trigger] marks@[i] ==> self.is_live(i) && in_subtree(
                            *self,
                            r as int,
                            i,
                        ),
                    forall|nn: usize| #[trigger] out@.contains(nn) <==> (nn < total && marks@[
                        nn as int
                    ]),
                    forall|i1: int, i2: int|
                        0 <= i1 < out@.len() && 0 <= i2 < out@.len() && i1 != i2 ==> out@[i1]
                            != out@[i2],
                    forall|i: int| 0 <= i < work@.len() ==> (#[trigger] work@[i] as int) < total
                        && marks@[work@[i] as int],
                    forall|jj: int| 0 <= jj < j ==> marks@[
                        #[trigger] self.children_of(n as int)[jj] as int
                    ],
                    forall|i: int, jj: int|
                        0 <= i < total && marks@[i] && i != n as int && !work@.contains(i as usize)
                            && self.is_live(i) && 0 <= jj < self.children_of(i).len() ==> marks@[
                            #[trigger] self.children_of(i)[jj] as int
                        ],
                decreases clen - j,
            {
                let c = self.child_at(n, j);
                proof {
                    assert(self.is_live(c as int));
                }
                if !marks[c] {
                    let ghost marks_pre = marks@;
                    let ghost out_pre = out@;
                    let ghost work_pre = work@;
                    proof {
                        lemma_count_marked_update(marks@, c as int);
                        lemma_count_marked_le(marks@.update(c as int, true));
                        let kk = choose|kk: nat| reaches(*self, r as int, n as int, kk);
                        lemma_reaches_step(*self, n as int, j as int, c as int, 0);
                        assert(reaches(*self, n as int, c as int, 1));
                        lemma_reaches_trans(*self, r as int, n as int, c as int, kk, 1);
                    }
                    set_mark(&mut marks, c);
                    marked += 1;
                    out.push(c);
                    work.push(c);
                    proof {
                        assert(!out_pre.contains(c));
                        assert forall|nn: usize| #[trigger] out@.contains(nn) implies (nn < total
                            && marks@[nn as int]) by {
                            let ix = choose|ix: int| 0 <= ix < out@.len() && out@[ix] == nn;
                            if ix < out@.len() - 1 {
                                assert(out_pre[ix] == nn);
                                assert(out_pre.contains(nn));
                            } else {
                                assert(nn == c);
                            }
                        }
                        assert forall|nn: usize| nn < total && marks@[nn as int] implies
                            #[trigger] out@.contains(nn) by {
                            if nn == c {
                                assert(out@[out@.len() - 1] == c);
                            } else {
                                assert(marks_pre[nn as int]);
                                assert(out_pre.contains(nn));
                                let ix = choose|ix: int| 0 <= ix < out_pre.len() && out_pre[ix]
                                    == nn;
                                assert(out@[ix] == nn);
                            }
                        }
                        assert forall|i1: int, i2: int|
                            0 <= i1 < out@.len() && 0 <= i2 < out@.len() && i1 != i2 implies out@[
                            i1
                        ] != out@[i2] by {
                            let last = out@.len() - 1;
                            if i1 < last && i2 < last {
                                assert(out_pre[i1] == out@[i1] && out_pre[i2] == out@[i2]);
                            } else {
                                let io = if i1 == last {
                                    i2
                                } else {
                                    i1
                                };
                                assert(out@[last] == c);
                                assert(out_pre[io] == out@[io]);
                                if out@[io] == c {
                                    assert(out_pre.contains(c));
                                }
                            }
                        }
                        assert forall|i: int, jj: int|
                            0 <= i < total && marks@[i] && i != n as int && !work@.contains(
                                i as usize,
                            ) && self.is_live(i) && 0 <= jj < self.children_of(i).len() implies
                            marks@[#[trigger] self.children_of(i)[jj] as int] by {
                            assert(work@[work@.len() - 1] == c);
                            assert(work@.contains(c));
                            assert(i != c as int);
                            assert(marks_pre[i]);
                            assert(!work_pre.contains(i as usize)) by {
                                if work_pre.contains(i as usize) {
                                    let ix = choose|ix: int|
                                        0 <= ix < work_pre.len() && work_pre[ix] == i as usize;
                                    assert(work@[ix] == i as usize);
                                }
                            }
                            assert(marks_pre[self.children_of(i)[jj] as int]);
                        }
                    }
                }
                j += 1;
            }
        }
        proof {
            assert forall|i: int| 0 <= i < out@.len() implies self.is_live(
                #[trigger] out@[i] as int,
            ) by {
                assert(out@.contains(out@[i]));
                assert(marks@[out@[i] as int]);
            }
            assert forall|n: usize| #[trigger] out@.contains(n) implies in_subtree(
                *self,
                r as int,
                n as int,
            ) by {
                assert(marks@[n as int]);
            }
            assert forall|n: usize| in_subtree(*self, r as int, n as int) implies #[trigger] out@
                .contains(n) by {
                let k = choose|k: nat| reaches(*self, r as int, n as int, k);
                lemma_closed_covers_subtree(*self, marks@, r as int, n as int, k);
            }
        }
        out
    }
}

/// Reachability composes across an intermediate node.
proof fn lemma_reaches_trans(g: Graph, a: int, b: int, c: int, k1: nat, k2: nat)
    requires
        reaches(g, a, b, k1),
        reaches(g, b, c, k2),
    ensures
        reaches(g, a, c, (k1 + k2) as nat),
    decreases k1,
{
    if a != b {
        let j = choose|j: int|
            0 <= j < g.children_of(a).len() && reaches(g, g.children_of(a)[j] as int, b, (k1 - 1) as nat);
        lemma_reaches_trans(g, g.children_of(a)[j] as int, b, c, (k1 - 1) as nat, k2);
    } else {
        lemma_reaches_mono(g, b, c, k2, (k1 + k2) as nat);
    }
}

/// Reachability within `k` steps holds within any larger bound.
proof fn lemma_reaches_mono(g: Graph, a: int, b: int, k1: nat, k2: nat)
    requires
        reaches(g, a, b, k1),
        k1 <= k2,
    ensures
        reaches(g, a, b, k2),
    decreases k1,
{
    if a != b {
        let j = choose|j: int|
            0 <= j < g.children_of(a).len() && reaches(g, g.children_of(a)[j] as int, b, (k1 - 1) as nat);
        lemma_reaches_mono(g, g.children_of(a)[j] as int, b, (k1 - 1) as nat, (k2 - 1) as nat);
    }
}

/// A sequence of cleared marks counts zero.
proof fn lemma_count_all_false(s: Seq<bool>)
    requires
        forall|i: int| 0 <= i < s.len() ==> !s[i],
    ensures
        count_marked(s) == 0,
    decreases s.len(),
{
    if s.len() > 0 {
        lemma_count_all_false(s.drop_last());
    }
}

impl Graph {
    /// Marks every node of `victims` dead and clears its links. The victim
    /// set must be closed under both child and parent links, so no surviving
    /// node references a victim.
    fn remove_set(&mut self, victims: &Vec<usize>)
        requires
            old(self).wf(),
            forall|i: int| 0 <= i < victims@.len() ==> old(self).is_live(
                #[trigger] victims@[i] as int,
            ),
            forall|i: int, j: int|
                0 <= i < victims@.len() && 0 <= j < old(self).children_of(
                    victims@[i] as int,
                ).len() ==> victims@.contains(
                    #[trigger] old(self).children_of(victims@[i] as int)[j],
                ),
            forall|i: int|
                0 <= i < victims@.len() && (#[trigger] old(self).parent_of(
                    victims@[i] as int,
                )) is Some ==> victims@.contains(
                    old(self).parent_of(victims@[i] as int).unwrap(),
                ),
        ensures
            final(self).wf(),
            final(self).node_count() == old(self).node_count(),
            forall|n: int|
                #[trigger] final(self).is_live(n) <==> (old(self).is_live(n) && !victims@.contains(
                    n as usize,
                )),
            forall|m: int|
                0 <= m < old(self).node_count() && !victims@.contains(m as usize) ==> old(
                    self,
                ).node_same(*final(self), m),
    {
        let _total = self.nodes.len();
        proof {
            assert(old(self).node_count() <= usize::MAX);
        }
        let mut i: usize = 0;
        let vlen = victims.len();
        while i < vlen
            invariant
                vlen == victims@.len(),
                i <= vlen,
                old(self).node_count() <= usize::MAX,
                self.node_count() == old(self).node_count(),
                forall|k: int| 0 <= k < victims@.len() ==> (#[trigger] victims@[k] as int) < old(
                    self,
                ).node_count(),
                forall|m: int|
                    0 <= m < old(self).node_count() && !victims@.take(i as int).contains(m as usize)
                        ==> self.nodes@[m] == old(self).nodes@[m],
                forall|k: int|
                    0 <= k < i ==> {
                        &&& !self.is_live(#[trigger] victims@[k] as int)
                        &&& self.parent_of(victims@[k] as int) is None
                        &&& self.children_of(victims@[k] as int).len() == 0
                    },
            decreases vlen - i,
        {
            let v = victims[i];
            let ghost pre = *self;
            let node = &mut self.nodes[v];
            node.alive = false;
            node.parent = None;
            node.children = Vec::new();
            proof {
                assert forall|m: int|
                    0 <= m < old(self).node_count() && !victims@.take(i + 1).contains(
                        m as usize,
                    ) implies self.nodes@[m] == old(self).nodes@[m] by {
                    assert(!victims@.take(i as int).contains(m as usize)) by {
                        if victims@.take(i as int).contains(m as usize) {
                            let ix = choose|ix: int|
                                0 <= ix < i && victims@.take(i as int)[ix] == m as usize;
                            assert(victims@.take(i + 1)[ix] == m as usize);
                        }
                    }
                    assert(m != v as int) by {
                        if m == v as int {
                            assert(victims@.take(i + 1)[i as int] == m as usize);
                        }
                    }
                    assert(pre.nodes@[m] == old(self).nodes@[m]);
                }
                assert forall|k: int|
                    0 <= k < i + 1 implies {
                    &&& !self.is_live(#[trigger] victims@[k] as int)
                    &&& self.parent_of(victims@[k] as int) is None
                    &&& self.children_of(victims@[k] as int).len() == 0
                } by {
                    if k < i && victims@[k] != v {
                        assert(self.nodes@[victims@[k] as int] == pre.nodes@[victims@[
                            k
                        ] as int]);
                        assert(!pre.is_live(victims@[k] as int));
                    }
                }
            }
            i += 1;
        }
        proof {
            assert(victims@.take(vlen as int) =~= victims@);
            assert forall|m: int|
                0 <= m < old(self).node_count() && !victims@.contains(m as usize) implies old(
                self,
            ).node_same(*self, m) by {
                assert(self.nodes@[m] == old(self).nodes@[m]);
            }
            assert(self.node_count() == old(self).node_count());
            assert forall|n: int| #[trigger] self.is_live(n) <==> (old(self).is_live(n)
                && !victims@.contains(n as usize)) by {
                if 0 <= n < old(self).node_count() {
                    if victims@.contains(n as usize) {
                        let ix = choose|ix: int|
                            0 <= ix < victims@.len() && victims@[ix] == n as usize;
                        assert(victims@[ix] as int == n);
                        assert(!self.is_live(victims@[ix] as int));
                        assert(!self.is_live(n));
                    } else {
                        assert(old(self).node_same(*self, n));
                        assert(self.is_live(n) == old(self).is_live(n));
                    }
                } else {
                    assert(!self.is_live(n));
                    assert(!old(self).is_live(n));
                }
            }
            self.lemma_remove_set_wf(*old(self), victims@);
        }
    }

    /// `self` arose from well-formed `g` by clearing a victim set closed
    /// under child and parent links.
    proof fn lemma_remove_set_wf(self, g: Graph, victims: Seq<usize>)
        requires
            g.wf(),
            g.node_count() <= usize::MAX,
            self.node_count() == g.node_count(),
            forall|i: int| 0 <= i < victims.len() ==> g.is_live(#[trigger] victims[i] as int),
            forall|i: int, j: int|
                0 <= i < victims.len() && 0 <= j < g.children_of(victims[i] as int).len()
                    ==> victims.contains(#[trigger] g.children_of(victims[i] as int)[j]),
            forall|i: int|
                0 <= i < victims.len() && (#[trigger] g.parent_of(victims[i] as int)) is Some
                    ==> victims.contains(g.parent_of(victims[i] as int).unwrap()),
            forall|n: int| #[trigger] self.is_live(n) <==> (g.is_live(n) && !victims.contains(
                n as usize,
            )),
            forall|i: int|
                0 <= i < victims.len() ==> {
                    &&& #[trigger] self.parent_of(victims[i] as int) is None
                    &&& self.children_of(victims[i] as int).len() == 0
                },
            forall|m: int|
                0 <= m < g.node_count() && !victims.contains(m as usize) ==> g.node_same(self, m),
        ensures
            self.wf(),
    {
        assert forall|n: int, jj: int|
            self.is_live(n) && 0 <= jj < self.children_of(n).len() implies {
            let cc = (#[trigger] self.children_of(n)[jj]) as int;
            &&& self.is_live(cc)
            &&& self.parent_of(cc) == Some(n as usize)
        } by {
            assert(!victims.contains(n as usize));
            assert(g.node_same(self, n));
            assert(g.is_live(n));
            let cc = self.children_of(n)[jj] as int;
            assert(g.children_of(n)[jj] == cc as usize);
            assert(g.is_live(cc) && g.parent_of(cc) == Some(n as usize));
            assert(!victims.contains(cc as usize)) by {
                if victims.contains(cc as usize) {
                    let ix = choose|ix: int| 0 <= ix < victims.len() && victims[ix] == cc as usize;
                    assert(g.parent_of(victims[ix] as int) is Some);
                    assert(victims.contains(g.parent_of(victims[ix] as int).unwrap()));
                    assert(victims.contains(n as usize));
                }
            }
            assert(g.node_same(self, cc));
        }
        assert forall|n: int|
            self.is_live(n) && (#[trigger] self.parent_of(n)) is Some implies {
            let pp = self.parent_of(n).unwrap() as int;
            &&& self.is_live(pp)
            &&& self.children_of(pp).contains(n as usize)
        } by {
            assert(!victims.contains(n as usize));
            assert(g.node_same(self, n));
            assert(g.is_live(n));
            let pp = self.parent_of(n).unwrap() as int;
            assert(g.parent_of(n) == self.parent_of(n));
            assert(g.is_live(pp) && g.children_of(pp).contains(n as usize));
            assert(!victims.contains(pp as usize)) by {
                if victims.contains(pp as usize) {
                    let ix = choose|ix: int| 0 <= ix < victims.len() && victims[ix] == pp as usize;
                    let jx = choose|jx: int|
                        0 <= jx < g.children_of(pp).len() && g.children_of(pp)[jx] == n as usize;
                    assert(g.children_of(victims[ix] as int)[jx] == n as usize);
                    assert(victims.contains(n as usize));
                }
            }
            assert(g.node_same(self, pp));
        }
        assert forall|n: int, j1: int, j2: int|
            self.is_live(n) && 0 <= j1 < self.children_of(n).len() && 0 <= j2 < self.children_of(
                n,
            ).len() && j1 != j2 implies #[trigger] self.children_of(n)[j1]
            != #[trigger] self.children_of(n)[j2] by {
            assert(!victims.contains(n as usize));
            assert(g.node_same(self, n));
            assert(g.is_live(n));
            assert(g.children_of(n)[j1] != g.children_of(n)[j2]);
        }
        assert forall|n: int|
            0 <= n < self.node_count() && !self.is_live(n) implies {
            &&& #[trigger] self.parent_of(n) is None
            &&& self.children_of(n).len() == 0
        } by {
            if victims.contains(n as usize) {
                let ix = choose|ix: int| 0 <= ix < victims.len() && victims[ix] == n as usize;
                assert(self.parent_of(victims[ix] as int) is None);
                assert(self.children_of(victims[ix] as int).len() == 0);
            } else {
                assert(g.node_same(self, n));
                assert(!g.is_live(n));
                assert(g.parent_of(n) is None && g.children_of(n).len() == 0);
            }
        }
        assert forall|n: int| self.is_live(n) implies #[trigger] self.parent_of(n) != Some(
            n as usize,
        ) by {
            assert(!victims.contains(n as usize));
            assert(g.node_same(self, n));
            assert(g.is_live(n));
            assert(g.parent_of(n) != Some(n as usize));
        }
    }
}

/// Children of subtree members are subtree members.
proof fn lemma_subtree_child(g: Graph, r: int, n: int, j: int)
    requires
        in_subtree(g, r, n),
        0 <= j < g.children_of(n).len(),
    ensures
        in_subtree(g, r, g.children_of(n)[j] as int),
{
    let k = choose|k: nat| reaches(g, r, n, k);
    let c = g.children_of(n)[j] as int;
    assert(reaches(g, c, c, 0));
    lemma_reaches_step(g, n, j, c, 0);
    lemma_reaches_trans(g, r, n, c, k, 1);
}

impl Graph {
    /// Removes the whole subtree rooted at live node `r`: unlinks `r` from
    /// its parent, then marks every subtree member dead. `victims` must be
    /// exactly the subtree's members, as returned by
    /// [`Graph::collect_subtree`]; the caller clears its own references to
    /// them first, while they are still live.
    pub fn remove_subtree(&mut self, r: usize, victims: &Vec<usize>)
        requires
            old(self).wf(),
            old(self).is_live(r as int),
            forall|n: usize| #[trigger] victims@.contains(n) <==> in_subtree(
                *old(self),
                r as int,
                n as int,
            ),
        ensures
            final(self).wf(),
            final(self).node_count() == old(self).node_count(),
            forall|n: int| #[trigger] final(self).is_live(n) <==> (old(self).is_live(n)
                && !in_subtree(*old(self), r as int, n)),
            forall|m: int|
                0 <= m < old(self).node_count() && !in_subtree(*old(self), r as int, m) && old(
                    self,
                ).parent_of(r as int) != Some(m as usize) ==> old(self).node_same(*final(self), m),
            match old(self).parent_of(r as int) {
                None => true,
                Some(p) => !in_subtree(*old(self), r as int, p as int) ==> {
                    &&& (exists|j: int|
                        0 <= j < old(self).children_of(p as int).len() && old(self).children_of(
                            p as int,
                        )[j] == r && final(self).children_of(p as int) == old(self).children_of(
                            p as int,
                        ).remove(j))
                    &&& final(self).is_live(p as int)
                    &&& final(self).parent_of(p as int) == old(self).parent_of(p as int)
                    &&& final(self).tag_of(p as int) == old(self).tag_of(p as int)
                    &&& final(self).attrs_of(p as int) == old(self).attrs_of(p as int)
                },
            },
    {
        let _total = self.nodes.len();
        proof {
            assert(old(self).node_count() <= usize::MAX);
            assert(reaches(*old(self), r as int, r as int, 0));
            assert(victims@.contains(r));
        }
        let det = self.detach(r);
        let ghost g0 = *old(self);
        let ghost g1 = *self;
        proof {
            assert forall|i: int| 0 <= i < victims@.len() implies g1.is_live(
                #[trigger] victims@[i] as int,
            ) by {
                let v = victims@[i];
                assert(victims@.contains(v));
                let k = choose|k: nat| reaches(g0, r as int, v as int, k);
                lemma_reaches_live(g0, r as int, v as int, k);
                if v != r && g0.parent_of(r as int) != Some(v) {
                    assert(g0.node_same(g1, v as int));
                }
            }
            assert forall|i: int, j: int|
                0 <= i < victims@.len() && 0 <= j < g1.children_of(victims@[i] as int).len()
                    implies victims@.contains(
                #[trigger] g1.children_of(victims@[i] as int)[j],
            ) by {
                let v = victims@[i];
                assert(victims@.contains(v));
                let c = g1.children_of(v as int)[j];
                // map the child back to a position in `g0`'s list
                if g0.parent_of(r as int) == Some(v) {
                    let jr = det.unwrap() as int;
                    assert(g1.children_of(v as int) == g0.children_of(v as int).remove(jr));
                    let jo = if j < jr {
                        j
                    } else {
                        j + 1
                    };
                    assert(g0.children_of(v as int)[jo] == c);
                    lemma_subtree_child(g0, r as int, v as int, jo);
                } else {
                    if v != r {
                        assert(g0.node_same(g1, v as int));
                    }
                    assert(g0.children_of(v as int)[j] == c);
                    lemma_subtree_child(g0, r as int, v as int, j);
                }
            }
            assert forall|i: int|
                0 <= i < victims@.len() && (#[trigger] g1.parent_of(victims@[i] as int)) is Some
                    implies victims@.contains(g1.parent_of(victims@[i] as int).unwrap()) by {
                let v = victims@[i];
                assert(victims@.contains(v));
                assert(v != r);
                if g0.parent_of(r as int) != Some(v) {
                    assert(g0.node_same(g1, v as int));
                }
                assert(g1.parent_of(v as int) == g0.parent_of(v as int));
                let k = choose|k: nat| reaches(g0, r as int, v as int, k);
                lemma_parent_in_subtree(g0, r as int, v as int, k);
            }
        }
        self.remove_set(victims);
        proof {
            assert forall|n: int| #[trigger] self.is_live(n) <==> (g0.is_live(n) && !in_subtree(
                g0,
                r as int,
                n,
            )) by {
                if 0 <= n < g0.node_count() {
                    assert(g1.is_live(n) == g0.is_live(n)) by {
                        if n != r as int && g0.parent_of(r as int) != Some(n as usize) {
                            assert(g0.node_same(g1, n));
                        }
                    }
                    if in_subtree(g0, r as int, n) {
                        assert(victims@.contains(n as usize));
                    } else {
                        assert(!victims@.contains(n as usize));
                    }
                } else {
                    assert(!self.is_live(n));
                    assert(!g0.is_live(n));
                    if in_subtree(g0, r as int, n) {
                        let k = choose|k: nat| reaches(g0, r as int, n, k);
                        lemma_reaches_live(g0, r as int, n, k);
                    }
                }
            }
            assert forall|m: int|
                0 <= m < g0.node_count() && !in_subtree(g0, r as int, m) && g0.parent_of(r as int)
                    != Some(m as usize) implies g0.node_same(*self, m) by {
                assert(m != r as int) by {
                    assert(reaches(g0, r as int, r as int, 0));
                }
                assert(g0.node_same(g1, m));
                assert(!victims@.contains(m as usize)) by {
                    if victims@.contains(m as usize) {
                        assert(in_subtree(g0, r as int, m as usize as int));
                    }
                }
                assert(g1.node_same(*self, m));
            }
            match g0.parent_of(r as int) {
                None => {},
                Some(p) => {
                    if !in_subtree(g0, r as int, p as int) {
                        assert(g0.is_live(p as int));
                        let jr = det.unwrap() as int;
                        assert(!victims@.contains(p)) by {
                            if victims@.contains(p) {
                                assert(in_subtree(g0, r as int, p as int));
                            }
                        }
                        assert(g1.node_same(*self, p as int));
                        assert(0 <= jr < g0.children_of(p as int).len() && g0.children_of(
                            p as int,
                        )[jr] == r && self.children_of(p as int) == g0.children_of(
                            p as int,
                        ).remove(jr));
                    }
                },
            }
        }
    }

    /// Splices the detached live nodes `cs`, in order, into live node `p`'s
    /// child list starting at position `at`.
    pub fn splice(&mut self, p: usize, at: usize, cs: &Vec<usize>)
        requires
            old(self).wf(),
            old(self).is_live(p as int),
            at <= old(self).children_of(p as int).len(),
            forall|i: int|
                0 <= i < cs@.len() ==> {
                    &&& old(self).is_live(#[trigger] cs@[i] as int)
                    &&& old(self).parent_of(cs@[i] as int) is None
                    &&& cs@[i] != p
                },
            forall|i1: int, i2: int|
                0 <= i1 < cs@.len() && 0 <= i2 < cs@.len() && i1 != i2 ==> cs@[i1] != cs@[i2],
        ensures
            final(self).wf(),
            final(self).node_count() == old(self).node_count(),
            final(self).children_of(p as int) == old(self).children_of(p as int).take(at as int)
                + cs@ + old(self).children_of(p as int).skip(at as int),
            forall|i: int| 0 <= i < cs@.len() ==> final(self).parent_of(#[trigger] cs@[i] as int)
                == Some(p),
            forall|i: int|
                0 <= i < cs@.len() ==> {
                    &&& final(self).is_live(#[trigger] cs@[i] as int)
                    &&& final(self).children_of(cs@[i] as int) == old(self).children_of(
                        cs@[i] as int,
                    )
                    &&& final(self).tag_of(cs@[i] as int) == old(self).tag_of(cs@[i] as int)
                    &&& final(self).attrs_of(cs@[i] as int) == old(self).attrs_of(cs@[i] as int)
                },
            final(self).is_live(p as int),
            final(self).parent_of(p as int) == old(self).parent_of(p as int),
            final(self).tag_of(p as int) == old(self).tag_of(p as int),
            final(self).attrs_of(p as int) == old(self).attrs_of(p as int),
            forall|m: int|
                0 <= m < old(self).node_count() && m != p && !cs@.contains(m as usize) ==> old(
                    self,
                ).node_same(*final(self), m),
            forall|x: int|
                0 <= x < old(self).node_count() ==> #[trigger] final(self).is_live(x) == old(
                    self,
                ).is_live(x),
            forall|x: int|
                0 <= x < old(self).node_count() ==> #[trigger] final(self).tag_of(x) == old(
                    self,
                ).tag_of(x),
            forall|x: int|
                0 <= x < old(self).node_count() ==> #[trigger] final(self).attrs_of(x) == old(
                    self,
                ).attrs_of(x),
            forall|x: int|
                0 <= x < old(self).node_count() && x != p ==> #[trigger] final(self).children_of(
                    x,
                ) == old(self).children_of(x),
            forall|x: int|
                0 <= x < old(self).node_count() && !cs@.contains(x as usize)
                    ==> #[trigger] final(self).parent_of(x) == old(self).parent_of(x),
    {
        let _total = self.nodes.len();
        proof {
            assert(old(self).node_count() <= usize::MAX);
            assert(old(self).children_of(p as int).take(at as int) + cs@.take(0) + old(
                self,
            ).children_of(p as int).skip(at as int) =~= old(self).children_of(p as int));
        }
        let mut k: usize = 0;
        let clen = cs.len();
        while k < clen
            invariant
                clen == cs@.len(),
                k <= clen,
                old(self).node_count() <= usize::MAX,
                self.wf(),
                self.node_count() == old(self).node_count(),
                self.is_live(p as int),
                at <= old(self).children_of(p as int).len(),
                at + k <= self.children_of(p as int).len(),
                self.children_of(p as int) == old(self).children_of(p as int).take(at as int)
                    + cs@.take(k as int) + old(self).children_of(p as int).skip(at as int),
                self.parent_of(p as int) == old(self).parent_of(p as int),
                self.tag_of(p as int) == old(self).tag_of(p as int),
                self.attrs_of(p as int) == old(self).attrs_of(p as int),
                forall|i: int|
                    0 <= i < cs@.len() ==> {
                        &&& self.is_live(#[trigger] cs@[i] as int)
                        &&& self.children_of(cs@[i] as int) == old(self).children_of(
                            cs@[i] as int,
                        )
                        &&& self.tag_of(cs@[i] as int) == old(self).tag_of(cs@[i] as int)
                        &&& self.attrs_of(cs@[i] as int) == old(self).attrs_of(cs@[i] as int)
                    },
                forall|i: int| 0 <= i < k ==> self.parent_of(#[trigger] cs@[i] as int) == Some(p),
                forall|i: int| k <= i < cs@.len() ==> self.parent_of(
                    #[trigger] cs@[i] as int,
                ) is None,
                forall|i: int| 0 <= i < cs@.len() ==> cs@[i] != p,
                forall|i1: int, i2: int|
                    0 <= i1 < cs@.len() && 0 <= i2 < cs@.len() && i1 != i2 ==> cs@[i1] != cs@[i2],
                forall|m: int|
                    0 <= m < old(self).node_count() && m != p && !cs@.contains(m as usize) ==> old(
                        self,
                    ).node_same(*self, m),
            decreases clen - k,
        {
            let c = cs[k];
            let ghost gpre = *self;
            let cur_len = self.children_len(p);
            proof {
                assert(at + k <= cur_len);
            }
            self.attach(p, at + k, c);
            proof {
                assert(self.children_of(p as int) =~= old(self).children_of(p as int).take(
                    at as int,
                ) + cs@.take(k as int + 1) + old(self).children_of(p as int).skip(at as int)) by {
                    assert(self.children_of(p as int) == gpre.children_of(p as int).insert(
                        at + k,
                        c,
                    ));
                }
                assert forall|i: int| 0 <= i < cs@.len() implies {
                    &&& self.is_live(#[trigger] cs@[i] as int)
                    &&& self.children_of(cs@[i] as int) == old(self).children_of(cs@[i] as int)
                    &&& self.tag_of(cs@[i] as int) == old(self).tag_of(cs@[i] as int)
                    &&& self.attrs_of(cs@[i] as int) == old(self).attrs_of(cs@[i] as int)
                } by {
                    if cs@[i] != c {
                        assert(gpre.node_same(*self, cs@[i] as int));
                    }
                }
                assert forall|i: int| 0 <= i < k + 1 implies self.parent_of(
                    #[trigger] cs@[i] as int,
                ) == Some(p) by {
                    if i < k {
                        assert(cs@[i] != c);
                        assert(gpre.node_same(*self, cs@[i] as int));
                    }
                }
                assert forall|i: int| k + 1 <= i < cs@.len() implies self.parent_of(
                    #[trigger] cs@[i] as int,
                ) is None by {
                    assert(cs@[i] != c);
                    assert(gpre.node_same(*self, cs@[i] as int));
                }
                assert forall|m: int|
                    0 <= m < old(self).node_count() && m != p && !cs@.contains(m as usize) implies
                    old(self).node_same(*self, m) by {
                    assert(m != c as int) by {
                        if m == c as int {
                            assert(cs@.contains(c));
                        }
                    }
                    assert(old(self).node_same(gpre, m));
                    assert(gpre.node_same(*self, m));
                }
            }
            k += 1;
        }
        proof {
            assert(cs@.take(clen as int) =~= cs@);
            assert forall|x: int| 0 <= x < old(self).node_count() implies #[trigger] self.is_live(
                x,
            ) == old(self).is_live(x) by {
                if cs@.contains(x as usize) {
                    let ix = choose|ix: int| 0 <= ix < cs@.len() && cs@[ix] == x as usize;
                    assert(self.is_live(cs@[ix] as int));
                    assert(old(self).is_live(cs@[ix] as int));
                } else if x != p as int {
                    assert(old(self).node_same(*self, x));
                }
            }
            assert forall|x: int| 0 <= x < old(self).node_count() implies #[trigger] self.tag_of(
                x,
            ) == old(self).tag_of(x) by {
                if cs@.contains(x as usize) {
                    let ix = choose|ix: int| 0 <= ix < cs@.len() && cs@[ix] == x as usize;
                    assert(self.tag_of(cs@[ix] as int) == old(self).tag_of(cs@[ix] as int));
                } else if x != p as int {
                    assert(old(self).node_same(*self, x));
                }
            }
            assert forall|x: int| 0 <= x < old(self).node_count() implies #[trigger] self.attrs_of(
                x,
            ) == old(self).attrs_of(x) by {
                if cs@.contains(x as usize) {
                    let ix = choose|ix: int| 0 <= ix < cs@.len() && cs@[ix] == x as usize;
                    assert(self.attrs_of(cs@[ix] as int) == old(self).attrs_of(cs@[ix] as int));
                } else if x != p as int {
                    assert(old(self).node_same(*self, x));
                }
            }
            assert forall|x: int|
                0 <= x < old(self).node_count() && x != p implies #[trigger] self.children_of(x)
                    == old(self).children_of(x) by {
                if cs@.contains(x as usize) {
                    let ix = choose|ix: int| 0 <= ix < cs@.len() && cs@[ix] == x as usize;
                    assert(self.children_of(cs@[ix] as int) == old(self).children_of(
                        cs@[ix] as int,
                    ));
                } else {
                    assert(old(self).node_same(*self, x));
                }
            }
            assert forall|x: int|
                0 <= x < old(self).node_count() && !cs@.contains(x as usize) implies
                #[trigger] self.parent_of(x) == old(self).parent_of(x) by {
                if x != p as int {
                    assert(old(self).node_same(*self, x));
                }
            }
        }
    }
}

/// `s` with every member of `cs` removed, order kept.
pub open spec fn seq_without(s: Seq<usize>, cs: Seq<usize>) -> Seq<usize> {
    s.filter(|e: usize| !cs.contains(e))
}

/// Filtering keeps a sequence whose members all satisfy the predicate.
pub proof fn lemma_filter_all_true(s: Seq<usize>, pred: spec_fn(usize) -> bool)
    requires
        forall|i: int| 0 <= i < s.len() ==> pred(#[trigger] s[i]),
    ensures
        s.filter(pred) == s,
    decreases s.len(),
{
    reveal(Seq::filter);
    if s.len() > 0 {
        lemma_filter_all_true(s.drop_last(), pred);
        assert(s.drop_last().filter(pred).push(s.last()) =~= s);
    }
}

/// Removing the one occurrence of `c` from a duplicate-free sequence is
/// filtering `c` out.
proof fn lemma_nodup_remove_is_filter(t: Seq<usize>, j: int, c: usize)
    requires
        0 <= j < t.len(),
        t[j] == c,
        forall|i1: int, i2: int| 0 <= i1 < t.len() && 0 <= i2 < t.len() && i1 != i2 ==> t[i1]
            != t[i2],
    ensures
        t.remove(j) == t.filter(|e: usize| e != c),
    decreases t.len(),
{
    reveal(Seq::filter);
    let pred = |e: usize| e != c;
    if j == t.len() - 1 {
        assert(t.remove(j) =~= t.drop_last());
        assert(!pred(t.last()));
        lemma_filter_all_true(t.drop_last(), pred);
    } else {
        let d = t.drop_last();
        assert(d[j] == c);
        lemma_nodup_remove_is_filter(d, j, c);
        assert(pred(t.last()));
        assert(t.filter(pred) == d.filter(pred).push(t.last()));
        assert(t.remove(j) =~= d.remove(j).push(t.last()));
    }
}

/// Filtering twice is filtering by the conjunction.
proof fn lemma_filter_filter(s: Seq<usize>, p1: spec_fn(usize) -> bool, p2: spec_fn(usize) -> bool)
    ensures
        s.filter(p1).filter(p2) == s.filter(|e: usize| p1(e) && p2(e)),
    decreases s.len(),
{
    reveal(Seq::filter);
    let pq = |e: usize| p1(e) && p2(e);
    if s.len() == 0 {
        assert(s.filter(p1) =~= s);
    } else {
        let d = s.drop_last();
        lemma_filter_filter(d, p1, p2);
        if p1(s.last()) {
            let f1 = d.filter(p1).push(s.last());
            assert(s.filter(p1) == f1);
            assert(f1.drop_last() =~= d.filter(p1));
            assert(f1.last() == s.last());
            if p2(s.last()) {
                assert(f1.filter(p2) == d.filter(p1).filter(p2).push(s.last()));
            } else {
                assert(f1.filter(p2) == d.filter(p1).filter(p2));
            }
        }
    }
}

/// Filtering by two pointwise-equal predicates gives the same sequence.
proof fn lemma_filter_congruent(s: Seq<usize>, p1: spec_fn(usize) -> bool, p2: spec_fn(usize) -> bool)
    requires
        forall|e: usize| #[trigger] p1(e) == p2(e),
    ensures
        s.filter(p1) == s.filter(p2),
    decreases s.len(),
{
    reveal(Seq::filter);
    if s.len() > 0 {
        lemma_filter_congruent(s.drop_last(), p1, p2);
    }
}

impl Graph {
    /// Unlinks each of the live, pairwise-distinct nodes `cs` from its
    /// parent. Afterwards every child list is its old value with the members
    /// of `cs` filtered out, and each node of `cs` is parentless.
    pub fn detach_each(&mut self, cs: &Vec<usize>)
        requires
            old(self).wf(),
            forall|i: int| 0 <= i < cs@.len() ==> old(self).is_live(#[trigger] cs@[i] as int),
            forall|i1: int, i2: int|
                0 <= i1 < cs@.len() && 0 <= i2 < cs@.len() && i1 != i2 ==> cs@[i1] != cs@[i2],
        ensures
            final(self).wf(),
            final(self).node_count() == old(self).node_count(),
            forall|i: int| 0 <= i < cs@.len() ==> final(self).parent_of(
                #[trigger] cs@[i] as int,
            ) is None,
            forall|x: int|
                0 <= x < old(self).node_count() ==> #[trigger] final(self).children_of(x)
                    == seq_without(old(self).children_of(x), cs@),
            forall|x: int|
                0 <= x < old(self).node_count() && !cs@.contains(x as usize)
                    ==> #[trigger] final(self).parent_of(x) == old(self).parent_of(x),
            forall|x: int|
                0 <= x < old(self).node_count() ==> #[trigger] final(self).is_live(x) == old(
                    self,
                ).is_live(x),
            forall|x: int|
                0 <= x < old(self).node_count() ==> #[trigger] final(self).tag_of(x) == old(
                    self,
                ).tag_of(x),
            forall|x: int|
                0 <= x < old(self).node_count() ==> #[trigger] final(self).attrs_of(x) == old(
                    self,
                ).attrs_of(x),
    {
        let _total = self.nodes.len();
        proof {
            assert(old(self).node_count() <= usize::MAX);
            assert forall|x: int| 0 <= x < old(self).node_count() implies self.children_of(x)
                == seq_without(old(self).children_of(x), cs@.take(0)) by {
                assert(cs@.take(0) =~= Seq::<usize>::empty());
                lemma_filter_all_true(
                    self.children_of(x),
                    |e: usize| !cs@.take(0).contains(e),
                );
            }
        }
        let clen = cs.len();
        let mut k: usize = 0;
        while k < clen
            invariant
                clen == cs@.len(),
                k <= clen,
                old(self).node_count() <= usize::MAX,
                self.wf(),
                self.node_count() == old(self).node_count(),
                forall|i: int| 0 <= i < cs@.len() ==> old(self).is_live(#[trigger] cs@[i] as int),
                forall|i1: int, i2: int|
                    0 <= i1 < cs@.len() && 0 <= i2 < cs@.len() && i1 != i2 ==> cs@[i1] != cs@[i2],
                forall|i: int| 0 <= i < k ==> self.parent_of(#[trigger] cs@[i] as int) is None,
                forall|x: int|
                    0 <= x < old(self).node_count() ==> self.children_of(x) == seq_without(
                        old(self).children_of(x),
                        cs@.take(k as int),
                    ),
                forall|x: int|
                    0 <= x < old(self).node_count() && !cs@.contains(x as usize) ==> self.parent_of(
                        x,
                    ) == old(self).parent_of(x),
                forall|x: int|
                    0 <= x < old(self).node_count() ==> {
                        &&& self.is_live(x) == old(self).is_live(x)
                        &&& self.tag_of(x) == old(self).tag_of(x)
                        &&& self.attrs_of(x) == old(self).attrs_of(x)
                    },
                forall|i: int| k <= i < cs@.len() ==> self.parent_of(#[trigger] cs@[i] as int)
                    == old(self).parent_of(cs@[i] as int),
            decreases clen - k,
        {
            let c = cs[k];
            let ghost gpre = *self;
            let det = self.detach(c);
            proof {
                let excl_k = |e: usize| !cs@.take(k as int).contains(e);
                let excl_k1 = |e: usize| !cs@.take(k as int + 1).contains(e);
                let notc = |e: usize| e != c;
                assert forall|e: usize| #[trigger] excl_k1(e) == (excl_k(e) && notc(e)) by {
                    assert(cs@.take(k as int + 1) =~= cs@.take(k as int).push(c));
                    if cs@.take(k as int + 1).contains(e) {
                        let ix = choose|ix: int|
                            0 <= ix < k + 1 && #[trigger] cs@.take(k as int + 1)[ix] == e;
                        if ix < k {
                            assert(cs@.take(k as int)[ix] == e);
                        }
                    } else {
                        assert(!cs@.take(k as int).contains(e)) by {
                            if cs@.take(k as int).contains(e) {
                                let ix = choose|ix: int|
                                    0 <= ix < k && cs@.take(k as int)[ix] == e;
                                assert(cs@.take(k as int + 1)[ix] == e);
                            }
                        }
                        assert(e != c) by {
                            if e == c {
                                assert(cs@.take(k as int + 1)[k as int] == c);
                            }
                        }
                    }
                }
                assert forall|x: int|
                    0 <= x < old(self).node_count() implies self.children_of(x) == seq_without(
                    old(self).children_of(x),
                    cs@.take(k as int + 1),
                ) by {
                    let s0 = old(self).children_of(x);
                    let t = gpre.children_of(x);
                    assert(t == s0.filter(excl_k));
                    match gpre.parent_of(c as int) {
                        None => {
                            assert(self.children_of(x) == t) by {
                                if x != c as int && gpre.parent_of(c as int) != Some(x as usize) {
                                    assert(gpre.node_same(*self, x));
                                }
                            }
                            assert(!t.contains(c)) by {
                                if t.contains(c) {
                                    let ix = choose|ix: int| 0 <= ix < t.len() && t[ix] == c;
                                    if gpre.is_live(x) {
                                        assert(gpre.parent_of(c as int) == Some(x as usize));
                                    } else {
                                        assert(gpre.children_of(x).len() == 0) by {
                                            assert(s0.len() == 0 || !gpre.is_live(x));
                                            if gpre.is_live(x) {
                                            }
                                        }
                                        assert(t.len() <= s0.len()) by {
                                            Seq::lemma_filter_len(s0, excl_k);
                                        }
                                    }
                                }
                            }
                            lemma_filter_all_true(t, notc);
                            lemma_filter_filter(s0, excl_k, notc);
                            lemma_filter_congruent(s0, |e: usize| excl_k(e) && notc(e), excl_k1);
                            assert(t.filter(notc) == t);
                        },
                        Some(q) => {
                            if x == q as int {
                                let j = det.unwrap() as int;
                                assert(self.children_of(x) == t.remove(j));
                                assert(t[j] == c);
                                assert forall|i1: int, i2: int|
                                    0 <= i1 < t.len() && 0 <= i2 < t.len() && i1 != i2 implies t[
                                    i1
                                ] != t[i2] by {
                                    assert(gpre.is_live(x));
                                }
                                lemma_nodup_remove_is_filter(t, j, c);
                                lemma_filter_filter(s0, excl_k, notc);
                                lemma_filter_congruent(
                                    s0,
                                    |e: usize| excl_k(e) && notc(e),
                                    excl_k1,
                                );
                            } else {
                                assert(self.children_of(x) == t) by {
                                    if x != c as int {
                                        assert(gpre.node_same(*self, x));
                                    }
                                }
                                assert(!t.contains(c)) by {
                                    if t.contains(c) {
                                        let ix = choose|ix: int| 0 <= ix < t.len() && t[ix] == c;
                                        assert(gpre.is_live(x) || t.len() == 0) by {
                                            if !gpre.is_live(x) {
                                                Seq::lemma_filter_len(s0, excl_k);
                                            }
                                        }
                                        assert(gpre.parent_of(c as int) == Some(x as usize));
                                    }
                                }
                                lemma_filter_all_true(t, notc);
                                lemma_filter_filter(s0, excl_k, notc);
                                lemma_filter_congruent(
                                    s0,
                                    |e: usize| excl_k(e) && notc(e),
                                    excl_k1,
                                );
                            }
                        },
                    }
                }
                assert forall|x: int|
                    0 <= x < old(self).node_count() && !cs@.contains(x as usize) implies
                    self.parent_of(x) == old(self).parent_of(x) by {
                    assert(x != c as int) by {
                        if x == c as int {
                            assert(cs@[k as int] == c);
                            assert(cs@.contains(c));
                        }
                    }
                    if gpre.parent_of(c as int) != Some(x as usize) {
                        assert(gpre.node_same(*self, x));
                    }
                }
                assert forall|x: int|
                    0 <= x < old(self).node_count() implies {
                    &&& self.is_live(x) == old(self).is_live(x)
                    &&& self.tag_of(x) == old(self).tag_of(x)
                    &&& self.attrs_of(x) == old(self).attrs_of(x)
                } by {
                    if x != c as int && gpre.parent_of(c as int) != Some(x as usize) {
                        assert(gpre.node_same(*self, x));
                    }
                }
                assert forall|i: int| k + 1 <= i < cs@.len() implies self.parent_of(
                    #[trigger] cs@[i] as int,
                ) == old(self).parent_of(cs@[i] as int) by {
                    assert(cs@[i] != c);
                    if gpre.parent_of(c as int) != Some(cs@[i]) {
                        assert(gpre.node_same(*self, cs@[i] as int));
                    } else {
                        assert(gpre.is_live(cs@[i] as int));
                        assert(self.parent_of(cs@[i] as int) == gpre.parent_of(cs@[i] as int));
                    }
                }
                assert forall|i: int| 0 <= i < k + 1 implies self.parent_of(
                    #[trigger] cs@[i] as int,
                ) is None by {
                    if i < k {
                        assert(gpre.parent_of(cs@[i] as int) is None);
                        if gpre.parent_of(c as int) != Some(cs@[i]) {
                            assert(gpre.node_same(*self, cs@[i] as int));
                        }
                    }
                }
            }
            k += 1;
        }
        proof {
            assert(cs@.take(clen as int) =~= cs@);
        }
    }
}

/// The node reached from `n` by walking the child-index `path`, resolved
/// against the live children at each step.
pub open spec fn resolve_path(g: Graph, n: int, path: Seq<u8>) -> Option<int>
    decreases path.len(),
{
    if !g.is_live(n) {
        None
    } else if path.len() == 0 {
        Some(n)
    } else {
        let j = path[0] as int;
        if j < g.children_of(n).len() {
            resolve_path(g, g.children_of(n)[j] as int, path.skip(1))
        } else {
            None
        }
    }
}

impl Graph {
    /// Walks the child-index `path` from live node `n` (executable form of
    /// [`resolve_path`]).
    pub fn resolve(&self, n: usize, path: &Vec<u8>) -> (r: Option<usize>)
        requires
            self.wf(),
            self.is_live(n as int),
        ensures
            r == (match resolve_path(*self, n as int, path@) {
                Some(x) => Some(x as usize),
                None => None::<usize>,
            }),
            r is Some ==> self.is_live(r.unwrap() as int),
    {
        let plen = path.len();
        let mut cur = n;
        let mut i: usize = 0;
        proof {
            assert(path@.skip(0) =~= path@);
        }
        while i < plen
            invariant
                i <= plen,
                plen == path@.len(),
                self.wf(),
                self.is_live(cur as int),
                resolve_path(*self, n as int, path@) == resolve_path(
                    *self,
                    cur as int,
                    path@.skip(i as int),
                ),
            decreases plen - i,
        {
            let j = path[i] as usize;
            proof {
                assert(path@.skip(i as int)[0] == path@[i as int]);
                assert(path@.skip(i as int).skip(1) =~= path@.skip(i + 1));
            }
            if j >= self.children_len(cur) {
                proof {
                    assert(resolve_path(*self, cur as int, path@.skip(i as int)) is None);
                }
                return None;
            }
            cur = self.child_at(cur, j);
            i += 1;
        }
        proof {
            assert(path@.skip(plen as int) =~= Seq::<u8>::empty());
            assert(resolve_path(*self, cur as int, path@.skip(plen as int)) == Some(cur as int));
        }
        Some(cur)
    }
}

} // verus!
