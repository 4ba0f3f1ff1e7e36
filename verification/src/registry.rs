//! A bijective table between two sets of small integers, with O(1) lookup in
//! both directions.
//!
//! The engine keeps two of these per root: the identifier registry mapping
//! externally issued node ids to graph nodes, and the back-reference table
//! mapping handles to the graph nodes they observe.

use vstd::prelude::*;

verus! {

broadcast use vstd::std_specs::hash::group_hash_axioms;

/// A pair table: `fwd` maps keys to values, `bwd` maps each bound value back
/// to its key. At all times the two maps are inverses of one another.
pub struct BiMap {
    fwd: vstd::hash_map::HashMapWithView<usize, usize>,
    bwd: vstd::hash_map::HashMapWithView<usize, usize>,
}

impl BiMap {
    /// The forward view: keys to values.
    pub closed spec fn fwd(self) -> Map<usize, usize> {
        self.fwd@
    }

    /// The backward view: values to keys.
    pub closed spec fn bwd(self) -> Map<usize, usize> {
        self.bwd@
    }

    /// The two directions agree: `fwd[k] == v` exactly when `bwd[v] == k`.
    pub open spec fn wf(self) -> bool {
        &&& forall|k: usize|
            #[trigger] self.fwd().contains_key(k) ==> self.bwd().contains_key(self.fwd()[k])
                && self.bwd()[self.fwd()[k]] == k
        &&& forall|v: usize|
            #[trigger] self.bwd().contains_key(v) ==> self.fwd().contains_key(self.bwd()[v])
                && self.fwd()[self.bwd()[v]] == v
    }

    /// An empty table.
    pub fn new() -> (r: BiMap)
        ensures
            r.wf(),
            r.fwd() == Map::<usize, usize>::empty(),
            r.bwd() == Map::<usize, usize>::empty(),
    {
        BiMap {
            fwd: vstd::hash_map::HashMapWithView::new(),
            bwd: vstd::hash_map::HashMapWithView::new(),
        }
    }

    /// The value bound to key `k`, if any.
    pub fn get(&self, k: usize) -> (r: Option<usize>)
        ensures
            r == (if self.fwd().contains_key(k) {
                Some(self.fwd()[k])
            } else {
                None::<usize>
            }),
    {
        match self.fwd.get(&k) {
            Some(v) => Some(*v),
            None => None,
        }
    }

    /// The key bound to value `v`, if any.
    pub fn get_back(&self, v: usize) -> (r: Option<usize>)
        ensures
            r == (if self.bwd().contains_key(v) {
                Some(self.bwd()[v])
            } else {
                None::<usize>
            }),
    {
        match self.bwd.get(&v) {
            Some(k) => Some(*k),
            None => None,
        }
    }

    /// Binds `k` to `v`, displacing any prior binding of `k` and any prior
    /// binding of `v`.
    pub fn bind(&mut self, k: usize, v: usize)
        requires
            old(self).wf(),
        ensures
            final(self).wf(),
            final(self).fwd() == (match old(self).bwd().contains_key(v) {
                true => old(self).fwd().remove(old(self).bwd()[v]),
                false => old(self).fwd(),
            }).insert(k, v),
            final(self).bwd() == (match old(self).fwd().contains_key(k) {
                true => old(self).bwd().remove(old(self).fwd()[k]),
                false => old(self).bwd(),
            }).insert(v, k),
    {
        let stale_v = match self.fwd.get(&k) {
            Some(sv) => Some(*sv),
            None => None,
        };
        let stale_k = match self.bwd.get(&v) {
            Some(sk) => Some(*sk),
            None => None,
        };
        if let Some(sv) = stale_v {
            self.bwd.remove(&sv);
        }
        if let Some(sk) = stale_k {
            self.fwd.remove(&sk);
        }
        self.fwd.insert(k, v);
        self.bwd.insert(v, k);
        proof {
            let g = *old(self);
            assert(self.fwd() =~= (match g.bwd().contains_key(v) {
                true => g.fwd().remove(g.bwd()[v]),
                false => g.fwd(),
            }).insert(k, v));
            assert(self.bwd() =~= (match g.fwd().contains_key(k) {
                true => g.bwd().remove(g.fwd()[k]),
                false => g.bwd(),
            }).insert(v, k));
            assert forall|kk: usize| #[trigger] self.fwd().contains_key(kk) implies
                self.bwd().contains_key(self.fwd()[kk]) && self.bwd()[self.fwd()[kk]] == kk by {
                if kk != k {
                    assert(g.fwd().contains_key(kk) && g.fwd()[kk] == self.fwd()[kk]);
                    assert(g.bwd().contains_key(g.fwd()[kk]) && g.bwd()[g.fwd()[kk]] == kk);
                }
            }
            assert forall|vv: usize| #[trigger] self.bwd().contains_key(vv) implies
                self.fwd().contains_key(self.bwd()[vv]) && self.fwd()[self.bwd()[vv]] == vv by {
                if vv != v {
                    assert(g.bwd().contains_key(vv) && g.bwd()[vv] == self.bwd()[vv]);
                    assert(g.fwd().contains_key(g.bwd()[vv]) && g.fwd()[g.bwd()[vv]] == vv);
                }
            }
        }
    }

    /// Removes the binding whose value is `v`, if there is one.
    pub fn remove_by_value(&mut self, v: usize)
        requires
            old(self).wf(),
        ensures
            final(self).wf(),
            final(self).bwd() == old(self).bwd().remove(v),
            final(self).fwd() == (match old(self).bwd().contains_key(v) {
                true => old(self).fwd().remove(old(self).bwd()[v]),
                false => old(self).fwd(),
            }),
    {
        let stale_k = match self.bwd.get(&v) {
            Some(sk) => Some(*sk),
            None => None,
        };
        if let Some(sk) = stale_k {
            self.fwd.remove(&sk);
        }
        self.bwd.remove(&v);
        proof {
            let g = *old(self);
            if !g.bwd().contains_key(v) {
                assert(self.bwd() =~= g.bwd().remove(v));
            }
            assert forall|kk: usize| #[trigger] self.fwd().contains_key(kk) implies
                self.bwd().contains_key(self.fwd()[kk]) && self.bwd()[self.fwd()[kk]] == kk by {
                assert(g.fwd().contains_key(kk) && g.fwd()[kk] == self.fwd()[kk]);
            }
            assert forall|vv: usize| #[trigger] self.bwd().contains_key(vv) implies
                self.fwd().contains_key(self.bwd()[vv]) && self.fwd()[self.bwd()[vv]] == vv by {
                assert(g.bwd().contains_key(vv) && g.bwd()[vv] == self.bwd()[vv]);
            }
        }
    }

    /// Removes the binding whose key is `k`, if there is one.
    pub fn remove_by_key(&mut self, k: usize)
        requires
            old(self).wf(),
        ensures
            final(self).wf(),
            final(self).fwd() == old(self).fwd().remove(k),
            final(self).bwd() == (match old(self).fwd().contains_key(k) {
                true => old(self).bwd().remove(old(self).fwd()[k]),
                false => old(self).bwd(),
            }),
    {
        let stale_v = match self.fwd.get(&k) {
            Some(sv) => Some(*sv),
            None => None,
        };
        if let Some(sv) = stale_v {
            self.bwd.remove(&sv);
        }
        self.fwd.remove(&k);
        proof {
            let g = *old(self);
            if !g.fwd().contains_key(k) {
                assert(self.fwd() =~= g.fwd().remove(k));
            }
            assert forall|kk: usize| #[trigger] self.fwd().contains_key(kk) implies
                self.bwd().contains_key(self.fwd()[kk]) && self.bwd()[self.fwd()[kk]] == kk by {
                assert(g.fwd().contains_key(kk) && g.fwd()[kk] == self.fwd()[kk]);
            }
            assert forall|vv: usize| #[trigger] self.bwd().contains_key(vv) implies
                self.fwd().contains_key(self.bwd()[vv]) && self.fwd()[self.bwd()[vv]] == vv by {
                assert(g.bwd().contains_key(vv) && g.bwd()[vv] == self.bwd()[vv]);
            }
        }
    }
}

} // verus!
