//! The subscription registry: which reactive scopes depend on which
//! observable host state, and the per-tick dirty set.
//!
//! A scope registers into exactly the tables matching what it reads: a named
//! resource, an event kind, or the catch-all "any world or query change"
//! class. Registration is paired with deregistration at scope teardown;
//! [`EcsSubscriptions::remove_scope`] releases every table at once. Entries
//! whose scope set becomes empty are deleted, never left as residue.
//!
//! Each tick, before any diff is requested, the dirty set is computed: all
//! catch-all scopes, the scopes of every resource whose version changed
//! since it was last observed, and the scopes of every event kind that
//! currently has events. Marking a scope dirty is the only signal that makes
//! the external diff engine recompute it.

use vstd::prelude::*;

verus! {

broadcast use vstd::std_specs::hash::group_hash_axioms;

/// Whether some entry of `entries` has key `key` and lists scope `s`.
pub open spec fn entry_subscribes(entries: Seq<(usize, Vec<usize>)>, key: usize, s: usize) -> bool {
    exists|i: int|
        0 <= i < entries.len() && (#[trigger] entries[i]).0 == key && entries[i].1@.contains(s)
}

/// Whether `s` appears in `v`.
fn vec_has(v: &Vec<usize>, s: usize) -> (r: bool)
    ensures
        r == v@.contains(s),
{
    let len = v.len();
    let mut i: usize = 0;
    while i < len
        invariant
            i <= len,
            len == v@.len(),
            forall|j: int| 0 <= j < i ==> v@[j] != s,
        decreases len - i,
    {
        if v[i] == s {
            return true;
        }
        i += 1;
    }
    proof {
        if v@.contains(s) {
            let j = choose|j: int| 0 <= j < v@.len() && v@[j] == s;
            assert(false);
        }
    }
    false
}

/// The three subscription tables and the last-observed resource versions.
pub struct EcsSubscriptions {
    resources: Vec<(usize, Vec<usize>)>,
    events: Vec<(usize, Vec<usize>)>,
    world_and_queries: Vec<usize>,
    observed: vstd::hash_map::HashMapWithView<usize, u64>,
}

impl EcsSubscriptions {
    /// Scope `s` is subscribed to resource `r`.
    pub closed spec fn res_subscribed(self, r: usize, s: usize) -> bool {
        entry_subscribes(self.resources@, r, s)
    }

    /// Scope `s` is subscribed to event kind `k`.
    pub closed spec fn event_subscribed(self, k: usize, s: usize) -> bool {
        entry_subscribes(self.events@, k, s)
    }

    /// Scope `s` is subscribed to any world or query change.
    pub closed spec fn world_subscribed(self, s: usize) -> bool {
        self.world_and_queries@.contains(s)
    }

    /// The last version observed for each resource.
    pub closed spec fn observed_versions(self) -> Map<usize, u64> {
        self.observed@
    }

    /// Table keys are unique and no scope list is empty or repeats a scope.
    pub closed spec fn wf(self) -> bool {
        &&& table_wf(self.resources@)
        &&& table_wf(self.events@)
        &&& forall|i: int, j: int|
            0 <= i < self.world_and_queries@.len() && 0 <= j < self.world_and_queries@.len() && i
                != j ==> self.world_and_queries@[i] != self.world_and_queries@[j]
    }

    /// An empty registry.
    pub fn new() -> (r: EcsSubscriptions)
        ensures
            r.wf(),
            forall|rr: usize, s: usize| !r.res_subscribed(rr, s),
            forall|k: usize, s: usize| !r.event_subscribed(k, s),
            forall|s: usize| !r.world_subscribed(s),
            r.observed_versions() == Map::<usize, u64>::empty(),
    {
        EcsSubscriptions {
            resources: Vec::new(),
            events: Vec::new(),
            world_and_queries: Vec::new(),
            observed: vstd::hash_map::HashMapWithView::new(),
        }
    }

    /// Registers scope `s` for the catch-all world and query class.
    pub fn subscribe_world(&mut self, s: usize)
        requires
            old(self).wf(),
        ensures
            final(self).wf(),
            forall|x: usize| final(self).world_subscribed(x) == (old(self).world_subscribed(x) || x
                == s),
            forall|r: usize, x: usize| final(self).res_subscribed(r, x) == old(
                self,
            ).res_subscribed(r, x),
            forall|k: usize, x: usize| final(self).event_subscribed(k, x) == old(
                self,
            ).event_subscribed(k, x),
            final(self).observed_versions() == old(self).observed_versions(),
    {
        if !vec_has(&self.world_and_queries, s) {
            self.world_and_queries.push(s);
            proof {
                assert forall|x: usize| self.world_subscribed(x) == (old(self).world_subscribed(x)
                    || x == s) by {
                    if self.world_subscribed(x) {
                        let j = choose|j: int|
                            0 <= j < self.world_and_queries@.len() && self.world_and_queries@[j]
                                == x;
                        if j < self.world_and_queries@.len() - 1 {
                            assert(old(self).world_and_queries@[j] == x);
                        }
                    } else {
                        if old(self).world_subscribed(x) {
                            let j = choose|j: int|
                                0 <= j < old(self).world_and_queries@.len() && old(
                                    self,
                                ).world_and_queries@[j] == x;
                            assert(self.world_and_queries@[j] == x);
                        }
                        assert(self.world_and_queries@.last() == s);
                    }
                }
            }
        }
    }

    /// Releases scope `s` from the catch-all class.
    pub fn unsubscribe_world(&mut self, s: usize)
        requires
            old(self).wf(),
        ensures
            final(self).wf(),
            forall|x: usize| final(self).world_subscribed(x) == (old(self).world_subscribed(x) && x
                != s),
            forall|r: usize, x: usize| final(self).res_subscribed(r, x) == old(
                self,
            ).res_subscribed(r, x),
            forall|k: usize, x: usize| final(self).event_subscribed(k, x) == old(
                self,
            ).event_subscribed(k, x),
            final(self).observed_versions() == old(self).observed_versions(),
    {
        let _removed = remove_scope_from(&mut self.world_and_queries, s);
    }

    /// Registers scope `s` for resource `r`, creating the entry lazily.
    pub fn subscribe_resource(&mut self, s: usize, r: usize)
        requires
            old(self).wf(),
        ensures
            final(self).wf(),
            forall|rr: usize, x: usize| final(self).res_subscribed(rr, x) == (old(
                self,
            ).res_subscribed(rr, x) || (rr == r && x == s)),
            forall|k: usize, x: usize| final(self).event_subscribed(k, x) == old(
                self,
            ).event_subscribed(k, x),
            forall|x: usize| final(self).world_subscribed(x) == old(self).world_subscribed(x),
            final(self).observed_versions() == old(self).observed_versions(),
    {
        table_subscribe(&mut self.resources, r, s);
    }

    /// Releases scope `s` from resource `r`, deleting an emptied entry.
    pub fn unsubscribe_resource(&mut self, s: usize, r: usize)
        requires
            old(self).wf(),
        ensures
            final(self).wf(),
            forall|rr: usize, x: usize| final(self).res_subscribed(rr, x) == (old(
                self,
            ).res_subscribed(rr, x) && !(rr == r && x == s)),
            forall|k: usize, x: usize| final(self).event_subscribed(k, x) == old(
                self,
            ).event_subscribed(k, x),
            forall|x: usize| final(self).world_subscribed(x) == old(self).world_subscribed(x),
            final(self).observed_versions() == old(self).observed_versions(),
    {
        table_unsubscribe(&mut self.resources, r, s);
    }

    /// Registers scope `s` for event kind `k`, creating the entry lazily.
    pub fn subscribe_event(&mut self, s: usize, k: usize)
        requires
            old(self).wf(),
        ensures
            final(self).wf(),
            forall|kk: usize, x: usize| final(self).event_subscribed(kk, x) == (old(
                self,
            ).event_subscribed(kk, x) || (kk == k && x == s)),
            forall|r: usize, x: usize| final(self).res_subscribed(r, x) == old(
                self,
            ).res_subscribed(r, x),
            forall|x: usize| final(self).world_subscribed(x) == old(self).world_subscribed(x),
            final(self).observed_versions() == old(self).observed_versions(),
    {
        table_subscribe(&mut self.events, k, s);
    }

    /// Releases scope `s` from event kind `k`, deleting an emptied entry.
    pub fn unsubscribe_event(&mut self, s: usize, k: usize)
        requires
            old(self).wf(),
        ensures
            final(self).wf(),
            forall|kk: usize, x: usize| final(self).event_subscribed(kk, x) == (old(
                self,
            ).event_subscribed(kk, x) && !(kk == k && x == s)),
            forall|r: usize, x: usize| final(self).res_subscribed(r, x) == old(
                self,
            ).res_subscribed(r, x),
            forall|x: usize| final(self).world_subscribed(x) == old(self).world_subscribed(x),
            final(self).observed_versions() == old(self).observed_versions(),
    {
        table_unsubscribe(&mut self.events, k, s);
    }

    /// Tears scope `s` down: releases every subscription it holds, in all
    /// three tables, at once.
    pub fn remove_scope(&mut self, s: usize)
        requires
            old(self).wf(),
        ensures
            final(self).wf(),
            forall|rr: usize, x: usize| final(self).res_subscribed(rr, x) == (old(
                self,
            ).res_subscribed(rr, x) && x != s),
            forall|kk: usize, x: usize| final(self).event_subscribed(kk, x) == (old(
                self,
            ).event_subscribed(kk, x) && x != s),
            forall|x: usize| final(self).world_subscribed(x) == (old(self).world_subscribed(x) && x
                != s),
            final(self).observed_versions() == old(self).observed_versions(),
    {
        table_remove_scope(&mut self.resources, s);
        table_remove_scope(&mut self.events, s);
        let _removed = remove_scope_from(&mut self.world_and_queries, s);
    }
}

/// Resource `r`'s version in the snapshot differs from the one last
/// observed (a never-observed resource counts as changed).
pub open spec fn resource_changed(
    subs: EcsSubscriptions,
    versions: Seq<(usize, u64)>,
    r: usize,
) -> bool {
    exists|i: int|
        0 <= i < versions.len() && (#[trigger] versions[i]).0 == r && (
        !subs.observed_versions().contains_key(r) || subs.observed_versions()[r] != versions[i].1)
}

impl EcsSubscriptions {
    /// Whether resource `r` counts as changed against the snapshot
    /// (executable form of [`resource_changed`]).
    fn res_changed(&self, versions: &Vec<(usize, u64)>, r: usize) -> (c: bool)
        requires
            forall|i: int, j: int|
                0 <= i < versions@.len() && 0 <= j < versions@.len() && i != j ==> (
                #[trigger] versions@[i]).0 != (#[trigger] versions@[j]).0,
        ensures
            c == resource_changed(*self, versions@, r),
    {
        let vlen = versions.len();
        let mut i: usize = 0;
        while i < vlen
            invariant
                i <= vlen,
                vlen == versions@.len(),
                forall|i1: int, j1: int|
                    0 <= i1 < versions@.len() && 0 <= j1 < versions@.len() && i1 != j1 ==> (
                    #[trigger] versions@[i1]).0 != (#[trigger] versions@[j1]).0,
                forall|j: int| 0 <= j < i ==> (#[trigger] versions@[j]).0 != r,
            decreases vlen - i,
        {
            if versions[i].0 == r {
                let cur = versions[i].1;
                let c = match self.observed.get(&r) {
                    Some(v0) => *v0 != cur,
                    None => true,
                };
                proof {
                    if c {
                        assert(resource_changed(*self, versions@, r)) by {
                            assert((versions@[i as int]).0 == r);
                        }
                    } else {
                        if resource_changed(*self, versions@, r) {
                            let j = choose|j: int|
                                0 <= j < versions@.len() && (#[trigger] versions@[j]).0 == r && (
                                !self.observed_versions().contains_key(r)
                                    || self.observed_versions()[r] != versions@[j].1);
                            assert(j == i) by {
                                if j != i {
                                    assert((versions@[j]).0 != (versions@[i as int]).0);
                                }
                            }
                        }
                    }
                }
                return c;
            }
            i += 1;
        }
        proof {
            if resource_changed(*self, versions@, r) {
                let j = choose|j: int|
                    0 <= j < versions@.len() && (#[trigger] versions@[j]).0 == r && (
                    !self.observed_versions().contains_key(r) || self.observed_versions()[r]
                        != versions@[j].1);
                assert(false);
            }
        }
        false
    }

    /// Computes this tick's dirty set: every catch-all scope, every scope of
    /// a resource whose version changed since last observed, and every scope
    /// of an event kind with events present. Records the snapshot versions
    /// as the new last-observed ones.
    pub fn compute_dirty(&mut self, versions: &Vec<(usize, u64)>, events_present: &Vec<usize>)
        -> (dirty: Vec<usize>)
        requires
            old(self).wf(),
            forall|i: int, j: int|
                0 <= i < versions@.len() && 0 <= j < versions@.len() && i != j ==> (
                #[trigger] versions@[i]).0 != (#[trigger] versions@[j]).0,
        ensures
            final(self).wf(),
            forall|r: usize, x: usize| final(self).res_subscribed(r, x) == old(
                self,
            ).res_subscribed(r, x),
            forall|k: usize, x: usize| final(self).event_subscribed(k, x) == old(
                self,
            ).event_subscribed(k, x),
            forall|x: usize| final(self).world_subscribed(x) == old(self).world_subscribed(x),
            forall|i: int|
                0 <= i < versions@.len() ==> final(self).observed_versions().contains_key(
                    (#[trigger] versions@[i]).0,
                ) && final(self).observed_versions()[versions@[i].0] == versions@[i].1,
            forall|r: usize|
                (forall|i: int| 0 <= i < versions@.len() ==> (#[trigger] versions@[i]).0 != r)
                    ==> (#[trigger] final(self).observed_versions().contains_key(r) == old(
                    self,
                ).observed_versions().contains_key(r) && (old(
                    self,
                ).observed_versions().contains_key(r) ==> final(self).observed_versions()[r]
                    == old(self).observed_versions()[r])),
            forall|x: usize| #[trigger] dirty@.contains(x) <==> (old(self).world_subscribed(x) || (
            exists|r: usize| #[trigger] old(self).res_subscribed(r, x) && resource_changed(
                *old(self),
                versions@,
                r,
            )) || (exists|k: usize| #[trigger] old(self).event_subscribed(k, x)
                && events_present@.contains(k))),
            forall|i: int, j: int|
                0 <= i < dirty@.len() && 0 <= j < dirty@.len() && i != j ==> dirty@[i] != dirty@[j],
    {
        let mut dirty: Vec<usize> = Vec::new();
        let wlen = self.world_and_queries.len();
        let mut wi: usize = 0;
        while wi < wlen
            invariant
                wi <= wlen,
                wlen == self.world_and_queries@.len(),
                *self == *old(self),
                self.wf(),
                dirty@ == self.world_and_queries@.take(wi as int),
            decreases wlen - wi,
        {
            dirty.push(self.world_and_queries[wi]);
            proof {
                assert(dirty@ =~= self.world_and_queries@.take(wi + 1));
            }
            wi += 1;
        }
        proof {
            assert(dirty@ == self.world_and_queries@) by {
                assert(self.world_and_queries@.take(wlen as int) =~= self.world_and_queries@);
            }
            assert forall|x: usize| #[trigger] dirty@.contains(x) <==> self.world_subscribed(
                x,
            ) by {}
        }
        let rlen = self.resources.len();
        let mut ri: usize = 0;
        while ri < rlen
            invariant
                ri <= rlen,
                rlen == self.resources@.len(),
                *self == *old(self),
                self.wf(),
                forall|i: int, j: int|
                    0 <= i < versions@.len() && 0 <= j < versions@.len() && i != j ==> (
                    #[trigger] versions@[i]).0 != (#[trigger] versions@[j]).0,
                forall|i: int, j: int|
                    0 <= i < dirty@.len() && 0 <= j < dirty@.len() && i != j ==> dirty@[i]
                        != dirty@[j],
                forall|x: usize| #[trigger] dirty@.contains(x) <==> (self.world_subscribed(x) || (
                exists|j: int|
                    0 <= j < ri && (#[trigger] self.resources@[j]).1@.contains(x)
                        && resource_changed(*self, versions@, self.resources@[j].0))),
            decreases rlen - ri,
        {
            let r = self.resources[ri].0;
            let changed = self.res_changed(versions, r);
            if changed {
                let slen = self.resources[ri].1.len();
                let mut si: usize = 0;
                while si < slen
                    invariant
                        si <= slen,
                        ri < rlen,
                        slen == self.resources@[ri as int].1@.len(),
                        rlen == self.resources@.len(),
                        *self == *old(self),
                        self.wf(),
                        resource_changed(*self, versions@, self.resources@[ri as int].0),
                        forall|i: int, j: int|
                            0 <= i < dirty@.len() && 0 <= j < dirty@.len() && i != j ==> dirty@[i]
                                != dirty@[j],
                        forall|x: usize| #[trigger] dirty@.contains(x) <==> (self.world_subscribed(
                            x,
                        ) || (exists|j: int|
                            0 <= j < ri && (#[trigger] self.resources@[j]).1@.contains(x)
                                && resource_changed(*self, versions@, self.resources@[j].0)) || (
                        exists|j: int|
                            0 <= j < si && self.resources@[ri as int].1@[j] == x)),
                    decreases slen - si,
                {
                    let sc = self.resources[ri].1[si];
                    let ghost d0 = dirty@;
                    let already = vec_has(&dirty, sc);
                    if !already {
                        dirty.push(sc);
                    }
                    proof {
                        assert(self.resources@[ri as int].1@[si as int] == sc);
                        assert forall|x: usize| #[trigger] dirty@.contains(x) <==> (d0.contains(x)
                            || x == sc) by {
                            if already {
                                assert(dirty@ == d0);
                                assert(d0.contains(sc));
                            } else {
                                if dirty@.contains(x) {
                                    let j = choose|j: int|
                                        0 <= j < dirty@.len() && dirty@[j] == x;
                                    if j < dirty@.len() - 1 {
                                        assert(d0[j] == x);
                                    }
                                } else {
                                    if d0.contains(x) {
                                        let j = choose|j: int| 0 <= j < d0.len() && d0[j] == x;
                                        assert(dirty@[j] == x);
                                    }
                                    assert(dirty@.last() == sc);
                                }
                            }
                        }
                        assert forall|i1: int, j1: int|
                            0 <= i1 < dirty@.len() && 0 <= j1 < dirty@.len() && i1 != j1 implies
                            dirty@[i1] != dirty@[j1] by {
                            if !already {
                                let last = dirty@.len() - 1;
                                if i1 < last && j1 < last {
                                    assert(dirty@[i1] == d0[i1] && dirty@[j1] == d0[j1]);
                                } else {
                                    let jo = if i1 == last {
                                        j1
                                    } else {
                                        i1
                                    };
                                    assert(dirty@[last] == sc);
                                    assert(dirty@[jo] == d0[jo]);
                                    if d0[jo] == sc {
                                        assert(d0.contains(sc));
                                    }
                                }
                            }
                        }
                    }
                    si += 1;
                }
                proof {
                    assert forall|x: usize| #[trigger] dirty@.contains(x) <==> (
                    self.world_subscribed(x) || (exists|j: int|
                        0 <= j < ri + 1 && (#[trigger] self.resources@[j]).1@.contains(x)
                            && resource_changed(*self, versions@, self.resources@[j].0))) by {
                        if dirty@.contains(x) {
                            if !self.world_subscribed(x) {
                                if exists|j: int|
                                    0 <= j < ri && (#[trigger] self.resources@[j]).1@.contains(x)
                                        && resource_changed(
                                        *self,
                                        versions@,
                                        self.resources@[j].0,
                                    ) {
                                } else {
                                    let j = choose|j: int|
                                        0 <= j < si && self.resources@[ri as int].1@[j] == x;
                                    assert(self.resources@[ri as int].1@.contains(x));
                                }
                            }
                        } else {
                            if exists|j: int|
                                0 <= j < ri + 1 && (#[trigger] self.resources@[j]).1@.contains(x)
                                    && resource_changed(*self, versions@, self.resources@[j].0) {
                                let j = choose|j: int|
                                    0 <= j < ri + 1 && (#[trigger] self.resources@[j]).1@.contains(
                                        x,
                                    ) && resource_changed(*self, versions@, self.resources@[j].0);
                                if j == ri {
                                    let jx = choose|jx: int|
                                        0 <= jx < self.resources@[ri as int].1@.len()
                                            && self.resources@[ri as int].1@[jx] == x;
                                    assert(false);
                                }
                            }
                        }
                    }
                }
            } else {
                proof {
                    assert forall|x: usize| #[trigger] dirty@.contains(x) <==> (
                    self.world_subscribed(x) || (exists|j: int|
                        0 <= j < ri + 1 && (#[trigger] self.resources@[j]).1@.contains(x)
                            && resource_changed(*self, versions@, self.resources@[j].0))) by {
                        if !dirty@.contains(x) {
                            if exists|j: int|
                                0 <= j < ri + 1 && (#[trigger] self.resources@[j]).1@.contains(x)
                                    && resource_changed(*self, versions@, self.resources@[j].0) {
                                let j = choose|j: int|
                                    0 <= j < ri + 1 && (#[trigger] self.resources@[j]).1@.contains(
                                        x,
                                    ) && resource_changed(*self, versions@, self.resources@[j].0);
                                assert(j != ri);
                            }
                        }
                    }
                }
            }
            ri += 1;
        }
        let ghost subs0 = *self;
        proof {
            assert forall|x: usize| #[trigger] dirty@.contains(x) <==> (self.world_subscribed(x)
                || (exists|r: usize| #[trigger] self.res_subscribed(r, x) && resource_changed(
                *self,
                versions@,
                r,
            ))) by {
                if dirty@.contains(x) && !self.world_subscribed(x) {
                    let j = choose|j: int|
                        0 <= j < rlen && (#[trigger] self.resources@[j]).1@.contains(x)
                            && resource_changed(*self, versions@, self.resources@[j].0);
                    let r = self.resources@[j].0;
                    assert(self.res_subscribed(r, x)) by {
                        assert((self.resources@[j]).0 == r && self.resources@[j].1@.contains(x));
                    }
                } else if !dirty@.contains(x) {
                    if exists|r: usize| #[trigger] self.res_subscribed(r, x) && resource_changed(
                        *self,
                        versions@,
                        r,
                    ) {
                        let r = choose|r: usize|
                            #[trigger] self.res_subscribed(r, x) && resource_changed(
                                *self,
                                versions@,
                                r,
                            );
                        let j = choose|j: int|
                            0 <= j < self.resources@.len() && (#[trigger] self.resources@[j]).0
                                == r && self.resources@[j].1@.contains(x);
                        assert(false);
                    }
                }
            }
        }
        let elen = self.events.len();
        let mut ei: usize = 0;
        while ei < elen
            invariant
                ei <= elen,
                elen == self.events@.len(),
                *self == subs0,
                *self == *old(self),
                self.wf(),
                forall|i: int, j: int|
                    0 <= i < dirty@.len() && 0 <= j < dirty@.len() && i != j ==> dirty@[i]
                        != dirty@[j],
                forall|x: usize| #[trigger] dirty@.contains(x) <==> (self.world_subscribed(x) || (
                exists|r: usize| #[trigger] self.res_subscribed(r, x) && resource_changed(
                    *self,
                    versions@,
                    r,
                )) || (exists|j: int|
                    0 <= j < ei && (#[trigger] self.events@[j]).1@.contains(x)
                        && events_present@.contains(self.events@[j].0))),
            decreases elen - ei,
        {
            let k = self.events[ei].0;
            let present = vec_has(events_present, k);
            if present {
                let slen = self.events[ei].1.len();
                let mut si: usize = 0;
                while si < slen
                    invariant
                        si <= slen,
                        ei < elen,
                        slen == self.events@[ei as int].1@.len(),
                        elen == self.events@.len(),
                        *self == subs0,
                        *self == *old(self),
                        self.wf(),
                        events_present@.contains(self.events@[ei as int].0),
                        forall|i: int, j: int|
                            0 <= i < dirty@.len() && 0 <= j < dirty@.len() && i != j ==> dirty@[i]
                                != dirty@[j],
                        forall|x: usize| #[trigger] dirty@.contains(x) <==> (self.world_subscribed(
                            x,
                        ) || (exists|r: usize| #[trigger] self.res_subscribed(r, x)
                            && resource_changed(*self, versions@, r)) || (exists|j: int|
                            0 <= j < ei && (#[trigger] self.events@[j]).1@.contains(x)
                                && events_present@.contains(self.events@[j].0)) || (exists|j: int|
                            0 <= j < si && self.events@[ei as int].1@[j] == x)),
                    decreases slen - si,
                {
                    let sc = self.events[ei].1[si];
                    let ghost d0 = dirty@;
                    let already = vec_has(&dirty, sc);
                    if !already {
                        dirty.push(sc);
                    }
                    proof {
                        assert(self.events@[ei as int].1@[si as int] == sc);
                        assert forall|x: usize| #[trigger] dirty@.contains(x) <==> (d0.contains(x)
                            || x == sc) by {
                            if already {
                                assert(dirty@ == d0);
                                assert(d0.contains(sc));
                            } else {
                                if dirty@.contains(x) {
                                    let j = choose|j: int|
                                        0 <= j < dirty@.len() && dirty@[j] == x;
                                    if j < dirty@.len() - 1 {
                                        assert(d0[j] == x);
                                    }
                                } else {
                                    if d0.contains(x) {
                                        let j = choose|j: int| 0 <= j < d0.len() && d0[j] == x;
                                        assert(dirty@[j] == x);
                                    }
                                    assert(dirty@.last() == sc);
                                }
                            }
                        }
                        assert forall|i1: int, j1: int|
                            0 <= i1 < dirty@.len() && 0 <= j1 < dirty@.len() && i1 != j1 implies
                            dirty@[i1] != dirty@[j1] by {
                            if !already {
                                let last = dirty@.len() - 1;
                                if i1 < last && j1 < last {
                                    assert(dirty@[i1] == d0[i1] && dirty@[j1] == d0[j1]);
                                } else {
                                    let jo = if i1 == last {
                                        j1
                                    } else {
                                        i1
                                    };
                                    assert(dirty@[last] == sc);
                                    assert(dirty@[jo] == d0[jo]);
                                    if d0[jo] == sc {
                                        assert(d0.contains(sc));
                                    }
                                }
                            }
                        }
                    }
                    si += 1;
                }
                proof {
                    assert forall|x: usize| #[trigger] dirty@.contains(x) <==> (
                    self.world_subscribed(x) || (exists|r: usize| #[trigger] self.res_subscribed(
                        r,
                        x,
                    ) && resource_changed(*self, versions@, r)) || (exists|j: int|
                        0 <= j < ei + 1 && (#[trigger] self.events@[j]).1@.contains(x)
                            && events_present@.contains(self.events@[j].0))) by {
                        if dirty@.contains(x) {
                            if !self.world_subscribed(x) && !(exists|r: usize|
                                #[trigger] self.res_subscribed(r, x) && resource_changed(
                                    *self,
                                    versions@,
                                    r,
                                )) && !(exists|j: int|
                                0 <= j < ei && (#[trigger] self.events@[j]).1@.contains(x)
                                    && events_present@.contains(self.events@[j].0)) {
                                let j = choose|j: int|
                                    0 <= j < si && self.events@[ei as int].1@[j] == x;
                                assert(self.events@[ei as int].1@.contains(x));
                            }
                        } else {
                            if exists|j: int|
                                0 <= j < ei + 1 && (#[trigger] self.events@[j]).1@.contains(x)
                                    && events_present@.contains(self.events@[j].0) {
                                let j = choose|j: int|
                                    0 <= j < ei + 1 && (#[trigger] self.events@[j]).1@.contains(x)
                                        && events_present@.contains(self.events@[j].0);
                                if j == ei {
                                    let jx = choose|jx: int|
                                        0 <= jx < self.events@[ei as int].1@.len()
                                            && self.events@[ei as int].1@[jx] == x;
                                    assert(false);
                                }
                            }
                        }
                    }
                }
            } else {
                proof {
                    assert forall|x: usize| #[trigger] dirty@.contains(x) <==> (
                    self.world_subscribed(x) || (exists|r: usize| #[trigger] self.res_subscribed(
                        r,
                        x,
                    ) && resource_changed(*self, versions@, r)) || (exists|j: int|
                        0 <= j < ei + 1 && (#[trigger] self.events@[j]).1@.contains(x)
                            && events_present@.contains(self.events@[j].0))) by {
                        if !dirty@.contains(x) {
                            if exists|j: int|
                                0 <= j < ei + 1 && (#[trigger] self.events@[j]).1@.contains(x)
                                    && events_present@.contains(self.events@[j].0) {
                                let j = choose|j: int|
                                    0 <= j < ei + 1 && (#[trigger] self.events@[j]).1@.contains(x)
                                        && events_present@.contains(self.events@[j].0);
                                assert(j != ei);
                            }
                        }
                    }
                }
            }
            ei += 1;
        }
        proof {
            assert forall|x: usize| #[trigger] dirty@.contains(x) <==> (self.world_subscribed(x)
                || (exists|r: usize| #[trigger] self.res_subscribed(r, x) && resource_changed(
                *self,
                versions@,
                r,
            )) || (exists|k: usize| #[trigger] self.event_subscribed(k, x)
                && events_present@.contains(k))) by {
                if dirty@.contains(x) {
                    if !self.world_subscribed(x) && !(exists|r: usize|
                        #[trigger] self.res_subscribed(r, x) && resource_changed(
                            *self,
                            versions@,
                            r,
                        )) {
                        let j = choose|j: int|
                            0 <= j < elen && (#[trigger] self.events@[j]).1@.contains(x)
                                && events_present@.contains(self.events@[j].0);
                        let k = self.events@[j].0;
                        assert(self.event_subscribed(k, x)) by {
                            assert((self.events@[j]).0 == k && self.events@[j].1@.contains(x));
                        }
                    }
                } else {
                    if exists|k: usize| #[trigger] self.event_subscribed(k, x)
                        && events_present@.contains(k) {
                        let k = choose|k: usize|
                            #[trigger] self.event_subscribed(k, x) && events_present@.contains(k);
                        let j = choose|j: int|
                            0 <= j < self.events@.len() && (#[trigger] self.events@[j]).0 == k
                                && self.events@[j].1@.contains(x);
                        assert(false);
                    }
                }
            }
        }
        let vlen = versions.len();
        let mut vi: usize = 0;
        while vi < vlen
            invariant
                vi <= vlen,
                vlen == versions@.len(),
                self.resources@ == old(self).resources@,
                self.events@ == old(self).events@,
                self.world_and_queries@ == old(self).world_and_queries@,
                self.wf(),
                forall|i: int, j: int|
                    0 <= i < versions@.len() && 0 <= j < versions@.len() && i != j ==> (
                    #[trigger] versions@[i]).0 != (#[trigger] versions@[j]).0,
                forall|i: int|
                    0 <= i < vi ==> self.observed_versions().contains_key(
                        (#[trigger] versions@[i]).0,
                    ) && self.observed_versions()[versions@[i].0] == versions@[i].1,
                forall|r: usize|
                    (forall|i: int| 0 <= i < versions@.len() ==> (#[trigger] versions@[i]).0 != r)
                        ==> (#[trigger] self.observed_versions().contains_key(r) == old(
                        self,
                    ).observed_versions().contains_key(r) && (old(
                        self,
                    ).observed_versions().contains_key(r) ==> self.observed_versions()[r] == old(
                        self,
                    ).observed_versions()[r])),
            decreases vlen - vi,
        {
            let r = versions[vi].0;
            let v = versions[vi].1;
            let ghost pre = *self;
            self.observed.insert(r, v);
            proof {
                assert forall|i: int|
                    0 <= i < vi + 1 implies self.observed_versions().contains_key(
                    (#[trigger] versions@[i]).0,
                ) && self.observed_versions()[versions@[i].0] == versions@[i].1 by {
                    if i < vi {
                        assert(versions@[i].0 != r);
                    }
                }
                assert forall|rr: usize|
                    (forall|i: int| 0 <= i < versions@.len() ==> (#[trigger] versions@[i]).0 != rr)
                        implies (#[trigger] self.observed_versions().contains_key(rr) == old(
                    self,
                ).observed_versions().contains_key(rr) && (old(
                    self,
                ).observed_versions().contains_key(rr) ==> self.observed_versions()[rr] == old(
                    self,
                ).observed_versions()[rr])) by {
                    assert((versions@[vi as int]).0 == r);
                    assert(rr != r);
                    assert(pre.observed_versions().contains_key(rr) == old(
                        self,
                    ).observed_versions().contains_key(rr));
                    assert(self.observed_versions().contains_key(rr)
                        == pre.observed_versions().contains_key(rr));
                }
            }
            vi += 1;
        }
        proof {
            assert forall|rr: usize, x: usize| self.res_subscribed(rr, x) == old(
                self,
            ).res_subscribed(rr, x) by {}
            assert forall|kk: usize, x: usize| self.event_subscribed(kk, x) == old(
                self,
            ).event_subscribed(kk, x) by {}
            assert forall|x: usize| self.world_subscribed(x) == old(self).world_subscribed(
                x,
            ) by {}
        }
        dirty
    }
}

/// Unique keys; scope lists non-empty and duplicate-free.
pub open spec fn table_wf(entries: Seq<(usize, Vec<usize>)>) -> bool {
    &&& forall|i: int, j: int|
        0 <= i < entries.len() && 0 <= j < entries.len() && i != j ==> (#[trigger] entries[i]).0
            != (#[trigger] entries[j]).0
    &&& forall|i: int| 0 <= i < entries.len() ==> (#[trigger] entries[i]).1@.len() > 0
    &&& forall|i: int, j1: int, j2: int|
        0 <= i < entries.len() && 0 <= j1 < entries[i].1@.len() && 0 <= j2 < entries[i].1@.len()
            && j1 != j2 ==> #[trigger] entries[i].1@[j1] != #[trigger] entries[i].1@[j2]
}

/// Removes `s` from `v` if present; reports whether it was.
fn remove_scope_from(v: &mut Vec<usize>, s: usize) -> (removed: bool)
    requires
        forall|i: int, j: int|
            0 <= i < old(v)@.len() && 0 <= j < old(v)@.len() && i != j ==> old(v)@[i] != old(
                v,
            )@[j],
    ensures
        forall|x: usize| final(v)@.contains(x) == (old(v)@.contains(x) && x != s),
        forall|i: int, j: int|
            0 <= i < final(v)@.len() && 0 <= j < final(v)@.len() && i != j ==> final(v)@[i]
                != final(v)@[j],
        removed == old(v)@.contains(s),
        final(v)@.len() as int == (if old(v)@.contains(s) {
            old(v)@.len() - 1
        } else {
            old(v)@.len() as int
        }),
{
    let len = v.len();
    let mut i: usize = 0;
    while i < len
        invariant
            i <= len,
            len == v@.len(),
            *v == *old(v),
            forall|i1: int, j1: int|
                0 <= i1 < old(v)@.len() && 0 <= j1 < old(v)@.len() && i1 != j1 ==> old(v)@[i1]
                    != old(v)@[j1],
            forall|j: int| 0 <= j < i ==> v@[j] != s,
        decreases len - i,
    {
        if v[i] == s {
            v.remove(i);
            proof {
                let pre = old(v)@;
                assert forall|x: usize| v@.contains(x) == (pre.contains(x) && x != s) by {
                    if v@.contains(x) {
                        let j = choose|j: int| 0 <= j < v@.len() && v@[j] == x;
                        if j < i {
                            assert(pre[j] == x);
                        } else {
                            assert(pre[j + 1] == x);
                        }
                        assert(pre.contains(x));
                        assert(x != s) by {
                            if x == s {
                                let j2 = if j < i {
                                    j
                                } else {
                                    j + 1
                                };
                                assert(pre[j2] == s && pre[i as int] == s);
                            }
                        }
                    } else {
                        if pre.contains(x) && x != s {
                            let j = choose|j: int| 0 <= j < pre.len() && pre[j] == x;
                            if j < i {
                                assert(v@[j] == x);
                            } else {
                                assert(j != i);
                                assert(v@[j - 1] == x);
                            }
                        }
                    }
                }
                assert forall|i1: int, j1: int|
                    0 <= i1 < v@.len() && 0 <= j1 < v@.len() && i1 != j1 implies v@[i1] != v@[
                    j1
                ] by {
                    let pre = old(v)@;
                    let a = if i1 < i {
                        i1
                    } else {
                        i1 + 1
                    };
                    let b = if j1 < i {
                        j1
                    } else {
                        j1 + 1
                    };
                    assert(v@[i1] == pre[a] && v@[j1] == pre[b]);
                }
                assert(old(v)@[i as int] == s);
                assert(old(v)@.contains(s));
            }
            return true;
        }
        i += 1;
    }
    proof {
        if old(v)@.contains(s) {
            let j = choose|j: int| 0 <= j < old(v)@.len() && old(v)@[j] == s;
            assert(false);
        }
    }
    false
}

/// Adds scope `s` under `key`, creating the entry if needed.
fn table_subscribe(entries: &mut Vec<(usize, Vec<usize>)>, key: usize, s: usize)
    requires
        table_wf(old(entries)@),
    ensures
        table_wf(final(entries)@),
        forall|kk: usize, x: usize| entry_subscribes(final(entries)@, kk, x) == (entry_subscribes(
            old(entries)@,
            kk,
            x,
        ) || (kk == key && x == s)),
{
    let len = entries.len();
    let mut i: usize = 0;
    while i < len
        invariant
            i <= len,
            len == entries@.len(),
            *entries == *old(entries),
            table_wf(entries@),
            forall|j: int| 0 <= j < i ==> (#[trigger] entries@[j]).0 != key,
        decreases len - i,
    {
        if entries[i].0 == key {
            let already = vec_has(&entries[i].1, s);
            if !already {
                let entry = &mut entries[i];
                entry.1.push(s);
                proof {
                    let pre = old(entries)@;
                    assert(entries@[i as int].1@ == pre[i as int].1@.push(s));
                    assert(entries@[i as int].0 == key);
                    assert forall|j: int| 0 <= j < entries@.len() && j != i implies entries@[j]
                        == pre[j] by {}
                    assert forall|kk: usize, x: usize|
                        entry_subscribes(entries@, kk, x) == (entry_subscribes(pre, kk, x) || (kk
                            == key && x == s)) by {
                        if entry_subscribes(entries@, kk, x) {
                            let j = choose|j: int|
                                0 <= j < entries@.len() && (#[trigger] entries@[j]).0 == kk
                                    && entries@[j].1@.contains(x);
                            if j != i {
                                assert(pre[j].0 == kk && pre[j].1@.contains(x));
                            } else {
                                let jx = choose|jx: int|
                                    0 <= jx < entries@[i as int].1@.len()
                                        && entries@[i as int].1@[jx] == x;
                                if jx < pre[i as int].1@.len() {
                                    assert(pre[i as int].1@[jx] == x);
                                    assert(pre[i as int].1@.contains(x));
                                } else {
                                    assert(x == s && kk == key);
                                }
                            }
                        } else {
                            if entry_subscribes(pre, kk, x) {
                                let j = choose|j: int|
                                    0 <= j < pre.len() && (#[trigger] pre[j]).0 == kk
                                        && pre[j].1@.contains(x);
                                if j != i {
                                    assert(entries@[j].0 == kk && entries@[j].1@.contains(x));
                                } else {
                                    let jx = choose|jx: int|
                                        0 <= jx < pre[i as int].1@.len() && pre[i as int].1@[jx]
                                            == x;
                                    assert(entries@[i as int].1@[jx] == x);
                                    assert(entries@[i as int].1@.contains(x));
                                }
                                assert(false);
                            }
                            if kk == key && x == s {
                                assert(entries@[i as int].1@.last() == s);
                                assert(entries@[i as int].1@.contains(s));
                                assert(false);
                            }
                        }
                    }
                    assert forall|i1: int, ja: int, jb: int|
                        0 <= i1 < entries@.len() && 0 <= ja < entries@[i1].1@.len() && 0 <= jb
                            < entries@[i1].1@.len() && ja != jb implies #[trigger] entries@[
                        i1
                    ].1@[ja] != #[trigger] entries@[i1].1@[jb] by {
                        if i1 == i {
                            let prelist = pre[i as int].1@;
                            if ja < prelist.len() && jb < prelist.len() {
                                assert(pre[i1].1@[ja] != pre[i1].1@[jb]);
                            } else {
                                let jo = if ja < prelist.len() {
                                    ja
                                } else {
                                    jb
                                };
                                assert(entries@[i1].1@[jo] == prelist[jo]);
                                if prelist[jo] == s {
                                    assert(prelist.contains(s));
                                }
                            }
                        } else {
                            assert(pre[i1].1@[ja] != pre[i1].1@[jb]);
                        }
                    }
                }
            } else {
                proof {
                    assert(entries@[i as int].0 == key && entries@[i as int].1@.contains(s));
                    assert(entry_subscribes(entries@, key, s));
                }
            }
            return ;
        }
        i += 1;
    }
    let mut scopes: Vec<usize> = Vec::new();
    scopes.push(s);
    let ghost sc = scopes@;
    entries.push((key, scopes));
    proof {
        let pre = old(entries)@;
        assert(entries@.len() == pre.len() + 1);
        assert(entries@[pre.len() as int].0 == key);
        assert(entries@[pre.len() as int].1@ == sc);
        assert(sc =~= Seq::<usize>::empty().push(s));
        assert(entries@[pre.len() as int].1@[0] == s);
        assert(entries@[pre.len() as int].1@.contains(s));
        assert forall|j: int| 0 <= j < pre.len() implies entries@[j] == pre[j] by {}
        assert forall|j: int| 0 <= j < pre.len() implies (#[trigger] pre[j]).0 != key by {
            if pre[j].0 == key {
                let jj = j as usize;
                assert(false);
            }
        }
        assert forall|kk: usize, x: usize|
            entry_subscribes(entries@, kk, x) == (entry_subscribes(pre, kk, x) || (kk == key && x
                == s)) by {
            if entry_subscribes(entries@, kk, x) {
                let j = choose|j: int|
                    0 <= j < entries@.len() && (#[trigger] entries@[j]).0 == kk
                        && entries@[j].1@.contains(x);
                if j < pre.len() {
                    assert(pre[j].0 == kk && pre[j].1@.contains(x));
                } else {
                    assert(kk == key);
                    assert(entries@[j].1@[0] == s);
                    let jx = choose|jx: int|
                        0 <= jx < entries@[j].1@.len() && entries@[j].1@[jx] == x;
                    assert(x == s);
                }
            } else {
                if entry_subscribes(pre, kk, x) {
                    let j = choose|j: int|
                        0 <= j < pre.len() && (#[trigger] pre[j]).0 == kk && pre[j].1@.contains(x);
                    assert(entries@[j].0 == kk && entries@[j].1@.contains(x));
                    assert(false);
                }
                if kk == key && x == s {
                    assert(entries@[pre.len() as int].0 == key && entries@[
                        pre.len() as int
                    ].1@.contains(s));
                    assert(false);
                }
            }
        }
    }
}

/// Removes scope `s` from under `key`, deleting the entry if it empties.
fn table_unsubscribe(entries: &mut Vec<(usize, Vec<usize>)>, key: usize, s: usize)
    requires
        table_wf(old(entries)@),
    ensures
        table_wf(final(entries)@),
        forall|kk: usize, x: usize| entry_subscribes(final(entries)@, kk, x) == (entry_subscribes(
            old(entries)@,
            kk,
            x,
        ) && !(kk == key && x == s)),
{
    let len = entries.len();
    let mut i: usize = 0;
    while i < len
        invariant
            i <= len,
            len == entries@.len(),
            *entries == *old(entries),
            table_wf(entries@),
            forall|j: int| 0 <= j < i ==> (#[trigger] entries@[j]).0 != key,
        decreases len - i,
    {
        if entries[i].0 == key {
            let ghost pre = old(entries)@;
            let entry = &mut entries[i];
            let ghost prelist = entry.1@;
            let _removed = remove_scope_from(&mut entry.1, s);
            let now_empty = entry.1.is_empty();
            proof {
                assert(entries@[i as int].0 == key);
                assert forall|j: int| 0 <= j < entries@.len() && j != i implies entries@[j]
                    == pre[j] by {}
            }
            if now_empty {
                entries.remove(i);
            }
            proof {
                let cur = entries@;
                assert forall|kk: usize, x: usize|
                    entry_subscribes(cur, kk, x) == (entry_subscribes(pre, kk, x) && !(kk == key
                        && x == s)) by {
                    if entry_subscribes(cur, kk, x) {
                        let j = choose|j: int|
                            0 <= j < cur.len() && (#[trigger] cur[j]).0 == kk && cur[j].1@.contains(
                                x,
                            );
                        if now_empty {
                            let j2 = if j < i {
                                j
                            } else {
                                j + 1
                            };
                            assert(pre[j2].0 == kk && pre[j2].1@.contains(x));
                            assert(kk != key || x != s) by {
                                if kk == key && x == s {
                                    assert(j2 != i);
                                    assert(pre[j2].0 == key && pre[i as int].0 == key);
                                }
                            }
                        } else {
                            if j == i {
                                assert(prelist.contains(x) && x != s);
                                assert(pre[i as int].1@.contains(x));
                            } else {
                                assert(pre[j].0 == kk && pre[j].1@.contains(x));
                                assert(kk != key || x != s) by {
                                    if kk == key {
                                        assert(pre[j].0 == key && pre[i as int].0 == key);
                                    }
                                }
                            }
                        }
                    } else {
                        if entry_subscribes(pre, kk, x) && !(kk == key && x == s) {
                            let j = choose|j: int|
                                0 <= j < pre.len() && (#[trigger] pre[j]).0 == kk
                                    && pre[j].1@.contains(x);
                            if j == i {
                                assert(kk == key);
                                assert(x != s);
                                if now_empty {
                                    // the shrunk list still holds `x`, so it
                                    // cannot have emptied
                                    assert(prelist.contains(x));
                                    assert(false);
                                } else {
                                    assert(cur[i as int].0 == kk);
                                    assert(cur[i as int].1@.contains(x));
                                    assert(false);
                                }
                            } else {
                                if now_empty {
                                    let j2 = if j < i {
                                        j
                                    } else {
                                        j - 1
                                    };
                                    assert(cur[j2] == pre[j]);
                                    assert(cur[j2].0 == kk && cur[j2].1@.contains(x));
                                } else {
                                    assert(cur[j].0 == kk && cur[j].1@.contains(x));
                                }
                                assert(false);
                            }
                        }
                    }
                }
                assert(table_wf(entries@)) by {
                    if now_empty {
                        assert forall|i1: int, j1: int|
                            0 <= i1 < entries@.len() && 0 <= j1 < entries@.len() && i1 != j1
                                implies (#[trigger] entries@[i1]).0 != (#[trigger] entries@[
                            j1
                        ]).0 by {
                            let a = if i1 < i {
                                i1
                            } else {
                                i1 + 1
                            };
                            let b = if j1 < i {
                                j1
                            } else {
                                j1 + 1
                            };
                            assert(entries@[i1] == pre[a] && entries@[j1] == pre[b]);
                        }
                        assert forall|i1: int| 0 <= i1 < entries@.len() implies (
                        #[trigger] entries@[i1]).1@.len() > 0 by {
                            let a = if i1 < i {
                                i1
                            } else {
                                i1 + 1
                            };
                            assert(entries@[i1] == pre[a]);
                        }
                        assert forall|i1: int, ja: int, jb: int|
                            0 <= i1 < entries@.len() && 0 <= ja < entries@[i1].1@.len() && 0 <= jb
                                < entries@[i1].1@.len() && ja != jb implies #[trigger] entries@[
                            i1
                        ].1@[ja] != #[trigger] entries@[i1].1@[jb] by {
                            let a = if i1 < i {
                                i1
                            } else {
                                i1 + 1
                            };
                            assert(entries@[i1] == pre[a]);
                        }
                    } else {
                        assert forall|i1: int| 0 <= i1 < entries@.len() implies (
                        #[trigger] entries@[i1]).1@.len() > 0 by {
                            if i1 != i {
                                assert(entries@[i1] == pre[i1]);
                            }
                        }
                        assert forall|i1: int, j1: int|
                            0 <= i1 < entries@.len() && 0 <= j1 < entries@.len() && i1 != j1
                                implies (#[trigger] entries@[i1]).0 != (#[trigger] entries@[
                            j1
                        ]).0 by {
                            assert(entries@[i1].0 == pre[i1].0 && entries@[j1].0 == pre[j1].0);
                        }
                        assert forall|i1: int, ja: int, jb: int|
                            0 <= i1 < entries@.len() && 0 <= ja < entries@[i1].1@.len() && 0 <= jb
                                < entries@[i1].1@.len() && ja != jb implies #[trigger] entries@[
                            i1
                        ].1@[ja] != #[trigger] entries@[i1].1@[jb] by {
                            if i1 != i {
                                assert(entries@[i1] == pre[i1]);
                            }
                        }
                    }
                }
            }
            return ;
        }
        i += 1;
    }
    proof {
        if entry_subscribes(old(entries)@, key, s) {
            let j = choose|j: int|
                0 <= j < old(entries)@.len() && (#[trigger] old(entries)@[j]).0 == key && old(
                    entries,
                )@[j].1@.contains(s);
            assert(false);
        }
    }
}

/// Removes scope `s` from every entry, deleting entries that empty.
fn table_remove_scope(entries: &mut Vec<(usize, Vec<usize>)>, s: usize)
    requires
        table_wf(old(entries)@),
    ensures
        table_wf(final(entries)@),
        forall|kk: usize, x: usize| entry_subscribes(final(entries)@, kk, x) == (entry_subscribes(
            old(entries)@,
            kk,
            x,
        ) && x != s),
{
    let mut out: Vec<(usize, Vec<usize>)> = Vec::new();
    let len = entries.len();
    let mut i: usize = 0;
    while i < len
        invariant
            i <= len,
            len == entries@.len(),
            *entries == *old(entries),
            table_wf(entries@),
            table_wf(out@),
            forall|kk: usize, x: usize| entry_subscribes(out@, kk, x) == (entry_subscribes(
                entries@.take(i as int),
                kk,
                x,
            ) && x != s),
        decreases len - i,
    {
        let key = entries[i].0;
        let mut scopes = entries[i].1.clone();
        let ghost scopes_pre = scopes@;
        proof {
            assert(scopes@ == entries@[i as int].1@);
        }
        let _removed = remove_scope_from(&mut scopes, s);
        let ghost sc = scopes@;
        let ghost opre = out@;
        let pushed = scopes.len() > 0;
        if pushed {
            out.push((key, scopes));
        }
        proof {
            if pushed {
                assert(out@.len() == opre.len() + 1);
                assert(out@[opre.len() as int].0 == key);
                assert(out@[opre.len() as int].1@ == sc);
            } else {
                assert(out@ == opre);
            }
            let tk1 = entries@.take(i + 1);
            assert(tk1.drop_last() =~= entries@.take(i as int));
            assert(tk1.last() == entries@[i as int]);
            assert forall|kk: usize, x: usize|
                entry_subscribes(out@, kk, x) == (entry_subscribes(tk1, kk, x) && x != s) by {
                if entry_subscribes(out@, kk, x) {
                    let j = choose|j: int|
                        0 <= j < out@.len() && (#[trigger] out@[j]).0 == kk && out@[j].1@.contains(
                            x,
                        );
                    if j < opre.len() {
                        assert(opre[j].0 == kk && opre[j].1@.contains(x));
                        assert(entry_subscribes(opre, kk, x));
                        assert(x != s);
                        assert(entry_subscribes(entries@.take(i as int), kk, x));
                        let j2 = choose|j2: int|
                            0 <= j2 < entries@.take(i as int).len() && (#[trigger] entries@.take(
                                i as int,
                            )[j2]).0 == kk && entries@.take(i as int)[j2].1@.contains(x);
                        assert(tk1[j2].0 == kk && tk1[j2].1@.contains(x));
                    } else {
                        assert(pushed && j == opre.len());
                        assert(out@[j].0 == key && out@[j].1@ == sc);
                        assert(sc.contains(x));
                        assert(scopes_pre.contains(x) && x != s);
                        assert(tk1[i as int].0 == key && tk1[i as int].1@.contains(x));
                    }
                } else {
                    if entry_subscribes(tk1, kk, x) && x != s {
                        let j = choose|j: int|
                            0 <= j < tk1.len() && (#[trigger] tk1[j]).0 == kk && tk1[j].1@.contains(
                                x,
                            );
                        if j < i {
                            assert(entries@.take(i as int)[j].0 == kk && entries@.take(
                                i as int,
                            )[j].1@.contains(x));
                            assert(entry_subscribes(entries@.take(i as int), kk, x));
                            assert(entry_subscribes(opre, kk, x));
                            let j2 = choose|j2: int|
                                0 <= j2 < opre.len() && (#[trigger] opre[j2]).0 == kk
                                    && opre[j2].1@.contains(x);
                            assert(out@[j2].0 == kk && out@[j2].1@.contains(x));
                            assert(false);
                        } else {
                            assert(kk == key);
                            assert(scopes_pre.contains(x));
                            assert(sc.contains(x));
                            assert(sc.len() > 0);
                            assert(pushed);
                            assert(out@[opre.len() as int].1@.contains(x));
                            assert(false);
                        }
                    }
                }
            }
            assert(table_wf(out@)) by {
                assert forall|i1: int, j1: int|
                    0 <= i1 < out@.len() && 0 <= j1 < out@.len() && i1 != j1 implies (
                #[trigger] out@[i1]).0 != (#[trigger] out@[j1]).0 by {
                    if i1 < opre.len() && j1 < opre.len() {
                        assert(opre[i1].0 != opre[j1].0);
                    } else {
                        let jo = if i1 < opre.len() {
                            i1
                        } else {
                            j1
                        };
                        assert(out@[jo] == opre[jo]);
                        // the new entry's key comes from position `i`, past
                        // every key already copied
                        assert(opre[jo].1@.len() > 0);
                        let x0 = opre[jo].1@[0];
                        assert(opre[jo].1@.contains(x0));
                        assert(entry_subscribes(opre, opre[jo].0, x0));
                        assert(entry_subscribes(entries@.take(i as int), opre[jo].0, x0));
                        let j2 = choose|j2: int|
                            0 <= j2 < entries@.take(i as int).len() && (#[trigger] entries@.take(
                                i as int,
                            )[j2]).0 == opre[jo].0 && entries@.take(i as int)[j2].1@.contains(x0);
                        assert(entries@[j2].0 == opre[jo].0);
                        assert(entries@[i as int].0 == key);
                        assert(j2 != i);
                    }
                }
                assert forall|i1: int| 0 <= i1 < out@.len() implies (
                #[trigger] out@[i1]).1@.len() > 0 by {
                    if i1 < opre.len() {
                        assert(out@[i1] == opre[i1]);
                    }
                }
                assert forall|i1: int, ja: int, jb: int|
                    0 <= i1 < out@.len() && 0 <= ja < out@[i1].1@.len() && 0 <= jb
                        < out@[i1].1@.len() && ja != jb implies #[trigger] out@[i1].1@[ja]
                    != #[trigger] out@[i1].1@[jb] by {
                    if i1 < opre.len() {
                        assert(out@[i1] == opre[i1]);
                    }
                }
            }
        }
        i += 1;
    }
    proof {
        assert(entries@.take(len as int) =~= entries@);
    }
    *entries = out;
}

} // verus!
