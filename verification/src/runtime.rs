//! Objects, facets, and the identity/lifetime core.
//!
//! Objects live in an arena; a facet is a tagged handle naming the object
//! whose vtable backs it, the interface it was obtained under, and whether
//! it is the non-delegating identity of an aggregated inner object.  Every
//! facet of one object routes increments and decrements to the single
//! counter that governs that object's lifetime: the outer object's counter
//! for delegating facets of an aggregated inner, the object's own counter
//! otherwise.

use vstd::prelude::*;

use crate::registry::Registry;

verus! {

/// Status vocabulary of every boundary operation.
#[derive(Clone, Copy, Debug, PartialEq, Eq, Structural)]
pub enum Status {
    Success,
    InterfaceNotFound,
    AggregationNotAllowed,
}

/// One heap-resident object: its life state, shared reference counter,
/// supported interfaces, and aggregation links.
pub struct Object {
    /// Whether the object still exists; `false` after teardown.
    pub alive: bool,
    /// The one shared reference counter behind all of the object's facets.
    pub count: u32,
    /// How many times teardown has run for this object.
    pub teardowns: u32,
    /// Registry indices of the interfaces the object declares itself.
    pub ifaces: Vec<usize>,
    /// Registry indices of the interfaces delegated to the inner object.
    pub deleg: Vec<usize>,
    /// Arena index of the exclusively-owned aggregated inner object.
    pub inner: Option<usize>,
    /// Arena index of the outer object this one is aggregated into.
    pub outer: Option<usize>,
}

/// A tagged interface handle: one facet of one object.
#[derive(Clone, Copy, Debug, PartialEq, Eq, Structural)]
pub struct Facet {
    /// Arena index of the object whose vtable backs this facet.
    pub object: usize,
    /// Registry index of the interface the facet was obtained under.
    pub iface: usize,
    /// A non-delegating identity facet keeps its increments, decrements and
    /// queries on its own object even when that object is aggregated.
    pub non_delegating: bool,
}

/// The object arena together with the interface registry and the
/// process-wide usage counter.
pub struct Runtime {
    pub registry: Registry,
    pub slots: Vec<Object>,
    pub server_locks: u64,
}

/// The effect of one decrement on the governing counter at `g`: below the
/// last reference the count just drops; at the last reference the object is
/// torn down and the ownership reference on its aggregated inner object is
/// itself released, tearing the inner object down in turn when that was its
/// last reference.
pub open spec fn release_spec(slots: Seq<Object>, g: int) -> Seq<Object> {
    let s = slots[g];
    if !(0 <= g < slots.len()) || !s.alive || s.count == 0 {
        slots
    } else if s.count > 1 {
        slots.update(g, (Object { count: (s.count - 1) as u32, ..s }))
    } else {
        let freed = slots.update(
            g,
            (Object { count: 0, alive: false, teardowns: (s.teardowns + 1) as u32, ..s }),
        );
        match s.inner {
            Some(j) => {
                if g < j && (j as int) < slots.len() && slots[j as int].alive
                    && slots[j as int].count >= 1 {
                    let t = freed[j as int];
                    if t.count > 1 {
                        freed.update(j as int, (Object { count: (t.count - 1) as u32, ..t }))
                    } else {
                        freed.update(
                            j as int,
                            (Object {
                                count: 0,
                                alive: false,
                                teardowns: (t.teardowns + 1) as u32,
                                ..t
                            }),
                        )
                    }
                } else {
                    freed
                }
            }
            None => freed,
        }
    }
}

impl Runtime {
    /// Structural soundness of the slot at `i`: interface and delegation
    /// entries point into the registry, aggregation links are mutual and
    /// strictly ordered (an outer object always stands earlier in the arena
    /// than its inner object), an aggregated object does not itself
    /// aggregate, a live outer object's inner object is live and holds the
    /// ownership reference, and teardown has run exactly once on every
    /// freed object and never on a live one.
    pub open spec fn slot_wf(self, i: int) -> bool {
        let s = self.slots@[i];
        &&& 1 <= s.ifaces@.len()
        &&& forall|k: int|
                0 <= k < s.ifaces@.len() ==> (s.ifaces@[k] as int) < self.registry.descs@.len()
        &&& forall|k: int|
                0 <= k < s.deleg@.len() ==> (s.deleg@[k] as int) < self.registry.descs@.len()
        &&& s.deleg@.len() > 0 ==> s.inner is Some
        &&& match s.inner {
                Some(j) => {
                    &&& i < (j as int) < self.slots@.len()
                    &&& self.slots@[j as int].outer == Some(i as usize)
                    &&& s.alive ==> self.slots@[j as int].alive
                            && self.slots@[j as int].count >= 1
                }
                None => true,
            }
        &&& match s.outer {
                Some(o) => (o as int) < i && s.inner is None
                    && self.slots@[o as int].outer is None,
                None => true,
            }
        &&& (s.alive ==> s.teardowns == 0)
        &&& (!s.alive ==> s.teardowns == 1)
    }

    /// Arena-wide well-formedness, preserved by every operation.
    pub open spec fn wf(self) -> bool {
        &&& self.registry.wf()
        &&& forall|i: int| 0 <= i < self.slots@.len() ==> self.slot_wf(i)
    }

    /// The arena index of the object whose reference counter governs the
    /// lifetime reached through facet `f`.
    pub open spec fn governing(self, f: Facet) -> int {
        if f.non_delegating {
            f.object as int
        } else {
            match self.slots@[f.object as int].outer {
                Some(o) => o as int,
                None => f.object as int,
            }
        }
    }

    /// The facet refers to a live object under a registered interface, and
    /// the object governing its lifetime is itself live.
    pub open spec fn facet_live(self, f: Facet) -> bool {
        &&& (f.object as int) < self.slots@.len()
        &&& self.slots@[f.object as int].alive
        &&& (f.iface as int) < self.registry.descs@.len()
        &&& self.slots@[self.governing(f)].alive
    }

    /// Whether object `t` supports `iid` through one of its own declared
    /// interfaces or an ancestor of one.
    pub open spec fn supports_own(self, t: int, iid: u128) -> bool {
        exists|k: int|
            0 <= k < self.slots@[t].ifaces@.len()
                && self.registry.chain_contains(self.slots@[t].ifaces@[k] as int, iid)
    }

    /// Whether object `t` lists `iid` as delegated to its inner object;
    /// exact identifier match only.
    pub open spec fn supports_deleg(self, t: int, iid: u128) -> bool {
        exists|k: int|
            0 <= k < self.slots@[t].deleg@.len()
                && self.registry.descs@[self.slots@[t].deleg@[k] as int].iid == iid
    }

    /// The full supported set visible through facet `f`: the governing
    /// object's own interfaces with their ancestors, plus — through a
    /// delegating facet only — the interfaces delegated to an inner object.
    pub open spec fn facet_sees(self, f: Facet, iid: u128) -> bool {
        let t = self.governing(f);
        self.supports_own(t, iid) || (!f.non_delegating && self.supports_deleg(t, iid))
    }

    /// Index of the first own declared interface of `t` whose chain
    /// contains `iid`, searching from `k`; the number of declared
    /// interfaces when there is none.
    pub open spec fn own_search(self, t: int, iid: u128, k: int) -> int
        decreases self.slots@[t].ifaces@.len() - k,
    {
        if !(0 <= k < self.slots@[t].ifaces@.len()) {
            self.slots@[t].ifaces@.len() as int
        } else if self.registry.chain_contains(self.slots@[t].ifaces@[k] as int, iid) {
            k
        } else {
            self.own_search(t, iid, k + 1)
        }
    }

    /// Index of the first delegation entry of `t` naming exactly `iid`,
    /// searching from `k`; the number of entries when there is none.
    pub open spec fn deleg_search(self, t: int, iid: u128, k: int) -> int
        decreases self.slots@[t].deleg@.len() - k,
    {
        if !(0 <= k < self.slots@[t].deleg@.len()) {
            self.slots@[t].deleg@.len() as int
        } else if self.registry.descs@[self.slots@[t].deleg@[k] as int].iid == iid {
            k
        } else {
            self.deleg_search(t, iid, k + 1)
        }
    }

    fn governing_exec(&self, f: Facet) -> (g: usize)
        requires
            self.wf(),
            (f.object as int) < self.slots@.len(),
        ensures
            g as int == self.governing(f),
            g <= f.object,
    {
        if f.non_delegating {
            f.object
        } else {
            proof {
                assert(self.slot_wf(f.object as int));
            }
            match self.slots[f.object].outer {
                Some(o) => o,
                None => f.object,
            }
        }
    }

    /// Increments the counter governing the lifetime reached through `f`
    /// and returns the new count.  Always succeeds, at any live count —
    /// including zero, during construction.  Nothing else changes.
    pub fn add_ref(&mut self, f: Facet) -> (n: u32)
        requires
            old(self).wf(),
            old(self).facet_live(f),
            old(self).slots@[old(self).governing(f)].count < u32::MAX,
        ensures
            final(self).wf(),
            ({
                let g = old(self).governing(f);
                &&& n == old(self).slots@[g].count + 1
                &&& final(self).slots@
                    == old(self).slots@.update(g, (Object { count: n, ..old(self).slots@[g] }))
                &&& final(self).registry == old(self).registry
                &&& final(self).server_locks == old(self).server_locks
            }),
    {
        let g = self.governing_exec(f);
        let c = self.slots[g].count;
        self.slots[g].count = c + 1;
        proof {
            let gi = old(self).governing(f);
            assert(self.slots@ =~= old(self).slots@.update(
                gi,
                (Object { count: (c + 1) as u32, ..old(self).slots@[gi] }),
            ));
            assert forall|i: int| 0 <= i < self.slots@.len() implies self.slot_wf(i) by {
                assert(old(self).slot_wf(i));
                assert(old(self).slot_wf(gi));
            }
        }
        c + 1
    }

    /// Decrements the counter governing the lifetime reached through `f`
    /// and returns the new count.  When the count was 1, this very call
    /// synchronously tears the object down — it is freed, its teardown runs
    /// exactly once, and the ownership reference it held on an aggregated
    /// inner object is itself released, tearing the inner object down in
    /// turn when that was its last reference.  Releasing the ownership
    /// reference of a live outer object from outside is reference-count
    /// misuse and is excluded by contract.
    pub fn release(&mut self, f: Facet) -> (n: u32)
        requires
            old(self).wf(),
            old(self).facet_live(f),
            old(self).slots@[old(self).governing(f)].count >= 1,
            ({
                let g = old(self).governing(f);
                match old(self).slots@[g].outer {
                    Some(o) => (old(self).slots@[o as int].alive
                        && old(self).slots@[o as int].inner == Some(g as usize))
                        ==> old(self).slots@[g].count >= 2,
                    None => true,
                }
            }),
        ensures
            final(self).wf(),
            ({
                let g = old(self).governing(f);
                &&& n == old(self).slots@[g].count - 1
                &&& final(self).slots@ == release_spec(old(self).slots@, g)
                &&& final(self).slots@.len() == old(self).slots@.len()
                &&& (n > 0 ==> final(self).slots@ == old(self).slots@.update(
                        g,
                        (Object { count: n, ..old(self).slots@[g] }),
                    ))
                &&& (n == 0 ==> !final(self).slots@[g].alive
                        && final(self).slots@[g].teardowns == old(self).slots@[g].teardowns + 1)
                &&& final(self).registry == old(self).registry
                &&& final(self).server_locks == old(self).server_locks
            }),
    {
        let g = self.governing_exec(f);
        proof {
            assert(old(self).slot_wf(g as int));
        }
        let c = self.slots[g].count;
        if c > 1 {
            self.slots[g].count = c - 1;
            proof {
                let gi = old(self).governing(f);
                assert(self.slots@ =~= release_spec(old(self).slots@, gi));
                assert forall|i: int| 0 <= i < self.slots@.len() implies self.slot_wf(i) by {
                    assert(old(self).slot_wf(i));
                    assert(old(self).slot_wf(gi));
                }
            }
            c - 1
        } else {
            // Last reference: tear the object down, then drop the ownership
            // reference on its aggregated inner object, if it has one.
            self.slots[g].count = 0;
            self.slots[g].alive = false;
            let td = self.slots[g].teardowns;
            self.slots[g].teardowns = td + 1;
            let ghost freed = self.slots@;
            match self.slots[g].inner {
                Some(j) => {
                    proof {
                        assert(old(self).slot_wf(j as int));
                    }
                    let cj = self.slots[j].count;
                    if cj > 1 {
                        self.slots[j].count = cj - 1;
                    } else {
                        self.slots[j].count = 0;
                        self.slots[j].alive = false;
                        let tdj = self.slots[j].teardowns;
                        self.slots[j].teardowns = tdj + 1;
                    }
                }
                None => {}
            }
            proof {
                let gi = old(self).governing(f);
                let s = old(self).slots@[gi];
                assert(freed =~= old(self).slots@.update(
                    gi,
                    (Object { count: 0, alive: false, teardowns: (s.teardowns + 1) as u32, ..s }),
                ));
                match s.inner {
                    Some(j) => {
                        let t = freed[j as int];
                        if t.count > 1 {
                            assert(self.slots@ =~= freed.update(
                                j as int,
                                (Object { count: (t.count - 1) as u32, ..t }),
                            ));
                        } else {
                            assert(self.slots@ =~= freed.update(
                                j as int,
                                (Object {
                                    count: 0,
                                    alive: false,
                                    teardowns: (t.teardowns + 1) as u32,
                                    ..t
                                }),
                            ));
                        }
                    }
                    None => {
                        assert(self.slots@ =~= freed);
                    }
                }
                assert(self.slots@ == release_spec(old(self).slots@, gi));
                assert forall|i: int| 0 <= i < self.slots@.len() implies self.slot_wf(i) by {
                    assert(old(self).slot_wf(i));
                    assert(old(self).slot_wf(gi));
                    match old(self).slots@[i].inner {
                        Some(ji) => {
                            assert(old(self).slot_wf(ji as int));
                        }
                        None => {}
                    }
                    match s.inner {
                        Some(j) => {
                            assert(old(self).slot_wf(j as int));
                            if self.slots@[i].inner == Some(j as usize) && i != gi {
                                // ownership links are mutual, so only `gi` owns `j`
                                assert(old(self).slots@[j as int].outer == Some(gi as usize));
                            }
                        }
                        None => {}
                    }
                }
            }
            0
        }
    }

    /// Whether object `i` supports `iid` through one of its own declared
    /// interfaces or an ancestor of one.
    pub fn object_supports(&self, i: usize, iid: u128) -> (r: bool)
        requires
            self.wf(),
            (i as int) < self.slots@.len(),
        ensures
            r == self.supports_own(i as int, iid),
    {
        proof {
            assert(self.slot_wf(i as int));
        }
        let mut k: usize = 0;
        let len = self.slots[i].ifaces.len();
        while k < len
            invariant
                self.wf(),
                (i as int) < self.slots@.len(),
                len == self.slots@[i as int].ifaces@.len(),
                k <= len,
                forall|j: int|
                    0 <= j < k ==> !self.registry.chain_contains(
                        self.slots@[i as int].ifaces@[j] as int,
                        iid,
                    ),
            decreases len - k,
        {
            proof {
                assert(self.slot_wf(i as int));
            }
            if self.registry.chain_lookup(self.slots[i].ifaces[k], iid) {
                return true;
            }
            k += 1;
        }
        false
    }

    /// Interface negotiation (the query operation) through facet `f`.
    ///
    /// The governing object's full supported set is its own declared
    /// interfaces and every ancestor of each; through a delegating facet it
    /// also holds the interfaces delegated to the aggregated inner object,
    /// by exact identifier match.  On a member, the call returns a facet
    /// backed by the right object — the inner object itself for a delegated
    /// interface — and increments the one governing counter.  Otherwise it
    /// fails with `InterfaceNotFound`, hands back no facet, and leaves
    /// every reference count untouched.
    pub fn query(&mut self, f: Facet, iid: u128) -> (r: (Status, Option<Facet>))
        requires
            old(self).wf(),
            old(self).facet_live(f),
            old(self).slots@[old(self).governing(f)].count < u32::MAX,
        ensures
            final(self).wf(),
            ({
                let t = old(self).governing(f);
                let s = old(self).slots@[t];
                &&& (r.0 == Status::Success <==> old(self).facet_sees(f, iid))
                &&& (r.0 == Status::Success || r.0 == Status::InterfaceNotFound)
                &&& (r.0 == Status::InterfaceNotFound ==> r.1 is None
                        && *final(self) == *old(self))
                &&& (r.0 == Status::Success ==> {
                    let f2 = r.1->Some_0;
                    &&& r.1 is Some
                    &&& final(self).slots@ == old(self).slots@.update(
                            t,
                            (Object { count: (s.count + 1) as u32, ..s }),
                        )
                    &&& final(self).slots@[t].count == s.count + 1
                    &&& !f2.non_delegating == !f.non_delegating
                    &&& final(self).facet_live(f2)
                    &&& final(self).governing(f2) == t
                    &&& (old(self).supports_own(t, iid) ==> {
                        &&& f2.object as int == t
                        &&& f2.iface == s.ifaces@[old(self).own_search(t, iid, 0)]
                        &&& old(self).registry.chain_contains(f2.iface as int, iid)
                    })
                    &&& (!old(self).supports_own(t, iid) ==> {
                        &&& Some(f2.object) == s.inner
                        &&& f2.iface == s.deleg@[old(self).deleg_search(t, iid, 0)]
                        &&& old(self).registry.descs@[f2.iface as int].iid == iid
                    })
                })
                &&& final(self).registry == old(self).registry
                &&& final(self).server_locks == old(self).server_locks
            }),
    {
        let t = self.governing_exec(f);
        proof {
            assert(self.slot_wf(t as int));
        }
        // Own declared interfaces and their ancestors, in declaration order.
        let mut k: usize = 0;
        let own_len = self.slots[t].ifaces.len();
        while k < own_len
            invariant
                self.wf(),
                self.slots == old(self).slots,
                self.registry == old(self).registry,
                self.server_locks == old(self).server_locks,
                old(self).facet_live(f),
                t as int == old(self).governing(f),
                self.slots@[t as int].count < u32::MAX,
                (t as int) < self.slots@.len(),
                own_len == self.slots@[t as int].ifaces@.len(),
                k <= own_len,
                self.own_search(t as int, iid, 0) == self.own_search(t as int, iid, k as int),
                forall|j: int|
                    0 <= j < k ==> !self.registry.chain_contains(
                        self.slots@[t as int].ifaces@[j] as int,
                        iid,
                    ),
            decreases own_len - k,
        {
            proof {
                assert(self.slot_wf(t as int));
            }
            let cand = self.slots[t].ifaces[k];
            if self.registry.chain_lookup(cand, iid) {
                let c = self.slots[t].count;
                self.slots[t].count = c + 1;
                let f2 = Facet { object: t, iface: cand, non_delegating: f.non_delegating };
                proof {
                    let ti = t as int;
                    assert(old(self).slot_wf(f.object as int));
                    assert(old(self).own_search(ti, iid, k as int) == k as int);
                    assert(old(self).supports_own(ti, iid));
                    assert(self.slots@ =~= old(self).slots@.update(
                        ti,
                        (Object { count: (c + 1) as u32, ..old(self).slots@[ti] }),
                    ));
                    assert forall|i: int| 0 <= i < self.slots@.len() implies self.slot_wf(i) by {
                        assert(old(self).slot_wf(i));
                        assert(old(self).slot_wf(ti));
                    }
                    assert(self.governing(f2) == ti);
                }
                return (Status::Success, Some(f2));
            }
            k += 1;
        }
        // Interfaces delegated to the aggregated inner object, exact match
        // only, visible through delegating facets alone.
        if !f.non_delegating {
            let mut d: usize = 0;
            let deleg_len = self.slots[t].deleg.len();
            while d < deleg_len
                invariant
                    self.wf(),
                    self.slots == old(self).slots,
                    self.registry == old(self).registry,
                    self.server_locks == old(self).server_locks,
                    old(self).facet_live(f),
                    t as int == old(self).governing(f),
                    self.slots@[t as int].count < u32::MAX,
                    !f.non_delegating,
                    !old(self).supports_own(t as int, iid),
                    (t as int) < self.slots@.len(),
                    deleg_len == self.slots@[t as int].deleg@.len(),
                    d <= deleg_len,
                    self.deleg_search(t as int, iid, 0) == self.deleg_search(
                        t as int,
                        iid,
                        d as int,
                    ),
                    forall|j: int|
                        0 <= j < d ==> self.registry.descs@[self.slots@[t as int].deleg@[j] as int].iid
                            != iid,
                decreases deleg_len - d,
            {
                proof {
                    assert(self.slot_wf(t as int));
                }
                let cand = self.slots[t].deleg[d];
                if self.registry.descs[cand].iid == iid {
                    proof {
                        assert(self.slot_wf(t as int));
                    }
                    let j = match self.slots[t].inner {
                        Some(j) => j,
                        None => {
                            proof {
                                assert(false);
                            }
                            0
                        }
                    };
                    let c = self.slots[t].count;
                    self.slots[t].count = c + 1;
                    let f2 = Facet { object: j, iface: cand, non_delegating: false };
                    proof {
                        let ti = t as int;
                        assert(old(self).deleg_search(ti, iid, d as int) == d as int);
                        assert(old(self).supports_deleg(ti, iid));
                        assert(self.slots@ =~= old(self).slots@.update(
                            ti,
                            (Object { count: (c + 1) as u32, ..old(self).slots@[ti] }),
                        ));
                        assert forall|i: int| 0 <= i < self.slots@.len() implies self.slot_wf(i)
                        by {
                            assert(old(self).slot_wf(i));
                            assert(old(self).slot_wf(ti));
                        }
                        assert(self.slots@[j as int].outer == Some(t));
                        assert(self.governing(f2) == ti);
                        assert(self.facet_live(f2));
                    }
                    return (Status::Success, Some(f2));
                }
                d += 1;
            }
        }
        (Status::InterfaceNotFound, None)
    }
}

} // verus!
