//! The class-factory instantiation protocol and aggregation wiring.
//!
//! A class description declares which interfaces a new object supports and
//! whether it may be aggregated.  Creation follows the canonical sequence:
//! the object starts at count zero, takes one self-reference, negotiates
//! the requested interface, and drops the self-reference — leaving exactly
//! one externally owned reference on success and a torn-down object on
//! failure.  Aggregation wires an inner object, created against an outer
//! object, into that outer object together with the map of interfaces it
//! backs.

use vstd::prelude::*;

use crate::registry::IDENTITY_IID;
use crate::runtime::{Facet, Object, Runtime, Status};

verus! {

/// What a class factory knows about the objects it creates: the interfaces
/// a new instance declares, and whether the class supports aggregation.
pub struct ClassDesc {
    /// Registry indices of the interfaces an instance declares itself.
    pub ifaces: Vec<usize>,
    /// Whether an instance may be created as part of an aggregate.
    pub aggregatable: bool,
}

impl ClassDesc {
    /// The class declares at least one interface and every entry points
    /// into the registry.
    pub open spec fn wf(self, rt: Runtime) -> bool {
        &&& 1 <= self.ifaces@.len()
        &&& forall|k: int|
                0 <= k < self.ifaces@.len()
                    ==> (self.ifaces@[k] as int) < rt.registry.descs@.len()
    }
}

impl Runtime {
    /// A fresh runtime: an identity-only registry, no objects, no locks.
    pub fn new() -> (rt: Runtime)
        ensures
            rt.wf(),
            rt.slots@.len() == 0,
            rt.server_locks == 0,
            rt.registry.descs@.len() == 1,
    {
        Runtime { registry: crate::registry::Registry::new(), slots: Vec::new(), server_locks: 0 }
    }

    /// Registers a new interface contract extending the one at `base`,
    /// leaving the object arena untouched.  Returns the new descriptor's
    /// index, or `None` when the base index is out of range or the
    /// identifier is already taken; in that case nothing changes at all.
    pub fn register_interface(&mut self, iid: u128, base: usize, methods: Vec<u64>) -> (r: Option<
        usize,
    >)
        requires
            old(self).wf(),
        ensures
            final(self).wf(),
            final(self).slots == old(self).slots,
            final(self).server_locks == old(self).server_locks,
            (r is Some) <==> (
                (base as int) < old(self).registry.descs@.len()
                && (forall|j: int|
                        0 <= j < old(self).registry.descs@.len()
                            ==> old(self).registry.descs@[j].iid != iid)
            ),
            r is None ==> *final(self) == *old(self),
            r is Some ==> {
                let prior = old(self).registry.descs@.len() as int;
                &&& r == Some(prior as usize)
                &&& final(self).registry.descs@.len() == prior + 1
                &&& final(self).registry.descs@[prior].iid == iid
                &&& final(self).registry.descs@[prior].base == Some(base)
                &&& final(self).registry.descs@[prior].methods == methods
                &&& forall|j: int|
                        0 <= j < prior
                            ==> final(self).registry.descs@[j] == old(self).registry.descs@[j]
            },
    {
        let r = self.registry.register(iid, base, methods);
        proof {
            assert forall|i: int| 0 <= i < self.slots@.len() implies self.slot_wf(i) by {
                assert(old(self).slot_wf(i));
            }
        }
        r
    }

    fn alloc_object(&mut self, class: &ClassDesc, outer: Option<usize>) -> (idx: usize)
        requires
            old(self).wf(),
            class.wf(*old(self)),
            old(self).slots@.len() < usize::MAX,
            match outer {
                Some(o) => (o as int) < old(self).slots@.len()
                    && old(self).slots@[o as int].alive
                    && old(self).slots@[o as int].outer is None,
                None => true,
            },
        ensures
            final(self).wf(),
            idx as int == old(self).slots@.len(),
            final(self).slots@ == old(self).slots@.push(
                (Object {
                    alive: true,
                    count: 0,
                    teardowns: 0,
                    ifaces: final(self).slots@[idx as int].ifaces,
                    deleg: final(self).slots@[idx as int].deleg,
                    inner: None,
                    outer,
                }),
            ),
            final(self).slots@[idx as int].ifaces@ == class.ifaces@,
            final(self).slots@[idx as int].deleg@.len() == 0,
            final(self).registry == old(self).registry,
            final(self).server_locks == old(self).server_locks,
    {
        let idx = self.slots.len();
        let mut ifaces: Vec<usize> = Vec::new();
        let mut k: usize = 0;
        while k < class.ifaces.len()
            invariant
                k <= class.ifaces@.len(),
                ifaces@ == class.ifaces@.take(k as int),
            decreases class.ifaces@.len() - k,
        {
            ifaces.push(class.ifaces[k]);
            proof {
                assert(ifaces@ =~= class.ifaces@.take(k + 1 as int));
            }
            k += 1;
        }
        proof {
            assert(ifaces@ =~= class.ifaces@);
        }
        self.slots.push(
            Object {
                alive: true,
                count: 0,
                teardowns: 0,
                ifaces,
                deleg: Vec::new(),
                inner: None,
                outer,
            },
        );
        proof {
            assert forall|i: int| 0 <= i < self.slots@.len() implies self.slot_wf(i) by {
                if i < idx as int {
                    assert(old(self).slot_wf(i));
                    match old(self).slots@[i].inner {
                        Some(ji) => {
                            assert(old(self).slot_wf(ji as int));
                        }
                        None => {}
                    }
                    match old(self).slots@[i].outer {
                        Some(oi) => {
                            assert(old(self).slot_wf(oi as int));
                        }
                        None => {}
                    }
                } else {
                    match outer {
                        Some(o) => {
                            assert(old(self).slot_wf(o as int));
                        }
                        None => {}
                    }
                }
            }
        }
        idx
    }

    /// The class-factory creation operation.
    ///
    /// A non-null aggregation outer on a non-aggregatable class fails at
    /// once with `AggregationNotAllowed`: no object is constructed and
    /// nothing changes.  Creating as part of an aggregate requires exactly
    /// the identity interface; any other request fails with
    /// `InterfaceNotFound` before construction, and a granted request hands
    /// the outer object the inner object's non-delegating identity facet
    /// holding the single ownership reference.  Plain creation constructs
    /// the object at count zero, takes a self-reference, negotiates the
    /// requested interface and drops the self-reference: on success exactly
    /// one reference is handed to the caller, and on a failed negotiation
    /// the self-reference's release tears the fresh object down — no leak.
    pub fn create_instance(&mut self, class: &ClassDesc, outer: Option<usize>, iid: u128) -> (r:
        (Status, Option<Facet>))
        requires
            old(self).wf(),
            class.wf(*old(self)),
            old(self).slots@.len() < usize::MAX,
            match outer {
                Some(o) => (o as int) < old(self).slots@.len()
                    && old(self).slots@[o as int].alive
                    && old(self).slots@[o as int].outer is None,
                None => true,
            },
        ensures
            final(self).wf(),
            final(self).registry == old(self).registry,
            final(self).server_locks == old(self).server_locks,
            (outer is Some && !class.aggregatable) ==> (
                r == (Status::AggregationNotAllowed, Option::<Facet>::None)
                && *final(self) == *old(self)
            ),
            (outer is Some && class.aggregatable && iid != IDENTITY_IID) ==> (
                r == (Status::InterfaceNotFound, Option::<Facet>::None)
                && *final(self) == *old(self)
            ),
            (outer is Some && class.aggregatable && iid == IDENTITY_IID) ==> ({
                let idx = old(self).slots@.len() as int;
                let f = r.1->Some_0;
                &&& r.0 == Status::Success
                &&& r.1 is Some
                &&& f.object as int == idx
                &&& f.non_delegating
                &&& final(self).slots@.len() == idx + 1
                &&& final(self).slots@[idx].alive
                &&& final(self).slots@[idx].count == 1
                &&& final(self).slots@[idx].outer == outer
                &&& final(self).slots@[idx].inner is None
                &&& final(self).slots@[idx].ifaces@ == class.ifaces@
                &&& final(self).facet_live(f)
                &&& final(self).governing(f) == idx
                &&& forall|i: int| 0 <= i < idx ==> final(self).slots@[i] == old(self).slots@[i]
            }),
            outer is None ==> ({
                let idx = old(self).slots@.len() as int;
                &&& final(self).slots@.len() == idx + 1
                &&& final(self).slots@[idx].ifaces@ == class.ifaces@
                &&& final(self).slots@[idx].outer is None
                &&& final(self).slots@[idx].inner is None
                &&& forall|i: int| 0 <= i < idx ==> final(self).slots@[i] == old(self).slots@[i]
                &&& (r.0 == Status::Success <==> final(self).supports_own(idx, iid))
                &&& (r.0 == Status::Success <==> exists|k: int|
                        0 <= k < class.ifaces@.len()
                            && old(self).registry.chain_contains(class.ifaces@[k] as int, iid))
                &&& (r.0 == Status::Success ==> {
                    let f = r.1->Some_0;
                    &&& r.1 is Some
                    &&& f.object as int == idx
                    &&& !f.non_delegating
                    &&& final(self).registry.chain_contains(f.iface as int, iid)
                    &&& final(self).slots@[idx].alive
                    &&& final(self).slots@[idx].count == 1
                    &&& final(self).facet_live(f)
                    &&& final(self).governing(f) == idx
                })
                &&& (r.0 != Status::Success ==> {
                    &&& r == (Status::InterfaceNotFound, Option::<Facet>::None)
                    &&& !final(self).slots@[idx].alive
                    &&& final(self).slots@[idx].count == 0
                    &&& final(self).slots@[idx].teardowns == 1
                })
            }),
    {
        if outer.is_some() && !class.aggregatable {
            return (Status::AggregationNotAllowed, None);
        }
        if outer.is_some() && iid != IDENTITY_IID {
            // Aggregated creation grants only the non-delegating identity.
            return (Status::InterfaceNotFound, None);
        }
        let idx = self.alloc_object(class, outer);
        let ghost allocated = *self;
        // The canonical construction sequence: one self-reference around
        // the first negotiation.
        let seed = Facet { object: idx, iface: 0, non_delegating: outer.is_some() };
        proof {
            assert(self.slot_wf(idx as int));
            assert(self.registry.descs@.len() >= 1);
            assert(self.governing(seed) == idx as int);
        }
        self.add_ref(seed);
        proof {
            if outer is Some {
                self.registry.lemma_identity_root(self.slots@[idx as int].ifaces@[0] as int);
                assert(self.supports_own(idx as int, IDENTITY_IID));
            }
        }
        let (st, facet) = self.query(seed, iid);
        let n = self.release(seed);
        proof {
            if st == Status::Success {
                assert(n == 1);
                let f2 = facet->Some_0;
                assert(self.slots@ =~= allocated.slots@.update(
                    idx as int,
                    (Object { count: 1, ..allocated.slots@[idx as int] }),
                ));
                assert(self.facet_live(f2));
            } else {
                assert(n == 0);
            }
            if outer is None {
                assert forall|i: int| 0 <= i < idx as int
                    implies self.slots@[i] == old(self).slots@[i] by {}
                assert(allocated.slots@[idx as int].ifaces@ == class.ifaces@);
                assert forall|k: int|
                    0 <= k < class.ifaces@.len() && old(self).registry.chain_contains(
                        class.ifaces@[k] as int,
                        iid,
                    ) implies allocated.supports_own(idx as int, iid) by {}
                assert(allocated.supports_own(idx as int, iid) == self.supports_own(
                    idx as int,
                    iid,
                ));
            }
        }
        (st, facet)
    }

    /// Every entry of a candidate delegation map points into the registry
    /// and is resolvable on the inner object at `j`.
    fn deleg_resolvable(&self, j: usize, deleg: &Vec<usize>) -> (r: bool)
        requires
            self.wf(),
            (j as int) < self.slots@.len(),
        ensures
            r <==> (forall|k: int|
                0 <= k < deleg@.len() ==> (deleg@[k] as int) < self.registry.descs@.len()
                    && self.supports_own(j as int, self.registry.descs@[deleg@[k] as int].iid)),
    {
        let mut k: usize = 0;
        while k < deleg.len()
            invariant
                self.wf(),
                (j as int) < self.slots@.len(),
                k <= deleg@.len(),
                forall|m: int|
                    0 <= m < k ==> (deleg@[m] as int) < self.registry.descs@.len()
                        && self.supports_own(
                            j as int,
                            self.registry.descs@[deleg@[m] as int].iid,
                        ),
            decreases deleg@.len() - k,
        {
            let d = deleg[k];
            if d >= self.registry.descs.len() {
                proof {
                    let m = k as int;
                    assert(!((deleg@[m] as int) < self.registry.descs@.len()
                        && self.supports_own(
                            j as int,
                            self.registry.descs@[deleg@[m] as int].iid,
                        )));
                }
                return false;
            }
            if !self.object_supports(j, self.registry.descs[d].iid) {
                proof {
                    let m = k as int;
                    assert(!self.supports_own(
                        j as int,
                        self.registry.descs@[deleg@[m] as int].iid,
                    ));
                }
                return false;
            }
            k += 1;
        }
        true
    }

    /// Wires a freshly created aggregated inner object into its outer
    /// object, together with the delegation map listing which interfaces
    /// the inner object backs.  Every listed interface must be resolvable
    /// on the inner object; otherwise nothing changes and the call reports
    /// failure.
    pub fn adopt_inner(&mut self, outer: usize, inner_facet: Facet, deleg: Vec<usize>) -> (ok:
        bool)
        requires
            old(self).wf(),
            (outer as int) < old(self).slots@.len(),
            old(self).slots@[outer as int].alive,
            old(self).slots@[outer as int].inner is None,
            old(self).slots@[outer as int].outer is None,
            inner_facet.non_delegating,
            (inner_facet.object as int) < old(self).slots@.len(),
            old(self).slots@[inner_facet.object as int].alive,
            old(self).slots@[inner_facet.object as int].outer == Some(outer),
            old(self).slots@[inner_facet.object as int].count >= 1,
        ensures
            final(self).wf(),
            final(self).registry == old(self).registry,
            final(self).server_locks == old(self).server_locks,
            ok <==> (forall|k: int|
                0 <= k < deleg@.len() ==> (deleg@[k] as int) < old(self).registry.descs@.len()
                    && old(self).supports_own(
                        inner_facet.object as int,
                        old(self).registry.descs@[deleg@[k] as int].iid,
                    )),
            !ok ==> *final(self) == *old(self),
            ok ==> ({
                let o = outer as int;
                &&& final(self).slots@ == old(self).slots@.update(
                        o,
                        (Object {
                            inner: Some(inner_facet.object),
                            deleg: final(self).slots@[o].deleg,
                            ..old(self).slots@[o]
                        }),
                    )
                &&& final(self).slots@[o].deleg@ == deleg@
                &&& final(self).slots@[o].inner == Some(inner_facet.object)
                &&& forall|i: int|
                        0 <= i < old(self).slots@.len() && i != o
                            ==> final(self).slots@[i] == old(self).slots@[i]
            }),
    {
        let j = inner_facet.object;
        proof {
            assert(self.slot_wf(j as int));
            assert(self.slot_wf(outer as int));
        }
        if !self.deleg_resolvable(j, &deleg) {
            return false;
        }
        self.slots[outer].deleg = deleg;
        self.slots[outer].inner = Some(j);
        proof {
            let o = outer as int;
            assert(self.slots@ =~= old(self).slots@.update(
                o,
                (Object {
                    inner: Some(inner_facet.object),
                    deleg: self.slots@[o].deleg,
                    ..old(self).slots@[o]
                }),
            ));
            assert forall|i: int| 0 <= i < self.slots@.len() implies self.slot_wf(i) by {
                assert(old(self).slot_wf(i));
                assert(old(self).slot_wf(o));
                assert(old(self).slot_wf(j as int));
                match old(self).slots@[i].inner {
                    Some(ji) => {
                        assert(old(self).slot_wf(ji as int));
                    }
                    None => {}
                }
                match old(self).slots@[i].outer {
                    Some(oi) => {
                        assert(old(self).slot_wf(oi as int));
                    }
                    None => {}
                }
            }
        }
        true
    }

    /// The secondary "keep server loaded" operation: adjusts the
    /// process-wide usage counter, which is unrelated to any individual
    /// object's lifetime, and acknowledges success.
    pub fn lock_server(&mut self, lock: bool) -> (st: Status)
        requires
            old(self).wf(),
        ensures
            final(self).wf(),
            st == Status::Success,
            final(self).registry == old(self).registry,
            final(self).slots == old(self).slots,
            lock && old(self).server_locks < u64::MAX
                ==> final(self).server_locks == old(self).server_locks + 1,
            lock && old(self).server_locks == u64::MAX
                ==> final(self).server_locks == old(self).server_locks,
            !lock && old(self).server_locks > 0
                ==> final(self).server_locks == old(self).server_locks - 1,
            !lock && old(self).server_locks == 0 ==> final(self).server_locks == 0,
    {
        if lock {
            if self.server_locks < u64::MAX {
                self.server_locks = self.server_locks + 1;
            }
        } else {
            if self.server_locks > 0 {
                self.server_locks = self.server_locks - 1;
            }
        }
        proof {
            assert forall|i: int| 0 <= i < self.slots@.len() implies self.slot_wf(i) by {
                assert(old(self).slot_wf(i));
            }
        }
        Status::Success
    }

    /// How many objects the arena has ever allocated, freed ones included.
    pub fn object_count(&self) -> (n: usize)
        ensures
            n as int == self.slots@.len(),
    {
        self.slots.len()
    }

    /// The current reference count of the object at `i`; 0 out of range.
    pub fn ref_count(&self, i: usize) -> (n: u32)
        ensures
            (i as int) < self.slots@.len() ==> n == self.slots@[i as int].count,
            (i as int) >= self.slots@.len() ==> n == 0,
    {
        if i < self.slots.len() {
            self.slots[i].count
        } else {
            0
        }
    }

    /// Whether the object at `i` still exists; `false` out of range.
    pub fn is_alive(&self, i: usize) -> (b: bool)
        ensures
            (i as int) < self.slots@.len() ==> b == self.slots@[i as int].alive,
            (i as int) >= self.slots@.len() ==> !b,
    {
        if i < self.slots.len() {
            self.slots[i].alive
        } else {
            false
        }
    }

    /// How many times teardown has run for the object at `i`; 0 out of
    /// range.
    pub fn teardown_count(&self, i: usize) -> (n: u32)
        ensures
            (i as int) < self.slots@.len() ==> n == self.slots@[i as int].teardowns,
            (i as int) >= self.slots@.len() ==> n == 0,
    {
        if i < self.slots.len() {
            self.slots[i].teardowns
        } else {
            0
        }
    }

    /// The current process-wide usage count.
    pub fn server_lock_count(&self) -> (n: u64)
        ensures
            n == self.server_locks,
    {
        self.server_locks
    }
}

} // verus!
