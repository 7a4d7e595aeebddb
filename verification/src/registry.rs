//! Interface descriptors and their inheritance-by-prefix vtable layout.
//!
//! A descriptor names one interface contract: a 128-bit identifier compared
//! only for exact equality, the single base contract it extends, and the
//! method entries it adds beyond that base.  Descriptors live in a registry
//! where every base stands strictly earlier, so each inheritance chain is
//! finite and ends at the identity/lifetime contract at index 0.

use vstd::prelude::*;

verus! {

/// Identifier of the identity/lifetime contract: the one interface that
/// every object supports and that every inheritance chain terminates at.
pub const IDENTITY_IID: u128 = 0x00000000_0000_0000_C000_0000_0000_0046u128;

/// Entry code of the interface-query operation, first in every vtable.
pub const ENTRY_QUERY: u64 = 1;
/// Entry code of the reference-increment operation, second in every vtable.
pub const ENTRY_ADD_REF: u64 = 2;
/// Entry code of the reference-decrement operation, third in every vtable.
pub const ENTRY_RELEASE: u64 = 3;

/// One interface contract.
pub struct InterfaceDesc {
    /// The 128-bit interface identifier, compared only for exact equality.
    pub iid: u128,
    /// Registry index of the base contract; `None` only for the
    /// identity/lifetime contract itself.
    pub base: Option<usize>,
    /// The contract's own method entries, in declaration order, standing
    /// for the callable entry points the interface adds beyond its base.
    pub methods: Vec<u64>,
}

/// The process-wide set of interface descriptors, immutable once defined.
pub struct Registry {
    pub descs: Vec<InterfaceDesc>,
}

impl Registry {
    /// The descriptor at `i` is structurally sound: its base stands strictly
    /// earlier in the registry, and only the root at index 0 has no base.
    pub open spec fn desc_wf(self, i: int) -> bool {
        match self.descs@[i].base {
            Some(b) => 0 <= (b as int) < i,
            None => i == 0,
        }
    }

    /// Registry well-formedness: the identity contract sits at index 0 with
    /// its three fixed entries, every other descriptor extends an earlier
    /// one, and identifiers are unique.
    pub open spec fn wf(self) -> bool {
        &&& 1 <= self.descs@.len()
        &&& self.descs@[0].base is None
        &&& self.descs@[0].iid == IDENTITY_IID
        &&& self.descs@[0].methods@ == seq![ENTRY_QUERY, ENTRY_ADD_REF, ENTRY_RELEASE]
        &&& forall|i: int| 0 <= i < self.descs@.len() ==> self.desc_wf(i)
        &&& forall|i: int, j: int|
                0 <= i < j < self.descs@.len() ==> self.descs@[i].iid != self.descs@[j].iid
    }

    /// Whether `iid` names the descriptor at `i` or any ancestor of it.
    pub open spec fn chain_contains(self, i: int, iid: u128) -> bool
        decreases i,
    {
        if !(0 <= i < self.descs@.len()) {
            false
        } else if self.descs@[i].iid == iid {
            true
        } else {
            match self.descs@[i].base {
                Some(b) => {
                    if (b as int) < i {
                        self.chain_contains(b as int, iid)
                    } else {
                        false
                    }
                }
                None => false,
            }
        }
    }

    /// Whether the descriptor at `a` lies on the inheritance chain that
    /// starts at `i` (including `i` itself).
    pub open spec fn is_ancestor(self, i: int, a: int) -> bool
        decreases i,
    {
        if !(0 <= i < self.descs@.len()) {
            false
        } else if i == a {
            true
        } else {
            match self.descs@[i].base {
                Some(b) => {
                    if (b as int) < i {
                        self.is_ancestor(b as int, a)
                    } else {
                        false
                    }
                }
                None => false,
            }
        }
    }

    /// The complete vtable of the interface at `i`: the base contract's
    /// complete table first, then the interface's own entries, in order.
    pub open spec fn full_table(self, i: int) -> Seq<u64>
        decreases i,
    {
        if !(0 <= i < self.descs@.len()) {
            Seq::empty()
        } else {
            (match self.descs@[i].base {
                Some(b) => {
                    if (b as int) < i {
                        self.full_table(b as int)
                    } else {
                        Seq::empty()
                    }
                }
                None => Seq::empty(),
            }) + self.descs@[i].methods@
        }
    }

    /// A fresh registry holding only the identity/lifetime contract.
    pub fn new() -> (r: Registry)
        ensures
            r.wf(),
            r.descs@.len() == 1,
    {
        let mut methods: Vec<u64> = Vec::new();
        methods.push(ENTRY_QUERY);
        methods.push(ENTRY_ADD_REF);
        methods.push(ENTRY_RELEASE);
        let mut descs: Vec<InterfaceDesc> = Vec::new();
        descs.push(InterfaceDesc { iid: IDENTITY_IID, base: None, methods });
        let r = Registry { descs };
        proof {
            assert(r.descs@[0].methods@ =~= seq![ENTRY_QUERY, ENTRY_ADD_REF, ENTRY_RELEASE]);
            assert(r.desc_wf(0));
        }
        r
    }

    /// Looks an identifier up among the registered descriptors.
    pub fn find(&self, iid: u128) -> (r: Option<usize>)
        ensures
            match r {
                Some(i) => (i as int) < self.descs@.len() && self.descs@[i as int].iid == iid,
                None => forall|j: int| 0 <= j < self.descs@.len() ==> self.descs@[j].iid != iid,
            },
    {
        let mut k: usize = 0;
        while k < self.descs.len()
            invariant
                k <= self.descs@.len(),
                forall|j: int| 0 <= j < k ==> self.descs@[j].iid != iid,
            decreases self.descs@.len() - k,
        {
            if self.descs[k].iid == iid {
                return Some(k);
            }
            k += 1;
        }
        None
    }

    /// Registers a new contract extending the one at `base`.  Returns the
    /// new descriptor's index, or `None` when the base index is out of range
    /// or the identifier is already taken; in that case nothing changes.
    pub fn register(&mut self, iid: u128, base: usize, methods: Vec<u64>) -> (r: Option<usize>)
        requires
            old(self).wf(),
        ensures
            final(self).wf(),
            (r is Some) <==> (
                (base as int) < old(self).descs@.len()
                && (forall|j: int|
                        0 <= j < old(self).descs@.len() ==> old(self).descs@[j].iid != iid)
            ),
            r is None ==> *final(self) == *old(self),
            r is Some ==> {
                &&& r == Some(old(self).descs@.len() as usize)
                &&& final(self).descs@.len() == old(self).descs@.len() + 1
                &&& final(self).descs@[old(self).descs@.len() as int].iid == iid
                &&& final(self).descs@[old(self).descs@.len() as int].base == Some(base)
                &&& final(self).descs@[old(self).descs@.len() as int].methods == methods
                &&& forall|j: int|
                        0 <= j < old(self).descs@.len()
                            ==> final(self).descs@[j] == old(self).descs@[j]
            },
    {
        if base >= self.descs.len() {
            return None;
        }
        match self.find(iid) {
            Some(_) => None,
            None => {
                let i = self.descs.len();
                self.descs.push(InterfaceDesc { iid, base: Some(base), methods });
                proof {
                    assert forall|j: int| 0 <= j < self.descs@.len() implies self.desc_wf(j) by {
                        if j < i {
                            assert(old(self).desc_wf(j));
                        }
                    }
                }
                Some(i)
            }
        }
    }

    /// Builds the complete vtable of the interface at `i` by laying out the
    /// base contract's complete table first, then the interface's own
    /// entries, in declaration order.
    pub fn build_table(&self, i: usize) -> (t: Vec<u64>)
        requires
            self.wf(),
            (i as int) < self.descs@.len(),
        ensures
            t@ == self.full_table(i as int),
        decreases i,
    {
        proof {
            assert(self.desc_wf(i as int));
        }
        let mut t: Vec<u64> = match self.descs[i].base {
            Some(b) => self.build_table(b),
            None => Vec::new(),
        };
        let ghost base_part: Seq<u64> = t@;
        let mut k: usize = 0;
        while k < self.descs[i].methods.len()
            invariant
                k <= self.descs@[i as int].methods@.len(),
                (i as int) < self.descs@.len(),
                t@ == base_part + self.descs@[i as int].methods@.take(k as int),
            decreases self.descs@[i as int].methods@.len() - k,
        {
            let entry = self.descs[i].methods[k];
            t.push(entry);
            proof {
                assert(t@ =~= base_part + self.descs@[i as int].methods@.take(k + 1 as int));
            }
            k += 1;
        }
        proof {
            assert(self.descs@[i as int].methods@.take(k as int) =~= self.descs@[i as int].methods@);
            assert(t@ =~= self.full_table(i as int));
        }
        t
    }

    /// Walks the inheritance chain from `start`, reporting whether `iid`
    /// names that interface or one of its ancestors.
    pub fn chain_lookup(&self, start: usize, iid: u128) -> (r: bool)
        requires
            self.wf(),
            (start as int) < self.descs@.len(),
        ensures
            r == self.chain_contains(start as int, iid),
    {
        let mut cur = start;
        loop
            invariant
                self.wf(),
                (cur as int) < self.descs@.len(),
                self.chain_contains(start as int, iid) == self.chain_contains(cur as int, iid),
            decreases cur,
        {
            if self.descs[cur].iid == iid {
                return true;
            }
            proof {
                assert(self.desc_wf(cur as int));
            }
            match self.descs[cur].base {
                Some(b) => {
                    cur = b;
                }
                None => {
                    return false;
                }
            }
        }
    }

    /// Inheritance-by-prefix: an ancestor contract's complete vtable is an
    /// exact prefix of the derived contract's complete vtable, so any facet
    /// may be reinterpreted as an ancestor facet without reconstruction.
    pub proof fn lemma_table_prefix(self, i: int, a: int)
        requires
            self.wf(),
            0 <= i < self.descs@.len(),
            self.is_ancestor(i, a),
        ensures
            self.full_table(a).is_prefix_of(self.full_table(i)),
        decreases i,
    {
        if i == a {
            assert(self.full_table(a).is_prefix_of(self.full_table(i)));
        } else {
            assert(self.desc_wf(i));
            let b = self.descs@[i].base->Some_0 as int;
            self.lemma_table_prefix(b, a);
            let ta = self.full_table(a);
            let tb = self.full_table(b);
            let ti = self.full_table(i);
            assert(ti == tb + self.descs@[i].methods@);
            assert(ta =~= tb.subrange(0, ta.len() as int));
            assert forall|x: int| 0 <= x < ta.len() implies ta[x] == ti[x] by {
                assert(ta[x] == tb[x]);
            }
            assert(ta =~= ti.subrange(0, ta.len() as int));
        }
    }

    /// Every interface's complete vtable begins with exactly the identity
    /// contract's three entries — query, increment, decrement — in this
    /// fixed order.
    pub proof fn lemma_identity_prefix(self, i: int)
        requires
            self.wf(),
            0 <= i < self.descs@.len(),
        ensures
            self.full_table(i).len() >= 3,
            self.full_table(i)[0] == ENTRY_QUERY,
            self.full_table(i)[1] == ENTRY_ADD_REF,
            self.full_table(i)[2] == ENTRY_RELEASE,
    {
        self.lemma_identity_root(i);
        self.lemma_table_prefix(i, 0);
        assert(self.full_table(0) =~= seq![ENTRY_QUERY, ENTRY_ADD_REF, ENTRY_RELEASE]);
    }

    /// Every registered interface descends from the identity contract, so
    /// every chain contains the identity identifier.
    pub proof fn lemma_identity_root(self, i: int)
        requires
            self.wf(),
            0 <= i < self.descs@.len(),
        ensures
            self.is_ancestor(i, 0),
            self.chain_contains(i, IDENTITY_IID),
        decreases i,
    {
        assert(self.desc_wf(i));
        if i == 0 {
            assert(self.chain_contains(0, IDENTITY_IID));
        } else {
            let b = self.descs@[i].base->Some_0 as int;
            self.lemma_identity_root(b);
        }
    }
}

} // verus!
