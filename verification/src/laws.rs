//! Laws of the reference-counting state machine.
//!
//! The identity/lifetime operations on one governing counter are modelled
//! as a sequence of abstract steps — `true` an increment, `false` a
//! decrement — whose per-step effect is exactly what `add_ref` and
//! `release` ensure.  The proofs here state the machine's global
//! guarantees: symmetry of balanced increment/decrement runs, the
//! exactly-once teardown, and the independence of the counters on either
//! side of a non-delegating identity facet.

use vstd::prelude::*;

use crate::runtime::release_spec;
use crate::runtime::Object;
use crate::runtime::Runtime;

verus! {

/// The effect of one increment on the counter at `g`: the count rises by
/// one and nothing else changes.  Out-of-range, freed, or saturated
/// counters are left alone, matching the guards under which `add_ref` may
/// be called at all.
pub open spec fn add_ref_spec(slots: Seq<Object>, g: int) -> Seq<Object> {
    if 0 <= g < slots.len() && slots[g].alive && slots[g].count < u32::MAX {
        slots.update(g, (Object { count: (slots[g].count + 1) as u32, ..slots[g] }))
    } else {
        slots
    }
}

/// A run of identity/lifetime operations on the counter at `g`: `true` an
/// increment, `false` a decrement-with-teardown.
pub open spec fn apply_ops(slots: Seq<Object>, g: int, ops: Seq<bool>) -> Seq<Object>
    decreases ops.len(),
{
    if ops.len() == 0 {
        slots
    } else {
        let next = if ops[0] {
            add_ref_spec(slots, g)
        } else {
            release_spec(slots, g)
        };
        apply_ops(next, g, ops.drop_first())
    }
}

/// The run made of `n` increments followed by `n` decrements.
pub open spec fn incs_then_decs(n: nat) -> Seq<bool> {
    Seq::new(2 * n, |i: int| i < n)
}

/// Splitting a run: applying a concatenation is applying the parts in
/// order.
pub proof fn lemma_apply_ops_append(slots: Seq<Object>, g: int, a: Seq<bool>, b: Seq<bool>)
    ensures
        apply_ops(slots, g, a + b) == apply_ops(apply_ops(slots, g, a), g, b),
    decreases a.len(),
{
    if a.len() == 0 {
        assert(a + b =~= b);
    } else {
        assert((a + b)[0] == a[0]);
        assert((a + b).drop_first() =~= a.drop_first() + b);
        let next = if a[0] {
            add_ref_spec(slots, g)
        } else {
            release_spec(slots, g)
        };
        lemma_apply_ops_append(next, g, a.drop_first(), b);
    }
}

/// Refcount symmetry: starting from a live object with any count of at
/// least one, a run of `n` increments followed by `n` decrements returns
/// the whole arena to exactly its starting state — the count is back where
/// it began and no teardown was triggered anywhere along the run.
pub proof fn lemma_refcount_symmetry(slots: Seq<Object>, g: int, n: nat)
    requires
        0 <= g < slots.len(),
        slots[g].alive,
        slots[g].count >= 1,
        slots[g].count + n <= u32::MAX,
    ensures
        apply_ops(slots, g, incs_then_decs(n)) == slots,
    decreases n,
{
    if n == 0 {
        assert(incs_then_decs(0) =~= Seq::<bool>::empty());
    } else {
        let c = slots[g].count;
        let s1 = add_ref_spec(slots, g);
        assert(s1 == slots.update(g, (Object { count: (c + 1) as u32, ..slots[g] })));
        let mid = incs_then_decs((n - 1) as nat);
        let ops = incs_then_decs(n);
        assert(ops =~= seq![true] + (mid + seq![false]));
        assert(ops[0]);
        assert(ops.drop_first() =~= mid + seq![false]);
        lemma_refcount_symmetry(s1, g, (n - 1) as nat);
        lemma_apply_ops_append(s1, g, mid, seq![false]);
        assert(apply_ops(s1, g, mid + seq![false]) == apply_ops(s1, g, seq![false]));
        assert(seq![false].drop_first() =~= Seq::<bool>::empty());
        assert(apply_ops(release_spec(s1, g), g, Seq::<bool>::empty()) == release_spec(s1, g));
        assert(!seq![false][0]);
        assert(apply_ops(s1, g, seq![false]) == apply_ops(
            release_spec(s1, g),
            g,
            seq![false].drop_first(),
        ));
        assert(apply_ops(s1, g, seq![false]) == release_spec(s1, g));
        assert(s1[g].count == c + 1 >= 2);
        assert((Object { count: ((c + 1) - 1) as u32, ..s1[g] }) == slots[g]);
        assert(release_spec(s1, g) =~= slots);
        assert(apply_ops(slots, g, ops) == apply_ops(s1, g, ops.drop_first()));
    }
}

/// The running balance of a run: each increment counts +1, each decrement
/// -1.
pub open spec fn balance(ops: Seq<bool>) -> int
    decreases ops.len(),
{
    if ops.len() == 0 {
        0
    } else {
        (if ops[0] {
            1int
        } else {
            -1int
        }) + balance(ops.drop_first())
    }
}

/// Peeling the first operation off a balance.
pub proof fn lemma_balance_cons(b: bool, t: Seq<bool>)
    ensures
        balance(seq![b] + t) == (if b {
            1int
        } else {
            -1int
        }) + balance(t),
{
    assert((seq![b] + t)[0] == b);
    assert((seq![b] + t).drop_first() =~= t);
}

/// The exact effect of a run on the counter at `g`, for any run that
/// keeps the count at least one and within machine range at every prefix:
/// only the one counter moves, by exactly the run's balance, and the
/// object stays live throughout — no step ever observes the count at
/// zero, so no teardown is triggered.
pub proof fn lemma_run_effect(slots: Seq<Object>, g: int, ops: Seq<bool>)
    requires
        0 <= g < slots.len(),
        slots[g].alive,
        forall|m: int|
            0 <= m <= ops.len() ==> 1 <= slots[g].count + balance(#[trigger] ops.take(m))
                <= u32::MAX,
    ensures
        apply_ops(slots, g, ops) == slots.update(
            g,
            (Object { count: (slots[g].count + balance(ops)) as u32, ..slots[g] }),
        ),
    decreases ops.len(),
{
    let c = slots[g].count;
    if ops.len() == 0 {
        assert(ops.take(0) =~= ops);
        assert((Object { count: (c + balance(ops)) as u32, ..slots[g] }) == slots[g]);
        assert(slots.update(g, slots[g]) =~= slots);
    } else {
        let rest = ops.drop_first();
        assert(ops.take(1) =~= seq![ops[0]]);
        lemma_balance_cons(ops[0], Seq::<bool>::empty());
        assert(seq![ops[0]] + Seq::<bool>::empty() =~= seq![ops[0]]);
        assert(balance(ops.take(1)) == (if ops[0] { 1int } else { -1int }));
        assert(1 <= c + balance(ops.take(1)) <= u32::MAX);
        let next = if ops[0] {
            add_ref_spec(slots, g)
        } else {
            release_spec(slots, g)
        };
        let cn = if ops[0] {
            (c + 1) as u32
        } else {
            (c - 1) as u32
        };
        assert(ops.take(0) =~= Seq::<bool>::empty());
        assert(1 <= c);
        if ops[0] {
            assert(c < u32::MAX);
            assert(next == slots.update(g, (Object { count: cn, ..slots[g] })));
        } else {
            assert(c >= 2);
            assert(next == slots.update(g, (Object { count: cn, ..slots[g] })));
        }
        assert forall|m: int| 0 <= m <= rest.len() implies 1 <= next[g].count + balance(
            #[trigger] rest.take(m),
        ) <= u32::MAX by {
            assert(ops.take(m + 1) =~= seq![ops[0]] + rest.take(m));
            lemma_balance_cons(ops[0], rest.take(m));
            assert(1 <= c + balance(ops.take(m + 1)) <= u32::MAX);
        }
        lemma_run_effect(next, g, rest);
        assert(ops.take(ops.len() as int) =~= ops);
        assert(ops =~= seq![ops[0]] + rest);
        lemma_balance_cons(ops[0], rest);
        assert((Object { count: (next[g].count + balance(rest)) as u32, ..next[g] }) == (Object {
            count: (c + balance(ops)) as u32,
            ..slots[g]
        }));
        assert(next.update(g, (Object { count: (c + balance(ops)) as u32, ..slots[g] }))
            =~= slots.update(g, (Object { count: (c + balance(ops)) as u32, ..slots[g] })));
    }
}

/// Refcount symmetry over any interleaving: a run whose increments and
/// decrements balance out, and which never lets the count fall to zero at
/// any prefix, returns the arena exactly to its starting state — the
/// count is back where it began and no teardown was triggered anywhere
/// along the run.
pub proof fn lemma_balanced_interleaving(slots: Seq<Object>, g: int, ops: Seq<bool>)
    requires
        0 <= g < slots.len(),
        slots[g].alive,
        balance(ops) == 0,
        forall|m: int|
            0 <= m <= ops.len() ==> 1 <= slots[g].count + balance(#[trigger] ops.take(m))
                <= u32::MAX,
    ensures
        apply_ops(slots, g, ops) == slots,
{
    lemma_run_effect(slots, g, ops);
    assert((Object { count: (slots[g].count + balance(ops)) as u32, ..slots[g] }) == slots[g]);
    assert(slots.update(g, slots[g]) =~= slots);
}

/// Teardown, the transition: the decrement that finds a live object at
/// count one frees it and runs its teardown, recording exactly one.
pub proof fn lemma_teardown_transition(slots: Seq<Object>, g: int)
    requires
        0 <= g < slots.len(),
        slots[g].alive,
        slots[g].count == 1,
        slots[g].teardowns == 0,
    ensures
        !release_spec(slots, g)[g].alive,
        release_spec(slots, g)[g].count == 0,
        release_spec(slots, g)[g].teardowns == 1,
{
}

/// Teardown, the permanence: a freed object is never touched again by any
/// further run of identity/lifetime operations, through any facet — its
/// slot, and with it the record that teardown ran exactly once, stays
/// exactly as teardown left it.
pub proof fn lemma_freed_slot_stable(slots: Seq<Object>, g: int, h: int, ops: Seq<bool>)
    requires
        0 <= g < slots.len(),
        !slots[g].alive,
    ensures
        apply_ops(slots, h, ops).len() == slots.len(),
        apply_ops(slots, h, ops)[g] == slots[g],
    decreases ops.len(),
{
    if ops.len() > 0 {
        let next = if ops[0] {
            add_ref_spec(slots, h)
        } else {
            release_spec(slots, h)
        };
        assert(next[g] == slots[g]);
        lemma_freed_slot_stable(next, g, h, ops.drop_first());
    }
}

/// Teardown at most once, as an arena invariant: in any well-formed
/// runtime, every object's teardown has run at most once — and exactly
/// once precisely for the objects that have been freed.
pub proof fn lemma_teardown_at_most_once(rt: Runtime)
    requires
        rt.wf(),
    ensures
        forall|i: int|
            0 <= i < rt.slots@.len() ==> (#[trigger] rt.slots@[i].teardowns) <= 1
                && (rt.slots@[i].teardowns == 1 <==> !rt.slots@[i].alive),
{
    assert forall|i: int|
        0 <= i < rt.slots@.len() implies (#[trigger] rt.slots@[i].teardowns) <= 1 && (
        rt.slots@[i].teardowns == 1 <==> !rt.slots@[i].alive) by {
        assert(rt.slot_wf(i));
    }
}

/// Non-delegating inner identity: a run of identity/lifetime operations
/// on the counter at `g` never touches any earlier slot.  An outer object
/// always stands earlier in the arena than its aggregated inner object, so
/// exercising the inner object through its non-delegating identity facet —
/// whose governing counter is the inner object's own — leaves the outer
/// object's counter untouched: the two counters evolve independently.
pub proof fn lemma_counter_independence(slots: Seq<Object>, g: int, o: int, ops: Seq<bool>)
    requires
        0 <= o < g,
    ensures
        apply_ops(slots, g, ops).len() == slots.len(),
        apply_ops(slots, g, ops)[o] == slots[o],
    decreases ops.len(),
{
    if ops.len() > 0 {
        let next = if ops[0] {
            add_ref_spec(slots, g)
        } else {
            release_spec(slots, g)
        };
        assert(next[o] == slots[o]);
        lemma_counter_independence(next, g, o, ops.drop_first());
    }
}

} // verus!
