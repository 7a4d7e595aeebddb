// Lifetime behaviour: reference counting, teardown, the factory protocol,
// and the process-wide usage counter.

use object_model::factory::ClassDesc;
use object_model::registry::IDENTITY_IID;
use object_model::runtime::{Runtime, Status};

const BASE_IID: u128 = 0x1111_0000_0000_0000_0000_0000_0000_0001;
const MID_IID: u128 = 0x1111_0000_0000_0000_0000_0000_0000_0002;
const LEAF_IID: u128 = 0x1111_0000_0000_0000_0000_0000_0000_0003;
const MISSING_IID: u128 = 0xdead_0000_0000_0000_0000_0000_0000_beef;

fn chain_runtime() -> (Runtime, usize, usize, usize) {
    let mut rt = Runtime::new();
    let b = rt.register_interface(BASE_IID, 0, vec![10]).unwrap();
    let m = rt.register_interface(MID_IID, b, vec![11]).unwrap();
    let l = rt.register_interface(LEAF_IID, m, vec![12]).unwrap();
    (rt, b, m, l)
}

#[test]
fn refcount_symmetry_balanced_run() {
    let (mut rt, _b, _m, l) = chain_runtime();
    let class = ClassDesc { ifaces: vec![l], aggregatable: false };
    let (st, f) = rt.create_instance(&class, None, LEAF_IID);
    assert_eq!(st, Status::Success);
    let f = f.unwrap();
    assert_eq!(rt.ref_count(f.object), 1);
    let n = 7u32;
    for i in 0..n {
        assert_eq!(rt.add_ref(f), 2 + i);
    }
    assert_eq!(rt.ref_count(f.object), 1 + n);
    for i in 0..n {
        assert_eq!(rt.release(f), n - i);
    }
    assert_eq!(rt.ref_count(f.object), 1);
    assert!(rt.is_alive(f.object));
    assert_eq!(rt.teardown_count(f.object), 0);
}

#[test]
fn refcount_symmetry_interleaved_run() {
    let (mut rt, _b, _m, l) = chain_runtime();
    let class = ClassDesc { ifaces: vec![l], aggregatable: false };
    let (st, f) = rt.create_instance(&class, None, LEAF_IID);
    assert_eq!(st, Status::Success);
    let f = f.unwrap();
    // a balanced interleaving that never lets the count reach zero
    let run = [true, true, false, true, false, true, false, false];
    let mut expected = 1u32;
    for op in run {
        if op {
            expected += 1;
            assert_eq!(rt.add_ref(f), expected);
        } else {
            expected -= 1;
            assert_eq!(rt.release(f), expected);
        }
        assert!(rt.is_alive(f.object));
        assert_eq!(rt.teardown_count(f.object), 0);
    }
    assert_eq!(rt.ref_count(f.object), 1);
}

#[test]
fn teardown_exactly_once() {
    let (mut rt, _b, _m, l) = chain_runtime();
    let class = ClassDesc { ifaces: vec![l], aggregatable: false };
    let (st, f) = rt.create_instance(&class, None, LEAF_IID);
    assert_eq!(st, Status::Success);
    let f = f.unwrap();
    assert_eq!(rt.add_ref(f), 2);
    assert_eq!(rt.release(f), 1);
    assert_eq!(rt.teardown_count(f.object), 0);
    // exactly one decrement observes the 1 -> 0 transition
    assert_eq!(rt.release(f), 0);
    assert!(!rt.is_alive(f.object));
    assert_eq!(rt.ref_count(f.object), 0);
    assert_eq!(rt.teardown_count(f.object), 1);
}

#[test]
fn factory_aggregation_rejected() {
    let (mut rt, _b, _m, l) = chain_runtime();
    let host = ClassDesc { ifaces: vec![l], aggregatable: false };
    let (st, f) = rt.create_instance(&host, None, LEAF_IID);
    assert_eq!(st, Status::Success);
    let outer = f.unwrap().object;
    let allocated = rt.object_count();

    let class = ClassDesc { ifaces: vec![l], aggregatable: false };
    // a valid requested identifier is rejected all the same
    let (st, f) = rt.create_instance(&class, Some(outer), LEAF_IID);
    assert_eq!(st, Status::AggregationNotAllowed);
    assert!(f.is_none());
    assert_eq!(rt.object_count(), allocated);
    let (st, f) = rt.create_instance(&class, Some(outer), MISSING_IID);
    assert_eq!(st, Status::AggregationNotAllowed);
    assert!(f.is_none());
    assert_eq!(rt.object_count(), allocated);
}

#[test]
fn factory_success_invariant() {
    let (mut rt, _b, _m, l) = chain_runtime();
    let class = ClassDesc { ifaces: vec![l], aggregatable: false };
    let (st, f) = rt.create_instance(&class, None, MID_IID);
    assert_eq!(st, Status::Success);
    let f = f.unwrap();
    // exactly one reference: neither zero nor two
    assert_eq!(rt.ref_count(f.object), 1);
    assert!(rt.is_alive(f.object));
}

#[test]
fn factory_failed_negotiation_no_leak() {
    let (mut rt, _b, _m, l) = chain_runtime();
    let class = ClassDesc { ifaces: vec![l], aggregatable: false };
    let before = rt.object_count();
    let (st, f) = rt.create_instance(&class, None, MISSING_IID);
    assert_eq!(st, Status::InterfaceNotFound);
    assert!(f.is_none());
    // the fresh object was torn down by the self-reference release
    let idx = before;
    assert_eq!(rt.object_count(), before + 1);
    assert!(!rt.is_alive(idx));
    assert_eq!(rt.ref_count(idx), 0);
    assert_eq!(rt.teardown_count(idx), 1);
}

#[test]
fn aggregated_create_grants_identity_only() {
    let (mut rt, _b, _m, l) = chain_runtime();
    let host = ClassDesc { ifaces: vec![l], aggregatable: false };
    let (_, f) = rt.create_instance(&host, None, LEAF_IID);
    let outer = f.unwrap().object;
    let allocated = rt.object_count();

    let inner_class = ClassDesc { ifaces: vec![l], aggregatable: true };
    let (st, f) = rt.create_instance(&inner_class, Some(outer), LEAF_IID);
    assert_eq!(st, Status::InterfaceNotFound);
    assert!(f.is_none());
    assert_eq!(rt.object_count(), allocated);

    let (st, f) = rt.create_instance(&inner_class, Some(outer), IDENTITY_IID);
    assert_eq!(st, Status::Success);
    let fi = f.unwrap();
    assert!(fi.non_delegating);
    assert_eq!(rt.ref_count(fi.object), 1);
    assert!(rt.is_alive(fi.object));
}

#[test]
fn lock_server_counts_and_acknowledges() {
    let (mut rt, _b, _m, l) = chain_runtime();
    let class = ClassDesc { ifaces: vec![l], aggregatable: false };
    let (_, f) = rt.create_instance(&class, None, LEAF_IID);
    let f = f.unwrap();
    assert_eq!(rt.server_lock_count(), 0);
    assert_eq!(rt.lock_server(true), Status::Success);
    assert_eq!(rt.lock_server(true), Status::Success);
    assert_eq!(rt.server_lock_count(), 2);
    assert_eq!(rt.lock_server(false), Status::Success);
    assert_eq!(rt.server_lock_count(), 1);
    // unlocking past zero still acknowledges and stays at zero
    assert_eq!(rt.lock_server(false), Status::Success);
    assert_eq!(rt.lock_server(false), Status::Success);
    assert_eq!(rt.server_lock_count(), 0);
    // unrelated to any object's lifetime
    assert_eq!(rt.ref_count(f.object), 1);
    assert!(rt.is_alive(f.object));
}

#[test]
fn interface_chain_scenario() {
    // Base(id=B) -> Mid(id=M) -> Leaf(id=L), each adding one method.
    let (mut rt, b, _m, l) = chain_runtime();
    let class = ClassDesc { ifaces: vec![l], aggregatable: false };
    let (st, f) = rt.create_instance(&class, None, LEAF_IID);
    assert_eq!(st, Status::Success);
    let f = f.unwrap();
    assert_eq!(rt.ref_count(f.object), 1);
    // the returned facet, used as the Base facet, queried for id=B
    let base_view = object_model::runtime::Facet {
        object: f.object,
        iface: b,
        non_delegating: f.non_delegating,
    };
    let (st, f2) = rt.query(base_view, BASE_IID);
    assert_eq!(st, Status::Success);
    assert!(f2.is_some());
    assert_eq!(rt.ref_count(f.object), 2);
    // two decrements: teardown exactly on the second
    assert_eq!(rt.release(f), 1);
    assert!(rt.is_alive(f.object));
    assert_eq!(rt.release(f2.unwrap()), 0);
    assert!(!rt.is_alive(f.object));
    assert_eq!(rt.teardown_count(f.object), 1);
}
