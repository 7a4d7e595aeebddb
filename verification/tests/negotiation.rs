// Interface negotiation, vtable layout, and aggregation delegation.

use object_model::factory::ClassDesc;
use object_model::registry::{
    Registry, ENTRY_ADD_REF, ENTRY_QUERY, ENTRY_RELEASE, IDENTITY_IID,
};
use object_model::runtime::{Facet, Runtime, Status};

const BASE_IID: u128 = 0x2222_0000_0000_0000_0000_0000_0000_0001;
const MID_IID: u128 = 0x2222_0000_0000_0000_0000_0000_0000_0002;
const LEAF_IID: u128 = 0x2222_0000_0000_0000_0000_0000_0000_0003;
const SIDE_IID: u128 = 0x2222_0000_0000_0000_0000_0000_0000_0004;
const MISSING_IID: u128 = 0xfeed_0000_0000_0000_0000_0000_0000_0001;

#[test]
fn vtable_prefix_layout() {
    let mut reg = Registry::new();
    let b = reg.register(BASE_IID, 0, vec![10]).unwrap();
    let m = reg.register(MID_IID, b, vec![11]).unwrap();
    let l = reg.register(LEAF_IID, m, vec![12]).unwrap();
    let identity = reg.build_table(0);
    assert_eq!(identity, vec![ENTRY_QUERY, ENTRY_ADD_REF, ENTRY_RELEASE]);
    let tb = reg.build_table(b);
    let tm = reg.build_table(m);
    let tl = reg.build_table(l);
    assert_eq!(tb, vec![ENTRY_QUERY, ENTRY_ADD_REF, ENTRY_RELEASE, 10]);
    assert_eq!(tm, vec![ENTRY_QUERY, ENTRY_ADD_REF, ENTRY_RELEASE, 10, 11]);
    assert_eq!(tl, vec![ENTRY_QUERY, ENTRY_ADD_REF, ENTRY_RELEASE, 10, 11, 12]);
    // every ancestor's table is an exact prefix
    assert_eq!(&tl[..tm.len()], &tm[..]);
    assert_eq!(&tl[..tb.len()], &tb[..]);
    assert_eq!(&tl[..identity.len()], &identity[..]);
}

#[test]
fn register_rejects_duplicates_and_bad_bases() {
    let mut reg = Registry::new();
    let b = reg.register(BASE_IID, 0, vec![10]).unwrap();
    assert_eq!(reg.register(BASE_IID, 0, vec![77]), None);
    assert_eq!(reg.register(IDENTITY_IID, b, vec![77]), None);
    assert_eq!(reg.register(MID_IID, 99, vec![77]), None);
    assert_eq!(reg.find(BASE_IID), Some(b));
    assert_eq!(reg.find(IDENTITY_IID), Some(0));
    assert_eq!(reg.find(MISSING_IID), None);
}

#[test]
fn query_full_supported_set() {
    let mut rt = Runtime::new();
    let b = rt.register_interface(BASE_IID, 0, vec![10]).unwrap();
    let m = rt.register_interface(MID_IID, b, vec![11]).unwrap();
    let l = rt.register_interface(LEAF_IID, m, vec![12]).unwrap();
    let s = rt.register_interface(SIDE_IID, 0, vec![20]).unwrap();
    let class = ClassDesc { ifaces: vec![l, s], aggregatable: false };
    let (st, f) = rt.create_instance(&class, None, LEAF_IID);
    assert_eq!(st, Status::Success);
    let f = f.unwrap();
    let mut expected = 1u32;
    // every directly declared or inherited identifier succeeds and
    // increments the one counter by exactly one
    for iid in [IDENTITY_IID, BASE_IID, MID_IID, LEAF_IID, SIDE_IID] {
        let (st, facet) = rt.query(f, iid);
        assert_eq!(st, Status::Success);
        let facet = facet.unwrap();
        assert_eq!(facet.object, f.object);
        // the facet comes from the first declared interface whose chain
        // holds the identifier
        if iid == SIDE_IID {
            assert_eq!(facet.iface, s);
        } else {
            assert_eq!(facet.iface, l);
        }
        expected += 1;
        assert_eq!(rt.ref_count(f.object), expected);
    }
    // an absent identifier fails, hands back no facet, and leaves every
    // count unchanged
    let (st, facet) = rt.query(f, MISSING_IID);
    assert_eq!(st, Status::InterfaceNotFound);
    assert!(facet.is_none());
    assert_eq!(rt.ref_count(f.object), expected);
}

fn aggregate_pair() -> (Runtime, Facet, Facet, usize, usize) {
    let mut rt = Runtime::new();
    let b = rt.register_interface(BASE_IID, 0, vec![10]).unwrap();
    let s = rt.register_interface(SIDE_IID, 0, vec![20]).unwrap();
    let outer_class = ClassDesc { ifaces: vec![b], aggregatable: false };
    let (st, fo) = rt.create_instance(&outer_class, None, BASE_IID);
    assert_eq!(st, Status::Success);
    let fo = fo.unwrap();
    let inner_class = ClassDesc { ifaces: vec![s], aggregatable: true };
    let (st, fi) = rt.create_instance(&inner_class, Some(fo.object), IDENTITY_IID);
    assert_eq!(st, Status::Success);
    let fi = fi.unwrap();
    assert!(rt.adopt_inner(fo.object, fi, vec![s]));
    (rt, fo, fi, b, s)
}

#[test]
fn delegated_query_routes_to_outer_counter() {
    let (mut rt, fo, fi, _b, _s) = aggregate_pair();
    assert_eq!(rt.ref_count(fo.object), 1);
    assert_eq!(rt.ref_count(fi.object), 1);
    // the delegated interface resolves through the outer object to the
    // inner object's facet, on the outer object's counter
    let (st, fd) = rt.query(fo, SIDE_IID);
    assert_eq!(st, Status::Success);
    let fd = fd.unwrap();
    assert_eq!(fd.object, fi.object);
    assert!(!fd.non_delegating);
    assert_eq!(rt.ref_count(fo.object), 2);
    assert_eq!(rt.ref_count(fi.object), 1);
    // increments and decrements through the delegated facet govern the
    // outer object's lifetime
    assert_eq!(rt.add_ref(fd), 3);
    assert_eq!(rt.ref_count(fo.object), 3);
    assert_eq!(rt.ref_count(fi.object), 1);
    assert_eq!(rt.release(fd), 2);
    assert_eq!(rt.release(fd), 1);
    assert_eq!(rt.ref_count(fo.object), 1);
}

#[test]
fn non_delegating_inner_identity_is_independent() {
    let (mut rt, fo, fi, _b, _s) = aggregate_pair();
    // the non-delegating facet sees only the inner object's own set
    let (st, fs) = rt.query(fi, SIDE_IID);
    assert_eq!(st, Status::Success);
    assert!(fs.unwrap().non_delegating);
    assert_eq!(rt.ref_count(fi.object), 2);
    assert_eq!(rt.ref_count(fo.object), 1);
    let (st, none) = rt.query(fi, BASE_IID);
    assert_eq!(st, Status::InterfaceNotFound);
    assert!(none.is_none());
    // the two counters evolve independently through that facet
    assert_eq!(rt.add_ref(fi), 3);
    assert_eq!(rt.add_ref(fi), 4);
    assert_eq!(rt.release(fi), 3);
    assert_eq!(rt.ref_count(fi.object), 3);
    assert_eq!(rt.ref_count(fo.object), 1);
    // and outer-side traffic leaves the inner counter alone
    assert_eq!(rt.add_ref(fo), 2);
    let (st, _) = rt.query(fo, SIDE_IID);
    assert_eq!(st, Status::Success);
    assert_eq!(rt.ref_count(fo.object), 3);
    assert_eq!(rt.ref_count(fi.object), 3);
}

#[test]
fn outer_teardown_releases_inner_exactly_once() {
    let (mut rt, fo, fi, _b, _s) = aggregate_pair();
    // a third party holds one extra non-delegating reference on the inner
    assert_eq!(rt.add_ref(fi), 2);
    // dropping the outer object's last reference tears it down and drops
    // its ownership reference on the inner object
    assert_eq!(rt.release(fo), 0);
    assert!(!rt.is_alive(fo.object));
    assert_eq!(rt.teardown_count(fo.object), 1);
    assert!(rt.is_alive(fi.object));
    assert_eq!(rt.ref_count(fi.object), 1);
    // the remaining holder releases: the inner object goes down too
    assert_eq!(rt.release(fi), 0);
    assert!(!rt.is_alive(fi.object));
    assert_eq!(rt.teardown_count(fi.object), 1);
}

#[test]
fn adopt_rejects_unresolvable_delegation() {
    let mut rt = Runtime::new();
    let b = rt.register_interface(BASE_IID, 0, vec![10]).unwrap();
    let s = rt.register_interface(SIDE_IID, 0, vec![20]).unwrap();
    let outer_class = ClassDesc { ifaces: vec![b], aggregatable: false };
    let (_, fo) = rt.create_instance(&outer_class, None, BASE_IID);
    let fo = fo.unwrap();
    let inner_class = ClassDesc { ifaces: vec![s], aggregatable: true };
    let (_, fi) = rt.create_instance(&inner_class, Some(fo.object), IDENTITY_IID);
    let fi = fi.unwrap();
    // the inner object does not support BASE_IID, so listing it is refused
    assert!(!rt.adopt_inner(fo.object, fi, vec![b]));
    let (st, none) = rt.query(fo, SIDE_IID);
    assert_eq!(st, Status::InterfaceNotFound);
    assert!(none.is_none());
    // a resolvable map is accepted afterwards
    assert!(rt.adopt_inner(fo.object, fi, vec![s]));
    let (st, fd) = rt.query(fo, SIDE_IID);
    assert_eq!(st, Status::Success);
    assert_eq!(fd.unwrap().object, fi.object);
}
