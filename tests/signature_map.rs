use ic_siwe::hash::digest;
use ic_siwe::signature_map::{verify_absence, verify_membership, SignatureMap, Witness};

fn h(byte: u8) -> Vec<u8> {
    digest(&vec![byte])
}

#[test]
fn sha256_known_value() {
    let d = digest(&b"abc".to_vec());
    assert_eq!(d[0..4], [0xba, 0x78, 0x16, 0xbf]);
    assert_eq!(d.len(), 32);
}

#[test]
fn empty_map_root_is_tagged_digest() {
    let m = SignatureMap::new();
    assert_eq!(m.root(), digest(&vec![2u8]));
    assert_eq!(m.len(), 0);
}

#[test]
fn root_changes_with_contents() {
    let mut m = SignatureMap::new();
    m.put(h(1), h(11), 0);
    let r1 = m.root();
    assert_ne!(r1, digest(&vec![2u8]));
    m.put(h(2), h(12), 0);
    assert_ne!(m.root(), r1);
}

#[test]
fn put_replaces_and_moves_last() {
    let mut a = SignatureMap::new();
    a.put(h(1), h(11), 0);
    a.put(h(2), h(12), 0);
    a.put(h(1), h(13), 0);
    assert_eq!(a.len(), 2);
    let mut b = SignatureMap::new();
    b.put(h(2), h(12), 5);
    b.put(h(1), h(13), 5);
    assert_eq!(a.root(), b.root());
}

#[test]
fn prune_matches_fresh_map() {
    let mut m = SignatureMap::new();
    m.put(h(1), h(11), 0);
    m.put(h(2), h(12), 10);
    m.put(h(3), h(13), 20);
    m.put(h(4), h(14), 30);
    m.prune_expired(15, 10);
    assert_eq!(m.len(), 2);
    let mut fresh = SignatureMap::new();
    fresh.put(h(3), h(13), 1_000);
    fresh.put(h(4), h(14), 1_000);
    assert_eq!(m.root(), fresh.root());
}

#[test]
fn prune_is_bounded() {
    let mut m = SignatureMap::new();
    for i in 0..5u8 {
        m.put(h(i), h(100 + i), 0);
    }
    m.prune_expired(u64::MAX, 3);
    assert_eq!(m.len(), 2);
    m.prune_expired(u64::MAX, 0);
    assert_eq!(m.len(), 2);
    m.prune_expired(0, 10);
    assert_eq!(m.len(), 2);
    m.prune_expired(1, 10);
    assert_eq!(m.len(), 0);
}

#[test]
fn witness_proves_members() {
    let mut m = SignatureMap::new();
    for i in 0..4u8 {
        m.put(h(i), h(50 + i), 0);
    }
    let root = m.root();
    for i in 0..4u8 {
        let w = m.witness(&h(i));
        assert!(matches!(w, Witness::Member { .. }));
        assert!(verify_membership(&w, &h(i), &h(50 + i), &root));
        assert!(!verify_membership(&w, &h(i), &h(60), &root));
        assert!(!verify_absence(&w, &h(i), &root));
    }
}

#[test]
fn witness_proves_absence() {
    let mut m = SignatureMap::new();
    m.put(h(1), h(11), 0);
    m.put(h(2), h(12), 0);
    let root = m.root();
    let w = m.witness(&h(9));
    assert!(matches!(w, Witness::Absent { .. }));
    assert!(verify_absence(&w, &h(9), &root));
    assert!(!verify_absence(&w, &h(1), &root));
    assert!(!verify_membership(&w, &h(9), &h(11), &root));
    let empty = SignatureMap::new();
    assert!(verify_absence(&empty.witness(&h(3)), &h(3), &empty.root()));
}

#[test]
fn witness_fails_against_other_root() {
    let mut m = SignatureMap::new();
    m.put(h(1), h(11), 0);
    let w = m.witness(&h(1));
    m.put(h(2), h(12), 0);
    assert!(!verify_membership(&w, &h(1), &h(11), &m.root()));
}

#[test]
fn membership_path_is_logarithmic() {
    let mut m = SignatureMap::new();
    for i in 0..8u8 {
        m.put(h(i), h(100 + i), 0);
    }
    match m.witness(&h(5)) {
        Witness::Member { value, path } => {
            assert_eq!(value, h(105));
            assert_eq!(path.len(), 3);
        }
        Witness::Absent { .. } => panic!("expected a membership proof"),
    }
    let mut single = SignatureMap::new();
    single.put(h(1), h(2), 0);
    assert_eq!(single.root(), digest(&[vec![0u8], digest(&h(1)), digest(&h(2))].concat()));
    assert_eq!(SignatureMap::new().root(), digest(&vec![2u8]));
}

#[test]
fn absence_proof_holds_digests_not_values() {
    let mut m = SignatureMap::new();
    m.put(h(1), h(11), 0);
    m.put(h(2), h(12), 0);
    match m.witness(&h(3)) {
        Witness::Absent { seeds, value_digests } => {
            assert_eq!(seeds, vec![h(1), h(2)]);
            assert_eq!(value_digests, vec![digest(&h(11)), digest(&h(12))]);
        }
        Witness::Member { .. } => panic!("expected an absence proof"),
    }
}

#[test]
fn inner_node_is_not_accepted_as_leaf() {
    let mut m = SignatureMap::new();
    m.put(h(1), h(11), 0);
    m.put(h(2), h(12), 0);
    let root = m.root();
    let forged = Witness::Absent { seeds: vec![h(1)], value_digests: vec![h(2)] };
    assert!(!verify_absence(&forged, &h(1), &root));
    let forged_member = Witness::Member { value: h(3), path: vec![] };
    assert!(!verify_membership(&forged_member, &h(1), &h(3), &root));
}

#[test]
fn prune_skips_live_entries() {
    let mut m = SignatureMap::new();
    m.put(h(1), h(11), 100);
    m.put(h(2), h(12), 5);
    m.put(h(3), h(13), 6);
    m.put(h(4), h(14), 7);
    m.prune_expired(50, 2);
    assert_eq!(m.len(), 2);
    let mut fresh = SignatureMap::new();
    fresh.put(h(1), h(11), 0);
    fresh.put(h(4), h(14), 0);
    assert_eq!(m.root(), fresh.root());
}
