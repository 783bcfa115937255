use sod::{ReplicaId, VersionVector};

fn id(b: u8) -> ReplicaId {
    ReplicaId([b; 16])
}

#[test]
fn advance_contiguous() {
    let mut v = VersionVector::new();
    assert_eq!(v.get(&id(1)), 0);
    v.advance(id(1), 1);
    v.advance(id(1), 2);
    v.advance(id(2), 1);
    assert_eq!(v.get(&id(1)), 2);
    assert_eq!(v.get(&id(2)), 1);
}

#[test]
fn ahead_of_disjoint_and_overlap() {
    let mut a = VersionVector::new();
    a.set(id(1), 5); // partially known to b
    a.set(id(2), 3); // unknown to b
    a.set(id(3), 2); // b is ahead here

    let mut b = VersionVector::new();
    b.set(id(1), 2);
    b.set(id(3), 4);

    assert_eq!(a.ahead_of(&b), vec![(id(1), 2, 5), (id(2), 0, 3)]);
    assert_eq!(b.ahead_of(&a), vec![(id(3), 2, 4)]);
    assert_eq!(a.ahead_of(&a), vec![]);
}

#[test]
fn setting_zero_forgets_the_origin() {
    let mut v = VersionVector::new();
    v.set(id(1), 7);
    v.set(id(1), 0);
    assert_eq!(v, VersionVector::new());
    assert!(v.iter().next().is_none());
}

#[test]
fn iteration_is_in_origin_order() {
    let mut v = VersionVector::default();
    v.set(id(9), 1);
    v.set(id(2), 4);
    v.set(id(5), 3);
    v.set(id(2), 6);
    let entries: Vec<(ReplicaId, u64)> = v.iter().copied().collect();
    assert_eq!(entries, vec![(id(2), 6), (id(5), 3), (id(9), 1)]);
}

#[test]
fn ahead_of_lists_origins_in_byte_order() {
    let mut low = [0u8; 16];
    low[15] = 200;
    let mut high = [0u8; 16];
    high[0] = 1;
    let mut v = VersionVector::new();
    v.set(ReplicaId(high), 1);
    v.set(ReplicaId(low), 2);
    assert_eq!(
        v.ahead_of(&VersionVector::new()),
        vec![(ReplicaId(low), 0, 2), (ReplicaId(high), 0, 1)]
    );
}

#[test]
fn a_clone_is_equal_and_independent() {
    let mut v = VersionVector::new();
    v.set(id(1), 1);
    let w = v.clone();
    assert_eq!(v, w);
    v.advance(id(1), 2);
    assert_eq!(w.get(&id(1)), 1);
}

#[test]
fn vectors_are_equal_when_they_hold_the_same() {
    let mut a = VersionVector::new();
    let mut b = VersionVector::new();
    a.set(id(1), 2);
    a.set(id(3), 1);
    b.set(id(3), 1);
    assert_ne!(a, b);
    assert_ne!(b, a);
    b.set(id(1), 1);
    assert_ne!(a, b);
    b.set(id(1), 2);
    assert_eq!(a, b);
    b.set(id(2), 4);
    assert_ne!(a, b);
    b.set(id(2), 0);
    assert_eq!(a, b);
}

#[test]
fn a_vector_prints_as_a_map() {
    let mut v = VersionVector::new();
    assert_eq!(format!("{v:?}"), "VersionVector({})");
    v.set(id(0xab), 3);
    v.set(id(1), 12);
    let (one, ab) = ("01".repeat(16), "ab".repeat(16));
    assert_eq!(format!("{v:?}"), format!("VersionVector({{{one}: 12, {ab}: 3}})"));
    assert_eq!(
        format!("{v:#?}"),
        format!("VersionVector(\n    {{\n        {one}: 12,\n        {ab}: 3,\n    }},\n)")
    );
}
