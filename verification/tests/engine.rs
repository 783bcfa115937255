use sod::engine::{Engine, MemEngine};
use sod::{zero_hash, Frame, ReplicaId};

fn frame(origin: u8, seq: u64, payload: Vec<(Vec<u8>, i64)>) -> Frame {
    Frame {
        prev_hash: zero_hash(), // engines don't verify chains; the replica does
        origin: ReplicaId([origin; 16]),
        seq,
        event_time: seq,
        payload,
    }
}

#[test]
fn apply_advances_cursor() {
    let mut e = MemEngine::new();
    e.apply(&frame(1, 1, vec![(b"a".to_vec(), 1)]), 10).unwrap();
    e.apply(&frame(1, 2, vec![(b"a".to_vec(), 2)]), 20).unwrap();
    e.apply(&frame(2, 1, vec![(b"b".to_vec(), 1)]), 15).unwrap();
    assert_eq!(e.applied().get(&ReplicaId([1; 16])), 2);
    assert_eq!(e.applied().get(&ReplicaId([2; 16])), 1);
    assert_eq!(e.count(b"a"), 3);
    assert_eq!(e.watermark(), 20);
}

#[test]
fn retraction_before_insert_goes_negative_then_zero_entry_removed() {
    let mut e = MemEngine::new();
    e.apply(&frame(1, 1, vec![(b"x".to_vec(), -1)]), 1).unwrap();
    assert_eq!(e.count(b"x"), -1);
    e.apply(&frame(2, 1, vec![(b"x".to_vec(), 1)]), 2).unwrap();
    assert_eq!(e.count(b"x"), 0);
    assert!(e.iter().next().is_none(), "zero entries are removed");
}

#[test]
fn view_bytes_order_independent() {
    let fa = frame(1, 1, vec![(b"a".to_vec(), 2), (b"b".to_vec(), -1)]);
    let fb = frame(2, 1, vec![(b"c".to_vec(), 5)]);
    let fc = frame(3, 1, vec![(b"a".to_vec(), -2)]);

    let mut e1 = MemEngine::new();
    for f in [&fa, &fb, &fc] {
        e1.apply(f, f.event_time).unwrap();
    }
    let mut e2 = MemEngine::new();
    for f in [&fc, &fa, &fb] {
        e2.apply(f, f.event_time).unwrap();
    }
    assert_eq!(e1.view_bytes(), e2.view_bytes());
    assert_eq!(e1.watermark(), e2.watermark());
}

#[test]
fn view_bytes_are_those_of_an_ordered_map() {
    let mut e = MemEngine::new();
    e.apply(
        &frame(1, 1, vec![(b"bog".to_vec(), 3), (b"ash".to_vec(), -1), (b"fen".to_vec(), 70)]),
        1,
    )
    .unwrap();
    let map: std::collections::BTreeMap<Vec<u8>, i64> =
        e.iter().map(|(datum, n)| (datum.clone(), *n)).collect();
    assert_eq!(e.view_bytes(), postcard::to_stdvec(&map).unwrap());
    assert_eq!(
        e.view_bytes(),
        vec![3, 3, b'a', b's', b'h', 1, 3, b'b', b'o', b'g', 6, 3, b'f', b'e', b'n', 140, 1]
    );
    assert_eq!(MemEngine::default().view_bytes(), vec![0]);
}

#[test]
fn iteration_is_in_datum_order() {
    let mut e = MemEngine::new();
    e.apply(
        &frame(1, 1, vec![(b"b".to_vec(), 2), (b"ab".to_vec(), 1), (b"a".to_vec(), -4)]),
        1,
    )
    .unwrap();
    let all: Vec<(Vec<u8>, i64)> = e.iter().cloned().collect();
    assert_eq!(
        all,
        vec![(b"a".to_vec(), -4), (b"ab".to_vec(), 1), (b"b".to_vec(), 2)]
    );
}

#[test]
fn one_payload_may_name_a_datum_twice() {
    let mut e = MemEngine::new();
    e.apply(
        &frame(1, 1, vec![(b"x".to_vec(), 2), (b"x".to_vec(), -2), (b"x".to_vec(), 7)]),
        1,
    )
    .unwrap();
    assert_eq!(e.count(b"x"), 7);
}

#[test]
fn the_watermark_never_goes_back() {
    let mut e = MemEngine::new();
    e.seed_watermark(40);
    e.apply(&frame(1, 1, vec![]), 10).unwrap();
    assert_eq!(e.watermark(), 40);
    e.seed_watermark(30);
    assert_eq!(e.watermark(), 40);
    assert_eq!(e.applied().get(&ReplicaId([1; 16])), 1);
}

#[test]
fn multiplicities_wrap_and_come_back() {
    let mut e = MemEngine::new();
    e.apply(&frame(1, 1, vec![(b"x".to_vec(), i64::MAX), (b"x".to_vec(), 1)]), 1)
        .unwrap();
    assert_eq!(e.count(b"x"), i64::MIN);
    e.apply(&frame(1, 2, vec![(b"x".to_vec(), -1)]), 1).unwrap();
    assert_eq!(e.count(b"x"), i64::MAX);
}

#[test]
fn every_frame_is_admitted() {
    let e = MemEngine::new();
    assert_eq!(e.validate(&frame(1, 1, vec![(vec![0xff], 1)])), Ok(()));
}

#[test]
fn view_bytes_tell_counts_apart() {
    let payloads: Vec<Vec<(Vec<u8>, i64)>> = vec![
        vec![],
        vec![(b"a".to_vec(), 1)],
        vec![(b"a".to_vec(), 2)],
        vec![(b"a".to_vec(), -1)],
        vec![(b"b".to_vec(), 1)],
        vec![(b"a".to_vec(), 1), (b"b".to_vec(), 1)],
        vec![(b"ab".to_vec(), 1)],
        vec![(b"a".to_vec(), 3), (b"b".to_vec(), 1), (b"a".to_vec(), -2)],
        vec![(b"a".to_vec(), i64::MAX)],
        vec![(b"a".to_vec(), i64::MIN)],
    ];
    let engines: Vec<MemEngine> = payloads
        .into_iter()
        .map(|p| {
            let mut e = MemEngine::new();
            e.apply(&frame(1, 1, p), 1).unwrap();
            e
        })
        .collect();
    for (i, a) in engines.iter().enumerate() {
        for (j, b) in engines.iter().enumerate() {
            let same = a.iter().eq(b.iter());
            assert_eq!(a.view_bytes() == b.view_bytes(), same, "{i} and {j}");
            assert_eq!(same, i == j || (i.min(j), i.max(j)) == (5, 7));
        }
        let read: Vec<(Vec<u8>, i64)> = postcard::from_bytes(&a.view_bytes()).unwrap();
        assert!(a.iter().eq(read.iter()));
    }
}

#[test]
fn an_engine_prints_its_multiset_as_a_map() {
    let mut e = MemEngine::new();
    assert_eq!(
        format!("{e:?}"),
        "MemEngine { multiset: {}, applied: VersionVector({}), watermark: 0 }"
    );
    e.apply(&frame(7, 1, vec![(vec![9], -2), (vec![3, 4], 5)]), 6).unwrap();
    assert_eq!(
        format!("{e:?}"),
        format!(
            "MemEngine {{ multiset: {{[3, 4]: 5, [9]: -2}}, applied: VersionVector({{{}: 1}}), \
             watermark: 6 }}",
            "07".repeat(16)
        )
    );
}
