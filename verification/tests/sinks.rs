use sod::engine::{Engine, MemEngine};
use sod::engine_fold::{decode_payload, CursorState};
use sod::sinks::{settle, visible, Bag, Write};
use sod::{zero_hash, Frame, ReplicaId, SodError, VersionVector};
use std::collections::BTreeMap;

type Store = BTreeMap<Vec<u8>, Vec<u8>>;

fn commit(bag: &mut Bag, store: &mut Store) {
    let stored = bag.changed_keys().iter().map(|key| store.get(key).cloned()).collect();
    for (key, write) in bag.commit(stored) {
        match write {
            Write::Put(v) => {
                store.insert(key, v.to_vec());
            }
            Write::Remove => {
                store.remove(&key);
            }
        }
    }
}

fn contents(store: &Store) -> Vec<(Vec<u8>, i64)> {
    store
        .iter()
        .filter_map(|(k, v)| visible(v).map(|n| (k.clone(), n)))
        .collect()
}

#[test]
fn the_bag_does_not_depend_on_arrival_order() {
    let mut one = Store::new();
    let mut bag = Bag::new("notes".to_string());
    assert_eq!(bag.name(), "notes");
    bag.push(b"x".to_vec(), -1);
    commit(&mut bag, &mut one);
    assert_eq!(contents(&one), vec![]);
    assert_eq!(one[&b"x".to_vec()], (-1i64).to_be_bytes().to_vec());
    bag.push(b"x".to_vec(), 2);
    commit(&mut bag, &mut one);

    let mut two = Store::new();
    bag.push(b"x".to_vec(), 2);
    bag.push(b"x".to_vec(), -1);
    commit(&mut bag, &mut two);

    assert_eq!(one, two);
    assert_eq!(contents(&one), vec![(b"x".to_vec(), 1)]);
}

#[test]
fn a_sum_of_zero_leaves_no_entry() {
    let mut store = Store::new();
    let mut bag = Bag::new("b".to_string());
    bag.push(b"k".to_vec(), 3);
    commit(&mut bag, &mut store);
    bag.push(b"k".to_vec(), -3);
    commit(&mut bag, &mut store);
    assert!(store.is_empty());
}

#[test]
fn committing_skips_zero_deltas_and_keeps_key_order() {
    let mut bag = Bag::new("b".to_string());
    bag.push(b"z".to_vec(), 1);
    bag.push(b"m".to_vec(), 4);
    bag.push(b"m".to_vec(), -4);
    bag.push(b"a".to_vec(), -2);
    assert_eq!(bag.changed_keys(), vec![b"a".to_vec(), b"z".to_vec()]);
    let writes = bag.commit(vec![Some(5i64.to_be_bytes().to_vec()), None]);
    assert_eq!(writes.len(), 2);
    assert_eq!(writes[0].0, b"a".to_vec());
    assert!(matches!(writes[0].1, Write::Put(v) if v == 3i64.to_be_bytes()));
    assert_eq!(writes[1].0, b"z".to_vec());
    assert!(matches!(writes[1].1, Write::Put(v) if v == 1i64.to_be_bytes()));
    assert!(bag.changed_keys().is_empty());
    assert!(bag.commit(vec![]).is_empty());
}

#[test]
fn an_aborted_transaction_leaves_nothing_pending() {
    let mut bag = Bag::new("b".to_string());
    bag.push(b"k".to_vec(), 3);
    bag.abort();
    assert!(bag.changed_keys().is_empty());
}

#[test]
fn stored_values_are_big_endian() {
    match settle(None, 258) {
        Write::Put(v) => assert_eq!(v, [0, 0, 0, 0, 0, 0, 1, 2]),
        Write::Remove => panic!("expected a value"),
    }
    match settle(Some(&i64::MIN.to_be_bytes()), 1) {
        Write::Put(v) => assert_eq!(v, (i64::MIN + 1).to_be_bytes()),
        Write::Remove => panic!("expected a value"),
    }
    assert_eq!(visible(&7i64.to_be_bytes()), Some(7));
    assert_eq!(visible(&0i64.to_be_bytes()), None);
    assert_eq!(visible(&(-7i64).to_be_bytes()), None);
}

#[test]
fn the_bag_agrees_with_the_memory_engine() {
    let mut store = Store::new();
    let mut bag = Bag::new("b".to_string());
    let mut oracle = MemEngine::new();
    let words = ["ash", "bog", "fen", "moss", "peat", "sedge"];
    let mut x = 42u64;
    for step in 0..120u64 {
        x ^= x << 13;
        x ^= x >> 7;
        x ^= x << 17;
        let word = words[(x % 6) as usize].as_bytes().to_vec();
        let mult = [1i64, 2, -1][(x % 3) as usize];
        bag.push(word.clone(), mult);
        if step % 7 == 0 {
            commit(&mut bag, &mut store);
        }
        let f = Frame {
            prev_hash: zero_hash(),
            origin: ReplicaId([3; 16]),
            seq: step + 1,
            event_time: step,
            payload: vec![(word, mult)],
        };
        oracle.apply(&f, step).unwrap();
    }
    commit(&mut bag, &mut store);
    let positive: Vec<(Vec<u8>, i64)> = oracle.iter().filter(|(_, c)| *c > 0).cloned().collect();
    assert_eq!(contents(&store), positive);
}

fn frame(payload: Vec<(Vec<u8>, i64)>) -> Frame {
    Frame {
        prev_hash: zero_hash(),
        origin: ReplicaId([4; 16]),
        seq: 258,
        event_time: 20,
        payload,
    }
}

#[test]
fn the_cursor_survives_the_store() {
    let mut state = CursorState::default();
    assert_eq!(state.take(), None);
    state.deposit(&frame(vec![]));
    let (key, value) = state.take().unwrap();
    assert_eq!(key, [4; 16]);
    assert_eq!(value, [0, 0, 0, 0, 0, 0, 1, 2]);
    assert_eq!(state.take(), None);

    let mut again = CursorState::default();
    again.load(&key, &value);
    assert_eq!(again.loaded().get(&ReplicaId([4; 16])), 258);
    again.load(&key, &0u64.to_be_bytes());
    assert_eq!(again.loaded().get(&ReplicaId([4; 16])), 0);
}

#[test]
fn the_whole_cursor_store_reads_back_in_any_order() {
    let mut state = CursorState::default();
    let mut store = Store::new();
    let mut cursor = VersionVector::new();
    for (id, seq) in [(4u8, 1u64), (2, 1), (4, 2), (9, 7), (4, 3), (2, 0)] {
        let f = Frame { origin: ReplicaId([id; 16]), seq, ..frame(vec![]) };
        state.deposit(&f);
        let (key, value) = state.take().unwrap();
        store.insert(key.to_vec(), value.to_vec());
        cursor.set(f.origin, seq);
    }
    let mut entries: Vec<(Vec<u8>, Vec<u8>)> = store.into_iter().collect();
    for _ in 0..2 {
        let mut again = CursorState::default();
        again.load_all(&entries);
        assert_eq!(again.loaded(), &cursor);
        assert_eq!(again.loaded().get(&ReplicaId([4; 16])), 3);
        assert_eq!(again.loaded().get(&ReplicaId([2; 16])), 0);
        entries.reverse();
    }

    // the engine opened on that store goes on, and so does the one after it
    let mut again = CursorState::default();
    again.load_all(&entries);
    let mut applied = again.loaded().clone();
    let mut store: Store = entries.into_iter().collect();
    for (id, seq) in [(2u8, 1u64), (9, 8)] {
        let f = Frame { origin: ReplicaId([id; 16]), seq, ..frame(vec![]) };
        again.deposit(&f);
        let (key, value) = again.take().unwrap();
        store.insert(key.to_vec(), value.to_vec());
        applied.set(f.origin, seq);
    }
    let mut last = CursorState::default();
    last.load_all(&store.into_iter().collect());
    assert_eq!(last.loaded(), &applied);
    assert_eq!(last.take(), None);
}

#[test]
fn an_aborted_apply_deposits_nothing() {
    let mut state = CursorState::default();
    state.deposit(&frame(vec![]));
    state.abort();
    assert_eq!(state.take(), None);
}

#[test]
fn a_payload_decodes_or_is_refused() {
    let f = frame(vec![(vec![1, b'a'], 3), (vec![1, b'b'], -1)]);
    let decoded = vec![Some("a".to_string()), Some("b".to_string())];
    assert_eq!(
        decode_payload(&f, decoded),
        Ok(vec![("a".to_string(), 3), ("b".to_string(), -1)])
    );
    let bad = vec![Some("a".to_string()), None];
    assert_eq!(
        decode_payload(&f, bad),
        Err(SodError::Corrupt("frame datum does not decode as pipeline type"))
    );
}
