//! An engine on a transactional store, put together from the library's bag,
//! cursor and payload check: counts through the bag, exact crash healing via
//! the transactional cursor, and the memory engine as differential oracle.

use std::cell::RefCell;
use std::collections::BTreeMap;
use std::rc::Rc;

use sod::engine::{Engine, MemEngine};
use sod::engine_fold::{decode_payload, CursorState};
use sod::log_file::recover;
use sod::sinks::{visible, Bag, Write};
use sod::store::LogStore;
use sod::time::Watermark;
use sod::{zero_hash, Frame, Replica, ReplicaId, SodError, VersionVector};

/// What survives a restart: the log's bytes and two keyspaces.
#[derive(Default)]
struct Dir {
    log: Vec<u8>,
    bag: BTreeMap<Vec<u8>, Vec<u8>>,
    cursor: BTreeMap<Vec<u8>, Vec<u8>>,
    count: i64,
}

type Shared = Rc<RefCell<Dir>>;

struct StoreLog {
    dir: Shared,
    frames: Vec<Frame>,
}

impl StoreLog {
    fn open(dir: &Shared) -> Self {
        let (frames, valid_end) = recover(&dir.borrow().log).unwrap();
        dir.borrow_mut().log.truncate(valid_end);
        StoreLog { dir: dir.clone(), frames }
    }
}

impl LogStore for StoreLog {
    fn append(&mut self, frame: &Frame) -> Result<(), SodError> {
        frame.encode_record(&mut self.dir.borrow_mut().log);
        Ok(())
    }
    fn sync(&mut self) -> Result<(), SodError> {
        Ok(())
    }
    fn take_frames(&mut self) -> Vec<Frame> {
        std::mem::take(&mut self.frames)
    }
}

struct StoreEngine {
    dir: Shared,
    bag: Bag,
    cursor: CursorState,
    applied: VersionVector,
    watermark: Watermark,
}

fn typed(frame: &Frame) -> Result<Vec<(String, i64)>, SodError> {
    let decoded = frame
        .payload
        .iter()
        .map(|(bytes, _)| postcard::from_bytes::<String>(bytes).ok())
        .collect();
    decode_payload(frame, decoded)
}

impl StoreEngine {
    fn open(dir: &Shared, watermark: Watermark) -> Self {
        let mut cursor = CursorState::default();
        let entries = dir.borrow().cursor.iter().map(|(k, v)| (k.clone(), v.clone())).collect();
        cursor.load_all(&entries);
        let applied = cursor.loaded().clone();
        StoreEngine {
            dir: dir.clone(),
            bag: Bag::new("notes".to_string()),
            cursor,
            applied,
            watermark,
        }
    }
}

impl Engine for StoreEngine {
    fn validate(&self, frame: &Frame) -> Result<(), SodError> {
        typed(frame).map(|_| ())
    }

    fn apply(&mut self, frame: &Frame, watermark: u64) -> Result<(), SodError> {
        let deltas = typed(frame)?;
        self.watermark.advance(watermark);
        self.cursor.deposit(frame);
        let mut dir = self.dir.borrow_mut();
        for (d, mult) in &deltas {
            self.bag.push(postcard::to_stdvec(d).unwrap(), *mult);
            dir.count += mult;
        }
        let stored = self.bag.changed_keys().iter().map(|key| dir.bag.get(key).cloned()).collect();
        for (key, write) in self.bag.commit(stored) {
            match write {
                Write::Put(v) => {
                    dir.bag.insert(key, v.to_vec());
                }
                Write::Remove => {
                    dir.bag.remove(&key);
                }
            }
        }
        if let Some((key, value)) = self.cursor.take() {
            dir.cursor.insert(key.to_vec(), value.to_vec());
        }
        self.applied.set(frame.origin, frame.seq);
        Ok(())
    }

    fn applied(&self) -> VersionVector {
        self.applied.clone()
    }

    fn seed_watermark(&mut self, wm: u64) {
        self.watermark.advance(wm);
    }
}

fn open_replica(dir: &Shared, me: ReplicaId) -> Replica<StoreEngine, StoreLog> {
    let log = StoreLog::open(dir);
    let engine = StoreEngine::open(dir, Watermark::new());
    Replica::open(me, log, engine).unwrap()
}

fn datum(s: &str) -> Vec<u8> {
    postcard::to_stdvec(&s.to_string()).unwrap()
}

fn bag_contents(r: &Replica<StoreEngine, StoreLog>) -> Vec<(String, i64)> {
    r.engine()
        .dir
        .borrow()
        .bag
        .iter()
        .filter_map(|(k, v)| visible(v).map(|n| (postcard::from_bytes(k).unwrap(), n)))
        .collect()
}

#[test]
fn fold_replica_counts() {
    let dir = Shared::default();
    let me = ReplicaId([1; 16]);
    let mut r = open_replica(&dir, me);
    r.commit(vec![(datum("hello"), 1)], 10).unwrap();
    r.commit(vec![(datum("world"), 2), (datum("hello"), -1)], 20).unwrap();

    let notes = bag_contents(&r);
    assert_eq!(notes, vec![("world".to_string(), 2)]);
    let total = dir.borrow().count;
    assert_eq!(total, 2); // +1 +2 -1
    assert_eq!(r.engine().watermark.get(), 20);

    // reopen: nothing replays (cursor is up to date), state persists
    drop(r);
    let r = open_replica(&dir, me);
    assert_eq!(r.engine().applied().get(&me), 2);
    assert_eq!(bag_contents(&r), vec![("world".to_string(), 2)]);
    assert_eq!(r.engine().watermark.get(), 20, "watermark reseeded from log");
}

#[test]
fn crash_between_log_and_apply_heals() {
    let dir = Shared::default();
    let me = ReplicaId([2; 16]);
    let first = {
        let mut r = open_replica(&dir, me);
        r.commit(vec![(datum("durable"), 1)], 10).unwrap();
        r.frames_after(&me, 0)[0].clone()
    };

    // Simulate the crash window: frame 2 reaches the log, the engine never sees
    // it (process dies between append and apply).
    {
        let mut log = StoreLog::open(&dir);
        let orphan = Frame {
            prev_hash: first.hash(),
            origin: me,
            seq: 2,
            event_time: 20,
            payload: vec![(datum("orphan"), 3)],
        };
        log.append(&orphan).unwrap();
        log.sync().unwrap();
    }

    // Reopen: the cursor says seq 1 is applied, so exactly the orphan replays.
    let r = open_replica(&dir, me);
    assert_eq!(r.vector().get(&me), 2);
    assert_eq!(r.engine().applied().get(&me), 2);
    // The bag iterates in postcard-key order: length prefix first, so the
    // 6-byte "orphan" sorts before the 7-byte "durable".
    let notes = bag_contents(&r);
    assert_eq!(
        notes,
        vec![("orphan".to_string(), 3), ("durable".to_string(), 1)]
    );
}

#[test]
fn undecodable_frame_is_refused_before_logging() {
    // The payload check runs before the log append: a frame whose payload
    // doesn't decode as the store's type must never be persisted, or it would
    // fail replay on every subsequent open.
    let dir = Shared::default();
    let me = ReplicaId([4; 16]);
    let mut r = open_replica(&dir, me);
    r.commit(vec![(datum("good"), 1)], 10).unwrap();

    let peer = ReplicaId([9; 16]);
    let bad = Frame {
        prev_hash: zero_hash(),
        origin: peer,
        seq: 1,
        event_time: 20,
        // an unterminated varint: not a postcard String
        payload: vec![(vec![0xFF, 0xFF, 0xFF], 1)],
    };
    match r.ingest(bad) {
        Err(SodError::Corrupt(_)) => {}
        other => panic!("expected corrupt, got {other:?}"),
    }

    // the bad frame reached neither the vector nor the log
    assert_eq!(r.vector().get(&peer), 0);
    r.commit(vec![(datum("after"), 1)], 30).unwrap();
    drop(r);
    let r = open_replica(&dir, me);
    assert_eq!(r.vector().get(&me), 2);
    assert_eq!(r.vector().get(&peer), 0);
    assert_eq!(
        bag_contents(&r),
        vec![("good".to_string(), 1), ("after".to_string(), 1)]
    );
}

#[test]
fn differential_vs_mem() {
    let dir = Shared::default();
    let me = ReplicaId([3; 16]);
    let mut r = open_replica(&dir, me);
    let mut oracle = MemEngine::new();

    // A deterministic pseudo-random mix of inserts and retractions.
    let words = ["ash", "bog", "fen", "moss", "peat", "sedge"];
    let mut x = 42u64;
    for step in 0..120u64 {
        x ^= x << 13;
        x ^= x >> 7;
        x ^= x << 17;
        let word = words[(x % 6) as usize];
        let mult = [1i64, 2, -1][(x % 3) as usize];
        r.commit(vec![(datum(word), mult)], step).unwrap();
    }
    for f in r.frames_after(&me, 0) {
        oracle.apply(f, f.event_time).unwrap();
    }

    // The bag reader surfaces only positive multiplicities; the oracle keeps
    // the full Z-set. Compare on the positive projection.
    let fold_side: BTreeMap<Vec<u8>, i64> = bag_contents(&r)
        .into_iter()
        .map(|(w, c)| (postcard::to_stdvec(&w).unwrap(), c))
        .collect();
    let mem_side: BTreeMap<Vec<u8>, i64> = oracle
        .iter()
        .filter(|(_, c)| *c > 0)
        .map(|(k, c)| (k.clone(), *c))
        .collect();
    assert_eq!(fold_side, mem_side, "fold Bag diverged from MemEngine oracle");
    assert_eq!(r.engine().watermark.get(), oracle.watermark());
}
