use sod::engine::{Engine, MemEngine};
use sod::feeds::Fault;
use sod::replica::{check_link, classify, Arrival};
use sod::store::{LogStore, MemLog};
use sod::{zero_hash, Frame, FrameHash, Replica, ReplicaId, SodError, VersionVector};

fn id(b: u8) -> ReplicaId {
    ReplicaId([b; 16])
}

fn replica(b: u8) -> Replica<MemEngine, MemLog> {
    Replica::open(id(b), MemLog::new(), MemEngine::new()).unwrap()
}

fn datum(s: &str) -> Vec<u8> {
    s.as_bytes().to_vec()
}

#[test]
fn commit_chains_and_applies() {
    let mut r = replica(1);
    let h1 = r.commit(vec![(datum("a"), 1)], 100).unwrap();
    let _h2 = r.commit(vec![(datum("a"), 2), (datum("b"), -1)], 200).unwrap();
    assert_eq!(r.vector().get(&id(1)), 2);
    assert_eq!(r.engine().count(b"a"), 3);
    assert_eq!(r.engine().count(b"b"), -1);
    assert_eq!(r.watermark(), 200);
    let frames = r.frames_after(&id(1), 0);
    assert_eq!(frames[0].prev_hash, zero_hash());
    assert_eq!(frames[1].prev_hash, h1);
}

#[test]
fn reopen_replays_only_unapplied() {
    // Build a log of three frames; give the reopening engine a cursor that has
    // already applied the first: only the suffix replays.
    let mut r = replica(1);
    r.commit(vec![(datum("a"), 1)], 10).unwrap();
    r.commit(vec![(datum("b"), 1)], 20).unwrap();
    r.commit(vec![(datum("c"), 1)], 30).unwrap();
    let frames: Vec<_> = r.frames_after(&id(1), 0).to_vec();
    let mut log = MemLog::new();
    for f in &frames {
        log.append(f).unwrap();
    }

    let mut pre = MemEngine::new();
    pre.apply(&frames[0], 10).unwrap();
    let r2 = Replica::open(id(1), log, pre).unwrap();
    assert_eq!(r2.engine().count(b"a"), 1, "not double-applied");
    assert_eq!(r2.engine().count(b"b"), 1);
    assert_eq!(r2.engine().count(b"c"), 1);
    assert_eq!(r2.watermark(), 30);
    assert_eq!(r2.vector().get(&id(1)), 3);
}

#[test]
fn ingest_dedups() {
    let mut a = replica(1);
    a.commit(vec![(datum("a"), 1)], 10).unwrap();
    let frame = a.frames_after(&id(1), 0)[0].clone();

    let mut b = replica(2);
    assert!(b.ingest(frame.clone()).unwrap());
    assert!(!b.ingest(frame).unwrap(), "duplicate is a no-op");
    assert_eq!(b.engine().count(b"a"), 1);
}

#[test]
fn ingest_gap_rejected() {
    let mut a = replica(1);
    a.commit(vec![(datum("a"), 1)], 10).unwrap();
    a.commit(vec![(datum("b"), 1)], 20).unwrap();
    let second = a.frames_after(&id(1), 1)[0].clone();

    let mut b = replica(2);
    match b.ingest(second) {
        Err(SodError::Gap { have: 0, got: 2, .. }) => {}
        other => panic!("expected gap, got {other:?}"),
    }
}

#[test]
fn equivocation_poisons() {
    let mut a = replica(1);
    a.commit(vec![(datum("a"), 1)], 10).unwrap();
    let honest = a.frames_after(&id(1), 0)[0].clone();

    // a forged alternative frame 1 from the same origin
    let mut forged = honest.clone();
    forged.payload = vec![(datum("evil"), 1)];

    let mut b = replica(2);
    b.ingest(honest.clone()).unwrap();
    match b.ingest(forged) {
        Err(SodError::Equivocation { seq: 1, .. }) => {}
        other => panic!("expected equivocation, got {other:?}"),
    }
    // origin is now poisoned, even for the honest frame
    match b.ingest(honest) {
        Err(SodError::Poisoned(o)) if o == id(1) => {}
        other => panic!("expected poisoned, got {other:?}"),
    }
    // other origins unaffected
    let mut c = replica(3);
    c.commit(vec![(datum("fine"), 1)], 5).unwrap();
    let fine = c.frames_after(&id(3), 0)[0].clone();
    assert!(b.ingest(fine).unwrap());
}

#[test]
fn ingest_seq_zero_is_corrupt_not_panic() {
    let mut b = replica(2);
    let bad = Frame {
        prev_hash: zero_hash(),
        origin: id(1), // unknown origin
        seq: 0,
        event_time: 1,
        payload: vec![(datum("x"), 1)],
    };
    match b.ingest(bad) {
        Err(SodError::Corrupt(_)) => {}
        other => panic!("expected corrupt, got {other:?}"),
    }
    // known origin, seq 0: same refusal
    let mut a = replica(1);
    a.commit(vec![(datum("a"), 1)], 1).unwrap();
    b.ingest(a.frames_after(&id(1), 0)[0].clone()).unwrap();
    let mut bad = a.frames_after(&id(1), 0)[0].clone();
    bad.seq = 0;
    assert!(matches!(b.ingest(bad), Err(SodError::Corrupt(_))));
}

#[test]
fn forged_own_feed_frame_does_not_self_poison() {
    let mut a = replica(1);
    a.commit(vec![(datum("mine"), 1)], 10).unwrap();

    // a hostile peer fabricates a conflicting frame claiming a's origin
    let mut forged = a.frames_after(&id(1), 0)[0].clone();
    forged.payload = vec![(datum("forged"), 1)];
    match a.ingest(forged) {
        Err(SodError::Equivocation { seq: 1, .. }) => {}
        other => panic!("expected equivocation, got {other:?}"),
    }
    // our own feed is never poisoned: local commits keep working
    assert_eq!(a.poisoned().count(), 0);
    a.commit(vec![(datum("still fine"), 1)], 20).unwrap();
    assert_eq!(a.vector().get(&id(1)), 2);
}

#[test]
fn watermark_is_max_event_time() {
    let mut a = replica(1);
    a.commit(vec![(datum("late"), 1)], 500).unwrap();
    a.commit(vec![(datum("early"), 1)], 100).unwrap();
    assert_eq!(a.watermark(), 500);
    assert_eq!(a.engine().watermark(), 500);
}

#[test]
fn commit_returns_the_hash_of_the_frame_held() {
    let mut a = replica(1);
    let h = a.commit(vec![(datum("x"), 1)], 3).unwrap();
    let held = a.frames_after(&id(1), 0);
    assert_eq!(held.len(), 1);
    assert_eq!(held[0].hash(), h);
    assert_eq!(
        held[0],
        Frame {
            prev_hash: zero_hash(),
            origin: id(1),
            seq: 1,
            event_time: 3,
            payload: vec![(datum("x"), 1)],
        }
    );
    assert_eq!(a.id(), id(1));
}

#[test]
fn broken_chain_link_is_a_fork() {
    let mut a = replica(1);
    a.commit(vec![(datum("x"), 1)], 3).unwrap();
    let mut first = a.frames_after(&id(1), 0)[0].clone();
    first.prev_hash = first.hash();
    let mut b = replica(2);
    assert_eq!(
        b.ingest(first),
        Err(SodError::Equivocation { origin: id(1), seq: 1 })
    );
    let poisoned: Vec<ReplicaId> = b.poisoned().copied().collect();
    assert_eq!(poisoned, vec![id(1)]);
    assert_eq!(b.vector(), &VersionVector::new());
}

#[test]
fn frames_after_gives_the_suffix() {
    let mut a = replica(1);
    for t in 0..3 {
        a.commit(vec![(datum("x"), 1)], t).unwrap();
    }
    assert_eq!(a.frames_after(&id(1), 2).len(), 1);
    assert_eq!(a.frames_after(&id(1), 2)[0].seq, 3);
    assert!(a.frames_after(&id(1), 3).is_empty());
    assert!(a.frames_after(&id(1), 4).is_empty());
    assert!(a.frames_after(&id(1), u64::MAX).is_empty());
    assert!(a.frames_after(&id(7), 99).is_empty());
}

#[test]
fn faulty_logs_do_not_open() {
    let mut a = replica(1);
    a.commit(vec![(datum("x"), 1)], 1).unwrap();
    a.commit(vec![(datum("y"), 1)], 2).unwrap();
    let frames = a.frames_after(&id(1), 0).to_vec();

    let mut log = MemLog::new();
    log.append(&frames[1]).unwrap();
    assert_eq!(
        Replica::open(id(1), log, MemEngine::new()).err(),
        Some(SodError::Corrupt("log feed not contiguous"))
    );

    let mut log = MemLog::new();
    let mut unlinked = frames[1].clone();
    unlinked.prev_hash = zero_hash();
    log.append(&frames[0]).unwrap();
    log.append(&unlinked).unwrap();
    assert_eq!(
        Replica::open(id(1), log, MemEngine::new()).err(),
        Some(SodError::Corrupt("log feed chain broken"))
    );
}

#[test]
fn an_engine_ahead_of_the_log_is_not_applied_twice() {
    let mut a = replica(1);
    a.commit(vec![(datum("x"), 1)], 1).unwrap();
    a.commit(vec![(datum("y"), 1)], 2).unwrap();
    let frames = a.frames_after(&id(1), 0).to_vec();

    // the engine has both frames, the log lost the second
    let mut ahead = MemEngine::new();
    ahead.apply(&frames[0], 1).unwrap();
    ahead.apply(&frames[1], 2).unwrap();
    let mut log = MemLog::new();
    log.append(&frames[0]).unwrap();
    let mut r = Replica::open(id(2), log, ahead).unwrap();
    assert_eq!(r.vector().get(&id(1)), 1);
    assert!(r.ingest(frames[1].clone()).unwrap());
    assert_eq!(r.engine().count(b"y"), 1);
    assert_eq!(r.vector().get(&id(1)), 2);
}

#[test]
fn frames_of_different_origins_commute() {
    let mut a = replica(1);
    let mut b = replica(2);
    a.commit(vec![(datum("x"), 2)], 7).unwrap();
    b.commit(vec![(datum("x"), -1)], 9).unwrap();
    let f = a.frames_after(&id(1), 0)[0].clone();
    let g = b.frames_after(&id(2), 0)[0].clone();
    let mut c = replica(3);
    let mut d = replica(3);
    c.ingest(f.clone()).unwrap();
    c.ingest(g.clone()).unwrap();
    d.ingest(g).unwrap();
    d.ingest(f).unwrap();
    assert_eq!(c.vector(), d.vector());
    assert_eq!(c.watermark(), d.watermark());
    assert_eq!(c.engine().view_bytes(), d.engine().view_bytes());
}

#[test]
fn engine_mut_reaches_the_engine() {
    let mut a = replica(1);
    a.engine_mut().seed_watermark(77);
    assert_eq!(a.engine().watermark(), 77);
    assert_eq!(a.watermark(), 0);
}

/// An engine that refuses one datum, and a log that can be told to fail.
struct Picky {
    inner: MemEngine,
}

impl Engine for Picky {
    fn validate(&self, frame: &Frame) -> Result<(), SodError> {
        if frame.payload.iter().any(|(d, _)| d == b"no") {
            return Err(SodError::Corrupt("refused"));
        }
        Ok(())
    }
    fn apply(&mut self, frame: &Frame, watermark: u64) -> Result<(), SodError> {
        self.inner.apply(frame, watermark)
    }
    fn applied(&self) -> VersionVector {
        self.inner.applied()
    }
    fn seed_watermark(&mut self, wm: u64) {
        self.inner.seed_watermark(wm)
    }
}

struct Flaky {
    failing: std::rc::Rc<std::cell::Cell<bool>>,
    appended: std::rc::Rc<std::cell::Cell<usize>>,
}

impl LogStore for Flaky {
    fn append(&mut self, _frame: &Frame) -> Result<(), SodError> {
        if self.failing.get() {
            return Err(SodError::Io("disk full".to_string()));
        }
        self.appended.set(self.appended.get() + 1);
        Ok(())
    }
    fn sync(&mut self) -> Result<(), SodError> {
        Ok(())
    }
    fn take_frames(&mut self) -> Vec<Frame> {
        Vec::new()
    }
}

#[test]
fn a_refused_frame_does_not_reach_the_log() {
    let failing = std::rc::Rc::new(std::cell::Cell::new(false));
    let appended = std::rc::Rc::new(std::cell::Cell::new(0usize));
    let log = Flaky { failing: failing.clone(), appended: appended.clone() };
    let mut r = Replica::open(id(1), log, Picky { inner: MemEngine::new() }).unwrap();
    assert_eq!(
        r.commit(vec![(datum("no"), 1)], 1),
        Err(SodError::Corrupt("refused"))
    );
    assert_eq!(appended.get(), 0);
    assert_eq!(r.vector().get(&id(1)), 0);
    r.commit(vec![(datum("yes"), 1)], 1).unwrap();
    assert_eq!(appended.get(), 1);
}

#[test]
fn a_failed_append_leaves_the_replica_as_it_was() {
    let failing = std::rc::Rc::new(std::cell::Cell::new(true));
    let appended = std::rc::Rc::new(std::cell::Cell::new(0usize));
    let log = Flaky { failing: failing.clone(), appended };
    let mut r = Replica::open(id(1), log, MemEngine::new()).unwrap();
    assert_eq!(
        r.commit(vec![(datum("x"), 1)], 50),
        Err(SodError::Io("disk full".to_string()))
    );
    assert_eq!(r.vector().get(&id(1)), 0);
    assert_eq!(r.watermark(), 0);
    assert_eq!(r.engine().count(b"x"), 0);
    failing.set(false);
    r.commit(vec![(datum("x"), 1)], 50).unwrap();
    assert_eq!(r.watermark(), 50);
    assert_eq!(r.sync_log(), Ok(()));
}

#[test]
fn a_frame_is_judged_by_its_feed() {
    let frame = |seq: u64| Frame {
        prev_hash: FrameHash([8; 32]),
        origin: id(1),
        seq,
        event_time: 0,
        payload: vec![],
    };
    let (hash, other, head) = (FrameHash([1; 32]), FrameHash([2; 32]), FrameHash([8; 32]));
    let is = |a: Arrival, name: &str| {
        let got = match a {
            Arrival::SeqZero => "zero",
            Arrival::Poisoned => "poisoned",
            Arrival::Duplicate => "duplicate",
            Arrival::Fork => "fork",
            Arrival::Gap => "gap",
            Arrival::Next => "next",
        };
        assert_eq!(got, name);
    };
    is(classify(&frame(0), hash, true, 3, None, head), "zero");
    is(classify(&frame(4), hash, true, 3, None, head), "poisoned");
    is(classify(&frame(2), hash, false, 3, Some(hash), head), "duplicate");
    is(classify(&frame(2), hash, false, 3, Some(other), head), "fork");
    is(classify(&frame(4), hash, false, 3, None, other), "fork");
    is(classify(&frame(5), hash, false, 3, None, head), "gap");
    is(classify(&frame(u64::MAX), hash, false, 3, None, head), "gap");
    is(classify(&frame(4), hash, false, 3, None, head), "next");

    assert!(check_link(&frame(4), 3, head).is_none());
    assert!(matches!(check_link(&frame(0), 0, head), Some(Fault::NotContiguous)));
    assert!(matches!(check_link(&frame(4), 3, other), Some(Fault::ChainBroken)));
}

struct Counting {
    frames: std::rc::Rc<std::cell::Cell<usize>>,
    hardened: std::rc::Rc<std::cell::Cell<usize>>,
    failing: bool,
}

impl LogStore for Counting {
    fn append(&mut self, _frame: &Frame) -> Result<(), SodError> {
        self.frames.set(self.frames.get() + 1);
        Ok(())
    }
    fn sync(&mut self) -> Result<(), SodError> {
        if self.failing {
            return Err(SodError::Io("no sync".to_string()));
        }
        self.hardened.set(self.frames.get());
        Ok(())
    }
    fn take_frames(&mut self) -> Vec<Frame> {
        Vec::new()
    }
}

#[test]
fn ingested_frames_are_hardened_by_sync_log() {
    let frames = std::rc::Rc::new(std::cell::Cell::new(0usize));
    let hardened = std::rc::Rc::new(std::cell::Cell::new(0usize));
    let log = Counting { frames, hardened: hardened.clone(), failing: false };
    let mut r = Replica::open(id(2), log, MemEngine::new()).unwrap();

    r.commit(vec![(datum("own"), 1)], 1).unwrap();
    assert_eq!(hardened.get(), 1, "a commit is hardened");

    let mut a = replica(1);
    a.commit(vec![(datum("x"), 1)], 1).unwrap();
    r.ingest(a.frames_after(&id(1), 0)[0].clone()).unwrap();
    assert_eq!(hardened.get(), 1, "an ingest is not");
    r.sync_log().unwrap();
    assert_eq!(hardened.get(), 2);
}

#[test]
fn a_failing_sync_is_reported() {
    let cell = std::rc::Rc::new(std::cell::Cell::new(0usize));
    let log = Counting { frames: cell.clone(), hardened: cell, failing: true };
    let mut r = Replica::open(id(2), log, MemEngine::new()).unwrap();
    assert_eq!(r.sync_log(), Err(SodError::Io("no sync".to_string())));
}

/// An engine that fails to apply.
struct Broken;

impl Engine for Broken {
    fn validate(&self, _frame: &Frame) -> Result<(), SodError> {
        Ok(())
    }
    fn apply(&mut self, _frame: &Frame, _watermark: u64) -> Result<(), SodError> {
        Err(SodError::Io("no room".to_string()))
    }
    fn applied(&self) -> VersionVector {
        VersionVector::new()
    }
    fn seed_watermark(&mut self, _wm: u64) {}
}

#[test]
fn a_frame_that_the_engine_fails_to_apply_is_in_the_log_and_hardened() {
    let frames = std::rc::Rc::new(std::cell::Cell::new(0usize));
    let hardened = std::rc::Rc::new(std::cell::Cell::new(0usize));
    let log = Counting { frames: frames.clone(), hardened: hardened.clone(), failing: false };
    let mut r = Replica::open(id(2), log, Broken).unwrap();
    assert_eq!(
        r.commit(vec![(datum("x"), 1)], 1).err(),
        Some(SodError::Io("no room".to_string()))
    );
    assert_eq!((frames.get(), hardened.get()), (1, 1));
    assert_eq!(r.vector().get(&id(2)), 0);

    // a log that fails is reported before the engine is reached
    let cell = std::rc::Rc::new(std::cell::Cell::new(0usize));
    let log = Counting { frames: cell.clone(), hardened: cell, failing: true };
    let mut r = Replica::open(id(2), log, Broken).unwrap();
    assert_eq!(
        r.commit(vec![(datum("x"), 1)], 1).err(),
        Some(SodError::Io("no sync".to_string()))
    );
}
