use sod::engine::{Engine, MemEngine};
use sod::store::{LogStore, MemLog};
use sod::{
    sync_pair, zero_hash, Frame, Msg, Replica, ReplicaId, Session, SodError, VersionVector,
    PROTOCOL_VERSION,
};
use std::cell::{Cell, RefCell};
use std::rc::Rc;

fn replica(b: u8) -> Replica<MemEngine, MemLog> {
    Replica::open(ReplicaId([b; 16]), MemLog::new(), MemEngine::new()).unwrap()
}

#[test]
fn two_replica_session_converges() {
    let mut a = replica(1);
    let mut b = replica(2);
    a.commit(vec![(b"a1".to_vec(), 1)], 10).unwrap();
    a.commit(vec![(b"a2".to_vec(), 2)], 20).unwrap();
    b.commit(vec![(b"b1".to_vec(), -1)], 30).unwrap();

    sync_pair(&mut a, &mut b, 1).unwrap();

    assert_eq!(a.vector(), b.vector());
    assert_eq!(a.engine().view_bytes(), b.engine().view_bytes());
    assert_eq!(a.watermark(), b.watermark());
}

#[test]
fn hello_carries_id() {
    let a = replica(1);
    let s = Session::new(1);
    match s.hello(&a) {
        Msg::Hello { id, .. } => assert_eq!(id, ReplicaId([1; 16])),
        other => panic!("expected hello, got {other:?}"),
    }
}

#[test]
fn sync_pair_reports_peers() {
    let mut a = replica(1);
    let mut b = replica(2);
    a.commit(vec![(b"x".to_vec(), 1)], 10).unwrap();
    let b_vector_before = b.vector().clone();

    let (ra, rb) = sync_pair(&mut a, &mut b, 1).unwrap();
    assert_eq!(ra.peer, ReplicaId([2; 16]));
    assert_eq!(rb.peer, ReplicaId([1; 16]));
    assert_eq!(ra.peer_vector, b_vector_before, "vector snapshot from Hello");
    assert!(ra.skipped.is_empty() && rb.skipped.is_empty());
}

#[test]
fn large_diff_crosses_batch_boundary() {
    // more frames than a batch force multiple Frames messages; delivery must be
    // FIFO or the second batch arrives before the first and gaps out.
    let mut a = replica(1);
    let mut b = replica(2);
    for i in 0..300u64 {
        a.commit(vec![(i.to_be_bytes().to_vec(), 1)], i).unwrap();
    }
    b.commit(vec![(b"from b".to_vec(), 1)], 7).unwrap();

    sync_pair(&mut a, &mut b, 1).unwrap();

    assert_eq!(a.vector(), b.vector());
    assert_eq!(a.engine().view_bytes(), b.engine().view_bytes());
    assert_eq!(b.vector().get(&ReplicaId([1; 16])), 300);
}

#[test]
fn version_mismatch_refuses() {
    let mut a = replica(1);
    let mut b = replica(2);
    a.commit(vec![(b"x".to_vec(), 1)], 10).unwrap();

    let sa = Session::new(1);
    let mut sb = Session::new(2);
    let hello_a = sa.hello(&a);
    match sb.on_msg(&mut b, hello_a) {
        Err(SodError::VersionMismatch { ours, theirs }) => {
            assert_eq!(ours, (PROTOCOL_VERSION, 2));
            assert_eq!(theirs, (PROTOCOL_VERSION, 1));
        }
        other => panic!("expected mismatch, got {other:?}"),
    }
    // nothing was exchanged
    assert_eq!(b.vector().get(&ReplicaId([1; 16])), 0);
}

#[test]
fn relay_carries_third_party_frames() {
    let mut a = replica(1);
    let mut b = replica(2);
    let mut c = replica(3);
    a.commit(vec![(b"from-a".to_vec(), 1)], 10).unwrap();

    sync_pair(&mut a, &mut b, 1).unwrap();
    // c never talks to a, only to b, which relays a's feed
    sync_pair(&mut b, &mut c, 1).unwrap();

    assert_eq!(c.vector().get(&ReplicaId([1; 16])), 1);
    assert_eq!(c.engine().count(b"from-a"), 1);
    assert_eq!(c.engine().view_bytes(), a.engine().view_bytes());
}

#[test]
fn the_answer_is_batched_and_ends_with_done() {
    let mut a = replica(1);
    let mut b = replica(2);
    for i in 0..600u64 {
        a.commit(vec![(vec![i as u8], 1)], i).unwrap();
    }
    b.commit(vec![(b"b".to_vec(), 1)], 1).unwrap();
    sync_pair(&mut replica(3), &mut a, 1).unwrap();

    let mut sa = Session::new(1);
    let sb = Session::new(1);
    let out = sa.on_msg(&mut a, sb.hello(&b)).unwrap();
    let lens: Vec<usize> = out
        .iter()
        .map(|m| match m {
            Msg::Frames(frames) => frames.len(),
            Msg::Done => 0,
            Msg::Hello { .. } => panic!("no second hello"),
        })
        .collect();
    assert_eq!(lens, vec![256, 256, 88, 0]);
    assert!(matches!(out[3], Msg::Done));
    match &out[1] {
        Msg::Frames(frames) => assert_eq!(frames[0].seq, 257),
        other => panic!("expected frames, got {other:?}"),
    }
    assert!(!sa.finished());
}

#[test]
fn finished_needs_both_sides() {
    let mut a = replica(1);
    let b = replica(2);
    let mut s = Session::new(1);
    assert!(!s.finished());
    assert!(s.on_msg(&mut a, Msg::Done).unwrap().is_empty());
    assert!(!s.finished());
    let out = s.on_msg(&mut a, Session::new(1).hello(&b)).unwrap();
    assert_eq!(out.len(), 1);
    assert!(s.finished());
    let report = s.report().unwrap();
    assert_eq!(report.peer, ReplicaId([2; 16]));
    assert_eq!(report.clone().skipped, vec![]);
}

#[test]
fn no_report_without_a_hello() {
    assert!(Session::new(1).report().is_none());
}

#[test]
fn a_forked_feed_is_skipped_once_and_the_rest_goes_on() {
    let mut a = replica(1);
    a.commit(vec![(b"x".to_vec(), 1)], 1).unwrap();
    a.commit(vec![(b"y".to_vec(), 1)], 2).unwrap();
    let honest = a.frames_after(&ReplicaId([1; 16]), 0).to_vec();
    let mut c = replica(3);
    c.commit(vec![(b"c".to_vec(), 1)], 3).unwrap();
    let other = c.frames_after(&ReplicaId([3; 16]), 0)[0].clone();

    let mut b = replica(2);
    b.ingest(honest[0].clone()).unwrap();
    let mut forged = honest[0].clone();
    forged.payload = vec![(b"z".to_vec(), 1)];

    let mut s = Session::new(1);
    let out = s
        .on_msg(&mut b, Msg::Frames(vec![forged, honest[1].clone(), other]))
        .unwrap();
    assert!(out.is_empty());
    assert_eq!(
        s.skipped().to_vec(),
        vec![SodError::Equivocation { origin: ReplicaId([1; 16]), seq: 1 }]
    );
    assert_eq!(b.vector().get(&ReplicaId([1; 16])), 1);
    assert_eq!(b.vector().get(&ReplicaId([3; 16])), 1);

    // in a later session the poisoned feed is refused as such
    let mut s = Session::new(1);
    s.on_msg(&mut b, Msg::Frames(vec![honest[1].clone()])).unwrap();
    assert_eq!(
        s.skipped().to_vec(),
        vec![SodError::Poisoned(ReplicaId([1; 16]))]
    );
}

#[test]
fn a_poisoned_feed_is_not_relayed() {
    let mut a = replica(1);
    a.commit(vec![(b"x".to_vec(), 1)], 1).unwrap();
    let honest = a.frames_after(&ReplicaId([1; 16]), 0)[0].clone();
    let mut b = replica(2);
    b.ingest(honest.clone()).unwrap();
    let mut forged = honest;
    forged.event_time = 2;
    assert!(b.ingest(forged).is_err());

    let mut c = replica(3);
    sync_pair(&mut b, &mut c, 1).unwrap();
    assert_eq!(c.vector().get(&ReplicaId([1; 16])), 0);
}

#[test]
fn a_gap_breaks_the_session_off() {
    let mut b = replica(2);
    let mut s = Session::new(1);
    let frame = Frame {
        prev_hash: zero_hash(),
        origin: ReplicaId([9; 16]),
        seq: 3,
        event_time: 1,
        payload: vec![],
    };
    assert_eq!(
        s.on_msg(&mut b, Msg::Frames(vec![frame])).err(),
        Some(SodError::Gap { origin: ReplicaId([9; 16]), have: 0, got: 3 })
    );
}

#[test]
fn a_second_session_has_nothing_to_send() {
    let mut a = replica(1);
    let mut b = replica(2);
    a.commit(vec![(b"x".to_vec(), 1)], 1).unwrap();
    sync_pair(&mut a, &mut b, 1).unwrap();
    let mut s = Session::new(1);
    let out = s.on_msg(&mut a, Session::new(1).hello(&b)).unwrap();
    assert_eq!(out.len(), 1);
    assert!(matches!(out[0], Msg::Done));
    assert!(matches!(out[0].clone(), Msg::Done));
}

/// An engine that refuses the frames of one origin, with an error of its choice,
/// and fails to apply those of another.
struct Choosy {
    inner: MemEngine,
    refused: Option<(ReplicaId, SodError)>,
    failing: Option<ReplicaId>,
}

impl Engine for Choosy {
    fn validate(&self, frame: &Frame) -> Result<(), SodError> {
        match &self.refused {
            Some((origin, e)) if frame.origin == *origin => Err(e.clone()),
            _ => Ok(()),
        }
    }
    fn apply(&mut self, frame: &Frame, watermark: u64) -> Result<(), SodError> {
        if self.failing == Some(frame.origin) {
            return Err(SodError::Io("no room".to_string()));
        }
        self.inner.apply(frame, watermark)
    }
    fn applied(&self) -> VersionVector {
        self.inner.applied()
    }
    fn seed_watermark(&mut self, wm: u64) {
        self.inner.seed_watermark(wm)
    }
}

/// A log that others can read, and that fails after so many appends, or to sync.
#[derive(Clone)]
struct Watched {
    frames: Rc<RefCell<Vec<Frame>>>,
    room: Rc<Cell<usize>>,
    syncs: Rc<Cell<bool>>,
}

impl Watched {
    fn new() -> Self {
        Watched {
            frames: Rc::default(),
            room: Rc::new(Cell::new(usize::MAX)),
            syncs: Rc::new(Cell::new(true)),
        }
    }
}

impl LogStore for Watched {
    fn append(&mut self, frame: &Frame) -> Result<(), SodError> {
        if self.frames.borrow().len() >= self.room.get() {
            return Err(SodError::Io("disk full".to_string()));
        }
        self.frames.borrow_mut().push(frame.clone());
        Ok(())
    }
    fn sync(&mut self) -> Result<(), SodError> {
        if self.syncs.get() {
            Ok(())
        } else {
            Err(SodError::Io("no sync".to_string()))
        }
    }
    fn take_frames(&mut self) -> Vec<Frame> {
        Vec::new()
    }
}

fn feeds_of_two() -> (Replica<MemEngine, MemLog>, Vec<Frame>) {
    let mut a = replica(1);
    let mut c = replica(3);
    for t in 0..3 {
        a.commit(vec![(vec![b'a', t as u8], 1)], t).unwrap();
        c.commit(vec![(vec![b'c', t as u8], 1)], t).unwrap();
    }
    sync_pair(&mut a, &mut c, 1).unwrap();
    let mut frames = a.frames_after(&ReplicaId([1; 16]), 0).to_vec();
    frames.extend(a.frames_after(&ReplicaId([3; 16]), 0).to_vec());
    (a, frames)
}

#[test]
fn a_refusal_about_a_feed_is_recorded_and_any_other_breaks_off() {
    let (_, frames) = feeds_of_two();
    let origin = ReplicaId([1; 16]);
    let soft = SodError::Poisoned(ReplicaId([8; 16]));
    let engine = Choosy {
        inner: MemEngine::new(),
        refused: Some((origin, soft.clone())),
        failing: None,
    };
    let mut b = Replica::open(ReplicaId([2; 16]), MemLog::new(), engine).unwrap();
    let mut s = Session::new(1);
    let mut some = vec![frames[0].clone(), frames[0].clone()];
    some.extend(frames[3..].to_vec());
    assert!(s.on_msg(&mut b, Msg::Frames(some)).unwrap().is_empty());
    assert_eq!(s.skipped().to_vec(), vec![soft]);
    assert_eq!(b.vector().get(&origin), 0);
    assert_eq!(b.vector().get(&ReplicaId([3; 16])), 3);

    let engine = Choosy {
        inner: MemEngine::new(),
        refused: Some((ReplicaId([3; 16]), SodError::Corrupt("odd"))),
        failing: None,
    };
    let mut b = Replica::open(ReplicaId([2; 16]), MemLog::new(), engine).unwrap();
    let mut s = Session::new(1);
    let broken = s.on_msg(&mut b, Msg::Frames(frames)).err();
    assert_eq!(broken, Some(SodError::Corrupt("odd")));
    assert!(s.skipped().is_empty());
    assert_eq!(b.vector().get(&origin), 3);
    assert_eq!(b.vector().get(&ReplicaId([3; 16])), 0);
}

#[test]
fn a_failing_log_or_engine_breaks_off_with_its_own_error() {
    let (mut a, frames) = feeds_of_two();
    let log = Watched::new();
    log.room.set(4);
    let mut b = Replica::open(ReplicaId([2; 16]), log.clone(), MemEngine::new()).unwrap();
    assert_eq!(
        sync_pair(&mut a, &mut b, 1).err(),
        Some(SodError::Io("disk full".to_string()))
    );
    // the first four frames of what b lacked, and nothing else
    assert_eq!(*log.frames.borrow(), frames[..4].to_vec());
    assert_eq!(b.vector().get(&ReplicaId([1; 16])), 3);
    assert_eq!(b.vector().get(&ReplicaId([3; 16])), 1);
    // with room again the session is run again and completes
    log.room.set(usize::MAX);
    sync_pair(&mut a, &mut b, 1).unwrap();
    assert_eq!(*log.frames.borrow(), frames);
    assert_eq!(a.vector(), b.vector());

    let log = Watched::new();
    log.syncs.set(false);
    let mut b = Replica::open(ReplicaId([4; 16]), log.clone(), MemEngine::new()).unwrap();
    let mut s = Session::new(1);
    assert_eq!(
        s.on_msg(&mut b, Msg::Done).err(),
        Some(SodError::Io("no sync".to_string()))
    );
    assert_eq!(
        sync_pair(&mut a, &mut b, 1).err(),
        Some(SodError::Io("no sync".to_string()))
    );
    assert_eq!(*log.frames.borrow(), frames);

    let engine = Choosy {
        inner: MemEngine::new(),
        refused: None,
        failing: Some(ReplicaId([3; 16])),
    };
    let mut b = Replica::open(ReplicaId([5; 16]), MemLog::new(), engine).unwrap();
    assert_eq!(
        sync_pair(&mut a, &mut b, 1).err(),
        Some(SodError::Io("no room".to_string()))
    );
    assert_eq!(b.vector().get(&ReplicaId([1; 16])), 3);
    assert_eq!(b.vector().get(&ReplicaId([3; 16])), 0);
}

#[test]
fn a_session_cut_on_both_sides_ends_where_the_uncut_one_does() {
    type Pair = (Replica<MemEngine, Watched>, Replica<MemEngine, Watched>);
    fn pair() -> (Pair, Watched, Watched) {
        let (la, lb) = (Watched::new(), Watched::new());
        let mut a = Replica::open(ReplicaId([1; 16]), la.clone(), MemEngine::new()).unwrap();
        let mut b = Replica::open(ReplicaId([2; 16]), lb.clone(), MemEngine::new()).unwrap();
        let mut c = replica(3);
        for t in 0..4u64 {
            a.commit(vec![(vec![b'a', t as u8], 1)], t).unwrap();
            b.commit(vec![(vec![b'b', t as u8], -2)], t + 9).unwrap();
            c.commit(vec![(vec![b'c', t as u8], 3)], t).unwrap();
        }
        for f in c.frames_after(&ReplicaId([3; 16]), 0) {
            b.ingest(f.clone()).unwrap();
        }
        ((a, b), la, lb)
    }
    let ((mut a0, mut b0), la0, lb0) = pair();
    sync_pair(&mut a0, &mut b0, 1).unwrap();
    for k in 0..=8usize {
        for l in 0..=4usize {
            let ((mut a, mut b), la, lb) = pair();
            let mut for_a = b.frames_after(&ReplicaId([2; 16]), 0).to_vec();
            for_a.extend(b.frames_after(&ReplicaId([3; 16]), 0).to_vec());
            let for_b = a.frames_after(&ReplicaId([1; 16]), 0).to_vec();
            let (mut sa, mut sb) = (Session::new(1), Session::new(1));
            sa.on_msg(&mut a, Msg::Frames(for_a[..k].to_vec())).unwrap();
            sb.on_msg(&mut b, Msg::Frames(for_b[..l].to_vec())).unwrap();
            sync_pair(&mut a, &mut b, 1).unwrap();
            assert_eq!(*la.frames.borrow(), *la0.frames.borrow());
            assert_eq!(*lb.frames.borrow(), *lb0.frames.borrow());
            assert_eq!(a.vector(), a0.vector());
            assert_eq!(b.vector(), b0.vector());
            assert_eq!(a.engine().view_bytes(), a0.engine().view_bytes());
            assert_eq!(b.engine().view_bytes(), b0.engine().view_bytes());
            assert_eq!(a.watermark(), a0.watermark());
        }
    }
}

#[test]
fn skipped_keeps_the_first_refusal_of_each_origin_in_order() {
    let (a, frames) = feeds_of_two();
    let mut b = replica(2);
    for f in &frames {
        b.ingest(f.clone()).unwrap();
    }
    assert_eq!(a.vector(), b.vector());
    let forged = |k: usize| {
        let mut f = frames[k].clone();
        f.event_time += 100;
        f
    };
    let mut s = Session::new(1);
    s.on_msg(&mut b, Msg::Frames(vec![forged(4), frames[0].clone()])).unwrap();
    let first = SodError::Equivocation { origin: ReplicaId([3; 16]), seq: 2 };
    assert_eq!(s.skipped().to_vec(), vec![first.clone()]);
    // a message that breaks the session off leaves what came before
    let mut gap = frames[2].clone();
    gap.seq = 9;
    assert!(s.on_msg(&mut b, Msg::Frames(vec![forged(3), gap, forged(1)])).is_err());
    assert_eq!(s.skipped().to_vec(), vec![first.clone()]);
    s.on_msg(&mut b, Msg::Frames(vec![forged(1), forged(2), frames[3].clone()])).unwrap();
    let second = SodError::Equivocation { origin: ReplicaId([1; 16]), seq: 2 };
    assert_eq!(s.skipped().to_vec(), vec![first, second]);
}

#[test]
fn a_hello_prints_its_vector_as_a_map() {
    let mut a = replica(1);
    a.commit(vec![(b"x".to_vec(), 1)], 1).unwrap();
    let one = "01".repeat(16);
    assert_eq!(
        format!("{:?}", Session::new(5).hello(&a)),
        format!(
            "Hello {{ protocol: 1, schema: 5, id: {one}, vector: VersionVector({{{one}: 1}}) }}"
        )
    );
}
