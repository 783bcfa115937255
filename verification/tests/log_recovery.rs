//! Torn-tail recovery and crash healing, on the bytes of a log.

use std::cell::RefCell;
use std::rc::Rc;

use sod::engine::MemEngine;
use sod::frame::RecordRead;
use sod::log_file::{judge, recover, Verdict};
use sod::store::{LogStore, MemLog};
use sod::{zero_hash, Frame, FrameHash, Replica, ReplicaId, SodError};

fn frame(origin: u8, seq: u64, prev: FrameHash) -> Frame {
    Frame {
        prev_hash: prev,
        origin: ReplicaId([origin; 16]),
        seq,
        event_time: 1_000 + seq,
        payload: vec![(format!("datum-{origin}-{seq}").into_bytes(), 1)],
    }
}

fn chain(origin: u8, n: u64) -> Vec<Frame> {
    let mut frames = Vec::new();
    let mut prev = zero_hash();
    for seq in 1..=n {
        let f = frame(origin, seq, prev);
        prev = f.hash();
        frames.push(f);
    }
    frames
}

/// The bytes of a log file.
type Disk = Rc<RefCell<Vec<u8>>>;

/// A log kept in shared bytes: recovered, and cut back to its last valid
/// record, when opened.
struct ByteLog {
    disk: Disk,
    frames: Vec<Frame>,
}

impl ByteLog {
    fn open(disk: &Disk) -> Result<Self, SodError> {
        let (frames, valid_end) = recover(disk.borrow().as_slice())?;
        disk.borrow_mut().truncate(valid_end);
        Ok(ByteLog { disk: disk.clone(), frames })
    }
}

impl LogStore for ByteLog {
    fn append(&mut self, frame: &Frame) -> Result<(), SodError> {
        frame.encode_record(&mut self.disk.borrow_mut());
        Ok(())
    }
    fn sync(&mut self) -> Result<(), SodError> {
        Ok(())
    }
    fn take_frames(&mut self) -> Vec<Frame> {
        std::mem::take(&mut self.frames)
    }
}

fn disk(bytes: &[u8]) -> Disk {
    Rc::new(RefCell::new(bytes.to_vec()))
}

#[test]
fn roundtrip_reopen() {
    let path = disk(&[]);
    let frames = chain(1, 3);
    {
        let mut log = ByteLog::open(&path).unwrap();
        for f in &frames {
            log.append(f).unwrap();
        }
        log.sync().unwrap();
    }
    let mut log = ByteLog::open(&path).unwrap();
    assert_eq!(log.take_frames(), frames);
}

#[test]
fn torn_tail_truncated() {
    let frames = chain(1, 3);
    let mut full = Vec::new();
    for f in &frames {
        f.encode_record(&mut full);
    }
    let mut two = Vec::new();
    for f in &frames[..2] {
        f.encode_record(&mut two);
    }
    let last_len = full.len() - two.len();

    for cut in 1..=last_len {
        let path = disk(&full[..full.len() - cut]);

        let mut log = ByteLog::open(&path).unwrap();
        assert_eq!(log.take_frames(), frames[..2], "cut={cut}");
        assert_eq!(
            path.borrow().len() as u64,
            two.len() as u64,
            "file restored to last valid boundary, cut={cut}"
        );

        // appends still work after recovery
        log.append(&frames[2]).unwrap();
        log.sync().unwrap();
        drop(log);
        let mut log = ByteLog::open(&path).unwrap();
        assert_eq!(log.take_frames(), frames);
    }
}

#[test]
fn corrupted_length_prefix_refuses_instead_of_truncating() {
    // A bit flip in a record's length prefix must be detected as interior
    // corruption, not misread as a clean torn tail.
    let frames = chain(1, 3);
    let mut bytes = Vec::new();
    for f in &frames {
        f.encode_record(&mut bytes);
    }
    for i in 0..4 {
        let mut bad = bytes.clone();
        bad[i] ^= 0xff; // frame 1's length prefix
        let path = disk(&bad);
        match ByteLog::open(&path).err() {
            Some(SodError::Corrupt(_)) => {}
            other => panic!("expected Corrupt, got {other:?} (flip at {i})"),
        }
        // and the file was not touched
        assert_eq!(*path.borrow(), bad);
    }
}

#[test]
fn replica_crash_heals_by_replay_and_truncation() {
    let path = disk(&[]);
    let me = ReplicaId([9; 16]);

    // Two committed writes, then "crash": the engine (in-memory) is lost.
    {
        let log = ByteLog::open(&path).unwrap();
        let mut r = Replica::open(me, log, MemEngine::new()).unwrap();
        r.commit(vec![(b"a".to_vec(), 1)], 10).unwrap();
        r.commit(vec![(b"b".to_vec(), 2)], 20).unwrap();
    }
    // Reopen with a fresh engine: replay restores everything.
    {
        let log = ByteLog::open(&path).unwrap();
        let r = Replica::open(me, log, MemEngine::new()).unwrap();
        assert_eq!(r.engine().count(b"a"), 1);
        assert_eq!(r.engine().count(b"b"), 2);
        assert_eq!(r.vector().get(&me), 2);
        assert_eq!(r.watermark(), 20);
    }
    // A third commit torn mid-append: chop bytes off the file tail.
    {
        let log = ByteLog::open(&path).unwrap();
        let mut r = Replica::open(me, log, MemEngine::new()).unwrap();
        r.commit(vec![(b"c".to_vec(), 1)], 30).unwrap();
    }
    let full = path.borrow().len();
    path.borrow_mut().truncate(full - 7);
    // Reopen: the torn third frame is truncated, state equals the durable
    // two-frame prefix, and committing resumes at seq 3.
    {
        let log = ByteLog::open(&path).unwrap();
        let mut r = Replica::open(me, log, MemEngine::new()).unwrap();
        assert_eq!(r.engine().count(b"c"), 0);
        assert_eq!(r.vector().get(&me), 2);
        r.commit(vec![(b"c".to_vec(), 5)], 40).unwrap();
        assert_eq!(r.vector().get(&me), 3);
        assert_eq!(r.engine().count(b"c"), 5);
    }
}

#[test]
fn mid_file_corruption_refuses() {
    let frames = chain(1, 3);
    let mut bytes = Vec::new();
    for f in &frames {
        f.encode_record(&mut bytes);
    }
    // flip a byte inside frame 1's body (past its 4-byte length prefix)
    bytes[10] ^= 0xff;
    let path = disk(&bytes);

    match ByteLog::open(&path).err() {
        Some(SodError::Corrupt(_)) => {}
        other => panic!("expected Corrupt, got {other:?}"),
    }
    // and the file was not touched
    assert_eq!(*path.borrow(), bytes);
}

#[test]
fn each_refusal_has_its_message() {
    let frames = chain(1, 2);
    let mut bytes = Vec::new();
    for f in &frames {
        f.encode_record(&mut bytes);
    }
    let mut bad = bytes.clone();
    bad[0] ^= 1;
    assert_eq!(
        recover(&bad),
        Err(SodError::Corrupt(
            "interior log corruption (record length check failed)"
        ))
    );
    let mut bad = bytes.clone();
    bad[10] ^= 1;
    assert_eq!(
        recover(&bad),
        Err(SodError::Corrupt(
            "interior log corruption (bad record followed by data)"
        ))
    );
}

#[test]
fn a_corrupted_last_record_is_dropped() {
    let frames = chain(1, 2);
    let mut bytes = Vec::new();
    frames[0].encode_record(&mut bytes);
    let first = bytes.len();
    frames[1].encode_record(&mut bytes);
    let last = bytes.len() - 1;
    bytes[last] ^= 1;
    assert_eq!(recover(&bytes), Ok((vec![frames[0].clone()], first)));
}

#[test]
fn an_empty_log_recovers_to_nothing() {
    assert_eq!(recover(&[]), Ok((vec![], 0)));
}

#[test]
fn a_memory_log_hands_its_frames_over_once() {
    let frames = chain(1, 2);
    let mut log = MemLog::new();
    for f in &frames {
        log.append(f).unwrap();
    }
    log.sync().unwrap();
    assert_eq!(log.take_frames(), frames);
    assert!(log.take_frames().is_empty());
}

#[test]
fn a_record_is_judged_by_what_follows_it() {
    assert!(matches!(judge(RecordRead::Partial, 10), Verdict::Stop));
    assert!(matches!(judge(RecordRead::BadLength, 10), Verdict::BadLength));
    assert!(matches!(judge(RecordRead::BadHash { end: 50 }, 50), Verdict::Stop));
    assert!(matches!(judge(RecordRead::BadHash { end: 50 }, 51), Verdict::BadRecord));
    assert!(matches!(judge(RecordRead::BadBody { end: 50 }, 60), Verdict::BadRecord));
    let f = frame(1, 1, zero_hash());
    let whole = RecordRead::Whole { frame: f.clone(), hash: f.hash(), end: 70 };
    match judge(whole, 70) {
        Verdict::Keep { frame, end } => assert_eq!((frame, end), (f, 70)),
        _ => panic!("expected the frame"),
    }
}
