//! Recovery of a log file's contents: one append-only run of records.
//!
//! On open the whole file is scanned and verified:
//!
//! - A clean partial record at the *end* of the file is a torn tail, the
//!   result of a crash mid-append, and is dropped.
//! - A record that fails verification *followed by nothing* is treated the
//!   same way (the crash corrupted the tail).
//! - A bad record followed by further data is **corruption**, not a torn tail:
//!   recovery refuses with [`SodError::Corrupt`] rather than silently dropping
//!   interior data.

use crate::error::SodError;
use crate::frame::{read_record, Frame, FrameView, RecordRead, RecordView};
use vstd::prelude::*;
use vstd::slice::slice_subrange;

verus! {

/// What recovery makes of a log's bytes.
#[verifier::ext_equal]
pub enum RecoveryView {
    /// The frames of the valid records, which end at `end`.
    Valid { frames: Seq<FrameView>, end: int },
    /// A record's length cannot be trusted, so nothing beyond it can be located.
    BadLength,
    /// A bad record is followed by further data.
    BadRecord,
}

impl RecoveryView {
    /// This recovery of what follows `frames`, which end at `at`.
    pub open spec fn after(self, frames: Seq<FrameView>, at: int) -> RecoveryView {
        match self {
            RecoveryView::Valid { frames: more, end } => RecoveryView::Valid {
                frames: frames + more,
                end: at + end,
            },
            _ => self,
        }
    }
}

/// The recovery of a log that holds `bytes`.
pub open spec fn recovered(bytes: Seq<u8>) -> RecoveryView
    decreases bytes.len(),
{
    if bytes.len() == 0 {
        RecoveryView::Valid { frames: seq![], end: 0 }
    } else {
        match crate::frame::record_at_front(bytes) {
            RecordView::Partial => RecoveryView::Valid { frames: seq![], end: 0 },
            RecordView::BadLength => RecoveryView::BadLength,
            RecordView::BadHash { end } | RecordView::BadBody { end } => if end < bytes.len() {
                RecoveryView::BadRecord
            } else {
                RecoveryView::Valid { frames: seq![], end: 0 }
            },
            RecordView::Whole { frame, hash, end } => recovered(bytes.skip(end)).after(
                seq![frame],
                end,
            ),
        }
    }
}

/// The records of `frames`, one after the other.
pub open spec fn log_bytes(frames: Seq<FrameView>) -> Seq<u8>
    decreases frames.len(),
{
    if frames.len() == 0 {
        seq![]
    } else {
        log_bytes(frames.drop_last()) + frames.last().record()
    }
}

/// The frames of a vector, each taken by what it says.
pub open spec fn frame_views(frames: Seq<Frame>) -> Seq<FrameView> {
    frames.map_values(|f: Frame| f@)
}

/// What recovery does with one record.
pub enum Verdict {
    /// Keep its frame and go on behind it.
    Keep { frame: Frame, end: usize },
    /// It is a torn tail: the log ends before it.
    Stop,
    BadLength,
    BadRecord,
}

/// What recovery does with the record read at a place behind which, record
/// included, `left` bytes are left.
pub fn judge(read: RecordRead, left: usize) -> (v: Verdict)
    ensures
        match read {
            RecordRead::Whole { frame, hash, end } => v == (Verdict::Keep { frame, end }),
            RecordRead::Partial => v is Stop,
            RecordRead::BadLength => v is BadLength,
            RecordRead::BadHash { end } | RecordRead::BadBody { end } => if end < left {
                v is BadRecord
            } else {
                v is Stop
            },
        },
{
    match read {
        RecordRead::Whole { frame, hash: _, end } => Verdict::Keep { frame, end },
        // A clean partial record: nothing can follow it.
        RecordRead::Partial => Verdict::Stop,
        // The record cannot be delimited and nothing beyond it can be located.
        // Torn appends produce short records, not garbled headers.
        RecordRead::BadLength => Verdict::BadLength,
        // A complete but bad record of trusted length: torn tail only if
        // nothing lies beyond its declared end.
        RecordRead::BadHash { end } | RecordRead::BadBody { end } => if end < left {
            Verdict::BadRecord
        } else {
            Verdict::Stop
        },
    }
}

/// Scan a log's bytes: the frames of its valid records, in order, and where
/// the last of them ends. The bytes beyond that are a torn tail.
pub fn recover(bytes: &[u8]) -> (r: Result<(Vec<Frame>, usize), SodError>)
    ensures
        match recovered(bytes@) {
            RecoveryView::Valid { frames, end } => r matches Ok((f, valid_end)) && frame_views(f@)
                == frames && valid_end == end,
            RecoveryView::BadLength => r matches Err(SodError::Corrupt(what)) && what@
                == "interior log corruption (record length check failed)"@,
            RecoveryView::BadRecord => r matches Err(SodError::Corrupt(what)) && what@
                == "interior log corruption (bad record followed by data)"@,
        },
{
    let mut frames: Vec<Frame> = Vec::new();
    let mut pos: usize = 0;
    proof {
        assert(bytes@.skip(0) =~= bytes@);
        assert(recovered(bytes@).after(seq![], 0) =~= recovered(bytes@));
        assert(frame_views(frames@) =~= seq![]);
    }
    while pos < bytes.len()
        invariant
            pos <= bytes@.len(),
            recovered(bytes@) == recovered(bytes@.skip(pos as int)).after(
                frame_views(frames@),
                pos as int,
            ),
        decreases bytes@.len() - pos,
    {
        let rest = slice_subrange(bytes, pos, bytes.len());
        assert(rest@ =~= bytes@.skip(pos as int));
        match judge(read_record(rest), rest.len()) {
            Verdict::Keep { frame, end } => {
                let ghost before = frames@;
                frames.push(frame);
                proof {
                    lemma_record_end(rest@);
                    assert(rest@.skip(end as int) =~= bytes@.skip(pos + end));
                    assert(frame_views(frames@) =~= frame_views(before).push(frame@));
                    let tail = recovered(rest@.skip(end as int));
                    assert(tail.after(seq![frame@], end as int).after(
                        frame_views(before),
                        pos as int,
                    ) =~= tail.after(frame_views(frames@), pos + end));
                }
                pos = pos + end;
            },
            Verdict::Stop => {
                assert(frame_views(frames@) + Seq::<FrameView>::empty() =~= frame_views(frames@));
                return Ok((frames, pos));
            },
            Verdict::BadLength => {
                return Err(
                    SodError::Corrupt("interior log corruption (record length check failed)"),
                );
            },
            Verdict::BadRecord => {
                return Err(
                    SodError::Corrupt("interior log corruption (bad record followed by data)"),
                );
            },
        }
    }
    assert(frame_views(frames@) + Seq::<FrameView>::empty() =~= frame_views(frames@));
    Ok((frames, pos))
}

/// A whole record has a positive length and lies within its bytes, and what
/// follows it does not matter to its reading.
proof fn lemma_record_end(buf: Seq<u8>)
    ensures
        crate::frame::record_at_front(buf) matches RecordView::Whole { frame, hash, end } ==> {
            &&& 40 <= end <= buf.len()
            &&& forall|other: Seq<u8>|
                other.len() >= end && other.take(end) == buf.take(end)
                    ==> #[trigger] crate::frame::record_at_front(other)
                    == crate::frame::record_at_front(buf)
        },
{
    if let RecordView::Whole { frame, hash, end } = crate::frame::record_at_front(buf) {
        assert forall|other: Seq<u8>|
            other.len() >= end && other.take(end) == buf.take(
                end,
            ) implies #[trigger] crate::frame::record_at_front(other)
            == crate::frame::record_at_front(buf) by {
            assert(other.take(4) =~= other.take(end).take(4));
            assert(buf.take(4) =~= buf.take(end).take(4));
            assert(other.subrange(4, 8) =~= other.take(end).subrange(4, 8));
            assert(buf.subrange(4, 8) =~= buf.take(end).subrange(4, 8));
            assert(other.subrange(8, end - 32) =~= other.take(end).subrange(8, end - 32));
            assert(buf.subrange(8, end - 32) =~= buf.take(end).subrange(8, end - 32));
            assert(other.subrange(end - 32, end) =~= other.take(end).subrange(end - 32, end));
            assert(buf.subrange(end - 32, end) =~= buf.take(end).subrange(end - 32, end));
        }
    }
}

/// What recovery keeps of a log stays valid when anything is written after it:
/// the frames kept come first, then whatever the new bytes hold. So recovery
/// of the truncated log gives the same frames again, and so does recovery
/// after later appends, before the appended ones.
pub proof fn law_recovered_prefix_is_stable(bytes: Seq<u8>, rest: Seq<u8>)
    ensures
        recovered(bytes) matches RecoveryView::Valid { frames, end } ==> {
            &&& 0 <= end <= bytes.len()
            &&& recovered(bytes.take(end)) == recovered(bytes)
            &&& recovered(bytes.take(end) + rest) == recovered(rest).after(frames, end)
        },
    decreases bytes.len(),
{
    if let RecoveryView::Valid { frames, end } = recovered(bytes) {
        let front = crate::frame::record_at_front(bytes);
        if bytes.len() > 0 && front is Whole {
            let first = front->Whole_end;
            let frame = front->frame;
            lemma_record_end(bytes);
            let tail = bytes.skip(first);
            law_recovered_prefix_is_stable(tail, rest);
            let more = recovered(tail)->frames;
            let tail_end = recovered(tail)->Valid_end;
            assert(end == first + tail_end && frames == seq![frame] + more);
            let kept = bytes.take(end);
            assert(kept.take(first) =~= bytes.take(first));
            assert(kept.skip(first) =~= tail.take(tail_end));
            assert((kept + rest).take(first) =~= bytes.take(first));
            assert((kept + rest).skip(first) =~= tail.take(tail_end) + rest);
            assert(crate::frame::record_at_front(kept) == front);
            assert(crate::frame::record_at_front(kept + rest) == front);
            assert(recovered(rest).after(more, tail_end).after(seq![frame], first) =~= recovered(
                rest,
            ).after(frames, end));
        } else {
            assert(frames =~= seq![] && end == 0);
            assert(bytes.take(0) =~= seq![]);
            assert(bytes.take(0) + rest =~= rest);
            assert(recovered(rest).after(seq![], 0) =~= recovered(rest));
        }
    }
}

/// A log of the records of `frames` recovers to exactly `frames`, followed by
/// whatever the bytes after them hold.
pub proof fn law_written_log_recovers(frames: Seq<FrameView>, rest: Seq<u8>)
    requires
        forall|i: int|
            0 <= i < frames.len() ==> (#[trigger] frames[i]).fits_record()
                && frames[i].reads_back(),
    ensures
        recovered(log_bytes(frames)) == (RecoveryView::Valid {
            frames,
            end: log_bytes(frames).len() as int,
        }),
        recovered(log_bytes(frames) + rest) == recovered(rest).after(
            frames,
            log_bytes(frames).len() as int,
        ),
    decreases frames.len(),
{
    if frames.len() == 0 {
        assert(frames =~= seq![]);
        assert(log_bytes(frames) + rest =~= rest);
        assert(recovered(rest).after(seq![], 0) =~= recovered(rest));
    } else {
        let init = frames.drop_last();
        let last = frames.last();
        let at = log_bytes(init).len() as int;
        let rec = last.record();
        law_written_log_recovers(init, rec);
        law_written_log_recovers(init, rec + rest);
        lemma_one_record(last, seq![]);
        lemma_one_record(last, rest);
        assert(rec + seq![] =~= rec);
        assert(log_bytes(frames) =~= log_bytes(init) + rec);
        assert(log_bytes(frames) + rest =~= log_bytes(init) + (rec + rest));
        assert(init + seq![last] =~= frames);
        assert(recovered(seq![]).after(seq![last], rec.len() as int).after(init, at)
            =~= RecoveryView::Valid { frames, end: log_bytes(frames).len() as int });
        assert(recovered(rest).after(seq![last], rec.len() as int).after(init, at) =~= recovered(
            rest,
        ).after(frames, log_bytes(frames).len() as int));
    }
}

proof fn lemma_one_record(f: FrameView, rest: Seq<u8>)
    requires
        f.fits_record(),
        f.reads_back(),
    ensures
        f.record().len() > 0,
        recovered(f.record() + rest) == recovered(rest).after(seq![f], f.record().len() as int),
{
    crate::frame::law_record_reads_back(f, rest);
    lemma_record_end(f.record() + rest);
    assert((f.record() + rest).skip(f.record().len() as int) =~= rest);
}

/// A crash in the middle of an append is healed: a log whose last record is cut
/// short anywhere recovers to the frames before it, and their end.
pub proof fn law_torn_tail_is_dropped(frames: Seq<FrameView>, torn: FrameView, cut: int)
    requires
        forall|i: int|
            0 <= i < frames.len() ==> (#[trigger] frames[i]).fits_record()
                && frames[i].reads_back(),
        torn.fits_record(),
        0 <= cut < torn.record().len(),
    ensures
        recovered(log_bytes(frames) + torn.record().take(cut)) == (RecoveryView::Valid {
            frames,
            end: log_bytes(frames).len() as int,
        }),
{
    let tail = torn.record().take(cut);
    law_written_log_recovers(frames, tail);
    crate::frame::law_cut_record_is_partial(torn, cut);
    assert(recovered(tail) =~= RecoveryView::Valid { frames: seq![], end: 0 });
    assert(frames + Seq::<FrameView>::empty() =~= frames);
}

/// Interior data is never dropped in silence: a bad record of trusted length
/// after valid ones is refused if anything follows it and dropped as a tail if
/// nothing does, and a record of untrusted length is refused in any case.
pub proof fn law_bad_record(frames: Seq<FrameView>, bad: Seq<u8>)
    requires
        forall|i: int|
            0 <= i < frames.len() ==> (#[trigger] frames[i]).fits_record()
                && frames[i].reads_back(),
    ensures
        match crate::frame::record_at_front(bad) {
            RecordView::BadHash { end } | RecordView::BadBody { end } => recovered(
                log_bytes(frames) + bad,
            ) == if end < bad.len() {
                RecoveryView::BadRecord
            } else {
                RecoveryView::Valid { frames, end: log_bytes(frames).len() as int }
            },
            RecordView::BadLength => recovered(log_bytes(frames) + bad) == RecoveryView::BadLength,
            _ => true,
        },
{
    law_written_log_recovers(frames, bad);
    assert(frames + Seq::<FrameView>::empty() =~= frames);
}

} // verus!
