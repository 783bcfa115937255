//! The [`LogStore`] trait, where a replica's frames persist, and [`MemLog`],
//! the trivial in-memory implementation.
//!
//! Sod's only durability requirement is an append-only sequence of verified
//! frame records; everything else about a platform's storage is the
//! implementation's business.

use crate::error::SodError;
use crate::frame::{Frame, FrameView};
use vstd::prelude::*;

verus! {

/// Append-only frame storage.
///
/// Implementations perform torn-write recovery *at open*: by the time a
/// `LogStore` value exists, every frame it reports has already been
/// hash-verified, and a torn tail (if the platform can produce one) has been
/// discarded.
///
/// The ghost functions say what an implementation keeps. One written outside
/// Verus leaves them out, and is then trusted to keep something that its methods
/// treat as they say here.
pub trait LogStore {
    /// Every frame stored, in append order.
    closed spec fn stored(&self) -> Seq<FrameView> {
        arbitrary()
    }

    /// The stored frames still to be handed over by
    /// [`take_frames`](LogStore::take_frames).
    closed spec fn unread(&self) -> Seq<FrameView> {
        arbitrary()
    }

    /// The frames that were stored when [`sync`](LogStore::sync) last succeeded:
    /// those hardened against crashes.
    closed spec fn synced(&self) -> Seq<FrameView> {
        arbitrary()
    }

    /// The error that the call which failed last returned.
    closed spec fn failure(&self) -> Option<SodError> {
        arbitrary()
    }

    /// Whether the platform's storage never fails.
    open spec fn reliable(&self) -> bool {
        false
    }

    /// Append one frame. Durability is governed by [`sync`](LogStore::sync).
    fn append(&mut self, frame: &Frame) -> (r: Result<(), SodError>)
        ensures
            r is Ok ==> final(self).stored() == old(self).stored().push(frame@),
            final(self).synced() == old(self).synced(),
            r matches Err(e) ==> final(self).failure() == Some(e),
            old(self).reliable() ==> r is Ok && final(self).reliable(),
    ;

    /// Harden all appended frames against crashes (fsync or equivalent).
    fn sync(&mut self) -> (r: Result<(), SodError>)
        ensures
            final(self).stored() == old(self).stored(),
            final(self).synced() == if r is Ok {
                old(self).stored()
            } else {
                old(self).synced()
            },
            r matches Err(e) ==> final(self).failure() == Some(e),
            old(self).reliable() ==> r is Ok && final(self).reliable(),
    ;

    /// Hand over every stored frame, in append order. Called exactly once, at
    /// [`Replica::open`](crate::Replica::open): the replica owns the in-memory
    /// copy from then on, so implementations must not retain frames after this
    /// (that would hold every frame in memory twice).
    fn take_frames(&mut self) -> (frames: Vec<Frame>)
        ensures
            crate::log_file::frame_views(frames@) == old(self).unread(),
            final(self).stored() == old(self).stored(),
            final(self).synced() == old(self).synced(),
            old(self).reliable() ==> final(self).reliable(),
    ;
}

/// In-memory log: for tests, oracles, and replicas whose durability is
/// delegated elsewhere.
pub struct MemLog {
    frames: Vec<Frame>,
    taken: Ghost<Seq<FrameView>>,
    hardened: Ghost<Seq<FrameView>>,
}

impl Default for MemLog {
    fn default() -> (log: Self)
        ensures
            log.stored() == Seq::<FrameView>::empty(),
            log.unread() == Seq::<FrameView>::empty(),
            log.synced() == Seq::<FrameView>::empty(),
    {
        let log = MemLog {
            frames: Vec::new(),
            taken: Ghost(Seq::empty()),
            hardened: Ghost(Seq::empty()),
        };
        assert(log.stored() =~= Seq::<FrameView>::empty());
        assert(log.unread() =~= Seq::<FrameView>::empty());
        log
    }
}

impl MemLog {
    pub fn new() -> (log: Self)
        ensures
            log.stored() == Seq::<FrameView>::empty(),
            log.unread() == Seq::<FrameView>::empty(),
            log.synced() == Seq::<FrameView>::empty(),
    {
        Self::default()
    }
}

impl LogStore for MemLog {
    closed spec fn stored(&self) -> Seq<FrameView> {
        self.taken@ + crate::log_file::frame_views(self.frames@)
    }

    closed spec fn unread(&self) -> Seq<FrameView> {
        crate::log_file::frame_views(self.frames@)
    }

    closed spec fn synced(&self) -> Seq<FrameView> {
        self.hardened@
    }

    open spec fn reliable(&self) -> bool {
        true
    }

    fn append(&mut self, frame: &Frame) -> (r: Result<(), SodError>)
        ensures
            final(self).unread() == old(self).unread().push(frame@),
    {
        self.frames.push(frame.clone());
        proof {
            assert(self.unread() =~= old(self).unread().push(frame@));
            assert(self.stored() =~= old(self).stored().push(frame@));
        }
        Ok(())
    }

    fn sync(&mut self) -> (r: Result<(), SodError>)
        ensures
            final(self).unread() == old(self).unread(),
    {
        self.hardened = Ghost(old(self).stored());
        Ok(())
    }

    fn take_frames(&mut self) -> (frames: Vec<Frame>)
        ensures
            final(self).unread() == Seq::<FrameView>::empty(),
    {
        let mut frames: Vec<Frame> = Vec::new();
        std::mem::swap(&mut frames, &mut self.frames);
        self.taken = Ghost(old(self).stored());
        proof {
            assert(self.unread() =~= Seq::<FrameView>::empty());
            assert(self.stored() =~= old(self).stored());
        }
        frames
    }
}

} // verus!
