//! [`Replica`]: the write path, crash recovery, and feed bookkeeping.
//!
//! A replica owns a [`LogStore`] (the truth) and an [`Engine`] (a rebuildable
//! cache). Local commits and remote ingests both follow the log-first
//! discipline: append (+ sync per policy), then apply, with the engine's own
//! applied-cursor closing the crash window in either direction (log ahead of
//! engine: replay at open; engine ahead of log: the apply guard skips
//! re-application).

use crate::engine::{Engine, EngineView};
use crate::error::SodError;
use crate::feeds::Fault;
use crate::frame::{zero_hash, Frame, FrameHash, FrameView, ReplicaId};
use crate::idset::IdSet;
use crate::ordmap::OrdMap;
use crate::store::LogStore;
use crate::vector::VersionVector;
use vstd::prelude::*;
use vstd::slice::slice_subrange;
use vstd::std_specs::iter::IteratorSpec;

verus! {

/// What a replica is: its feeds, what it thinks of their origins, and what its
/// engine and its log hold.
#[verifier::ext_equal]
pub struct ReplicaView {
    pub id: ReplicaId,
    /// The frames held, per origin: frame `seq` at index `seq - 1`.
    pub feeds: Map<ReplicaId, Seq<FrameView>>,
    /// The origins whose further frames are refused.
    pub poisoned: Set<ReplicaId>,
    /// The greatest event time of the frames held.
    pub watermark: u64,
    /// How far the engine is known to have applied each feed.
    pub cursor: Map<ReplicaId, u64>,
    pub engine: EngineView,
    /// The frames in the log, in append order.
    pub log: Seq<FrameView>,
}

/// What a frame from a peer is to a replica.
pub enum Arrival {
    /// Its seq is 0.
    SeqZero,
    /// Its origin is poisoned.
    Poisoned,
    /// It is held already.
    Duplicate,
    /// It conflicts with the feed held.
    Fork,
    /// Frames before it are missing.
    Gap,
    /// It is the next frame of its feed.
    Next,
}

impl ReplicaView {
    /// Every feed is a contiguous hash chain, the watermark is the greatest
    /// event time held, and the replica's own feed is not poisoned.
    pub open spec fn wf(self) -> bool {
        &&& crate::feeds::well_formed(self.feeds)
        &&& crate::feeds::is_newest(self.feeds, self.watermark)
        &&& !self.poisoned.contains(self.id)
    }

    pub open spec fn feed(self, origin: ReplicaId) -> Seq<FrameView> {
        crate::feeds::feed_of(self.feeds, origin)
    }

    /// How many frames are held of each origin.
    pub open spec fn vector(self) -> Map<ReplicaId, u64> {
        crate::feeds::lengths(self.feeds)
    }

    /// The replica `id` whose log holds `log` and whose engine, in state `e`
    /// before, the log was replayed into.
    pub open spec fn opened(
        id: ReplicaId,
        log: Seq<FrameView>,
        e: EngineView,
        stored: Seq<FrameView>,
    ) -> ReplicaView {
        ReplicaView {
            id,
            feeds: crate::feeds::log_feeds(log),
            poisoned: Set::empty(),
            watermark: crate::feeds::log_newest(log),
            cursor: crate::feeds::replayed(log, e).cursor,
            engine: crate::feeds::replayed(log, e),
            log: stored,
        }
    }

    /// The frame that commits `payload` at `event_time`.
    pub open spec fn next_frame(self, payload: Seq<(Seq<u8>, i64)>, event_time: u64) -> FrameView {
        FrameView {
            prev_hash: crate::feeds::head_hash(self.feed(self.id)),
            origin: self.id,
            seq: (self.feed(self.id).len() + 1) as u64,
            event_time,
            payload,
        }
    }

    /// What `f` is to this replica.
    pub open spec fn arrival(self, f: FrameView) -> Arrival {
        let feed = self.feed(f.origin);
        arrival_at_feed(
            f,
            f.hash(),
            self.poisoned.contains(f.origin),
            feed.len() as int,
            if 0 < f.seq <= feed.len() {
                Some(feed[f.seq - 1].hash())
            } else {
                None
            },
            crate::feeds::head_hash(feed),
        )
    }

    /// With `f` held: appended to the log and to its feed, counted in the
    /// watermark, and applied unless the engine had applied it before.
    pub open spec fn accepted(self, f: FrameView) -> ReplicaView {
        let watermark = crate::feeds::later(self.watermark, f.event_time);
        let ReplicaView { engine, cursor, .. } = self;
        let fresh = f.seq > crate::vector::held(cursor, f.origin);
        ReplicaView {
            feeds: crate::feeds::grown(self.feeds, f),
            watermark,
            cursor: if fresh {
                cursor.insert(f.origin, f.seq)
            } else {
                cursor
            },
            engine: if fresh {
                engine.apply(f, watermark)
            } else {
                engine
            },
            log: self.log.push(f),
            ..self
        }
    }

    /// After a frame of `origin` conflicted with the feed held: a foreign feed
    /// is poisoned, the replica's own never is.
    pub open spec fn forked(self, origin: ReplicaId) -> ReplicaView {
        ReplicaView {
            poisoned: if origin == self.id {
                self.poisoned
            } else {
                self.poisoned.insert(origin)
            },
            ..self
        }
    }

    /// The log holds exactly the frames of the feeds, each after its
    /// predecessor.
    pub open spec fn logged(self) -> bool {
        &&& crate::feeds::log_fault(self.log) is None
        &&& crate::feeds::log_feeds(self.log) == self.feeds
    }

    /// The engine holds exactly the frames of the feeds.
    pub open spec fn in_step(self) -> bool {
        &&& self.cursor == self.vector()
        &&& self.engine == (EngineView {
            zset: crate::feeds::net(self.feeds),
            cursor: self.vector(),
            watermark: self.watermark,
        })
    }

    /// The engine has applied what the feeds hold and more: exactly the frames of
    /// `full` that its cursor covers.
    pub open spec fn engine_ahead(self, full: Map<ReplicaId, Seq<FrameView>>) -> bool {
        &&& crate::feeds::prefixed(self.feeds, full)
        &&& self.cursor == self.engine.cursor
        &&& crate::feeds::holds_part(self.engine, full)
        &&& forall|o: ReplicaId|
            #![trigger self.feed(o)]
            self.feed(o).len() <= crate::vector::held(self.cursor, o)
    }

    /// Of each origin's feed, one of the two replicas holds a prefix of what
    /// the other holds: no origin has told them different things.
    pub open spec fn compatible(self, other: ReplicaView) -> bool {
        forall|o: ReplicaId|
            #![trigger self.feed(o)]
            #![trigger other.feed(o)]
            self.feed(o).is_prefix_of(other.feed(o)) || other.feed(o).is_prefix_of(self.feed(o))
    }

    /// This replica but for the log.
    pub open spec fn same_but_log(self, other: ReplicaView) -> bool {
        self == (ReplicaView { log: self.log, ..other })
    }
}

/// What the frame `f`, of hash `hash`, is to a feed of `have` frames, poisoned or
/// not, whose frame at its place, if there is one, has the hash `known`, and
/// whose head hash is `head`.
pub open spec fn arrival_at_feed(
    f: FrameView,
    hash: FrameHash,
    poisoned: bool,
    have: int,
    known: Option<FrameHash>,
    head: FrameHash,
) -> Arrival {
    if f.seq == 0 {
        Arrival::SeqZero
    } else if poisoned {
        Arrival::Poisoned
    } else if f.seq <= have {
        if known == Some(hash) {
            Arrival::Duplicate
        } else {
            Arrival::Fork
        }
    } else if f.seq > have + 1 {
        Arrival::Gap
    } else if f.prev_hash != head {
        Arrival::Fork
    } else {
        Arrival::Next
    }
}

/// What `frame`, of hash `hash`, is to a feed of `have` frames, poisoned or not,
/// whose frame at its place, if there is one, has the hash `known`, and whose
/// head hash is `head`.
pub fn classify(
    frame: &Frame,
    hash: FrameHash,
    poisoned: bool,
    have: u64,
    known: Option<FrameHash>,
    head: FrameHash,
) -> (a: Arrival)
    ensures
        a == arrival_at_feed(frame@, hash, poisoned, have as int, known, head),
{
    if frame.seq == 0 {
        // seqs are 1-based; nothing on the wire guarantees that
        return Arrival::SeqZero;
    }
    if poisoned {
        return Arrival::Poisoned;
    }
    if frame.seq <= have {
        return match known {
            Some(known) => if known == hash {
                Arrival::Duplicate
            } else {
                Arrival::Fork
            },
            None => Arrival::Fork,
        };
    }
    if frame.seq - 1 > have {
        return Arrival::Gap;
    }
    if frame.prev_hash != head {
        // same (origin, seq) position as a chain we don't hold
        return Arrival::Fork;
    }
    Arrival::Next
}

/// What is wrong with `frame` as the next frame of a feed of `have` frames whose
/// head hash is `head`.
pub fn check_link(frame: &Frame, have: u64, head: FrameHash) -> (fault: Option<Fault>)
    ensures
        fault == crate::feeds::link_fault(frame@, have as int, head),
{
    if frame.seq == 0 || frame.seq - 1 != have {
        return Some(Fault::NotContiguous);
    }
    if frame.prev_hash != head {
        return Some(Fault::ChainBroken);
    }
    None
}

/// Replaying `log` into `engine` failed with `e` at the frame `log[k]`, which was
/// beyond the engine's cursor, when those before it had been replayed; `failed`
/// is the engine then.
pub open spec fn replay_failed<E: Engine>(
    log: Seq<FrameView>,
    engine: E,
    k: int,
    failed: E,
    e: SodError,
) -> bool {
    &&& 0 <= k < log.len()
    &&& crate::feeds::log_fault(log.take(k + 1)) is None
    &&& log[k].seq > crate::vector::held(engine.state().cursor, log[k].origin)
    &&& failed.state() == crate::feeds::replayed(log.take(k), engine.state())
    &&& failed.failure() == Some(e)
    &&& !(engine.reliable() && engine.refusal(log[k]) is None)
}

/// The text of the error for a faulty log.
pub open spec fn fault_text(fault: Fault) -> Seq<char> {
    match fault {
        Fault::NotContiguous => "log feed not contiguous"@,
        Fault::ChainBroken => "log feed chain broken"@,
    }
}

struct Feed {
    frames: Vec<Frame>,
    hashes: Vec<FrameHash>,
}

impl Feed {
    spec fn frames(self) -> Seq<FrameView> {
        crate::log_file::frame_views(self.frames@)
    }

    /// `hashes[seq - 1]` is the hash of `frames[seq - 1]`.
    spec fn hashed(self) -> bool {
        &&& self.hashes@.len() == self.frames@.len()
        &&& forall|i: int|
            0 <= i < self.hashes@.len() ==> #[trigger] self.hashes@[i] == self.frames@[i]@.hash()
    }

    fn new() -> (feed: Feed)
        ensures
            feed.hashed(),
            feed.frames() == Seq::<FrameView>::empty(),
    {
        let feed = Feed { frames: Vec::new(), hashes: Vec::new() };
        assert(feed.frames() =~= Seq::<FrameView>::empty());
        feed
    }

    fn head_hash(&self) -> (h: FrameHash)
        requires
            self.hashed(),
        ensures
            h == crate::feeds::head_hash(self.frames()),
    {
        if self.hashes.len() == 0 {
            zero_hash()
        } else {
            self.hashes[self.hashes.len() - 1]
        }
    }

    fn push(&mut self, frame: Frame, hash: FrameHash)
        requires
            old(self).hashed(),
            hash == frame@.hash(),
        ensures
            final(self).hashed(),
            final(self).frames() == old(self).frames().push(frame@),
    {
        self.hashes.push(hash);
        self.frames.push(frame);
        assert(self.frames() =~= old(self).frames().push(frame@));
    }
}

/// The feeds that an ordered map holds.
spec fn feeds_view(feeds: Map<ReplicaId, Feed>) -> Map<ReplicaId, Seq<FrameView>> {
    feeds.map_values(|feed: Feed| feed.frames())
}

spec fn all_hashed(feeds: Map<ReplicaId, Feed>) -> bool {
    forall|o: ReplicaId| #[trigger] feeds.contains_key(o) ==> feeds[o].hashed()
}

/// Add the next frame to its feed.
fn push_frame(feeds: &mut OrdMap<ReplicaId, Feed>, frame: Frame, hash: FrameHash)
    requires
        all_hashed(old(feeds)@),
        hash == frame@.hash(),
    ensures
        all_hashed(final(feeds)@),
        feeds_view(final(feeds)@) == crate::feeds::grown(feeds_view(old(feeds)@), frame@),
{
    let origin = frame.origin;
    let mut feed = match feeds.remove(&origin) {
        Some(feed) => feed,
        None => Feed::new(),
    };
    feed.push(frame, hash);
    feeds.insert(origin, feed);
    assert(feeds_view(feeds@) =~= crate::feeds::grown(feeds_view(old(feeds)@), frame@));
}

/// The hash of the last frame held of `origin`.
fn head_hash(feeds: &OrdMap<ReplicaId, Feed>, origin: &ReplicaId) -> (h: FrameHash)
    requires
        all_hashed(feeds@),
    ensures
        h == crate::feeds::head_hash(crate::feeds::feed_of(feeds_view(feeds@), *origin)),
{
    match feeds.get(origin) {
        Some(feed) => feed.head_hash(),
        None => zero_hash(),
    }
}

/// Replay one frame into the engine: apply it if it is beyond `cursor`, and
/// count its event time otherwise.
fn replay<E: Engine>(
    engine: &mut E,
    frame: &Frame,
    watermark: u64,
    cursor: &VersionVector,
) -> (r: Result<(), SodError>)
    ensures
        ({
            let fresh = frame.seq > crate::vector::held(cursor@, frame.origin);
            match r {
                Ok(()) => final(engine).state() == if fresh {
                    old(engine).state().apply(frame@, watermark)
                } else {
                    old(engine).state().seed(watermark)
                },
                Err(e) => {
                    &&& fresh
                    &&& final(engine).state() == old(engine).state()
                    &&& final(engine).failure() == Some(e)
                    &&& !(old(engine).reliable() && old(engine).refusal(frame@) is None)
                },
            }
        }),
        old(engine).reliable() ==> {
            &&& final(engine).reliable()
            &&& forall|f: FrameView| #[trigger]
                final(engine).refusal(f) == old(engine).refusal(f)
        },
{
    if frame.seq > cursor.get(&frame.origin) {
        engine.apply(frame, watermark)
    } else {
        engine.seed_watermark(watermark);
        Ok(())
    }
}

/// A sod: one replica of the shared multiset.
pub struct Replica<E: Engine, L: LogStore> {
    id: ReplicaId,
    log: L,
    engine: E,
    feeds: OrdMap<ReplicaId, Feed>,
    vector: VersionVector,
    engine_cursor: VersionVector,
    poisoned: IdSet,
    watermark: u64,
}

impl<E: Engine, L: LogStore> View for Replica<E, L> {
    type V = ReplicaView;

    closed spec fn view(&self) -> ReplicaView {
        ReplicaView {
            id: self.id,
            feeds: feeds_view(self.feeds@),
            poisoned: self.poisoned@,
            watermark: self.watermark,
            cursor: self.engine_cursor@,
            engine: self.engine.state(),
            log: self.log.stored(),
        }
    }
}

impl<E: Engine, L: LogStore> Replica<E, L> {
    /// The engine that the replica owns.
    pub closed spec fn the_engine(&self) -> E {
        self.engine
    }

    /// The log that the replica owns.
    pub closed spec fn the_log(&self) -> L {
        self.log
    }

    /// The hashes and the vector agree with the frames held.
    pub closed spec fn consistent(&self) -> bool {
        &&& all_hashed(self.feeds@)
        &&& self.vector@ == crate::feeds::lengths(feeds_view(self.feeds@))
    }

    pub open spec fn wf(&self) -> bool {
        &&& self.consistent()
        &&& self@.wf()
        &&& self@.engine == self.the_engine().state()
        &&& self@.log == self.the_log().stored()
    }

    /// Every frame in the log is hardened against crashes.
    pub open spec fn hardened(&self) -> bool {
        self.the_log().synced() == self.the_log().stored()
    }

    /// Whether neither the log nor the engine ever fails.
    pub open spec fn reliable(&self) -> bool {
        self.the_engine().reliable() && self.the_log().reliable()
    }

    /// Why the engine can never apply `f`; `None` if it can.
    pub open spec fn refusal(&self, f: FrameView) -> Option<SodError> {
        self.the_engine().refusal(f)
    }

    /// If `before` was reliable, so is this replica, and it refuses the same
    /// frames.
    pub open spec fn as_reliable_as(&self, before: &Self) -> bool {
        before.reliable() ==> {
            &&& self.reliable()
            &&& forall|f: FrameView| #[trigger] self.refusal(f) == before.refusal(f)
        }
    }

    /// This replica was offered `f`, the next frame of its feed, and is `after`
    /// then. A frame that the engine refuses changes nothing. Any other is
    /// appended to the log and accepted, or the log fails with the engine
    /// untouched, or the engine fails with the frame in the log; what failed
    /// gave the error.
    pub open spec fn offered(
        &self,
        f: FrameView,
        after: &Self,
        error: Option<SodError>,
    ) -> bool {
        match self.refusal(f) {
            Some(e) => error == Some(e) && *after == *self,
            None => match error {
                None => after@ == self@.accepted(f),
                Some(e) => {
                    &&& !self.reliable()
                    &&& after@.same_but_log(self@)
                    &&& {
                        ||| after.the_engine() == self.the_engine()
                            && after.the_log().failure() == Some(e)
                        ||| after@.log == self@.log.push(f) && after.the_engine().failure() == Some(
                            e,
                        )
                    }
                },
            },
        }
    }

    /// A commit of `f` to this replica failed with `e` after the engine had agreed to
    /// the frame, and the replica is `after` then. Either the log failed, with
    /// nothing more hardened and the engine untouched, or the frame is in the log,
    /// hardened, and the engine failed to apply it.
    pub open spec fn commit_failed(&self, f: FrameView, after: &Self, e: SodError) -> bool {
        ||| {
            &&& after.the_log().failure() == Some(e)
            &&& after.the_log().synced() == self.the_log().synced()
            &&& after.the_engine() == self.the_engine()
        }
        ||| {
            &&& after@.log == self@.log.push(f)
            &&& after.hardened()
            &&& after.the_engine().failure() == Some(e)
        }
    }

    /// This replica ingested `f`, answered `r`, and is `after` then.
    pub open spec fn ingested(
        &self,
        f: FrameView,
        after: &Self,
        r: Result<bool, SodError>,
    ) -> bool {
        &&& after.wf()
        &&& after.as_reliable_as(self)
        &&& after.the_log().synced() == self.the_log().synced()
        &&& match self@.arrival(f) {
            Arrival::SeqZero => {
                &&& r matches Err(SodError::Corrupt(what)) && what@ == "frame seq must be >= 1"@
                &&& *after == *self
            },
            Arrival::Poisoned => {
                &&& r == Err::<bool, SodError>(SodError::Poisoned(f.origin))
                &&& *after == *self
            },
            Arrival::Duplicate => r == Ok::<bool, SodError>(false) && *after == *self,
            Arrival::Fork => {
                &&& r == Err::<bool, SodError>(
                    SodError::Equivocation { origin: f.origin, seq: f.seq },
                )
                &&& after@ == self@.forked(f.origin)
                &&& after.the_engine() == self.the_engine()
                &&& after.the_log() == self.the_log()
            },
            Arrival::Gap => {
                &&& r == Err::<bool, SodError>(
                    SodError::Gap {
                        origin: f.origin,
                        have: self@.feed(f.origin).len() as u64,
                        got: f.seq,
                    },
                )
                &&& *after == *self
            },
            Arrival::Next => match r {
                Ok(new) => new && self.offered(f, after, None),
                Err(e) => self.offered(f, after, Some(e)),
            },
        }
    }

    /// Rebuild feeds, vector, and watermark from the log, verifying every
    /// chain, then replay into the engine each frame beyond its applied cursor.
    #[verifier::spinoff_prover]
    #[verifier::rlimit(30)]
    pub fn open(id: ReplicaId, log: L, engine: E) -> (r: Result<Self, SodError>)
        ensures
            match r {
                Ok(replica) => {
                    &&& replica.wf()
                    &&& crate::feeds::log_fault(log.unread()) is None
                    &&& replica@ == ReplicaView::opened(
                        id,
                        log.unread(),
                        engine.state(),
                        log.stored(),
                    )
                    &&& replica@.id == id
                    &&& replica@.poisoned == Set::<ReplicaId>::empty()
                    &&& forall|o: ReplicaId| #[trigger]
                        replica@.feed(o) == log.unread().filter(|f: FrameView| f.origin == o)
                    &&& replica.the_log().synced() == log.synced()
                    &&& engine.reliable() && log.reliable() ==> replica.reliable()
                    &&& engine.reliable() ==> forall|f: FrameView| #[trigger]
                        replica.refusal(f) == engine.refusal(f)
                },
                Err(e) => {
                    ||| crate::feeds::log_fault(log.unread()) matches Some(fault)
                        && e matches SodError::Corrupt(what) && what@ == fault_text(fault)
                    ||| exists|k: int, failed: E| #[trigger]
                        replay_failed(log.unread(), engine, k, failed, e)
                },
            },
            engine.reliable() && crate::feeds::log_fault(log.unread()) is None && (forall|k: int|
                0 <= k < log.unread().len() ==> engine.refusal(#[trigger] log.unread()[k]) is None)
                ==> r is Ok,
    {
        let ghost frames_in = log.unread();
        let mut store = log;
        let mut machinery = engine;
        let mut feeds: OrdMap<ReplicaId, Feed> = OrdMap::new();
        let mut vector = VersionVector::new();
        let engine_cursor = machinery.applied();
        let mut watermark: u64 = 0;

        let frames = store.take_frames();
        proof {
            assert(frames_in.len() == frames.len());
            assert(frames_in.take(0) =~= seq![]);
            assert(feeds_view(feeds@) =~= Map::empty());
            assert(crate::feeds::lengths(feeds_view(feeds@)) =~= Map::empty());
        }
        for frame in it: frames
            invariant
                crate::log_file::frame_views(frames@) == frames_in,
                it.seq() == frames@,
                frames_in.len() <= u64::MAX,
                frames_in == log.unread(),
                crate::feeds::log_fault(frames_in.take(it.index() as int)) is None,
                all_hashed(feeds@),
                feeds_view(feeds@) == crate::feeds::log_feeds(frames_in.take(it.index() as int)),
                vector@ == crate::feeds::lengths(feeds_view(feeds@)),
                watermark == crate::feeds::log_newest(frames_in.take(it.index() as int)),
                engine_cursor@ == engine.state().cursor,
                machinery.state() == crate::feeds::replayed(
                    frames_in.take(it.index() as int),
                    engine.state(),
                ),
                engine.reliable() ==> {
                    &&& machinery.reliable()
                    &&& forall|f: FrameView| #[trigger] machinery.refusal(f) == engine.refusal(f)
                },
        {
            let ghost k = it.index() as int;
            let ghost before = frames_in.take(k);
            let ghost after = frames_in.take(k + 1);
            let ghost view = frame@;
            proof {
                assert(frames_in[k] == frame@);
                assert(after.drop_last() =~= before);
                assert(after.last() == frame@);
                assert(frames_in.take(frames_in.len() as int) =~= frames_in);
                crate::feeds::lemma_fault_stays(frames_in, k + 1);
                crate::feeds::lemma_log_feeds(before);
            }
            let have = vector.get(&frame.origin);
            match check_link(&frame, have, head_hash(&feeds, &frame.origin)) {
                Some(Fault::NotContiguous) => {
                    return Err(SodError::Corrupt("log feed not contiguous"));
                },
                Some(Fault::ChainBroken) => {
                    return Err(SodError::Corrupt("log feed chain broken"));
                },
                None => {},
            }
            if watermark < frame.event_time {
                watermark = frame.event_time;
            }
            match replay(&mut machinery, &frame, watermark, &engine_cursor) {
                Ok(()) => {},
                Err(e) => {
                    assert(replay_failed(log.unread(), engine, k, machinery, e));
                    return Err(e);
                },
            }
            let hash = frame.hash();
            proof {
                crate::feeds::lemma_grown(
                    feeds_view(feeds@),
                    view,
                    crate::feeds::log_newest(before),
                );
            }
            vector.advance(frame.origin, frame.seq);
            push_frame(&mut feeds, frame, hash);
        }
        proof {
            assert(frames_in.take(frames_in.len() as int) =~= frames_in);
            crate::feeds::lemma_log_feeds(frames_in);
            assert forall|o: ReplicaId| #[trigger]
                crate::feeds::feed_of(crate::feeds::log_feeds(frames_in), o) == frames_in.filter(
                    |f: FrameView| f.origin == o,
                ) by {
                crate::meaning::law_log_feeds_are_the_frames_of_each_origin(frames_in, o);
            }
        }
        let engine_cursor = machinery.applied();
        Ok(
            Replica {
                id,
                log: store,
                engine: machinery,
                feeds,
                vector,
                engine_cursor,
                poisoned: IdSet::new(),
                watermark,
            },
        )
    }

    /// Commit a local write: chain a frame onto our own feed, append it to the
    /// log, sync, and apply. `event_time` is stamped by the caller; sod never
    /// reads a clock. Returns the new frame's hash.
    pub fn commit(&mut self, payload: Vec<(Vec<u8>, i64)>, event_time: u64) -> (r: Result<
        FrameHash,
        SodError,
    >)
        requires
            old(self).wf(),
            old(self)@.feed(old(self)@.id).len() < u64::MAX,
        ensures
            final(self).wf(),
            final(self).as_reliable_as(old(self)),
            ({
                let f = old(self)@.next_frame(crate::codec::deltas(payload@), event_time);
                match r {
                    Ok(hash) => {
                        let own = final(self)@.feed(old(self)@.id);
                        &&& hash == f.hash()
                        &&& old(self).offered(f, final(self), None)
                        &&& final(self).hardened()
                        &&& own == old(self)@.feed(old(self)@.id).push(own.last())
                        &&& own.last().event_time == event_time
                        &&& own.last().payload == crate::codec::deltas(payload@)
                        &&& own.last().origin == old(self)@.id
                        &&& own.last().hash() == hash
                    },
                    Err(e) => {
                        &&& old(self).offered(f, final(self), Some(e))
                        &&& old(self).refusal(f) is None ==> old(self).commit_failed(
                            f,
                            final(self),
                            e,
                        )
                    },
                }
            }),
    {
        let frame = Frame {
            prev_hash: head_hash(&self.feeds, &self.id),
            origin: self.id,
            seq: self.vector.get(&self.id) + 1,
            event_time,
            payload,
        };
        assert(frame@ == old(self)@.next_frame(crate::codec::deltas(payload@), event_time));
        let hash = frame.hash();
        match self.log_and_accept(frame, hash, true) {
            Ok(()) => Ok(hash),
            Err(e) => Err(e),
        }
    }

    /// Ingest a frame received from a peer.
    ///
    /// - Already held with the same hash: `Ok(false)` (dedup).
    /// - Already held with a different hash, or a broken chain link: the
    ///   origin's feed is poisoned and further frames refused.
    /// - Seq beyond our head + 1: [`SodError::Gap`] (peers must stream
    ///   per-origin contiguous suffixes).
    /// - Otherwise: append to the log and apply, `Ok(true)`. Durability batching
    ///   is the caller's business: call [`sync_log`](Replica::sync_log) at
    ///   session boundaries.
    pub fn ingest(&mut self, frame: Frame) -> (r: Result<bool, SodError>)
        requires
            old(self).wf(),
        ensures
            final(self).wf(),
            old(self).ingested(frame@, final(self), r),
    {
        let origin = frame.origin;
        let seq = frame.seq;
        let have = self.vector.get(&origin);
        let hash = frame.hash();
        let known = self.known_hash(&origin, seq);
        match classify(
            &frame,
            hash,
            self.poisoned.contains(&origin),
            have,
            known,
            head_hash(&self.feeds, &origin),
        ) {
            Arrival::SeqZero => Err(SodError::Corrupt("frame seq must be >= 1")),
            Arrival::Poisoned => Err(SodError::Poisoned(origin)),
            Arrival::Duplicate => Ok(false),
            Arrival::Fork => Err(self.fork_detected(origin, seq)),
            Arrival::Gap => Err(SodError::Gap { origin, have, got: seq }),
            Arrival::Next => match self.log_and_accept(frame, hash, false) {
                Ok(()) => Ok(true),
                Err(e) => Err(e),
            },
        }
    }

    /// The hash of the frame `seq` held of `origin`, if it is held.
    fn known_hash(&self, origin: &ReplicaId, seq: u64) -> (h: Option<FrameHash>)
        requires
            self.wf(),
        ensures
            h == if 0 < seq <= self@.feed(*origin).len() {
                Some(self@.feed(*origin)[seq - 1].hash())
            } else {
                None
            },
    {
        if seq == 0 || seq > self.vector.get(origin) {
            return None;
        }
        match self.feeds.get(origin) {
            Some(feed) => {
                assert(self@.feed(*origin) == feed.frames());
                assert(self@.feed(*origin)[seq - 1] == feed.frames@[seq - 1]@);
                assert(feed.hashes@.len() == feed.hashes.len());
                Some(feed.hashes[(seq - 1) as usize])
            },
            None => None,
        }
    }

    /// Append the next frame of its feed to the log, and accept it.
    fn log_and_accept(&mut self, frame: Frame, hash: FrameHash, harden: bool) -> (r: Result<
        (),
        SodError,
    >)
        requires
            old(self).wf(),
            hash == frame@.hash(),
            crate::feeds::continues(old(self)@.feed(frame@.origin), frame@),
        ensures
            final(self).wf(),
            final(self).as_reliable_as(old(self)),
            old(self).offered(
                frame@,
                final(self),
                match r {
                    Ok(()) => None,
                    Err(e) => Some(e),
                },
            ),
            harden && r is Ok ==> final(self).hardened(),
            harden && old(self).refusal(frame@) is None ==> (r matches Err(e)
                ==> old(self).commit_failed(frame@, final(self), e)),
            !harden ==> final(self).the_log().synced() == old(self).the_log().synced(),
    {
        // A frame the engine can never apply must not reach the log: it would
        // fail replay on every subsequent open.
        match self.engine.validate(&frame) {
            Ok(()) => {},
            Err(e) => {
                return Err(e);
            },
        }
        match self.log.append(&frame) {
            Ok(()) => {},
            Err(e) => {
                return Err(e);
            },
        }
        if harden {
            match self.log.sync() {
                Ok(()) => {},
                Err(e) => {
                    return Err(e);
                },
            }
        }
        self.accept(frame, hash)
    }

    /// A frame conflicting with our copy of `origin`'s feed. Foreign feeds are
    /// poisoned; our **own** feed never is: we are its authority, so a
    /// conflicting claim about us is the *peer's* forgery (or a reused replica
    /// id), and self-poisoning would let one hostile message halt local commits.
    fn fork_detected(&mut self, origin: ReplicaId, seq: u64) -> (e: SodError)
        requires
            old(self).wf(),
        ensures
            final(self).wf(),
            final(self).as_reliable_as(old(self)),
            e == (SodError::Equivocation { origin, seq }),
            final(self)@ == old(self)@.forked(origin),
            final(self).the_engine() == old(self).the_engine(),
            final(self).the_log() == old(self).the_log(),
    {
        if origin != self.id {
            let _ = self.poisoned.insert(origin);
        }
        SodError::Equivocation { origin, seq }
    }

    /// Log-accepted frame: guard-apply, then update feeds/vector/watermark.
    fn accept(&mut self, frame: Frame, hash: FrameHash) -> (r: Result<(), SodError>)
        requires
            old(self).wf(),
            hash == frame@.hash(),
            crate::feeds::continues(old(self)@.feed(frame@.origin), frame@),
        ensures
            final(self).wf(),
            r is Ok ==> final(self)@ == (ReplicaView {
                log: old(self)@.log,
                ..old(self)@.accepted(frame@)
            }),
            r matches Err(e) ==> final(self)@ == old(self)@ && final(self).the_engine().failure()
                == Some(e),
            final(self).the_log() == old(self).the_log(),
            final(self).as_reliable_as(old(self)),
            old(self).reliable() && old(self).refusal(frame@) is None ==> r is Ok,
    {
        let watermark = if self.watermark < frame.event_time {
            frame.event_time
        } else {
            self.watermark
        };
        if frame.seq > self.engine_cursor.get(&frame.origin) {
            match self.engine.apply(&frame, watermark) {
                Ok(()) => {},
                Err(e) => {
                    return Err(e);
                },
            }
            self.engine_cursor.set(frame.origin, frame.seq);
        }
        proof {
            crate::feeds::lemma_grown(old(self)@.feeds, frame@, old(self)@.watermark);
        }
        self.watermark = watermark;
        self.vector.advance(frame.origin, frame.seq);
        push_frame(&mut self.feeds, frame, hash);
        Ok(())
    }

    /// Harden received frames (fsync); called at sync-session boundaries.
    pub fn sync_log(&mut self) -> (r: Result<(), SodError>)
        requires
            old(self).wf(),
        ensures
            final(self).wf(),
            final(self)@ == old(self)@,
            final(self).the_engine() == old(self).the_engine(),
            final(self).the_log().synced() == if r is Ok {
                old(self).the_log().stored()
            } else {
                old(self).the_log().synced()
            },
            r matches Err(e) ==> final(self).the_log().failure() == Some(e),
            final(self).as_reliable_as(old(self)),
            old(self).reliable() ==> r is Ok,
    {
        self.log.sync()
    }

    pub fn id(&self) -> (id: ReplicaId)
        ensures
            id == self@.id,
    {
        self.id
    }

    pub fn vector(&self) -> (v: &VersionVector)
        requires
            self.wf(),
        ensures
            v@ == self@.vector(),
    {
        &self.vector
    }

    /// Max event-time across every frame held.
    pub fn watermark(&self) -> (wm: u64)
        ensures
            wm == self@.watermark,
            self.wf() ==> crate::feeds::is_newest(self@.feeds, wm),
    {
        self.watermark
    }

    /// The frames of `origin`'s feed with `seq > after`, in seq order.
    pub fn frames_after(&self, origin: &ReplicaId, after: u64) -> (frames: &[Frame])
        ensures
            crate::log_file::frame_views(frames@) == if after < self@.feed(*origin).len() {
                self@.feed(*origin).skip(after as int)
            } else {
                seq![]
            },
    {
        match self.feeds.get(origin) {
            Some(feed) => {
                if after >= feed.frames.len() as u64 {
                    let none: &[Frame] = &[];
                    assert(crate::log_file::frame_views(none@) =~= seq![]);
                    return none;
                }
                let frames = slice_subrange(
                    feed.frames.as_slice(),
                    after as usize,
                    feed.frames.len(),
                );
                assert(crate::log_file::frame_views(frames@) =~= self@.feed(*origin).skip(
                    after as int,
                ));
                frames
            },
            None => {
                let none: &[Frame] = &[];
                assert(crate::log_file::frame_views(none@) =~= seq![]);
                none
            },
        }
    }

    /// Origins whose feeds this replica has poisoned, in origin order.
    pub fn poisoned(&self) -> (r: std::slice::Iter<'_, ReplicaId>)
        ensures
            crate::idset::ids_ascend(r.remaining().unref()),
            r.remaining().unref().to_set() == self@.poisoned,
    {
        let ids = self.poisoned.ids();
        let r = ids.iter();
        assert(r.remaining().unref() =~= ids@);
        r
    }

    /// Whether this replica has poisoned `origin`'s feed.
    pub(crate) fn has_poisoned(&self, origin: &ReplicaId) -> (p: bool)
        ensures
            p == self@.poisoned.contains(*origin),
    {
        self.poisoned.contains(origin)
    }

    pub fn engine(&self) -> (e: &E)
        requires
            self.wf(),
        ensures
            *e == self.the_engine(),
            e.state() == self@.engine,
    {
        &self.engine
    }

    pub fn engine_mut(&mut self) -> (e: &mut E)
        requires
            old(self).wf(),
        ensures
            *e == old(self).the_engine(),
            final(self).the_engine() == *final(e),
            final(self).the_log() == old(self).the_log(),
            final(self).wf(),
            final(self)@ == (ReplicaView { engine: final(e).state(), ..old(self)@ }),
    {
        &mut self.engine
    }
}

/// A local commit is always the next frame of the replica's own feed, whatever
/// peers have claimed about it.
pub proof fn law_commit_is_next(v: ReplicaView, payload: Seq<(Seq<u8>, i64)>, event_time: u64)
    requires
        v.wf(),
        v.feed(v.id).len() < u64::MAX,
    ensures
        v.arrival(v.next_frame(payload, event_time)) is Next,
{
}

/// Accepting the next frame keeps the replica well-formed, only extends its
/// feeds, and moves its vector on by one at the frame's origin.
pub proof fn law_accept_extends(v: ReplicaView, f: FrameView)
    requires
        v.wf(),
        v.arrival(f) is Next,
    ensures
        v.accepted(f).wf(),
        crate::feeds::prefixed(v.feeds, v.accepted(f).feeds),
        v.accepted(f).vector() == v.vector().insert(f.origin, f.seq),
        v.watermark <= v.accepted(f).watermark,
{
    crate::feeds::lemma_grown(v.feeds, f, v.watermark);
}

/// A frame that was accepted is a duplicate from then on: delivering it again
/// changes nothing.
pub proof fn law_accepted_is_duplicate(v: ReplicaView, f: FrameView)
    requires
        v.arrival(f) is Next,
    ensures
        v.accepted(f).arrival(f) is Duplicate,
{
    assert(v.accepted(f).feed(f.origin) =~= v.feed(f.origin).push(f));
}

/// Two frames with different hashes for one place in a feed are told apart:
/// when one is held, or the other does not continue what is held, the other is
/// reported as a fork.
pub proof fn law_equivocation_is_detected(v: ReplicaView, f: FrameView)
    requires
        f.seq != 0,
        !v.poisoned.contains(f.origin),
    ensures
        f.seq <= v.feed(f.origin).len() && v.feed(f.origin)[f.seq - 1].hash() != f.hash()
            ==> v.arrival(f) is Fork,
        f.seq == v.feed(f.origin).len() + 1 && f.prev_hash != crate::feeds::head_hash(
            v.feed(f.origin),
        ) ==> v.arrival(f) is Fork,
{
}

/// A poisoned feed stays poisoned, and every frame of it is refused; poisoning
/// it leaves the frames of other origins what they were.
pub proof fn law_poison_is_final(v: ReplicaView, origin: ReplicaId, f: FrameView)
    requires
        origin != v.id,
        f.seq != 0,
    ensures
        v.forked(origin).poisoned.contains(origin),
        f.origin == origin ==> v.forked(origin).arrival(f) is Poisoned,
        f.origin != origin ==> v.forked(origin).arrival(f) == v.arrival(f),
        forall|g: FrameView| #[trigger] v.accepted(g).poisoned == v.poisoned,
        forall|o: ReplicaId| #[trigger] v.poisoned.subset_of(v.forked(o).poisoned),
{
}

/// A conflicting claim about the replica's own feed changes nothing.
pub proof fn law_own_feed_is_never_poisoned(v: ReplicaView)
    ensures
        v.forked(v.id) == v,
{
}

/// The log is the truth: accepting a frame keeps the log in agreement with the
/// feeds.
pub proof fn law_accept_keeps_log(v: ReplicaView, f: FrameView)
    requires
        v.logged(),
        v.arrival(f) is Next,
    ensures
        v.accepted(f).logged(),
{
    let log = v.log.push(f);
    assert(log.drop_last() =~= v.log);
    assert(log.last() == f);
}

/// Reopening from the log gives back the feeds, the vector and the watermark.
pub proof fn law_reopen_restores(v: ReplicaView, e: EngineView)
    requires
        v.wf(),
        v.logged(),
        v.log.len() <= u64::MAX,
    ensures
        ({
            let again = ReplicaView::opened(v.id, v.log, e, v.log);
            &&& again.wf()
            &&& again.logged()
            &&& again.feeds == v.feeds
            &&& again.vector() == v.vector()
            &&& again.watermark == v.watermark
        }),
{
    crate::feeds::lemma_log_feeds(v.log);
    crate::feeds::law_newest_is_determined(
        v.feeds,
        v.watermark,
        crate::feeds::log_newest(v.log),
    );
}

/// A replica opened with an engine that lags behind the log, or that was given
/// nothing at all, is in step: the crash window is closed exactly.
pub proof fn law_open_heals(
    id: ReplicaId,
    log: Seq<FrameView>,
    e: EngineView,
    stored: Seq<FrameView>,
)
    requires
        crate::feeds::log_fault(log) is None,
        log.len() <= u64::MAX,
        e == EngineView::empty() || (crate::feeds::holds_part(e, crate::feeds::log_feeds(log))
            && e.watermark <= crate::feeds::log_newest(log)),
    ensures
        ReplicaView::opened(id, log, e, stored).wf(),
        ReplicaView::opened(id, log, e, stored).in_step(),
{
    crate::feeds::lemma_log_feeds(log);
    if e == EngineView::empty() {
        crate::feeds::lemma_empty_holds_part(crate::feeds::log_feeds(log));
    }
    crate::feeds::law_replay_heals(log, e);
}

/// An engine that is ahead of the log, which lost its tail in a crash, is left
/// as it is when the replica is opened.
pub proof fn law_open_with_engine_ahead(
    id: ReplicaId,
    log: Seq<FrameView>,
    e: EngineView,
    stored: Seq<FrameView>,
    full: Map<ReplicaId, Seq<FrameView>>,
)
    requires
        crate::feeds::log_fault(log) is None,
        log.len() <= u64::MAX,
        crate::feeds::prefixed(crate::feeds::log_feeds(log), full),
        crate::feeds::holds_part(e, full),
        forall|o: ReplicaId| #[trigger]
            crate::feeds::feed_of(crate::feeds::log_feeds(log), o).len() <= crate::vector::held(
                e.cursor,
                o,
            ),
    ensures
        ReplicaView::opened(id, log, e, stored).engine_ahead(full),
        ReplicaView::opened(id, log, e, stored).engine.zset == e.zset,
{
    assert forall|i: int| 0 <= i < log.len() implies (#[trigger] log[i]).seq <= crate::vector::held(
        e.cursor,
        log[i].origin,
    ) by {
        crate::feeds::lemma_logged_frame(log, i);
    }
    crate::feeds::lemma_replay_of_applied(log, e);
    let v = ReplicaView::opened(id, log, e, stored);
    let level = |o: ReplicaId| crate::vector::held(v.engine.cursor, o) as int;
    let before = |o: ReplicaId| crate::vector::held(e.cursor, o) as int;
    assert(crate::feeds::cut(full, level) =~= crate::feeds::cut(full, before));
    assert forall|o: ReplicaId| #![trigger v.feed(o)] v.feed(o).len() <= crate::vector::held(
        v.cursor,
        o,
    ) by {
        assert(crate::feeds::feed_of(crate::feeds::log_feeds(log), o).len() <= crate::vector::held(
            e.cursor,
            o,
        ));
    }
}

/// A replica whose engine is ahead of its log gets the lost frames again
/// without applying them twice, and further frames once: the engine stays ahead
/// until the feeds have caught up, and then holds exactly their frames.
pub proof fn law_accept_with_engine_ahead(
    v: ReplicaView,
    full: Map<ReplicaId, Seq<FrameView>>,
    f: FrameView,
)
    requires
        v.wf(),
        crate::feeds::well_formed(full),
        v.engine_ahead(full),
        v.arrival(f) is Next,
        crate::feeds::prefixed(v.accepted(f).feeds, full),
    ensures
        v.accepted(f).engine_ahead(full),
        f.seq <= crate::vector::held(v.cursor, f.origin) ==> v.accepted(f).engine == v.engine,
        v.accepted(f).feeds == full ==> {
            &&& v.accepted(f).engine.zset == crate::feeds::net(full)
            &&& v.accepted(f).engine.cursor == v.accepted(f).vector()
        },
{
    let o = f.origin;
    let w = v.accepted(f);
    let was = |p: ReplicaId| crate::vector::held(v.engine.cursor, p) as int;
    let now = |p: ReplicaId| crate::vector::held(w.engine.cursor, p) as int;
    let feed = crate::feeds::feed_of(full, o);
    assert(v.feed(o).len() <= crate::vector::held(v.cursor, o));
    assert(w.feed(o) =~= v.feed(o).push(f));
    assert(crate::feeds::feed_of(w.feeds, o).is_prefix_of(feed));
    let n = v.feed(o).len() as int;
    assert(feed[n] == w.feed(o)[n]);
    assert(full.contains_key(o));
    assert(crate::vector::held(v.engine.cursor, o) <= feed.len());
    if f.seq > crate::vector::held(v.cursor, o) {
        let a = crate::feeds::cut(full, was);
        let b = crate::feeds::cut(full, now);
        assert(a.dom() =~= full.dom());
        assert(b.dom() =~= a.dom().insert(o));
        assert(crate::feeds::feed_of(b, o) =~= crate::feeds::feed_of(a, o).push(f));
        assert forall|p: ReplicaId| p != o implies #[trigger] crate::feeds::feed_of(a, p)
            == crate::feeds::feed_of(b, p) by {
            assert(was(p) == now(p));
        }
        crate::feeds::lemma_net_pushed(a, b, f);
        assert forall|p: ReplicaId| #[trigger]
            crate::vector::held(w.engine.cursor, p) <= crate::feeds::feed_of(full, p).len() by {
            assert(crate::vector::held(v.engine.cursor, p) <= crate::feeds::feed_of(
                full,
                p,
            ).len());
        }
    } else {
        assert(crate::feeds::cut(full, was) =~= crate::feeds::cut(full, now));
    }
    assert forall|p: ReplicaId| #![trigger w.feed(p)] w.feed(p).len() <= crate::vector::held(
        w.cursor,
        p,
    ) by {
        assert(v.feed(p).len() <= crate::vector::held(v.cursor, p));
    }
    if w.feeds == full {
        law_accept_extends(v, f);
        lemma_caught_up(w);
    }
}

/// An engine that is ahead of feeds that have caught up holds their frames.
proof fn lemma_caught_up(v: ReplicaView)
    requires
        v.wf(),
        v.engine_ahead(v.feeds),
    ensures
        v.engine.zset == crate::feeds::net(v.feeds),
        v.engine.cursor == v.vector(),
{
    let level = |p: ReplicaId| crate::vector::held(v.engine.cursor, p) as int;
    assert forall|p: ReplicaId| #[trigger] level(p) == v.feed(p).len() by {
        assert(crate::vector::held(v.engine.cursor, p) <= crate::feeds::feed_of(v.feeds, p).len());
        assert(v.feed(p).len() <= crate::vector::held(v.cursor, p));
    }
    assert(crate::feeds::cut(v.feeds, level) =~= v.feeds) by {
        assert forall|p: ReplicaId| #[trigger] v.feeds.contains_key(p) implies crate::feeds::cut(
            v.feeds,
            level,
        )[p] == v.feeds[p] by {
            assert(level(p) == v.feeds[p].len());
            assert(v.feeds[p].take(v.feeds[p].len() as int) =~= v.feeds[p]);
        }
    }
    let c = v.engine.cursor;
    assert forall|p: ReplicaId| #[trigger] c.contains_key(p) <==> v.feeds.contains_key(p) by {
        assert(crate::vector::held(c, p) == level(p));
    }
    assert forall|p: ReplicaId| #[trigger] c.contains_key(p) implies c[p] == v.vector()[p] by {
        assert(crate::vector::held(c, p) == level(p));
    }
    assert(c =~= v.vector());
}

/// Accepting a frame keeps the engine in step with the feeds.
pub proof fn law_accept_keeps_step(v: ReplicaView, f: FrameView)
    requires
        v.wf(),
        v.in_step(),
        v.arrival(f) is Next,
    ensures
        v.accepted(f).in_step(),
{
    crate::feeds::lemma_grown(v.feeds, f, v.watermark);
    crate::feeds::law_net_of_grown(v.feeds, f);
    let w = v.accepted(f);
    assert(w.cursor =~= w.vector());
    assert(w.engine.cursor =~= w.vector());
}

/// Convergence: replicas that hold the same frames, with engines in step, hold
/// the same multiset, cursor and watermark, whatever order the frames came in.
pub proof fn law_same_frames_same_views(a: ReplicaView, b: ReplicaView)
    requires
        a.wf(),
        b.wf(),
        a.in_step(),
        b.in_step(),
        a.feeds == b.feeds,
    ensures
        a.watermark == b.watermark,
        a.engine == b.engine,
{
    crate::feeds::law_newest_is_determined(a.feeds, a.watermark, b.watermark);
}

/// Replicas to which no origin has told different things, and whose vectors are
/// the same, hold the same frames.
pub proof fn law_same_vectors_same_frames(a: ReplicaView, b: ReplicaView)
    requires
        a.wf(),
        b.wf(),
        a.compatible(b),
        a.vector() == b.vector(),
    ensures
        a.feeds == b.feeds,
{
    assert(a.vector().dom() =~= a.feeds.dom());
    assert(b.vector().dom() =~= b.feeds.dom());
    assert forall|o: ReplicaId| #[trigger] a.feeds.contains_key(o) implies a.feeds[o]
        == b.feeds[o] by {
        assert(b.vector().contains_key(o) && b.feeds.contains_key(o));
        assert(a.vector()[o] == a.feeds[o].len() as u64);
        assert(b.vector()[o] == b.feeds[o].len() as u64);
        assert(a.feed(o) == a.feeds[o] && b.feed(o) == b.feeds[o]);
        assert(a.feeds[o].len() == b.feeds[o].len());
        assert(a.feeds[o] =~= b.feeds[o]);
    }
    assert(a.feeds =~= b.feeds);
}

/// Frames of different origins can be accepted in either order: but for the
/// order of the log, the replica is the same.
pub proof fn law_accepts_commute(v: ReplicaView, f: FrameView, g: FrameView)
    requires
        v.wf(),
        v.in_step(),
        f.origin != g.origin,
        v.arrival(f) is Next,
        v.arrival(g) is Next,
    ensures
        v.accepted(f).accepted(g).same_but_log(v.accepted(g).accepted(f)),
{
    let a = v.accepted(f).accepted(g);
    let b = v.accepted(g).accepted(f);
    assert(a.feeds =~= b.feeds);
    assert(a.cursor =~= b.cursor);
    crate::feeds::lemma_net_pushed(v.feeds, crate::feeds::grown(v.feeds, f), f);
    crate::zset::law_deltas_commute(v.engine.zset, f.payload, g.payload);
    assert(a.engine.cursor =~= b.engine.cursor);
}

} // verus!
