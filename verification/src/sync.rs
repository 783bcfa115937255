//! The sans-io sync session: anti-entropy between two replicas.
//!
//! A [`Session`] owns no sockets: it consumes and produces [`Msg`] values and
//! mutates the local [`Replica`]; transports decide how bytes move and in what
//! order.
//!
//! Protocol: each side sends [`Msg::Hello`] (versions + version vector); on
//! receiving the peer's Hello, a side streams every frame the peer lacks, **all
//! origins it holds**, not just its own feed, which is what makes relay and
//! mesh topologies work, as batched [`Msg::Frames`], per-origin contiguous,
//! followed by [`Msg::Done`]. A session is finished when both sides have sent
//! and received `Done`.
//!
//! There is no session state to persist: the version vector *is* the resume
//! point, so a session killed at any byte is simply re-run.

use crate::engine::Engine;
use crate::error::SodError;
use crate::frame::{Frame, FrameView, ReplicaId};
use crate::idset::IdSet;
use crate::replica::{Arrival, Replica, ReplicaView};
use crate::store::LogStore;
use crate::vector::VersionVector;
use std::collections::VecDeque;
use vstd::prelude::*;

verus! {

/// Bumped on any wire-format or protocol change.
pub const PROTOCOL_VERSION: u16 = 1;

/// Frames per [`Msg::Frames`] batch.
pub const BATCH: usize = 256;

/// One sync-protocol message; postcard-encoded by transports.
#[derive(Debug)]
pub enum Msg {
    Hello {
        protocol: u16,
        schema: u32,
        /// The sender's replica id: peers are identifiable, which is what lets
        /// applications show "N bogs connected".
        id: ReplicaId,
        vector: VersionVector,
    },
    Frames(Vec<Frame>),
    Done,
}

/// What a message says.
#[verifier::ext_equal]
pub enum MsgView {
    Hello { protocol: u16, schema: u32, id: ReplicaId, vector: Map<ReplicaId, u64> },
    Frames(Seq<FrameView>),
    Done,
}

impl View for Msg {
    type V = MsgView;

    open spec fn view(&self) -> MsgView {
        match *self {
            Msg::Hello { protocol, schema, id, vector } => MsgView::Hello {
                protocol,
                schema,
                id,
                vector: vector@,
            },
            Msg::Frames(frames) => MsgView::Frames(crate::log_file::frame_views(frames@)),
            Msg::Done => MsgView::Done,
        }
    }
}

/// The messages of a vector, each taken by what it says.
pub open spec fn msg_views(msgs: Seq<Msg>) -> Seq<MsgView> {
    msgs.map_values(|m: Msg| m@)
}

/// Copies of `frames[from..to]`.
fn clone_frames(frames: &[Frame], from: usize, to: usize) -> (copy: Vec<Frame>)
    requires
        from <= to <= frames@.len(),
    ensures
        crate::log_file::frame_views(copy@) == crate::log_file::frame_views(frames@).subrange(
            from as int,
            to as int,
        ),
{
    let mut copy: Vec<Frame> = Vec::with_capacity(to - from);
    let mut i: usize = from;
    while i < to
        invariant
            from <= i <= to <= frames@.len(),
            copy@.len() == i - from,
            forall|j: int| 0 <= j < copy@.len() ==> (#[trigger] copy@[j])@ == frames@[from + j]@,
        decreases to - i,
    {
        copy.push(frames[i].clone());
        i = i + 1;
    }
    assert(crate::log_file::frame_views(copy@) =~= crate::log_file::frame_views(frames@).subrange(
        from as int,
        to as int,
    ));
    copy
}

impl Clone for Msg {
    fn clone(&self) -> (m: Self)
        ensures
            m@ == self@,
    {
        match self {
            Msg::Hello { protocol, schema, id, vector } => Msg::Hello {
                protocol: *protocol,
                schema: *schema,
                id: *id,
                vector: vector.clone(),
            },
            Msg::Frames(frames) => {
                let m = Msg::Frames(clone_frames(frames.as_slice(), 0, frames.len()));
                assert(m@ =~= self@);
                m
            },
            Msg::Done => Msg::Done,
        }
    }
}

/// The outcome of one completed sync session.
#[derive(Debug)]
pub struct SyncReport {
    /// Who we synced with.
    pub peer: ReplicaId,
    /// The peer's version vector as of its `Hello`.
    pub peer_vector: VersionVector,
    /// Per-origin refusals recorded while the session continued; at most one
    /// per origin. Surface these: a silently-refused feed is a feed that
    /// silently stopped replicating.
    pub skipped: Vec<SodError>,
}

impl Clone for SyncReport {
    fn clone(&self) -> (r: Self)
        ensures
            r.peer == self.peer,
            r.peer_vector@ == self.peer_vector@,
            r.skipped@ == self.skipped@,
    {
        let skipped = self.skipped.clone();
        assert(skipped@ =~= self.skipped@);
        SyncReport { peer: self.peer, peer_vector: self.peer_vector.clone(), skipped }
    }
}

/// Where one half of a session stands.
#[verifier::ext_equal]
pub struct SessionView {
    pub schema: u32,
    pub sent_done: bool,
    pub peer_done: bool,
    /// The peer, and its vector, as of its `Hello`.
    pub peer: Option<(ReplicaId, Map<ReplicaId, u64>)>,
    /// The refusals recorded.
    pub skipped: Seq<SodError>,
    /// The origins of the refusals recorded.
    pub refused: Set<ReplicaId>,
}

/// The origin that a refusal is about.
pub open spec fn blamed(e: SodError) -> ReplicaId
    recommends
        e.blames_feed(),
{
    match e {
        SodError::Equivocation { origin, .. } => origin,
        SodError::Poisoned(origin) => origin,
        _ => arbitrary(),
    }
}

impl SessionView {
    pub open spec fn new(schema: u32) -> SessionView {
        SessionView {
            schema,
            sent_done: false,
            peer_done: false,
            peer: None,
            skipped: seq![],
            refused: Set::empty(),
        }
    }

    /// At most one refusal is recorded per origin.
    pub open spec fn wf(self) -> bool {
        &&& self.refused.finite()
        &&& self.refused.len() == self.skipped.len()
        &&& forall|i: int|
            0 <= i < self.skipped.len() ==> (#[trigger] self.skipped[i]).blames_feed()
    }

    /// Each refusal recorded is about the feed of the origin whose frame it
    /// answered, and no two are about the same.
    pub open spec fn per_origin(self) -> bool {
        &&& forall|i: int|
            0 <= i < self.skipped.len() ==> self.refused.contains(
                blamed(#[trigger] self.skipped[i]),
            )
        &&& forall|i: int, j: int|
            #![trigger self.skipped[i], self.skipped[j]]
            0 <= i < j < self.skipped.len() ==> blamed(self.skipped[i]) != blamed(self.skipped[j])
    }

    /// After the peer's `Hello`, answered with every frame it lacks.
    pub open spec fn greeted(self, peer: ReplicaId, vector: Map<ReplicaId, u64>) -> SessionView {
        SessionView { peer: Some((peer, vector)), sent_done: true, ..self }
    }

    /// After the refusal `e` of a frame from `origin`.
    pub open spec fn refuse(self, origin: ReplicaId, e: SodError) -> SessionView {
        if self.refused.contains(origin) {
            self
        } else {
            SessionView {
                skipped: self.skipped.push(e),
                refused: self.refused.insert(origin),
                ..self
            }
        }
    }

    /// After the answer `r` to a frame from `origin`: an error about a feed is
    /// recorded.
    pub open spec fn heard(self, origin: ReplicaId, r: Result<bool, SodError>) -> SessionView {
        match r {
            Err(e) => if e.blames_feed() {
                self.refuse(origin, e)
            } else {
                self
            },
            Ok(_) => self,
        }
    }

    /// After the answers to `frames`, first to last.
    pub open spec fn heard_all(
        self,
        frames: Seq<FrameView>,
        answers: Seq<Result<bool, SodError>>,
    ) -> SessionView
        decreases frames.len(),
    {
        if frames.len() == 0 {
            self
        } else {
            self.heard_all(frames.drop_last(), answers.drop_last()).heard(
                frames.last().origin,
                answers.last(),
            )
        }
    }
}

/// What became of one message that a session was fed.
pub enum Heard {
    /// The peer's `Hello`, answered.
    Hello(ReplicaId, Map<ReplicaId, u64>),
    /// The peer's `Hello`, refused for its versions.
    Mismatch,
    /// Frames, as far as they were ingested, and the answer to each.
    Frames(Seq<FrameView>, Seq<Result<bool, SodError>>),
    /// The peer's `Done`.
    Done,
}

impl Heard {
    /// This can become of `msg`.
    pub open spec fn of(self, msg: MsgView) -> bool {
        match (self, msg) {
            (Heard::Hello(peer, theirs), MsgView::Hello { id, vector, .. }) => peer == id
                && theirs == vector,
            (Heard::Mismatch, MsgView::Hello { .. }) => true,
            (Heard::Frames(taken, answers), MsgView::Frames(frames)) => {
                &&& taken.is_prefix_of(frames)
                &&& answers.len() == taken.len()
            },
            (Heard::Done, MsgView::Done) => true,
            _ => false,
        }
    }

    /// The frames ingested.
    pub open spec fn frames(self) -> Seq<FrameView> {
        match self {
            Heard::Frames(frames, _) => frames,
            _ => seq![],
        }
    }

    /// The answers to the frames ingested.
    pub open spec fn answers(self) -> Seq<Result<bool, SodError>> {
        match self {
            Heard::Frames(_, answers) => answers,
            _ => seq![],
        }
    }
}

impl SessionView {
    pub open spec fn after(self, m: Heard) -> SessionView {
        match m {
            Heard::Hello(peer, vector) => self.greeted(peer, vector),
            Heard::Mismatch => self,
            Heard::Frames(frames, answers) => self.heard_all(frames, answers),
            Heard::Done => SessionView { peer_done: true, ..self },
        }
    }

    /// After the messages `ms`, first to last.
    pub open spec fn after_all(self, ms: Seq<Heard>) -> SessionView
        decreases ms.len(),
    {
        if ms.len() == 0 {
            self
        } else {
            self.after_all(ms.drop_last()).after(ms.last())
        }
    }
}

/// The frames ingested from the messages `ms`, first to last.
pub open spec fn frames_heard(ms: Seq<Heard>) -> Seq<FrameView>
    decreases ms.len(),
{
    if ms.len() == 0 {
        seq![]
    } else {
        frames_heard(ms.drop_last()) + ms.last().frames()
    }
}

/// The answers to the frames ingested from the messages `ms`, first to last.
pub open spec fn answers_heard(ms: Seq<Heard>) -> Seq<Result<bool, SodError>>
    decreases ms.len(),
{
    if ms.len() == 0 {
        seq![]
    } else {
        answers_heard(ms.drop_last()) + ms.last().answers()
    }
}

/// The answer is a refusal about a feed.
pub open spec fn refuses(r: Result<bool, SodError>) -> bool {
    r matches Err(e) && e.blames_feed()
}

/// The frame at `k` is the first of its origin's to be refused.
pub open spec fn first_refused(
    frames: Seq<FrameView>,
    answers: Seq<Result<bool, SodError>>,
    k: int,
) -> bool {
    &&& refuses(answers[k])
    &&& forall|j: int|
        0 <= j < k && refuses(#[trigger] answers[j]) ==> frames[j].origin != frames[k].origin
}

/// The first refusal of each origin among the first `n` frames, in the order in
/// which they occurred.
pub open spec fn first_refusals(
    frames: Seq<FrameView>,
    answers: Seq<Result<bool, SodError>>,
    n: int,
) -> Seq<SodError>
    decreases n,
{
    if n <= 0 {
        seq![]
    } else {
        let before = first_refusals(frames, answers, n - 1);
        if first_refused(frames, answers, n - 1) {
            before.push(answers[n - 1]->Err_0)
        } else {
            before
        }
    }
}

/// Every refusal is about the feed of the frame that it answers.
pub open spec fn blames_own(
    frames: Seq<FrameView>,
    answers: Seq<Result<bool, SodError>>,
) -> bool {
    forall|k: int|
        0 <= k < frames.len() && refuses(#[trigger] answers[k]) ==> blamed(answers[k]->Err_0)
            == frames[k].origin
}

/// Every refusal by the replica's engine that is about a feed is about the feed of
/// the frame refused.
pub open spec fn refuses_own<E: Engine, L: LogStore>(
    r: Replica<E, L>,
    frames: Seq<FrameView>,
) -> bool {
    forall|k: int|
        0 <= k < frames.len() ==> (r.refusal(#[trigger] frames[k]) matches Some(e)
            ==> e.blames_feed() ==> blamed(e) == frames[k].origin)
}

/// The answer breaks a session off: an error that is not about a feed.
pub open spec fn breaks(r: Result<bool, SodError>) -> bool {
    r matches Err(e) && !e.blames_feed()
}

/// The error of `r`, if it is one.
pub open spec fn error_of<T>(r: Result<T, SodError>) -> Option<SodError> {
    match r {
        Ok(_) => None,
        Err(e) => Some(e),
    }
}

/// A replica that ingests frame after frame: the replica before the first frame
/// and after each, and the answer to each.
#[verifier::reject_recursive_types(E)]
#[verifier::reject_recursive_types(L)]
pub struct Run<E: Engine, L: LogStore> {
    pub replicas: Seq<Replica<E, L>>,
    pub answers: Seq<Result<bool, SodError>>,
}

impl<E: Engine, L: LogStore> Run<E, L> {
    pub open spec fn step(self, frames: Seq<FrameView>, k: int) -> bool {
        self.replicas[k].ingested(frames[k], &self.replicas[k + 1], self.answers[k])
    }

    /// The run of `frames` that starts with `from`.
    pub open spec fn of(self, from: Replica<E, L>, frames: Seq<FrameView>) -> bool {
        &&& self.replicas.len() == frames.len() + 1
        &&& self.answers.len() == frames.len()
        &&& self.replicas[0] == from
        &&& forall|k: int| 0 <= k < frames.len() ==> #[trigger] self.step(frames, k)
    }

    pub open spec fn end(self) -> Replica<E, L> {
        self.replicas.last()
    }

    /// This run and one more frame.
    pub open spec fn extended(self, after: Replica<E, L>, answer: Result<bool, SodError>) -> Self {
        Run { replicas: self.replicas.push(after), answers: self.answers.push(answer) }
    }

    /// This run and the run that starts where it ends.
    pub open spec fn join(self, next: Self) -> Self {
        Run {
            replicas: self.replicas + next.replicas.skip(1),
            answers: self.answers + next.answers,
        }
    }

    /// The first `n` frames of this run.
    pub open spec fn take(self, n: int) -> Self {
        Run { replicas: self.replicas.take(n + 1), answers: self.answers.take(n) }
    }

    /// No answer breaks the session off.
    pub open spec fn goes_on(self) -> bool {
        forall|k: int| 0 <= k < self.answers.len() ==> !breaks(#[trigger] self.answers[k])
    }

    /// The last answer is `e`, which breaks the session off, and none before it
    /// does.
    pub open spec fn breaks_off(self, e: SodError) -> bool {
        &&& self.answers.len() > 0
        &&& self.answers.last() == Err::<bool, SodError>(e)
        &&& !e.blames_feed()
        &&& forall|k: int| 0 <= k < self.answers.len() - 1 ==> !breaks(#[trigger] self.answers[k])
    }

    /// Every frame that was the next of its feed was accepted.
    pub open spec fn accepts_all(self, frames: Seq<FrameView>) -> bool {
        forall|k: int|
            0 <= k < frames.len() && (#[trigger] self.replicas[k])@.arrival(frames[k]) is Next
                ==> self.answers[k] is Ok
    }
}

/// The frames were ingested by `before`, first to last, until an answer broke
/// the session off; the replica is `after` then, and the session went from
/// `heard_before` to `heard_after`. `error` is what broke it off.
pub open spec fn ran<E: Engine, L: LogStore>(
    run: Run<E, L>,
    before: Replica<E, L>,
    heard_before: SessionView,
    frames: Seq<FrameView>,
    after: Replica<E, L>,
    heard_after: SessionView,
    error: Option<SodError>,
) -> bool {
    let n = run.answers.len() as int;
    &&& n <= frames.len()
    &&& run.of(before, frames.take(n))
    &&& run.end() == after
    &&& heard_after == heard_before.heard_all(frames.take(n), run.answers)
    &&& match error {
        None => n == frames.len() && run.goes_on(),
        Some(e) => run.breaks_off(e),
    }
}

/// `before` took the frames so, by a run that ends in `after`.
pub open spec fn took<E: Engine, L: LogStore>(
    before: Replica<E, L>,
    heard_before: SessionView,
    frames: Seq<FrameView>,
    after: Replica<E, L>,
    heard_after: SessionView,
    error: Option<SodError>,
) -> bool {
    exists|run: Run<E, L>| #[trigger]
        ran(run, before, heard_before, frames, after, heard_after, error)
}

/// One replica and its half of a session.
#[verifier::ext_equal]
pub struct Half {
    pub session: SessionView,
    pub replica: ReplicaView,
}

impl Half {
    /// After one frame that does not break the session off: the next of its
    /// feed is accepted, a duplicate is ignored, and a frame of a feed that
    /// forked or is poisoned is skipped and the refusal recorded.
    #[verifier::opaque]
    pub open spec fn take(self, f: FrameView) -> Half {
        match self.replica.arrival(f) {
            Arrival::Next => Half { replica: self.replica.accepted(f), ..self },
            Arrival::Fork => Half {
                session: self.session.refuse(
                    f.origin,
                    SodError::Equivocation { origin: f.origin, seq: f.seq },
                ),
                replica: self.replica.forked(f.origin),
            },
            Arrival::Poisoned => Half {
                session: self.session.refuse(f.origin, SodError::Poisoned(f.origin)),
                ..self
            },
            _ => self,
        }
    }

    /// After `frames`, first to last.
    pub open spec fn take_all(self, frames: Seq<FrameView>) -> Half
        decreases frames.len(),
    {
        if frames.len() == 0 {
            self
        } else {
            self.take_all(frames.drop_last()).take(frames.last())
        }
    }

    /// None of `frames`, taken first to last, breaks the session off: none has
    /// seq 0 or leaves a gap.
    pub open spec fn smooth(self, frames: Seq<FrameView>) -> bool {
        forall|k: int| 0 <= k < frames.len() ==> !hard(#[trigger] self.arrival_at(frames, k))
    }

    /// What `frames[k]` is when those before it have been taken.
    pub open spec fn arrival_at(self, frames: Seq<FrameView>, k: int) -> Arrival {
        self.take_all(frames.take(k)).replica.arrival(frames[k])
    }
}

/// The arrival is a protocol error.
pub open spec fn hard(a: Arrival) -> bool {
    a is SeqZero || a is Gap
}

/// `frames` in batches.
pub open spec fn batches(frames: Seq<FrameView>) -> Seq<MsgView>
    decreases frames.len(),
{
    if frames.len() == 0 {
        seq![]
    } else if frames.len() <= BATCH {
        seq![MsgView::Frames(frames)]
    } else {
        seq![MsgView::Frames(frames.take(BATCH as int))] + batches(frames.skip(BATCH as int))
    }
}

/// The batches in which `v` streams the ranges of `list`, origin by origin, but
/// for the feeds that it has poisoned.
pub open spec fn streamed(v: ReplicaView, list: Seq<(ReplicaId, u64, u64)>) -> Seq<MsgView>
    decreases list.len(),
{
    if list.len() == 0 {
        seq![]
    } else {
        let (origin, theirs, have) = list.last();
        streamed(v, list.drop_last()) + if v.poisoned.contains(origin) {
            seq![]
        } else {
            batches(v.feed(origin).skip(theirs as int))
        }
    }
}

/// What `v` sends to a peer that holds `theirs`.
pub open spec fn answer(v: ReplicaView, theirs: Map<ReplicaId, u64>) -> Seq<MsgView> {
    streamed(v, crate::vector::ahead(v.vector(), theirs)).push(MsgView::Done)
}

/// The frames that `v` sends for the ranges of `list`.
pub open spec fn suffixes(v: ReplicaView, list: Seq<(ReplicaId, u64, u64)>) -> Seq<FrameView>
    decreases list.len(),
{
    if list.len() == 0 {
        seq![]
    } else {
        let (origin, theirs, have) = list.last();
        suffixes(v, list.drop_last()) + if v.poisoned.contains(origin) {
            seq![]
        } else {
            v.feed(origin).skip(theirs as int)
        }
    }
}

/// The frames that a peer holding `theirs` lacks of what `v` holds, origin by
/// origin in origin order, but for the feeds that `v` has poisoned.
pub open spec fn missing(v: ReplicaView, theirs: Map<ReplicaId, u64>) -> Seq<FrameView> {
    suffixes(v, crate::vector::ahead(v.vector(), theirs))
}

/// The replica `mine` when it has exchanged `Hello` with `theirs`.
pub open spec fn greeted(mine: ReplicaView, theirs: ReplicaView, schema: u32) -> Half {
    Half {
        session: SessionView::new(schema).greeted(theirs.id, theirs.vector()),
        replica: mine,
    }
}

/// The replica `mine` after a session with `theirs`: it has taken every frame
/// that `theirs` held and it lacked.
pub open spec fn met(mine: ReplicaView, theirs: ReplicaView, schema: u32) -> Half {
    greeted(mine, theirs, schema).take_all(missing(theirs, mine.vector()))
}

/// The frames of `msgs`, in order.
pub open spec fn frames_in(msgs: Seq<MsgView>) -> Seq<FrameView>
    decreases msgs.len(),
{
    if msgs.len() == 0 {
        seq![]
    } else {
        (match msgs[0] {
            MsgView::Frames(frames) => frames,
            _ => seq![],
        }) + frames_in(msgs.drop_first())
    }
}

/// One replica's half of one sync session.
pub struct Session {
    schema: u32,
    sent_done: bool,
    peer_done: bool,
    peer: Option<(ReplicaId, VersionVector)>,
    skipped: Vec<SodError>,
    // Origins already recorded in `skipped`: one refusal per origin per session,
    // so a hostile peer flooding forged frames cannot grow `skipped` without
    // bound.
    skipped_origins: IdSet,
}

impl View for Session {
    type V = SessionView;

    closed spec fn view(&self) -> SessionView {
        SessionView {
            schema: self.schema,
            sent_done: self.sent_done,
            peer_done: self.peer_done,
            peer: match self.peer {
                Some((id, vector)) => Some((id, vector@)),
                None => None,
            },
            skipped: self.skipped@,
            refused: self.skipped_origins@,
        }
    }
}

impl Session {
    /// `schema` is the application's schema version: replicas whose apps
    /// disagree on it refuse to sync rather than corrupt.
    pub fn new(schema: u32) -> (s: Self)
        ensures
            s@ == SessionView::new(schema),
            s@.wf(),
    {
        Session {
            schema,
            sent_done: false,
            peer_done: false,
            peer: None,
            skipped: Vec::new(),
            skipped_origins: IdSet::new(),
        }
    }

    /// Our opening message.
    pub fn hello<E: Engine, L: LogStore>(&self, r: &Replica<E, L>) -> (m: Msg)
        requires
            r.wf(),
        ensures
            m@ == (MsgView::Hello {
                protocol: 1,
                schema: self@.schema,
                id: r@.id,
                vector: r@.vector(),
            }),
    {
        Msg::Hello {
            protocol: PROTOCOL_VERSION,
            schema: self.schema,
            id: r.id(),
            vector: r.vector().clone(),
        }
    }

    /// Feed one inbound message; returns outbound messages (possibly none).
    ///
    /// Frames from an origin that equivocates (or is already poisoned) are
    /// skipped and recorded in [`skipped`](Session::skipped); the session
    /// continues for other origins. A [`SodError::Gap`] or version mismatch is
    /// a hard protocol error.
    pub fn on_msg<E: Engine, L: LogStore>(&mut self, r: &mut Replica<E, L>, msg: Msg) -> (out:
        Result<Vec<Msg>, SodError>)
        requires
            old(self)@.wf(),
            old(r).wf(),
        ensures
            final(self)@.wf(),
            final(r).wf(),
            final(r).as_reliable_as(old(r)),
            old(self)@.skipped.is_prefix_of(final(self)@.skipped),
            exists|m: Heard| #[trigger] m.of(msg@) && final(self)@ == old(self)@.after(m),
            msg@ matches MsgView::Hello { protocol, schema, id, vector } ==> {
                &&& *final(r) == *old(r)
                &&& if protocol != PROTOCOL_VERSION || schema != old(self)@.schema {
                    &&& out == Err::<Vec<Msg>, SodError>(
                        SodError::VersionMismatch {
                            ours: (PROTOCOL_VERSION, old(self)@.schema),
                            theirs: (protocol, schema),
                        },
                    )
                    &&& final(self)@ == old(self)@
                } else {
                    &&& out matches Ok(msgs) && msg_views(msgs@) == answer(old(r)@, vector)
                    &&& final(self)@ == old(self)@.greeted(id, vector)
                }
            },
            msg@ matches MsgView::Frames(frames) ==> {
                &&& out matches Ok(msgs) ==> msgs@.len() == 0
                &&& final(r).the_log().synced() == old(r).the_log().synced()
                &&& took(*old(r), old(self)@, frames, *final(r), final(self)@, error_of(out))
                &&& old(self)@.per_origin() && old(r).reliable() && refuses_own(*old(r), frames)
                    ==> final(self)@.per_origin()
            },
            msg@ is Done ==> {
                &&& final(self)@ == (SessionView { peer_done: true, ..old(self)@ })
                &&& final(r)@ == old(r)@
                &&& final(r).the_engine() == old(r).the_engine()
                &&& match out {
                    Ok(msgs) => msgs@.len() == 0 && final(r).hardened(),
                    Err(e) => {
                        &&& final(r).the_log().failure() == Some(e)
                        &&& final(r).the_log().synced() == old(r).the_log().synced()
                    },
                }
                &&& old(r).reliable() ==> out is Ok
            },
    {
        match msg {
            Msg::Hello { protocol, schema, id, vector } => {
                if protocol != PROTOCOL_VERSION || schema != self.schema {
                    assert(Heard::Mismatch.of(msg@));
                    return Err(
                        SodError::VersionMismatch {
                            ours: (PROTOCOL_VERSION, self.schema),
                            theirs: (protocol, schema),
                        },
                    );
                }
                assert(Heard::Hello(id, vector@).of(msg@));
                let out = stream_missing(r, &vector);
                self.peer = Some((id, vector));
                self.sent_done = true;
                Ok(out)
            },
            Msg::Frames(frames) => {
                let ghost before = *r;
                let ghost heard = self@;
                let ghost views = crate::log_file::frame_views(frames@);
                let out = self.on_frames(r, frames);
                proof {
                    let run = choose|run: Run<E, L>| #[trigger]
                        ran(run, before, heard, views, *r, self@, error_of(out));
                    let taken = views.take(run.answers.len() as int);
                    law_run_only_adds(run, before, taken);
                    lemma_heard_grows(heard, taken, run.answers);
                    assert(taken.is_prefix_of(views));
                    assert(Heard::Frames(taken, run.answers).of(msg@));
                    if heard.per_origin() && before.reliable() && refuses_own(before, views) {
                        law_reliable_run_blames_own(run, before, taken);
                        law_refusals_stay_apart(heard, taken, run.answers);
                    }
                }
                let ghost error = error_of(out);
                let reply = match out {
                    Ok(()) => Ok(Vec::new()),
                    Err(e) => Err(e),
                };
                assert(error_of(reply) == error);
                reply
            },
            Msg::Done => {
                assert(Heard::Done.of(msg@));
                self.peer_done = true;
                match r.sync_log() {
                    Ok(()) => Ok(Vec::new()),
                    Err(e) => Err(e),
                }
            },
        }
    }

    /// Ingest one frame.
    fn on_frame<E: Engine, L: LogStore>(&mut self, r: &mut Replica<E, L>, frame: Frame) -> (out:
        Result<bool, SodError>)
        requires
            old(self)@.wf(),
            old(r).wf(),
        ensures
            final(self)@.wf(),
            final(r).wf(),
            match out {
                Ok(new) => exists|answer: Result<bool, SodError>|
                    #![trigger old(r).ingested(frame@, final(r), answer)]
                    {
                        &&& old(r).ingested(frame@, final(r), answer)
                        &&& !breaks(answer)
                        &&& final(self)@ == old(self)@.heard(frame@.origin, answer)
                    },
                Err(e) => {
                    &&& old(r).ingested(frame@, final(r), Err(e))
                    &&& !e.blames_feed()
                    &&& final(self)@ == old(self)@
                },
            },
    {
        let origin = frame.origin;
        match r.ingest(frame) {
            Ok(new) => Ok(new),
            Err(e) => {
                let soft = match &e {
                    SodError::Equivocation { .. } => true,
                    SodError::Poisoned(_) => true,
                    _ => false,
                };
                if !soft {
                    return Err(e);
                }
                assert(old(r).ingested(frame@, r, Err(e)));
                proof {
                    lemma_refuse_wf(self@, origin, e);
                }
                if self.skipped_origins.insert(origin) {
                    self.skipped.push(e);
                }
                Ok(false)
            },
        }
    }

    /// Ingest one batch.
    fn on_frames<E: Engine, L: LogStore>(&mut self, r: &mut Replica<E, L>, frames: Vec<Frame>) -> (
    out: Result<(), SodError>)
        requires
            old(self)@.wf(),
            old(r).wf(),
        ensures
            final(self)@.wf(),
            final(r).wf(),
            took(
                *old(r),
                old(self)@,
                crate::log_file::frame_views(frames@),
                *final(r),
                final(self)@,
                error_of(out),
            ),
    {
        let ghost views = crate::log_file::frame_views(frames@);
        let ghost mut run: Run<E, L> = Run { replicas: seq![*r], answers: seq![] };
        assert(views.take(0) =~= seq![]);
        for frame in it: frames
            invariant
                views == crate::log_file::frame_views(frames@),
                it.seq() == frames@,
                self@.wf(),
                r.wf(),
                run.of(*old(r), views.take(it.index() as int)),
                run.goes_on(),
                run.end() == *r,
                self@ == old(self)@.heard_all(views.take(it.index() as int), run.answers),
        {
            let ghost k = it.index() as int;
            let ghost (before, heard) = (*r, self@);
            let ghost f = frame@;
            assert(views[k] == f);
            let out = self.on_frame(r, frame);
            let ghost answer = if out is Ok {
                choose|answer: Result<bool, SodError>|
                    {
                        &&& #[trigger] before.ingested(f, r, answer)
                        &&& !breaks(answer)
                        &&& self@ == heard.heard(f.origin, answer)
                    }
            } else {
                out
            };
            proof {
                lemma_run_step(run, *old(r), old(self)@, views, k, *r, answer);
                run = run.extended(*r, answer);
            }
            match out {
                Ok(_) => {},
                Err(e) => {
                    proof {
                        assert(run.answers.len() == k + 1);
                        assert(ran(run, *old(r), old(self)@, views, *r, self@, Some(e)));
                    }
                    return Err(e);
                },
            }
        }
        proof {
            assert(views.take(views.len() as int) =~= views);
            assert(ran(run, *old(r), old(self)@, views, *r, self@, None));
        }
        Ok(())
    }

    /// True once we have both sent and received `Done`.
    pub fn finished(&self) -> (r: bool)
        ensures
            r == (self@.sent_done && self@.peer_done),
    {
        self.sent_done && self.peer_done
    }

    /// Per-origin refusals recorded while the session continued. At most one
    /// entry per origin per session, bounded regardless of how many refused
    /// frames a peer sends.
    pub fn skipped(&self) -> (r: &[SodError])
        ensures
            r@ == self@.skipped,
    {
        self.skipped.as_slice()
    }

    /// Consume the session, yielding its report; `None` if the session never
    /// saw the peer's `Hello` (e.g. it ended on a version-mismatch or transport
    /// error before the handshake completed). Refusals recorded before an error
    /// are still readable via [`skipped`](Session::skipped) before consuming.
    pub fn report(self) -> (r: Option<SyncReport>)
        ensures
            match self@.peer {
                Some((id, vector)) => r matches Some(report) && report.peer == id
                    && report.peer_vector@ == vector && report.skipped@ == self@.skipped,
                None => r is None,
            },
    {
        match self.peer {
            Some((peer, peer_vector)) => Some(
                SyncReport { peer, peer_vector, skipped: self.skipped },
            ),
            None => None,
        }
    }
}

/// The messages that stream to a peer holding `theirs` every frame it lacks.
fn stream_missing<E: Engine, L: LogStore>(r: &Replica<E, L>, theirs: &VersionVector) -> (out: Vec<
    Msg,
>)
    requires
        r.wf(),
    ensures
        msg_views(out@) == answer(r@, theirs@),
{
    let list = r.vector().ahead_of(theirs);
    let mut out: Vec<Msg> = Vec::new();
    let mut i: usize = 0;
    proof {
        assert(list@.take(0) =~= seq![]);
        assert(msg_views(out@) =~= seq![]);
    }
    while i < list.len()
        invariant
            r.wf(),
            list@ == crate::vector::ahead(r@.vector(), theirs@),
            crate::vector::lists_ahead(list@, r@.vector(), theirs@),
            i <= list@.len(),
            msg_views(out@) == streamed(r@, list@.take(i as int)),
        decreases list@.len() - i,
    {
        let (origin, low, _have) = list[i];
        let ghost before = msg_views(out@);
        proof {
            assert(list@.take(i + 1).drop_last() =~= list@.take(i as int));
            assert(list@.take(i + 1).last() == list@[i as int]);
            lemma_held_is_length(r@, origin);
        }
        if !r.has_poisoned(&origin) {
            push_batches(r.frames_after(&origin, low), &mut out);
        } else {
            assert(before + Seq::<MsgView>::empty() =~= before);
        }
        i = i + 1;
    }
    assert(list@.take(i as int) =~= list@);
    let ghost before = out@;
    out.push(Msg::Done);
    assert(msg_views(out@) =~= msg_views(before).push(MsgView::Done));
    out
}

/// Append `frames` to `out` in batches: one clone per frame, and every batch
/// stays contiguous.
fn push_batches(frames: &[Frame], out: &mut Vec<Msg>)
    ensures
        msg_views(final(out)@) == msg_views(old(out)@) + batches(
            crate::log_file::frame_views(frames@),
        ),
{
    let ghost views = crate::log_file::frame_views(frames@);
    let mut i: usize = 0;
    proof {
        assert(views.skip(0) =~= views);
        assert(msg_views(out@) + batches(views) =~= msg_views(old(out)@) + batches(views));
    }
    while i < frames.len()
        invariant
            views == crate::log_file::frame_views(frames@),
            i <= frames@.len(),
            msg_views(out@) + batches(views.skip(i as int)) == msg_views(old(out)@) + batches(
                views,
            ),
        decreases frames@.len() - i,
    {
        let to: usize = if frames.len() - i <= BATCH {
            frames.len()
        } else {
            i + BATCH
        };
        let ghost before = out@;
        let ghost rest = views.skip(i as int);
        let chunk = clone_frames(frames, i, to);
        out.push(Msg::Frames(chunk));
        proof {
            let batch = MsgView::Frames(rest.take(to - i));
            assert(rest.take(to - i) =~= views.subrange(i as int, to as int));
            assert(msg_views(out@) =~= msg_views(before).push(batch));
            assert(rest.skip(to - i) =~= views.skip(to as int));
            if rest.len() <= BATCH {
                assert(rest.take(to - i) =~= rest);
                assert(views.skip(to as int) =~= seq![]);
            }
            assert(batches(rest) =~= seq![batch] + batches(views.skip(to as int)));
            assert(msg_views(out@) + batches(views.skip(to as int)) =~= msg_views(before)
                + batches(rest));
        }
        i = to;
    }
    proof {
        assert(views.skip(i as int) =~= seq![]);
        assert(msg_views(out@) + Seq::<MsgView>::empty() =~= msg_views(out@));
    }
}

pub proof fn lemma_held_is_length(v: ReplicaView, origin: ReplicaId)
    requires
        v.wf(),
    ensures
        crate::vector::held(v.vector(), origin) == v.feed(origin).len(),
        v.vector().contains_key(origin) == v.feeds.contains_key(origin),
{
}

pub proof fn lemma_take_one_more(h: Half, frames: Seq<FrameView>, k: int)
    requires
        0 <= k < frames.len(),
    ensures
        h.take_all(frames.take(k + 1)) == h.take_all(frames.take(k)).take(frames[k]),
        h.smooth(frames.take(k)) && !hard(h.arrival_at(frames, k)) ==> h.smooth(
            frames.take(k + 1),
        ),
{
    let seen = frames.take(k);
    let more = frames.take(k + 1);
    assert(more.drop_last() =~= seen);
    if h.smooth(seen) && !hard(h.arrival_at(frames, k)) {
        assert forall|j: int| 0 <= j < more.len() implies !hard(
            #[trigger] h.arrival_at(more, j),
        ) by {
            assert(more.take(j) =~= frames.take(j));
            if j < k {
                assert(seen.take(j) =~= frames.take(j));
                assert(!hard(h.arrival_at(seen, j)));
            }
        }
    }
}

proof fn lemma_refuse_wf(s: SessionView, origin: ReplicaId, e: SodError)
    requires
        s.wf(),
        e.blames_feed(),
    ensures
        s.refuse(origin, e).wf(),
        s.per_origin() && blamed(e) == origin ==> s.refuse(origin, e).per_origin(),
{
}

/// Refusals are only ever added at the end.
proof fn lemma_heard_grows(
    heard: SessionView,
    frames: Seq<FrameView>,
    answers: Seq<Result<bool, SodError>>,
)
    ensures
        heard.skipped.is_prefix_of(heard.heard_all(frames, answers).skipped),
    decreases frames.len(),
{
    if frames.len() == 0 {
        assert(heard.skipped =~= heard.skipped.subrange(0, heard.skipped.len() as int));
    } else {
        lemma_heard_grows(heard, frames.drop_last(), answers.drop_last());
        let after = heard.heard_all(frames, answers).skipped;
        assert(heard.skipped =~= after.subrange(0, heard.skipped.len() as int));
    }
}

/// When each refusal is about the feed of the frame that it answers, no two of the
/// refusals recorded are about the same.
pub proof fn law_refusals_stay_apart(
    heard: SessionView,
    frames: Seq<FrameView>,
    answers: Seq<Result<bool, SodError>>,
)
    requires
        heard.wf(),
        heard.per_origin(),
        answers.len() == frames.len(),
        blames_own(frames, answers),
    ensures
        heard.heard_all(frames, answers).wf(),
        heard.heard_all(frames, answers).per_origin(),
    decreases frames.len(),
{
    if frames.len() > 0 {
        let (init, part) = (frames.drop_last(), answers.drop_last());
        assert forall|k: int| 0 <= k < init.len() && refuses(#[trigger] part[k]) implies blamed(
            part[k]->Err_0,
        ) == init[k].origin by {
            assert(part[k] == answers[k]);
        }
        law_refusals_stay_apart(heard, init, part);
        if refuses(answers.last()) {
            assert(answers[answers.len() - 1] == answers.last());
            lemma_refuse_wf(
                heard.heard_all(init, part),
                frames.last().origin,
                answers.last()->Err_0,
            );
        }
    }
}

/// A replica refuses a frame about the frame's own feed, when its log and engine
/// never fail and its engine's refusals are so.
pub proof fn law_reliable_run_blames_own<E: Engine, L: LogStore>(
    run: Run<E, L>,
    from: Replica<E, L>,
    frames: Seq<FrameView>,
)
    requires
        from.wf(),
        from.reliable(),
        refuses_own(from, frames),
        run.of(from, frames),
    ensures
        blames_own(frames, run.answers),
{
    assert forall|k: int| 0 <= k < frames.len() && refuses(#[trigger] run.answers[k]) implies blamed(
        run.answers[k]->Err_0,
    ) == frames[k].origin by {
        lemma_run_prefix(run, from, frames, k);
        law_run_only_adds(run.take(k), from, frames.take(k));
        assert(run.step(frames, k));
        assert(run.replicas[k].refusal(frames[k]) == from.refusal(frames[k]));
    }
}

/// A replica's own refusals, of a fork or of a poisoned feed, are about the feed of
/// the frame refused: a refusal about another feed can only be the engine's or the
/// log's answer to a frame that was the next of its feed.
pub proof fn law_run_blames_own<E: Engine, L: LogStore>(
    run: Run<E, L>,
    from: Replica<E, L>,
    frames: Seq<FrameView>,
)
    requires
        run.of(from, frames),
        forall|k: int|
            0 <= k < frames.len() && (#[trigger] run.replicas[k])@.arrival(frames[k]) is Next
                && refuses(run.answers[k]) ==> blamed(run.answers[k]->Err_0) == frames[k].origin,
    ensures
        blames_own(frames, run.answers),
{
    assert forall|k: int| 0 <= k < frames.len() && refuses(#[trigger] run.answers[k]) implies blamed(
        run.answers[k]->Err_0,
    ) == frames[k].origin by {
        assert(run.step(frames, k));
    }
}

/// The first refusals among the first frames do not depend on what follows.
proof fn lemma_first_refusals_prefix(
    frames: Seq<FrameView>,
    answers: Seq<Result<bool, SodError>>,
    more: Seq<FrameView>,
    replies: Seq<Result<bool, SodError>>,
    n: int,
)
    requires
        frames.len() <= more.len(),
        answers.len() <= replies.len(),
        frames.len() == answers.len(),
        frames == more.take(frames.len() as int),
        answers == replies.take(answers.len() as int),
        0 <= n <= frames.len(),
    ensures
        first_refusals(frames, answers, n) == first_refusals(more, replies, n),
    decreases n,
{
    if n > 0 {
        lemma_first_refusals_prefix(frames, answers, more, replies, n - 1);
        assert forall|k: int| 0 <= k < n implies #[trigger] answers[k] == replies[k]
            && frames[k] == more[k] by {
            assert(answers[k] == replies.take(answers.len() as int)[k]);
            assert(frames[k] == more.take(frames.len() as int)[k]);
        }
        assert(first_refused(frames, answers, n - 1) == first_refused(more, replies, n - 1)) by {
            if first_refused(frames, answers, n - 1) {
                assert forall|j: int| 0 <= j < n - 1 && refuses(#[trigger] replies[j]) implies more[
                    j
                ].origin != more[n - 1].origin by {
                    assert(answers[j] == replies[j]);
                }
            }
            if first_refused(more, replies, n - 1) {
                assert forall|j: int| 0 <= j < n - 1 && refuses(
                    #[trigger] answers[j],
                ) implies frames[j].origin != frames[n - 1].origin by {
                    assert(answers[j] == replies[j]);
                }
            }
        }
    }
}

/// What a session with nothing recorded records: the first refusal of each origin.
proof fn lemma_records_first_refusals(
    heard: SessionView,
    frames: Seq<FrameView>,
    answers: Seq<Result<bool, SodError>>,
)
    requires
        heard.refused == Set::<ReplicaId>::empty(),
        heard.skipped.len() == 0,
        answers.len() == frames.len(),
    ensures
        heard.heard_all(frames, answers).skipped == first_refusals(
            frames,
            answers,
            frames.len() as int,
        ),
        forall|o: ReplicaId| #[trigger]
            heard.heard_all(frames, answers).refused.contains(o) <==> exists|k: int|
                0 <= k < frames.len() && refuses(#[trigger] answers[k]) && frames[k].origin == o,
    decreases frames.len(),
{
    if frames.len() == 0 {
        assert(heard.skipped =~= seq![]);
    } else {
        let (init, part) = (frames.drop_last(), answers.drop_last());
        let n = frames.len() - 1;
        lemma_records_first_refusals(heard, init, part);
        assert(init =~= frames.take(n));
        assert(part =~= answers.take(n));
        lemma_first_refusals_prefix(init, part, frames, answers, n);
        let before = heard.heard_all(init, part);
        let after = heard.heard_all(frames, answers);
        let at = frames[n].origin;
        assert forall|k: int| 0 <= k < n implies #[trigger] part[k] == answers[k] && init[k]
            == frames[k] by {}
        assert(before.refused.contains(at) <==> exists|k: int|
            0 <= k < n && refuses(#[trigger] answers[k]) && frames[k].origin == at) by {
            if before.refused.contains(at) {
                let k = choose|k: int|
                    0 <= k < n && refuses(#[trigger] part[k]) && init[k].origin == at;
                assert(refuses(answers[k]) && frames[k].origin == at);
            }
            if exists|k: int| 0 <= k < n && refuses(#[trigger] answers[k]) && frames[k].origin
                == at {
                let k = choose|k: int|
                    0 <= k < n && refuses(#[trigger] answers[k]) && frames[k].origin == at;
                assert(refuses(part[k]) && init[k].origin == at);
            }
        }
        assert(first_refused(frames, answers, n) <==> refuses(answers[n])
            && !before.refused.contains(at)) by {
            if refuses(answers[n]) && !before.refused.contains(at) {
                assert forall|j: int| 0 <= j < n && refuses(#[trigger] answers[j]) implies frames[
                    j
                ].origin != frames[n].origin by {
                    assert(refuses(answers[j]));
                }
            }
        }
        assert forall|o: ReplicaId| #[trigger] after.refused.contains(o) <==> exists|k: int|
            0 <= k < frames.len() && refuses(#[trigger] answers[k]) && frames[k].origin == o by {
            if after.refused.contains(o) {
                if before.refused.contains(o) {
                    let k = choose|k: int|
                        0 <= k < n && refuses(#[trigger] part[k]) && init[k].origin == o;
                    assert(refuses(answers[k]) && frames[k].origin == o);
                } else {
                    assert(refuses(answers[n]) && frames[n].origin == o);
                }
            }
            if exists|k: int| 0 <= k < frames.len() && refuses(#[trigger] answers[k])
                && frames[k].origin == o {
                let k = choose|k: int|
                    0 <= k < frames.len() && refuses(#[trigger] answers[k]) && frames[k].origin
                        == o;
                if k < n {
                    assert(refuses(part[k]) && init[k].origin == o);
                    assert(before.refused.contains(o));
                }
            }
        }
    }
}

/// The refusals recorded after messages are those of the frames ingested from them.
proof fn lemma_after_all_refusals(schema: u32, ms: Seq<Heard>)
    requires
        forall|i: int|
            0 <= i < ms.len() ==> (#[trigger] ms[i]).frames().len() == ms[i].answers().len(),
    ensures
        frames_heard(ms).len() == answers_heard(ms).len(),
        ({
            let s = SessionView::new(schema).after_all(ms);
            let t = SessionView::new(schema).heard_all(frames_heard(ms), answers_heard(ms));
            s.skipped == t.skipped && s.refused == t.refused
        }),
    decreases ms.len(),
{
    if ms.len() > 0 {
        let init = ms.drop_last();
        let m = ms.last();
        assert forall|i: int| 0 <= i < init.len() implies (#[trigger] init[i]).frames().len()
            == init[i].answers().len() by {
            assert(init[i] == ms[i]);
        }
        assert(ms[ms.len() - 1] == m);
        lemma_after_all_refusals(schema, init);
        let new = SessionView::new(schema);
        let before = new.after_all(init);
        let heard = new.heard_all(frames_heard(init), answers_heard(init));
        lemma_heard_join(
            new,
            frames_heard(init),
            m.frames(),
            answers_heard(init),
            m.answers(),
        );
        lemma_refusals_alone(before, heard, m.frames(), m.answers());
        if !(m is Frames) {
            assert(frames_heard(init) + m.frames() =~= frames_heard(init));
            assert(answers_heard(init) + m.answers() =~= answers_heard(init));
        }
    }
}

/// What is recorded depends on what was recorded before and on the answers alone.
proof fn lemma_refusals_alone(
    s: SessionView,
    t: SessionView,
    frames: Seq<FrameView>,
    answers: Seq<Result<bool, SodError>>,
)
    requires
        s.skipped == t.skipped,
        s.refused == t.refused,
    ensures
        s.heard_all(frames, answers).skipped == t.heard_all(frames, answers).skipped,
        s.heard_all(frames, answers).refused == t.heard_all(frames, answers).refused,
    decreases frames.len(),
{
    if frames.len() > 0 {
        lemma_refusals_alone(s, t, frames.drop_last(), answers.drop_last());
    }
}

/// What a session reports as skipped: of all the frames ingested from the messages
/// that it was fed since it was new, errors included, the first refusal of each
/// origin, in the order in which they occurred. Each is about a feed, and none is
/// about the same feed as another when each refusal is about the feed of the frame
/// that it answers.
pub proof fn law_skipped_are_first_refusals(schema: u32, ms: Seq<Heard>)
    requires
        forall|i: int|
            0 <= i < ms.len() ==> (#[trigger] ms[i]).frames().len() == ms[i].answers().len(),
    ensures
        ({
            let s = SessionView::new(schema).after_all(ms);
            let (frames, answers) = (frames_heard(ms), answers_heard(ms));
            &&& s.wf()
            &&& s.skipped == first_refusals(frames, answers, frames.len() as int)
            &&& forall|o: ReplicaId| #[trigger]
                s.refused.contains(o) <==> exists|k: int|
                    0 <= k < frames.len() && refuses(#[trigger] answers[k]) && frames[k].origin == o
            &&& blames_own(frames, answers) ==> s.per_origin()
        }),
{
    let new = SessionView::new(schema);
    let (frames, answers) = (frames_heard(ms), answers_heard(ms));
    lemma_after_all_refusals(schema, ms);
    lemma_records_first_refusals(new, frames, answers);
    lemma_heard_wf(new, frames, answers);
    if blames_own(frames, answers) {
        law_refusals_stay_apart(new, frames, answers);
    }
}

proof fn lemma_heard_wf(
    heard: SessionView,
    frames: Seq<FrameView>,
    answers: Seq<Result<bool, SodError>>,
)
    requires
        heard.wf(),
    ensures
        heard.heard_all(frames, answers).wf(),
    decreases frames.len(),
{
    if frames.len() > 0 {
        lemma_heard_wf(heard, frames.drop_last(), answers.drop_last());
        if refuses(answers.last()) {
            lemma_refuse_wf(
                heard.heard_all(frames.drop_last(), answers.drop_last()),
                frames.last().origin,
                answers.last()->Err_0,
            );
        }
    }
}

/// A run goes on with one more frame.
proof fn lemma_run_step<E: Engine, L: LogStore>(
    run: Run<E, L>,
    from: Replica<E, L>,
    heard: SessionView,
    frames: Seq<FrameView>,
    k: int,
    after: Replica<E, L>,
    answer: Result<bool, SodError>,
)
    requires
        0 <= k < frames.len(),
        run.of(from, frames.take(k)),
        run.end().ingested(frames[k], &after, answer),
    ensures
        run.extended(after, answer).of(from, frames.take(k + 1)),
        run.extended(after, answer).end() == after,
        heard.heard_all(frames.take(k + 1), run.answers.push(answer)) == heard.heard_all(
            frames.take(k),
            run.answers,
        ).heard(frames[k].origin, answer),
{
    let more = run.extended(after, answer);
    let (s, t) = (frames.take(k), frames.take(k + 1));
    assert forall|j: int| 0 <= j < t.len() implies #[trigger] more.step(t, j) by {
        if j < k {
            assert(run.step(s, j));
        }
    }
    assert(t.drop_last() =~= s);
    assert(run.answers.push(answer).drop_last() =~= run.answers);
}

/// Whatever a peer sends and however the log and the engine fail, the replica
/// stays well-formed, only gains frames, and syncs nothing, and an engine in step
/// with the feeds stays so.
pub proof fn law_run_only_adds<E: Engine, L: LogStore>(
    run: Run<E, L>,
    from: Replica<E, L>,
    frames: Seq<FrameView>,
)
    requires
        from.wf(),
        run.of(from, frames),
    ensures
        run.end().wf(),
        run.end().as_reliable_as(&from),
        run.end().the_log().synced() == from.the_log().synced(),
        run.end()@.id == from@.id,
        crate::feeds::prefixed(from@.feeds, run.end()@.feeds),
        from@.poisoned.subset_of(run.end()@.poisoned),
        from@.in_step() ==> run.end()@.in_step(),
    decreases frames.len(),
{
    crate::feeds::lemma_prefixed_reflexive(from@.feeds);
    if frames.len() > 0 {
        let n = frames.len() - 1;
        let init = frames.take(n);
        lemma_run_prefix(run, from, frames, n);
        law_run_only_adds(run.take(n), from, init);
        let before = run.replicas[n];
        assert(run.take(n).end() == before);
        assert(run.step(frames, n));
        let after = run.end();
        assert(after == run.replicas[n + 1]);
        lemma_ingest_only_adds(before, frames[n], after, run.answers[n]);
        crate::feeds::lemma_prefixed_transitive(from@.feeds, before@.feeds, after@.feeds);
    }
}

proof fn lemma_ingest_only_adds<E: Engine, L: LogStore>(
    before: Replica<E, L>,
    f: FrameView,
    after: Replica<E, L>,
    r: Result<bool, SodError>,
)
    requires
        before.wf(),
        before.ingested(f, &after, r),
    ensures
        after@.id == before@.id,
        crate::feeds::prefixed(before@.feeds, after@.feeds),
        before@.poisoned.subset_of(after@.poisoned),
        before@.in_step() ==> after@.in_step(),
{
    crate::feeds::lemma_prefixed_reflexive(before@.feeds);
    if before@.arrival(f) is Next {
        crate::replica::law_accept_extends(before@, f);
        if before@.in_step() {
            crate::replica::law_accept_keeps_step(before@, f);
        }
    }
}

pub proof fn lemma_run_prefix<E: Engine, L: LogStore>(
    run: Run<E, L>,
    from: Replica<E, L>,
    frames: Seq<FrameView>,
    n: int,
)
    requires
        run.of(from, frames),
        0 <= n <= frames.len(),
    ensures
        run.take(n).of(from, frames.take(n)),
        run.take(n).end() == run.replicas[n],
{
    let part = run.take(n);
    assert forall|j: int| 0 <= j < n implies #[trigger] part.step(frames.take(n), j) by {
        assert(run.step(frames, j));
    }
}

proof fn lemma_frames_in_concat(s: Seq<MsgView>, t: Seq<MsgView>)
    ensures
        frames_in(s + t) == frames_in(s) + frames_in(t),
    decreases s.len(),
{
    if s.len() == 0 {
        assert(s + t =~= t);
        assert(frames_in(s) + frames_in(t) =~= frames_in(t));
    } else {
        lemma_frames_in_concat(s.drop_first(), t);
        assert((s + t).drop_first() =~= s.drop_first() + t);
        assert(frames_in(s + t) =~= frames_in(s) + frames_in(t));
    }
}

/// Batching loses and reorders nothing.
pub proof fn law_batches_carry_all(frames: Seq<FrameView>)
    ensures
        frames_in(batches(frames)) == frames,
        forall|i: int|
            0 <= i < batches(frames).len() ==> ((#[trigger] batches(frames)[i]) matches
                MsgView::Frames(batch) && 0 < batch.len() <= BATCH),
    decreases frames.len(),
{
    if frames.len() == 0 {
        assert(frames =~= seq![]);
    } else if frames.len() <= BATCH {
        let one = seq![MsgView::Frames(frames)];
        assert(one.drop_first() =~= seq![]);
        assert(frames_in(one.drop_first()) =~= seq![]);
        assert(frames_in(one) =~= frames);
    } else {
        let first = MsgView::Frames(frames.take(BATCH as int));
        let rest = frames.skip(BATCH as int);
        law_batches_carry_all(rest);
        let all = seq![first] + batches(rest);
        assert(all.drop_first() =~= batches(rest));
        assert(frames.take(BATCH as int) + rest =~= frames);
        assert forall|i: int| 0 <= i < all.len() implies ((#[trigger] all[i]) matches
            MsgView::Frames(batch) && 0 < batch.len() <= BATCH) by {
            if i > 0 {
                assert(all[i] == batches(rest)[i - 1]);
            }
        }
    }
}

/// The answer to a `Hello` carries exactly the missing frames, in batches, and
/// ends with `Done`.
pub proof fn law_answer_carries_missing(v: ReplicaView, theirs: Map<ReplicaId, u64>)
    ensures
        frames_in(answer(v, theirs)) == missing(v, theirs),
        answer(v, theirs).len() > 0,
        answer(v, theirs).last() is Done,
        forall|i: int|
            0 <= i < answer(v, theirs).len() - 1 ==> ((#[trigger] answer(v, theirs)[i]) matches
                MsgView::Frames(batch) && 0 < batch.len() <= BATCH),
{
    let list = crate::vector::ahead(v.vector(), theirs);
    lemma_streamed(v, list);
    let done = seq![MsgView::Done];
    assert(answer(v, theirs) =~= streamed(v, list) + done);
    lemma_frames_in_concat(streamed(v, list), done);
    assert(done.drop_first() =~= seq![]);
    assert(frames_in(done.drop_first()) =~= seq![]);
    assert(frames_in(done) =~= seq![]);
    assert(missing(v, theirs) + Seq::<FrameView>::empty() =~= missing(v, theirs));
}

proof fn lemma_streamed(v: ReplicaView, list: Seq<(ReplicaId, u64, u64)>)
    ensures
        frames_in(streamed(v, list)) == suffixes(v, list),
        forall|i: int|
            0 <= i < streamed(v, list).len() ==> ((#[trigger] streamed(v, list)[i]) matches
                MsgView::Frames(batch) && 0 < batch.len() <= BATCH),
    decreases list.len(),
{
    if list.len() > 0 {
        let (origin, theirs, have) = list.last();
        let init = streamed(v, list.drop_last());
        lemma_streamed(v, list.drop_last());
        let more = if v.poisoned.contains(origin) {
            seq![]
        } else {
            batches(v.feed(origin).skip(theirs as int))
        };
        law_batches_carry_all(v.feed(origin).skip(theirs as int));
        lemma_frames_in_concat(init, more);
        assert forall|i: int| 0 <= i < (init + more).len() implies ((#[trigger] (init + more)[i])
            matches MsgView::Frames(batch) && 0 < batch.len() <= BATCH) by {
            if i >= init.len() {
                assert((init + more)[i] == more[i - init.len()]);
            }
        }
    }
}

/// Taking frames in two goes is taking them all.
pub proof fn lemma_take_all_concat(h: Half, s: Seq<FrameView>, t: Seq<FrameView>)
    ensures
        h.take_all(s + t) == h.take_all(s).take_all(t),
        h.smooth(s + t) <==> h.smooth(s) && h.take_all(s).smooth(t),
    decreases t.len(),
{
    if t.len() == 0 {
        assert(s + t =~= s);
    } else {
        let init = t.drop_last();
        lemma_take_all_concat(h, s, init);
        let st = s + t;
        let n = s.len() as int;
        let m = t.len() - 1;
        assert(st.drop_last() =~= s + init);
        assert(st.take(n + m) =~= s + init);
        assert(t.take(m) =~= init);
        assert(st.take(n + m + 1) =~= st);
        assert(t.take(m + 1) =~= t);
        lemma_take_one_more(h, st, n + m);
        lemma_take_one_more(h.take_all(s), t, m);
        if h.smooth(st) {
            lemma_smooth_prefix(h, st, n + m);
            assert(!hard(h.arrival_at(st, n + m)));
        }
        if h.take_all(s).smooth(t) {
            lemma_smooth_prefix(h.take_all(s), t, m);
            assert(!hard(h.take_all(s).arrival_at(t, m)));
        }
    }
}

proof fn lemma_smooth_prefix(h: Half, frames: Seq<FrameView>, k: int)
    requires
        h.smooth(frames),
        0 <= k <= frames.len(),
    ensures
        h.smooth(frames.take(k)),
{
    let seen = frames.take(k);
    assert forall|j: int| 0 <= j < seen.len() implies !hard(#[trigger] h.arrival_at(seen, j)) by {
        assert(seen.take(j) =~= frames.take(j));
        assert(!hard(h.arrival_at(frames, j)));
    }
}

/// Whatever a peer sends, the replica stays well-formed and only gains frames.
pub proof fn law_taking_only_adds(h: Half, frames: Seq<FrameView>)
    requires
        h.replica.wf(),
    ensures
        h.take_all(frames).replica.wf(),
        h.take_all(frames).replica.id == h.replica.id,
        crate::feeds::prefixed(h.replica.feeds, h.take_all(frames).replica.feeds),
        h.replica.poisoned.subset_of(h.take_all(frames).replica.poisoned),
        h.replica.in_step() ==> h.take_all(frames).replica.in_step(),
        h.replica.logged() ==> h.take_all(frames).replica.logged(),
        h.session.wf() ==> h.take_all(frames).session.wf(),
        h.session.wf() && h.session.per_origin() ==> h.take_all(frames).session.per_origin(),
    decreases frames.len(),
{
    crate::feeds::lemma_prefixed_reflexive(h.replica.feeds);
    if frames.len() > 0 {
        reveal(Half::take);
        law_taking_only_adds(h, frames.drop_last());
        let before = h.take_all(frames.drop_last());
        let f = frames.last();
        crate::feeds::lemma_prefixed_reflexive(before.replica.feeds);
        match before.replica.arrival(f) {
            Arrival::Next => {
                crate::replica::law_accept_extends(before.replica, f);
                if before.replica.in_step() {
                    crate::replica::law_accept_keeps_step(before.replica, f);
                }
                if before.replica.logged() {
                    crate::replica::law_accept_keeps_log(before.replica, f);
                }
            },
            Arrival::Fork => {
                if before.session.wf() {
                    lemma_refuse_wf(
                        before.session,
                        f.origin,
                        SodError::Equivocation { origin: f.origin, seq: f.seq },
                    );
                }
            },
            Arrival::Poisoned => {
                if before.session.wf() {
                    lemma_refuse_wf(before.session, f.origin, SodError::Poisoned(f.origin));
                }
            },
            _ => {},
        }
        crate::feeds::lemma_prefixed_transitive(
            h.replica.feeds,
            before.replica.feeds,
            h.take_all(frames).replica.feeds,
        );
    }
}

/// A frame touches only its own origin's feed: whatever becomes of it, the
/// session goes on for the other origins as if it had not come.
pub proof fn law_frame_touches_only_its_feed(h: Half, f: FrameView, g: FrameView)
    requires
        f.origin != g.origin,
    ensures
        h.take(f).replica.feed(g.origin) == h.replica.feed(g.origin),
        h.take(f).replica.poisoned.contains(g.origin) == h.replica.poisoned.contains(g.origin),
        h.take(f).replica.arrival(g) == h.replica.arrival(g),
{
    reveal(Half::take);
}

/// Add `msgs` at the end of a queue.
fn enqueue(queue: &mut VecDeque<Msg>, msgs: Vec<Msg>)
    ensures
        final(queue)@ == old(queue)@ + msgs@,
{
    assert(queue@ =~= old(queue)@ + msgs@.take(0));
    for m in it: msgs
        invariant
            it.seq() == msgs@,
            queue@ == old(queue)@ + msgs@.take(it.index() as int),
    {
        let ghost k = it.index() as int;
        assert(msgs@.take(k + 1) =~= msgs@.take(k).push(m));
        queue.push_back(m);
        assert(queue@ =~= old(queue)@ + msgs@.take(k + 1));
    }
    assert(msgs@.take(msgs@.len() as int) =~= msgs@);
}

/// The frames before this run's end were taken with nothing that breaks a
/// session off, and the replica is like `r` then.
pub open spec fn went<E: Engine, L: LogStore>(
    run: Run<E, L>,
    from: Replica<E, L>,
    all: Seq<FrameView>,
    r: Replica<E, L>,
) -> bool {
    &&& run.answers.len() <= all.len()
    &&& run.of(from, all.take(run.answers.len() as int))
    &&& run.goes_on()
    &&& run.end()@ == r@
}

/// A session in which the replica was to take `all` broke off with `e`: at the
/// last frame of the run, or when the log failed to sync after all of them.
pub open spec fn broke_off<E: Engine, L: LogStore>(
    run: Run<E, L>,
    from: Replica<E, L>,
    all: Seq<FrameView>,
    r: Replica<E, L>,
    e: SodError,
) -> bool {
    ||| {
        &&& run.answers.len() <= all.len()
        &&& run.of(from, all.take(run.answers.len() as int))
        &&& run.breaks_off(e)
        &&& run.end() == r
    }
    ||| {
        &&& went(run, from, all, r)
        &&& run.answers.len() == all.len()
        &&& !from.reliable()
        &&& r.the_log().failure() == Some(e)
    }
}

/// A replica that was to take `all` is at `r`, and its half of the session at
/// `s`, with `inbox` still to be delivered.
spec fn midway<E: Engine, L: LogStore>(
    run: Run<E, L>,
    from: Replica<E, L>,
    heard: SessionView,
    all: Seq<FrameView>,
    r: Replica<E, L>,
    s: SessionView,
    inbox: Seq<MsgView>,
) -> bool {
    let rest = frames_in(inbox);
    let seen = all.take(all.len() - rest.len());
    let so_far = heard.heard_all(seen, run.answers);
    &&& rest.len() <= all.len()
    &&& all.skip(all.len() - rest.len()) == rest
    &&& run.of(from, seen)
    &&& run.goes_on()
    &&& run.end()@ == r@
    &&& inbox.len() > 0 ==> run.end() == r
    &&& s == if inbox.len() == 0 {
        SessionView { peer_done: true, ..so_far }
    } else {
        so_far
    }
    &&& inbox.len() > 0 ==> inbox.last() is Done
    &&& forall|i: int| 0 <= i < inbox.len() - 1 ==> (#[trigger] inbox[i]) is Frames
}

/// Deliver the next message of `inbox`, if there is one.
fn deliver<E: Engine, L: LogStore>(
    s: &mut Session,
    r: &mut Replica<E, L>,
    inbox: &mut VecDeque<Msg>,
    Ghost(run): Ghost<Run<E, L>>,
    Ghost(from): Ghost<Replica<E, L>>,
    Ghost(heard): Ghost<SessionView>,
    Ghost(all): Ghost<Seq<FrameView>>,
) -> (out: (Result<Vec<Msg>, SodError>, Ghost<Run<E, L>>))
    requires
        old(s)@.wf(),
        old(r).wf(),
        from.wf(),
        old(r).as_reliable_as(&from),
        midway(run, from, heard, all, *old(r), old(s)@, msg_views(old(inbox)@)),
    ensures
        final(s)@.wf(),
        final(r).wf(),
        final(r).as_reliable_as(old(r)),
        out.0 matches Ok(msgs) ==> msgs@.len() == 0 && midway(
            out.1@,
            from,
            heard,
            all,
            *final(r),
            final(s)@,
            msg_views(final(inbox)@),
        ),
        out.0 matches Err(e) ==> broke_off(out.1@, from, all, *final(r), e),
        final(inbox)@.len() == if old(inbox)@.len() == 0 {
            0
        } else {
            old(inbox)@.len() - 1
        },
        out.0 is Ok && final(inbox)@.len() == 0 && (old(inbox)@.len() == 0 ==> old(r).hardened())
            ==> final(r).hardened(),
{
    let ghost msgs = msg_views(inbox@);
    match inbox.pop_front() {
        None => (Ok(Vec::new()), Ghost(run)),
        Some(m) => {
            let ghost left = msg_views(inbox@);
            proof {
                assert(left =~= msgs.drop_first());
                assert(m@ == msgs[0]);
            }
            let out = s.on_msg(r, m);
            let ghost mut next = run;
            proof {
                match msgs[0] {
                    MsgView::Frames(frames) => {
                        let error = error_of(out);
                        let more = choose|more: Run<E, L>| #[trigger]
                            ran(more, *old(r), old(s)@, frames, *r, s@, error);
                        next = run.join(more);
                        lemma_deliver_frames(run, from, heard, all, msgs, frames, more);
                        if out is Err {
                            assert(next.answers.last() == more.answers.last());
                        }
                    },
                    MsgView::Done => {
                        assert(msgs.len() == 1);
                        assert(frames_in(left) =~= seq![]);
                        assert(frames_in(msgs) =~= seq![]);
                    },
                    MsgView::Hello { .. } => {
                        assert(false);
                    },
                }
            }
            (out, Ghost(next))
        },
    }
}

/// One side of a completed session: its replica was `from` and is `r`, and took
/// `all`; what was refused is in its report.
pub open spec fn completed<E: Engine, L: LogStore>(
    run: Run<E, L>,
    from: Replica<E, L>,
    heard: SessionView,
    all: Seq<FrameView>,
    r: Replica<E, L>,
    skipped: Seq<SodError>,
) -> bool {
    &&& went(run, from, all, r)
    &&& run.answers.len() == all.len()
    &&& skipped == heard.heard_all(all, run.answers).skipped
}

/// No frame of `frames` is refused by the replica's engine with an error about
/// a feed.
pub open spec fn civil<E: Engine, L: LogStore>(
    r: Replica<E, L>,
    frames: Seq<FrameView>,
) -> bool {
    forall|k: int|
        0 <= k < frames.len() ==> (r.refusal(#[trigger] frames[k]) matches Some(e)
            ==> !e.blames_feed())
}

/// No frame of `frames` is refused by the replica's engine.
pub open spec fn welcome<E: Engine, L: LogStore>(
    r: Replica<E, L>,
    frames: Seq<FrameView>,
) -> bool {
    forall|k: int| 0 <= k < frames.len() ==> r.refusal(#[trigger] frames[k]) is None
}

/// Drive a complete session between two in-process replicas. Returns `(a's
/// report, b's report)`.
#[verifier::spinoff_prover]
pub fn sync_pair<E1: Engine, L1: LogStore, E2: Engine, L2: LogStore>(
    a: &mut Replica<E1, L1>,
    b: &mut Replica<E2, L2>,
    schema: u32,
) -> (r: Result<(SyncReport, SyncReport), SodError>)
    requires
        old(a).wf(),
        old(b).wf(),
    ensures
        final(a).wf(),
        final(b).wf(),
        final(a).as_reliable_as(old(a)),
        final(b).as_reliable_as(old(b)),
        crate::feeds::prefixed(old(a)@.feeds, final(a)@.feeds),
        crate::feeds::prefixed(old(b)@.feeds, final(b)@.feeds),
        r matches Ok((ra, rb)) ==> {
            let to_a = missing(old(b)@, old(a)@.vector());
            let to_b = missing(old(a)@, old(b)@.vector());
            let met_a = met(old(a)@, old(b)@, schema);
            let met_b = met(old(b)@, old(a)@, schema);
            &&& final(a).hardened()
            &&& final(b).hardened()
            &&& ra.peer == old(b)@.id
            &&& ra.peer_vector@ == old(b)@.vector()
            &&& rb.peer == old(a)@.id
            &&& rb.peer_vector@ == old(a)@.vector()
            &&& exists|run: Run<E1, L1>| #[trigger]
                completed(
                    run,
                    *old(a),
                    greeted(old(a)@, old(b)@, schema).session,
                    to_a,
                    *final(a),
                    ra.skipped@,
                )
            &&& exists|run: Run<E2, L2>| #[trigger]
                completed(
                    run,
                    *old(b),
                    greeted(old(b)@, old(a)@, schema).session,
                    to_b,
                    *final(b),
                    rb.skipped@,
                )
            &&& (ra.skipped@.len() == 0 || old(a).reliable() && civil(*old(a), to_a)) ==> {
                &&& final(a)@ == met_a.replica
                &&& ra.skipped@ == met_a.session.skipped
            }
            &&& (rb.skipped@.len() == 0 || old(b).reliable() && civil(*old(b), to_b)) ==> {
                &&& final(b)@ == met_b.replica
                &&& rb.skipped@ == met_b.session.skipped
            }
        },
        r matches Err(e) ==> {
            let to_a = missing(old(b)@, old(a)@.vector());
            let to_b = missing(old(a)@, old(b)@.vector());
            ||| {
                &&& exists|run: Run<E1, L1>| #[trigger]
                    broke_off(run, *old(a), to_a, *final(a), e)
                &&& exists|run: Run<E2, L2>| #[trigger] went(run, *old(b), to_b, *final(b))
            }
            ||| {
                &&& exists|run: Run<E1, L1>| #[trigger] went(run, *old(a), to_a, *final(a))
                &&& exists|run: Run<E2, L2>| #[trigger]
                    broke_off(run, *old(b), to_b, *final(b), e)
            }
        },
        ({
            let to_a = missing(old(b)@, old(a)@.vector());
            let to_b = missing(old(a)@, old(b)@.vector());
            &&& old(a).reliable()
            &&& old(b).reliable()
            &&& welcome(*old(a), to_a)
            &&& welcome(*old(b), to_b)
            &&& greeted(old(a)@, old(b)@, schema).smooth(to_a)
            &&& greeted(old(b)@, old(a)@, schema).smooth(to_b)
        }) ==> r is Ok,
{
    let ghost heard_a = greeted(a@, b@, schema).session;
    let ghost heard_b = greeted(b@, a@, schema).session;
    let ghost all_a = missing(b@, a@.vector());
    let ghost all_b = missing(a@, b@.vector());
    let ghost mut run_a: Run<E1, L1> = Run { replicas: seq![*a], answers: seq![] };
    let ghost mut run_b: Run<E2, L2> = Run { replicas: seq![*b], answers: seq![] };
    let mut sa = Session::new(schema);
    let mut sb = Session::new(schema);
    let hello_a = sa.hello(a);
    let hello_b = sb.hello(b);
    // FIFO delivery: batches beyond the first must arrive in send order, or
    // contiguous-suffix ingestion fails with a gap.
    let mut to_a: VecDeque<Msg> = VecDeque::new();
    let mut to_b: VecDeque<Msg> = VecDeque::new();
    match sb.on_msg(b, hello_a) {
        Ok(msgs) => {
            enqueue(&mut to_a, msgs);
            assert(msg_views(to_a@) =~= answer(b@, a@.vector()));
        },
        Err(e) => {
            return Err(e);
        },
    }
    match sa.on_msg(a, hello_b) {
        Ok(msgs) => {
            enqueue(&mut to_b, msgs);
            assert(msg_views(to_b@) =~= answer(a@, b@.vector()));
        },
        Err(e) => {
            return Err(e);
        },
    }
    proof {
        lemma_midway_starts(run_a, *a, sa@, b@, a@.vector());
        lemma_midway_starts(run_b, *b, sb@, a@, b@.vector());
    }
    while !(sa.finished() && sb.finished() && to_a.len() == 0 && to_b.len() == 0)
        invariant
            heard_a == greeted(old(a)@, old(b)@, schema).session,
            heard_b == greeted(old(b)@, old(a)@, schema).session,
            all_a == missing(old(b)@, old(a)@.vector()),
            all_b == missing(old(a)@, old(b)@.vector()),
            sa@.wf(),
            sb@.wf(),
            a.wf(),
            b.wf(),
            old(a).wf(),
            old(b).wf(),
            a.as_reliable_as(old(a)),
            b.as_reliable_as(old(b)),
            midway(run_a, *old(a), heard_a, all_a, *a, sa@, msg_views(to_a@)),
            midway(run_b, *old(b), heard_b, all_b, *b, sb@, msg_views(to_b@)),
            to_a@.len() == 0 ==> a.hardened(),
            to_b@.len() == 0 ==> b.hardened(),
        decreases to_a@.len() + to_b@.len(),
    {
        proof {
            lemma_midway_went(run_a, *old(a), heard_a, all_a, *a, sa@, msg_views(to_a@));
            lemma_midway_went(run_b, *old(b), heard_b, all_b, *b, sb@, msg_views(to_b@));
        }
        let (out, Ghost(next)) = deliver(
            &mut sb,
            b,
            &mut to_b,
            Ghost(run_b),
            Ghost(*old(b)),
            Ghost(heard_b),
            Ghost(all_b),
        );
        proof {
            run_b = next;
        }
        match out {
            Ok(msgs) => {
                enqueue(&mut to_a, msgs);
                assert(to_a@ + msgs@ =~= to_a@);
            },
            Err(e) => {
                proof {
                    lemma_break_off(run_b, *old(b), heard_b, all_b, *b, e);
                    lemma_went_adds(run_a, *old(a), all_a, *a);
                }
                return Err(e);
            },
        }
        proof {
            lemma_midway_went(run_b, *old(b), heard_b, all_b, *b, sb@, msg_views(to_b@));
        }
        let (out, Ghost(next)) = deliver(
            &mut sa,
            a,
            &mut to_a,
            Ghost(run_a),
            Ghost(*old(a)),
            Ghost(heard_a),
            Ghost(all_a),
        );
        proof {
            run_a = next;
        }
        match out {
            Ok(msgs) => {
                enqueue(&mut to_b, msgs);
                assert(to_b@ + msgs@ =~= to_b@);
            },
            Err(e) => {
                proof {
                    lemma_break_off(run_a, *old(a), heard_a, all_a, *a, e);
                    lemma_went_adds(run_b, *old(b), all_b, *b);
                }
                return Err(e);
            },
        }
    }
    proof {
        assert(msg_views(to_a@) =~= seq![]);
        assert(msg_views(to_b@) =~= seq![]);
        lemma_midway_ends(run_a, *old(a), heard_a, all_a, *a, sa@);
        lemma_midway_ends(run_b, *old(b), heard_b, all_b, *b, sb@);
        lemma_went_adds(run_a, *old(a), all_a, *a);
        lemma_went_adds(run_b, *old(b), all_b, *b);
    }
    match (sa.report(), sb.report()) {
        (Some(ra), Some(rb)) => {
            assert(completed(run_a, *old(a), heard_a, all_a, *a, ra.skipped@));
            assert(completed(run_b, *old(b), heard_b, all_b, *b, rb.skipped@));
            Ok((ra, rb))
        },
        // Both sessions completed, so both saw the peer's `Hello`.
        _ => Err(SodError::Io(String::from_str("session ended before Hello"))),
    }
}

proof fn lemma_midway_starts<E: Engine, L: LogStore>(
    run: Run<E, L>,
    r: Replica<E, L>,
    s: SessionView,
    v: ReplicaView,
    theirs: Map<ReplicaId, u64>,
)
    requires
        run.replicas == seq![r],
        run.answers.len() == 0,
    ensures
        midway(run, r, s, missing(v, theirs), r, s, answer(v, theirs)),
        answer(v, theirs).len() > 0,
{
    law_answer_carries_missing(v, theirs);
    let all = missing(v, theirs);
    assert(all.take(0) =~= seq![]);
    assert(all.skip(0) =~= all);
}

/// The answers to frames do not touch the handshake.
proof fn lemma_handshake_stays(
    heard: SessionView,
    frames: Seq<FrameView>,
    answers: Seq<Result<bool, SodError>>,
)
    ensures
        heard.heard_all(frames, answers).sent_done == heard.sent_done,
        heard.heard_all(frames, answers).peer == heard.peer,
    decreases frames.len(),
{
    if frames.len() > 0 {
        lemma_handshake_stays(heard, frames.drop_last(), answers.drop_last());
    }
}

proof fn lemma_midway_went<E: Engine, L: LogStore>(
    run: Run<E, L>,
    from: Replica<E, L>,
    heard: SessionView,
    all: Seq<FrameView>,
    r: Replica<E, L>,
    s: SessionView,
    inbox: Seq<MsgView>,
)
    requires
        midway(run, from, heard, all, r, s, inbox),
    ensures
        went(run, from, all, r),
        s.sent_done == heard.sent_done,
        inbox.len() == 0 ==> s.peer_done,
{
    let seen = all.take(all.len() - frames_in(inbox).len());
    lemma_handshake_stays(heard, seen, run.answers);
    assert(all.take(run.answers.len() as int) =~= seen);
}

proof fn lemma_midway_ends<E: Engine, L: LogStore>(
    run: Run<E, L>,
    from: Replica<E, L>,
    heard: SessionView,
    all: Seq<FrameView>,
    r: Replica<E, L>,
    s: SessionView,
)
    requires
        from.wf(),
        midway(run, from, heard, all, r, s, seq![]),
        heard.refused == Set::<ReplicaId>::empty(),
        heard.skipped.len() == 0,
    ensures
        completed(run, from, heard, all, r, s.skipped),
        s.peer == heard.peer,
        s.skipped.len() == 0 || from.reliable() && civil(from, all) ==> {
            let half = (Half { session: heard, replica: from@ }).take_all(all);
            &&& r@ == half.replica
            &&& s.skipped == half.session.skipped
        },
{
    assert(all.take(all.len() as int) =~= all);
    lemma_midway_went(run, from, heard, all, r, s, seq![]);
    lemma_handshake_stays(heard, all, run.answers);
    if s.skipped.len() == 0 {
        lemma_unskipped_accepts(run, from, heard, all);
        law_accepting_run_takes_all(run, from, heard, all);
    } else if from.reliable() && civil(from, all) {
        law_reliable_run_accepts(run, from, all);
        law_accepting_run_takes_all(run, from, heard, all);
    }
}

proof fn lemma_went_adds<E: Engine, L: LogStore>(
    run: Run<E, L>,
    from: Replica<E, L>,
    all: Seq<FrameView>,
    r: Replica<E, L>,
)
    requires
        from.wf(),
        went(run, from, all, r),
    ensures
        crate::feeds::prefixed(from@.feeds, r@.feeds),
{
    law_run_only_adds(run, from, all.take(run.answers.len() as int));
}

/// A session broken off leaves what was taken before, and with a reliable
/// replica there was cause.
proof fn lemma_break_off<E: Engine, L: LogStore>(
    run: Run<E, L>,
    from: Replica<E, L>,
    heard: SessionView,
    all: Seq<FrameView>,
    r: Replica<E, L>,
    e: SodError,
)
    requires
        from.wf(),
        broke_off(run, from, all, r, e),
    ensures
        crate::feeds::prefixed(from@.feeds, r@.feeds),
        !(from.reliable() && welcome(from, all) && (Half {
            session: heard,
            replica: from@,
        }).smooth(all)),
{
    let start = Half { session: heard, replica: from@ };
    let n = run.answers.len() as int;
    law_run_only_adds(run, from, all.take(n));
    if from.reliable() && welcome(from, all) && start.smooth(all) {
        let k = n - 1;
        let seen = all.take(n);
        lemma_run_prefix(run, from, seen, k);
        assert(seen.take(k) =~= all.take(k));
        let before = run.take(k);
        assert forall|i: int| 0 <= i < before.answers.len() implies !breaks(
            #[trigger] before.answers[i],
        ) by {
            assert(before.answers[i] == run.answers[i]);
        }
        assert(civil(from, all.take(k)));
        law_reliable_run_accepts(before, from, all.take(k));
        law_accepting_run_takes_all(before, from, heard, all.take(k));
        law_run_only_adds(before, from, all.take(k));
        assert(run.step(seen, k));
        assert(!hard(start.arrival_at(all, k)));
        assert(run.replicas[k].refusal(all[k]) == from.refusal(all[k]));
        assert(false);
    }
}

/// A session with a replica whose log and engine never fail goes on only past
/// frames that the engine takes, when no refusal of the engine is about a feed.
pub proof fn law_reliable_run_accepts<E: Engine, L: LogStore>(
    run: Run<E, L>,
    from: Replica<E, L>,
    frames: Seq<FrameView>,
)
    requires
        from.wf(),
        from.reliable(),
        civil(from, frames),
        run.of(from, frames),
        run.goes_on(),
    ensures
        run.accepts_all(frames),
        forall|k: int|
            0 <= k < frames.len() && (#[trigger] run.replicas[k])@.arrival(frames[k]) is Next
                ==> from.refusal(frames[k]) is None,
{
    assert forall|k: int|
        0 <= k < frames.len() && (#[trigger] run.replicas[k])@.arrival(
            frames[k],
        ) is Next implies run.answers[k] is Ok && from.refusal(frames[k]) is None by {
        lemma_run_prefix(run, from, frames, k);
        law_run_only_adds(run.take(k), from, frames.take(k));
        assert(run.step(frames, k));
        assert(!breaks(run.answers[k]));
        assert(run.replicas[k].refusal(frames[k]) == from.refusal(frames[k]));
    }
}

/// When nothing was skipped, every answer was a success.
proof fn lemma_unskipped_accepts<E: Engine, L: LogStore>(
    run: Run<E, L>,
    from: Replica<E, L>,
    heard: SessionView,
    frames: Seq<FrameView>,
)
    requires
        run.of(from, frames),
        run.goes_on(),
        heard.refused == Set::<ReplicaId>::empty(),
        heard.skipped.len() == 0,
        heard.heard_all(frames, run.answers).skipped.len() == 0,
    ensures
        run.accepts_all(frames),
{
    lemma_unskipped_answers(heard, frames, run.answers);
    assert forall|k: int|
        0 <= k < frames.len() && (#[trigger] run.replicas[k])@.arrival(
            frames[k],
        ) is Next implies run.answers[k] is Ok by {
        assert(!breaks(run.answers[k]));
    }
}

proof fn lemma_unskipped_answers(
    heard: SessionView,
    frames: Seq<FrameView>,
    answers: Seq<Result<bool, SodError>>,
)
    requires
        answers.len() == frames.len(),
        heard.refused == Set::<ReplicaId>::empty(),
        heard.heard_all(frames, answers).skipped.len() == 0,
    ensures
        heard.heard_all(frames, answers) == heard,
        forall|k: int|
            0 <= k < answers.len() && (#[trigger] answers[k]) is Err ==> breaks(answers[k]),
    decreases frames.len(),
{
    if frames.len() > 0 {
        lemma_unskipped_answers(heard, frames.drop_last(), answers.drop_last());
        assert forall|k: int|
            0 <= k < answers.len() && (#[trigger] answers[k]) is Err implies breaks(answers[k]) by {
            if k < answers.len() - 1 {
                assert(answers.drop_last()[k] == answers[k]);
            }
        }
    }
}

proof fn lemma_accepting_step<E: Engine, L: LogStore>(
    before: Replica<E, L>,
    heard: SessionView,
    f: FrameView,
    after: Replica<E, L>,
    r: Result<bool, SodError>,
)
    requires
        before.ingested(f, &after, r),
        !breaks(r),
        before@.arrival(f) is Next ==> r is Ok,
    ensures
        !hard(before@.arrival(f)),
        (Half { session: heard, replica: before@ }).take(f) == (Half {
            session: heard.heard(f.origin, r),
            replica: after@,
        }),
{
    reveal(Half::take);
}

/// What holds of a run holds of its first frames.
proof fn lemma_accepting_prefix<E: Engine, L: LogStore>(
    run: Run<E, L>,
    from: Replica<E, L>,
    frames: Seq<FrameView>,
    n: int,
)
    requires
        run.of(from, frames),
        run.goes_on(),
        run.accepts_all(frames),
        0 <= n <= frames.len(),
    ensures
        run.take(n).of(from, frames.take(n)),
        run.take(n).end() == run.replicas[n],
        run.take(n).goes_on(),
        run.take(n).accepts_all(frames.take(n)),
{
    let part = run.take(n);
    lemma_run_prefix(run, from, frames, n);
    assert forall|k: int| 0 <= k < part.answers.len() implies !breaks(
        #[trigger] part.answers[k],
    ) by {
        assert(part.answers[k] == run.answers[k]);
    }
    assert forall|k: int|
        0 <= k < n && (#[trigger] part.replicas[k])@.arrival(
            frames.take(n)[k],
        ) is Next implies part.answers[k] is Ok by {
        assert(part.replicas[k] == run.replicas[k]);
    }
}

/// A run in which every frame that was the next of its feed was accepted takes
/// the frames as [`Half::take_all`] does, and nothing in it breaks a session
/// off.
#[verifier::spinoff_prover]
pub proof fn law_accepting_run_takes_all<E: Engine, L: LogStore>(
    run: Run<E, L>,
    from: Replica<E, L>,
    heard: SessionView,
    frames: Seq<FrameView>,
)
    requires
        run.of(from, frames),
        run.goes_on(),
        run.accepts_all(frames),
    ensures
        (Half { session: heard, replica: from@ }).smooth(frames),
        (Half { session: heard, replica: from@ }).take_all(frames) == (Half {
            session: heard.heard_all(frames, run.answers),
            replica: run.end()@,
        }),
    decreases frames.len(),
{
    let start = Half { session: heard, replica: from@ };
    if frames.len() > 0 {
        let n = frames.len() - 1;
        let init = frames.take(n);
        let part = run.take(n);
        let before = run.replicas[n];
        let r = run.answers[n];
        let f = frames[n];
        assert(before.ingested(f, &run.end(), r) && !breaks(r)) by {
            assert(run.step(frames, n));
            assert(!breaks(run.answers[n]));
        }
        assert(before@.arrival(f) is Next ==> r is Ok);
        lemma_accepting_prefix(run, from, frames, n);
        law_accepting_run_takes_all(part, from, heard, init);
        let so_far = heard.heard_all(init, part.answers);
        lemma_accepting_step(before, so_far, f, run.end(), r);
        assert(frames.drop_last() =~= init);
        assert(run.answers.drop_last() =~= part.answers);
        assert(start.take_all(init) == (Half { session: so_far, replica: before@ }));
        assert(start.take_all(frames) == start.take_all(init).take(f));
        assert(heard.heard_all(frames, run.answers) == so_far.heard(f.origin, r));
        lemma_smooth_one_more(start, frames);
    }
}

proof fn lemma_smooth_one_more(start: Half, frames: Seq<FrameView>)
    requires
        frames.len() > 0,
        start.smooth(frames.take(frames.len() - 1)),
        !hard(start.take_all(frames.take(frames.len() - 1)).replica.arrival(frames.last())),
    ensures
        start.smooth(frames),
{
    let init = frames.take(frames.len() - 1);
    assert forall|k: int| 0 <= k < frames.len() implies !hard(
        #[trigger] start.arrival_at(frames, k),
    ) by {
        if k < init.len() {
            assert(init.take(k) =~= frames.take(k));
            assert(!hard(start.arrival_at(init, k)));
        }
    }
}

/// The run of the frames so far and that of the next message are one.
proof fn lemma_deliver_frames<E: Engine, L: LogStore>(
    run: Run<E, L>,
    from: Replica<E, L>,
    heard: SessionView,
    all: Seq<FrameView>,
    msgs: Seq<MsgView>,
    frames: Seq<FrameView>,
    more: Run<E, L>,
)
    requires
        msgs.len() > 0,
        msgs[0] == MsgView::Frames(frames),
        frames_in(msgs).len() <= all.len(),
        all.skip(all.len() - frames_in(msgs).len()) == frames_in(msgs),
        run.of(from, all.take(all.len() - frames_in(msgs).len())),
        run.goes_on(),
        more.answers.len() <= frames.len(),
        more.of(run.end(), frames.take(more.answers.len() as int)),
    ensures
        ({
            let left = msgs.drop_first();
            let done = all.len() - frames_in(msgs).len();
            let n = more.answers.len() as int;
            let joined = run.join(more);
            &&& frames_in(left).len() <= all.len()
            &&& all.skip(all.len() - frames_in(left).len()) == frames_in(left)
            &&& all.len() - frames_in(left).len() == done + frames.len()
            &&& done + n <= all.len()
            &&& joined.answers.len() == done + n
            &&& joined.of(from, all.take(done + n))
            &&& joined.end() == more.end()
            &&& heard.heard_all(all.take(done + n), joined.answers) == heard.heard_all(
                all.take(done),
                run.answers,
            ).heard_all(frames.take(n), more.answers)
            &&& more.goes_on() ==> joined.goes_on()
            &&& forall|e: SodError| #[trigger] more.breaks_off(e) ==> joined.breaks_off(e)
        }),
{
    let left = msgs.drop_first();
    let done = all.len() - frames_in(msgs).len();
    let rest = frames_in(msgs);
    let n = more.answers.len() as int;
    let joined = run.join(more);
    assert(rest == frames + frames_in(left));
    assert forall|k: int| 0 <= k < rest.len() implies #[trigger] all[done + k] == rest[k] by {
        assert(all.skip(done)[k] == all[done + k]);
    }
    assert(all.take(done + n) =~= all.take(done) + frames.take(n)) by {
        assert forall|i: int| 0 <= i < done + n implies #[trigger] all.take(done + n)[i] == (
        all.take(done) + frames.take(n))[i] by {
            if i >= done {
                assert(all[done + (i - done)] == rest[i - done]);
            }
        }
    }
    assert(all.skip(done + frames.len()) =~= frames_in(left)) by {
        assert forall|k: int| 0 <= k < frames_in(left).len() implies #[trigger] all.skip(
            done + frames.len(),
        )[k] == frames_in(left)[k] by {
            assert(rest[frames.len() + k] == frames_in(left)[k]);
            assert(all[done + (frames.len() + k)] == rest[frames.len() + k]);
        }
    }
    law_runs_join(run, more, from, all.take(done), frames.take(n));
    lemma_heard_join(heard, all.take(done), frames.take(n), run.answers, more.answers);
    assert forall|k: int| 0 <= k < done implies !breaks(#[trigger] joined.answers[k]) by {
        assert(joined.answers[k] == run.answers[k]);
    }
    assert forall|k: int| done <= k < done + n implies #[trigger] joined.answers[k]
        == more.answers[k - done] by {}
}

/// Messages taken one after the other are one run: a run, and a run that starts
/// where it ends, make up the run of all their frames.
pub proof fn law_runs_join<E: Engine, L: LogStore>(
    run: Run<E, L>,
    more: Run<E, L>,
    from: Replica<E, L>,
    s: Seq<FrameView>,
    t: Seq<FrameView>,
)
    requires
        run.of(from, s),
        more.of(run.end(), t),
    ensures
        run.join(more).of(from, s + t),
        run.join(more).end() == more.end(),
{
    let joined = run.join(more);
    assert forall|k: int| 0 <= k < s.len() + t.len() implies #[trigger] joined.step(s + t, k) by {
        if k < s.len() {
            assert(run.step(s, k));
        } else {
            assert(more.step(t, k - s.len()));
        }
    }
}

proof fn lemma_heard_join(
    heard: SessionView,
    s: Seq<FrameView>,
    t: Seq<FrameView>,
    x: Seq<Result<bool, SodError>>,
    y: Seq<Result<bool, SodError>>,
)
    requires
        x.len() == s.len(),
        y.len() == t.len(),
    ensures
        heard.heard_all(s + t, x + y) == heard.heard_all(s, x).heard_all(t, y),
    decreases t.len(),
{
    if t.len() == 0 {
        assert(s + t =~= s);
        assert(x + y =~= x);
    } else {
        lemma_heard_join(heard, s, t.drop_last(), x, y.drop_last());
        assert((s + t).drop_last() =~= s + t.drop_last());
        assert((x + y).drop_last() =~= x + y.drop_last());
    }
}

} // verus!
