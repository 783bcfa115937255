//! Any number of replicas that commit, meet, and break off meeting: each keeps
//! holding, of every origin, a part of what the origin itself holds, so any two
//! of them can always meet.

use crate::engine::{Engine, EngineView};
use crate::frame::{FrameView, ReplicaId};
use crate::replica::{Replica, ReplicaView};
use crate::store::LogStore;
use crate::sync::Run;
use vstd::prelude::*;

verus! {

/// What the origin itself holds of its feed.
pub open spec fn own_feed(all: Map<ReplicaId, ReplicaView>, origin: ReplicaId) -> Seq<FrameView> {
    if all.contains_key(origin) {
        all[origin].feed(origin)
    } else {
        seq![]
    }
}

/// Each replica is filed under its id, has poisoned nothing, and holds, of every
/// origin, a part of what the origin itself holds.
pub open spec fn honest(all: Map<ReplicaId, ReplicaView>) -> bool {
    &&& forall|i: ReplicaId| #[trigger]
        all.contains_key(i) ==> {
            &&& all[i].id == i
            &&& all[i].wf()
            &&& all[i].poisoned == Set::<ReplicaId>::empty()
        }
    &&& forall|i: ReplicaId, o: ReplicaId|
        all.contains_key(i) ==> #[trigger] all[i].feed(o).is_prefix_of(own_feed(all, o))
}

/// What happens in a mesh.
pub enum Event {
    /// A replica with nothing committed joins.
    Join(ReplicaView),
    /// A replica commits a frame, the next of its own feed.
    Commit(ReplicaId, Seq<(Seq<u8>, i64)>, u64),
    /// Two replicas meet, and are left as they then are by a session completed or
    /// broken off.
    Meet(ReplicaId, ReplicaView, ReplicaId, ReplicaView),
}

impl Event {
    pub open spec fn possible(self, all: Map<ReplicaId, ReplicaView>) -> bool {
        match self {
            Event::Join(v) => {
                &&& !all.contains_key(v.id)
                &&& v.wf()
                &&& v.feeds == Map::<ReplicaId, Seq<FrameView>>::empty()
                &&& v.poisoned == Set::<ReplicaId>::empty()
            },
            Event::Commit(i, payload, event_time) => {
                &&& all.contains_key(i)
                &&& all[i].feed(i).len() < u64::MAX
            },
            Event::Meet(i, v, j, w) => {
                &&& i != j
                &&& all.contains_key(i)
                &&& all.contains_key(j)
                &&& crate::converge::gained(all[i], all[j], v)
                &&& crate::converge::gained(all[j], all[i], w)
            },
        }
    }

    /// The event leaves engines in step: a replica that joins has its engine in
    /// step, and one that meets another keeps its engine in step, as every session
    /// does, whether completed or broken off.
    pub open spec fn keeps_step(self, all: Map<ReplicaId, ReplicaView>) -> bool {
        match self {
            Event::Join(v) => v.in_step(),
            Event::Commit(..) => true,
            Event::Meet(i, v, j, w) => {
                &&& all[i].in_step() ==> v.in_step()
                &&& all[j].in_step() ==> w.in_step()
            },
        }
    }

    pub open spec fn outcome(self, all: Map<ReplicaId, ReplicaView>) -> Map<
        ReplicaId,
        ReplicaView,
    > {
        match self {
            Event::Join(v) => all.insert(v.id, v),
            Event::Commit(i, payload, event_time) => all.insert(
                i,
                all[i].accepted(all[i].next_frame(payload, event_time)),
            ),
            Event::Meet(i, v, j, w) => all.insert(i, v).insert(j, w),
        }
    }
}

/// After `events`, first to last, among no replicas at first.
pub open spec fn history(events: Seq<Event>) -> Map<ReplicaId, ReplicaView>
    decreases events.len(),
{
    if events.len() == 0 {
        Map::empty()
    } else {
        events.last().outcome(history(events.drop_last()))
    }
}

/// Each event was possible when it happened.
pub open spec fn lawful(events: Seq<Event>) -> bool
    decreases events.len(),
{
    events.len() > 0 ==> {
        &&& lawful(events.drop_last())
        &&& events.last().possible(history(events.drop_last()))
    }
}

/// Each event left engines in step.
pub open spec fn in_step_throughout(events: Seq<Event>) -> bool
    decreases events.len(),
{
    events.len() > 0 ==> {
        &&& in_step_throughout(events.drop_last())
        &&& events.last().keeps_step(history(events.drop_last()))
    }
}

/// Every engine is in step with its replica's feeds.
pub open spec fn steady(all: Map<ReplicaId, ReplicaView>) -> bool {
    forall|i: ReplicaId| #[trigger] all.contains_key(i) ==> all[i].in_step()
}

/// A replica opened on an empty log with an engine that was given nothing can
/// join, with its engine in step.
pub proof fn law_fresh_replica_joins(all: Map<ReplicaId, ReplicaView>, id: ReplicaId)
    requires
        !all.contains_key(id),
    ensures
        ({
            let v = ReplicaView::opened(id, seq![], EngineView::empty(), seq![]);
            Event::Join(v).possible(all) && Event::Join(v).keeps_step(all)
        }),
{
    let v = ReplicaView::opened(id, seq![], EngineView::empty(), seq![]);
    crate::replica::law_open_heals(id, seq![], EngineView::empty(), seq![]);
    assert(v.feeds =~= Map::<ReplicaId, Seq<FrameView>>::empty());
}

/// Two replicas of a mesh that run a session, each as far as it gets and whether or
/// not its log or its engine fails on the way, meet as an event of the mesh, and
/// engines in step stay so.
pub proof fn law_sessions_are_meetings<E1: Engine, L1: LogStore, E2: Engine, L2: LogStore>(
    all: Map<ReplicaId, ReplicaView>,
    a: Replica<E1, L1>,
    run_a: Run<E1, L1>,
    k: int,
    b: Replica<E2, L2>,
    run_b: Run<E2, L2>,
    l: int,
)
    requires
        honest(all),
        a.wf(),
        b.wf(),
        a@.id != b@.id,
        all.contains_key(a@.id) && all[a@.id] == a@,
        all.contains_key(b@.id) && all[b@.id] == b@,
        0 <= k <= crate::sync::missing(b@, a@.vector()).len(),
        run_a.of(a, crate::sync::missing(b@, a@.vector()).take(k)),
        0 <= l <= crate::sync::missing(a@, b@.vector()).len(),
        run_b.of(b, crate::sync::missing(a@, b@.vector()).take(l)),
    ensures
        ({
            let event = Event::Meet(a@.id, run_a.end()@, b@.id, run_b.end()@);
            event.possible(all) && event.keeps_step(all)
        }),
{
    law_honest_replicas_are_compatible(all, a@.id, b@.id);
    law_honest_replicas_are_compatible(all, b@.id, a@.id);
    crate::converge::law_cut_run_gains(run_a, a, b@, k);
    crate::converge::law_cut_run_gains(run_b, b, a@, l);
}

/// A history in which each event leaves engines in step ends with every engine in
/// step with its replica's feeds.
pub proof fn law_histories_stay_steady(events: Seq<Event>)
    requires
        lawful(events),
        in_step_throughout(events),
    ensures
        steady(history(events)),
    decreases events.len(),
{
    if events.len() > 0 {
        let init = events.drop_last();
        law_histories_stay_steady(init);
        law_histories_are_honest(init);
        let all = history(init);
        if let Event::Commit(c, payload, event_time) = events.last() {
            crate::replica::law_commit_is_next(all[c], payload, event_time);
            crate::replica::law_accept_keeps_step(
                all[c],
                all[c].next_frame(payload, event_time),
            );
        }
    }
}

/// Any two replicas of an honest mesh can meet: no origin has told them
/// different things.
pub proof fn law_honest_replicas_are_compatible(
    all: Map<ReplicaId, ReplicaView>,
    i: ReplicaId,
    j: ReplicaId,
)
    requires
        honest(all),
        all.contains_key(i),
        all.contains_key(j),
    ensures
        all[i].compatible(all[j]),
{
    let (v, w) = (all[i], all[j]);
    assert forall|o: ReplicaId|
        #![trigger v.feed(o)]
        #![trigger w.feed(o)]
        v.feed(o).is_prefix_of(w.feed(o)) || w.feed(o).is_prefix_of(v.feed(o)) by {
        let own = own_feed(all, o);
        assert(all[i].feed(o).is_prefix_of(own));
        assert(all[j].feed(o).is_prefix_of(own));
        if v.feed(o).len() <= w.feed(o).len() {
            assert(v.feed(o) =~= w.feed(o).subrange(0, v.feed(o).len() as int));
        } else {
            assert(w.feed(o) =~= v.feed(o).subrange(0, w.feed(o).len() as int));
        }
    }
}

proof fn lemma_prefix_of_longer<A>(s: Seq<A>, t: Seq<A>, u: Seq<A>)
    requires
        s.is_prefix_of(t),
        t.is_prefix_of(u),
    ensures
        s.is_prefix_of(u),
{
    assert(s =~= u.subrange(0, s.len() as int));
}

proof fn lemma_prefix_of_itself<A>(s: Seq<A>)
    ensures
        s.is_prefix_of(s),
{
    assert(s =~= s.subrange(0, s.len() as int));
}

/// Nobody's own feed shrinks when two replicas meet, nor does it grow.
proof fn lemma_meeting_keeps_own(
    all: Map<ReplicaId, ReplicaView>,
    i: ReplicaId,
    j: ReplicaId,
    v: ReplicaView,
)
    requires
        honest(all),
        all.contains_key(i),
        all.contains_key(j),
        crate::converge::gained(all[i], all[j], v),
    ensures
        v.feed(i) == all[i].feed(i),
        forall|o: ReplicaId| #[trigger] v.feed(o).is_prefix_of(own_feed(all, o)),
{
    assert(all[j].feed(i).is_prefix_of(own_feed(all, i)));
    assert(all[i].feed(i).is_prefix_of(v.feed(i)));
    assert(v.feed(i) =~= all[i].feed(i));
    assert forall|o: ReplicaId| #[trigger] v.feed(o).is_prefix_of(own_feed(all, o)) by {
        assert(all[i].feed(o).is_prefix_of(own_feed(all, o)));
        assert(all[j].feed(o).is_prefix_of(own_feed(all, o)));
        if v.feed(o) != all[i].feed(o) {
            lemma_prefix_of_longer(v.feed(o), all[j].feed(o), own_feed(all, o));
        }
    }
}

/// Joining, committing, meeting and breaking off a meeting keep a mesh honest.
pub proof fn law_events_keep_honest(all: Map<ReplicaId, ReplicaView>, event: Event)
    requires
        honest(all),
        event.possible(all),
    ensures
        honest(event.outcome(all)),
{
    let after = event.outcome(all);
    match event {
        Event::Join(v) => {
            assert forall|i: ReplicaId, o: ReplicaId|
                after.contains_key(i) implies #[trigger] after[i].feed(o).is_prefix_of(
                own_feed(after, o),
            ) by {
                lemma_prefix_of_itself(Seq::<FrameView>::empty());
                if i == v.id {
                    assert(after[i].feed(o) =~= Seq::<FrameView>::empty());
                    assert(after[i].feed(o) =~= own_feed(after, o).subrange(0, 0));
                } else {
                    assert(all[i].feed(o).is_prefix_of(own_feed(all, o)));
                    if o == v.id {
                        assert(own_feed(after, o) =~= own_feed(all, o));
                    }
                }
            }
        },
        Event::Commit(c, payload, event_time) => {
            let f = all[c].next_frame(payload, event_time);
            crate::replica::law_commit_is_next(all[c], payload, event_time);
            crate::replica::law_accept_extends(all[c], f);
            let w = all[c].accepted(f);
            assert forall|i: ReplicaId, o: ReplicaId|
                after.contains_key(i) implies #[trigger] after[i].feed(o).is_prefix_of(
                own_feed(after, o),
            ) by {
                assert(all.contains_key(i));
                assert(all[i].feed(o).is_prefix_of(own_feed(all, o)));
                assert(all[c].feed(o).is_prefix_of(w.feed(o)));
                if o == c {
                    lemma_prefix_of_itself(w.feed(c));
                    lemma_prefix_of_longer(all[i].feed(o), own_feed(all, o), w.feed(o));
                } else {
                    assert(w.feed(o) == all[c].feed(o));
                }
            }
        },
        Event::Meet(x, v, y, w) => {
            lemma_meeting_keeps_own(all, x, y, v);
            lemma_meeting_keeps_own(all, y, x, w);
            assert forall|o: ReplicaId| #[trigger] own_feed(after, o) == own_feed(all, o) by {}
            assert forall|i: ReplicaId, o: ReplicaId|
                after.contains_key(i) implies #[trigger] after[i].feed(o).is_prefix_of(
                own_feed(after, o),
            ) by {
                assert(own_feed(after, o) == own_feed(all, o));
                assert(v.feed(o).is_prefix_of(own_feed(all, o)));
                assert(w.feed(o).is_prefix_of(own_feed(all, o)));
                if i != x && i != y {
                    assert(all[i].feed(o).is_prefix_of(own_feed(all, o)));
                }
            }
        },
    }
}

/// In any history of joining, committing, meeting and breaking off, every replica
/// holds, of every origin, a part of what the origin itself holds, and any two
/// replicas can meet.
pub proof fn law_histories_are_honest(events: Seq<Event>)
    requires
        lawful(events),
    ensures
        honest(history(events)),
        forall|i: ReplicaId, j: ReplicaId|
            #![trigger history(events)[i], history(events)[j]]
            history(events).contains_key(i) && history(events).contains_key(j)
                ==> history(events)[i].compatible(history(events)[j]),
    decreases events.len(),
{
    if events.len() > 0 {
        law_histories_are_honest(events.drop_last());
        law_events_keep_honest(history(events.drop_last()), events.last());
    }
    let all = history(events);
    assert forall|i: ReplicaId, j: ReplicaId|
        #![trigger all[i], all[j]]
        all.contains_key(i) && all.contains_key(j) implies all[i].compatible(all[j]) by {
        law_honest_replicas_are_compatible(all, i, j);
    }
}

/// In any such history, replicas whose vectors are equal hold the same frames and
/// the same watermark, and, if each event left engines in step, the same multiset.
pub proof fn law_equal_vectors_equal_views(events: Seq<Event>, i: ReplicaId, j: ReplicaId)
    requires
        lawful(events),
        history(events).contains_key(i),
        history(events).contains_key(j),
        history(events)[i].vector() == history(events)[j].vector(),
    ensures
        ({
            let (v, w) = (history(events)[i], history(events)[j]);
            &&& v.feeds == w.feeds
            &&& v.watermark == w.watermark
            &&& v.in_step() && w.in_step() ==> v.engine == w.engine
            &&& in_step_throughout(events) ==> v.engine == w.engine
        }),
{
    law_histories_are_honest(events);
    if in_step_throughout(events) {
        law_histories_stay_steady(events);
    }
    let (v, w) = (history(events)[i], history(events)[j]);
    crate::replica::law_same_vectors_same_frames(v, w);
    crate::feeds::law_newest_is_determined(v.feeds, v.watermark, w.watermark);
}

/// After a complete session between `i` and `j`.
pub open spec fn after_session(
    all: Map<ReplicaId, ReplicaView>,
    i: ReplicaId,
    j: ReplicaId,
    schema: u32,
) -> Map<ReplicaId, ReplicaView> {
    all.insert(i, crate::sync::met(all[i], all[j], schema).replica).insert(
        j,
        crate::sync::met(all[j], all[i], schema).replica,
    )
}

/// After complete sessions of `hub` with each of `ids`, first to last.
pub open spec fn after_round(
    all: Map<ReplicaId, ReplicaView>,
    hub: ReplicaId,
    ids: Seq<ReplicaId>,
    schema: u32,
) -> Map<ReplicaId, ReplicaView>
    decreases ids.len(),
{
    if ids.len() == 0 {
        all
    } else {
        after_session(after_round(all, hub, ids.drop_last(), schema), hub, ids.last(), schema)
    }
}

/// `hub` and `ids` are replicas of the honest mesh `all`.
pub open spec fn star(
    all: Map<ReplicaId, ReplicaView>,
    hub: ReplicaId,
    ids: Seq<ReplicaId>,
) -> bool {
    &&& honest(all)
    &&& all.contains_key(hub)
    &&& forall|m: int|
        0 <= m < ids.len() ==> all.contains_key(#[trigger] ids[m]) && ids[m] != hub
}

proof fn lemma_after_session(
    all: Map<ReplicaId, ReplicaView>,
    i: ReplicaId,
    j: ReplicaId,
    schema: u32,
)
    requires
        honest(all),
        all.contains_key(i),
        all.contains_key(j),
        i != j,
    ensures
        ({
            let after = after_session(all, i, j, schema);
            &&& honest(after)
            &&& after.dom() == all.dom()
            &&& steady(all) ==> steady(after)
            &&& forall|p: ReplicaId|
                #![trigger after[i].feed(p)]
                #![trigger after[j].feed(p)]
                after[i].feed(p) == after[j].feed(p) && all[i].feed(p).is_prefix_of(
                    after[i].feed(p),
                )
            &&& forall|p: ReplicaId|
                #![trigger after[i].feed(p)]
                all[j].feed(p).is_prefix_of(all[i].feed(p)) ==> after[i].feed(p) == all[i].feed(p)
        }),
{
    let after = after_session(all, i, j, schema);
    let (v, w) = (all[i], all[j]);
    law_honest_replicas_are_compatible(all, i, j);
    law_honest_replicas_are_compatible(all, j, i);
    crate::converge::law_session_converges(v, w, schema);
    crate::converge::law_session_merges(v, w, schema);
    law_events_keep_honest(all, Event::Meet(i, after[i], j, after[j]));
    assert(Event::Meet(i, after[i], j, after[j]).outcome(all) =~= after);
    assert(after.dom() =~= all.dom());
    if steady(all) {
        crate::sync::law_taking_only_adds(
            crate::sync::greeted(v, w, schema),
            crate::sync::missing(w, v.vector()),
        );
        crate::sync::law_taking_only_adds(
            crate::sync::greeted(w, v, schema),
            crate::sync::missing(v, w.vector()),
        );
    }
    assert forall|p: ReplicaId|
        #![trigger after[i].feed(p)]
        all[j].feed(p).is_prefix_of(all[i].feed(p)) implies after[i].feed(p) == all[i].feed(p) by {
        assert(after[i].feed(p) == crate::converge::merged_feed(v, w, p));
    }
}

/// After a round the hub holds whatever a replica that it met holds.
proof fn lemma_first_round(
    all: Map<ReplicaId, ReplicaView>,
    hub: ReplicaId,
    ids: Seq<ReplicaId>,
    schema: u32,
)
    requires
        star(all, hub, ids),
    ensures
        ({
            let after = after_round(all, hub, ids, schema);
            &&& honest(after)
            &&& after.dom() == all.dom()
            &&& steady(all) ==> steady(after)
            &&& forall|m: int, p: ReplicaId|
                0 <= m < ids.len() ==> #[trigger] after[ids[m]].feed(p).is_prefix_of(
                    after[hub].feed(p),
                )
        }),
    decreases ids.len(),
{
    if ids.len() > 0 {
        let init = ids.drop_last();
        assert forall|m: int| 0 <= m < init.len() implies all.contains_key(#[trigger] init[m])
            && init[m] != hub by {
            assert(init[m] == ids[m]);
        }
        lemma_first_round(all, hub, init, schema);
        let before = after_round(all, hub, init, schema);
        let after = after_round(all, hub, ids, schema);
        let last = ids.last();
        assert(last == ids[ids.len() - 1]);
        assert(before.dom().contains(last) && before.dom().contains(hub));
        lemma_after_session(before, hub, last, schema);
        assert forall|m: int, p: ReplicaId| 0 <= m < ids.len() implies #[trigger] after[ids[m]].feed(
            p,
        ).is_prefix_of(after[hub].feed(p)) by {
            assert(before[hub].feed(p).is_prefix_of(after[hub].feed(p)));
            if ids[m] == last {
                assert(after[hub].feed(p) == after[last].feed(p));
                lemma_prefix_of_itself(after[hub].feed(p));
            } else {
                assert(init[m] == ids[m]);
                assert(before[init[m]].feed(p).is_prefix_of(before[hub].feed(p)));
                lemma_prefix_of_longer(
                    before[init[m]].feed(p),
                    before[hub].feed(p),
                    after[hub].feed(p),
                );
            }
        }
    }
}

/// Once the hub holds whatever the others hold, a round teaches them what it
/// holds.
proof fn lemma_second_round(
    all: Map<ReplicaId, ReplicaView>,
    hub: ReplicaId,
    ids: Seq<ReplicaId>,
    schema: u32,
    n: int,
)
    requires
        star(all, hub, ids),
        0 <= n <= ids.len(),
        forall|m: int, p: ReplicaId|
            0 <= m < ids.len() ==> #[trigger] all[ids[m]].feed(p).is_prefix_of(all[hub].feed(p)),
    ensures
        ({
            let after = after_round(all, hub, ids.take(n), schema);
            &&& honest(after)
            &&& after.dom() == all.dom()
            &&& steady(all) ==> steady(after)
            &&& forall|p: ReplicaId| #[trigger] after[hub].feed(p) == all[hub].feed(p)
            &&& forall|m: int, p: ReplicaId|
                0 <= m < n ==> #[trigger] after[ids[m]].feed(p) == all[hub].feed(p)
            &&& forall|m: int, p: ReplicaId|
                0 <= m < ids.len() ==> #[trigger] after[ids[m]].feed(p).is_prefix_of(
                    all[hub].feed(p),
                )
        }),
    decreases n,
{
    if n == 0 {
        assert(ids.take(0) =~= seq![]);
    } else {
        lemma_second_round(all, hub, ids, schema, n - 1);
        assert(ids.take(n).drop_last() =~= ids.take(n - 1));
        let before = after_round(all, hub, ids.take(n - 1), schema);
        let after = after_round(all, hub, ids.take(n), schema);
        let last = ids[n - 1];
        assert(ids.take(n).last() == last);
        assert(all.contains_key(last) && last != hub);
        assert(before.dom().contains(last) && before.dom().contains(hub));
        lemma_after_session(before, hub, last, schema);
        assert forall|p: ReplicaId| #[trigger] after[hub].feed(p) == all[hub].feed(p) by {
            assert(before[ids[n - 1]].feed(p).is_prefix_of(all[hub].feed(p)));
            assert(before[hub].feed(p) == all[hub].feed(p));
        }
        assert forall|m: int, p: ReplicaId| 0 <= m < n implies #[trigger] after[ids[m]].feed(p)
            == all[hub].feed(p) by {
            assert(after[hub].feed(p) == all[hub].feed(p));
            if ids[m] != last {
                assert(before[ids[m]].feed(p) == all[hub].feed(p));
            } else {
                assert(after[hub].feed(p) == after[last].feed(p));
            }
        }
        assert forall|m: int, p: ReplicaId| 0 <= m < ids.len() implies #[trigger] after[ids[m]].feed(
            p,
        ).is_prefix_of(all[hub].feed(p)) by {
            assert(after[hub].feed(p) == all[hub].feed(p));
            if ids[m] != last {
                assert(before[ids[m]].feed(p).is_prefix_of(all[hub].feed(p)));
            } else {
                assert(after[hub].feed(p) == after[last].feed(p));
                lemma_prefix_of_itself(all[hub].feed(p));
            }
        }
    }
}

/// Two rounds of sessions with a hub converge: whatever happened before, every
/// replica that took part then holds what the hub holds, with the same vector and
/// watermark, and with engines in step the same multiset. The first round teaches
/// the hub, the second relays what it has learned.
pub proof fn law_two_rounds_converge(
    all: Map<ReplicaId, ReplicaView>,
    hub: ReplicaId,
    ids: Seq<ReplicaId>,
    schema: u32,
    m: int,
)
    requires
        star(all, hub, ids),
        0 <= m < ids.len(),
    ensures
        ({
            let after = after_round(after_round(all, hub, ids, schema), hub, ids, schema);
            let (v, w) = (after[hub], after[ids[m]]);
            &&& honest(after)
            &&& v.feeds == w.feeds
            &&& v.vector() == w.vector()
            &&& v.watermark == w.watermark
            &&& steady(all) ==> v.engine == w.engine
            &&& forall|p: ReplicaId| #[trigger] all[ids[m]].feed(p).is_prefix_of(v.feed(p))
        }),
{
    let once = after_round(all, hub, ids, schema);
    let after = after_round(once, hub, ids, schema);
    lemma_first_round(all, hub, ids, schema);
    lemma_rounds_only_add(all, hub, ids, schema, ids[m]);
    assert(once.dom().contains(hub));
    assert forall|k: int| 0 <= k < ids.len() implies once.contains_key(#[trigger] ids[k])
        && ids[k] != hub by {
        assert(all.contains_key(ids[k]));
        assert(once.dom().contains(ids[k]));
    }
    lemma_second_round(once, hub, ids, schema, ids.len() as int);
    assert(ids.take(ids.len() as int) =~= ids);
    let (v, w) = (after[hub], after[ids[m]]);
    assert(after.dom().contains(hub) && after.dom().contains(ids[m])) by {
        assert(once.contains_key(ids[m]));
    }
    assert(after.contains_key(hub) && after.contains_key(ids[m]));
    assert forall|p: ReplicaId| v.feed(p) == #[trigger] w.feed(p) by {
        assert(after[ids[m]].feed(p) == once[hub].feed(p));
        assert(after[hub].feed(p) == once[hub].feed(p));
    }
    assert forall|p: ReplicaId| #[trigger] v.feeds.contains_key(p) <==> w.feeds.contains_key(p) by {
        assert(v.feed(p) == w.feed(p));
    }
    assert forall|p: ReplicaId| #[trigger] v.feeds.contains_key(p) implies v.feeds[p]
        == w.feeds[p] by {
        assert(v.feed(p) == w.feed(p));
    }
    assert(v.feeds =~= w.feeds);
    crate::feeds::law_newest_is_determined(v.feeds, v.watermark, w.watermark);
    assert forall|p: ReplicaId| #[trigger] all[ids[m]].feed(p).is_prefix_of(v.feed(p)) by {
        assert(all[ids[m]].feed(p).is_prefix_of(once[ids[m]].feed(p)));
        assert(once[ids[m]].feed(p).is_prefix_of(once[hub].feed(p)));
        assert(after[hub].feed(p) == once[hub].feed(p));
        lemma_prefix_of_longer(all[ids[m]].feed(p), once[ids[m]].feed(p), v.feed(p));
    }
}

/// Nobody loses a frame in a round.
proof fn lemma_rounds_only_add(
    all: Map<ReplicaId, ReplicaView>,
    hub: ReplicaId,
    ids: Seq<ReplicaId>,
    schema: u32,
    i: ReplicaId,
)
    requires
        star(all, hub, ids),
        all.contains_key(i),
    ensures
        forall|p: ReplicaId| #[trigger]
            all[i].feed(p).is_prefix_of(after_round(all, hub, ids, schema)[i].feed(p)),
    decreases ids.len(),
{
    if ids.len() == 0 {
        assert forall|p: ReplicaId| #[trigger] all[i].feed(p).is_prefix_of(all[i].feed(p)) by {
            lemma_prefix_of_itself(all[i].feed(p));
        }
    } else {
        let init = ids.drop_last();
        assert forall|m: int| 0 <= m < init.len() implies all.contains_key(#[trigger] init[m])
            && init[m] != hub by {
            assert(init[m] == ids[m]);
        }
        lemma_rounds_only_add(all, hub, init, schema, i);
        lemma_first_round(all, hub, init, schema);
        let before = after_round(all, hub, init, schema);
        let after = after_round(all, hub, ids, schema);
        let last = ids.last();
        assert(last == ids[ids.len() - 1]);
        assert(before.dom().contains(last) && before.dom().contains(hub));
        lemma_after_session(before, hub, last, schema);
        law_honest_replicas_are_compatible(before, last, hub);
        crate::converge::law_session_converges(before[last], before[hub], schema);
        assert forall|p: ReplicaId| #[trigger] all[i].feed(p).is_prefix_of(after[i].feed(p)) by {
            assert(all[i].feed(p).is_prefix_of(before[i].feed(p)));
            assert(before[hub].feed(p).is_prefix_of(after[hub].feed(p)));
            assert(before[last].feed(p).is_prefix_of(after[last].feed(p)));
            if i == hub || i == last {
                lemma_prefix_of_longer(all[i].feed(p), before[i].feed(p), after[i].feed(p));
            }
        }
    }
}

} // verus!
