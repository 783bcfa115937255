//! What a session does to two replicas that no origin has told different
//! things: they converge.

use crate::engine::Engine;
use crate::frame::{FrameView, ReplicaId};
use crate::replica::{Arrival, Replica, ReplicaView};
use crate::store::LogStore;
use crate::sync::{Half, Run};
use vstd::prelude::*;

verus! {

/// The feed of `origin` that `mine` holds after a session with `theirs`: the
/// longer of the two, unless one of the replicas has poisoned it.
pub open spec fn merged_feed(mine: ReplicaView, theirs: ReplicaView, origin: ReplicaId) -> Seq<
    FrameView,
> {
    if mine.feed(origin).len() < theirs.feed(origin).len() && !theirs.poisoned.contains(origin)
        && !mine.poisoned.contains(origin) {
        theirs.feed(origin)
    } else {
        mine.feed(origin)
    }
}

/// The frames `from + 1` to `to` of a feed that the replica holds up to `from`
/// are accepted one by one.
proof fn lemma_run_is_accepted(h: Half, origin: ReplicaId, feed: Seq<FrameView>, from: int, to: int)
    requires
        h.replica.wf(),
        crate::feeds::is_chain(origin, feed),
        feed.len() <= u64::MAX,
        0 <= from <= to <= feed.len(),
        h.replica.feed(origin) == feed.take(from),
        !h.replica.poisoned.contains(origin),
    ensures
        ({
            let run = feed.subrange(from, to);
            let after = h.take_all(run);
            &&& h.smooth(run)
            &&& after.session == h.session
            &&& after.replica.wf()
            &&& after.replica.poisoned == h.replica.poisoned
            &&& after.replica.feed(origin) == feed.take(to)
            &&& forall|p: ReplicaId|
                p != origin ==> #[trigger] after.replica.feed(p) == h.replica.feed(p)
        }),
    decreases to - from,
{
    let run = feed.subrange(from, to);
    if from == to {
        assert(run =~= seq![]);
    } else {
        lemma_run_is_accepted(h, origin, feed, from, to - 1);
        let init = feed.subrange(from, to - 1);
        let f = feed[to - 1];
        let n = to - 1 - from;
        let before = h.take_all(init);
        assert(run.take(n) =~= init);
        assert(run.take(n + 1) =~= run);
        assert(run[n] == f);
        assert(crate::feeds::continues(feed.take(to - 1), f));
        assert(f.origin == origin);
        assert(before.replica.arrival(f) is Next);
        assert(h.arrival_at(run, n) is Next);
        crate::sync::lemma_take_one_more(h, run, n);
        reveal(Half::take);
        crate::replica::law_accept_extends(before.replica, f);
        assert(before.replica.accepted(f).feed(origin) =~= feed.take(to));
        assert forall|p: ReplicaId| p != origin implies #[trigger] before.replica.accepted(f).feed(
            p,
        ) == h.replica.feed(p) by {
            assert(before.replica.feed(p) == h.replica.feed(p));
        }
    }
}

/// The frames of a feed that the replica has poisoned are skipped one by one.
proof fn lemma_run_is_skipped(h: Half, origin: ReplicaId, run: Seq<FrameView>)
    requires
        h.replica.poisoned.contains(origin),
        forall|i: int|
            0 <= i < run.len() ==> (#[trigger] run[i]).origin == origin && run[i].seq != 0,
    ensures
        h.smooth(run),
        h.take_all(run).replica == h.replica,
    decreases run.len(),
{
    if run.len() > 0 {
        let init = run.drop_last();
        let n = run.len() - 1;
        lemma_run_is_skipped(h, origin, init);
        assert(run.take(n) =~= init);
        assert(run.take(n + 1) =~= run);
        assert(run[n].origin == origin);
        assert(h.arrival_at(run, n) is Poisoned);
        crate::sync::lemma_take_one_more(h, run, n);
        reveal(Half::take);
    }
}

spec fn listed_before(list: Seq<(ReplicaId, u64, u64)>, n: int, p: ReplicaId) -> bool {
    exists|j: int| 0 <= j < n && (#[trigger] list[j]).0 == p
}

spec fn merged_so_far(
    mine: ReplicaView,
    theirs: ReplicaView,
    list: Seq<(ReplicaId, u64, u64)>,
    n: int,
    p: ReplicaId,
) -> Seq<FrameView> {
    if listed_before(list, n, p) && !theirs.poisoned.contains(p) && !mine.poisoned.contains(p) {
        theirs.feed(p)
    } else {
        mine.feed(p)
    }
}

#[verifier::spinoff_prover]
#[verifier::rlimit(30)]
proof fn lemma_ranges_are_merged(
    h: Half,
    theirs: ReplicaView,
    list: Seq<(ReplicaId, u64, u64)>,
    n: int,
)
    requires
        h.replica.wf(),
        theirs.wf(),
        h.replica.compatible(theirs),
        crate::vector::lists_ahead(list, theirs.vector(), h.replica.vector()),
        0 <= n <= list.len(),
    ensures
        ({
            let frames = crate::sync::suffixes(theirs, list.take(n));
            let after = h.take_all(frames);
            &&& h.smooth(frames)
            &&& after.replica.wf()
            &&& after.replica.poisoned == h.replica.poisoned
            &&& h.replica.poisoned == Set::<ReplicaId>::empty() ==> after.session == h.session
            &&& forall|p: ReplicaId| #[trigger]
                after.replica.feed(p) == merged_so_far(h.replica, theirs, list, n, p)
        }),
    decreases n,
{
    let mine = h.replica;
    let frames = crate::sync::suffixes(theirs, list.take(n));
    if n == 0 {
        assert(list.take(0) =~= seq![]);
    } else {
        lemma_ranges_are_merged(h, theirs, list, n - 1);
        let init = crate::sync::suffixes(theirs, list.take(n - 1));
        let before = h.take_all(init);
        let (origin, low, high) = list[n - 1];
        assert(list.take(n).drop_last() =~= list.take(n - 1));
        assert(list.take(n).last() == list[n - 1]);
        crate::sync::lemma_held_is_length(mine, origin);
        crate::sync::lemma_held_is_length(theirs, origin);
        let feed = theirs.feed(origin);
        let run = if theirs.poisoned.contains(origin) {
            seq![]
        } else {
            feed.skip(low as int)
        };
        assert(frames == init + run);
        crate::sync::lemma_take_all_concat(h, init, run);
        assert(mine.feed(origin) =~= feed.take(low as int));
        assert(!listed_before(list, n - 1, origin)) by {
            if listed_before(list, n - 1, origin) {
                let j = choose|j: int| 0 <= j < n - 1 && (#[trigger] list[j]).0 == origin;
                assert(crate::ordmap::lex_lt(list[j].0.0@, list[n - 1].0.0@));
                crate::ordmap::lemma_lex_irreflexive(origin.0@);
            }
        }
        assert(before.replica.feed(origin) == mine.feed(origin));
        if theirs.poisoned.contains(origin) {
            assert(init + run =~= init);
        } else if mine.poisoned.contains(origin) {
            assert forall|i: int| 0 <= i < run.len() implies (#[trigger] run[i]).origin == origin
                && run[i].seq != 0 by {
                assert(run[i] == feed[low + i]);
            }
            lemma_run_is_skipped(before, origin, run);
        } else {
            assert(run =~= feed.subrange(low as int, feed.len() as int));
            lemma_run_is_accepted(before, origin, feed, low as int, feed.len() as int);
            assert(feed.take(feed.len() as int) =~= feed);
        }
        let after = h.take_all(frames);
        assert forall|p: ReplicaId| #[trigger] after.replica.feed(p) == merged_so_far(
            mine,
            theirs,
            list,
            n,
            p,
        ) by {
            assert(before.replica.feed(p) == merged_so_far(mine, theirs, list, n - 1, p));
            assert(listed_before(list, n, p) <==> listed_before(list, n - 1, p) || p == origin) by {
                if listed_before(list, n, p) {
                    let j = choose|j: int| 0 <= j < n && (#[trigger] list[j]).0 == p;
                    assert(j < n - 1 || p == origin);
                }
                if p == origin {
                    assert(list[n - 1].0 == p);
                }
            }
        }
    }
}

/// A session between replicas that no origin has told different things never
/// breaks off for the protocol's sake, poisons nothing, and leaves each origin's
/// feed at the longer of the two, but for feeds that one of them has poisoned.
pub proof fn law_session_merges(mine: ReplicaView, theirs: ReplicaView, schema: u32)
    requires
        mine.wf(),
        theirs.wf(),
        mine.compatible(theirs),
    ensures
        crate::sync::greeted(mine, theirs, schema).smooth(
            crate::sync::missing(theirs, mine.vector()),
        ),
        ({
            let after = crate::sync::met(mine, theirs, schema);
            &&& after.replica.wf()
            &&& after.replica.poisoned == mine.poisoned
            &&& mine.poisoned == Set::<ReplicaId>::empty() ==> after.session.skipped.len() == 0
            &&& forall|p: ReplicaId| #[trigger]
                after.replica.feed(p) == merged_feed(mine, theirs, p)
        }),
{
    let list = crate::vector::ahead(theirs.vector(), mine.vector());
    assert(theirs.vector().dom() =~= theirs.feeds.dom());
    crate::vector::lemma_ahead_exists(theirs.vector(), mine.vector());
    let start = crate::sync::greeted(mine, theirs, schema);
    let n = list.len() as int;
    assert(list.take(n) =~= list);
    lemma_ranges_are_merged(start, theirs, list, n);
    let after = crate::sync::met(mine, theirs, schema);
    assert forall|p: ReplicaId| #[trigger] after.replica.feed(p) == merged_feed(
        mine,
        theirs,
        p,
    ) by {
        assert(after.replica.feed(p) == merged_so_far(mine, theirs, list, n, p));
        crate::sync::lemma_held_is_length(mine, p);
        crate::sync::lemma_held_is_length(theirs, p);
        assert(listed_before(list, n, p) <==> mine.feed(p).len() < theirs.feed(p).len()) by {
            if listed_before(list, n, p) {
                let j = choose|j: int| 0 <= j < n && (#[trigger] list[j]).0 == p;
                let (id, low, high) = list[j];
                assert(low < high);
            }
            if mine.feed(p).len() < theirs.feed(p).len() {
                assert(crate::vector::held(theirs.vector(), p) > crate::vector::held(
                    mine.vector(),
                    p,
                ));
            }
        }
    }
}

/// Convergence by session: two replicas that no origin has told different things
/// lose nothing, and of every feed that neither has poisoned they hold the same
/// frames after a session. If they have poisoned nothing, they hold the same
/// feeds and the same vectors, and with engines in step the same multiset and the
/// same watermark. An engine in step stays so.
pub proof fn law_session_converges(a: ReplicaView, b: ReplicaView, schema: u32)
    requires
        a.wf(),
        b.wf(),
        a.compatible(b),
    ensures
        ({
            let after_a = crate::sync::met(a, b, schema).replica;
            let after_b = crate::sync::met(b, a, schema).replica;
            &&& gained(a, b, after_a)
            &&& gained(b, a, after_b)
            &&& a.in_step() ==> after_a.in_step()
            &&& b.in_step() ==> after_b.in_step()
            &&& forall|p: ReplicaId|
                !a.poisoned.contains(p) && !b.poisoned.contains(p) ==> #[trigger] after_a.feed(p)
                    == after_b.feed(p)
            &&& a.poisoned == Set::<ReplicaId>::empty() && b.poisoned == Set::<ReplicaId>::empty()
                ==> {
                &&& after_a.feeds == after_b.feeds
                &&& after_a.vector() == after_b.vector()
                &&& after_a.watermark == after_b.watermark
                &&& a.in_step() && b.in_step() ==> after_a.engine == after_b.engine
            }
        }),
{
    let (sent_a, sent_b) = (
        crate::sync::missing(b, a.vector()),
        crate::sync::missing(a, b.vector()),
    );
    assert(sent_a.take(sent_a.len() as int) =~= sent_a);
    assert(sent_b.take(sent_b.len() as int) =~= sent_b);
    assert(b.compatible(a));
    lemma_cut_gains(a, b, schema, sent_a.len() as int);
    lemma_cut_gains(b, a, schema, sent_b.len() as int);
    crate::sync::law_taking_only_adds(crate::sync::greeted(a, b, schema), sent_a);
    crate::sync::law_taking_only_adds(crate::sync::greeted(b, a, schema), sent_b);
    law_session_merges(a, b, schema);
    law_session_merges(b, a, schema);
    let after_a = crate::sync::met(a, b, schema).replica;
    let after_b = crate::sync::met(b, a, schema).replica;
    assert forall|p: ReplicaId|
        !a.poisoned.contains(p) && !b.poisoned.contains(p) implies #[trigger] after_a.feed(p)
        == after_b.feed(p) by {
        assert(after_b.feed(p) == merged_feed(b, a, p));
        if a.feed(p).len() == b.feed(p).len() {
            assert(a.feed(p) =~= b.feed(p));
        }
    }
    if a.poisoned == Set::<ReplicaId>::empty() && b.poisoned == Set::<ReplicaId>::empty() {
        assert forall|p: ReplicaId| #[trigger] after_a.feeds.contains_key(p)
            <==> after_b.feeds.contains_key(p) by {
            assert(after_a.feed(p) == after_b.feed(p));
        }
        assert forall|p: ReplicaId| #[trigger]
            after_a.feeds.contains_key(p) implies after_a.feeds[p] == after_b.feeds[p] by {
            assert(after_a.feed(p) == after_b.feed(p));
        }
        assert(after_a.feeds =~= after_b.feeds);
        crate::feeds::law_newest_is_determined(
            after_a.feeds,
            after_a.watermark,
            after_b.watermark,
        );
    }
}

/// Replicas whose vectors agree have nothing to send to each other.
pub proof fn law_agreeing_replicas_send_nothing(a: ReplicaView, b: ReplicaView)
    requires
        a.wf(),
        a.vector() == b.vector(),
    ensures
        crate::sync::missing(a, b.vector()) == Seq::<FrameView>::empty(),
{
    assert(a.vector().dom() =~= a.feeds.dom());
    crate::vector::lemma_ahead_exists(a.vector(), b.vector());
    let list = crate::vector::ahead(a.vector(), b.vector());
    if list.len() > 0 {
        let (id, low, high) = list[0];
        assert(low < high);
    }
}

/// `after` is `mine` with some of what `theirs` holds beyond it: of each origin
/// what `mine` held, or a longer part of what `theirs` holds.
pub open spec fn gained(mine: ReplicaView, theirs: ReplicaView, after: ReplicaView) -> bool {
    &&& after.wf()
    &&& after.id == mine.id
    &&& after.poisoned == mine.poisoned
    &&& forall|p: ReplicaId|
        #![trigger after.feed(p)]
        #![trigger mine.feed(p)]
        mine.feed(p).is_prefix_of(after.feed(p)) && (after.feed(p) == mine.feed(p)
            || after.feed(p).is_prefix_of(theirs.feed(p)))
}

proof fn lemma_gained_compatible(mine: ReplicaView, theirs: ReplicaView, after: ReplicaView)
    requires
        mine.compatible(theirs),
        gained(mine, theirs, after),
    ensures
        after.compatible(theirs),
{
    assert forall|p: ReplicaId|
        #![trigger after.feed(p)]
        #![trigger theirs.feed(p)]
        after.feed(p).is_prefix_of(theirs.feed(p)) || theirs.feed(p).is_prefix_of(after.feed(p)) by {
        assert(mine.feed(p).is_prefix_of(after.feed(p)));
    }
}

/// What a frame that a compatible replica holds is: never a conflict.
proof fn lemma_honest_arrival(now: ReplicaView, theirs: ReplicaView, origin: ReplicaId, i: int)
    requires
        now.wf(),
        theirs.wf(),
        now.compatible(theirs),
        0 <= i < theirs.feed(origin).len(),
    ensures
        ({
            let f = theirs.feed(origin)[i];
            &&& f.origin == origin
            &&& f.seq == i + 1
            &&& now.poisoned.contains(origin) ==> now.arrival(f) is Poisoned
            &&& !now.poisoned.contains(origin) ==> {
                &&& i < now.feed(origin).len() ==> now.arrival(f) is Duplicate
                &&& i == now.feed(origin).len() ==> now.arrival(f) is Next
                &&& i > now.feed(origin).len() ==> now.arrival(f) is Gap
            }
        }),
{
    let (feed, held) = (theirs.feed(origin), now.feed(origin));
    let f = feed[i];
    assert(theirs.feeds.contains_key(origin));
    assert(crate::feeds::continues(feed.take(i), f) && f.origin == origin);
    assert(held.is_prefix_of(feed) || feed.is_prefix_of(held));
    if i < held.len() {
        assert(held[i] == f);
    }
    if i == held.len() {
        assert(held =~= feed.take(i));
    }
}

proof fn lemma_gain_step(
    mine: ReplicaView,
    theirs: ReplicaView,
    now: ReplicaView,
    origin: ReplicaId,
    i: int,
    after: ReplicaView,
)
    requires
        theirs.wf(),
        mine.compatible(theirs),
        gained(mine, theirs, now),
        0 <= i < theirs.feed(origin).len(),
        after.wf(),
        ({
            let f = theirs.feed(origin)[i];
            ||| {
                &&& after.feeds == now.feeds
                &&& after.poisoned == now.poisoned
                &&& after.id == now.id
            }
            ||| now.arrival(f) is Next && after == now.accepted(f)
        }),
    ensures
        gained(mine, theirs, after),
{
    let (feed, held) = (theirs.feed(origin), now.feed(origin));
    let f = feed[i];
    lemma_gained_compatible(mine, theirs, now);
    lemma_honest_arrival(now, theirs, origin, i);
    assert forall|p: ReplicaId|
        #![trigger after.feed(p)]
        #![trigger mine.feed(p)]
        mine.feed(p).is_prefix_of(after.feed(p)) && (after.feed(p) == mine.feed(p)
            || after.feed(p).is_prefix_of(theirs.feed(p))) by {
        assert(mine.feed(p).is_prefix_of(now.feed(p)));
        if after.feeds != now.feeds && p == origin {
            assert(held.is_prefix_of(feed) || feed.is_prefix_of(held));
            assert(after.feed(p) =~= feed.take(i + 1));
            assert(after.feed(p) =~= feed.subrange(0, i + 1));
            assert(mine.feed(p) =~= after.feed(p).subrange(0, mine.feed(p).len() as int));
        } else {
            assert(after.feed(p) == now.feed(p));
        }
    }
}

/// The frames sent are the sender's.
proof fn lemma_sent_is_held(v: ReplicaView, list: Seq<(ReplicaId, u64, u64)>, k: int) -> (at: (
    ReplicaId,
    int,
))
    requires
        0 <= k < crate::sync::suffixes(v, list).len(),
        forall|j: int|
            0 <= j < list.len() ==> (#[trigger] list[j]).1 <= v.feed(list[j].0).len(),
    ensures
        0 <= at.1 < v.feed(at.0).len(),
        crate::sync::suffixes(v, list)[k] == v.feed(at.0)[at.1],
    decreases list.len(),
{
    let init = list.drop_last();
    let n = crate::sync::suffixes(v, init).len();
    let (origin, low, high) = list.last();
    assert(list[list.len() - 1].1 <= v.feed(origin).len());
    if k < n {
        assert forall|j: int| 0 <= j < init.len() implies (#[trigger] init[j]).1 <= v.feed(
            init[j].0,
        ).len() by {
            assert(list[j] == init[j]);
        }
        lemma_sent_is_held(v, init, k)
    } else {
        (origin, low + (k - n))
    }
}

/// Every frame that `theirs` sends to `mine` is one that it holds.
proof fn lemma_missing_is_held(theirs: ReplicaView, mine: ReplicaView, k: int) -> (at: (
    ReplicaId,
    int,
))
    requires
        theirs.wf(),
        0 <= k < crate::sync::missing(theirs, mine.vector()).len(),
    ensures
        0 <= at.1 < theirs.feed(at.0).len(),
        crate::sync::missing(theirs, mine.vector())[k] == theirs.feed(at.0)[at.1],
{
    let list = crate::vector::ahead(theirs.vector(), mine.vector());
    assert(theirs.vector().dom() =~= theirs.feeds.dom());
    crate::vector::lemma_ahead_exists(theirs.vector(), mine.vector());
    assert forall|j: int| 0 <= j < list.len() implies (#[trigger] list[j]).1 <= theirs.feed(
        list[j].0,
    ).len() by {
        crate::sync::lemma_held_is_length(theirs, list[j].0);
        let (id, low, high) = list[j];
        assert(low < high);
    }
    lemma_sent_is_held(theirs, list, k)
}

/// However far a session with a compatible peer got, and whether the log or the
/// engine failed on the way: the replica has lost nothing, has poisoned nothing,
/// and holds of each origin what it held or a longer part of what the peer holds. An
/// engine in step with the feeds stays so.
pub proof fn law_cut_run_gains<E: Engine, L: LogStore>(
    run: Run<E, L>,
    from: Replica<E, L>,
    theirs: ReplicaView,
    k: int,
)
    requires
        from.wf(),
        theirs.wf(),
        from@.compatible(theirs),
        0 <= k <= crate::sync::missing(theirs, from@.vector()).len(),
        run.of(from, crate::sync::missing(theirs, from@.vector()).take(k)),
    ensures
        gained(from@, theirs, run.end()@),
        run.end()@.compatible(theirs),
        from@.in_step() ==> run.end()@.in_step(),
    decreases k,
{
    crate::sync::law_run_only_adds(
        run,
        from,
        crate::sync::missing(theirs, from@.vector()).take(k),
    );
    let mine = from@;
    let all = crate::sync::missing(theirs, mine.vector());
    if k == 0 {
        assert forall|p: ReplicaId| #[trigger] mine.feed(p).is_prefix_of(mine.feed(p)) by {
            assert(mine.feed(p) =~= mine.feed(p).subrange(0, mine.feed(p).len() as int));
        }
    } else {
        let part = run.take(k - 1);
        let sent = all.take(k);
        assert(sent.take(k - 1) =~= all.take(k - 1));
        crate::sync::lemma_run_prefix(run, from, sent, k - 1);
        law_cut_run_gains(part, from, theirs, k - 1);
        let before = run.replicas[k - 1];
        assert(run.step(sent, k - 1));
        let (origin, i) = lemma_missing_is_held(theirs, mine, k - 1);
        lemma_honest_arrival(before@, theirs, origin, i);
        lemma_gain_step(mine, theirs, before@, origin, i, run.end()@);
    }
    lemma_gained_compatible(mine, theirs, run.end()@);
}

proof fn lemma_cut_gains(mine: ReplicaView, theirs: ReplicaView, schema: u32, k: int)
    requires
        mine.wf(),
        theirs.wf(),
        mine.compatible(theirs),
        0 <= k <= crate::sync::missing(theirs, mine.vector()).len(),
    ensures
        gained(
            mine,
            theirs,
            crate::sync::greeted(mine, theirs, schema).take_all(
                crate::sync::missing(theirs, mine.vector()).take(k),
            ).replica,
        ),
    decreases k,
{
    let start = crate::sync::greeted(mine, theirs, schema);
    let all = crate::sync::missing(theirs, mine.vector());
    if k == 0 {
        assert(all.take(0) =~= seq![]);
        assert forall|p: ReplicaId| #[trigger] mine.feed(p).is_prefix_of(mine.feed(p)) by {
            assert(mine.feed(p) =~= mine.feed(p).subrange(0, mine.feed(p).len() as int));
        }
    } else {
        lemma_cut_gains(mine, theirs, schema, k - 1);
        let before = start.take_all(all.take(k - 1));
        let after = start.take_all(all.take(k));
        crate::sync::lemma_take_one_more(start, all, k - 1);
        crate::sync::law_taking_only_adds(start, all.take(k));
        let (origin, i) = lemma_missing_is_held(theirs, mine, k - 1);
        lemma_gained_compatible(mine, theirs, before.replica);
        lemma_honest_arrival(before.replica, theirs, origin, i);
        assert(after == before.take(all[k - 1]));
        reveal(Half::take);
        lemma_gain_step(mine, theirs, before.replica, origin, i, after.replica);
    }
}

/// Taking `f` changes nothing: it is held, or its feed is poisoned.
#[verifier::opaque]
spec fn settled(v: ReplicaView, f: FrameView) -> bool {
    v.arrival(f) is Duplicate || v.arrival(f) is Poisoned
}

spec fn holds(v: ReplicaView, f: FrameView) -> bool {
    exists|o: ReplicaId, i: int|
        #![trigger v.feed(o)[i]]
        0 <= i < v.feed(o).len() && v.feed(o)[i] == f
}

/// What is taken does not depend on the session.
proof fn lemma_replica_alone(h: Half, g: Half, frames: Seq<FrameView>)
    requires
        h.replica == g.replica,
    ensures
        h.take_all(frames).replica == g.take_all(frames).replica,
    decreases frames.len(),
{
    if frames.len() > 0 {
        lemma_replica_alone(h, g, frames.drop_last());
        reveal(Half::take);
    }
}

proof fn lemma_settled_skipped(h: Half, frames: Seq<FrameView>)
    requires
        forall|x: int| 0 <= x < frames.len() ==> settled(h.replica, #[trigger] frames[x]),
    ensures
        h.take_all(frames).replica == h.replica,
    decreases frames.len(),
{
    if frames.len() > 0 {
        let init = frames.drop_last();
        assert forall|x: int| 0 <= x < init.len() implies settled(
            h.replica,
            #[trigger] init[x],
        ) by {
            assert(init[x] == frames[x]);
        }
        lemma_settled_skipped(h, init);
        assert(settled(h.replica, frames[frames.len() - 1]));
        reveal(Half::take);
        reveal(settled);
    }
}

/// A frame stays settled.
proof fn lemma_stays_settled(mine: ReplicaView, theirs: ReplicaView, now: ReplicaView, f: FrameView)
    requires
        mine.wf(),
        theirs.wf(),
        mine.compatible(theirs),
        gained(mine, theirs, now),
        holds(theirs, f),
        settled(mine, f),
    ensures
        settled(now, f),
{
    let (o, i) = choose|o: ReplicaId, i: int|
        #![trigger theirs.feed(o)[i]]
        0 <= i < theirs.feed(o).len() && theirs.feed(o)[i] == f;
    lemma_gained_compatible(mine, theirs, now);
    lemma_honest_arrival(mine, theirs, o, i);
    lemma_honest_arrival(now, theirs, o, i);
    assert(mine.feed(o).is_prefix_of(now.feed(o)));
    reveal(settled);
}

/// Whatever frames of a compatible replica's are taken, and in whatever order.
proof fn lemma_held_gains(h: Half, theirs: ReplicaView, frames: Seq<FrameView>)
    requires
        h.replica.wf(),
        theirs.wf(),
        h.replica.compatible(theirs),
        forall|x: int| 0 <= x < frames.len() ==> holds(theirs, #[trigger] frames[x]),
    ensures
        gained(h.replica, theirs, h.take_all(frames).replica),
    decreases frames.len(),
{
    let mine = h.replica;
    if frames.len() == 0 {
        assert forall|p: ReplicaId| #[trigger] mine.feed(p).is_prefix_of(mine.feed(p)) by {
            assert(mine.feed(p) =~= mine.feed(p).subrange(0, mine.feed(p).len() as int));
        }
    } else {
        let init = frames.drop_last();
        let f = frames.last();
        assert forall|x: int| 0 <= x < init.len() implies holds(theirs, #[trigger] init[x]) by {
            assert(init[x] == frames[x]);
        }
        lemma_held_gains(h, theirs, init);
        let before = h.take_all(init);
        let after = h.take_all(frames);
        crate::sync::law_taking_only_adds(h, frames);
        assert(holds(theirs, frames[frames.len() - 1]));
        let (o, i) = choose|o: ReplicaId, i: int|
            #![trigger theirs.feed(o)[i]]
            0 <= i < theirs.feed(o).len() && theirs.feed(o)[i] == f;
        lemma_gained_compatible(mine, theirs, before.replica);
        lemma_honest_arrival(before.replica, theirs, o, i);
        assert(after == before.take(f));
        reveal(Half::take);
        lemma_gain_step(mine, theirs, before.replica, o, i, after.replica);
    }
}

/// A frame of a compatible replica's that leaves no gap is settled once taken.
proof fn lemma_taken_is_settled(h: Half, theirs: ReplicaView, o: ReplicaId, i: int)
    requires
        h.replica.wf(),
        theirs.wf(),
        h.replica.compatible(theirs),
        0 <= i < theirs.feed(o).len(),
        !crate::sync::hard(h.replica.arrival(theirs.feed(o)[i])),
    ensures
        gained(h.replica, theirs, h.take(theirs.feed(o)[i]).replica),
        settled(h.take(theirs.feed(o)[i]).replica, theirs.feed(o)[i]),
{
    let f = theirs.feed(o)[i];
    let now = h.take(f).replica;
    let one = seq![f];
    lemma_honest_arrival(h.replica, theirs, o, i);
    assert forall|x: int| 0 <= x < one.len() implies holds(theirs, #[trigger] one[x]) by {
        assert(theirs.feed(o)[i] == one[x]);
    }
    lemma_held_gains(h, theirs, one);
    assert(one.drop_last() =~= seq![]);
    assert(h.take_all(one.drop_last()) == h);
    assert(h.take_all(one) == h.take(f));
    lemma_gained_compatible(h.replica, theirs, now);
    lemma_honest_arrival(now, theirs, o, i);
    reveal(Half::take);
    reveal(settled);
    if h.replica.arrival(f) is Next {
        assert(now.feed(o) =~= h.replica.feed(o).push(f));
    }
}

/// After the first `k` frames of a session each of them is settled.
#[verifier::spinoff_prover]
#[verifier::rlimit(30)]
proof fn lemma_cut_settles(mine: ReplicaView, theirs: ReplicaView, schema: u32, k: int)
    requires
        mine.wf(),
        theirs.wf(),
        mine.compatible(theirs),
        0 <= k <= crate::sync::missing(theirs, mine.vector()).len(),
    ensures
        ({
            let all = crate::sync::missing(theirs, mine.vector());
            let now = crate::sync::greeted(mine, theirs, schema).take_all(all.take(k)).replica;
            forall|x: int| 0 <= x < k ==> settled(now, #[trigger] all[x])
        }),
    decreases k,
{
    if k > 0 {
        let start = crate::sync::greeted(mine, theirs, schema);
        let all = crate::sync::missing(theirs, mine.vector());
        let before = start.take_all(all.take(k - 1));
        let now = start.take_all(all.take(k)).replica;
        lemma_cut_settles(mine, theirs, schema, k - 1);
        lemma_cut_gains(mine, theirs, schema, k - 1);
        lemma_gained_compatible(mine, theirs, before.replica);
        assert(now == before.take(all[k - 1]).replica) by {
            crate::sync::lemma_take_one_more(start, all, k - 1);
        }
        assert(!crate::sync::hard(before.replica.arrival(all[k - 1]))) by {
            law_session_merges(mine, theirs, schema);
            assert(!crate::sync::hard(start.arrival_at(all, k - 1)));
        }
        let (o, i) = lemma_missing_is_held(theirs, mine, k - 1);
        lemma_taken_is_settled(before, theirs, o, i);
        assert forall|x: int| 0 <= x < k implies settled(now, #[trigger] all[x]) by {
            if x < k - 1 {
                let (p, j) = lemma_missing_is_held(theirs, mine, x);
                assert(theirs.feed(p)[j] == all[x]);
                lemma_stays_settled(before.replica, theirs, now, all[x]);
            }
        }
    }
}

/// Once the first frames of a session were taken, taking all of them ends where
/// the session would have.
proof fn lemma_taken_again(mine: ReplicaView, theirs: ReplicaView, schema: u32, k: int, h: Half)
    requires
        mine.wf(),
        theirs.wf(),
        mine.compatible(theirs),
        0 <= k <= crate::sync::missing(theirs, mine.vector()).len(),
        h.replica == crate::sync::greeted(mine, theirs, schema).take_all(
            crate::sync::missing(theirs, mine.vector()).take(k),
        ).replica,
    ensures
        h.take_all(crate::sync::missing(theirs, mine.vector())).replica == crate::sync::met(
            mine,
            theirs,
            schema,
        ).replica,
{
    let start = crate::sync::greeted(mine, theirs, schema);
    let all = crate::sync::missing(theirs, mine.vector());
    let (head, tail) = (all.take(k), all.skip(k));
    assert(head + tail =~= all);
    lemma_cut_settles(mine, theirs, schema, k);
    assert forall|x: int| 0 <= x < head.len() implies settled(h.replica, #[trigger] head[x]) by {
        assert(head[x] == all[x]);
    }
    lemma_settled_skipped(h, head);
    crate::sync::lemma_take_all_concat(h, head, tail);
    crate::sync::lemma_take_all_concat(start, head, tail);
    lemma_replica_alone(h.take_all(head), start.take_all(head), tail);
}

/// How far the second of two lists of ranges has come when the first is at `i`.
spec fn abreast(
    list: Seq<(ReplicaId, u64, u64)>,
    again: Seq<(ReplicaId, u64, u64)>,
    i: int,
    j: int,
) -> bool {
    &&& 0 <= j <= again.len()
    &&& forall|x: int|
        0 <= x < again.len() ==> (x < j <==> listed_before(list, i, (#[trigger] again[x]).0))
}

/// What a replica sends anew, after a cut session, is what it sent at first but
/// for what has arrived.
#[verifier::spinoff_prover]
#[verifier::rlimit(30)]
proof fn lemma_sent_anew(
    h: Half,
    mine: ReplicaView,
    theirs: ReplicaView,
    other: ReplicaView,
    i: int,
) -> (j: int)
    requires
        mine.wf(),
        theirs.wf(),
        mine.compatible(theirs),
        gained(mine, theirs, h.replica),
        gained(theirs, mine, other),
        0 <= i <= crate::vector::ahead(theirs.vector(), mine.vector()).len(),
    ensures
        ({
            let list = crate::vector::ahead(theirs.vector(), mine.vector());
            let again = crate::vector::ahead(other.vector(), h.replica.vector());
            &&& abreast(list, again, i, j)
            &&& h.take_all(crate::sync::suffixes(theirs, list.take(i))).replica == h.take_all(
                crate::sync::suffixes(other, again.take(j)),
            ).replica
        }),
    decreases i,
{
    let now = h.replica;
    let list = crate::vector::ahead(theirs.vector(), mine.vector());
    let again = crate::vector::ahead(other.vector(), now.vector());
    lemma_lists(theirs, mine);
    lemma_lists(other, now);
    lemma_gained_compatible(mine, theirs, now);
    if i == 0 {
        assert(list.take(0) =~= seq![]);
        assert(again.take(0) =~= seq![]);
        0
    } else {
        let j = lemma_sent_anew(h, mine, theirs, other, i - 1);
        let (o, low, high) = list[i - 1];
        let feed = theirs.feed(o);
        let poisoned = theirs.poisoned.contains(o);
        let low1 = now.feed(o).len() as int;
        assert(mine.feed(o).is_prefix_of(now.feed(o)));
        assert(theirs.feed(o).is_prefix_of(other.feed(o)));
        assert(other.feed(o) == feed);
        assert(low <= low1 <= high);
        let before = h.take_all(crate::sync::suffixes(theirs, list.take(i - 1)));
        let before1 = h.take_all(crate::sync::suffixes(other, again.take(j)));
        lemma_suffixes_held(theirs, list, mine, i - 1);
        lemma_held_gains(h, theirs, crate::sync::suffixes(theirs, list.take(i - 1)));
        let c0 = if poisoned {
            seq![]
        } else {
            feed.skip(low as int)
        };
        let old_part = if poisoned {
            seq![]
        } else {
            feed.subrange(low as int, low1)
        };
        let c1 = if poisoned {
            seq![]
        } else {
            feed.skip(low1)
        };
        assert(c0 =~= old_part + c1);
        assert forall|x: int| 0 <= x < old_part.len() implies settled(
            before.replica,
            #[trigger] old_part[x],
        ) by {
            assert(old_part[x] == feed[low + x]);
            lemma_honest_arrival(now, theirs, o, low + x);
            assert(settled(now, old_part[x])) by {
                reveal(settled);
            }
            lemma_stays_settled(now, theirs, before.replica, old_part[x]);
        }
        lemma_settled_skipped(before, old_part);
        crate::sync::lemma_take_all_concat(before, old_part, c1);
        lemma_replica_alone(before.take_all(old_part), before1, c1);
        lemma_one_more_range(h, theirs, list, i - 1);
        assert(h.take_all(crate::sync::suffixes(theirs, list.take(i))).replica
            == before1.take_all(c1).replica);
        lemma_listed_one_more(list, i);
        if low1 < high {
            let x = choose|x: int| 0 <= x < again.len() && (#[trigger] again[x]).0 == o;
            assert(crate::vector::held(other.vector(), o) > crate::vector::held(now.vector(), o));
            assert(0 <= x < again.len() && again[x].0 == o);
            lemma_next_in_line(list, again, mine, theirs, other, now, i, j, x);
            lemma_one_more_range(h, other, again, j);
            lemma_abreast_step(list, again, other.vector(), now.vector(), i, j);
            j + 1
        } else {
            assert(c1 =~= seq![]);
            assert forall|x: int| 0 <= x < again.len() implies (x < j <==> listed_before(
                list,
                i,
                (#[trigger] again[x]).0,
            )) by {
                let (p, a, b) = again[x];
                assert(a < b);
                assert(p != o);
            }
            j
        }
    }
}

/// The ranges listed, in terms of the feeds.
proof fn lemma_lists(theirs: ReplicaView, mine: ReplicaView)
    requires
        theirs.wf(),
        mine.wf(),
    ensures
        ({
            let list = crate::vector::ahead(theirs.vector(), mine.vector());
            &&& crate::vector::lists_ahead(list, theirs.vector(), mine.vector())
            &&& forall|p: ReplicaId|
                #![trigger mine.feed(p)]
                crate::vector::held(mine.vector(), p) == mine.feed(p).len()
            &&& forall|p: ReplicaId|
                #![trigger theirs.feed(p)]
                crate::vector::held(theirs.vector(), p) == theirs.feed(p).len()
        }),
{
    assert(theirs.vector().dom() =~= theirs.feeds.dom());
    crate::vector::lemma_ahead_exists(theirs.vector(), mine.vector());
    assert forall|p: ReplicaId|
        #![trigger mine.feed(p)]
        crate::vector::held(mine.vector(), p) == mine.feed(p).len() by {
        crate::sync::lemma_held_is_length(mine, p);
    }
    assert forall|p: ReplicaId|
        #![trigger theirs.feed(p)]
        crate::vector::held(theirs.vector(), p) == theirs.feed(p).len() by {
        crate::sync::lemma_held_is_length(theirs, p);
    }
}

proof fn lemma_suffixes_held(
    theirs: ReplicaView,
    list: Seq<(ReplicaId, u64, u64)>,
    mine: ReplicaView,
    n: int,
)
    requires
        theirs.wf(),
        crate::vector::lists_ahead(list, theirs.vector(), mine.vector()),
        0 <= n <= list.len(),
    ensures
        ({
            let frames = crate::sync::suffixes(theirs, list.take(n));
            forall|x: int| 0 <= x < frames.len() ==> holds(theirs, #[trigger] frames[x])
        }),
{
    let part = list.take(n);
    let frames = crate::sync::suffixes(theirs, part);
    assert forall|j: int| 0 <= j < part.len() implies (#[trigger] part[j]).1 <= theirs.feed(
        part[j].0,
    ).len() by {
        crate::sync::lemma_held_is_length(theirs, list[j].0);
        let (id, low, high) = list[j];
        assert(low < high);
    }
    assert forall|x: int| 0 <= x < frames.len() implies holds(theirs, #[trigger] frames[x]) by {
        let (o, i) = lemma_sent_is_held(theirs, part, x);
        assert(theirs.feed(o)[i] == frames[x]);
    }
}

proof fn lemma_one_more_range(h: Half, v: ReplicaView, list: Seq<(ReplicaId, u64, u64)>, n: int)
    requires
        0 <= n < list.len(),
    ensures
        h.take_all(crate::sync::suffixes(v, list.take(n + 1))) == h.take_all(
            crate::sync::suffixes(v, list.take(n)),
        ).take_all(
            if v.poisoned.contains(list[n].0) {
                seq![]
            } else {
                v.feed(list[n].0).skip(list[n].1 as int)
            },
        ),
{
    assert(list.take(n + 1).drop_last() =~= list.take(n));
    assert(list.take(n + 1).last() == list[n]);
    let c = if v.poisoned.contains(list[n].0) {
        seq![]
    } else {
        v.feed(list[n].0).skip(list[n].1 as int)
    };
    crate::sync::lemma_take_all_concat(h, crate::sync::suffixes(v, list.take(n)), c);
}

proof fn lemma_listed_one_more(list: Seq<(ReplicaId, u64, u64)>, n: int)
    requires
        0 < n <= list.len(),
    ensures
        forall|p: ReplicaId| #[trigger]
            listed_before(list, n, p) <==> listed_before(list, n - 1, p) || p == list[n - 1].0,
{
    assert forall|p: ReplicaId| #[trigger]
        listed_before(list, n, p) <==> listed_before(list, n - 1, p) || p == list[n - 1].0 by {
        if listed_before(list, n, p) {
            let j = choose|j: int| 0 <= j < n && (#[trigger] list[j]).0 == p;
            assert(j < n - 1 || p == list[n - 1].0);
        }
        if p == list[n - 1].0 {
            assert(list[n - 1].0 == p);
        }
        if listed_before(list, n - 1, p) {
            let j = choose|j: int| 0 <= j < n - 1 && (#[trigger] list[j]).0 == p;
            assert(list[j].0 == p);
        }
    }
}

/// Both lists are in origin order, so the range of the first list's next origin
/// is the second list's next.
proof fn lemma_next_in_line(
    list: Seq<(ReplicaId, u64, u64)>,
    again: Seq<(ReplicaId, u64, u64)>,
    mine: ReplicaView,
    theirs: ReplicaView,
    other: ReplicaView,
    now: ReplicaView,
    i: int,
    j: int,
    x: int,
)
    requires
        mine.wf(),
        theirs.wf(),
        other.wf(),
        now.wf(),
        gained(mine, theirs, now),
        gained(theirs, mine, other),
        crate::vector::lists_ahead(list, theirs.vector(), mine.vector()),
        crate::vector::lists_ahead(again, other.vector(), now.vector()),
        0 < i <= list.len(),
        abreast(list, again, i - 1, j),
        0 <= x < again.len(),
        again[x].0 == list[i - 1].0,
    ensures
        x == j,
{
    let o = list[i - 1].0;
    if x < j {
        assert(listed_before(list, i - 1, again[x].0));
        let y = choose|y: int| 0 <= y < i - 1 && (#[trigger] list[y]).0 == o;
        assert(crate::ordmap::lex_lt(list[y].0.0@, list[i - 1].0.0@));
        crate::ordmap::lemma_lex_irreflexive(o.0@);
    }
    if x > j {
        let p = again[j].0;
        assert(crate::ordmap::lex_lt(again[j].0.0@, again[x].0.0@));
        let (id, low, high) = again[j];
        assert(low < high);
        lemma_lists(theirs, mine);
        lemma_lists(other, now);
        assert(mine.feed(p).is_prefix_of(now.feed(p)));
        assert(theirs.feed(p).is_prefix_of(other.feed(p)));
        assert(crate::vector::held(theirs.vector(), p) > crate::vector::held(mine.vector(), p));
        let y = choose|y: int| 0 <= y < list.len() && (#[trigger] list[y]).0 == p;
        assert(!listed_before(list, i - 1, p));
        if y < i - 1 {
            assert(listed_before(list, i - 1, p));
        } else if y == i - 1 {
            crate::ordmap::lemma_lex_irreflexive(o.0@);
        } else {
            assert(crate::ordmap::lex_lt(list[i - 1].0.0@, list[y].0.0@));
            crate::ordmap::lemma_lex_transitive(o.0@, p.0@, o.0@);
            crate::ordmap::lemma_lex_irreflexive(o.0@);
        }
    }
}

proof fn lemma_abreast_step(
    list: Seq<(ReplicaId, u64, u64)>,
    again: Seq<(ReplicaId, u64, u64)>,
    other: Map<ReplicaId, u64>,
    now: Map<ReplicaId, u64>,
    i: int,
    j: int,
)
    requires
        crate::vector::lists_ahead(again, other, now),
        0 < i <= list.len(),
        abreast(list, again, i - 1, j),
        j < again.len(),
        again[j].0 == list[i - 1].0,
    ensures
        abreast(list, again, i, j + 1),
{
    lemma_listed_one_more(list, i);
    assert forall|x: int| 0 <= x < again.len() implies (x < j + 1 <==> listed_before(
        list,
        i,
        (#[trigger] again[x]).0,
    )) by {
        if x != j && again[x].0 == again[j].0 {
            crate::ordmap::lemma_lex_irreflexive(again[j].0.0@);
            if x < j {
                assert(crate::ordmap::lex_lt(again[x].0.0@, again[j].0.0@));
            } else {
                assert(crate::ordmap::lex_lt(again[j].0.0@, again[x].0.0@));
            }
        }
    }
}

proof fn lemma_resume_side(
    mine: ReplicaView,
    theirs: ReplicaView,
    schema: u32,
    k: int,
    other: ReplicaView,
)
    requires
        mine.wf(),
        theirs.wf(),
        mine.compatible(theirs),
        gained(theirs, mine, other),
        0 <= k <= crate::sync::missing(theirs, mine.vector()).len(),
    ensures
        ({
            let now = crate::sync::greeted(mine, theirs, schema).take_all(
                crate::sync::missing(theirs, mine.vector()).take(k),
            ).replica;
            &&& gained(mine, theirs, now)
            &&& crate::sync::met(now, other, schema).replica == crate::sync::met(
                mine,
                theirs,
                schema,
            ).replica
        }),
{
    let now = crate::sync::greeted(mine, theirs, schema).take_all(
        crate::sync::missing(theirs, mine.vector()).take(k),
    ).replica;
    let h = crate::sync::greeted(now, other, schema);
    let list = crate::vector::ahead(theirs.vector(), mine.vector());
    let again = crate::vector::ahead(other.vector(), now.vector());
    lemma_cut_gains(mine, theirs, schema, k);
    lemma_taken_again(mine, theirs, schema, k, h);
    let n = list.len() as int;
    let j = lemma_sent_anew(h, mine, theirs, other, n);
    lemma_lists(theirs, mine);
    lemma_lists(other, now);
    if j < again.len() {
        let (p, low, high) = again[j];
        assert(low < high);
        assert(mine.feed(p).is_prefix_of(now.feed(p)));
        assert(theirs.feed(p).is_prefix_of(other.feed(p)));
        assert(crate::vector::held(theirs.vector(), p) > crate::vector::held(mine.vector(), p));
        let y = choose|y: int| 0 <= y < list.len() && (#[trigger] list[y]).0 == p;
        assert(list[y].0 == p);
        assert(listed_before(list, n, again[j].0));
    }
    assert(list.take(n) =~= list);
    assert(again.take(j) =~= again);
}

/// A session may be cut, on each side after any number of frames. Each replica is
/// well-formed, has lost nothing and has poisoned nothing; and the session, simply
/// run again, leaves both where it would have left them uncut, down to the order
/// of their logs.
pub proof fn law_interrupted_session_resumes(
    a: ReplicaView,
    b: ReplicaView,
    schema: u32,
    k: int,
    l: int,
)
    requires
        a.wf(),
        b.wf(),
        a.compatible(b),
        0 <= k <= crate::sync::missing(b, a.vector()).len(),
        0 <= l <= crate::sync::missing(a, b.vector()).len(),
    ensures
        ({
            let now_a = crate::sync::greeted(a, b, schema).take_all(
                crate::sync::missing(b, a.vector()).take(k),
            ).replica;
            let now_b = crate::sync::greeted(b, a, schema).take_all(
                crate::sync::missing(a, b.vector()).take(l),
            ).replica;
            &&& gained(a, b, now_a)
            &&& gained(b, a, now_b)
            &&& now_a.compatible(now_b)
            &&& a.in_step() ==> now_a.in_step()
            &&& b.in_step() ==> now_b.in_step()
            &&& crate::sync::met(now_a, now_b, schema).replica == crate::sync::met(
                a,
                b,
                schema,
            ).replica
            &&& crate::sync::met(now_b, now_a, schema).replica == crate::sync::met(
                b,
                a,
                schema,
            ).replica
        }),
{
    let now_a = crate::sync::greeted(a, b, schema).take_all(
        crate::sync::missing(b, a.vector()).take(k),
    ).replica;
    let now_b = crate::sync::greeted(b, a, schema).take_all(
        crate::sync::missing(a, b.vector()).take(l),
    ).replica;
    assert(b.compatible(a));
    lemma_cut_gains(a, b, schema, k);
    lemma_cut_gains(b, a, schema, l);
    crate::sync::law_taking_only_adds(
        crate::sync::greeted(a, b, schema),
        crate::sync::missing(b, a.vector()).take(k),
    );
    crate::sync::law_taking_only_adds(
        crate::sync::greeted(b, a, schema),
        crate::sync::missing(a, b.vector()).take(l),
    );
    lemma_resume_side(a, b, schema, k, now_b);
    lemma_resume_side(b, a, schema, l, now_a);
    assert forall|p: ReplicaId|
        #![trigger now_a.feed(p)]
        #![trigger now_b.feed(p)]
        now_a.feed(p).is_prefix_of(now_b.feed(p)) || now_b.feed(p).is_prefix_of(now_a.feed(p)) by {
        let (x, y) = (a.feed(p), b.feed(p));
        assert(x.is_prefix_of(now_a.feed(p)));
        assert(y.is_prefix_of(now_b.feed(p)));
        assert(x.is_prefix_of(y) || y.is_prefix_of(x));
        if now_a.feed(p).len() <= now_b.feed(p).len() {
            assert(now_a.feed(p) =~= now_b.feed(p).subrange(0, now_a.feed(p).len() as int));
        } else {
            assert(now_b.feed(p) =~= now_a.feed(p).subrange(0, now_b.feed(p).len() as int));
        }
    }
}

/// Relay: what `a` holds of an origin that nobody has poisoned reaches `c`
/// through `b`, though `a` and `c` never meet.
pub proof fn law_relay_carries_feeds(
    a: ReplicaView,
    b: ReplicaView,
    c: ReplicaView,
    schema: u32,
    origin: ReplicaId,
)
    requires
        a.wf(),
        b.wf(),
        c.wf(),
        b.compatible(a),
        c.compatible(crate::sync::met(b, a, schema).replica),
        !a.poisoned.contains(origin),
        !b.poisoned.contains(origin),
        !c.poisoned.contains(origin),
    ensures
        a.feed(origin).is_prefix_of(
            crate::sync::met(c, crate::sync::met(b, a, schema).replica, schema).replica.feed(
                origin,
            ),
        ),
{
    let via = crate::sync::met(b, a, schema).replica;
    law_session_merges(b, a, schema);
    law_session_merges(c, via, schema);
    let last = crate::sync::met(c, via, schema).replica;
    assert(via.feed(origin) == merged_feed(b, a, origin));
    assert(last.feed(origin) == merged_feed(c, via, origin));
    let (x, y, z) = (a.feed(origin), via.feed(origin), last.feed(origin));
    assert(b.feed(origin).is_prefix_of(x) || x.is_prefix_of(b.feed(origin)));
    assert(c.feed(origin).is_prefix_of(y) || y.is_prefix_of(c.feed(origin)));
    assert(x =~= y.subrange(0, x.len() as int));
    assert(y =~= z.subrange(0, y.len() as int));
    assert(x =~= z.subrange(0, x.len() as int));
}

} // verus!
