//! The feeds of a replica as mathematics: hash chains, the log they are rebuilt
//! from, and the multiset they add up to.

use crate::engine::EngineView;
use crate::frame::{FrameHash, FrameView, ReplicaId};
use vstd::prelude::*;

verus! {

/// The feed of `origin`; empty if the origin is unknown.
pub open spec fn feed_of(feeds: Map<ReplicaId, Seq<FrameView>>, origin: ReplicaId) -> Seq<
    FrameView,
> {
    if feeds.contains_key(origin) {
        feeds[origin]
    } else {
        seq![]
    }
}

/// The hash of a feed's last frame; all zeros if there is none.
pub open spec fn head_hash(feed: Seq<FrameView>) -> FrameHash {
    if feed.len() == 0 {
        FrameHash::zero()
    } else {
        feed.last().hash()
    }
}

/// `f` is the next frame of `feed`: its seq is contiguous and it carries the
/// hash of its predecessor.
pub open spec fn continues(feed: Seq<FrameView>, f: FrameView) -> bool {
    f.seq == feed.len() + 1 && f.prev_hash == head_hash(feed)
}

/// `feed` is a contiguous hash chain of frames from `origin`.
pub open spec fn is_chain(origin: ReplicaId, feed: Seq<FrameView>) -> bool {
    forall|i: int|
        0 <= i < feed.len() ==> (#[trigger] feed[i]).origin == origin && continues(
            feed.take(i),
            feed[i],
        )
}

/// Finitely many origins, each with a chain that is not empty.
pub open spec fn well_formed(feeds: Map<ReplicaId, Seq<FrameView>>) -> bool {
    &&& feeds.dom().finite()
    &&& forall|o: ReplicaId| #[trigger]
        feeds.contains_key(o) ==> 0 < feeds[o].len() <= u64::MAX && is_chain(o, feeds[o])
}

/// How many frames are held of each origin.
pub open spec fn lengths(feeds: Map<ReplicaId, Seq<FrameView>>) -> Map<ReplicaId, u64> {
    feeds.map_values(|feed: Seq<FrameView>| feed.len() as u64)
}

/// The feeds with `f` added at the end of its origin's.
pub open spec fn grown(feeds: Map<ReplicaId, Seq<FrameView>>, f: FrameView) -> Map<
    ReplicaId,
    Seq<FrameView>,
> {
    feeds.insert(f.origin, feed_of(feeds, f.origin).push(f))
}

pub open spec fn later(a: u64, b: u64) -> u64 {
    if a < b {
        b
    } else {
        a
    }
}

/// `w` is the greatest event time of the frames in `feeds`, 0 if there is none.
pub open spec fn is_newest(feeds: Map<ReplicaId, Seq<FrameView>>, w: u64) -> bool {
    &&& forall|o: ReplicaId, i: int|
        feeds.contains_key(o) && 0 <= i < feeds[o].len() ==> (#[trigger] feeds[o][i]).event_time
            <= w
    &&& w == 0 || exists|o: ReplicaId, i: int|
        feeds.contains_key(o) && 0 <= i < feeds[o].len() && (#[trigger] feeds[o][i]).event_time == w
}

/// Each feed of `a` is a prefix of the same origin's feed in `b`.
pub open spec fn prefixed(
    a: Map<ReplicaId, Seq<FrameView>>,
    b: Map<ReplicaId, Seq<FrameView>>,
) -> bool {
    forall|o: ReplicaId| #[trigger] feed_of(a, o).is_prefix_of(feed_of(b, o))
}

pub proof fn lemma_prefixed_reflexive(a: Map<ReplicaId, Seq<FrameView>>)
    ensures
        prefixed(a, a),
{
    assert forall|o: ReplicaId| #[trigger] feed_of(a, o).is_prefix_of(feed_of(a, o)) by {
        assert(feed_of(a, o) =~= feed_of(a, o).subrange(0, feed_of(a, o).len() as int));
    }
}

pub proof fn lemma_prefixed_transitive(
    a: Map<ReplicaId, Seq<FrameView>>,
    b: Map<ReplicaId, Seq<FrameView>>,
    c: Map<ReplicaId, Seq<FrameView>>,
)
    requires
        prefixed(a, b),
        prefixed(b, c),
    ensures
        prefixed(a, c),
{
    assert forall|o: ReplicaId| #[trigger] feed_of(a, o).is_prefix_of(feed_of(c, o)) by {
        assert(feed_of(a, o).is_prefix_of(feed_of(b, o)));
        assert(feed_of(b, o).is_prefix_of(feed_of(c, o)));
        assert(feed_of(a, o) =~= feed_of(c, o).subrange(0, feed_of(a, o).len() as int));
    }
}

// The multiset.

/// The sum of the multiplicities that the frames of `feed` give to `d`.
pub open spec fn feed_sum(feed: Seq<FrameView>, d: Seq<u8>) -> int
    decreases feed.len(),
{
    if feed.len() == 0 {
        0
    } else {
        feed_sum(feed.drop_last(), d) + crate::zset::total(feed.last().payload, d)
    }
}

/// The sum of the multiplicities that the feeds of `origins` give to `d`.
pub open spec fn sum_over(
    feeds: Map<ReplicaId, Seq<FrameView>>,
    origins: Set<ReplicaId>,
    d: Seq<u8>,
) -> int
    decreases origins.len(),
    when origins.finite()
{
    if origins.len() == 0 {
        0
    } else {
        let o = origins.choose();
        feed_sum(feed_of(feeds, o), d) + sum_over(feeds, origins.remove(o), d)
    }
}

/// The net multiset of all frames in `feeds`.
pub open spec fn net(feeds: Map<ReplicaId, Seq<FrameView>>) -> Map<Seq<u8>, i64> {
    crate::zset::zset_of(|d: Seq<u8>| sum_over(feeds, feeds.dom(), d))
}

pub proof fn lemma_sum_without(
    feeds: Map<ReplicaId, Seq<FrameView>>,
    origins: Set<ReplicaId>,
    o: ReplicaId,
    d: Seq<u8>,
)
    requires
        origins.finite(),
        origins.contains(o),
    ensures
        sum_over(feeds, origins, d) == feed_sum(feed_of(feeds, o), d) + sum_over(
            feeds,
            origins.remove(o),
            d,
        ),
    decreases origins.len(),
{
    let c = origins.choose();
    if c != o {
        lemma_sum_without(feeds, origins.remove(c), o, d);
        lemma_sum_without(feeds, origins.remove(o), c, d);
        assert(origins.remove(c).remove(o) =~= origins.remove(o).remove(c));
    }
}

pub proof fn lemma_sum_same(
    a: Map<ReplicaId, Seq<FrameView>>,
    b: Map<ReplicaId, Seq<FrameView>>,
    origins: Set<ReplicaId>,
    d: Seq<u8>,
)
    requires
        origins.finite(),
        forall|o: ReplicaId| origins.contains(o) ==> #[trigger] feed_of(a, o) == feed_of(b, o),
    ensures
        sum_over(a, origins, d) == sum_over(b, origins, d),
    decreases origins.len(),
{
    if origins.len() > 0 {
        let o = origins.choose();
        assert(feed_of(a, o) == feed_of(b, o));
        lemma_sum_same(a, b, origins.remove(o), d);
    }
}

/// Adding a frame to a feed adds its deltas to the sums.
pub proof fn lemma_sum_pushed(
    a: Map<ReplicaId, Seq<FrameView>>,
    b: Map<ReplicaId, Seq<FrameView>>,
    f: FrameView,
    d: Seq<u8>,
)
    requires
        a.dom().finite(),
        b.dom() == a.dom().insert(f.origin),
        feed_of(b, f.origin) == feed_of(a, f.origin).push(f),
        forall|o: ReplicaId| o != f.origin ==> #[trigger] feed_of(a, o) == feed_of(b, o),
    ensures
        sum_over(b, b.dom(), d) == sum_over(a, a.dom(), d) + crate::zset::total(f.payload, d),
{
    let rest = a.dom().remove(f.origin);
    assert(b.dom().remove(f.origin) =~= rest);
    lemma_sum_without(b, b.dom(), f.origin, d);
    lemma_sum_same(a, b, rest, d);
    let feed = feed_of(b, f.origin);
    assert(feed.drop_last() =~= feed_of(a, f.origin));
    assert(feed.last() == f);
    assert(feed_sum(feed, d) == feed_sum(feed_of(a, f.origin), d) + crate::zset::total(
        f.payload,
        d,
    ));
    if a.contains_key(f.origin) {
        lemma_sum_without(a, a.dom(), f.origin, d);
    } else {
        assert(rest =~= a.dom());
    }
}

pub proof fn lemma_net_pushed(
    a: Map<ReplicaId, Seq<FrameView>>,
    b: Map<ReplicaId, Seq<FrameView>>,
    f: FrameView,
)
    requires
        a.dom().finite(),
        b.dom() == a.dom().insert(f.origin),
        feed_of(b, f.origin) == feed_of(a, f.origin).push(f),
        forall|o: ReplicaId| o != f.origin ==> #[trigger] feed_of(a, o) == feed_of(b, o),
    ensures
        crate::zset::zero_free(net(a)),
        net(b) == crate::zset::add_deltas(net(a), f.payload),
{
    let before = |d: Seq<u8>| sum_over(a, a.dom(), d);
    let after = |d: Seq<u8>| sum_over(b, b.dom(), d);
    assert forall|d: Seq<u8>| #[trigger] after(d) == before(d) + crate::zset::total(
        f.payload,
        d,
    ) by {
        lemma_sum_pushed(a, b, f, d);
    }
    crate::zset::lemma_add_to_zset_of(before, f.payload, after);
}

/// The net multiset of the feeds with a frame added is the net multiset with
/// its deltas added: which frame came when does not matter.
pub proof fn law_net_of_grown(feeds: Map<ReplicaId, Seq<FrameView>>, f: FrameView)
    requires
        feeds.dom().finite(),
    ensures
        net(grown(feeds, f)) == crate::zset::add_deltas(net(feeds), f.payload),
{
    assert(grown(feeds, f).dom() =~= feeds.dom().insert(f.origin));
    lemma_net_pushed(feeds, grown(feeds, f), f);
}

// Growth.

pub proof fn lemma_grown(feeds: Map<ReplicaId, Seq<FrameView>>, f: FrameView, w: u64)
    requires
        well_formed(feeds),
        is_newest(feeds, w),
        continues(feed_of(feeds, f.origin), f),
    ensures
        well_formed(grown(feeds, f)),
        is_newest(grown(feeds, f), later(w, f.event_time)),
        lengths(grown(feeds, f)) == lengths(feeds).insert(f.origin, f.seq),
        prefixed(feeds, grown(feeds, f)),
{
    let after = grown(feeds, f);
    let feed = feed_of(feeds, f.origin);
    let more = feed.push(f);
    assert(is_chain(f.origin, more)) by {
        assert forall|i: int| 0 <= i < more.len() implies (#[trigger] more[i]).origin == f.origin
            && continues(more.take(i), more[i]) by {
            if i < feed.len() {
                assert(more.take(i) =~= feed.take(i));
                assert(more[i] == feed[i]);
            } else {
                assert(more.take(i) =~= feed);
            }
        }
    }
    assert(after.dom() =~= feeds.dom().insert(f.origin));
    assert(well_formed(after));
    let v = later(w, f.event_time);
    assert(is_newest(after, v)) by {
        assert forall|o: ReplicaId, i: int|
            after.contains_key(o) && 0 <= i < after[o].len() implies (
        #[trigger] after[o][i]).event_time <= v by {
            if o == f.origin {
                if i < feed.len() {
                    assert(after[o][i] == feeds[o][i]);
                }
            } else {
                assert(after[o][i] == feeds[o][i]);
            }
        }
        if v == f.event_time {
            assert(after[f.origin][feed.len() as int].event_time == v);
        } else if v != 0 {
            let (o, i) = choose|o: ReplicaId, i: int|
                feeds.contains_key(o) && 0 <= i < feeds[o].len() && (
                #[trigger] feeds[o][i]).event_time == w;
            assert(after[o][i] == feeds[o][i]);
        }
    }
    assert(lengths(after) =~= lengths(feeds).insert(f.origin, f.seq));
    assert forall|o: ReplicaId| #[trigger] feed_of(feeds, o).is_prefix_of(feed_of(after, o)) by {
        if o == f.origin {
            assert(feed_of(feeds, o) =~= more.subrange(0, feed.len() as int));
        } else {
            assert(feed_of(feeds, o) =~= feed_of(after, o).subrange(
                0,
                feed_of(feeds, o).len() as int,
            ));
        }
    }
}

/// The watermark is time as data: the later of two times is commutative,
/// associative and idempotent, and never goes back.
pub proof fn law_later_is_max(a: u64, b: u64, c: u64)
    ensures
        later(a, b) == later(b, a),
        later(later(a, b), c) == later(a, later(b, c)),
        later(a, a) == a,
        a <= later(a, b),
{
}

/// The greatest event time is determined by the frames held.
pub proof fn law_newest_is_determined(feeds: Map<ReplicaId, Seq<FrameView>>, v: u64, w: u64)
    requires
        is_newest(feeds, v),
        is_newest(feeds, w),
    ensures
        v == w,
{
    if v != 0 {
        let (o, i) = choose|o: ReplicaId, i: int|
            feeds.contains_key(o) && 0 <= i < feeds[o].len() && (#[trigger] feeds[o][i]).event_time
                == v;
        assert(feeds[o][i].event_time <= w);
    }
    if w != 0 {
        let (o, i) = choose|o: ReplicaId, i: int|
            feeds.contains_key(o) && 0 <= i < feeds[o].len() && (#[trigger] feeds[o][i]).event_time
                == w;
        assert(feeds[o][i].event_time <= v);
    }
}

/// A head hash vouches for the whole feed: two chains of one origin with the
/// same length and the same head hash are the same, unless two of their frames
/// collide in the hash.
pub proof fn law_head_hash_identifies_feed(
    origin: ReplicaId,
    a: Seq<FrameView>,
    b: Seq<FrameView>,
)
    requires
        is_chain(origin, a),
        is_chain(origin, b),
        a.len() == b.len(),
        head_hash(a) == head_hash(b),
        forall|i: int|
            0 <= i < a.len() && (#[trigger] a[i]).hash() == b[i].hash() ==> a[i] == b[i],
    ensures
        a == b,
    decreases a.len(),
{
    if a.len() > 0 {
        let n = a.len() - 1;
        assert(a[n] == b[n]);
        let (c, d) = (a.take(n), b.take(n));
        assert(continues(c, a[n]) && continues(d, b[n]));
        assert(is_chain(origin, c)) by {
            assert forall|i: int| 0 <= i < c.len() implies (#[trigger] c[i]).origin == origin
                && continues(c.take(i), c[i]) by {
                assert(c[i] == a[i]);
                assert(c.take(i) =~= a.take(i));
            }
        }
        assert(is_chain(origin, d)) by {
            assert forall|i: int| 0 <= i < d.len() implies (#[trigger] d[i]).origin == origin
                && continues(d.take(i), d[i]) by {
                assert(d[i] == b[i]);
                assert(d.take(i) =~= b.take(i));
            }
        }
        assert forall|i: int| 0 <= i < c.len() && (#[trigger] c[i]).hash()
            == d[i].hash() implies c[i] == d[i] by {
            assert(c[i] == a[i] && d[i] == b[i]);
        }
        law_head_hash_identifies_feed(origin, c, d);
        assert(a =~= c.push(a[n]));
        assert(b =~= d.push(b[n]));
    } else {
        assert(a =~= b);
    }
}

// The log.

/// What is wrong with a log that does not rebuild to chains.
pub enum Fault {
    NotContiguous,
    ChainBroken,
}

/// The feeds of the frames of `log`.
pub open spec fn log_feeds(log: Seq<FrameView>) -> Map<ReplicaId, Seq<FrameView>>
    decreases log.len(),
{
    if log.len() == 0 {
        Map::empty()
    } else {
        grown(log_feeds(log.drop_last()), log.last())
    }
}

/// What is wrong with `f` as the next frame of a feed of `have` frames whose
/// head hash is `head`.
pub open spec fn link_fault(f: FrameView, have: int, head: FrameHash) -> Option<Fault> {
    if f.seq != have + 1 {
        Some(Fault::NotContiguous)
    } else if f.prev_hash != head {
        Some(Fault::ChainBroken)
    } else {
        None
    }
}

/// The first fault of `log`, if it has one.
pub open spec fn log_fault(log: Seq<FrameView>) -> Option<Fault>
    decreases log.len(),
{
    if log.len() == 0 {
        None
    } else {
        let earlier = log_fault(log.drop_last());
        let f = log.last();
        let feed = feed_of(log_feeds(log.drop_last()), f.origin);
        if earlier is Some {
            earlier
        } else {
            link_fault(f, feed.len() as int, head_hash(feed))
        }
    }
}

/// The greatest event time in `log`, 0 if it is empty.
pub open spec fn log_newest(log: Seq<FrameView>) -> u64
    decreases log.len(),
{
    if log.len() == 0 {
        0
    } else {
        later(log_newest(log.drop_last()), log.last().event_time)
    }
}

/// What becomes of an engine in state `e` when `log` is replayed into it: each
/// frame beyond the engine's cursor is applied, and every frame's event time
/// counts towards the watermark.
pub open spec fn replayed(log: Seq<FrameView>, e: EngineView) -> EngineView
    decreases log.len(),
{
    if log.len() == 0 {
        e
    } else {
        let before = replayed(log.drop_last(), e);
        let f = log.last();
        if f.seq > crate::vector::held(e.cursor, f.origin) {
            before.apply(f, log_newest(log))
        } else {
            before.seed(log_newest(log))
        }
    }
}

pub proof fn lemma_log_feeds(log: Seq<FrameView>)
    requires
        log_fault(log) is None,
        log.len() <= u64::MAX,
    ensures
        well_formed(log_feeds(log)),
        is_newest(log_feeds(log), log_newest(log)),
        forall|o: ReplicaId| #[trigger] feed_of(log_feeds(log), o).len() <= log.len(),
    decreases log.len(),
{
    if log.len() > 0 {
        lemma_log_feeds(log.drop_last());
        let before = log_feeds(log.drop_last());
        lemma_grown(before, log.last(), log_newest(log.drop_last()));
        assert forall|o: ReplicaId| #[trigger] feed_of(log_feeds(log), o).len() <= log.len() by {
            assert(feed_of(before, o).len() <= log.len() - 1);
        }
    }
}

/// A fault of a log's beginning is the log's.
pub proof fn lemma_fault_stays(log: Seq<FrameView>, k: int)
    requires
        0 <= k <= log.len(),
    ensures
        log_fault(log.take(k)) is Some ==> log_fault(log) == log_fault(log.take(k)),
    decreases log.len(),
{
    if k == log.len() {
        assert(log.take(k) =~= log);
    } else {
        lemma_fault_stays(log.drop_last(), k);
        assert(log.drop_last().take(k) =~= log.take(k));
    }
}

/// The feeds of a log's beginning are prefixes of the log's.
pub proof fn lemma_log_prefix(log: Seq<FrameView>, k: int)
    requires
        0 <= k <= log.len(),
    ensures
        prefixed(log_feeds(log.take(k)), log_feeds(log)),
    decreases log.len(),
{
    if k == log.len() {
        assert(log.take(k) =~= log);
        lemma_prefixed_reflexive(log_feeds(log));
    } else {
        let init = log.drop_last();
        lemma_log_prefix(init, k);
        assert(init.take(k) =~= log.take(k));
        assert forall|o: ReplicaId| #[trigger]
            feed_of(log_feeds(log.take(k)), o).is_prefix_of(feed_of(log_feeds(log), o)) by {
            let s = feed_of(log_feeds(log.take(k)), o);
            let t = feed_of(log_feeds(init), o);
            let u = feed_of(log_feeds(log), o);
            assert(s.is_prefix_of(t));
            assert(s =~= u.subrange(0, s.len() as int));
        }
    }
}

/// The feeds cut to the lengths that `level` gives.
pub open spec fn cut(
    feeds: Map<ReplicaId, Seq<FrameView>>,
    level: spec_fn(ReplicaId) -> int,
) -> Map<ReplicaId, Seq<FrameView>> {
    Map::new(|o: ReplicaId| feeds.contains_key(o), |o: ReplicaId| feeds[o].take(level(o)))
}

/// An engine in state `e` holds exactly the frames of `feeds` that its cursor
/// covers.
pub open spec fn holds_part(e: EngineView, feeds: Map<ReplicaId, Seq<FrameView>>) -> bool {
    &&& forall|o: ReplicaId| #[trigger] e.cursor.contains_key(o) ==> e.cursor[o] > 0
    &&& forall|o: ReplicaId| #[trigger]
        crate::vector::held(e.cursor, o) <= feed_of(feeds, o).len()
    &&& e.zset == net(cut(feeds, |o: ReplicaId| crate::vector::held(e.cursor, o) as int))
}

/// How far an engine with the cursor `cursor` is after replaying `log`.
spec fn level_after(log: Seq<FrameView>, cursor: Map<ReplicaId, u64>, o: ReplicaId) -> int {
    let c = crate::vector::held(cursor, o) as int;
    let n = feed_of(log_feeds(log), o).len() as int;
    if c < n {
        n
    } else {
        c
    }
}

proof fn lemma_replay_prefix(log: Seq<FrameView>, k: int, e: EngineView)
    requires
        log_fault(log) is None,
        log.len() <= u64::MAX,
        holds_part(e, log_feeds(log)),
        0 <= k <= log.len(),
    ensures
        replayed(log.take(k), e).zset == net(
            cut(log_feeds(log), |o: ReplicaId| level_after(log.take(k), e.cursor, o)),
        ),
        forall|o: ReplicaId|
            #![trigger crate::vector::held(replayed(log.take(k), e).cursor, o)]
            crate::vector::held(replayed(log.take(k), e).cursor, o) == level_after(
                log.take(k),
                e.cursor,
                o,
            ),
        forall|o: ReplicaId| #[trigger]
            replayed(log.take(k), e).cursor.contains_key(o) ==> replayed(
                log.take(k),
                e,
            ).cursor[o] > 0,
        replayed(log.take(k), e).watermark == later(e.watermark, log_newest(log.take(k))),
    decreases k,
{
    let feeds = log_feeds(log);
    let t = log.take(k);
    let now = |o: ReplicaId| level_after(t, e.cursor, o);
    lemma_log_feeds(log);
    if k == 0 {
        assert(t =~= seq![]);
        let start = |o: ReplicaId| crate::vector::held(e.cursor, o) as int;
        assert(cut(feeds, now) =~= cut(feeds, start));
    } else {
        let s = log.take(k - 1);
        let f = log[k - 1];
        assert(t.drop_last() =~= s);
        assert(t.last() == f);
        lemma_replay_prefix(log, k - 1, e);
        lemma_fault_stays(log, k);
        lemma_fault_stays(log, k - 1);
        lemma_log_prefix(log, k);
        lemma_log_prefix(log, k - 1);
        lemma_log_feeds(s);
        let was = |o: ReplicaId| level_after(s, e.cursor, o);
        let o = f.origin;
        let feed = feed_of(feeds, o);
        assert(feed_of(log_feeds(t), o) =~= feed_of(log_feeds(s), o).push(f));
        assert(feed_of(log_feeds(t), o).is_prefix_of(feed));
        let n = feed_of(log_feeds(s), o).len() as int;
        assert(feed[n] == feed_of(log_feeds(t), o)[n]);
        assert(feed[n] == f);
        assert(feeds.contains_key(o));
        assert forall|p: ReplicaId| p != o implies #[trigger] level_after(s, e.cursor, p)
            == level_after(t, e.cursor, p) by {}
        if f.seq > crate::vector::held(e.cursor, o) {
            let a = cut(feeds, was);
            let b = cut(feeds, now);
            assert(a.dom() =~= feeds.dom());
            assert(b.dom() =~= feeds.dom());
            assert(b.dom() =~= a.dom().insert(o));
            assert(feed_of(b, o) =~= feed_of(a, o).push(f));
            assert forall|p: ReplicaId| p != o implies #[trigger] feed_of(a, p) == feed_of(
                b,
                p,
            ) by {
                assert(was(p) == now(p));
            }
            lemma_net_pushed(a, b, f);
        } else {
            assert(cut(feeds, was) =~= cut(feeds, now));
        }
        let (c, b) = (replayed(t, e).cursor, replayed(s, e).cursor);
        assert forall|p: ReplicaId| #[trigger] crate::vector::held(c, p) == level_after(
            t,
            e.cursor,
            p,
        ) by {
            assert(crate::vector::held(b, p) == level_after(s, e.cursor, p));
        }
    }
}

/// A crash between log and engine is healed exactly: an engine that holds the
/// frames of a log that its cursor covers, and no others, holds all frames of
/// the log after replay, each once.
pub proof fn law_replay_heals(log: Seq<FrameView>, e: EngineView)
    requires
        log_fault(log) is None,
        log.len() <= u64::MAX,
        holds_part(e, log_feeds(log)),
    ensures
        replayed(log, e) == (EngineView {
            zset: net(log_feeds(log)),
            cursor: lengths(log_feeds(log)),
            watermark: later(e.watermark, log_newest(log)),
        }),
{
    let n = log.len() as int;
    assert(log.take(n) =~= log);
    lemma_replay_prefix(log, n, e);
    lemma_log_feeds(log);
    let feeds = log_feeds(log);
    let all = |o: ReplicaId| level_after(log, e.cursor, o);
    assert forall|o: ReplicaId| #[trigger] all(o) == feed_of(feeds, o).len() by {
        assert(crate::vector::held(e.cursor, o) <= feed_of(feeds, o).len());
    }
    assert(cut(feeds, all) =~= feeds) by {
        assert forall|o: ReplicaId| #[trigger] feeds.contains_key(o) implies cut(feeds, all)[o]
            == feeds[o] by {
            assert(all(o) == feeds[o].len());
            assert(feeds[o].take(feeds[o].len() as int) =~= feeds[o]);
        }
    }
    let c = replayed(log, e).cursor;
    assert forall|o: ReplicaId| #[trigger] c.contains_key(o) <==> feeds.contains_key(o) by {
        assert(crate::vector::held(c, o) == all(o));
    }
    assert forall|o: ReplicaId| #[trigger] c.contains_key(o) implies c[o] == lengths(
        feeds,
    )[o] by {
        assert(crate::vector::held(c, o) == all(o));
    }
    assert(c =~= lengths(feeds));
}

/// Replaying a log of frames that the engine has applied applies nothing.
pub proof fn lemma_replay_of_applied(log: Seq<FrameView>, e: EngineView)
    requires
        forall|i: int|
            0 <= i < log.len() ==> (#[trigger] log[i]).seq <= crate::vector::held(
                e.cursor,
                log[i].origin,
            ),
    ensures
        replayed(log, e).zset == e.zset,
        replayed(log, e).cursor == e.cursor,
    decreases log.len(),
{
    if log.len() > 0 {
        let init = log.drop_last();
        assert forall|i: int| 0 <= i < init.len() implies (#[trigger] init[i]).seq
            <= crate::vector::held(e.cursor, init[i].origin) by {
            assert(init[i] == log[i]);
        }
        lemma_replay_of_applied(init, e);
        assert(log[log.len() - 1].seq <= crate::vector::held(e.cursor, log.last().origin));
    }
}

/// A frame of a faultless log is in the log's feeds, at its place.
pub proof fn lemma_logged_frame(log: Seq<FrameView>, i: int)
    requires
        log_fault(log) is None,
        0 <= i < log.len(),
    ensures
        0 < log[i].seq <= feed_of(log_feeds(log), log[i].origin).len(),
{
    let t = log.take(i + 1);
    lemma_fault_stays(log, i + 1);
    lemma_log_prefix(log, i + 1);
    assert(t.drop_last() =~= log.take(i));
    assert(t.last() == log[i]);
    assert(feed_of(log_feeds(t), log[i].origin).is_prefix_of(
        feed_of(log_feeds(log), log[i].origin),
    ));
}

/// An engine that was given nothing holds its part of any log.
pub proof fn lemma_empty_holds_part(feeds: Map<ReplicaId, Seq<FrameView>>)
    requires
        feeds.dom().finite(),
    ensures
        holds_part(EngineView::empty(), feeds),
{
    let none = |o: ReplicaId| crate::vector::held(EngineView::empty().cursor, o) as int;
    let a = cut(feeds, none);
    assert(a.dom() =~= feeds.dom());
    assert forall|d: Seq<u8>| sum_over(a, a.dom(), d) == 0 by {
        lemma_sum_of_empty(a, a.dom(), d);
    }
    assert(net(a) =~= Map::<Seq<u8>, i64>::empty());
}

proof fn lemma_sum_of_empty(
    feeds: Map<ReplicaId, Seq<FrameView>>,
    origins: Set<ReplicaId>,
    d: Seq<u8>,
)
    requires
        origins.finite(),
        forall|o: ReplicaId| (#[trigger] feed_of(feeds, o)).len() == 0,
    ensures
        sum_over(feeds, origins, d) == 0,
    decreases origins.len(),
{
    if origins.len() > 0 {
        let o = origins.choose();
        assert(feed_of(feeds, o).len() == 0);
        lemma_sum_of_empty(feeds, origins.remove(o), d);
    }
}

} // verus!
