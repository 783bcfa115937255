//! The [`Engine`] trait, "the bog machinery" that materializes deltas, and
//! [`MemEngine`], the deterministic multiset engine.
//!
//! An engine is whatever turns applied frames into readable state. The contract
//! that makes crash healing work: `apply` must commit the frame's deltas **and**
//! the cursor advance for `(origin, seq)` atomically, and `applied` must report
//! that cursor at open, so the replica can replay exactly the log suffix the
//! engine has not yet seen.

use crate::codec::postcard_encode_multiset;
use crate::error::SodError;
use crate::frame::{Frame, FrameView, ReplicaId};
use crate::ordmap::OrdMap;
use crate::vector::VersionVector;
use vstd::prelude::*;
use vstd::std_specs::iter::IteratorSpec;

verus! {

/// What an engine has been given: the net multiset of the payloads applied, how
/// far each origin's feed is applied, and the greatest watermark.
#[verifier::ext_equal]
pub struct EngineView {
    pub zset: Map<Seq<u8>, i64>,
    pub cursor: Map<ReplicaId, u64>,
    pub watermark: u64,
}

impl EngineView {
    /// An engine that was given nothing.
    pub open spec fn empty() -> EngineView {
        EngineView { zset: Map::empty(), cursor: Map::empty(), watermark: 0 }
    }

    /// After one frame's deltas, its cursor advance and the watermark `wm`.
    pub open spec fn apply(self, frame: FrameView, wm: u64) -> EngineView {
        EngineView {
            zset: crate::zset::add_deltas(self.zset, frame.payload),
            cursor: if frame.seq == 0 {
                self.cursor.remove(frame.origin)
            } else {
                self.cursor.insert(frame.origin, frame.seq)
            },
            ..self.seed(wm)
        }
    }

    /// After the watermark `wm`.
    pub open spec fn seed(self, wm: u64) -> EngineView {
        EngineView {
            watermark: if self.watermark < wm {
                wm
            } else {
                self.watermark
            },
            ..self
        }
    }
}

/// The bog machinery.
///
/// The ghost functions say what an implementation keeps. One written outside
/// Verus leaves them out, and is then trusted to have some state that its
/// methods treat as they say here.
pub trait Engine {
    /// What the engine has been given.
    closed spec fn state(&self) -> EngineView {
        arbitrary()
    }

    /// Why the engine can never apply `frame`; `None` if it can.
    closed spec fn refusal(&self, frame: FrameView) -> Option<SodError> {
        arbitrary()
    }

    /// The error that the [`apply`](Engine::apply) which failed last returned.
    closed spec fn failure(&self) -> Option<SodError> {
        arbitrary()
    }

    /// Whether the engine applies every frame that it does not refuse, and
    /// refuses the same frames whatever it was given.
    open spec fn reliable(&self) -> bool {
        false
    }

    /// Deterministically check that a frame is applicable, e.g. that its
    /// datums decode as the pipeline type, WITHOUT mutating anything.
    ///
    /// The replica calls this **before** appending a frame to the log: once a
    /// frame is logged it will be replayed on every open, so a frame that
    /// deterministically fails `apply` would brick the replica.
    /// `validate`-then-`apply` must agree: any frame that passes validate must
    /// not fail apply for a deterministic reason.
    fn validate(&self, frame: &Frame) -> (r: Result<(), SodError>)
        ensures
            match r {
                Ok(()) => self.refusal(frame@) is None,
                Err(e) => self.refusal(frame@) == Some(e),
            },
    ;

    /// Apply one frame's deltas plus the new watermark. The deltas and the
    /// applied-cursor advance to `(frame.origin, frame.seq)` must commit
    /// atomically.
    fn apply(&mut self, frame: &Frame, watermark: u64) -> (r: Result<(), SodError>)
        ensures
            r is Ok ==> final(self).state() == old(self).state().apply(frame@, watermark),
            r matches Err(e) ==> {
                &&& final(self).state() == old(self).state()
                &&& final(self).failure() == Some(e)
            },
            old(self).reliable() ==> {
                &&& final(self).reliable()
                &&& forall|f: FrameView| #[trigger]
                    final(self).refusal(f) == old(self).refusal(f)
                &&& old(self).refusal(frame@) is None ==> r is Ok
            },
    ;

    /// The cursor durably applied through, per origin. Read at open to replay
    /// exactly the un-applied log suffix.
    fn applied(&self) -> (cursor: VersionVector)
        ensures
            cursor@ == self.state().cursor,
    ;

    /// Seed the watermark at open, before any `apply`.
    fn seed_watermark(&mut self, wm: u64)
        ensures
            final(self).state() == old(self).state().seed(wm),
            old(self).reliable() ==> {
                &&& final(self).reliable()
                &&& forall|f: FrameView| #[trigger]
                    final(self).refusal(f) == old(self).refusal(f)
            },
    ;
}

/// `list` names the data of `z` in byte order, each with its multiplicity.
pub open spec fn lists(list: Seq<(Seq<u8>, i64)>, z: Map<Seq<u8>, i64>) -> bool {
    &&& forall|i: int, j: int|
        #![trigger list[i], list[j]]
        0 <= i < j < list.len() ==> crate::ordmap::lex_lt(list[i].0, list[j].0)
    &&& forall|i: int|
        0 <= i < list.len() ==> z.contains_key((#[trigger] list[i]).0) && z[list[i].0] == list[i].1
    &&& forall|d: Seq<u8>| #[trigger]
        z.contains_key(d) ==> exists|i: int| 0 <= i < list.len() && (#[trigger] list[i]).0 == d
}

/// The data of `z` in byte order, each with its multiplicity.
pub open spec fn listing(z: Map<Seq<u8>, i64>) -> Seq<(Seq<u8>, i64)> {
    choose|list: Seq<(Seq<u8>, i64)>| lists(list, z)
}

/// `bytes` are the canonical bytes of `z`: the encoding of its listing, which is
/// read back from them.
pub open spec fn canonical(bytes: Seq<u8>, z: Map<Seq<u8>, i64>) -> bool {
    &&& bytes == crate::codec::postcard_multiset(listing(z))
    &&& crate::codec::postcard_multiset_entries(bytes, usize::BITS) == Some(listing(z))
    &&& lists(listing(z), z)
    &&& crate::zset::zero_free(z)
}

/// Deterministic in-memory multiset engine.
///
/// State is exactly the Z-set, `datum bytes -> net multiplicity`, with zero
/// entries removed (so a transient negative, a retraction arriving before its
/// insert, is representable and visible).
#[derive(Debug)]
pub struct MemEngine {
    multiset: OrdMap<Vec<u8>, i64>,
    applied: VersionVector,
    watermark: u64,
}

impl Default for MemEngine {
    fn default() -> (e: Self)
        ensures
            e.state() == EngineView::empty(),
    {
        MemEngine { multiset: OrdMap::new(), applied: VersionVector::new(), watermark: 0 }
    }
}

impl MemEngine {
    #[verifier::type_invariant]
    spec fn no_zero_entries(self) -> bool {
        crate::zset::zero_free(self.multiset@)
    }

    pub fn new() -> (e: Self)
        ensures
            e.state() == EngineView::empty(),
    {
        Self::default()
    }

    /// Canonical bytes of the whole multiset, the convergence probe: its
    /// entries are encoded in datum order.
    pub fn view_bytes(&self) -> (bytes: Vec<u8>)
        ensures
            canonical(bytes@, self.state().zset),
    {
        let entries = self.multiset.entries();
        proof {
            use_type_invariant(self);
            lemma_entries_listing(entries@);
        }
        postcard_encode_multiset(entries)
    }

    /// Net multiplicity of one datum (0 if absent).
    pub fn count(&self, datum: &[u8]) -> (n: i64)
        ensures
            n == crate::zset::multiplicity(self.state().zset, datum@),
            n == 0 <==> !self.state().zset.contains_key(datum@),
    {
        proof {
            use_type_invariant(self);
            assert(<Vec<u8> as crate::ordmap::Key>::bytes(datum@) == datum@);
        }
        match self.multiset.lookup(datum) {
            Some(n) => *n,
            None => 0,
        }
    }

    /// Iterate `(datum, net multiplicity)` in datum order.
    pub fn iter(&self) -> (r: std::slice::Iter<'_, (Vec<u8>, i64)>)
        ensures
            lists(crate::codec::deltas(r.remaining().unref()), self.state().zset),
            crate::zset::zero_free(self.state().zset),
    {
        proof {
            use_type_invariant(self);
        }
        let entries = self.multiset.entries();
        let r = entries.iter();
        proof {
            assert(r.remaining().unref() =~= entries@);
            lemma_entries_listing(entries@);
        }
        r
    }

    /// The greatest watermark seen.
    pub fn watermark(&self) -> (wm: u64)
        ensures
            wm == self.state().watermark,
    {
        self.watermark
    }
}

impl Engine for MemEngine {
    closed spec fn state(&self) -> EngineView {
        EngineView { zset: self.multiset@, cursor: self.applied@, watermark: self.watermark }
    }

    open spec fn refusal(&self, frame: FrameView) -> Option<SodError> {
        None
    }

    open spec fn reliable(&self) -> bool {
        true
    }

    fn validate(&self, frame: &Frame) -> (r: Result<(), SodError>) {
        Ok(())
    }

    fn apply(&mut self, frame: &Frame, watermark: u64) -> (r: Result<(), SodError>) {
        proof {
            use_type_invariant(&*self);
        }
        let mut multiset: OrdMap<Vec<u8>, i64> = OrdMap::new();
        std::mem::swap(&mut multiset, &mut self.multiset);
        let ghost payload = crate::codec::deltas(frame.payload@);
        let ghost zset = multiset@;
        let mut i: usize = 0;
        assert(payload.take(0) =~= seq![]);
        while i < frame.payload.len()
            invariant
                payload == crate::codec::deltas(frame.payload@),
                i <= frame.payload@.len(),
                multiset@ == crate::zset::add_deltas(zset, payload.take(i as int)),
            decreases frame.payload@.len() - i,
        {
            let (datum, mult) = (&frame.payload[i].0, frame.payload[i].1);
            let held: i64 = match multiset.get(datum) {
                Some(n) => *n,
                None => 0,
            };
            let n: i64 = held.wrapping_add(mult);
            proof {
                assert(payload[i as int] == (datum@, mult));
                assert(payload.take(i + 1).drop_last() =~= payload.take(i as int));
                assert(n == crate::zset::wrap64(held + mult));
            }
            if n == 0 {
                let _ = multiset.remove(datum);
            } else {
                let key = datum.clone();
                assert(key@ =~= datum@);
                multiset.insert(key, n);
            }
            i = i + 1;
        }
        assert(payload.take(i as int) =~= payload);
        proof {
            crate::zset::law_add_deltas_sums(zset, payload, seq![]);
        }
        let mut applied = VersionVector::new();
        std::mem::swap(&mut applied, &mut self.applied);
        applied.set(frame.origin, frame.seq);
        self.multiset = multiset;
        self.applied = applied;
        if self.watermark < watermark {
            self.watermark = watermark;
        }
        Ok(())
    }

    fn applied(&self) -> (cursor: VersionVector) {
        self.applied.clone()
    }

    fn seed_watermark(&mut self, wm: u64) {
        proof {
            use_type_invariant(&*self);
        }
        if self.watermark < wm {
            self.watermark = wm;
        }
    }
}

/// The entries of an ordered map list its contents.
proof fn lemma_entries_listing(entries: Seq<(Vec<u8>, i64)>)
    requires
        crate::ordmap::ascending(entries),
    ensures
        lists(crate::codec::deltas(entries), crate::ordmap::to_map(entries)),
        listing(crate::ordmap::to_map(entries)) == crate::codec::deltas(entries),
{
    let list = crate::codec::deltas(entries);
    let z = crate::ordmap::to_map(entries);
    assert(lists(list, z)) by {
        assert forall|i: int, j: int|
            #![trigger list[i], list[j]]
            0 <= i < j < list.len() implies crate::ordmap::lex_lt(list[i].0, list[j].0) by {
            assert(entries[i].0@ == list[i].0 && entries[j].0@ == list[j].0);
        }
        assert forall|i: int| 0 <= i < list.len() implies z.contains_key((#[trigger] list[i]).0)
            && z[list[i].0] == list[i].1 by {
            crate::ordmap::lemma_to_map_at(entries, i);
        }
        assert forall|d: Seq<u8>| #[trigger] z.contains_key(d) implies exists|i: int|
            0 <= i < list.len() && (#[trigger] list[i]).0 == d by {
            let i = choose|i: int| crate::ordmap::holds_at(entries, d, i);
            assert(list[i].0 == d);
        }
    }
    law_listing_is_determined(listing(z), list, z);
}

/// The listing of a multiset is determined by the multiset: replicas with the
/// same multiset have the same canonical bytes.
pub proof fn law_listing_is_determined(
    a: Seq<(Seq<u8>, i64)>,
    b: Seq<(Seq<u8>, i64)>,
    z: Map<Seq<u8>, i64>,
)
    requires
        lists(a, z),
        lists(b, z),
    ensures
        a == b,
{
    lemma_listing_prefix(a, b, z, a.len() as int);
    lemma_listing_prefix(b, a, z, b.len() as int);
    assert(a =~= b);
}

/// The convergence probe is exact: the canonical bytes of two multisets are equal
/// if and only if the multisets are, that is, if and only if every datum has the
/// same net multiplicity in both.
pub proof fn law_equal_bytes_equal_counts(
    bytes_a: Seq<u8>,
    a: Map<Seq<u8>, i64>,
    bytes_b: Seq<u8>,
    b: Map<Seq<u8>, i64>,
)
    requires
        canonical(bytes_a, a),
        canonical(bytes_b, b),
    ensures
        bytes_a == bytes_b <==> a == b,
        a == b <==> forall|d: Seq<u8>| #[trigger]
            crate::zset::multiplicity(a, d) == crate::zset::multiplicity(b, d),
{
    if bytes_a == bytes_b {
        let list = listing(a);
        assert forall|d: Seq<u8>| #[trigger] a.contains_key(d) <==> b.contains_key(d) by {
            if a.contains_key(d) {
                let i = choose|i: int| 0 <= i < list.len() && (#[trigger] list[i]).0 == d;
                assert(list[i].0 == d);
            }
            if b.contains_key(d) {
                let i = choose|i: int| 0 <= i < list.len() && (#[trigger] list[i]).0 == d;
                assert(list[i].0 == d);
            }
        }
        assert forall|d: Seq<u8>| #[trigger] a.contains_key(d) implies a[d] == b[d] by {
            let i = choose|i: int| 0 <= i < list.len() && (#[trigger] list[i]).0 == d;
            assert(list[i].0 == d);
        }
        assert(a =~= b);
    }
    if forall|d: Seq<u8>| #[trigger]
        crate::zset::multiplicity(a, d) == crate::zset::multiplicity(b, d) {
        assert forall|d: Seq<u8>| #[trigger] a.contains_key(d) <==> b.contains_key(d) by {
            assert(crate::zset::multiplicity(a, d) == crate::zset::multiplicity(b, d));
        }
        assert forall|d: Seq<u8>| #[trigger] a.contains_key(d) implies a[d] == b[d] by {
            assert(crate::zset::multiplicity(a, d) == crate::zset::multiplicity(b, d));
        }
        assert(a =~= b);
    }
}

proof fn lemma_listing_prefix(
    a: Seq<(Seq<u8>, i64)>,
    b: Seq<(Seq<u8>, i64)>,
    z: Map<Seq<u8>, i64>,
    n: int,
)
    requires
        lists(a, z),
        lists(b, z),
        0 <= n <= a.len(),
    ensures
        n <= b.len(),
        forall|i: int| 0 <= i < n ==> #[trigger] a[i] == b[i],
    decreases n,
{
    if n > 0 {
        lemma_listing_prefix(a, b, z, n - 1);
        let m = n - 1;
        let d = a[m].0;
        let k = choose|k: int| 0 <= k < b.len() && (#[trigger] b[k]).0 == d;
        if k < m {
            assert(a[k] == b[k]);
            assert(crate::ordmap::lex_lt(a[k].0, a[m].0));
            crate::ordmap::lemma_lex_irreflexive(d);
        }
        if k > m {
            let e = b[m].0;
            let p = choose|p: int| 0 <= p < a.len() && (#[trigger] a[p]).0 == e;
            assert(crate::ordmap::lex_lt(b[m].0, b[k].0));
            if p < m {
                assert(a[p] == b[p]);
                assert(crate::ordmap::lex_lt(b[p].0, b[m].0));
                crate::ordmap::lemma_lex_irreflexive(e);
            } else if p == m {
                crate::ordmap::lemma_lex_irreflexive(e);
            } else {
                assert(crate::ordmap::lex_lt(a[m].0, a[p].0));
                crate::ordmap::lemma_lex_transitive(d, e, d);
                crate::ordmap::lemma_lex_irreflexive(d);
            }
        }
        assert(a[m] == b[m]);
    }
}

/// Frames of different origins can be applied in either order.
pub proof fn law_frames_commute(e: EngineView, f: FrameView, g: FrameView, w: u64, v: u64)
    requires
        crate::zset::zero_free(e.zset),
        f.origin != g.origin,
    ensures
        e.apply(f, w).apply(g, v) == e.apply(g, v).apply(f, w),
{
    crate::zset::law_deltas_commute(e.zset, f.payload, g.payload);
    let a = e.apply(f, w).apply(g, v);
    let b = e.apply(g, v).apply(f, w);
    assert(a.cursor =~= b.cursor);
}

} // verus!
