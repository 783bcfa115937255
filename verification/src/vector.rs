//! Version vectors: per-origin high-water marks of contiguous frames held.
//!
//! `vector[origin] = n` means "this replica holds frames 1..=n of that origin's
//! feed". Because feeds are contiguous chains, a single integer per origin
//! fully describes possession, and the vector doubles as the sync resume
//! point: there is no session state to checkpoint.

use crate::frame::ReplicaId;
use crate::ordmap::OrdMap;
use vstd::prelude::*;
use vstd::std_specs::iter::IteratorSpec;

verus! {

/// The seq held through for `id` in a vector of entries `m`; 0 if the origin
/// is unknown.
pub open spec fn held(m: Map<ReplicaId, u64>, id: ReplicaId) -> u64 {
    if m.contains_key(id) {
        m[id]
    } else {
        0
    }
}

/// The vectors `a` and `b` hold the same of every origin.
pub open spec fn agree(a: Map<ReplicaId, u64>, b: Map<ReplicaId, u64>) -> bool {
    forall|id: ReplicaId| #[trigger] held(a, id) == held(b, id)
}

/// An origin of which nothing is held has no entry.
pub open spec fn positive(m: Map<ReplicaId, u64>) -> bool {
    forall|id: ReplicaId| #[trigger] m.contains_key(id) ==> m[id] > 0
}

/// `list` names, in origin order, exactly the origins where `mine` is ahead of
/// `theirs`, each with what `theirs` and `mine` hold.
pub open spec fn lists_ahead(
    list: Seq<(ReplicaId, u64, u64)>,
    mine: Map<ReplicaId, u64>,
    theirs: Map<ReplicaId, u64>,
) -> bool {
    &&& forall|i: int, j: int|
        #![trigger list[i], list[j]]
        0 <= i < j < list.len() ==> crate::ordmap::lex_lt(list[i].0.0@, list[j].0.0@)
    &&& forall|i: int|
        0 <= i < list.len() ==> {
            let (id, low, high) = #[trigger] list[i];
            low == held(theirs, id) && high == held(mine, id) && low < high
        }
    &&& forall|id: ReplicaId| #[trigger]
        held(mine, id) > held(theirs, id) ==> exists|i: int|
            0 <= i < list.len() && (#[trigger] list[i]).0 == id
}

/// The origins where `mine` is ahead of `theirs`, in origin order, each with
/// what `theirs` and `mine` hold.
pub open spec fn ahead(mine: Map<ReplicaId, u64>, theirs: Map<ReplicaId, u64>) -> Seq<
    (ReplicaId, u64, u64),
> {
    choose|list: Seq<(ReplicaId, u64, u64)>| lists_ahead(list, mine, theirs)
}

/// Per-origin seq held through (contiguously). Absent origin = 0.
#[derive(Debug)]
pub struct VersionVector(OrdMap<ReplicaId, u64>);

impl View for VersionVector {
    type V = Map<ReplicaId, u64>;

    closed spec fn view(&self) -> Map<ReplicaId, u64> {
        self.0@
    }
}

impl PartialEq for VersionVector {
    fn eq(&self, other: &Self) -> (same: bool) {
        let more = self.ahead_of(other);
        let less = other.ahead_of(self);
        proof {
            if more@.len() == 0 && less@.len() == 0 {
                assert forall|id: ReplicaId| #[trigger] held(self@, id) == held(other@, id) by {
                    assert(!(held(self@, id) > held(other@, id)));
                    assert(!(held(other@, id) > held(self@, id)));
                }
            }
            if more@.len() > 0 {
                let (id, low, high) = more@[0];
                assert(held(self@, id) != held(other@, id));
            }
            if less@.len() > 0 {
                let (id, low, high) = less@[0];
                assert(held(self@, id) != held(other@, id));
            }
        }
        more.len() == 0 && less.len() == 0
    }
}

impl vstd::std_specs::cmp::PartialEqSpecImpl for VersionVector {
    open spec fn obeys_eq_spec() -> bool {
        true
    }

    open spec fn eq_spec(&self, other: &Self) -> bool {
        agree(self@, other@)
    }
}

impl Eq for VersionVector {

}

impl Default for VersionVector {
    fn default() -> (v: Self)
        ensures
            v@ == Map::<ReplicaId, u64>::empty(),
    {
        VersionVector(OrdMap::new())
    }
}

impl Clone for VersionVector {
    fn clone(&self) -> (v: Self)
        ensures
            v@ == self@,
    {
        proof {
            use_type_invariant(self);
        }
        VersionVector(self.0.duplicate())
    }
}

impl VersionVector {
    /// An origin of which nothing is held has no entry.
    #[verifier::type_invariant]
    spec fn no_zero_entries(self) -> bool {
        positive(self.0@)
    }

    pub fn new() -> (v: Self)
        ensures
            v@ == Map::<ReplicaId, u64>::empty(),
    {
        Self::default()
    }

    /// The seq held through for `id`; 0 if the origin is unknown.
    pub fn get(&self, id: &ReplicaId) -> (seq: u64)
        ensures
            seq == held(self@, *id),
            seq == 0 <==> !self@.contains_key(*id),
    {
        proof {
            use_type_invariant(self);
        }
        match self.0.get(id) {
            Some(seq) => *seq,
            None => 0,
        }
    }

    /// Record possession of the next frame in `id`'s feed. Feeds are
    /// contiguous: `seq` is one more than what is held.
    pub fn advance(&mut self, id: ReplicaId, seq: u64)
        requires
            seq == held(old(self)@, id) + 1,
        ensures
            final(self)@ == old(self)@.insert(id, seq),
    {
        self.set(id, seq);
    }

    /// Set `id`'s entry directly (engine cursors loaded from storage).
    pub fn set(&mut self, id: ReplicaId, seq: u64)
        ensures
            final(self)@ == if seq == 0 {
                old(self)@.remove(id)
            } else {
                old(self)@.insert(id, seq)
            },
    {
        proof {
            use_type_invariant(&*self);
        }
        let mut entries: OrdMap<ReplicaId, u64> = OrdMap::new();
        std::mem::swap(&mut entries, &mut self.0);
        if seq == 0 {
            let _ = entries.remove(&id);
        } else {
            entries.insert(id, seq);
        }
        self.0 = entries;
    }

    /// Iterate `(origin, seq-held-through)` in origin order.
    pub fn iter(&self) -> (r: std::slice::Iter<'_, (ReplicaId, u64)>)
        ensures
            crate::ordmap::ascending(r.remaining().unref()),
            crate::ordmap::to_map(r.remaining().unref()) == self@,
            positive(self@),
    {
        proof {
            use_type_invariant(self);
        }
        let entries = self.0.entries();
        let r = entries.iter();
        assert(r.remaining().unref() =~= entries@);
        r
    }

    /// The ranges `self` holds beyond `other`: for each origin where `self >
    /// other`, yields `(origin, other_have, self_have)`; the frames
    /// `(other_have, self_have]` are what a peer at `other` is missing.
    pub fn ahead_of(&self, other: &Self) -> (list: Vec<(ReplicaId, u64, u64)>)
        ensures
            lists_ahead(list@, self@, other@),
            list@ == ahead(self@, other@),
    {
        let entries = self.0.entries();
        let mut list: Vec<(ReplicaId, u64, u64)> = Vec::new();
        let ghost mut from: Seq<int> = seq![];
        let mut i: usize = 0;
        while i < entries.len()
            invariant
                crate::ordmap::ascending(entries@),
                crate::ordmap::to_map(entries@) == self@,
                i <= entries@.len(),
                from.len() == list@.len(),
                forall|k: int, l: int|
                    #![trigger from[k], from[l]]
                    0 <= k < l < from.len() ==> from[k] < from[l],
                forall|k: int|
                    0 <= k < from.len() ==> {
                        let j = #[trigger] from[k];
                        let (id, low, high) = list@[k];
                        0 <= j < i && id == entries@[j].0 && low == held(other@, id) && high
                            == entries@[j].1 && low < high
                    },
                forall|j: int|
                    0 <= j < i && (#[trigger] entries@[j]).1 > held(other@, entries@[j].0)
                        ==> exists|k: int| 0 <= k < list@.len() && (#[trigger] list@[k]).0
                        == entries@[j].0,
            decreases entries@.len() - i,
        {
            let (id, have) = entries[i];
            let theirs = other.get(&id);
            let ghost before = list@;
            if have > theirs {
                list.push((id, theirs, have));
                proof {
                    from = from.push(i as int);
                    assert(list@[before.len() as int].0 == entries@[i as int].0);
                    assert(forall|k: int| 0 <= k < before.len() ==> list@[k] == before[k]);
                }
            }
            proof {
                assert forall|j: int|
                    0 <= j < i + 1 && (#[trigger] entries@[j]).1 > held(
                        other@,
                        entries@[j].0,
                    ) implies exists|k: int| 0 <= k < list@.len() && (#[trigger] list@[k]).0
                    == entries@[j].0 by {
                    if j < i {
                        let k = choose|k: int| 0 <= k < before.len() && (#[trigger] before[k]).0
                            == entries@[j].0;
                        assert(list@[k].0 == entries@[j].0);
                    }
                }
            }
            i = i + 1;
        }
        proof {
            assert forall|k: int, l: int|
                #![trigger list@[k], list@[l]]
                0 <= k < l < list@.len() implies crate::ordmap::lex_lt(
                list@[k].0.0@,
                list@[l].0.0@,
            ) by {
                let (a, b) = (from[k], from[l]);
                assert(a < b && entries@[a].0 == list@[k].0 && entries@[b].0 == list@[l].0);
            }
            assert forall|k: int| 0 <= k < list@.len() implies ({
                let (id, low, high) = #[trigger] list@[k];
                low == held(other@, id) && high == held(self@, id) && low < high
            }) by {
                let j = from[k];
                crate::ordmap::lemma_to_map_at(entries@, j);
            }
            assert forall|id: ReplicaId| #[trigger]
                held(self@, id) > held(other@, id) implies exists|k: int|
                0 <= k < list@.len() && (#[trigger] list@[k]).0 == id by {
                let j = choose|j: int| crate::ordmap::holds_at(entries@, id, j);
                assert(crate::ordmap::holds_at(entries@, id, j));
                crate::ordmap::lemma_to_map_at(entries@, j);
                assert(entries@[j].0 == id);
            }
            law_ahead_is_determined(list@, ahead(self@, other@), self@, other@);
        }
        list
    }
}

/// Vectors without zero entries hold the same of every origin if and only if they
/// have the same entries.
pub proof fn law_agreeing_vectors_are_equal(a: Map<ReplicaId, u64>, b: Map<ReplicaId, u64>)
    requires
        positive(a),
        positive(b),
    ensures
        agree(a, b) <==> a == b,
{
    if agree(a, b) {
        assert forall|id: ReplicaId| #[trigger] a.contains_key(id) <==> b.contains_key(id) by {
            assert(held(a, id) == held(b, id));
        }
        assert forall|id: ReplicaId| #[trigger] a.contains_key(id) implies a[id] == b[id] by {
            assert(held(a, id) == held(b, id));
        }
        assert(a =~= b);
    }
}

/// What one vector is ahead of another by is determined by the two vectors.
pub proof fn law_ahead_is_determined(
    a: Seq<(ReplicaId, u64, u64)>,
    b: Seq<(ReplicaId, u64, u64)>,
    mine: Map<ReplicaId, u64>,
    theirs: Map<ReplicaId, u64>,
)
    requires
        lists_ahead(a, mine, theirs),
        lists_ahead(b, mine, theirs),
    ensures
        a == b,
    decreases a.len(),
{
    lemma_ahead_prefix(a, b, mine, theirs, a.len() as int);
    lemma_ahead_prefix(b, a, mine, theirs, b.len() as int);
    assert(a =~= b);
}

/// What a vector of finitely many entries is ahead by can be listed.
pub proof fn lemma_ahead_exists(mine: Map<ReplicaId, u64>, theirs: Map<ReplicaId, u64>)
    requires
        mine.dom().finite(),
    ensures
        lists_ahead(ahead(mine, theirs), mine, theirs),
{
    let more = |id: ReplicaId| held(mine, id) > held(theirs, id);
    let ids = crate::idset::lemma_ids_can_be_listed(mine.dom().filter(more));
    let list = ids.map_values(|id: ReplicaId| (id, held(theirs, id), held(mine, id)));
    assert(lists_ahead(list, mine, theirs)) by {
        assert forall|i: int, j: int|
            #![trigger list[i], list[j]]
            0 <= i < j < list.len() implies crate::ordmap::lex_lt(list[i].0.0@, list[j].0.0@) by {
            assert(list[i].0 == ids[i] && list[j].0 == ids[j]);
        }
        assert forall|i: int| 0 <= i < list.len() implies ({
            let (id, low, high) = #[trigger] list[i];
            low == held(theirs, id) && high == held(mine, id) && low < high
        }) by {
            assert(ids.to_set().contains(ids[i]));
        }
        assert forall|id: ReplicaId| #[trigger]
            held(mine, id) > held(theirs, id) implies exists|i: int|
            0 <= i < list.len() && (#[trigger] list[i]).0 == id by {
            assert(mine.dom().filter(more).contains(id));
            assert(ids.to_set().contains(id));
            let i = choose|i: int| 0 <= i < ids.len() && ids[i] == id;
            assert(list[i].0 == id);
        }
    }
}

proof fn lemma_ahead_prefix(
    a: Seq<(ReplicaId, u64, u64)>,
    b: Seq<(ReplicaId, u64, u64)>,
    mine: Map<ReplicaId, u64>,
    theirs: Map<ReplicaId, u64>,
    n: int,
)
    requires
        lists_ahead(a, mine, theirs),
        lists_ahead(b, mine, theirs),
        0 <= n <= a.len(),
    ensures
        n <= b.len(),
        forall|i: int| 0 <= i < n ==> #[trigger] a[i] == b[i],
    decreases n,
{
    if n > 0 {
        lemma_ahead_prefix(a, b, mine, theirs, n - 1);
        let m = n - 1;
        let (id, low, high) = a[m];
        assert(held(mine, id) > held(theirs, id));
        let k = choose|k: int| 0 <= k < b.len() && (#[trigger] b[k]).0 == id;
        if k < m {
            assert(a[k] == b[k]);
            assert(crate::ordmap::lex_lt(a[k].0.0@, a[m].0.0@));
            crate::ordmap::lemma_lex_irreflexive(id.0@);
        }
        if k > m {
            let (other, l, h) = b[m];
            assert(held(mine, other) > held(theirs, other));
            let p = choose|p: int| 0 <= p < a.len() && (#[trigger] a[p]).0 == other;
            assert(crate::ordmap::lex_lt(b[m].0.0@, b[k].0.0@));
            if p < m {
                assert(a[p] == b[p]);
                assert(crate::ordmap::lex_lt(b[p].0.0@, b[m].0.0@));
                crate::ordmap::lemma_lex_irreflexive(other.0@);
            } else if p == m {
                crate::ordmap::lemma_lex_irreflexive(other.0@);
            } else {
                assert(crate::ordmap::lex_lt(a[m].0.0@, a[p].0.0@));
                crate::ordmap::lemma_lex_transitive(id.0@, other.0@, id.0@);
                crate::ordmap::lemma_lex_irreflexive(id.0@);
            }
        }
        assert(a[m] == b[m]);
    }
}

} // verus!
