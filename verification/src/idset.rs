//! Sets of replica ids, listed in id order.

use crate::frame::ReplicaId;
use crate::ordmap::{compare_bytes, Side};
use vstd::prelude::*;

verus! {

/// The ids of `s` strictly ascend in byte order.
pub open spec fn ids_ascend(s: Seq<ReplicaId>) -> bool {
    forall|i: int, j: int|
        #![trigger s[i], s[j]]
        0 <= i < j < s.len() ==> crate::ordmap::lex_lt(s[i].0@, s[j].0@)
}

pub struct IdSet {
    ids: Vec<ReplicaId>,
}

impl View for IdSet {
    type V = Set<ReplicaId>;

    closed spec fn view(&self) -> Set<ReplicaId> {
        self.ids@.to_set()
    }
}

impl IdSet {
    #[verifier::type_invariant]
    spec fn sorted(self) -> bool {
        ids_ascend(self.ids@)
    }

    pub fn new() -> (s: Self)
        ensures
            s@ == Set::<ReplicaId>::empty(),
    {
        let s = IdSet { ids: Vec::new() };
        assert(s@ =~= Set::<ReplicaId>::empty());
        s
    }

    /// The ids, in order.
    pub fn ids(&self) -> (r: &Vec<ReplicaId>)
        ensures
            ids_ascend(r@),
            r@.to_set() == self@,
    {
        proof {
            use_type_invariant(self);
        }
        &self.ids
    }

    pub fn contains(&self, id: &ReplicaId) -> (r: bool)
        ensures
            r == self@.contains(*id),
    {
        let mut i: usize = 0;
        while i < self.ids.len()
            invariant
                i <= self.ids@.len(),
                forall|j: int| 0 <= j < i ==> self.ids@[j] != *id,
            decreases self.ids@.len() - i,
        {
            if self.ids[i] == *id {
                assert(self.ids@[i as int] == *id);
                return true;
            }
            i = i + 1;
        }
        false
    }

    /// Add `id`; whether it is new.
    pub fn insert(&mut self, id: ReplicaId) -> (new: bool)
        ensures
            new == !old(self)@.contains(id),
            final(self)@ == old(self)@.insert(id),
    {
        proof {
            use_type_invariant(&*self);
        }
        let ghost before = self.ids@;
        let mut p: usize = 0;
        while p < self.ids.len()
            invariant
                p <= self.ids@.len(),
                self.ids@ == before,
                old(self)@ == before.to_set(),
                self@ == old(self)@,
                forall|j: int| 0 <= j < p ==> crate::ordmap::lex_lt(before[j].0@, id.0@),
            ensures
                p < self.ids@.len() ==> crate::ordmap::lex_lt(id.0@, before[p as int].0@),
            decreases self.ids@.len() - p,
        {
            match compare_bytes(self.ids[p].0.as_slice(), id.0.as_slice()) {
                Side::Before => {
                    p = p + 1;
                },
                Side::Same => {
                    proof {
                        assert(before[p as int].0 =~= id.0);
                        assert(before[p as int] == id);
                        assert(before.to_set().contains(id));
                        assert(before.to_set().insert(id) =~= before.to_set());
                    }
                    return false;
                },
                Side::After => {
                    break;
                },
            }
        }
        let mut ids: Vec<ReplicaId> = Vec::new();
        std::mem::swap(&mut ids, &mut self.ids);
        ids.insert(p, id);
        proof {
            use_type_invariant(&*self);
            lemma_insert(before, p as int, id);
        }
        self.ids = ids;
        true
    }
}

/// Every finite set of ids can be listed in order.
pub proof fn lemma_ids_can_be_listed(s: Set<ReplicaId>) -> (ids: Seq<ReplicaId>)
    requires
        s.finite(),
    ensures
        ids_ascend(ids),
        ids.to_set() == s,
    decreases s.len(),
{
    if s.len() == 0 {
        assert(s =~= Set::empty());
        assert(Seq::<ReplicaId>::empty().to_set() =~= s);
        Seq::empty()
    } else {
        let id = s.choose();
        let rest = lemma_ids_can_be_listed(s.remove(id));
        let p = lemma_place(rest, id, rest.len() as int);
        lemma_insert(rest, p, id);
        assert(s.remove(id).insert(id) =~= s);
        rest.insert(p, id)
    }
}

/// Where an id goes among the first `n` of an ordered list without it.
proof fn lemma_place(s: Seq<ReplicaId>, id: ReplicaId, n: int) -> (p: int)
    requires
        ids_ascend(s),
        !s.to_set().contains(id),
        0 <= n <= s.len(),
    ensures
        0 <= p <= n,
        forall|j: int| 0 <= j < p ==> crate::ordmap::lex_lt((#[trigger] s[j]).0@, id.0@),
        p < n ==> crate::ordmap::lex_lt(id.0@, s[p].0@),
    decreases n,
{
    if n == 0 {
        0
    } else {
        let last = s[n - 1];
        assert(s.to_set().contains(last));
        crate::ordmap::lemma_lex_total(last.0@, id.0@);
        if last.0@ == id.0@ {
            assert(last.0 =~= id.0);
        }
        if crate::ordmap::lex_lt(last.0@, id.0@) {
            assert forall|j: int| 0 <= j < n implies crate::ordmap::lex_lt(
                (#[trigger] s[j]).0@,
                id.0@,
            ) by {
                if j < n - 1 {
                    assert(crate::ordmap::lex_lt(s[j].0@, s[n - 1].0@));
                    crate::ordmap::lemma_lex_transitive(s[j].0@, last.0@, id.0@);
                }
            }
            n
        } else {
            lemma_place(s, id, n - 1)
        }
    }
}

proof fn lemma_insert(s: Seq<ReplicaId>, p: int, id: ReplicaId)
    requires
        ids_ascend(s),
        0 <= p <= s.len(),
        forall|j: int| 0 <= j < p ==> crate::ordmap::lex_lt(s[j].0@, id.0@),
        p < s.len() ==> crate::ordmap::lex_lt(id.0@, s[p].0@),
    ensures
        ids_ascend(s.insert(p, id)),
        !s.to_set().contains(id),
        s.insert(p, id).to_set() == s.to_set().insert(id),
{
    let t = s.insert(p, id);
    assert forall|j: int| p <= j < s.len() implies crate::ordmap::lex_lt(
        id.0@,
        (#[trigger] s[j]).0@,
    ) by {
        if p < j {
            assert(crate::ordmap::lex_lt(s[p].0@, s[j].0@));
            crate::ordmap::lemma_lex_transitive(id.0@, s[p].0@, s[j].0@);
        }
    }
    assert(forall|i: int| 0 <= i < p ==> #[trigger] t[i] == s[i]);
    assert(t[p] == id);
    assert(forall|i: int| p < i < t.len() ==> #[trigger] t[i] == s[i - 1]);
    assert forall|i: int, j: int|
        #![trigger t[i], t[j]]
        0 <= i < j < t.len() implies crate::ordmap::lex_lt(t[i].0@, t[j].0@) by {
        if j == p {
            assert(t[i] == s[i]);
        } else if i == p {
            assert(t[j] == s[j - 1]);
        } else {
            let a = if i < p { i } else { i - 1 };
            let b = if j < p { j } else { j - 1 };
            assert(t[i] == s[a] && t[j] == s[b]);
        }
    }
    if s.to_set().contains(id) {
        let j = choose|j: int| 0 <= j < s.len() && s[j] == id;
        crate::ordmap::lemma_lex_irreflexive(id.0@);
        assert(j < p || p <= j);
    }
    assert forall|x: ReplicaId| t.to_set().contains(x) <==> s.to_set().insert(id).contains(x) by {
        if t.to_set().contains(x) {
            let i = choose|i: int| 0 <= i < t.len() && t[i] == x;
            if i < p {
                assert(s[i] == x);
            } else if i > p {
                assert(s[i - 1] == x);
            }
        }
        if s.to_set().contains(x) {
            let i = choose|i: int| 0 <= i < s.len() && s[i] == x;
            if i < p {
                assert(t[i] == x);
            } else {
                assert(t[i + 1] == x);
            }
        }
        if x == id {
            assert(t[p] == x);
        }
    }
    assert(t.to_set() =~= s.to_set().insert(id));
}

} // verus!
