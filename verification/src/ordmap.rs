//! An ordered map over byte-string keys, kept as a sorted vector.

use crate::codec::debug_entry;
use vstd::prelude::*;

verus! {

/// Lexicographic order on byte strings: the first differing byte decides,
/// and a proper prefix comes first.
pub open spec fn lex_lt(a: Seq<u8>, b: Seq<u8>) -> bool
    decreases a.len(),
{
    if b.len() == 0 {
        false
    } else if a.len() == 0 {
        true
    } else if a[0] != b[0] {
        a[0] < b[0]
    } else {
        lex_lt(a.drop_first(), b.drop_first())
    }
}

pub proof fn lemma_lex_irreflexive(a: Seq<u8>)
    ensures
        !lex_lt(a, a),
    decreases a.len(),
{
    if a.len() > 0 {
        lemma_lex_irreflexive(a.drop_first());
    }
}

pub proof fn lemma_lex_transitive(a: Seq<u8>, b: Seq<u8>, c: Seq<u8>)
    requires
        lex_lt(a, b),
        lex_lt(b, c),
    ensures
        lex_lt(a, c),
    decreases a.len(),
{
    if a.len() > 0 && a[0] == b[0] && b[0] == c[0] {
        lemma_lex_transitive(a.drop_first(), b.drop_first(), c.drop_first());
    }
}

pub proof fn lemma_lex_total(a: Seq<u8>, b: Seq<u8>)
    ensures
        lex_lt(a, b) || lex_lt(b, a) || a == b,
    decreases a.len(),
{
    if a.len() == 0 || b.len() == 0 {
        if a.len() == b.len() {
            assert(a =~= b);
        }
    } else if a[0] == b[0] {
        lemma_lex_total(a.drop_first(), b.drop_first());
        if a.drop_first() == b.drop_first() {
            assert(a =~= seq![a[0]] + a.drop_first());
            assert(b =~= seq![b[0]] + b.drop_first());
        }
    }
}

/// Where one byte string stands relative to another in [`lex_lt`].
pub enum Side {
    Before,
    Same,
    After,
}

pub fn compare_bytes(a: &[u8], b: &[u8]) -> (side: Side)
    ensures
        side is Before <==> lex_lt(a@, b@),
        side is Same <==> a@ == b@,
        side is After <==> lex_lt(b@, a@),
{
    let mut i: usize = 0;
    proof {
        assert(a@.skip(0) =~= a@);
        assert(b@.skip(0) =~= b@);
        lemma_lex_irreflexive(a@);
        lemma_lex_irreflexive(b@);
    }
    while i < a.len() && i < b.len()
        invariant
            i <= a@.len(),
            i <= b@.len(),
            a@.take(i as int) == b@.take(i as int),
            lex_lt(a@, b@) == lex_lt(a@.skip(i as int), b@.skip(i as int)),
            lex_lt(b@, a@) == lex_lt(b@.skip(i as int), a@.skip(i as int)),
            !lex_lt(a@, a@),
            !lex_lt(b@, b@),
        decreases a@.len() - i,
    {
        if a[i] < b[i] {
            return Side::Before;
        }
        if a[i] > b[i] {
            return Side::After;
        }
        proof {
            let n = i as int;
            assert(a@.skip(n).drop_first() =~= a@.skip(n + 1));
            assert(b@.skip(n).drop_first() =~= b@.skip(n + 1));
            assert(a@.take(n + 1) =~= a@.take(n).push(a@[n]));
            assert(b@.take(n + 1) =~= b@.take(n).push(b@[n]));
        }
        i = i + 1;
    }
    proof {
        assert(a@.take(a@.len() as int) =~= a@);
        assert(b@.take(b@.len() as int) =~= b@);
    }
    if a.len() < b.len() {
        Side::Before
    } else if b.len() < a.len() {
        Side::After
    } else {
        Side::Same
    }
}

/// A key of an [`OrdMap`]: what it identifies, and the bytes it sorts by.
pub trait Key: Sized {
    type Id;

    spec fn id(&self) -> Self::Id;

    spec fn bytes(id: Self::Id) -> Seq<u8>;

    proof fn lemma_bytes_identify(a: Self::Id, b: Self::Id)
        requires
            Self::bytes(a) == Self::bytes(b),
        ensures
            a == b,
    ;

    fn as_key(&self) -> (key: &[u8])
        ensures
            key@ == Self::bytes(self.id()),
    ;

    fn duplicate(&self) -> (copy: Self)
        ensures
            copy.id() == self.id(),
    ;
}

/// The keys of `s` strictly ascend in byte order.
pub open spec fn ascending<K: Key, V>(s: Seq<(K, V)>) -> bool {
    forall|i: int, j: int|
        #![trigger s[i], s[j]]
        0 <= i < j < s.len() ==> lex_lt(K::bytes(s[i].0.id()), K::bytes(s[j].0.id()))
}

pub open spec fn holds_at<K: Key, V>(s: Seq<(K, V)>, id: K::Id, i: int) -> bool {
    0 <= i < s.len() && s[i].0.id() == id
}

/// The map whose entries `s` lists.
pub open spec fn to_map<K: Key, V>(s: Seq<(K, V)>) -> Map<K::Id, V> {
    Map::new(
        |id: K::Id| exists|i: int| holds_at(s, id, i),
        |id: K::Id| s[choose|i: int| holds_at(s, id, i)].1,
    )
}

pub proof fn lemma_ascending_unique<K: Key, V>(s: Seq<(K, V)>, i: int, j: int)
    requires
        ascending(s),
        0 <= i < s.len(),
        0 <= j < s.len(),
        s[i].0.id() == s[j].0.id(),
    ensures
        i == j,
{
    lemma_lex_irreflexive(K::bytes(s[i].0.id()));
}

/// Every entry of an ascending listing is in its map.
pub proof fn lemma_to_map_at<K: Key, V>(s: Seq<(K, V)>, i: int)
    requires
        ascending(s),
        0 <= i < s.len(),
    ensures
        to_map(s).contains_key(s[i].0.id()),
        to_map(s)[s[i].0.id()] == s[i].1,
{
    let id = s[i].0.id();
    assert(holds_at(s, id, i));
    let j = choose|j: int| holds_at(s, id, j);
    lemma_ascending_unique(s, i, j);
}

/// The map of a listing is finite.
pub proof fn lemma_to_map_finite<K: Key, V>(s: Seq<(K, V)>)
    requires
        ascending(s),
    ensures
        to_map(s).dom().finite(),
    decreases s.len(),
{
    if s.len() == 0 {
        assert(to_map(s).dom() =~= Set::empty());
    } else {
        let t = s.drop_last();
        lemma_to_map_finite(t);
        assert(to_map(s).dom() =~= to_map(t).dom().insert(s.last().0.id())) by {
            assert forall|id: K::Id| #[trigger]
                to_map(s).dom().contains(id) implies to_map(t).dom().insert(
                s.last().0.id(),
            ).contains(id) by {
                let i = choose|i: int| holds_at(s, id, i);
                if i < t.len() {
                    assert(holds_at(t, id, i));
                }
            }
            assert forall|id: K::Id| #[trigger]
                to_map(t).dom().insert(s.last().0.id()).contains(id) implies to_map(
                s,
            ).dom().contains(id) by {
                if id == s.last().0.id() {
                    assert(holds_at(s, id, s.len() - 1));
                } else {
                    let i = choose|i: int| holds_at(t, id, i);
                    assert(holds_at(s, id, i));
                }
            }
        }
    }
}

/// A map from byte-string keys to values, listed in key order.
pub struct OrdMap<K: Key, V> {
    entries: Vec<(K, V)>,
}

/// The entries as a map, in key order.
impl<K: Key + core::fmt::Debug, V: core::fmt::Debug> core::fmt::Debug for OrdMap<K, V> {
    fn fmt(&self, f: &mut core::fmt::Formatter<'_>) -> core::fmt::Result {
        let mut map = f.debug_map();
        let mut i: usize = 0;
        while i < self.entries.len()
            invariant
                i <= self.entries@.len(),
            decreases self.entries@.len() - i,
        {
            debug_entry(&mut map, &self.entries[i].0, &self.entries[i].1);
            i = i + 1;
        }
        map.finish()
    }
}

impl<K: Key, V> View for OrdMap<K, V> {
    type V = Map<K::Id, V>;

    closed spec fn view(&self) -> Map<K::Id, V> {
        to_map(self.entries@)
    }
}

impl<K: Key, V> OrdMap<K, V> {
    #[verifier::type_invariant]
    spec fn sorted(self) -> bool {
        ascending(self.entries@)
    }

    pub fn new() -> (m: Self)
        ensures
            m@ == Map::<K::Id, V>::empty(),
    {
        let m = OrdMap { entries: Vec::new() };
        assert(m@ =~= Map::<K::Id, V>::empty());
        m
    }

    /// The entries, in key order.
    pub fn entries(&self) -> (r: &Vec<(K, V)>)
        ensures
            ascending(r@),
            to_map(r@) == self@,
            self@.dom().finite(),
    {
        proof {
            use_type_invariant(self);
            lemma_to_map_finite(self.entries@);
        }
        &self.entries
    }

    /// The entries, in key order, taken out of the map.
    pub fn into_entries(self) -> (entries: Vec<(K, V)>)
        ensures
            ascending(entries@),
            to_map(entries@) == self@,
    {
        proof {
            use_type_invariant(&self);
        }
        self.entries
    }

    /// The position of the first entry whose key is not before `key`.
    fn position(&self, key: &[u8]) -> (p: usize)
        ensures
            p <= self.entries@.len(),
            forall|i: int|
                0 <= i < p ==> lex_lt(K::bytes((#[trigger] self.entries@[i]).0.id()), key@),
            forall|i: int|
                p <= i < self.entries@.len() ==> !lex_lt(
                    K::bytes((#[trigger] self.entries@[i]).0.id()),
                    key@,
                ),
    {
        proof {
            use_type_invariant(self);
        }
        let mut lo: usize = 0;
        let mut hi: usize = self.entries.len();
        while lo < hi
            invariant
                ascending(self.entries@),
                lo <= hi <= self.entries@.len(),
                forall|i: int|
                    0 <= i < lo ==> lex_lt(K::bytes((#[trigger] self.entries@[i]).0.id()), key@),
                forall|i: int|
                    hi <= i < self.entries@.len() ==> !lex_lt(
                        K::bytes((#[trigger] self.entries@[i]).0.id()),
                        key@,
                    ),
            decreases hi - lo,
        {
            let mid: usize = lo + (hi - lo) / 2;
            let ghost at = K::bytes(self.entries@[mid as int].0.id());
            match compare_bytes(self.entries[mid].0.as_key(), key) {
                Side::Before => {
                    proof {
                        assert forall|i: int| 0 <= i <= mid implies lex_lt(
                            K::bytes((#[trigger] self.entries@[i]).0.id()),
                            key@,
                        ) by {
                            if i < mid {
                                lemma_lex_transitive(
                                    K::bytes(self.entries@[i].0.id()),
                                    at,
                                    key@,
                                );
                            }
                        }
                    }
                    lo = mid + 1;
                },
                Side::Same | Side::After => {
                    proof {
                        lemma_lex_irreflexive(key@);
                        if lex_lt(at, key@) && lex_lt(key@, at) {
                            lemma_lex_transitive(at, key@, at);
                            lemma_lex_irreflexive(at);
                        }
                        assert forall|i: int| mid <= i < self.entries@.len() implies !lex_lt(
                            K::bytes((#[trigger] self.entries@[i]).0.id()),
                            key@,
                        ) by {
                            if mid < i && lex_lt(K::bytes(self.entries@[i].0.id()), key@) {
                                lemma_lex_transitive(
                                    at,
                                    K::bytes(self.entries@[i].0.id()),
                                    key@,
                                );
                            }
                        }
                    }
                    hi = mid;
                },
            }
        }
        lo
    }

    /// The value under `key`, if there is one.
    pub fn lookup(&self, key: &[u8]) -> (r: Option<&V>)
        ensures
            match r {
                Some(v) => exists|id: K::Id|
                    #![trigger K::bytes(id)]
                    K::bytes(id) == key@ && self@.contains_key(id) && self@[id] == *v,
                None => forall|id: K::Id|
                    #![trigger K::bytes(id)]
                    K::bytes(id) == key@ ==> !self@.contains_key(id),
            },
    {
        proof {
            use_type_invariant(self);
        }
        let p = self.position(key);
        if p < self.entries.len() {
            if let Side::Same = compare_bytes(self.entries[p].0.as_key(), key) {
                proof {
                    lemma_to_map_at(self.entries@, p as int);
                    assert(K::bytes(self.entries@[p as int].0.id()) == key@);
                }
                return Some(&self.entries[p].1);
            }
        }
        proof {
            assert forall|id: K::Id| #![trigger K::bytes(id)] K::bytes(id) == key@ implies !self@.contains_key(
                id,
            ) by {
                if self@.contains_key(id) {
                    let i = choose|i: int| holds_at(self.entries@, id, i);
                    lemma_lex_irreflexive(key@);
                    assert(p <= i);
                    if p < i {
                        assert(lex_lt(
                            K::bytes(self.entries@[p as int].0.id()),
                            K::bytes(self.entries@[i].0.id()),
                        ));
                    }
                }
            }
        }
        None
    }

    pub fn get(&self, k: &K) -> (r: Option<&V>)
        ensures
            match r {
                Some(v) => self@.contains_key(k.id()) && self@[k.id()] == *v,
                None => !self@.contains_key(k.id()),
            },
    {
        let r = self.lookup(k.as_key());
        proof {
            if let Some(v) = r {
                let id = choose|id: K::Id|
                    #![trigger K::bytes(id)]
                    K::bytes(id) == K::bytes(k.id()) && self@.contains_key(id) && self@[id] == *v;
                K::lemma_bytes_identify(id, k.id());
            }
        }
        r
    }

    /// Map `k` to `v`, replacing what was there.
    pub fn insert(&mut self, k: K, v: V)
        ensures
            final(self)@ == old(self)@.insert(k.id(), v),
    {
        proof {
            use_type_invariant(&*self);
        }
        let p = self.position(k.as_key());
        let ghost before = self.entries@;
        let ghost key = K::bytes(k.id());
        let found = p < self.entries.len() && (match compare_bytes(
            self.entries[p].0.as_key(),
            k.as_key(),
        ) {
            Side::Same => true,
            _ => false,
        });
        let mut entries: Vec<(K, V)> = Vec::new();
        std::mem::swap(&mut entries, &mut self.entries);
        if found {
            proof {
                K::lemma_bytes_identify(before[p as int].0.id(), k.id());
            }
            entries[p] = (k, v);
            proof {
                let after = entries@;
                assert(ascending(after));
                assert forall|id: K::Id| to_map(after).contains_key(id) <==> to_map(
                    before,
                ).insert(k.id(), v).contains_key(id) by {
                    if to_map(after).contains_key(id) {
                        let i = choose|i: int| holds_at(after, id, i);
                        assert(holds_at(before, id, i));
                    }
                    if to_map(before).contains_key(id) {
                        let i = choose|i: int| holds_at(before, id, i);
                        assert(holds_at(after, id, i));
                    }
                    assert(holds_at(after, k.id(), p as int));
                }
                assert forall|id: K::Id| #[trigger] to_map(after).contains_key(id) implies to_map(
                    after,
                )[id] == to_map(before).insert(k.id(), v)[id] by {
                    let i = choose|i: int| holds_at(after, id, i);
                    lemma_to_map_at(after, i);
                    if id != k.id() {
                        assert(i != p);
                        lemma_to_map_at(before, i);
                    } else {
                        lemma_ascending_unique(after, i, p as int);
                    }
                }
                assert(to_map(after) =~= to_map(before).insert(k.id(), v));
            }
        } else {
            proof {
                lemma_insert_ascending(before, p as int, (k, v));
            }
            entries.insert(p, (k, v));
        }
        self.entries = entries;
    }

    /// Drop the entry of `k`, handing back its value if there was one.
    pub fn remove(&mut self, k: &K) -> (r: Option<V>)
        ensures
            final(self)@ == old(self)@.remove(k.id()),
            match r {
                Some(v) => old(self)@.contains_key(k.id()) && old(self)@[k.id()] == v,
                None => !old(self)@.contains_key(k.id()),
            },
    {
        proof {
            use_type_invariant(&*self);
        }
        let p = self.position(k.as_key());
        let ghost before = self.entries@;
        let found = p < self.entries.len() && (match compare_bytes(
            self.entries[p].0.as_key(),
            k.as_key(),
        ) {
            Side::Same => true,
            _ => false,
        });
        if !found {
            proof {
                if to_map(before).contains_key(k.id()) {
                    let i = choose|i: int| holds_at(before, k.id(), i);
                    lemma_lex_irreflexive(K::bytes(k.id()));
                    assert(p <= i);
                    if p < i {
                        assert(lex_lt(
                            K::bytes(before[p as int].0.id()),
                            K::bytes(before[i].0.id()),
                        ));
                    }
                }
                assert(self@.remove(k.id()) =~= self@);
            }
            return None;
        }
        let mut entries: Vec<(K, V)> = Vec::new();
        std::mem::swap(&mut entries, &mut self.entries);
        let (_key, v) = entries.remove(p);
        proof {
            let after = entries@;
            K::lemma_bytes_identify(before[p as int].0.id(), k.id());
            lemma_to_map_at(before, p as int);
            lemma_remove_ascending(before, p as int);
        }
        self.entries = entries;
        Some(v)
    }
}

impl<K: Key, V: Copy> OrdMap<K, V> {
    /// A map equal to this one.
    pub fn duplicate(&self) -> (copy: Self)
        ensures
            copy@ == self@,
    {
        proof {
            use_type_invariant(self);
        }
        let mut entries: Vec<(K, V)> = Vec::with_capacity(self.entries.len());
        let mut i: usize = 0;
        while i < self.entries.len()
            invariant
                i <= self.entries@.len(),
                entries@.len() == i,
                forall|j: int|
                    0 <= j < i ==> (#[trigger] entries@[j]).0.id() == self.entries@[j].0.id()
                        && entries@[j].1 == self.entries@[j].1,
            decreases self.entries@.len() - i,
        {
            entries.push((self.entries[i].0.duplicate(), self.entries[i].1));
            i = i + 1;
        }
        proof {
            lemma_same_listing(entries@, self.entries@);
        }
        OrdMap { entries }
    }
}

/// Listings with the same identities and values list the same map.
proof fn lemma_same_listing<K: Key, V>(s: Seq<(K, V)>, t: Seq<(K, V)>)
    requires
        ascending(t),
        s.len() == t.len(),
        forall|i: int|
            0 <= i < s.len() ==> (#[trigger] s[i]).0.id() == t[i].0.id() && s[i].1 == t[i].1,
    ensures
        ascending(s),
        to_map(s) == to_map(t),
{
    assert forall|i: int, j: int| #![trigger s[i], s[j]] 0 <= i < j < s.len() implies lex_lt(
        K::bytes(s[i].0.id()),
        K::bytes(s[j].0.id()),
    ) by {
        assert(lex_lt(K::bytes(t[i].0.id()), K::bytes(t[j].0.id())));
    }
    assert forall|id: K::Id| to_map(s).contains_key(id) <==> to_map(t).contains_key(id) by {
        if to_map(s).contains_key(id) {
            let i = choose|i: int| holds_at(s, id, i);
            assert(holds_at(t, id, i));
        }
        if to_map(t).contains_key(id) {
            let i = choose|i: int| holds_at(t, id, i);
            assert(holds_at(s, id, i));
        }
    }
    assert forall|id: K::Id| #[trigger] to_map(s).contains_key(id) implies to_map(s)[id] == to_map(
        t,
    )[id] by {
        let i = choose|i: int| holds_at(s, id, i);
        lemma_to_map_at(s, i);
        lemma_to_map_at(t, i);
    }
    assert(to_map(s) =~= to_map(t));
}

proof fn lemma_insert_ascending<K: Key, V>(s: Seq<(K, V)>, p: int, e: (K, V))
    requires
        ascending(s),
        0 <= p <= s.len(),
        forall|i: int| 0 <= i < p ==> lex_lt(K::bytes((#[trigger] s[i]).0.id()), K::bytes(e.0.id())),
        forall|i: int|
            p <= i < s.len() ==> !lex_lt(K::bytes((#[trigger] s[i]).0.id()), K::bytes(e.0.id())),
        p < s.len() ==> K::bytes(s[p].0.id()) != K::bytes(e.0.id()),
    ensures
        ascending(s.insert(p, e)),
        to_map(s.insert(p, e)) == to_map(s).insert(e.0.id(), e.1),
{
    let t = s.insert(p, e);
    let key = K::bytes(e.0.id());
    assert forall|i: int| p <= i < s.len() implies lex_lt(
        key,
        K::bytes((#[trigger] s[i]).0.id()),
    ) by {
        lemma_lex_total(key, K::bytes(s[i].0.id()));
        if p < i {
            lemma_lex_total(key, K::bytes(s[p].0.id()));
            assert(lex_lt(K::bytes(s[p].0.id()), K::bytes(s[i].0.id())));
            lemma_lex_transitive(key, K::bytes(s[p].0.id()), K::bytes(s[i].0.id()));
        }
    }
    assert(forall|i: int| 0 <= i < p ==> #[trigger] t[i] == s[i]);
    assert(t[p] == e);
    assert(forall|i: int| p < i < t.len() ==> #[trigger] t[i] == s[i - 1]);
    assert(ascending(t)) by {
        assert forall|i: int, j: int| #![trigger t[i], t[j]] 0 <= i < j < t.len() implies lex_lt(
            K::bytes(t[i].0.id()),
            K::bytes(t[j].0.id()),
        ) by {
            if j == p {
                assert(t[i] == s[i]);
            } else if i == p {
                assert(t[j] == s[j - 1]);
            } else {
                let a = if i < p { i } else { i - 1 };
                let b = if j < p { j } else { j - 1 };
                assert(t[i] == s[a] && t[j] == s[b]);
            }
        }
    }
    assert forall|id: K::Id| to_map(t).contains_key(id) <==> to_map(s).insert(
        e.0.id(),
        e.1,
    ).contains_key(id) by {
        if to_map(t).contains_key(id) {
            let i = choose|i: int| holds_at(t, id, i);
            if i < p {
                assert(holds_at(s, id, i));
            } else if i > p {
                assert(holds_at(s, id, i - 1));
            }
        }
        if to_map(s).contains_key(id) {
            let i = choose|i: int| holds_at(s, id, i);
            if i < p {
                assert(holds_at(t, id, i));
            } else {
                assert(t[i + 1] == s[i]);
                assert(holds_at(t, id, i + 1));
            }
        }
        assert(holds_at(t, e.0.id(), p));
    }
    assert forall|id: K::Id| #[trigger] to_map(t).contains_key(id) implies to_map(t)[id] == to_map(
        s,
    ).insert(e.0.id(), e.1)[id] by {
        let i = choose|i: int| holds_at(t, id, i);
        lemma_to_map_at(t, i);
        if i < p {
            lemma_to_map_at(s, i);
            lemma_lex_irreflexive(key);
        } else if i > p {
            lemma_to_map_at(s, i - 1);
            lemma_lex_irreflexive(key);
        }
    }
    assert(to_map(t) =~= to_map(s).insert(e.0.id(), e.1));
}

proof fn lemma_remove_ascending<K: Key, V>(s: Seq<(K, V)>, p: int)
    requires
        ascending(s),
        0 <= p < s.len(),
    ensures
        ascending(s.remove(p)),
        to_map(s.remove(p)) == to_map(s).remove(s[p].0.id()),
{
    let t = s.remove(p);
    let gone = s[p].0.id();
    assert(forall|i: int| 0 <= i < p ==> #[trigger] t[i] == s[i]);
    assert(forall|i: int| p <= i < t.len() ==> #[trigger] t[i] == s[i + 1]);
    assert(ascending(t)) by {
        assert forall|i: int, j: int| #![trigger t[i], t[j]] 0 <= i < j < t.len() implies lex_lt(
            K::bytes(t[i].0.id()),
            K::bytes(t[j].0.id()),
        ) by {
            let a = if i < p { i } else { i + 1 };
            let b = if j < p { j } else { j + 1 };
            assert(t[i] == s[a] && t[j] == s[b]);
        }
    }
    assert forall|id: K::Id| to_map(t).contains_key(id) <==> to_map(s).remove(gone).contains_key(
        id,
    ) by {
        if to_map(t).contains_key(id) {
            let i = choose|i: int| holds_at(t, id, i);
            let a = if i < p { i } else { i + 1 };
            assert(holds_at(s, id, a));
            if id == gone {
                lemma_ascending_unique(s, a, p);
            }
        }
        if to_map(s).remove(gone).contains_key(id) {
            let i = choose|i: int| holds_at(s, id, i);
            assert(i != p);
            if i < p {
                assert(holds_at(t, id, i));
            } else {
                assert(t[i - 1] == s[i]);
                assert(holds_at(t, id, i - 1));
            }
        }
    }
    assert forall|id: K::Id| #[trigger] to_map(t).contains_key(id) implies to_map(t)[id] == to_map(
        s,
    ).remove(gone)[id] by {
        let i = choose|i: int| holds_at(t, id, i);
        lemma_to_map_at(t, i);
        let a = if i < p { i } else { i + 1 };
        assert(t[i] == s[a]);
        lemma_to_map_at(s, a);
    }
    assert(to_map(t) =~= to_map(s).remove(gone));
}

} // verus!
