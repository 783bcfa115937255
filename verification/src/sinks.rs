//! Replication-safe sinks.
//!
//! A sink in a sod pipeline must be a **pure function of the net multiset**:
//! under replication, a retraction can arrive before its matching insert, and
//! any sink that clamps or drops on that transient makes its state depend on
//! delta arrival order, so that replicas diverge.
//!
//! [`Bag`] is a persistent counted multiset whose stored state keeps every
//! nonzero running sum, including negative ones. Which store the sums are kept
//! in, and how elements become keys, is up to the caller.

use crate::bytes::{read_signed_be64, to_signed_be64};
use crate::ordmap::OrdMap;
use vstd::prelude::*;

verus! {

/// The entries of `z` that are not zero.
pub open spec fn nonzero(z: Map<Seq<u8>, i64>) -> Map<Seq<u8>, i64> {
    Map::new(|d: Seq<u8>| z.contains_key(d) && z[d] != 0, |d: Seq<u8>| z[d])
}

/// What is pending after the deltas `pushed`, first to last, in one
/// transaction: an entry for each key, zero or not.
pub open spec fn accumulated(pushed: Seq<(Seq<u8>, i64)>) -> Map<Seq<u8>, i64>
    decreases pushed.len(),
{
    if pushed.len() == 0 {
        Map::empty()
    } else {
        let before = accumulated(pushed.drop_last());
        let (key, delta) = pushed.last();
        before.insert(
            key,
            crate::zset::wrap64(crate::zset::multiplicity(before, key) + delta),
        )
    }
}

/// Persistent counted multiset: each distinct element maps to its net
/// multiplicity. Any **nonzero** running sum is persisted, including negative
/// ones, so the stored state is a pure function of the net multiset regardless
/// of delta arrival order. Readers surface only positive multiplicities.
pub struct Bag {
    name: String,
    // key-encoded data -> accumulated delta this transaction
    pending: OrdMap<Vec<u8>, i64>,
}

impl View for Bag {
    type V = Map<Seq<u8>, i64>;

    /// The deltas accumulated in the transaction under way.
    closed spec fn view(&self) -> Map<Seq<u8>, i64> {
        self.pending@
    }
}

/// What becomes of a key in the store.
pub enum Write {
    Put([u8; 8]),
    Remove,
}

impl View for Write {
    type V = Option<Seq<u8>>;

    /// The value that the key has then, if any.
    open spec fn view(&self) -> Option<Seq<u8>> {
        match self {
            Write::Put(value) => Some(value@),
            Write::Remove => None,
        }
    }
}

/// What a key is left with whose stored multiplicity, if any, is `stored` and
/// changes by `delta`: a value if and only if the sum is not zero.
pub open spec fn settled(stored: Option<Seq<u8>>, delta: i64) -> Option<Seq<u8>> {
    let held: i64 = match stored {
        Some(v) => crate::bytes::from_signed_be64(v),
        None => 0,
    };
    let n = crate::zset::wrap64(held + delta);
    if n != 0 {
        Some(crate::bytes::signed_be64(n))
    } else {
        None
    }
}

/// The value under `key`, if any.
pub open spec fn stored_at(store: Map<Seq<u8>, Seq<u8>>, key: Seq<u8>) -> Option<Seq<u8>> {
    if store.contains_key(key) {
        Some(store[key])
    } else {
        None
    }
}

/// The values looked up, as bytes.
pub open spec fn stored_bytes(stored: Seq<Option<Vec<u8>>>) -> Seq<Option<Seq<u8>>> {
    stored.map_values(
        |v: Option<Vec<u8>>|
            match v {
                Some(v) => Some(v@),
                None => None,
            },
    )
}

/// The store after `writes`, first to last.
pub open spec fn written(
    store: Map<Seq<u8>, Seq<u8>>,
    writes: Seq<(Seq<u8>, Option<Seq<u8>>)>,
) -> Map<Seq<u8>, Seq<u8>>
    decreases writes.len(),
{
    if writes.len() == 0 {
        store
    } else {
        let before = written(store, writes.drop_last());
        match writes.last() {
            (key, Some(value)) => before.insert(key, value),
            (key, None) => before.remove(key),
        }
    }
}

/// What a transaction with the given changes writes into `store`, key by key.
pub open spec fn committed(
    store: Map<Seq<u8>, Seq<u8>>,
    changes: Seq<(Seq<u8>, i64)>,
) -> Seq<(Seq<u8>, Option<Seq<u8>>)> {
    changes.map_values(|c: (Seq<u8>, i64)| (c.0, settled(stored_at(store, c.0), c.1)))
}

/// `store` keeps the multiset `z`: under each datum its multiplicity, and nothing
/// under a datum of multiplicity zero.
pub open spec fn keeps(store: Map<Seq<u8>, Seq<u8>>, z: Map<Seq<u8>, i64>) -> bool {
    &&& crate::zset::zero_free(z)
    &&& forall|d: Seq<u8>| #[trigger]
        stored_at(store, d) == if crate::zset::multiplicity(z, d) != 0 {
            Some(crate::bytes::signed_be64(crate::zset::multiplicity(z, d)))
        } else {
            None
        }
}

impl Bag {
    pub closed spec fn the_name(&self) -> Seq<char> {
        self.name@
    }

    /// `name` identifies this sink's keyspace and must be unique among all
    /// named nodes in the pipeline.
    pub fn new(name: String) -> (bag: Self)
        ensures
            bag.the_name() == name@,
            bag@ == Map::<Seq<u8>, i64>::empty(),
    {
        Bag { name, pending: OrdMap::new() }
    }

    pub fn name(&self) -> (name: &str)
        ensures
            name@ == self.the_name(),
    {
        self.name.as_str()
    }

    /// Accumulate one delta.
    pub fn push(&mut self, key: Vec<u8>, delta: i64)
        ensures
            final(self).the_name() == old(self).the_name(),
            final(self)@ == old(self)@.insert(
                key@,
                crate::zset::wrap64(crate::zset::multiplicity(old(self)@, key@) + delta),
            ),
    {
        let held: i64 = match self.pending.get(&key) {
            Some(n) => *n,
            None => 0,
        };
        let n: i64 = held.wrapping_add(delta);
        assert(n == crate::zset::wrap64(held + delta));
        self.pending.insert(key, n);
    }

    /// The keys that the transaction changes, those whose delta is not zero, in key
    /// order.
    pub fn changed_keys(&self) -> (keys: Vec<Vec<u8>>)
        ensures
            crate::engine::lists(crate::engine::listing(nonzero(self@)), nonzero(self@)),
            keys@.len() == crate::engine::listing(nonzero(self@)).len(),
            forall|k: int|
                0 <= k < keys@.len() ==> (#[trigger] keys@[k])@ == crate::engine::listing(
                    nonzero(self@),
                )[k].0,
    {
        let entries = self.pending.entries();
        proof {
            lemma_changes(entries@);
        }
        let mut keys: Vec<Vec<u8>> = Vec::new();
        let mut i: usize = 0;
        while i < entries.len()
            invariant
                i <= entries@.len(),
                keys@.len() == changed(entries@.take(i as int)).len(),
                forall|k: int|
                    0 <= k < keys@.len() ==> (#[trigger] keys@[k])@ == changed(
                        entries@.take(i as int),
                    )[k].0,
            decreases entries@.len() - i,
        {
            let ghost n = i as int;
            proof {
                assert(entries@.take(n + 1).drop_last() =~= entries@.take(n));
            }
            if entries[i].1 != 0 {
                let key = entries[i].0.clone();
                assert(key@ =~= entries@[n].0@);
                keys.push(key);
            }
            i = i + 1;
        }
        assert(entries@.take(i as int) =~= entries@);
        keys
    }

    /// Settle the transaction: what to write under each key that it changes, in
    /// key order, where `stored` holds what the store has under each of them.
    /// Nothing is pending afterwards.
    pub fn commit(&mut self, stored: Vec<Option<Vec<u8>>>) -> (writes: Vec<(Vec<u8>, Write)>)
        requires
            stored@.len() == crate::engine::listing(nonzero(old(self)@)).len(),
            forall|k: int|
                0 <= k < stored@.len() ==> ((#[trigger] stored@[k]) matches Some(v) ==> v@.len()
                    == 8),
        ensures
            final(self).the_name() == old(self).the_name(),
            final(self)@ == Map::<Seq<u8>, i64>::empty(),
            crate::engine::lists(
                crate::engine::listing(nonzero(old(self)@)),
                nonzero(old(self)@),
            ),
            writes@.len() == stored@.len(),
            forall|k: int|
                0 <= k < writes@.len() ==> {
                    let (key, delta) = crate::engine::listing(nonzero(old(self)@))[k];
                    &&& (#[trigger] writes@[k]).0@ == key
                    &&& writes@[k].1@ == settled(stored_bytes(stored@)[k], delta)
                },
    {
        let changes = self.drain();
        let ghost list = crate::codec::deltas(changes@);
        let mut writes: Vec<(Vec<u8>, Write)> = Vec::new();
        for change in it: changes
            invariant
                it.seq() == changes@,
                list == crate::codec::deltas(changes@),
                stored@.len() == changes@.len(),
                writes@.len() == it.index(),
                forall|k: int|
                    0 <= k < stored@.len() ==> ((#[trigger] stored@[k]) matches Some(v)
                        ==> v@.len() == 8),
                forall|k: int|
                    0 <= k < writes@.len() ==> (#[trigger] writes@[k]).0@ == list[k].0
                        && writes@[k].1@ == settled(stored_bytes(stored@)[k], list[k].1),
        {
            let ghost n = it.index() as int;
            let (key, delta) = change;
            let w = match &stored[writes.len()] {
                Some(v) => settle(Some(v.as_slice()), delta),
                None => settle(None, delta),
            };
            assert(list[n] == (key@, delta));
            writes.push((key, w));
        }
        writes
    }

    /// Take out what the transaction changes: the keys whose delta is not zero,
    /// in key order. Nothing is pending afterwards.
    fn drain(&mut self) -> (changes: Vec<(Vec<u8>, i64)>)
        ensures
            final(self).the_name() == old(self).the_name(),
            final(self)@ == Map::<Seq<u8>, i64>::empty(),
            crate::codec::deltas(changes@) == crate::engine::listing(nonzero(old(self)@)),
            crate::engine::lists(crate::codec::deltas(changes@), nonzero(old(self)@)),
    {
        let mut pending: OrdMap<Vec<u8>, i64> = OrdMap::new();
        std::mem::swap(&mut pending, &mut self.pending);
        let entries = pending.into_entries();
        proof {
            lemma_changes(entries@);
        }
        let mut changes: Vec<(Vec<u8>, i64)> = Vec::new();
        for entry in it: entries
            invariant
                it.seq() == entries@,
                crate::codec::deltas(changes@) == changed(entries@.take(it.index() as int)),
        {
            let ghost n = it.index() as int;
            proof {
                assert(entries@.take(n + 1).drop_last() =~= entries@.take(n));
            }
            let (key, delta) = entry;
            let ghost before = changes@;
            if delta != 0 {
                changes.push((key, delta));
                assert(crate::codec::deltas(changes@) =~= crate::codec::deltas(before).push(
                    (key@, delta),
                ));
            }
        }
        assert(entries@.take(entries@.len() as int) =~= entries@);
        changes
    }

    /// Drop what is pending.
    pub fn abort(&mut self)
        ensures
            final(self).the_name() == old(self).the_name(),
            final(self)@ == Map::<Seq<u8>, i64>::empty(),
    {
        self.pending = OrdMap::new();
    }
}

/// The entries that are not zero, in order.
spec fn changed(entries: Seq<(Vec<u8>, i64)>) -> Seq<(Seq<u8>, i64)>
    decreases entries.len(),
{
    if entries.len() == 0 {
        seq![]
    } else {
        let (key, delta) = entries.last();
        let before = changed(entries.drop_last());
        if delta != 0 {
            before.push((key@, delta))
        } else {
            before
        }
    }
}

/// Where the changes come from.
proof fn lemma_changed_from(entries: Seq<(Vec<u8>, i64)>) -> (from: Seq<int>)
    ensures
        from.len() == changed(entries).len(),
        forall|k: int, l: int|
            #![trigger from[k], from[l]]
            0 <= k < l < from.len() ==> from[k] < from[l],
        forall|k: int|
            0 <= k < from.len() ==> {
                let j = #[trigger] from[k];
                &&& 0 <= j < entries.len()
                &&& changed(entries)[k] == (entries[j].0@, entries[j].1)
                &&& entries[j].1 != 0
            },
        forall|j: int|
            0 <= j < entries.len() && (#[trigger] entries[j]).1 != 0 ==> from.contains(j),
    decreases entries.len(),
{
    if entries.len() == 0 {
        seq![]
    } else {
        let init = entries.drop_last();
        let n = entries.len() - 1;
        let before = lemma_changed_from(init);
        let from = if entries[n].1 != 0 {
            before.push(n)
        } else {
            before
        };
        assert forall|k: int| 0 <= k < from.len() implies ({
            let j = #[trigger] from[k];
            &&& 0 <= j < entries.len()
            &&& changed(entries)[k] == (entries[j].0@, entries[j].1)
            &&& entries[j].1 != 0
        }) by {
            if k < before.len() {
                assert(from[k] == before[k]);
                assert(init[before[k]] == entries[before[k]]);
            }
        }
        assert forall|k: int, l: int|
            #![trigger from[k], from[l]]
            0 <= k < l < from.len() implies from[k] < from[l] by {
            assert(from[k] == before[k]);
            assert(before[k] < n);
            if l < before.len() {
                assert(from[l] == before[l]);
            }
        }
        assert forall|j: int|
            0 <= j < entries.len() && (#[trigger] entries[j]).1 != 0 implies from.contains(j) by {
            if j < n {
                assert(init[j] == entries[j]);
                let k = choose|k: int| 0 <= k < before.len() && before[k] == j;
                assert(from[k] == j);
            } else {
                assert(from[before.len() as int] == j);
            }
        }
        from
    }
}

/// The changes of a transaction list what is pending and not zero.
proof fn lemma_changes(entries: Seq<(Vec<u8>, i64)>) -> (list: Seq<(Seq<u8>, i64)>)
    requires
        crate::ordmap::ascending(entries),
    ensures
        list == changed(entries),
        list == crate::engine::listing(nonzero(crate::ordmap::to_map(entries))),
        crate::engine::lists(list, nonzero(crate::ordmap::to_map(entries))),
{
    let list = changed(entries);
    let from = lemma_changed_from(entries);
    let z = nonzero(crate::ordmap::to_map(entries));
    assert(crate::engine::lists(list, z)) by {
        assert forall|k: int, l: int|
            #![trigger list[k], list[l]]
            0 <= k < l < list.len() implies crate::ordmap::lex_lt(list[k].0, list[l].0) by {
            let (a, b) = (from[k], from[l]);
            assert(a < b && list[k].0 == entries[a].0@ && list[l].0 == entries[b].0@);
        }
        assert forall|k: int| 0 <= k < list.len() implies z.contains_key((#[trigger] list[k]).0)
            && z[list[k].0] == list[k].1 by {
            let j = from[k];
            crate::ordmap::lemma_to_map_at(entries, j);
        }
        assert forall|d: Seq<u8>| #[trigger] z.contains_key(d) implies exists|k: int|
            0 <= k < list.len() && (#[trigger] list[k]).0 == d by {
            let j = choose|j: int| crate::ordmap::holds_at(entries, d, j);
            assert(crate::ordmap::holds_at(entries, d, j));
            crate::ordmap::lemma_to_map_at(entries, j);
            assert(entries[j].1 != 0);
            let k = choose|k: int| 0 <= k < from.len() && from[k] == j;
            assert(from[k] == j);
            assert(list[k].0 == d);
        }
    }
    crate::engine::law_listing_is_determined(list, crate::engine::listing(z), z);
    list
}

/// What to write for a key whose stored multiplicity, if any, is `stored` and
/// changes by `delta`.
pub fn settle(stored: Option<&[u8]>, delta: i64) -> (w: Write)
    requires
        stored matches Some(v) ==> v@.len() == 8,
    ensures
        w@ == settled(
            match stored {
                Some(v) => Some(v@),
                None => None,
            },
            delta,
        ),
{
    let held: i64 = match stored {
        Some(v) => read_signed_be64(v),
        None => 0,
    };
    let n: i64 = held.wrapping_add(delta);
    assert(n == crate::zset::wrap64(held + delta));
    if n != 0 {
        Write::Put(to_signed_be64(n))
    } else {
        Write::Remove
    }
}

/// The multiplicity that readers see for a stored value: `None` for an element
/// currently at a negative running sum (retraction seen before its insert).
pub fn visible(stored: &[u8]) -> (r: Option<i64>)
    requires
        stored@.len() == 8,
    ensures
        r == if crate::bytes::from_signed_be64(stored@) > 0 {
            Some(crate::bytes::from_signed_be64(stored@))
        } else {
            None
        },
{
    let n: i64 = read_signed_be64(stored);
    if n <= 0 {
        None
    } else {
        Some(n)
    }
}

/// What is pending for a key is the sum of its deltas.
proof fn lemma_accumulated_sums(pushed: Seq<(Seq<u8>, i64)>, d: Seq<u8>)
    ensures
        crate::zset::multiplicity(accumulated(pushed), d) == crate::zset::wrap64(
            crate::zset::total(pushed, d),
        ),
    decreases pushed.len(),
{
    if pushed.len() > 0 {
        lemma_accumulated_sums(pushed.drop_last(), d);
        let (key, delta) = pushed.last();
        if key == d {
            crate::zset::lemma_wrap64_sum(
                crate::zset::total(pushed.drop_last(), d),
                delta as int,
            );
        }
    }
}

/// A listing gives each datum its multiplicity once.
proof fn lemma_listing_total(list: Seq<(Seq<u8>, i64)>, z: Map<Seq<u8>, i64>, d: Seq<u8>, n: int)
    requires
        crate::engine::lists(list, z),
        0 <= n <= list.len(),
    ensures
        crate::zset::total(list.take(n), d) == if exists|i: int|
            0 <= i < n && (#[trigger] list[i]).0 == d {
            z[d] as int
        } else {
            0
        },
    decreases n,
{
    if n == 0 {
        assert(list.take(0) =~= seq![]);
    } else {
        lemma_listing_total(list, z, d, n - 1);
        assert(list.take(n).drop_last() =~= list.take(n - 1));
        let last = list[n - 1];
        assert(list.take(n).last() == last);
        if last.0 == d {
            if exists|i: int| 0 <= i < n - 1 && (#[trigger] list[i]).0 == d {
                let i = choose|i: int| 0 <= i < n - 1 && (#[trigger] list[i]).0 == d;
                assert(crate::ordmap::lex_lt(list[i].0, list[n - 1].0));
                crate::ordmap::lemma_lex_irreflexive(d);
            }
        } else {
            if exists|i: int| 0 <= i < n && (#[trigger] list[i]).0 == d {
                let i = choose|i: int| 0 <= i < n && (#[trigger] list[i]).0 == d;
                assert(i < n - 1);
            }
        }
    }
}

/// The stored bag is a pure function of the net multiset: writing a
/// transaction's changes into the store adds exactly the deltas pushed, in
/// whatever order they were pushed and however they were split into
/// transactions.
pub proof fn law_bag_adds_deltas(
    store: Map<Seq<u8>, i64>,
    pushed: Seq<(Seq<u8>, i64)>,
    changes: Seq<(Seq<u8>, i64)>,
)
    requires
        crate::zset::zero_free(store),
        crate::engine::lists(changes, nonzero(accumulated(pushed))),
    ensures
        crate::zset::add_deltas(store, changes) == crate::zset::add_deltas(store, pushed),
{
    let a = crate::zset::add_deltas(store, changes);
    let b = crate::zset::add_deltas(store, pushed);
    assert forall|d: Seq<u8>| #[trigger] crate::zset::multiplicity(a, d)
        == crate::zset::multiplicity(b, d) by {
        crate::zset::law_add_deltas_sums(store, changes, d);
        crate::zset::law_add_deltas_sums(store, pushed, d);
        lemma_accumulated_sums(pushed, d);
        let n = changes.len() as int;
        assert(changes.take(n) =~= changes);
        lemma_listing_total(changes, nonzero(accumulated(pushed)), d, n);
        let sum = crate::zset::total(pushed, d);
        assert(crate::zset::total(changes, d) == crate::zset::wrap64(sum)) by {
            let z = nonzero(accumulated(pushed));
            if z.contains_key(d) {
                let i = choose|i: int| 0 <= i < changes.len() && (#[trigger] changes[i]).0 == d;
                assert(changes[i].0 == d);
            } else if exists|i: int| 0 <= i < n && (#[trigger] changes[i]).0 == d {
                let i = choose|i: int| 0 <= i < n && (#[trigger] changes[i]).0 == d;
                assert(z.contains_key(changes[i].0));
            }
        }
        crate::zset::lemma_wrap64_sum(crate::zset::multiplicity(store, d) as int, sum);
    }
    crate::zset::law_add_deltas_sums(store, changes, seq![]);
    crate::zset::law_add_deltas_sums(store, pushed, seq![]);
    crate::zset::lemma_zset_ext(a, b);
}

/// A key that is not written keeps its value.
proof fn lemma_unwritten(
    store: Map<Seq<u8>, Seq<u8>>,
    writes: Seq<(Seq<u8>, Option<Seq<u8>>)>,
    key: Seq<u8>,
)
    requires
        forall|k: int| 0 <= k < writes.len() ==> (#[trigger] writes[k]).0 != key,
    ensures
        stored_at(written(store, writes), key) == stored_at(store, key),
    decreases writes.len(),
{
    if writes.len() > 0 {
        let init = writes.drop_last();
        assert forall|k: int| 0 <= k < init.len() implies (#[trigger] init[k]).0 != key by {
            assert(init[k] == writes[k]);
        }
        lemma_unwritten(store, init, key);
        assert(writes[writes.len() - 1].0 != key);
    }
}

proof fn lemma_commit_prefix(
    store: Map<Seq<u8>, Seq<u8>>,
    z: Map<Seq<u8>, i64>,
    changes: Seq<(Seq<u8>, i64)>,
    pending: Map<Seq<u8>, i64>,
    n: int,
)
    requires
        keeps(store, z),
        crate::engine::lists(changes, pending),
        0 <= n <= changes.len(),
    ensures
        keeps(
            written(store, committed(store, changes).take(n)),
            crate::zset::add_deltas(z, changes.take(n)),
        ),
    decreases n,
{
    let writes = committed(store, changes);
    if n == 0 {
        assert(writes.take(0) =~= seq![]);
        assert(changes.take(0) =~= seq![]);
    } else {
        lemma_commit_prefix(store, z, changes, pending, n - 1);
        assert(writes.take(n).drop_last() =~= writes.take(n - 1));
        assert(changes.take(n).drop_last() =~= changes.take(n - 1));
        let (key, delta) = changes[n - 1];
        assert(changes.take(n).last() == changes[n - 1]);
        assert(writes.take(n).last() == writes[n - 1]);
        let (store1, z1) = (
            written(store, writes.take(n - 1)),
            crate::zset::add_deltas(z, changes.take(n - 1)),
        );
        let (store2, z2) = (
            written(store, writes.take(n)),
            crate::zset::add_deltas(z, changes.take(n)),
        );
        let earlier = writes.take(n - 1);
        assert forall|k: int| 0 <= k < earlier.len() implies (#[trigger] earlier[k]).0 != key by {
            assert(earlier[k].0 == changes[k].0);
            assert(crate::ordmap::lex_lt(changes[k].0, changes[n - 1].0));
            crate::ordmap::lemma_lex_irreflexive(key);
        }
        lemma_unwritten(store, earlier, key);
        let held = crate::zset::multiplicity(z1, key);
        assert(stored_at(store1, key) == stored_at(store, key));
        crate::bytes::law_bytes_read_back(0, held);
        assert(writes[n - 1] == (key, settled(stored_at(store1, key), delta)));
        assert(z2 == crate::zset::with_multiplicity(
            z1,
            key,
            crate::zset::wrap64(held + delta),
        ));
        assert forall|d: Seq<u8>| #[trigger] stored_at(store2, d) == if crate::zset::multiplicity(
            z2,
            d,
        ) != 0 {
            Some(crate::bytes::signed_be64(crate::zset::multiplicity(z2, d)))
        } else {
            None
        } by {
            assert(stored_at(store1, d) == if crate::zset::multiplicity(z1, d) != 0 {
                Some(crate::bytes::signed_be64(crate::zset::multiplicity(z1, d)))
            } else {
                None
            });
        }
    }
}

/// A committed transaction adds to the stored multiset exactly the deltas pushed,
/// in whatever order they were pushed: the store then keeps the sums, an element
/// whose sum is zero has no entry, and a negative sum is kept.
pub proof fn law_commit_adds_deltas(
    store: Map<Seq<u8>, Seq<u8>>,
    z: Map<Seq<u8>, i64>,
    pushed: Seq<(Seq<u8>, i64)>,
    changes: Seq<(Seq<u8>, i64)>,
)
    requires
        keeps(store, z),
        crate::engine::lists(changes, nonzero(accumulated(pushed))),
    ensures
        keeps(written(store, committed(store, changes)), crate::zset::add_deltas(z, pushed)),
{
    let n = changes.len() as int;
    let writes = committed(store, changes);
    assert(changes.take(n) =~= changes);
    assert(writes.take(n) =~= writes);
    lemma_commit_prefix(store, z, changes, nonzero(accumulated(pushed)), n);
    law_bag_adds_deltas(z, pushed, changes);
}

} // verus!
