//! The applied-cursor of an engine whose state lives in a transactional store,
//! and the check that a frame's data decode as the store's type.
//!
//! The cursor advance deposited by an apply is written **inside the same
//! transaction** as the frame's deltas. That one-transaction property is what
//! makes crash healing exact: on open, the cursor tells the replica precisely
//! which log suffix the store has not yet seen.
//!
//! Cursor layout: key = 16-byte origin id, value = 8-byte big-endian seq.

use crate::bytes::{read_be64, to_be64};
use crate::error::SodError;
use crate::frame::{Frame, ReplicaId};
use crate::vector::VersionVector;
use vstd::prelude::*;

verus! {

/// The origin whose key is `key`.
pub open spec fn origin_of(key: Seq<u8>) -> ReplicaId {
    choose|origin: ReplicaId| #[trigger] origin.0@ == key
}

/// The cursor `m` with the seq of one origin set.
pub open spec fn with_seq(m: Map<ReplicaId, u64>, origin: ReplicaId, seq: u64) -> Map<
    ReplicaId,
    u64,
> {
    if seq == 0 {
        m.remove(origin)
    } else {
        m.insert(origin, seq)
    }
}

/// The cursor `m` after the store's `entries`, keys and values, were recovered
/// into it, first to last.
pub open spec fn recovered(m: Map<ReplicaId, u64>, entries: Seq<(Seq<u8>, Seq<u8>)>) -> Map<
    ReplicaId,
    u64,
>
    decreases entries.len(),
{
    if entries.len() == 0 {
        m
    } else {
        let (key, value) = entries.last();
        with_seq(
            recovered(m, entries.drop_last()),
            origin_of(key),
            crate::bytes::from_be64(value) as u64,
        )
    }
}

/// The entries of a store, as bytes.
pub open spec fn entry_bytes(entries: Seq<(Vec<u8>, Vec<u8>)>) -> Seq<(Seq<u8>, Seq<u8>)> {
    entries.map_values(|e: (Vec<u8>, Vec<u8>)| (e.0@, e.1@))
}

/// The store that the cursor advances `written`, first to last, leave behind.
pub open spec fn cursor_store(written: Seq<(ReplicaId, u64)>) -> Map<Seq<u8>, Seq<u8>>
    decreases written.len(),
{
    if written.len() == 0 {
        Map::empty()
    } else {
        let (origin, seq) = written.last();
        cursor_store(written.drop_last()).insert(origin.0@, crate::bytes::be64(seq))
    }
}

/// The cursor `m` after the advances `written`, first to last.
pub open spec fn advanced(m: Map<ReplicaId, u64>, written: Seq<(ReplicaId, u64)>) -> Map<
    ReplicaId,
    u64,
>
    decreases written.len(),
{
    if written.len() == 0 {
        m
    } else {
        let (origin, seq) = written.last();
        with_seq(advanced(m, written.drop_last()), origin, seq)
    }
}

/// The cursor after the advances `written`, first to last, of an engine that was
/// given nothing before.
pub open spec fn cursor_after(written: Seq<(ReplicaId, u64)>) -> Map<ReplicaId, u64> {
    advanced(Map::empty(), written)
}

/// `entries` are those of `store`, in whatever order.
pub open spec fn lists_store(
    entries: Seq<(Seq<u8>, Seq<u8>)>,
    store: Map<Seq<u8>, Seq<u8>>,
) -> bool {
    &&& forall|i: int|
        0 <= i < entries.len() ==> {
            let (key, value) = #[trigger] entries[i];
            store.contains_key(key) && store[key] == value
        }
    &&& forall|key: Seq<u8>| #[trigger]
        store.contains_key(key) ==> exists|i: int|
            0 <= i < entries.len() && (#[trigger] entries[i]).0 == key
}

/// State shared between an engine and the node that persists its cursor.
pub struct CursorState {
    // cursor recovered from the store
    loaded: VersionVector,
    // cursor advance deposited for the in-flight transaction
    pending: Option<(ReplicaId, u64)>,
}

#[verifier::ext_equal]
pub struct CursorView {
    pub loaded: Map<ReplicaId, u64>,
    pub pending: Option<(ReplicaId, u64)>,
}

impl View for CursorState {
    type V = CursorView;

    closed spec fn view(&self) -> CursorView {
        CursorView { loaded: self.loaded@, pending: self.pending }
    }
}

impl Default for CursorState {
    fn default() -> (c: Self)
        ensures
            c@ == (CursorView { loaded: Map::empty(), pending: None }),
    {
        CursorState { loaded: VersionVector::new(), pending: None }
    }
}

impl CursorState {
    /// Recover one entry of the store.
    pub fn load(&mut self, key: &[u8], value: &[u8])
        requires
            key@.len() == 16,
            value@.len() == 8,
        ensures
            final(self)@ == (CursorView {
                loaded: with_seq(
                    old(self)@.loaded,
                    origin_of(key@),
                    crate::bytes::from_be64(value@) as u64,
                ),
                ..old(self)@
            }),
    {
        let origin = ReplicaId(
            [
                key[0],
                key[1],
                key[2],
                key[3],
                key[4],
                key[5],
                key[6],
                key[7],
                key[8],
                key[9],
                key[10],
                key[11],
                key[12],
                key[13],
                key[14],
                key[15],
            ],
        );
        assert(origin.0@ =~= key@);
        proof {
            lemma_origin_of(origin);
        }
        let seq: u64 = read_be64(value);
        self.loaded.set(origin, seq);
    }

    /// Recover the store: its entries, in whatever order.
    pub fn load_all(&mut self, entries: &Vec<(Vec<u8>, Vec<u8>)>)
        requires
            forall|i: int|
                0 <= i < entries@.len() ==> (#[trigger] entries@[i]).0@.len() == 16
                    && entries@[i].1@.len() == 8,
        ensures
            final(self)@ == (CursorView {
                loaded: recovered(old(self)@.loaded, entry_bytes(entries@)),
                ..old(self)@
            }),
    {
        let ghost all = entry_bytes(entries@);
        let mut i: usize = 0;
        assert(all.take(0) =~= seq![]);
        while i < entries.len()
            invariant
                i <= entries@.len(),
                all == entry_bytes(entries@),
                forall|k: int|
                    0 <= k < entries@.len() ==> (#[trigger] entries@[k]).0@.len() == 16
                        && entries@[k].1@.len() == 8,
                self@ == (CursorView {
                    loaded: recovered(old(self)@.loaded, all.take(i as int)),
                    ..old(self)@
                }),
            decreases entries@.len() - i,
        {
            assert(all.take(i + 1).drop_last() =~= all.take(i as int));
            assert(all[i as int] == (entries@[i as int].0@, entries@[i as int].1@));
            self.load(entries[i].0.as_slice(), entries[i].1.as_slice());
            i = i + 1;
        }
        assert(all.take(i as int) =~= all);
    }

    /// The cursor recovered from the store.
    pub fn loaded(&self) -> (cursor: &VersionVector)
        ensures
            cursor@ == self@.loaded,
    {
        &self.loaded
    }

    /// Deposit the cursor advance of `frame` for the transaction that applies
    /// it.
    pub fn deposit(&mut self, frame: &Frame)
        ensures
            final(self)@ == (CursorView {
                pending: Some((frame.origin, frame.seq)),
                ..old(self)@
            }),
    {
        self.pending = Some((frame.origin, frame.seq));
    }

    /// Take the cursor advance to write in the transaction under way, as key
    /// and value.
    pub fn take(&mut self) -> (r: Option<([u8; 16], [u8; 8])>)
        ensures
            final(self)@ == (CursorView { pending: None, ..old(self)@ }),
            match old(self)@.pending {
                Some((origin, seq)) => r matches Some((key, value)) && key == origin.0 && value@
                    == crate::bytes::be64(seq),
                None => r is None,
            },
    {
        let pending = self.pending;
        self.pending = None;
        match pending {
            Some((origin, seq)) => Some((origin.0, to_be64(seq))),
            None => None,
        }
    }

    /// Drop the cursor advance: the transaction was abandoned.
    pub fn abort(&mut self)
        ensures
            final(self)@ == (CursorView { pending: None, ..old(self)@ }),
    {
        self.pending = None;
    }
}

proof fn lemma_origin_of(origin: ReplicaId)
    ensures
        origin_of(origin.0@) == origin,
{
    let other = origin_of(origin.0@);
    assert(origin.0@ == origin.0@);
    assert(other.0@ == origin.0@);
    assert(other.0 =~= origin.0);
}

/// Each entry of the store is the latest seq written for its origin.
proof fn lemma_store_follows_cursor(written: Seq<(ReplicaId, u64)>)
    ensures
        crate::vector::positive(cursor_after(written)),
        forall|origin: ReplicaId| #[trigger]
            cursor_store(written).contains_key(origin.0@) ==> cursor_store(written)[origin.0@]
                == crate::bytes::be64(crate::vector::held(cursor_after(written), origin)),
        forall|origin: ReplicaId|
            !(#[trigger] cursor_store(written).contains_key(origin.0@)) ==> crate::vector::held(
                cursor_after(written),
                origin,
            ) == 0,
        forall|key: Seq<u8>| #[trigger]
            cursor_store(written).contains_key(key) ==> origin_of(key).0@ == key,
    decreases written.len(),
{
    if written.len() > 0 {
        let init = written.drop_last();
        let (last, seq) = written.last();
        lemma_store_follows_cursor(init);
        lemma_origin_of(last);
        let (store, cursor) = (cursor_store(written), cursor_after(written));
        assert forall|origin: ReplicaId| #[trigger] store.contains_key(origin.0@) implies store[
            origin.0@
        ] == crate::bytes::be64(crate::vector::held(cursor, origin)) by {
            if origin.0@ == last.0@ {
                assert(origin.0 =~= last.0);
                assert(origin == last);
            } else {
                assert(cursor_store(init).contains_key(origin.0@));
            }
        }
        assert forall|key: Seq<u8>| #[trigger] store.contains_key(key) implies origin_of(key).0@
            == key by {
            if key != last.0@ {
                assert(cursor_store(init).contains_key(key));
            }
        }
        assert forall|origin: ReplicaId|
            !(#[trigger] store.contains_key(origin.0@)) implies crate::vector::held(
            cursor,
            origin,
        ) == 0 by {
            assert(!cursor_store(init).contains_key(origin.0@));
        }
    }
}

/// What has been recovered after the first `n` entries of a store.
proof fn lemma_recovered(
    written: Seq<(ReplicaId, u64)>,
    entries: Seq<(Seq<u8>, Seq<u8>)>,
    n: int,
)
    requires
        lists_store(entries, cursor_store(written)),
        0 <= n <= entries.len(),
    ensures
        crate::vector::positive(recovered(Map::empty(), entries.take(n))),
        forall|origin: ReplicaId| #[trigger]
            crate::vector::held(recovered(Map::empty(), entries.take(n)), origin) == if exists|
                i: int,
            |
                0 <= i < n && (#[trigger] entries[i]).0 == origin.0@ {
                crate::vector::held(cursor_after(written), origin)
            } else {
                0
            },
    decreases n,
{
    if n == 0 {
        assert(entries.take(0) =~= seq![]);
    } else {
        lemma_recovered(written, entries, n - 1);
        lemma_store_follows_cursor(written);
        assert(entries.take(n).drop_last() =~= entries.take(n - 1));
        let (key, value) = entries[n - 1];
        assert(entries.take(n).last() == entries[n - 1]);
        let at = origin_of(key);
        let seq = crate::vector::held(cursor_after(written), at);
        assert(cursor_store(written).contains_key(at.0@));
        crate::bytes::law_bytes_read_back(seq, 0);
        assert(crate::bytes::from_be64(value) == seq);
        let (before, after) = (
            recovered(Map::empty(), entries.take(n - 1)),
            recovered(Map::empty(), entries.take(n)),
        );
        assert forall|origin: ReplicaId| #[trigger]
            crate::vector::held(after, origin) == if exists|i: int|
                0 <= i < n && (#[trigger] entries[i]).0 == origin.0@ {
                crate::vector::held(cursor_after(written), origin)
            } else {
                0
            } by {
            if origin.0@ == key {
                assert(origin.0 =~= at.0);
                assert(entries[n - 1].0 == origin.0@);
            } else {
                assert(crate::vector::held(after, origin) == crate::vector::held(before, origin));
                if exists|i: int| 0 <= i < n && (#[trigger] entries[i]).0 == origin.0@ {
                    let i = choose|i: int| 0 <= i < n && (#[trigger] entries[i]).0 == origin.0@;
                    assert(i < n - 1);
                    assert(entries[i].0 == origin.0@);
                }
            }
        }
    }
}

/// The cursor survives the store: whatever advances were written, recovering the
/// store's entries, in whatever order, gives the cursor that they led to.
pub proof fn law_cursor_reads_back(
    written: Seq<(ReplicaId, u64)>,
    entries: Seq<(Seq<u8>, Seq<u8>)>,
)
    requires
        lists_store(entries, cursor_store(written)),
    ensures
        recovered(Map::empty(), entries) == cursor_after(written),
        forall|i: int|
            0 <= i < entries.len() ==> (#[trigger] entries[i]).0.len() == 16
                && entries[i].1.len() == 8,
{
    let n = entries.len() as int;
    assert(entries.take(n) =~= entries);
    lemma_recovered(written, entries, n);
    lemma_store_follows_cursor(written);
    let (back, cursor) = (recovered(Map::empty(), entries), cursor_after(written));
    assert forall|origin: ReplicaId| #[trigger] crate::vector::held(back, origin)
        == crate::vector::held(cursor, origin) by {
        if cursor_store(written).contains_key(origin.0@) {
            let i = choose|i: int| 0 <= i < n && (#[trigger] entries[i]).0 == origin.0@;
            assert(entries[i].0 == origin.0@);
        }
    }
    crate::vector::law_agreeing_vectors_are_equal(back, cursor);
    assert forall|i: int| 0 <= i < entries.len() implies (#[trigger] entries[i]).0.len() == 16
        && entries[i].1.len() == 8 by {
        let (key, value) = entries[i];
        let at = origin_of(key);
        assert(cursor_store(written).contains_key(at.0@));
        crate::bytes::law_bytes_read_back(crate::vector::held(cursor, at), 0);
    }
}

proof fn lemma_advanced_further(
    m: Map<ReplicaId, u64>,
    before: Seq<(ReplicaId, u64)>,
    during: Seq<(ReplicaId, u64)>,
)
    ensures
        advanced(m, before + during) == advanced(advanced(m, before), during),
    decreases during.len(),
{
    if during.len() == 0 {
        assert(before + during =~= before);
    } else {
        lemma_advanced_further(m, before, during.drop_last());
        assert((before + during).drop_last() =~= before + during.drop_last());
    }
}

/// An engine opened on a store has the cursor of the engine that left it: with
/// `before` written, an engine recovers `entries`; it writes `during`, moving its
/// cursor along; and the engine opened next recovers, from the store's entries
/// `again`, the very cursor that it had. One opened on a fresh store starts with an
/// empty cursor.
pub proof fn law_reopening_restores_cursor(
    before: Seq<(ReplicaId, u64)>,
    entries: Seq<(Seq<u8>, Seq<u8>)>,
    during: Seq<(ReplicaId, u64)>,
    again: Seq<(Seq<u8>, Seq<u8>)>,
)
    requires
        lists_store(entries, cursor_store(before)),
        lists_store(again, cursor_store(before + during)),
    ensures
        recovered(Map::empty(), again) == advanced(recovered(Map::empty(), entries), during),
        before.len() == 0 ==> recovered(Map::empty(), entries) == Map::<ReplicaId, u64>::empty(),
{
    law_cursor_reads_back(before, entries);
    law_cursor_reads_back(before + during, again);
    lemma_advanced_further(Map::empty(), before, during);
}

/// Every datum of a payload decoded.
pub open spec fn all_decoded<D>(decoded: Seq<Option<D>>) -> bool {
    forall|i: int| 0 <= i < decoded.len() ==> (#[trigger] decoded[i]) is Some
}

/// The typed deltas of `frame`, where `decoded` holds what each datum of its
/// payload decodes to. A frame is applicable if and only if every datum decodes
/// as the store's type.
pub fn decode_payload<D>(frame: &Frame, decoded: Vec<Option<D>>) -> (r: Result<
    Vec<(D, i64)>,
    SodError,
>)
    requires
        decoded@.len() == frame.payload@.len(),
    ensures
        match r {
            Ok(deltas) => {
                &&& all_decoded(decoded@)
                &&& deltas@.len() == decoded@.len()
                &&& forall|i: int|
                    0 <= i < deltas@.len() ==> Some((#[trigger] deltas@[i]).0) == decoded@[i]
                        && deltas@[i].1 == frame.payload@[i].1
            },
            Err(e) => {
                &&& !all_decoded(decoded@)
                &&& e matches SodError::Corrupt(what) && what@
                    == "frame datum does not decode as pipeline type"@
            },
        },
{
    let mut deltas: Vec<(D, i64)> = Vec::with_capacity(frame.payload.len());
    for d in it: decoded
        invariant
            it.seq() == decoded@,
            decoded@.len() == frame.payload@.len(),
            deltas@.len() == it.index(),
            forall|i: int|
                0 <= i < deltas@.len() ==> Some((#[trigger] deltas@[i]).0) == decoded@[i]
                    && deltas@[i].1 == frame.payload@[i].1,
    {
        let ghost i = it.index() as int;
        assert(d == decoded@[i]);
        match d {
            Some(d) => {
                let mult = frame.payload[deltas.len()].1;
                deltas.push((d, mult));
            },
            None => {
                assert(!(decoded@[i] is Some));
                return Err(SodError::Corrupt("frame datum does not decode as pipeline type"));
            },
        }
    }
    proof {
        assert forall|i: int| 0 <= i < decoded@.len() implies (#[trigger] decoded@[i]) is Some by {
            assert(Some(deltas@[i].0) == decoded@[i]);
        }
    }
    Ok(deltas)
}

} // verus!
