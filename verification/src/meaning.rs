//! What the words that contracts speak in come to, over numbers, bytes, sequences
//! and maps alone.

use crate::engine::{Engine, EngineView, MemEngine};
use crate::error::SodError;
use crate::feeds::Fault;
use crate::frame::{Extent, Frame, FrameHash, FrameView, RecordView, ReplicaId};
use crate::log_file::RecoveryView;
use crate::replica::{Arrival, Replica, ReplicaView};
use crate::sinks::Write;
use crate::store::{LogStore, MemLog};
use crate::sync::{Half, Msg, MsgView, Run, SessionView};
use crate::vector::VersionVector;
use vstd::prelude::*;
use vstd::std_specs::cmp::PartialEqSpec;

verus! {

/// A length prefix is the length in base 256, least significant digit first, and
/// the length read from four bytes is what they make up in that base.
pub proof fn law_length_prefix_is_little_endian(n: int, b: Seq<u8>)
    requires
        0 <= n <= u32::MAX,
        b.len() == 4,
    ensures
        crate::frame::le32(n).len() == 4,
        crate::frame::le32(n)[0] == n % 256,
        crate::frame::le32(n)[1] == n / 256 % 256,
        crate::frame::le32(n)[2] == n / 256 / 256 % 256,
        crate::frame::le32(n)[3] == n / 256 / 256 / 256,
        crate::frame::from_le32(b) == b[0] + 256 * (b[1] + 256 * (b[2] + 256 * b[3])),
{
    let n1 = n / 256;
    let n2 = n1 / 256;
    let n3 = n2 / 256;
    assert(n == 256 * n1 + n % 256);
    assert(n1 == 256 * n2 + n1 % 256);
    assert(n2 == 256 * n3 + n2 % 256);
    assert(n / 0x1_0000 == n2);
    assert(n / 0x100_0000 == n3);
    assert(0 <= n3 < 256);
}

/// A length beyond four bytes is cut to its lowest four.
pub proof fn law_long_length_is_cut(n: int)
    requires
        0 <= n,
    ensures
        crate::frame::le32(n) == crate::frame::le32(n % 0x1_0000_0000),
{
    let m = n % 0x1_0000_0000;
    assert(0 <= m < 0x1_0000_0000);
    assert(m % 0x1_0000_0000 == m);
}

/// Stored numbers are in base 256, most significant digit first.
pub proof fn law_stored_numbers_are_big_endian(n: u64, b: Seq<u8>)
    requires
        b.len() == 8,
    ensures
        crate::bytes::be64(n).len() == 8,
        ({
            let d = crate::bytes::be64(n);
            n == d[7] + 256 * (d[6] + 256 * (d[5] + 256 * (d[4] + 256 * (d[3] + 256 * (d[2] + 256 * (
            d[1] + 256 * d[0]))))))
        }),
        crate::bytes::from_be64(b) == b[7] + 256 * (b[6] + 256 * (b[5] + 256 * (b[4] + 256 * (b[3]
            + 256 * (b[2] + 256 * (b[1] + 256 * b[0])))))),
{
    crate::bytes::law_bytes_read_back(n, 0);
    reveal(crate::bytes::from_be64);
    assert(crate::bytes::from_be64(crate::bytes::be64(n)) == n);
}

/// Stored multiplicities are in two's complement: a negative one is stored as what
/// it is short of 2^64.
pub proof fn law_stored_multiplicities_are_twos_complement(m: i64, b: Seq<u8>)
    requires
        b.len() == 8,
    ensures
        crate::bytes::from_be64(crate::bytes::signed_be64(m)) == if m >= 0 {
            m as int
        } else {
            m + 0x1_0000_0000_0000_0000
        },
        0 <= crate::bytes::from_be64(b) < 0x1_0000_0000_0000_0000,
        crate::bytes::from_signed_be64(b) == if crate::bytes::from_be64(b)
            < 0x8000_0000_0000_0000 {
            crate::bytes::from_be64(b)
        } else {
            crate::bytes::from_be64(b) - 0x1_0000_0000_0000_0000
        },
{
    crate::bytes::law_bytes_read_back((m as int % 0x1_0000_0000_0000_0000) as u64, m);
    reveal(crate::bytes::from_be64);
}

/// Byte strings are ordered by the first byte in which they differ, and a proper
/// prefix comes first.
pub proof fn law_byte_order(a: Seq<u8>, b: Seq<u8>)
    ensures
        crate::ordmap::lex_lt(a, b) <==> exists|i: int|
            0 <= i <= a.len() && i < b.len() && #[trigger] a.take(i) == b.take(i) && (i < a.len()
                ==> a[i] < b[i]),
    decreases a.len(),
{
    if b.len() == 0 {
    } else if a.len() == 0 {
        assert(a.take(0) =~= b.take(0));
    } else if a[0] != b[0] {
        if a[0] < b[0] {
            assert(a.take(0) =~= b.take(0));
        }
        assert forall|i: int|
            0 < i <= a.len() && i < b.len() implies #[trigger] a.take(i) != b.take(i) by {
            assert(a.take(i)[0] != b.take(i)[0]);
        }
    } else {
        let (s, t) = (a.drop_first(), b.drop_first());
        law_byte_order(s, t);
        if crate::ordmap::lex_lt(s, t) {
            let i = choose|i: int|
                0 <= i <= s.len() && i < t.len() && #[trigger] s.take(i) == t.take(i) && (i
                    < s.len() ==> s[i] < t[i]);
            assert(a.take(i + 1) =~= seq![a[0]] + s.take(i));
            assert(b.take(i + 1) =~= seq![b[0]] + t.take(i));
        }
        if exists|i: int|
            0 <= i <= a.len() && i < b.len() && #[trigger] a.take(i) == b.take(i) && (i < a.len()
                ==> a[i] < b[i]) {
            let i = choose|i: int|
                0 <= i <= a.len() && i < b.len() && #[trigger] a.take(i) == b.take(i) && (i
                    < a.len() ==> a[i] < b[i]);
            assert(i > 0);
            assert(s.take(i - 1) =~= a.take(i).drop_first());
            assert(t.take(i - 1) =~= b.take(i).drop_first());
        }
    }
}

/// The listing of a multiset is in byte order, and gives each datum that the
/// multiset holds, and no other, its multiplicity.
pub proof fn law_listing_is_in_byte_order(
    list: Seq<(Seq<u8>, i64)>,
    z: Map<Seq<u8>, i64>,
    k: int,
    l: int,
    d: Seq<u8>,
)
    requires
        crate::engine::lists(list, z),
        0 <= k < l < list.len(),
    ensures
        exists|i: int| 0 <= i <= list[k].0.len() && i < list[l].0.len() && #[trigger] list[k].0.take(i) == list[l].0.take(i) && (i < list[k].0.len() ==> list[k].0[i] < list[l].0[i]),
        z.contains_key(list[k].0) && z[list[k].0] == list[k].1,
        z.contains_key(list[l].0) && z[list[l].0] == list[l].1,
        z.contains_key(d) <==> exists|j: int| 0 <= j < list.len() && (#[trigger] list[j]).0 == d,
{
    assert(crate::ordmap::lex_lt(list[k].0, list[l].0));
    law_byte_order(list[k].0, list[l].0);
    if exists|j: int| 0 <= j < list.len() && (#[trigger] list[j]).0 == d {
        let j = choose|j: int| 0 <= j < list.len() && (#[trigger] list[j]).0 == d;
        assert(z.contains_key(list[j].0));
    }
}

/// A listing of one datum, or of none.
pub proof fn law_short_listings(list: Seq<(Seq<u8>, i64)>, z: Map<Seq<u8>, i64>)
    requires
        crate::engine::lists(list, z),
    ensures
        list.len() == 0 <==> z == Map::<Seq<u8>, i64>::empty(),
        list.len() == 1 ==> z == map![list[0].0 => list[0].1],
{
    if list.len() == 0 {
        assert forall|d: Seq<u8>| !(#[trigger] z.contains_key(d)) by {
            if z.contains_key(d) {
                let i = choose|i: int| 0 <= i < list.len() && (#[trigger] list[i]).0 == d;
            }
        }
        assert(z =~= Map::empty());
    } else {
        assert(z.contains_key(list[0].0));
    }
    if list.len() == 1 {
        assert forall|d: Seq<u8>| #[trigger] z.contains_key(d) <==> d == list[0].0 by {
            if z.contains_key(d) {
                let i = choose|i: int| 0 <= i < list.len() && (#[trigger] list[i]).0 == d;
                assert(i == 0);
            }
        }
        assert(z =~= map![list[0].0 => list[0].1]);
    }
}

/// The canonical bytes of a multiset are postcard's encoding of its data in byte
/// order, each with its multiplicity.
pub proof fn law_canonical_bytes_list_in_byte_order(
    bytes: Seq<u8>,
    z: Map<Seq<u8>, i64>,
    k: int,
    l: int,
) -> (list: Seq<(Seq<u8>, i64)>)
    requires
        crate::engine::canonical(bytes, z),
    ensures
        bytes == crate::codec::postcard_multiset(list),
        0 <= k < l < list.len() ==> exists|i: int|
            0 <= i <= list[k].0.len() && i < list[l].0.len() && #[trigger] list[k].0.take(i)
                == list[l].0.take(i) && (i < list[k].0.len() ==> list[k].0[i] < list[l].0[i]),
        forall|m: int|
            0 <= m < list.len() ==> z.contains_key((#[trigger] list[m]).0) && z[list[m].0]
                == list[m].1 && list[m].1 != 0,
        forall|d: Seq<u8>| #[trigger]
            z.contains_key(d) ==> exists|m: int| 0 <= m < list.len() && (#[trigger] list[m]).0 == d,
{
    let list = crate::engine::listing(z);
    if 0 <= k < l < list.len() {
        assert(crate::ordmap::lex_lt(list[k].0, list[l].0));
        law_byte_order(list[k].0, list[l].0);
    }
    list
}

/// Ids, and the origins of a version vector, are listed in the order of their
/// bytes.
pub proof fn law_ids_are_listed_in_byte_order(
    ids: Seq<ReplicaId>,
    entries: Seq<(ReplicaId, u64)>,
    ahead: Seq<(ReplicaId, u64, u64)>,
    mine: Map<ReplicaId, u64>,
    theirs: Map<ReplicaId, u64>,
    k: int,
    l: int,
)
    requires
        0 <= k < l,
    ensures
        crate::idset::ids_ascend(ids) && l < ids.len() ==> exists|i: int| 0 <= i <= ids[k].0@.len() && i < ids[l].0@.len() && #[trigger] ids[k].0@.take(i) == ids[l].0@.take(i) && (i < ids[k].0@.len() ==> ids[k].0@[i] < ids[l].0@[i]),
        crate::ordmap::ascending(entries) && l < entries.len() ==> exists|i: int| 0 <= i <= entries[k].0.0@.len() && i < entries[l].0.0@.len() && #[trigger] entries[k].0.0@.take(i) == entries[l].0.0@.take(i) && (i < entries[k].0.0@.len() ==> entries[k].0.0@[i] < entries[l].0.0@[i]),
        crate::vector::lists_ahead(ahead, mine, theirs) && l < ahead.len() ==> exists|i: int| 0 <= i <= ahead[k].0.0@.len() && i < ahead[l].0.0@.len() && #[trigger] ahead[k].0.0@.take(i) == ahead[l].0.0@.take(i) && (i < ahead[k].0.0@.len() ==> ahead[k].0.0@[i] < ahead[l].0.0@[i]),
{
    if crate::idset::ids_ascend(ids) && l < ids.len() {
        assert(crate::ordmap::lex_lt(ids[k].0@, ids[l].0@));
        law_byte_order(ids[k].0@, ids[l].0@);
    }
    if crate::ordmap::ascending(entries) && l < entries.len() {
        assert(crate::ordmap::lex_lt(entries[k].0.0@, entries[l].0.0@));
        law_byte_order(entries[k].0.0@, entries[l].0.0@);
    }
    if crate::vector::lists_ahead(ahead, mine, theirs) && l < ahead.len() {
        assert(crate::ordmap::lex_lt(ahead[k].0.0@, ahead[l].0.0@));
        law_byte_order(ahead[k].0.0@, ahead[l].0.0@);
    }
}

/// An ordered map's entries, and the map they make up.
pub proof fn law_entries_make_up_the_map(entries: Seq<(ReplicaId, u64)>, k: int, id: ReplicaId)
    requires
        crate::ordmap::ascending(entries),
        0 <= k < entries.len(),
    ensures
        crate::ordmap::to_map(entries).contains_key(entries[k].0),
        crate::ordmap::to_map(entries)[entries[k].0] == entries[k].1,
        crate::ordmap::to_map(entries).contains_key(id) <==> exists|j: int|
            0 <= j < entries.len() && (#[trigger] entries[j]).0 == id,
{
    crate::ordmap::lemma_to_map_at(entries, k);
    if crate::ordmap::to_map(entries).contains_key(id) {
        let j = choose|j: int| crate::ordmap::holds_at(entries, id, j);
        assert(crate::ordmap::holds_at(entries, id, j));
        assert(entries[j].0 == id);
    }
    if exists|j: int| 0 <= j < entries.len() && (#[trigger] entries[j]).0 == id {
        let j = choose|j: int| 0 <= j < entries.len() && (#[trigger] entries[j]).0 == id;
        crate::ordmap::lemma_to_map_at(entries, j);
    }
}

/// What a version vector holds of an origin, and where one vector is ahead of
/// another: exactly at the origins of which it holds more, each with both numbers.
pub proof fn law_vector_holds(
    mine: Map<ReplicaId, u64>,
    theirs: Map<ReplicaId, u64>,
    ahead: Seq<(ReplicaId, u64, u64)>,
    id: ReplicaId,
    k: int,
)
    requires
        crate::vector::lists_ahead(ahead, mine, theirs),
    ensures
        mine.contains_key(id) ==> crate::vector::held(mine, id) == mine[id],
        !mine.contains_key(id) ==> crate::vector::held(mine, id) == 0,
        0 <= k < ahead.len() ==> {
            &&& ahead[k].1 == crate::vector::held(theirs, ahead[k].0)
            &&& ahead[k].2 == crate::vector::held(mine, ahead[k].0)
            &&& ahead[k].1 < ahead[k].2
        },
        crate::vector::held(mine, id) > crate::vector::held(theirs, id) <==> exists|j: int|
            0 <= j < ahead.len() && (#[trigger] ahead[j]).0 == id,
        crate::vector::agree(mine, theirs) && crate::vector::agree(theirs, mine) ==> (
        mine.contains_key(id) && theirs.contains_key(id) ==> mine[id] == theirs[id]),
{
    if exists|j: int| 0 <= j < ahead.len() && (#[trigger] ahead[j]).0 == id {
        let j = choose|j: int| 0 <= j < ahead.len() && (#[trigger] ahead[j]).0 == id;
        let (i, low, high) = ahead[j];
        assert(low < high);
    }
    if 0 <= k < ahead.len() {
        let (i, low, high) = ahead[k];
        assert(low < high);
    }
    if crate::vector::agree(mine, theirs) {
        assert(crate::vector::held(mine, id) == crate::vector::held(theirs, id));
    }
}

/// A multiplicity is 64-bit and wraps: it differs from the number that it stands
/// for by a multiple of 2^64.
pub proof fn law_multiplicities_wrap(n: int)
    ensures
        exists|q: int| n == crate::zset::wrap64(n) + #[trigger] (q * 0x1_0000_0000_0000_0000),
        i64::MIN <= n <= i64::MAX ==> crate::zset::wrap64(n) == n,
{
    let m = n % 0x1_0000_0000_0000_0000;
    let q = n / 0x1_0000_0000_0000_0000;
    assert(n == q * 0x1_0000_0000_0000_0000 + m);
    if m > i64::MAX {
        assert(n == crate::zset::wrap64(n) + (q + 1) * 0x1_0000_0000_0000_0000);
    } else {
        assert(n == crate::zset::wrap64(n) + q * 0x1_0000_0000_0000_0000);
    }
}

/// One more delta of a payload moves the multiplicity of its datum by the delta and
/// that of no other, and a datum is held if and only if its multiplicity is not
/// zero. A payload without deltas changes nothing.
pub proof fn law_one_more_delta(
    z: Map<Seq<u8>, i64>,
    payload: Seq<(Seq<u8>, i64)>,
    d: Seq<u8>,
    n: i64,
    e: Seq<u8>,
)
    requires
        forall|x: Seq<u8>| #[trigger] z.contains_key(x) ==> z[x] != 0,
    ensures
        crate::zset::add_deltas(z, seq![]) == z,
        ({
            let before = crate::zset::add_deltas(z, payload);
            let after = crate::zset::add_deltas(z, payload.push((d, n)));
            let held: int = if before.contains_key(d) {
                before[d] as int
            } else {
                0
            };
            &&& e != d ==> (after.contains_key(e) <==> before.contains_key(e))
            &&& e != d && before.contains_key(e) ==> after[e] == before[e]
            &&& after.contains_key(d) <==> (held + n) % 0x1_0000_0000_0000_0000 != 0
            &&& after.contains_key(d) ==> after[d] != 0 && (held + n - after[d])
                % 0x1_0000_0000_0000_0000 == 0
        }),
        crate::zset::multiplicity(z, d) == if z.contains_key(d) {
            z[d]
        } else {
            0
        },
        crate::zset::zero_free(z),
        crate::zset::total(seq![], e) == 0,
        crate::zset::total(payload.push((d, n)), e) == crate::zset::total(payload, e) + if d == e {
            n as int
        } else {
            0
        },
{
    assert(payload.push((d, n)).drop_last() =~= payload);
    crate::zset::law_add_deltas_sums(z, payload, d);
}

/// A payload is its data, each as its bytes, with their multiplicities.
pub proof fn law_payload_is_its_deltas(payload: Seq<(Vec<u8>, i64)>, i: int)
    ensures
        crate::codec::deltas(payload).len() == payload.len(),
        0 <= i < payload.len() ==> crate::codec::deltas(payload)[i].0 == payload[i].0@
            && crate::codec::deltas(payload)[i].1 == payload[i].1,
{
}

/// What a frame says is what its fields hold.
pub proof fn law_frame_says_its_fields(f: Frame)
    ensures
        f@.prev_hash == f.prev_hash,
        f@.origin == f.origin,
        f@.seq == f.seq,
        f@.event_time == f.event_time,
        f@.payload == crate::codec::deltas(f.payload@),
{
}

/// What a message says is what its fields hold.
pub proof fn law_message_says_its_fields(
    protocol: u16,
    schema: u32,
    id: ReplicaId,
    vector: VersionVector,
    frames: Vec<Frame>,
    msgs: Seq<Msg>,
    i: int,
)
    ensures
        (Msg::Hello { protocol, schema, id, vector })@ == (MsgView::Hello {
            protocol,
            schema,
            id,
            vector: vector@,
        }),
        Msg::Frames(frames)@ == MsgView::Frames(crate::log_file::frame_views(frames@)),
        Msg::Done@ == MsgView::Done,
        crate::sync::msg_views(msgs).len() == msgs.len(),
        0 <= i < msgs.len() ==> crate::sync::msg_views(msgs)[i] == msgs[i]@,
{
}

/// A digit, in lower case, by its code.
pub proof fn law_digits(n: int)
    requires
        0 <= n < 16,
    ensures
        n < 10 ==> crate::text::digit(n) as int == 48 + n,
        n >= 10 ==> crate::text::digit(n) as int == 87 + n,
{
}

/// Numbers are shown in base ten, and byte strings with two digits for each byte,
/// the upper half first.
pub proof fn law_numerals(q: nat, r: nat, bytes: Seq<u8>, i: int)
    requires
        r < 10,
        0 <= i < bytes.len(),
    ensures
        crate::text::decimal(r) == seq![crate::text::digit(r as int)],
        q > 0 ==> crate::text::decimal(10 * q + r) == crate::text::decimal(q).push(
            crate::text::digit(r as int),
        ),
        crate::text::hex(bytes).len() == 2 * bytes.len(),
        crate::text::hex(bytes)[2 * i] == crate::text::digit(bytes[i] as int / 16),
        crate::text::hex(bytes)[2 * i + 1] == crate::text::digit(bytes[i] as int % 16),
    decreases bytes.len(),
{
    if q > 0 {
        let n = 10 * q + r;
        assert(n / 10 == q && n % 10 == r);
    }
    let init = bytes.drop_last();
    if bytes.len() > 1 {
        law_numerals(q, r, init, if i < init.len() {
            i
        } else {
            0
        });
    } else {
        assert(init =~= seq![]);
        assert(crate::text::hex(init) =~= seq![]);
    }
}

/// The message of each error.
pub proof fn law_messages(what: &'static str, id: ReplicaId, m: u64, n: u64, v: (u16, u32), w: (
    u16,
    u32,
), text: String)
    ensures
        SodError::Corrupt(what).message() == "corrupt record: "@ + what@,
        (SodError::Gap { origin: id, have: m, got: n }).message() == "gap in feed "@
            + crate::text::hex(id.0@) + ": have "@ + crate::text::decimal(m as nat) + ", got "@
            + crate::text::decimal(n as nat),
        (SodError::Equivocation { origin: id, seq: n }).message() == "equivocation in feed "@
            + crate::text::hex(id.0@) + " at seq "@ + crate::text::decimal(n as nat),
        SodError::Poisoned(id).message() == "feed "@ + crate::text::hex(id.0@) + " is poisoned"@,
        (SodError::VersionMismatch { ours: v, theirs: w }).message()
            == "version mismatch: ours protocol "@ + crate::text::decimal(v.0 as nat)
            + "/schema "@ + crate::text::decimal(v.1 as nat) + ", theirs protocol "@
            + crate::text::decimal(w.0 as nat) + "/schema "@ + crate::text::decimal(w.1 as nat),
        SodError::Io(text).message() == "io: "@ + text@,
{
}

/// The text of the error for a length that is not trusted.
pub proof fn law_untrusted_length_text()
    ensures
        crate::frame::CORRUPT_LEN@ == "record length untrustworthy"@,
{
}

/// Exactly an equivocation and a poisoned feed are errors about a feed.
pub proof fn law_errors_about_feeds(e: SodError)
    ensures
        e is Equivocation ==> e.blames_feed() && crate::sync::blamed(e) == e->Equivocation_origin,
        e is Poisoned ==> e.blames_feed() && crate::sync::blamed(e) == e->Poisoned_0,
        e is Corrupt || e is Gap || e is VersionMismatch || e is Io ==> !e.blames_feed(),
{
}

/// The body of a frame is postcard's encoding of its fields, its hash is the digest
/// of the body, and what is read from a body is the frame of those fields.
pub proof fn law_frame_is_encoded_by_its_fields(f: FrameView, body: Seq<u8>)
    ensures
        f.encoded() == crate::codec::postcard_frame(
            f.prev_hash.0,
            f.origin.0,
            f.seq,
            f.event_time,
            f.payload,
        ),
        f.hash().0 == crate::codec::blake3_digest(f.encoded()),
        FrameHash::zero().0@ == Seq::new(32, |i: int| 0u8),
        crate::codec::postcard_frame_parts(body, usize::BITS) is None
            ==> crate::frame::decoded(body) is None,
        crate::codec::postcard_frame_parts(body, usize::BITS) matches Some(p)
            ==> crate::frame::decoded(body) == Some(
            (FrameView {
                prev_hash: FrameHash(p.0),
                origin: ReplicaId(p.1),
                seq: p.2,
                event_time: p.3,
                payload: p.4,
            }),
        ),
        f.reads_back() <==> crate::codec::postcard_frame_parts(f.encoded(), usize::BITS) == Some(
            (f.prev_hash.0, f.origin.0, f.seq, f.event_time, f.payload),
        ),
        f.fits_record() <==> f.encoded().len() <= u32::MAX && f.encoded().len() + 40 <= usize::MAX,
{
    assert(FrameHash::zero().0@ =~= Seq::new(32, |i: int| 0u8));
}

/// A record is the length of the body in four bytes, the first four bytes of their
/// digest, the body, and its digest.
pub proof fn law_record_layout(f: FrameView)
    requires
        f.encoded().len() <= u32::MAX,
    ensures
        ({
            let (rec, body) = (f.record(), f.encoded());
            let n = body.len() as int;
            &&& rec.len() == n + 40
            &&& n == rec[0] + 256 * (rec[1] + 256 * (rec[2] + 256 * rec[3]))
            &&& rec.subrange(4, 8) == crate::codec::blake3_digest(rec.take(4))@.take(4)
            &&& rec.subrange(8, n + 8) == body
            &&& rec.subrange(n + 8, n + 40) == crate::codec::blake3_digest(body)@
        }),
{
    let n = f.encoded().len() as int;
    let len = crate::frame::le32(n);
    law_length_prefix_is_little_endian(n, len);
    let n1 = n / 256;
    let n2 = n1 / 256;
    assert(n == 256 * n1 + n % 256);
    assert(n1 == 256 * n2 + n1 % 256);
    assert(n2 == 256 * (n2 / 256) + n2 % 256);
    let rec = f.record();
    let check = crate::codec::blake3_digest(len)@.take(4);
    assert(check.len() == 4);
    assert(rec =~= len + check + f.encoded() + f.hash().0@);
    assert(rec.take(4) =~= len);
    assert(rec.subrange(4, 8) =~= check);
    assert(rec.subrange(8, n + 8) =~= f.encoded());
    assert(rec.subrange(n + 8, n + 40) =~= f.hash().0@);
    assert(rec[0] == len[0] && rec[1] == len[1] && rec[2] == len[2] && rec[3] == len[3]);
}

/// What stands at the front of a byte string. Fewer than eight bytes are part of a
/// record. A length prefix that its check bytes do not vouch for, or whose record
/// is beyond this machine's lengths, is not trusted. Else the record ends forty
/// bytes beyond the length that the prefix gives: it is partial if the bytes end
/// before, has a bad hash if its last 32 bytes are not the body's digest, has a bad
/// body if that does not decode, and is whole otherwise.
pub proof fn law_record_at_front(buf: Seq<u8>)
    ensures
        ({
            let front = crate::frame::record_at_front(buf);
            let length = buf[0] + 256 * (buf[1] + 256 * (buf[2] + 256 * buf[3]));
            let end = length + 40;
            let vouched = buf.subrange(4, 8) == crate::codec::blake3_digest(buf.take(4))@.take(4);
            let body = buf.subrange(8, end - 32);
            let digest = crate::codec::blake3_digest(body);
            if buf.len() < 8 {
                front is Partial
            } else if !vouched || end > usize::MAX {
                front is BadLength
            } else if buf.len() < end {
                front is Partial
            } else if digest@ != buf.subrange(end - 32, end) {
                front == (RecordView::BadHash { end })
            } else {
                match crate::codec::postcard_frame_parts(body, usize::BITS) {
                    None => front == (RecordView::BadBody { end }),
                    Some(p) => front == (RecordView::Whole {
                        frame: FrameView {
                            prev_hash: FrameHash(p.0),
                            origin: ReplicaId(p.1),
                            seq: p.2,
                            event_time: p.3,
                            payload: p.4,
                        },
                        hash: FrameHash(digest),
                        end,
                    }),
                }
            }
        }),
{
    if buf.len() >= 8 {
        law_length_prefix_is_little_endian(0, buf.take(4));
    }
}

/// A log is the records of its frames. Recovery takes whole records off the front;
/// it ends where the bytes do, at a partial record, or at a bad record that nothing
/// follows, and refuses a bad record that something follows and a length that is
/// not trusted.
pub proof fn law_recovery(bytes: Seq<u8>, frames: Seq<FrameView>, f: FrameView)
    ensures
        crate::log_file::log_bytes(seq![]) == Seq::<u8>::empty(),
        crate::log_file::log_bytes(frames.push(f)) == crate::log_file::log_bytes(frames)
            + f.record(),
        ({
            let none = RecoveryView::Valid { frames: Seq::<FrameView>::empty(), end: 0 };
            let got = crate::log_file::recovered(bytes);
            &&& bytes.len() == 0 ==> got == none
            &&& bytes.len() > 0 ==> match crate::frame::record_at_front(bytes) {
                RecordView::Partial => got == none,
                RecordView::BadLength => got is BadLength,
                RecordView::BadHash { end } => if end < bytes.len() {
                    got is BadRecord
                } else {
                    got == none
                },
                RecordView::BadBody { end } => if end < bytes.len() {
                    got is BadRecord
                } else {
                    got == none
                },
                RecordView::Whole { frame, hash, end } => match crate::log_file::recovered(
                    bytes.skip(end),
                ) {
                    RecoveryView::Valid { frames: more, end: at } => got == (RecoveryView::Valid {
                        frames: seq![frame] + more,
                        end: end + at,
                    }),
                    RecoveryView::BadLength => got is BadLength,
                    RecoveryView::BadRecord => got is BadRecord,
                },
            }
        }),
{
    assert(frames.push(f).drop_last() =~= frames);
}

/// Frames of a vector are taken one by one, in order.
pub proof fn law_frames_in_order(frames: Seq<Frame>, i: int)
    ensures
        crate::log_file::frame_views(frames).len() == frames.len(),
        0 <= i < frames.len() ==> crate::log_file::frame_views(frames)[i] == frames[i]@,
{
}

/// The feed of an origin that is known, and of one that is not; what a frame added
/// at the end of its origin's feed changes; and the numbers of frames held.
pub proof fn law_feeds_grow_by_one_frame(
    feeds: Map<ReplicaId, Seq<FrameView>>,
    f: FrameView,
    o: ReplicaId,
)
    ensures
        feeds.contains_key(o) ==> crate::feeds::feed_of(feeds, o) == feeds[o],
        !feeds.contains_key(o) ==> crate::feeds::feed_of(feeds, o) == Seq::<FrameView>::empty(),
        crate::feeds::feed_of(crate::feeds::grown(feeds, f), f.origin) == crate::feeds::feed_of(
            feeds,
            f.origin,
        ).push(f),
        o != f.origin ==> crate::feeds::feed_of(crate::feeds::grown(feeds, f), o)
            == crate::feeds::feed_of(feeds, o),
        crate::feeds::lengths(feeds).contains_key(o) <==> feeds.contains_key(o),
        feeds.contains_key(o) ==> crate::feeds::lengths(feeds)[o] == feeds[o].len() as u64,
{
}

/// A chain: each frame is its origin's, has the next seq, from 1, and carries the
/// hash of the frame before it, or zeros if it is the first.
pub proof fn law_chain_links(origin: ReplicaId, feed: Seq<FrameView>, f: FrameView, i: int)
    ensures
        crate::feeds::continues(feed, f) <==> f.seq == feed.len() + 1 && (if feed.len() == 0 {
            f.prev_hash == FrameHash::zero()
        } else {
            f.prev_hash == feed[feed.len() - 1].hash()
        }),
        crate::feeds::head_hash(feed) == if feed.len() == 0 {
            FrameHash::zero()
        } else {
            feed[feed.len() - 1].hash()
        },
        crate::feeds::is_chain(origin, feed) && 0 <= i < feed.len() ==> {
            &&& feed[i].origin == origin
            &&& feed[i].seq == i + 1
            &&& feed[i].prev_hash == if i == 0 {
                FrameHash::zero()
            } else {
                feed[i - 1].hash()
            }
        },
        (forall|j: int|
            0 <= j < feed.len() ==> {
                &&& (#[trigger] feed[j]).origin == origin
                &&& feed[j].seq == j + 1
                &&& feed[j].prev_hash == if j == 0 {
                    FrameHash::zero()
                } else {
                    feed[j - 1].hash()
                }
            }) ==> crate::feeds::is_chain(origin, feed),
{
    if crate::feeds::is_chain(origin, feed) && 0 <= i < feed.len() {
        assert(crate::feeds::continues(feed.take(i), feed[i]));
        if i > 0 {
            assert(feed.take(i).last() == feed[i - 1]);
        }
    }
    if forall|j: int|
        0 <= j < feed.len() ==> {
            &&& (#[trigger] feed[j]).origin == origin
            &&& feed[j].seq == j + 1
            &&& feed[j].prev_hash == if j == 0 {
                FrameHash::zero()
            } else {
                feed[j - 1].hash()
            }
        } {
        assert forall|j: int| 0 <= j < feed.len() implies (#[trigger] feed[j]).origin == origin
            && crate::feeds::continues(feed.take(j), feed[j]) by {
            if j > 0 {
                assert(feed.take(j).last() == feed[j - 1]);
            }
        }
    }
}

/// The feeds of a log: of each origin, the log's frames from it, in log order.
pub proof fn law_log_feeds_are_the_frames_of_each_origin(log: Seq<FrameView>, o: ReplicaId)
    ensures
        crate::feeds::feed_of(crate::feeds::log_feeds(log), o) == log.filter(
            |f: FrameView| f.origin == o,
        ),
        crate::feeds::log_feeds(log).contains_key(o) <==> exists|k: int|
            0 <= k < log.len() && (#[trigger] log[k]).origin == o,
    decreases log.len(),
{
    reveal(Seq::filter);
    if log.len() > 0 {
        let init = log.drop_last();
        law_log_feeds_are_the_frames_of_each_origin(init, o);
        if crate::feeds::log_feeds(log).contains_key(o) {
            if log.last().origin == o {
                assert(log[log.len() - 1].origin == o);
            } else {
                let k = choose|k: int| 0 <= k < init.len() && (#[trigger] init[k]).origin == o;
                assert(log[k].origin == o);
            }
        }
        if exists|k: int| 0 <= k < log.len() && (#[trigger] log[k]).origin == o {
            let k = choose|k: int| 0 <= k < log.len() && (#[trigger] log[k]).origin == o;
            if k < init.len() {
                assert(init[k].origin == o);
            }
        }
    }
}

/// A log is faultless if and only if each of its frames has, of the frames of its
/// origin before it, the next seq and the hash of the last; and the first frame
/// that fails in this says what the fault is.
pub proof fn law_log_faults(log: Seq<FrameView>, f: FrameView)
    ensures
        crate::feeds::log_fault(seq![]) is None,
        ({
            let earlier = log.filter(|g: FrameView| g.origin == f.origin);
            let fault = crate::feeds::log_fault(log.push(f));
            let head = if earlier.len() == 0 {
                FrameHash::zero()
            } else {
                earlier[earlier.len() - 1].hash()
            };
            &&& crate::feeds::log_fault(log) is Some ==> fault == crate::feeds::log_fault(log)
            &&& crate::feeds::log_fault(log) is None ==> {
                &&& f.seq != earlier.len() + 1 ==> fault == Some(Fault::NotContiguous)
                &&& f.seq == earlier.len() + 1 && f.prev_hash != head ==> fault == Some(
                    Fault::ChainBroken,
                )
                &&& f.seq == earlier.len() + 1 && f.prev_hash == head ==> fault is None
            }
        }),
        crate::replica::fault_text(Fault::NotContiguous) == "log feed not contiguous"@,
        crate::replica::fault_text(Fault::ChainBroken) == "log feed chain broken"@,
{
    assert(log.push(f).drop_last() =~= log);
    law_log_feeds_are_the_frames_of_each_origin(log, f.origin);
}

/// The watermark of a log is its greatest event time.
pub proof fn law_log_watermark_is_greatest(log: Seq<FrameView>)
    ensures
        forall|k: int|
            0 <= k < log.len() ==> (#[trigger] log[k]).event_time <= crate::feeds::log_newest(log),
        log.len() == 0 ==> crate::feeds::log_newest(log) == 0,
        log.len() > 0 ==> exists|k: int|
            0 <= k < log.len() && (#[trigger] log[k]).event_time == crate::feeds::log_newest(log),
    decreases log.len(),
{
    if log.len() > 0 {
        let init = log.drop_last();
        law_log_watermark_is_greatest(init);
        let n = log.len() - 1;
        assert forall|k: int| 0 <= k < log.len() implies (#[trigger] log[k]).event_time
            <= crate::feeds::log_newest(log) by {
            if k < n {
                assert(init[k] == log[k]);
            }
        }
        if init.len() > 0 && crate::feeds::log_newest(init) >= log[n].event_time {
            let k = choose|k: int|
                0 <= k < init.len() && (#[trigger] init[k]).event_time == crate::feeds::log_newest(
                    init,
                );
            assert(log[k].event_time == crate::feeds::log_newest(log));
        } else {
            assert(log[n].event_time == crate::feeds::log_newest(log));
        }
    }
}

/// The later of two times is the greater number.
pub proof fn law_later_is_the_greater(a: u64, b: u64)
    ensures
        crate::feeds::later(a, b) >= a,
        crate::feeds::later(a, b) >= b,
        crate::feeds::later(a, b) == a || crate::feeds::later(a, b) == b,
{
}

/// What an engine is given by one frame: the deltas of its payload, its place in
/// its origin's feed, and the watermark.
pub proof fn law_engine_is_given(e: EngineView, f: FrameView, wm: u64, o: ReplicaId)
    ensures
        e.apply(f, wm).zset == crate::zset::add_deltas(e.zset, f.payload),
        e.apply(f, wm).cursor.contains_key(f.origin) <==> f.seq > 0,
        f.seq > 0 ==> e.apply(f, wm).cursor[f.origin] == f.seq,
        o != f.origin ==> (e.apply(f, wm).cursor.contains_key(o) <==> e.cursor.contains_key(o)),
        o != f.origin && e.cursor.contains_key(o) ==> e.apply(f, wm).cursor[o] == e.cursor[o],
        e.apply(f, wm).watermark >= wm,
        e.apply(f, wm).watermark >= e.watermark,
        e.apply(f, wm).watermark == wm || e.apply(f, wm).watermark == e.watermark,
        e.seed(wm).zset == e.zset && e.seed(wm).cursor == e.cursor,
        e.seed(wm).watermark == e.apply(f, wm).watermark,
        EngineView::empty().zset == Map::<Seq<u8>, i64>::empty(),
        EngineView::empty().cursor == Map::<ReplicaId, u64>::empty(),
        EngineView::empty().watermark == 0,
{
}

/// Replay gives the engine each frame of the log beyond its cursor, and no other;
/// the watermark counts every frame.
pub proof fn law_replay(log: Seq<FrameView>, f: FrameView, e: EngineView)
    ensures
        crate::feeds::replayed(seq![], e) == e,
        ({
            let held: int = if e.cursor.contains_key(f.origin) {
                e.cursor[f.origin] as int
            } else {
                0
            };
            let before = crate::feeds::replayed(log, e);
            let after = crate::feeds::replayed(log.push(f), e);
            let newest = crate::feeds::log_newest(log.push(f));
            &&& f.seq > held ==> after == before.apply(f, newest)
            &&& f.seq <= held ==> after == before.seed(newest)
        }),
{
    assert(log.push(f).drop_last() =~= log);
}

/// The net multiset of no frames is empty, and a frame added adds its deltas.
pub proof fn law_net_counts_each_frame(feeds: Map<ReplicaId, Seq<FrameView>>, f: FrameView)
    requires
        feeds.dom().finite(),
    ensures
        crate::feeds::net(Map::empty()) == Map::<Seq<u8>, i64>::empty(),
        crate::feeds::net(crate::feeds::grown(feeds, f)) == crate::zset::add_deltas(
            crate::feeds::net(feeds),
            f.payload,
        ),
{
    let none = Map::<ReplicaId, Seq<FrameView>>::empty();
    assert forall|d: Seq<u8>| #[trigger]
        crate::zset::wrap64(crate::feeds::sum_over(none, none.dom(), d)) == 0 by {
        assert(none.dom() =~= Set::<ReplicaId>::empty());
    }
    assert(crate::feeds::net(none) =~= Map::<Seq<u8>, i64>::empty());
    crate::feeds::law_net_of_grown(feeds, f);
}

/// A replica that was just opened holds what its log holds and has poisoned
/// nothing.
pub proof fn law_opened_replica(
    id: ReplicaId,
    log: Seq<FrameView>,
    e: EngineView,
    stored: Seq<FrameView>,
    o: ReplicaId,
)
    ensures
        ({
            let v = ReplicaView::opened(id, log, e, stored);
            &&& v.id == id
            &&& v.poisoned == Set::<ReplicaId>::empty()
            &&& v.feed(o) == log.filter(|f: FrameView| f.origin == o)
            &&& v.log == stored
            &&& v.watermark == crate::feeds::log_newest(log)
            &&& v.engine == crate::feeds::replayed(log, e)
            &&& v.cursor == crate::feeds::replayed(log, e).cursor
        }),
{
    law_log_feeds_are_the_frames_of_each_origin(log, o);
}

/// Reopening a replica restores what each frame of an unpoisoned feed is to it: the
/// next frame of any feed in the log is as welcome as it was to the replica that
/// wrote the log.
pub proof fn law_reopening_restores_arrivals(v: ReplicaView, e: EngineView, f: FrameView)
    requires
        v.wf(),
        v.logged(),
    ensures
        !v.poisoned.contains(f.origin) ==> ReplicaView::opened(v.id, v.log, e, v.log).arrival(f)
            == v.arrival(f),
        ReplicaView::opened(v.id, v.log, e, v.log).feeds == v.feeds,
        !(ReplicaView::opened(v.id, v.log, e, v.log).arrival(f) is Poisoned),
{
}

/// What a frame is to a replica, by its seq, by what is held of its origin, and by
/// whether its origin is poisoned.
pub proof fn law_arrivals(v: ReplicaView, f: FrameView)
    ensures
        ({
            let held = v.feed(f.origin);
            let a = v.arrival(f);
            let head = if held.len() == 0 {
                FrameHash::zero()
            } else {
                held[held.len() - 1].hash()
            };
            &&& a is SeqZero <==> f.seq == 0
            &&& a is Poisoned <==> f.seq > 0 && v.poisoned.contains(f.origin)
            &&& f.seq > 0 && !v.poisoned.contains(f.origin) ==> {
                &&& a is Gap <==> f.seq > held.len() + 1
                &&& a is Duplicate <==> f.seq <= held.len() && held[f.seq - 1].hash() == f.hash()
                &&& a is Next <==> f.seq == held.len() + 1 && f.prev_hash == head
                &&& a is Fork <==> {
                    ||| f.seq <= held.len() && held[f.seq - 1].hash() != f.hash()
                    ||| f.seq == held.len() + 1 && f.prev_hash != head
                }
            }
        }),
{
}

/// What accepting the next frame of a feed changes, and what it leaves.
pub proof fn law_accepting(v: ReplicaView, f: FrameView, o: ReplicaId)
    requires
        f.seq > 0,
    ensures
        ({
            let w = v.accepted(f);
            let applied: int = if v.cursor.contains_key(f.origin) {
                v.cursor[f.origin] as int
            } else {
                0
            };
            &&& w.id == v.id
            &&& w.poisoned == v.poisoned
            &&& w.feed(f.origin) == v.feed(f.origin).push(f)
            &&& o != f.origin ==> w.feed(o) == v.feed(o)
            &&& w.log == v.log.push(f)
            &&& w.watermark >= v.watermark && w.watermark >= f.event_time
            &&& w.watermark == v.watermark || w.watermark == f.event_time
            &&& f.seq <= applied ==> w.engine == v.engine && w.cursor == v.cursor
            &&& f.seq > applied ==> w.engine == v.engine.apply(f, w.watermark) && w.cursor
                == v.cursor.insert(f.origin, f.seq)
        }),
{
}

/// What a conflict changes: the origin is poisoned, unless it is the replica
/// itself.
pub proof fn law_conflicts(v: ReplicaView, origin: ReplicaId, o: ReplicaId)
    ensures
        ({
            let w = v.forked(origin);
            &&& w.poisoned.contains(o) <==> v.poisoned.contains(o) || (o == origin && o != v.id)
            &&& w.id == v.id && w.feeds == v.feeds && w.watermark == v.watermark
            &&& w.engine == v.engine && w.cursor == v.cursor && w.log == v.log
        }),
{
}

/// The frame that a commit appends says what the caller said: the payload and the
/// event time as given, whatever the watermark. It is the replica's own, with the
/// next seq of its feed and the hash of the last frame.
pub proof fn law_committed_frame(
    v: ReplicaView,
    payload: Seq<(Seq<u8>, i64)>,
    event_time: u64,
)
    requires
        v.feed(v.id).len() < u64::MAX,
    ensures
        ({
            let f = v.next_frame(payload, event_time);
            let own = v.feed(v.id);
            &&& f.origin == v.id
            &&& f.event_time == event_time
            &&& f.payload == payload
            &&& f.seq == own.len() + 1
            &&& f.prev_hash == if own.len() == 0 {
                FrameHash::zero()
            } else {
                own[own.len() - 1].hash()
            }
        }),
{
}

/// In a well-formed replica each feed is a chain of its origin's frames, the
/// watermark is the greatest event time held, the vector counts the frames of each
/// feed, and the replica has not poisoned itself.
pub proof fn law_well_formed(v: ReplicaView, o: ReplicaId, i: int)
    requires
        v.wf(),
    ensures
        !v.poisoned.contains(v.id),
        v.feeds.contains_key(o) ==> v.feeds[o].len() > 0,
        0 <= i < v.feed(o).len() ==> v.feed(o)[i].event_time <= v.watermark,
        0 <= i < v.feed(o).len() ==> v.feed(o)[i].origin == o && v.feed(o)[i].seq == i + 1,
        0 < i < v.feed(o).len() ==> v.feed(o)[i].prev_hash == v.feed(o)[i - 1].hash(),
        v.watermark == 0 || exists|p: ReplicaId, k: int|
            v.feeds.contains_key(p) && 0 <= k < v.feeds[p].len() && (
            #[trigger] v.feeds[p][k]).event_time == v.watermark,
        v.vector().contains_key(o) <==> v.feeds.contains_key(o),
        v.feeds.contains_key(o) ==> v.vector()[o] == v.feeds[o].len(),
{
    if 0 <= i < v.feed(o).len() {
        assert(v.feeds[o][i].event_time <= v.watermark);
        law_chain_links(o, v.feeds[o], v.feeds[o][i], i);
    }
}

/// A session at its start, and what a `Hello`, a refusal and an answer change.
pub proof fn law_session_steps(
    s: SessionView,
    schema: u32,
    peer: ReplicaId,
    vector: Map<ReplicaId, u64>,
    origin: ReplicaId,
    e: SodError,
    o: ReplicaId,
)
    ensures
        ({
            let new = SessionView::new(schema);
            &&& new.schema == schema
            &&& !new.sent_done && !new.peer_done && new.peer is None
            &&& new.skipped.len() == 0 && !new.refused.contains(o)
        }),
        ({
            let t = s.greeted(peer, vector);
            &&& t.peer == Some((peer, vector))
            &&& t.sent_done && t.peer_done == s.peer_done && t.schema == s.schema
            &&& t.skipped == s.skipped && t.refused == s.refused
        }),
        ({
            let t = s.refuse(origin, e);
            &&& s.refused.contains(origin) ==> t == s
            &&& !s.refused.contains(origin) ==> t.skipped == s.skipped.push(e)
            &&& t.refused.contains(o) <==> s.refused.contains(o) || o == origin
            &&& t.peer == s.peer && t.schema == s.schema
            &&& t.sent_done == s.sent_done && t.peer_done == s.peer_done
        }),
        s.heard(origin, Ok(true)) == s,
        s.heard(origin, Ok(false)) == s,
        s.heard(origin, Err(e)) == if e is Equivocation || e is Poisoned {
            s.refuse(origin, e)
        } else {
            s
        },
        crate::sync::breaks(Err(e)) <==> !(e is Equivocation || e is Poisoned),
        !crate::sync::breaks(Ok(true)) && !crate::sync::breaks(Ok(false)),
        crate::sync::PROTOCOL_VERSION == 1,
        crate::sync::BATCH == 256,
{
}

/// The frames sent in batches are all of them, in order: each batch but the last
/// holds 256 frames, the last at least one and no more than that.
pub proof fn law_batches(frames: Seq<FrameView>, k: int)
    ensures
        ({
            let sent = crate::sync::batches(frames);
            &&& sent.len() == (frames.len() + 255) / 256
            &&& 0 <= k < sent.len() ==> sent[k] == MsgView::Frames(
                frames.subrange(
                    256 * k,
                    if 256 * k + 256 <= frames.len() {
                        256 * k + 256
                    } else {
                        frames.len() as int
                    },
                ),
            )
        }),
    decreases frames.len(),
{
    if frames.len() > 256 {
        let rest = frames.skip(256);
        law_batches(rest, k - 1);
        if 0 < k < crate::sync::batches(frames).len() {
            let to = if 256 * k + 256 <= frames.len() {
                256 * k + 256
            } else {
                frames.len() as int
            };
            assert(rest.subrange(256 * k - 256, to - 256) =~= frames.subrange(256 * k, to));
        } else if k == 0 {
            assert(frames.take(256) =~= frames.subrange(0, 256));
        }
    } else if frames.len() > 0 {
        assert(frames.subrange(0, frames.len() as int) =~= frames);
    }
}

/// A frame is sent to a peer if and only if it is beyond what the peer holds of its
/// origin, and the sender holds it and has not poisoned its origin.
pub proof fn law_missing_frames(
    v: ReplicaView,
    theirs: Map<ReplicaId, u64>,
    f: FrameView,
)
    requires
        v.wf(),
    ensures
        ({
            let held: int = if theirs.contains_key(f.origin) {
                theirs[f.origin] as int
            } else {
                0
            };
            crate::sync::missing(v, theirs).contains(f) <==> {
                &&& !v.poisoned.contains(f.origin)
                &&& held < f.seq <= v.feed(f.origin).len()
                &&& v.feed(f.origin)[f.seq - 1] == f
            }
        }),
{
    let list = crate::vector::ahead(v.vector(), theirs);
    assert(v.vector().dom() =~= v.feeds.dom());
    crate::vector::lemma_ahead_exists(v.vector(), theirs);
    lemma_sent(v, theirs, list, list.len() as int, f);
    assert(list.take(list.len() as int) =~= list);
    crate::sync::lemma_held_is_length(v, f.origin);
    if exists|j: int| 0 <= j < list.len() && (#[trigger] list[j]).0 == f.origin {
        let j = choose|j: int| 0 <= j < list.len() && (#[trigger] list[j]).0 == f.origin;
        let (id, low, high) = list[j];
        assert(low < high);
    }
    if crate::vector::held(v.vector(), f.origin) > crate::vector::held(theirs, f.origin) {
        let j = choose|j: int| 0 <= j < list.len() && (#[trigger] list[j]).0 == f.origin;
        assert(list[j].0 == f.origin);
    }
}

proof fn lemma_sent(
    v: ReplicaView,
    theirs: Map<ReplicaId, u64>,
    list: Seq<(ReplicaId, u64, u64)>,
    n: int,
    f: FrameView,
)
    requires
        v.wf(),
        crate::vector::lists_ahead(list, v.vector(), theirs),
        0 <= n <= list.len(),
    ensures
        crate::sync::suffixes(v, list.take(n)).contains(f) <==> {
            &&& exists|j: int| 0 <= j < n && (#[trigger] list[j]).0 == f.origin
            &&& !v.poisoned.contains(f.origin)
            &&& crate::vector::held(theirs, f.origin) < f.seq <= v.feed(f.origin).len()
            &&& v.feed(f.origin)[f.seq - 1] == f
        },
    decreases n,
{
    let sent = crate::sync::suffixes(v, list.take(n));
    if n == 0 {
        assert(list.take(0) =~= seq![]);
    } else {
        lemma_sent(v, theirs, list, n - 1, f);
        assert(list.take(n).drop_last() =~= list.take(n - 1));
        let (o, low, high) = list[n - 1];
        assert(list.take(n).last() == list[n - 1]);
        crate::sync::lemma_held_is_length(v, o);
        let before = crate::sync::suffixes(v, list.take(n - 1));
        let part = if v.poisoned.contains(o) {
            seq![]
        } else {
            v.feed(o).skip(low as int)
        };
        assert(sent == before + part);
        if part.contains(f) {
            let i = choose|i: int| 0 <= i < part.len() && part[i] == f;
            law_well_formed(v, o, low + i);
            assert(v.feed(o)[low + i] == f);
            assert(sent[before.len() + i] == f);
            assert(list[n - 1].0 == f.origin);
        }
        if before.contains(f) {
            let i = choose|i: int| 0 <= i < before.len() && before[i] == f;
            assert(sent[i] == f);
        }
        if sent.contains(f) {
            let i = choose|i: int| 0 <= i < sent.len() && sent[i] == f;
            if i < before.len() {
                assert(before[i] == f);
            } else {
                assert(part[i - before.len()] == f);
            }
        }
        if o == f.origin && !v.poisoned.contains(o) && low < f.seq <= v.feed(o).len() && v.feed(
            o,
        )[f.seq - 1] == f {
            assert(part[f.seq - 1 - low] == f);
        }
        if exists|j: int| 0 <= j < n && (#[trigger] list[j]).0 == f.origin {
            let j = choose|j: int| 0 <= j < n && (#[trigger] list[j]).0 == f.origin;
            if j < n - 1 {
                assert(list[j].0 == f.origin);
            }
        }
        if exists|j: int| 0 <= j < n - 1 && (#[trigger] list[j]).0 == f.origin {
            let j = choose|j: int| 0 <= j < n - 1 && (#[trigger] list[j]).0 == f.origin;
            assert(list[j].0 == f.origin);
        }
    }
}

/// The frames sent to a peer go origin by origin, in the byte order of their ids,
/// and within an origin in seq order.
#[verifier::spinoff_prover]
#[verifier::rlimit(30)]
pub proof fn law_missing_frames_in_order(
    v: ReplicaView,
    theirs: Map<ReplicaId, u64>,
    a: int,
    b: int,
)
    requires
        v.wf(),
        0 <= a < b < crate::sync::missing(v, theirs).len(),
    ensures
        ({
            let (f, g) = (crate::sync::missing(v, theirs)[a], crate::sync::missing(v, theirs)[b]);
            &&& f.origin == g.origin ==> g.seq - f.seq == b - a
            &&& f.origin != g.origin ==> exists|i: int|
                0 <= i < 16 && #[trigger] f.origin.0@.take(i) == g.origin.0@.take(i)
                    && f.origin.0@[i] < g.origin.0@[i]
        }),
{
    let list = crate::vector::ahead(v.vector(), theirs);
    assert(v.vector().dom() =~= v.feeds.dom());
    crate::vector::lemma_ahead_exists(v.vector(), theirs);
    assert(list.take(list.len() as int) =~= list);
    let (j, x) = lemma_sent_from(v, theirs, list, list.len() as int, a);
    let (k, y) = lemma_sent_from(v, theirs, list, list.len() as int, b);
    lemma_sent_in_order(v, theirs, list, list.len() as int, a, b, j, x, k, y);
    let (p, q) = (list[j].0, list[k].0);
    if p != q {
        assert(crate::ordmap::lex_lt(p.0@, q.0@));
        law_byte_order(p.0@, q.0@);
        let i = choose|i: int|
            0 <= i <= p.0@.len() && i < q.0@.len() && #[trigger] p.0@.take(i) == q.0@.take(i) && (i
                < p.0@.len() ==> p.0@[i] < q.0@[i]);
        assert(p.0@.take(i) == q.0@.take(i));
    }
}

/// Where a frame that is sent stands.
proof fn lemma_sent_from(
    v: ReplicaView,
    theirs: Map<ReplicaId, u64>,
    list: Seq<(ReplicaId, u64, u64)>,
    n: int,
    a: int,
) -> (at: (int, int))
    requires
        v.wf(),
        crate::vector::lists_ahead(list, v.vector(), theirs),
        0 <= n <= list.len(),
        0 <= a < crate::sync::suffixes(v, list.take(n)).len(),
    ensures
        0 <= at.0 < n,
        list[at.0].1 <= at.1 < v.feed(list[at.0].0).len(),
        crate::sync::suffixes(v, list.take(n))[a] == v.feed(list[at.0].0)[at.1],
        v.feed(list[at.0].0)[at.1].origin == list[at.0].0,
        v.feed(list[at.0].0)[at.1].seq == at.1 + 1,
        !v.poisoned.contains(list[at.0].0),
        a == crate::sync::suffixes(v, list.take(at.0)).len() + (at.1 - list[at.0].1),
    decreases n,
{
    if n == 0 {
        assert(list.take(0) =~= seq![]);
        (0, 0)
    } else {
        assert(list.take(n).drop_last() =~= list.take(n - 1));
        let (o, low, high) = list[n - 1];
        assert(list.take(n).last() == list[n - 1]);
        let before = crate::sync::suffixes(v, list.take(n - 1));
        if a < before.len() {
            lemma_sent_from(v, theirs, list, n - 1, a)
        } else {
            crate::sync::lemma_held_is_length(v, o);
            let i = low + (a - before.len());
            assert(crate::sync::suffixes(v, list.take(n))[a] == v.feed(o)[i]);
            law_well_formed(v, o, i);
            (n - 1, i)
        }
    }
}

proof fn lemma_suffixes_grow(
    v: ReplicaView,
    list: Seq<(ReplicaId, u64, u64)>,
    j: int,
    k: int,
)
    requires
        0 <= j < k <= list.len(),
    ensures
        crate::sync::suffixes(v, list.take(k)).len() >= crate::sync::suffixes(
            v,
            list.take(j + 1),
        ).len(),
    decreases k,
{
    if k > j + 1 {
        assert(list.take(k).drop_last() =~= list.take(k - 1));
        lemma_suffixes_grow(v, list, j, k - 1);
    }
}

proof fn lemma_sent_in_order(
    v: ReplicaView,
    theirs: Map<ReplicaId, u64>,
    list: Seq<(ReplicaId, u64, u64)>,
    n: int,
    a: int,
    b: int,
    j: int,
    x: int,
    k: int,
    y: int,
)
    requires
        crate::vector::lists_ahead(list, v.vector(), theirs),
        a < b,
        0 <= j < n <= list.len(),
        0 <= k < n,
        list[j].1 <= x < v.feed(list[j].0).len(),
        list[k].1 <= y < v.feed(list[k].0).len(),
        !v.poisoned.contains(list[j].0),
        !v.poisoned.contains(list[k].0),
        a == crate::sync::suffixes(v, list.take(j)).len() + (x - list[j].1),
        b == crate::sync::suffixes(v, list.take(k)).len() + (y - list[k].1),
    ensures
        j <= k,
        j == k ==> y - x == b - a,
        j < k ==> list[j].0 != list[k].0 && crate::ordmap::lex_lt(list[j].0.0@, list[k].0.0@),
        list[j].0 == list[k].0 ==> j == k,
{
    if k < j {
        lemma_suffixes_grow(v, list, k, j);
        assert(list.take(k + 1).drop_last() =~= list.take(k));
        assert(list.take(k + 1).last() == list[k]);
    }
    if j != k && list[j].0 == list[k].0 {
        crate::ordmap::lemma_lex_irreflexive(list[j].0.0@);
        if j < k {
            assert(crate::ordmap::lex_lt(list[j].0.0@, list[k].0.0@));
        } else {
            assert(crate::ordmap::lex_lt(list[k].0.0@, list[j].0.0@));
        }
    }
    if j < k {
        assert(crate::ordmap::lex_lt(list[j].0.0@, list[k].0.0@));
        crate::ordmap::lemma_lex_irreflexive(list[j].0.0@);
    }
}

/// What is sent to a peer: batches of one to 256 frames, each of one origin, that
/// carry exactly the frames it lacks, and then `Done`.
pub proof fn law_answer_messages(v: ReplicaView, theirs: Map<ReplicaId, u64>, k: int)
    requires
        v.wf(),
    ensures
        ({
            let sent = crate::sync::answer(v, theirs);
            &&& sent.len() > 0
            &&& sent[sent.len() - 1] == MsgView::Done
            &&& crate::sync::frames_in(sent) == crate::sync::missing(v, theirs)
            &&& 0 <= k < sent.len() - 1 ==> {
                &&& sent[k] is Frames
                &&& 1 <= sent[k]->Frames_0.len() <= 256
                &&& forall|i: int|
                    0 <= i < sent[k]->Frames_0.len() ==> (#[trigger] sent[k]->Frames_0[i]).origin
                        == sent[k]->Frames_0[0].origin
            }
        }),
{
    crate::sync::law_answer_carries_missing(v, theirs);
    let list = crate::vector::ahead(v.vector(), theirs);
    assert(v.vector().dom() =~= v.feeds.dom());
    crate::vector::lemma_ahead_exists(v.vector(), theirs);
    assert forall|j: int| 0 <= j < list.len() implies (#[trigger] list[j]).1 <= v.feed(
        list[j].0,
    ).len() by {
        let (o, low, high) = list[j];
        crate::sync::lemma_held_is_length(v, o);
        assert(low < high);
    }
    lemma_streamed_messages(v, list, k);
}

proof fn lemma_streamed_messages(v: ReplicaView, list: Seq<(ReplicaId, u64, u64)>, k: int)
    requires
        v.wf(),
        forall|j: int| 0 <= j < list.len() ==> (#[trigger] list[j]).1 <= v.feed(list[j].0).len(),
    ensures
        ({
            let sent = crate::sync::streamed(v, list);
            0 <= k < sent.len() ==> {
                &&& sent[k] is Frames
                &&& 1 <= sent[k]->Frames_0.len() <= 256
                &&& forall|i: int|
                    0 <= i < sent[k]->Frames_0.len() ==> (#[trigger] sent[k]->Frames_0[i]).origin
                        == sent[k]->Frames_0[0].origin
            }
        }),
    decreases list.len(),
{
    let sent = crate::sync::streamed(v, list);
    if list.len() > 0 && 0 <= k < sent.len() {
        let init = list.drop_last();
        assert forall|j: int| 0 <= j < init.len() implies (#[trigger] init[j]).1 <= v.feed(
            init[j].0,
        ).len() by {
            assert(init[j] == list[j]);
        }
        lemma_streamed_messages(v, init, k);
        let before = crate::sync::streamed(v, init);
        let (o, low, high) = list.last();
        if k >= before.len() {
            let rest = v.feed(o).skip(low as int);
            let j = k - before.len();
            assert(sent[k] == crate::sync::batches(rest)[j]);
            law_batches(rest, j);
            let batch = sent[k]->Frames_0;
            let to = if 256 * j + 256 <= rest.len() {
                256 * j + 256
            } else {
                rest.len() as int
            };
            assert(list[list.len() - 1].1 <= v.feed(o).len());
            assert forall|i: int| 0 <= i < batch.len() implies (#[trigger] batch[i]).origin == o by {
                assert(batch[i] == rest[256 * j + i]);
                assert(rest[256 * j + i] == v.feed(o)[low + 256 * j + i]);
                law_well_formed(v, o, low + 256 * j + i);
            }
            assert(batch[0].origin == o);
        } else {
            assert(sent[k] == before[k]);
        }
    }
}

/// What ingesting a frame does, by the answer. `Ok(true)`: the frame was the next of
/// its feed, and is held and logged. `Ok(false)`: it was held. An equivocation: it
/// was at odds with what is held, and its origin, unless it is the replica itself,
/// is poisoned. Any other error leaves the feeds, the watermark and what is
/// poisoned as they were.
pub proof fn law_ingesting<E: Engine, L: LogStore>(
    before: Replica<E, L>,
    f: FrameView,
    after: Replica<E, L>,
    r: Result<bool, SodError>,
    o: ReplicaId,
)
    requires
        before.wf(),
        before.ingested(f, &after, r),
    ensures
        after.wf(),
        after.the_log().synced() == before.the_log().synced(),
        r == Ok::<bool, SodError>(true) ==> {
            &&& before@.arrival(f) is Next
            &&& before.the_engine().refusal(f) is None
            &&& after@.feed(f.origin) == before@.feed(f.origin).push(f)
            &&& o != f.origin ==> after@.feed(o) == before@.feed(o)
            &&& after@.log == before@.log.push(f)
            &&& after@.poisoned == before@.poisoned
        },
        r == Ok::<bool, SodError>(false) <==> before@.arrival(f) is Duplicate,
        r == Ok::<bool, SodError>(false) ==> after == before,
        before@.arrival(f) is Fork ==> {
            &&& r == Err::<bool, SodError>(SodError::Equivocation { origin: f.origin, seq: f.seq })
            &&& after@.poisoned.contains(o) <==> before@.poisoned.contains(o) || (o == f.origin
                && o != before@.id)
            &&& after@.feeds == before@.feeds
            &&& after@.log == before@.log
        },
        before@.arrival(f) is Poisoned ==> r == Err::<bool, SodError>(
            SodError::Poisoned(f.origin),
        ) && after == before,
        before@.arrival(f) is Gap ==> r == Err::<bool, SodError>(
            SodError::Gap {
                origin: f.origin,
                have: before@.feed(f.origin).len() as u64,
                got: f.seq,
            },
        ) && after == before,
        before@.arrival(f) is SeqZero ==> {
            &&& r matches Err(SodError::Corrupt(what))
            &&& what@ == "frame seq must be >= 1"@
            &&& after == before
        },
        before@.arrival(f) is Next && before.the_engine().refusal(f) is Some ==> {
            &&& r == Err::<bool, SodError>(before.the_engine().refusal(f)->Some_0)
            &&& after == before
        },
        before@.arrival(f) is Next && before.the_engine().refusal(f) is None
            && before.the_engine().reliable() && before.the_log().reliable() ==> r == Ok::<
            bool,
            SodError,
        >(true),
        r is Err && !(before@.arrival(f) is Fork) ==> {
            &&& after@.feeds == before@.feeds
            &&& after@.watermark == before@.watermark
            &&& after@.poisoned == before@.poisoned
            &&& after@.engine == before@.engine
        },
{
}

/// What a commit does, by its outcome. It succeeds with one frame more in the
/// replica's own feed and in the log, which says what the caller said; a frame that
/// the engine refuses changes nothing; and what fails leaves the feeds as they
/// were.
pub proof fn law_committing<E: Engine, L: LogStore>(
    before: Replica<E, L>,
    payload: Seq<(Seq<u8>, i64)>,
    event_time: u64,
    after: Replica<E, L>,
    error: Option<SodError>,
    o: ReplicaId,
)
    requires
        before.wf(),
        before@.feed(before@.id).len() < u64::MAX,
        before.offered(before@.next_frame(payload, event_time), &after, error),
    ensures
        ({
            let own = before@.feed(before@.id);
            let f = before@.next_frame(payload, event_time);
            &&& error is None ==> {
                let g = after@.feed(before@.id)[own.len() as int];
                &&& after@.feed(before@.id).len() == own.len() + 1
                &&& after@.feed(before@.id).take(own.len() as int) == own
                &&& g.event_time == event_time
                &&& g.payload == payload
                &&& g.origin == before@.id
                &&& g.seq == own.len() + 1
                &&& g.prev_hash == if own.len() == 0 {
                    FrameHash::zero()
                } else {
                    own[own.len() - 1].hash()
                }
                &&& o != before@.id ==> after@.feed(o) == before@.feed(o)
                &&& after@.log == before@.log.push(g)
                &&& after@.poisoned == before@.poisoned
                &&& after@.watermark >= event_time && after@.watermark >= before@.watermark
                &&& after@.watermark == event_time || after@.watermark == before@.watermark
                &&& before.the_engine().refusal(g) is None
            }
            &&& error is Some ==> {
                &&& after@.feeds == before@.feeds
                &&& after@.watermark == before@.watermark
                &&& after@.poisoned == before@.poisoned
                &&& after@.engine == before@.engine
            }
            &&& before.the_engine().refusal(f) is Some ==> error == before.the_engine().refusal(f)
                && after == before
            &&& before.the_engine().refusal(f) is None && before.the_engine().reliable()
                && before.the_log().reliable() ==> error is None
        }),
{
    let own = before@.feed(before@.id);
    let f = before@.next_frame(payload, event_time);
    if error is None {
        law_accepting(before@, f, o);
        law_committed_frame(before@, payload, event_time);
        assert(own.push(f).take(own.len() as int) =~= own);
    }
}

/// A commit that fails after the engine agreed to the frame: the log failed, and the
/// engine is untouched; or the frame is in the log, hardened, and the engine failed.
pub proof fn law_failing_commit<E: Engine, L: LogStore>(
    before: Replica<E, L>,
    f: FrameView,
    after: Replica<E, L>,
    e: SodError,
)
    requires
        before.commit_failed(f, &after, e),
    ensures
        after.the_log().failure() == Some(e) || after.the_engine().failure() == Some(e),
        after.the_log().failure() != Some(e) ==> {
            &&& after@.log == before@.log.push(f)
            &&& after.the_log().synced() == after.the_log().stored()
        },
        after.the_engine().failure() != Some(e) ==> {
            &&& after.the_engine() == before.the_engine()
            &&& after.the_log().synced() == before.the_log().synced()
        },
        after.hardened() <==> after.the_log().synced() == after.the_log().stored(),
{
}

/// Frames fed to a session are ingested one after the other, each by the replica
/// that the one before left, until one is answered with an error that is neither an
/// equivocation nor about a poisoned feed; that error is what comes back.
pub proof fn law_frames_are_taken_in_order<E: Engine, L: LogStore>(
    run: Run<E, L>,
    before: Replica<E, L>,
    heard_before: SessionView,
    frames: Seq<FrameView>,
    after: Replica<E, L>,
    heard_after: SessionView,
    error: Option<SodError>,
    k: int,
)
    requires
        crate::sync::ran(run, before, heard_before, frames, after, heard_after, error),
    ensures
        ({
            let n = run.answers.len() as int;
            &&& run.replicas.len() == n + 1
            &&& run.replicas[0] == before
            &&& run.replicas[n] == after
            &&& 0 <= k < n ==> run.replicas[k].ingested(
                frames[k],
                &run.replicas[k + 1],
                run.answers[k],
            )
            &&& 0 <= k < n - 1 && run.answers[k] is Err ==> run.answers[k]->Err_0 is Equivocation
                || run.answers[k]->Err_0 is Poisoned
            &&& error is None ==> {
                &&& n == frames.len()
                &&& 0 <= k < n && run.answers[k] is Err ==> run.answers[k]->Err_0 is Equivocation
                    || run.answers[k]->Err_0 is Poisoned
            }
            &&& error matches Some(e) ==> {
                &&& 0 < n <= frames.len()
                &&& run.answers[n - 1] == Err::<bool, SodError>(e)
                &&& !(e is Equivocation || e is Poisoned)
            }
            &&& heard_after == heard_before.heard_all(frames.take(n), run.answers)
        }),
{
    let n = run.answers.len() as int;
    if 0 <= k < n {
        assert(run.step(frames.take(n), k));
        if k < n - 1 || error is None {
            assert(!crate::sync::breaks(run.answers[k]));
        }
    }
}

/// What a session records of the answers to frames, one answer at a time.
pub proof fn law_answers_are_heard_in_order(
    s: SessionView,
    frames: Seq<FrameView>,
    answers: Seq<Result<bool, SodError>>,
    f: FrameView,
    r: Result<bool, SodError>,
)
    requires
        answers.len() == frames.len(),
    ensures
        s.heard_all(seq![], seq![]) == s,
        s.heard_all(frames.push(f), answers.push(r)) == s.heard_all(frames, answers).heard(
            f.origin,
            r,
        ),
{
    assert(frames.push(f).drop_last() =~= frames);
    assert(answers.push(r).drop_last() =~= answers);
}

/// After a session with a replica that no origin has told anything different, of
/// each origin that neither has poisoned the longer feed is held, and of any other
/// what was held before. Nothing more is poisoned.
pub proof fn law_session_leaves_the_longer_feed(
    mine: ReplicaView,
    theirs: ReplicaView,
    schema: u32,
    o: ReplicaId,
)
    requires
        mine.wf(),
        theirs.wf(),
        mine.compatible(theirs),
    ensures
        ({
            let after = crate::sync::met(mine, theirs, schema).replica;
            let clean = !mine.poisoned.contains(o) && !theirs.poisoned.contains(o);
            &&& clean && theirs.feed(o).len() > mine.feed(o).len() ==> after.feed(o)
                == theirs.feed(o)
            &&& !(clean && theirs.feed(o).len() > mine.feed(o).len()) ==> after.feed(o)
                == mine.feed(o)
            &&& after.poisoned == mine.poisoned
            &&& after.id == mine.id
        }),
        mine.feed(o) == theirs.feed(o) || exists|i: int|
            0 <= i && (#[trigger] mine.feed(o).take(i) == theirs.feed(o) || theirs.feed(o).take(i)
                == mine.feed(o)),
{
    crate::converge::law_session_merges(mine, theirs, schema);
    crate::sync::law_taking_only_adds(
        crate::sync::greeted(mine, theirs, schema),
        crate::sync::missing(theirs, mine.vector()),
    );
    let after = crate::sync::met(mine, theirs, schema).replica;
    assert(after.feed(o) == crate::converge::merged_feed(mine, theirs, o));
    let (s, t) = (mine.feed(o), theirs.feed(o));
    assert(s.is_prefix_of(t) || t.is_prefix_of(s));
    if s.is_prefix_of(t) {
        assert(t.take(s.len() as int) =~= s);
        assert(s.take(s.len() as int) =~= s);
    } else {
        assert(s.take(t.len() as int) =~= t);
    }
}

/// An advance of a stored cursor: under the sixteen bytes of the origin's id stand
/// the eight of the seq, and an origin at seq 0 has no entry in the cursor read.
pub proof fn law_cursor_entries(
    m: Map<ReplicaId, u64>,
    origin: ReplicaId,
    seq: u64,
    o: ReplicaId,
    written: Seq<(ReplicaId, u64)>,
)
    ensures
        crate::engine_fold::origin_of(origin.0@) == origin,
        ({
            let after = crate::engine_fold::with_seq(m, origin, seq);
            &&& after.contains_key(origin) <==> seq != 0
            &&& seq != 0 ==> after[origin] == seq
            &&& o != origin ==> (after.contains_key(o) <==> m.contains_key(o))
            &&& o != origin && m.contains_key(o) ==> after[o] == m[o]
        }),
        crate::engine_fold::cursor_store(seq![]) == Map::<Seq<u8>, Seq<u8>>::empty(),
        crate::engine_fold::cursor_store(written.push((origin, seq)))
            == crate::engine_fold::cursor_store(written).insert(
            origin.0@,
            crate::bytes::be64(seq),
        ),
        crate::engine_fold::advanced(m, seq![]) == m,
        crate::engine_fold::advanced(m, written.push((origin, seq)))
            == crate::engine_fold::with_seq(
            crate::engine_fold::advanced(m, written),
            origin,
            seq,
        ),
{
    let other = crate::engine_fold::origin_of(origin.0@);
    assert(origin.0@ == origin.0@);
    assert(other.0@ == origin.0@);
    assert(other.0 =~= origin.0);
    assert(written.push((origin, seq)).drop_last() =~= written);
}

/// Recovering the entries of a stored cursor, one at a time.
pub proof fn law_cursor_recovery(
    m: Map<ReplicaId, u64>,
    entries: Seq<(Seq<u8>, Seq<u8>)>,
    origin: ReplicaId,
    value: Seq<u8>,
)
    requires
        value.len() == 8,
    ensures
        crate::engine_fold::recovered(m, seq![]) == m,
        crate::engine_fold::recovered(m, entries.push((origin.0@, value)))
            == crate::engine_fold::with_seq(
            crate::engine_fold::recovered(m, entries),
            origin,
            crate::bytes::from_be64(value) as u64,
        ),
{
    law_cursor_entries(m, origin, 0, origin, seq![]);
    assert(entries.push((origin.0@, value)).drop_last() =~= entries);
}

/// What a transaction has pending, and what it leaves in the store: each key's sum,
/// if it is not zero.
pub proof fn law_bag_sums(
    pushed: Seq<(Seq<u8>, i64)>,
    key: Seq<u8>,
    delta: i64,
    other: Seq<u8>,
    stored: Option<Seq<u8>>,
    store: Map<Seq<u8>, Seq<u8>>,
)
    ensures
        crate::sinks::accumulated(seq![]) == Map::<Seq<u8>, i64>::empty(),
        ({
            let before = crate::sinks::accumulated(pushed);
            let after = crate::sinks::accumulated(pushed.push((key, delta)));
            let held: int = if before.contains_key(key) {
                before[key] as int
            } else {
                0
            };
            &&& after.contains_key(key)
            &&& (held + delta - after[key]) % 0x1_0000_0000_0000_0000 == 0
            &&& other != key ==> (after.contains_key(other) <==> before.contains_key(other))
            &&& other != key && before.contains_key(other) ==> after[other] == before[other]
            &&& crate::sinks::nonzero(before).contains_key(other) <==> before.contains_key(other)
                && before[other] != 0
            &&& crate::sinks::nonzero(before).contains_key(other) ==> crate::sinks::nonzero(
                before,
            )[other] == before[other]
        }),
        ({
            let held: int = match stored {
                Some(v) => crate::bytes::from_signed_be64(v) as int,
                None => 0,
            };
            match crate::sinks::settled(stored, delta) {
                Some(v) => {
                    &&& (held + delta) % 0x1_0000_0000_0000_0000 != 0
                    &&& v.len() == 8
                    &&& (held + delta - crate::bytes::from_signed_be64(v))
                        % 0x1_0000_0000_0000_0000 == 0
                },
                None => (held + delta) % 0x1_0000_0000_0000_0000 == 0,
            }
        }),
        crate::sinks::stored_at(store, key) == if store.contains_key(key) {
            Some(store[key])
        } else {
            None
        },
{
    assert(pushed.push((key, delta)).drop_last() =~= pushed);
    let held: int = match stored {
        Some(v) => crate::bytes::from_signed_be64(v) as int,
        None => 0,
    };
    let n = crate::zset::wrap64(held + delta);
    crate::bytes::law_bytes_read_back((n as int % 0x1_0000_0000_0000_0000) as u64, n);
}

/// Writing to a store, one key at a time.
pub proof fn law_store_is_written(
    store: Map<Seq<u8>, Seq<u8>>,
    writes: Seq<(Seq<u8>, Option<Seq<u8>>)>,
    key: Seq<u8>,
    value: Seq<u8>,
    changes: Seq<(Seq<u8>, i64)>,
    i: int,
)
    ensures
        crate::sinks::written(store, seq![]) == store,
        crate::sinks::written(store, writes.push((key, Some(value)))) == crate::sinks::written(
            store,
            writes,
        ).insert(key, value),
        crate::sinks::written(store, writes.push((key, None))) == crate::sinks::written(
            store,
            writes,
        ).remove(key),
        crate::sinks::committed(store, changes).len() == changes.len(),
        0 <= i < changes.len() ==> {
            let stored = if store.contains_key(changes[i].0) {
                Some(store[changes[i].0])
            } else {
                None
            };
            crate::sinks::committed(store, changes)[i] == (
                changes[i].0,
                crate::sinks::settled(stored, changes[i].1),
            )
        },
{
    assert(writes.push((key, Some(value))).drop_last() =~= writes);
    assert(writes.push((key, None)).drop_last() =~= writes);
}

/// The engine in memory takes every frame, and neither it nor the log in memory
/// ever fails.
pub proof fn law_memory_never_fails(engine: MemEngine, log: MemLog, f: FrameView)
    ensures
        engine.refusal(f) is None,
        engine.reliable(),
        log.reliable(),
{
}

/// Ids, hashes and vectors are compared by what they hold.
pub proof fn law_equality(
    a: ReplicaId,
    b: ReplicaId,
    g: FrameHash,
    h: FrameHash,
    v: VersionVector,
    w: VersionVector,
    m: Map<ReplicaId, u64>,
)
    ensures
        a.eq_spec(&b) <==> a.0@ == b.0@,
        g.eq_spec(&h) <==> g.0@ == h.0@,
        v.eq_spec(&w) <==> forall|id: ReplicaId| #[trigger]
            crate::vector::held(v@, id) == crate::vector::held(w@, id),
        crate::vector::positive(m) <==> forall|id: ReplicaId| #[trigger]
            m.contains_key(id) ==> m[id] != 0,
{
    if a.0@ == b.0@ {
        assert(a.0 =~= b.0);
    }
    if g.0@ == h.0@ {
        assert(g.0 =~= h.0);
    }
}

/// What a frame is to a feed, by the feed's length, the hash that it has at the
/// frame's place, and its head hash.
pub proof fn law_arrivals_at_a_feed(
    f: FrameView,
    hash: FrameHash,
    poisoned: bool,
    have: int,
    known: Option<FrameHash>,
    head: FrameHash,
)
    requires
        0 <= have,
    ensures
        ({
            let a = crate::replica::arrival_at_feed(f, hash, poisoned, have, known, head);
            &&& a is SeqZero <==> f.seq == 0
            &&& a is Poisoned <==> f.seq != 0 && poisoned
            &&& f.seq != 0 && !poisoned ==> {
                &&& a is Duplicate <==> f.seq <= have && known == Some(hash)
                &&& a is Fork <==> (f.seq <= have && known != Some(hash)) || (f.seq == have + 1
                    && f.prev_hash != head)
                &&& a is Next <==> f.seq == have + 1 && f.prev_hash == head
                &&& a is Gap <==> f.seq > have + 1
            }
        }),
        ({
            let fault = crate::feeds::link_fault(f, have, head);
            &&& fault is None <==> f.seq == have + 1 && f.prev_hash == head
            &&& fault == Some(Fault::NotContiguous) <==> f.seq != have + 1
            &&& fault == Some(Fault::ChainBroken) <==> f.seq == have + 1 && f.prev_hash != head
        }),
{
}

/// A record put together from its parts, and its extent as delimited by them.
pub proof fn law_record_parts(body: Seq<u8>, length_digest: Seq<u8>, digest: Seq<u8>, buf: Seq<u8>)
    requires
        body.len() <= u32::MAX,
        length_digest.len() == 32,
        digest.len() == 32,
    ensures
        ({
            let rec = crate::frame::record_of(body, length_digest, digest);
            let n = body.len() as int;
            &&& rec.len() == n + 40
            &&& n == rec[0] + 256 * (rec[1] + 256 * (rec[2] + 256 * rec[3]))
            &&& rec.subrange(4, 8) == length_digest.subrange(0, 4)
            &&& rec.subrange(8, n + 8) == body
            &&& rec.subrange(n + 8, n + 40) == digest
        }),
        ({
            let end = 40 + buf[0] + 256 * (buf[1] + 256 * (buf[2] + 256 * buf[3]));
            let extent = crate::frame::extent_of(buf, length_digest);
            &&& buf.len() < 8 ==> extent is Partial
            &&& buf.len() >= 8 && buf.subrange(4, 8) != length_digest.subrange(0, 4)
                ==> extent is BadLength
            &&& buf.len() >= 8 && buf.subrange(4, 8) == length_digest.subrange(0, 4) ==> {
                &&& end > usize::MAX ==> extent is BadLength
                &&& buf.len() < end <= usize::MAX ==> extent is Partial
                &&& end <= buf.len() && end <= usize::MAX ==> extent == (Extent::Complete {
                    end: end as usize,
                })
            }
        }),
{
    let n = body.len() as int;
    let len = crate::frame::le32(n);
    law_length_prefix_is_little_endian(n, len);
    let n1 = n / 256;
    let n2 = n1 / 256;
    assert(n == 256 * n1 + n % 256);
    assert(n1 == 256 * n2 + n1 % 256);
    assert(n2 == 256 * (n2 / 256) + n2 % 256);
    let rec = crate::frame::record_of(body, length_digest, digest);
    assert(length_digest.take(4) =~= length_digest.subrange(0, 4));
    assert(rec.subrange(4, 8) =~= length_digest.take(4));
    assert(rec.subrange(8, n + 8) =~= body);
    assert(rec.subrange(n + 8, n + 40) =~= digest);
    assert(rec[0] == len[0] && rec[1] == len[1] && rec[2] == len[2] && rec[3] == len[3]);
    if buf.len() >= 8 {
        law_length_prefix_is_little_endian(0, buf.take(4));
    }
}

/// What one half of a session is after one frame that does not break it off, by
/// what the frame is to the replica, and after several, first to last.
pub proof fn law_half_takes(h: Half, f: FrameView, frames: Seq<FrameView>)
    ensures
        h.replica.arrival(f) is Next ==> h.take(f).replica == h.replica.accepted(f)
            && h.take(f).session == h.session,
        h.replica.arrival(f) is Duplicate ==> h.take(f) == h,
        h.replica.arrival(f) is Fork ==> {
            &&& h.take(f).replica == h.replica.forked(f.origin)
            &&& h.take(f).session == h.session.refuse(
                f.origin,
                SodError::Equivocation { origin: f.origin, seq: f.seq },
            )
        },
        h.replica.arrival(f) is Poisoned ==> {
            &&& h.take(f).replica == h.replica
            &&& h.take(f).session == h.session.refuse(f.origin, SodError::Poisoned(f.origin))
        },
        h.take_all(seq![]) == h,
        h.take_all(frames.push(f)) == h.take_all(frames).take(f),
{
    reveal(Half::take);
    assert(frames.push(f).drop_last() =~= frames);
}

/// A session starts with each side knowing the other's id and vector, and ends when
/// each has taken, of what the other held at the start, the frames that it lacked.
pub proof fn law_session_is_an_exchange(mine: ReplicaView, theirs: ReplicaView, schema: u32)
    ensures
        ({
            let start = crate::sync::greeted(mine, theirs, schema);
            &&& start.replica == mine
            &&& start.session.peer == Some((theirs.id, theirs.vector()))
            &&& start.session.schema == schema
            &&& start.session.sent_done && !start.session.peer_done
            &&& start.session.skipped.len() == 0
            &&& crate::sync::met(mine, theirs, schema) == start.take_all(
                crate::sync::missing(theirs, mine.vector()),
            )
        }),
{
}

/// One side of a completed session ingested every frame sent to it, none of which
/// broke the session off, and reports what it recorded on the way.
pub proof fn law_completed_side<E: Engine, L: LogStore>(
    run: Run<E, L>,
    from: Replica<E, L>,
    heard: SessionView,
    all: Seq<FrameView>,
    r: Replica<E, L>,
    skipped: Seq<SodError>,
    k: int,
)
    requires
        crate::sync::completed(run, from, heard, all, r, skipped),
    ensures
        run.replicas.len() == all.len() + 1,
        run.answers.len() == all.len(),
        run.replicas[0] == from,
        run.replicas[all.len() as int]@ == r@,
        0 <= k < all.len() ==> run.replicas[k].ingested(
            all[k],
            &run.replicas[k + 1],
            run.answers[k],
        ),
        0 <= k < all.len() && run.answers[k] is Err ==> run.answers[k]->Err_0 is Equivocation
            || run.answers[k]->Err_0 is Poisoned,
        skipped == heard.heard_all(all, run.answers).skipped,
{
    assert(all.take(all.len() as int) =~= all);
    if 0 <= k < all.len() {
        assert(run.step(all, k));
        assert(!crate::sync::breaks(run.answers[k]));
    }
}

/// One side of a session that broke off ingested the first frames sent to it. The
/// side that broke it off did so at the last of them, with an error that is neither
/// an equivocation nor about a poisoned feed, or when its log failed to sync after
/// all of them.
pub proof fn law_broken_side<E: Engine, L: LogStore>(
    run: Run<E, L>,
    from: Replica<E, L>,
    all: Seq<FrameView>,
    r: Replica<E, L>,
    e: SodError,
    k: int,
)
    requires
        crate::sync::went(run, from, all, r) || crate::sync::broke_off(run, from, all, r, e),
    ensures
        ({
            let n = run.answers.len() as int;
            &&& n <= all.len()
            &&& run.replicas.len() == n + 1
            &&& run.replicas[0] == from
            &&& run.replicas[n]@ == r@
            &&& 0 <= k < n ==> run.replicas[k].ingested(
                all[k],
                &run.replicas[k + 1],
                run.answers[k],
            )
            &&& 0 <= k < n - 1 && run.answers[k] is Err ==> run.answers[k]->Err_0 is Equivocation
                || run.answers[k]->Err_0 is Poisoned
            &&& crate::sync::broke_off(run, from, all, r, e) ==> {
                ||| {
                    &&& n > 0
                    &&& run.answers[n - 1] == Err::<bool, SodError>(e)
                    &&& !(e is Equivocation || e is Poisoned)
                }
                ||| n == all.len() && r.the_log().failure() == Some(e)
            }
        }),
{
    let n = run.answers.len() as int;
    if 0 <= k < n {
        assert(run.step(all.take(n), k));
        if k < n - 1 {
            assert(!crate::sync::breaks(run.answers[k]));
        }
    }
}

/// Replicas compared: but for the log, and in what fails and what is refused.
pub proof fn law_replicas_compared<E: Engine, L: LogStore>(
    v: ReplicaView,
    w: ReplicaView,
    a: Replica<E, L>,
    b: Replica<E, L>,
    f: FrameView,
)
    ensures
        v.same_but_log(w) <==> {
            &&& v.id == w.id
            &&& v.feeds == w.feeds
            &&& v.poisoned == w.poisoned
            &&& v.watermark == w.watermark
            &&& v.cursor == w.cursor
            &&& v.engine == w.engine
        },
        a.reliable() <==> a.the_engine().reliable() && a.the_log().reliable(),
        a.refusal(f) == a.the_engine().refusal(f),
        a.as_reliable_as(&b) && b.the_engine().reliable() && b.the_log().reliable() ==> {
            &&& a.the_engine().reliable()
            &&& a.the_log().reliable()
            &&& a.the_engine().refusal(f) == b.the_engine().refusal(f)
        },
        a.wf() ==> a@.wf() && a@.engine == a.the_engine().state() && a@.log
            == a.the_log().stored(),
{
    if a.as_reliable_as(&b) && b.the_engine().reliable() && b.the_log().reliable() {
        assert(a.refusal(f) == b.refusal(f));
    }
}

/// Replay that fails does so at a frame beyond the engine's cursor, with the log
/// faultless so far and every frame before it replayed; the engine gave the error,
/// and did so for want of reliability or because it refuses the frame.
pub proof fn law_failing_replay<E: Engine>(
    log: Seq<FrameView>,
    engine: E,
    k: int,
    failed: E,
    e: SodError,
)
    requires
        crate::replica::replay_failed(log, engine, k, failed, e),
    ensures
        0 <= k < log.len(),
        failed.failure() == Some(e),
        failed.state() == crate::feeds::replayed(log.take(k), engine.state()),
        log[k].seq > if engine.state().cursor.contains_key(log[k].origin) {
            engine.state().cursor[log[k].origin] as int
        } else {
            0
        },
        crate::feeds::log_fault(log.take(k + 1)) is None,
        !engine.reliable() || engine.refusal(log[k]) is Some,
{
}

/// Deltas decoded, entries of a store and values looked up are taken one by one.
pub proof fn law_taken_one_by_one<D>(
    decoded: Seq<Option<D>>,
    entries: Seq<(Vec<u8>, Vec<u8>)>,
    stored: Seq<Option<Vec<u8>>>,
    i: int,
)
    ensures
        crate::engine_fold::all_decoded(decoded) <==> forall|j: int|
            0 <= j < decoded.len() ==> !((#[trigger] decoded[j]) is None),
        crate::engine_fold::entry_bytes(entries).len() == entries.len(),
        0 <= i < entries.len() ==> crate::engine_fold::entry_bytes(entries)[i] == (
            entries[i].0@,
            entries[i].1@,
        ),
        crate::sinks::stored_bytes(stored).len() == stored.len(),
        0 <= i < stored.len() ==> match stored[i] {
            Some(v) => crate::sinks::stored_bytes(stored)[i] == Some(v@),
            None => crate::sinks::stored_bytes(stored)[i] is None,
        },
        crate::sync::error_of(Ok::<D, SodError>(arbitrary())) is None,
{
}

/// What is to be written under a key: a value, or that there is none.
pub proof fn law_writes(value: [u8; 8], e: SodError)
    ensures
        Write::Put(value)@ == Some(value@),
        Write::Remove@ == None::<Seq<u8>>,
        crate::sync::error_of(Err::<bool, SodError>(e)) == Some(e),
{
}

} // verus!
