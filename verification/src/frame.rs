//! Frame encoding, BLAKE3 hashing, and the on-disk record format.
//!
//! A frame's identity is the BLAKE3 hash of its encoded bytes, and every frame
//! carries the hash of its predecessor from the same origin, so each origin's
//! feed is a hash chain: tamper-evident, equivocation-detectable, and relayable
//! through untrusted peers.
//!
//! The record format is `u32 LE body-length | 4-byte length-check (blake3 of
//! the length bytes, truncated) | body | 32-byte blake3(body)`. The
//! length-check exists so a corrupted length prefix is *detected* instead of
//! being misread as a clean torn tail.

use crate::codec::{blake3_hash, postcard_decode_frame, postcard_encode_frame, random_bytes};
use crate::error::SodError;
use crate::ordmap::{compare_bytes, Key, Side};
use crate::text::push_hex;
use vstd::prelude::*;
use vstd::slice::slice_subrange;
use vstd::string::StringExecFns;

verus! {

pub(crate) fn same_bytes(a: &[u8], b: &[u8]) -> (r: bool)
    ensures
        r == (a@ == b@),
{
    match compare_bytes(a, b) {
        Side::Same => true,
        _ => false,
    }
}

/// Identity of a replica: 128 random bits, generated when its log is created,
/// and never outliving the log. Deleting or resetting a replica's log requires
/// generating a fresh id: reuse causes silent divergence at peers that remember
/// the old feed.
#[derive(Clone, Copy, Eq, PartialOrd, Ord, Hash)]
pub struct ReplicaId(pub [u8; 16]);

/// The id in hexadecimal.
impl core::fmt::Debug for ReplicaId {
    fn fmt(&self, f: &mut core::fmt::Formatter<'_>) -> core::fmt::Result {
        f.write_str(self.to_string().as_str())
    }
}

impl PartialEq for ReplicaId {
    fn eq(&self, other: &Self) -> (r: bool) {
        proof {
            if self.0@ == other.0@ {
                assert(self.0 =~= other.0);
            }
        }
        same_bytes(self.0.as_slice(), other.0.as_slice())
    }
}

impl vstd::std_specs::cmp::PartialEqSpecImpl for ReplicaId {
    open spec fn obeys_eq_spec() -> bool {
        true
    }

    open spec fn eq_spec(&self, other: &Self) -> bool {
        *self == *other
    }
}

impl Key for ReplicaId {
    type Id = ReplicaId;

    open spec fn id(&self) -> ReplicaId {
        *self
    }

    open spec fn bytes(id: ReplicaId) -> Seq<u8> {
        id.0@
    }

    proof fn lemma_bytes_identify(a: ReplicaId, b: ReplicaId) {
        assert(a.0 =~= b.0);
    }

    fn as_key(&self) -> (key: &[u8]) {
        self.0.as_slice()
    }

    fn duplicate(&self) -> (copy: ReplicaId) {
        *self
    }
}

impl ReplicaId {
    /// Generate a fresh id from the operating system's random source. Which id
    /// comes back, and whether the source is available, is up to that source.
    pub fn generate() -> (r: Result<ReplicaId, SodError>)
        ensures
            r matches Err(e) ==> e matches SodError::Io(what) && what@ == "OS RNG unavailable"@,
    {
        ReplicaId::from_source(random_bytes())
    }

    /// The id of the bytes that a random source gave, or the error that it was
    /// unavailable.
    pub fn from_source(drawn: Result<[u8; 16], getrandom::Error>) -> (r: Result<
        ReplicaId,
        SodError,
    >)
        ensures
            match drawn {
                Ok(b) => r == Ok::<ReplicaId, SodError>(ReplicaId(b)),
                Err(_) => r matches Err(SodError::Io(what)) && what@ == "OS RNG unavailable"@,
            },
    {
        match drawn {
            Ok(b) => Ok(ReplicaId::from_bytes(b)),
            Err(_) => Err(SodError::Io(String::from_str("OS RNG unavailable"))),
        }
    }

    /// Construct from caller-supplied entropy.
    pub fn from_bytes(b: [u8; 16]) -> (id: ReplicaId)
        ensures
            id == ReplicaId(b),
    {
        ReplicaId(b)
    }

    pub fn to_string(&self) -> (s: String)
        ensures
            s@ == crate::text::hex(self.0@),
    {
        let mut out = String::new();
        push_hex(&mut out, self.0.as_slice());
        assert(out@ =~= crate::text::hex(self.0@));
        out
    }
}

/// BLAKE3 hash of a frame's encoded bytes: the frame's identity.
#[derive(Clone, Copy, Eq, PartialOrd, Ord, Hash)]
pub struct FrameHash(pub [u8; 32]);

/// The hash in hexadecimal.
impl core::fmt::Debug for FrameHash {
    fn fmt(&self, f: &mut core::fmt::Formatter<'_>) -> core::fmt::Result {
        f.write_str(self.to_string().as_str())
    }
}

impl PartialEq for FrameHash {
    fn eq(&self, other: &Self) -> (r: bool) {
        proof {
            if self.0@ == other.0@ {
                assert(self.0 =~= other.0);
            }
        }
        same_bytes(self.0.as_slice(), other.0.as_slice())
    }
}

impl vstd::std_specs::cmp::PartialEqSpecImpl for FrameHash {
    open spec fn obeys_eq_spec() -> bool {
        true
    }

    open spec fn eq_spec(&self, other: &Self) -> bool {
        *self == *other
    }
}

impl FrameHash {
    /// The `prev_hash` of the first frame (`seq == 1`) in a feed: all zeros.
    pub open spec fn zero() -> FrameHash {
        FrameHash(
            [
                0, 0, 0, 0, 0, 0, 0, 0, 0, 0, 0, 0, 0, 0, 0, 0, 0, 0, 0, 0, 0, 0, 0, 0, 0, 0, 0, 0,
                0, 0, 0, 0,
            ],
        )
    }

    pub fn to_string(&self) -> (s: String)
        ensures
            s@ == crate::text::hex(self.0@),
    {
        let mut out = String::new();
        push_hex(&mut out, self.0.as_slice());
        assert(out@ =~= crate::text::hex(self.0@));
        out
    }
}

/// The `prev_hash` of the first frame (`seq == 1`) in a feed.
pub fn zero_hash() -> (h: FrameHash)
    ensures
        h == FrameHash::zero(),
{
    let h = FrameHash([0u8; 32]);
    assert(h.0 =~= FrameHash::zero().0);
    h
}

/// What a frame says: its fields, each datum taken as its bytes.
#[verifier::ext_equal]
pub struct FrameView {
    pub prev_hash: FrameHash,
    pub origin: ReplicaId,
    pub seq: u64,
    pub event_time: u64,
    pub payload: Seq<(Seq<u8>, i64)>,
}

impl FrameView {
    /// The body bytes.
    pub open spec fn encoded(self) -> Seq<u8> {
        crate::codec::postcard_frame(
            self.prev_hash.0,
            self.origin.0,
            self.seq,
            self.event_time,
            self.payload,
        )
    }

    /// The identity: the digest of the body bytes.
    pub open spec fn hash(self) -> FrameHash {
        FrameHash(crate::codec::blake3_digest(self.encoded()))
    }

    /// The record: `len | len-check | body | hash`.
    pub open spec fn record(self) -> Seq<u8> {
        let len = le32(self.encoded().len() as int);
        record_of(self.encoded(), crate::codec::blake3_digest(len)@, self.hash().0@)
    }

    /// The body is short enough for the four-byte length prefix, and the
    /// record for this machine's lengths.
    pub open spec fn fits_record(self) -> bool {
        self.encoded().len() <= u32::MAX && self.encoded().len() + 40 <= usize::MAX
    }

    /// The body bytes read back as this frame.
    pub open spec fn reads_back(self) -> bool {
        decoded(self.encoded()) == Some(self)
    }
}

/// The frame that `body` encodes, if it encodes one.
pub open spec fn decoded(body: Seq<u8>) -> Option<FrameView> {
    match crate::codec::postcard_frame_parts(body, usize::BITS) {
        Some(parts) => Some(
            FrameView {
                prev_hash: FrameHash(parts.0),
                origin: ReplicaId(parts.1),
                seq: parts.2,
                event_time: parts.3,
                payload: parts.4,
            },
        ),
        None => None,
    }
}

/// The four little-endian bytes of `n` modulo 2^32.
pub open spec fn le32(n: int) -> Seq<u8> {
    let m = n % 0x1_0000_0000;
    seq![
        (m % 256) as u8,
        (m / 0x100 % 256) as u8,
        (m / 0x1_0000 % 256) as u8,
        (m / 0x100_0000 % 256) as u8,
    ]
}

/// The number whose four little-endian bytes are `b`.
pub open spec fn from_le32(b: Seq<u8>) -> int {
    b[0] + 0x100 * b[1] + 0x1_0000 * b[2] + 0x100_0000 * b[3]
}

/// The check bytes of a length prefix: its digest, truncated.
pub open spec fn length_check(len_bytes: Seq<u8>) -> Seq<u8> {
    crate::codec::blake3_digest(len_bytes)@.take(4)
}

/// The record of `body`, where `length_digest` is the digest of its length
/// prefix and `digest` its own.
pub open spec fn record_of(body: Seq<u8>, length_digest: Seq<u8>, digest: Seq<u8>) -> Seq<u8> {
    le32(body.len() as int) + length_digest.take(4) + body + digest
}

/// How far the record at the front of a byte string reaches.
pub enum Extent {
    /// The byte string ends before the record does.
    Partial,
    /// The length prefix fails its check or is beyond this machine's lengths.
    BadLength,
    /// All of the record is there, up to `end`.
    Complete { end: usize },
}

/// The extent of the record at the front of `buf`, where `length_digest` is the
/// digest of its first four bytes.
pub open spec fn extent_of(buf: Seq<u8>, length_digest: Seq<u8>) -> Extent {
    let end = from_le32(buf.take(4)) + 40;
    if buf.len() < 8 {
        Extent::Partial
    } else if buf.subrange(4, 8) != length_digest.take(4) {
        Extent::BadLength
    } else if end > usize::MAX {
        Extent::BadLength
    } else if buf.len() < end {
        Extent::Partial
    } else {
        Extent::Complete { end: end as usize }
    }
}

/// What stands at the front of a byte string that should begin with a record.
/// `end` is where the record ends.
#[verifier::ext_equal]
pub enum RecordView {
    /// Only part of a record.
    Partial,
    /// The length prefix fails its check or is beyond this machine's lengths.
    BadLength,
    /// The stored hash is not the body's.
    BadHash { end: int },
    /// The body does not decode.
    BadBody { end: int },
    Whole { frame: FrameView, hash: FrameHash, end: int },
}

/// The reading of the record at the front of `buf`.
pub open spec fn record_at_front(buf: Seq<u8>) -> RecordView {
    match extent_of(buf, crate::codec::blake3_digest(buf.take(4))@) {
        Extent::Partial => RecordView::Partial,
        Extent::BadLength => RecordView::BadLength,
        Extent::Complete { end } => {
            let body = buf.subrange(8, end - 32);
            let digest = crate::codec::blake3_digest(body);
            if digest@ != buf.subrange(end - 32, end as int) {
                RecordView::BadHash { end: end as int }
            } else {
                match decoded(body) {
                    None => RecordView::BadBody { end: end as int },
                    Some(frame) => RecordView::Whole {
                        frame,
                        hash: FrameHash(digest),
                        end: end as int,
                    },
                }
            }
        },
    }
}

/// A payload equal to `payload`, datum by datum.
pub(crate) fn clone_payload(payload: &Vec<(Vec<u8>, i64)>) -> (copy: Vec<(Vec<u8>, i64)>)
    ensures
        crate::codec::deltas(copy@) == crate::codec::deltas(payload@),
{
    let mut copy: Vec<(Vec<u8>, i64)> = Vec::with_capacity(payload.len());
    let mut i: usize = 0;
    while i < payload.len()
        invariant
            i <= payload@.len(),
            copy@.len() == i,
            forall|j: int|
                0 <= j < i ==> (#[trigger] copy@[j]).0@ == payload@[j].0@ && copy@[j].1
                    == payload@[j].1,
        decreases payload@.len() - i,
    {
        let datum = payload[i].0.clone();
        assert(datum@ =~= payload@[i as int].0@);
        copy.push((datum, payload[i].1));
        i = i + 1;
    }
    assert(crate::codec::deltas(copy@) =~= crate::codec::deltas(payload@));
    copy
}

/// One committed batch of deltas from one origin.
#[derive(PartialEq, Eq, Debug)]
pub struct Frame {
    /// Hash of this origin's previous frame; all zeros at `seq == 1`.
    pub prev_hash: FrameHash,
    /// The replica that committed this frame.
    pub origin: ReplicaId,
    /// 1-based, contiguous per origin.
    pub seq: u64,
    /// Origin-stamped event time, milliseconds since the unix epoch. Produced
    /// by the committing application; never observed as a clock inside sod.
    pub event_time: u64,
    /// `(postcard-encoded datum, signed multiplicity)` deltas.
    pub payload: Vec<(Vec<u8>, i64)>,
}

impl View for Frame {
    type V = FrameView;

    open spec fn view(&self) -> FrameView {
        FrameView {
            prev_hash: self.prev_hash,
            origin: self.origin,
            seq: self.seq,
            event_time: self.event_time,
            payload: crate::codec::deltas(self.payload@),
        }
    }
}

impl Clone for Frame {
    fn clone(&self) -> (r: Self)
        ensures
            r@ == self@,
    {
        Frame {
            prev_hash: self.prev_hash,
            origin: self.origin,
            seq: self.seq,
            event_time: self.event_time,
            payload: clone_payload(&self.payload),
        }
    }
}

impl Frame {
    /// The frame's body bytes (postcard).
    pub fn encode(&self) -> (body: Vec<u8>)
        ensures
            body@ == self@.encoded(),
            self@.reads_back(),
    {
        postcard_encode_frame(
            &self.prev_hash.0,
            &self.origin.0,
            self.seq,
            self.event_time,
            &self.payload,
        )
    }

    /// The frame's identity: BLAKE3 of [`encode`](Frame::encode).
    pub fn hash(&self) -> (h: FrameHash)
        ensures
            h == self@.hash(),
            self@.reads_back(),
    {
        FrameHash(blake3_hash(self.encode().as_slice()))
    }

    /// Append the full record, `len | len-check | body | hash`, to `out`. A
    /// body of at most `u32::MAX` bytes reads back from the record, whatever
    /// follows it.
    pub fn encode_record(&self, out: &mut Vec<u8>)
        ensures
            final(out)@ == old(out)@ + self@.record(),
            self@.reads_back(),
            self@.encoded().len() <= u32::MAX ==> forall|rest: Seq<u8>|
                #[trigger] record_at_front(self@.record() + rest) == (RecordView::Whole {
                    frame: self@,
                    hash: self@.hash(),
                    end: self@.record().len() as int,
                }),
    {
        let body = self.encode();
        let length_digest = blake3_hash(length_prefix(body.len()).as_slice());
        let digest = blake3_hash(body.as_slice());
        assemble_record(body.as_slice(), &length_digest, &digest, out);
        proof {
            assert(out@.len() == out.len());
            lemma_record_len(self@);
            if self@.encoded().len() <= u32::MAX {
                lemma_record_reads_back_always(self@);
            }
        }
    }
}

fn push_bytes(out: &mut Vec<u8>, bytes: &[u8])
    ensures
        final(out)@ == old(out)@ + bytes@,
{
    out.extend_from_slice(bytes);
    assert(out@ =~= old(out)@ + bytes@);
}

/// The length prefix of a body: four bytes, little-endian.
pub fn length_prefix(len: usize) -> (b: [u8; 4])
    ensures
        b@ == le32(len as int),
        b[0] + 256 * (b[1] + 256 * (b[2] + 256 * b[3])) == len as int % 0x1_0000_0000,
{
    let m: u64 = len as u64 % 0x1_0000_0000;
    let b = [
        (m % 256) as u8,
        (m / 0x100 % 256) as u8,
        (m / 0x1_0000 % 256) as u8,
        (m / 0x100_0000 % 256) as u8,
    ];
    assert(b@ =~= le32(len as int));
    proof {
        lemma_le32(m as int);
        assert(le32(len as int) == le32(m as int));
        assert(b[0] == b@[0] && b[1] == b@[1] && b[2] == b@[2] && b[3] == b@[3]);
    }
    b
}

/// Append the record of `body` to `out`, where `length_digest` is the digest of
/// its length prefix and `digest` its own.
pub fn assemble_record(
    body: &[u8],
    length_digest: &[u8; 32],
    digest: &[u8; 32],
    out: &mut Vec<u8>,
)
    ensures
        final(out)@ == old(out)@ + record_of(body@, length_digest@, digest@),
{
    let len = length_prefix(body.len());
    push_bytes(out, len.as_slice());
    push_bytes(out, slice_subrange(length_digest.as_slice(), 0, 4));
    push_bytes(out, body);
    push_bytes(out, digest.as_slice());
    proof {
        assert(length_digest@.subrange(0, 4) =~= length_digest@.take(4));
        assert(old(out)@ + len@ + length_digest@.take(4) + body@ + digest@ =~= old(out)@
            + record_of(body@, length_digest@, digest@));
    }
}

/// The extent of the record at the front of `buf`, where `length_digest` is the
/// digest of its first four bytes.
pub fn delimit(buf: &[u8], length_digest: &[u8; 32]) -> (e: Extent)
    ensures
        e == extent_of(buf@, length_digest@),
        e matches Extent::Complete { end } ==> end == 40 + buf[0] + 256 * (buf[1] + 256 * (buf[2]
            + 256 * buf[3])),
{
    if buf.len() < 8 {
        return Extent::Partial;
    }
    assert(length_digest@.subrange(0, 4) =~= length_digest@.take(4));
    if !same_bytes(
        slice_subrange(length_digest.as_slice(), 0, 4),
        slice_subrange(buf, 4, 8),
    ) {
        return Extent::BadLength;
    }
    let len: u64 = buf[0] as u64 + 0x100 * (buf[1] as u64) + 0x1_0000 * (buf[2] as u64)
        + 0x100_0000 * (buf[3] as u64);
    // An overflowing length is as untrustworthy as a failed check.
    if len + 40 > usize::MAX as u64 {
        return Extent::BadLength;
    }
    let end: usize = (len + 40) as usize;
    if buf.len() < end {
        return Extent::Partial;
    }
    Extent::Complete { end }
}

/// Whether the record that ends at `end` stores `digest` as its hash.
pub fn stores_hash(buf: &[u8], end: usize, digest: &[u8; 32]) -> (r: bool)
    requires
        32 <= end <= buf@.len(),
    ensures
        r == (digest@ == buf@.subrange(end - 32, end as int)),
{
    same_bytes(digest.as_slice(), slice_subrange(buf, end - 32, end))
}

/// [`decode_record`] error when the length prefix cannot be trusted: it fails
/// its check, or its value overflows record arithmetic, so the record cannot
/// even be delimited. Log recovery treats this as interior corruption, never
/// as a torn tail (torn appends produce *short* records, not garbled headers).
pub const CORRUPT_LEN: &'static str = "record length untrustworthy";

/// The record at the front of a byte string, as read.
pub enum RecordRead {
    Partial,
    BadLength,
    BadHash { end: usize },
    BadBody { end: usize },
    Whole { frame: Frame, hash: FrameHash, end: usize },
}

impl View for RecordRead {
    type V = RecordView;

    open spec fn view(&self) -> RecordView {
        match *self {
            RecordRead::Partial => RecordView::Partial,
            RecordRead::BadLength => RecordView::BadLength,
            RecordRead::BadHash { end } => RecordView::BadHash { end: end as int },
            RecordRead::BadBody { end } => RecordView::BadBody { end: end as int },
            RecordRead::Whole { frame, hash, end } => RecordView::Whole {
                frame: frame@,
                hash,
                end: end as int,
            },
        }
    }
}

/// Read and verify the record at the front of `buf`.
pub fn read_record(buf: &[u8]) -> (r: RecordRead)
    ensures
        r@ == record_at_front(buf@),
{
    if buf.len() < 8 {
        return RecordRead::Partial;
    }
    let prefix = slice_subrange(buf, 0, 4);
    assert(prefix@ =~= buf@.take(4));
    match delimit(buf, &blake3_hash(prefix)) {
        Extent::Partial => RecordRead::Partial,
        Extent::BadLength => RecordRead::BadLength,
        Extent::Complete { end } => {
            let body = slice_subrange(buf, 8, end - 32);
            let digest = blake3_hash(body);
            if !stores_hash(buf, end, &digest) {
                return RecordRead::BadHash { end };
            }
            match postcard_decode_frame(body) {
                Ok((prev_hash, origin, seq, event_time, payload)) => RecordRead::Whole {
                    frame: Frame {
                        prev_hash: FrameHash(prev_hash),
                        origin: ReplicaId(origin),
                        seq,
                        event_time,
                        payload,
                    },
                    hash: FrameHash(digest),
                    end,
                },
                Err(_) => RecordRead::BadBody { end },
            }
        },
    }
}

/// Decode and verify one record from the front of `buf`.
///
/// Returns `Ok(Some((frame, hash, consumed)))` on success, `Ok(None)` if `buf`
/// holds only a clean partial record (more bytes needed; at the end of a log
/// file this is a torn tail), and `Err(Corrupt)` if the record fails its length
/// check, hash verification, or decoding.
pub fn decode_record(buf: &[u8]) -> (r: Result<Option<(Frame, FrameHash, usize)>, SodError>)
    ensures
        match record_at_front(buf@) {
            RecordView::Partial => r matches Ok(None),
            RecordView::BadLength => r matches Err(SodError::Corrupt(what)) && what == CORRUPT_LEN,
            RecordView::BadHash { end } => r matches Err(SodError::Corrupt(what)) && what@
                == "record hash mismatch"@,
            RecordView::BadBody { end } => r matches Err(SodError::Corrupt(what)) && what@
                == "frame decode failed"@,
            RecordView::Whole { frame, hash, end } => r matches Ok(Some((f, h, consumed))) && f@
                == frame && h == hash && consumed == end,
        },
{
    match read_record(buf) {
        RecordRead::Partial => Ok(None),
        RecordRead::BadLength => Err(SodError::Corrupt(CORRUPT_LEN)),
        RecordRead::BadHash { .. } => Err(SodError::Corrupt("record hash mismatch")),
        RecordRead::BadBody { .. } => Err(SodError::Corrupt("frame decode failed")),
        RecordRead::Whole { frame, hash, end } => Ok(Some((frame, hash, end))),
    }
}

/// The four bytes of a length prefix make up its number, and back.
proof fn lemma_le32(n: int)
    requires
        0 <= n <= u32::MAX,
    ensures
        le32(n).len() == 4,
        from_le32(le32(n)) == n,
{
    let n1 = n / 0x100;
    let n2 = n1 / 0x100;
    let n3 = n2 / 0x100;
    assert(n == 0x100 * n1 + n % 256);
    assert(n1 == 0x100 * n2 + n1 % 256);
    assert(n2 == 0x100 * n3 + n2 % 256);
    assert(n / 0x1_0000 == n2);
    assert(n / 0x100_0000 == n3);
    assert(0 <= n3 < 256);
    let b = le32(n);
    assert(b[0] == n % 256);
    assert(b[1] == n1 % 256);
    assert(b[2] == n2 % 256);
    assert(b[3] == n3);
}

/// A record's length prefix is checked, delimits it, and its body and hash
/// stand between its ends.
proof fn lemma_record_layout(f: FrameView, buf: Seq<u8>)
    requires
        f.fits_record(),
        8 <= buf.len(),
        forall|i: int|
            0 <= i < buf.len() && i < f.record().len() ==> #[trigger] buf[i] == f.record()[i],
    ensures
        f.record().len() == f.encoded().len() + 40,
        buf.take(4) == le32(f.encoded().len() as int),
        buf.subrange(4, 8) == length_check(buf.take(4)),
        from_le32(buf.take(4)) + 40 == f.record().len(),
        f.record().len() <= buf.len() ==> {
            &&& buf.subrange(8, f.record().len() - 32) == f.encoded()
            &&& buf.subrange(f.record().len() - 32, f.record().len() as int) == f.hash().0@
        },
{
    let n = f.encoded().len() as int;
    lemma_le32(n);
    let len = le32(n);
    assert(length_check(len).len() == 4);
    assert(buf.take(4) =~= len);
    assert(buf.subrange(4, 8) =~= length_check(len));
    if f.record().len() <= buf.len() {
        assert(buf.subrange(8, f.record().len() - 32) =~= f.encoded());
        assert(buf.subrange(f.record().len() - 32, f.record().len() as int) =~= f.hash().0@);
    }
}

/// A record reads back as the frame it was written from, with the frame's
/// hash, and is delimited exactly, whatever bytes follow it.
pub proof fn law_record_reads_back(f: FrameView, rest: Seq<u8>)
    requires
        f.fits_record(),
        f.reads_back(),
    ensures
        record_at_front(f.record() + rest) == (RecordView::Whole {
            frame: f,
            hash: f.hash(),
            end: f.record().len() as int,
        }),
{
    lemma_record_len(f);
    lemma_record_layout(f, f.record() + rest);
}

proof fn lemma_record_len(f: FrameView)
    ensures
        f.record().len() == f.encoded().len() + 40,
{
    assert(length_check(le32(f.encoded().len() as int)).len() == 4);
}

proof fn lemma_record_reads_back_always(f: FrameView)
    requires
        f.fits_record(),
        f.reads_back(),
    ensures
        forall|rest: Seq<u8>|
            #[trigger] record_at_front(f.record() + rest) == (RecordView::Whole {
                frame: f,
                hash: f.hash(),
                end: f.record().len() as int,
            }),
{
    assert forall|rest: Seq<u8>|
        #[trigger] record_at_front(f.record() + rest) == (RecordView::Whole {
            frame: f,
            hash: f.hash(),
            end: f.record().len() as int,
        }) by {
        law_record_reads_back(f, rest);
    }
}

/// A record cut short anywhere reads as a clean partial record.
pub proof fn law_cut_record_is_partial(f: FrameView, cut: int)
    requires
        f.fits_record(),
        0 <= cut < f.record().len(),
    ensures
        record_at_front(f.record().take(cut)) == RecordView::Partial,
{
    if cut >= 8 {
        lemma_record_layout(f, f.record().take(cut));
    }
}

/// Every byte of a record is tamper-evident: bytes of the same length that
/// differ from the record in the hash, in the body, in the length check or in
/// the length prefix are reported corrupt. The body and the prefix are covered
/// by their digests, so what is said of them leaves out digest collisions.
pub proof fn law_altered_record_is_corrupt(f: FrameView, bad: Seq<u8>)
    requires
        f.fits_record(),
        bad.len() == f.record().len(),
    ensures
        bad != f.record() && bad.take(bad.len() - 32) == f.record().take(bad.len() - 32)
            ==> record_at_front(bad) == (RecordView::BadHash { end: bad.len() as int }),
        bad.take(8) == f.record().take(8) && bad.skip(bad.len() - 32) == f.hash().0@
            && crate::codec::blake3_digest(bad.subrange(8, bad.len() - 32)) != f.hash().0
            ==> record_at_front(bad) == (RecordView::BadHash { end: bad.len() as int }),
        bad.take(4) == f.record().take(4) && bad.subrange(4, 8) != f.record().subrange(4, 8)
            ==> record_at_front(bad) == RecordView::BadLength,
        bad.subrange(4, 8) == f.record().subrange(4, 8) && length_check(bad.take(4))
            != length_check(f.record().take(4)) ==> record_at_front(bad) == RecordView::BadLength,
{
    let rec = f.record();
    let n = rec.len() as int;
    assert(length_check(le32(f.encoded().len() as int)).len() == 4);
    lemma_record_layout(f, rec);
    assert(rec.subrange(n - 32, n) =~= rec.skip(n - 32));
    assert(bad.subrange(n - 32, n) =~= bad.skip(n - 32));
    assert(bad.take(8).take(4) =~= bad.take(4));
    assert(rec.take(8).take(4) =~= rec.take(4));
    assert(bad.take(8).subrange(4, 8) =~= bad.subrange(4, 8));
    assert(rec.take(8).subrange(4, 8) =~= rec.subrange(4, 8));
    if bad != rec && bad.take(n - 32) == rec.take(n - 32) {
        assert(bad.take(n - 32).take(8) =~= bad.take(8));
        assert(rec.take(n - 32).take(8) =~= rec.take(8));
        assert(bad.take(n - 32).subrange(8, n - 32) =~= bad.subrange(8, n - 32));
        assert(rec.take(n - 32).subrange(8, n - 32) =~= rec.subrange(8, n - 32));
        if bad.skip(n - 32) == rec.skip(n - 32) {
            assert(bad =~= bad.take(n - 32) + bad.skip(n - 32));
            assert(rec =~= rec.take(n - 32) + rec.skip(n - 32));
        }
    }
    if bad.take(8) == rec.take(8) && bad.skip(n - 32) == f.hash().0@
        && crate::codec::blake3_digest(bad.subrange(8, n - 32)) != f.hash().0 {
        let d = crate::codec::blake3_digest(bad.subrange(8, n - 32));
        if d@ == f.hash().0@ {
            assert(d =~= f.hash().0);
        }
    }
}

/// Frames with the same body bytes, and with the same record, are the same
/// frame.
pub proof fn law_encoding_identifies_frame(f: FrameView, g: FrameView)
    requires
        f.reads_back(),
        g.reads_back(),
    ensures
        f.encoded() == g.encoded() ==> f == g,
        f.fits_record() && g.fits_record() && f.record() == g.record() ==> f == g,
{
    if f.fits_record() && g.fits_record() && f.record() == g.record() {
        law_record_reads_back(f, seq![]);
        law_record_reads_back(g, seq![]);
    }
}

} // verus!
