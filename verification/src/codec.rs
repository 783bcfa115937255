//! The calls into BLAKE3, postcard, the operating system's random source and
//! std's formatter.

use vstd::prelude::*;

verus! {

/// The deltas of a payload, each datum taken as its bytes.
pub open spec fn deltas(payload: Seq<(Vec<u8>, i64)>) -> Seq<(Seq<u8>, i64)> {
    payload.map_values(|d: (Vec<u8>, i64)| (d.0@, d.1))
}

/// The 32-byte BLAKE3 digest of `data`.
pub uninterp spec fn blake3_digest(data: Seq<u8>) -> [u8; 32];

/// `blake3::hash`: the digest depends on the input bytes alone.
#[verifier::external_body]
pub(crate) fn blake3_hash(data: &[u8]) -> (digest: [u8; 32])
    ensures
        digest == blake3_digest(data@),
{
    *blake3::hash(data).as_bytes()
}

/// The postcard encoding of the tuple of a frame's five fields, in the order
/// of the parameters.
pub uninterp spec fn postcard_frame(
    prev_hash: [u8; 32],
    origin: [u8; 16],
    seq: u64,
    event_time: u64,
    payload: Seq<(Seq<u8>, i64)>,
) -> Seq<u8>;

/// What postcard reads from the front of `body` as the tuple of a frame's five
/// fields, on a machine with `word_bits`-bit lengths; `None` if it reports an
/// error.
pub uninterp spec fn postcard_frame_parts(body: Seq<u8>, word_bits: u32) -> Option<
    ([u8; 32], [u8; 16], u64, u64, Seq<(Seq<u8>, i64)>),
>;

/// `postcard::to_stdvec` on a frame's fields, which fails on none of them. The
/// encoding depends on the fields alone, and `postcard::from_bytes` reads it
/// back to the same fields.
#[verifier::external_body]
pub(crate) fn postcard_encode_frame(
    prev_hash: &[u8; 32],
    origin: &[u8; 16],
    seq: u64,
    event_time: u64,
    payload: &Vec<(Vec<u8>, i64)>,
) -> (body: Vec<u8>)
    ensures
        body@ == postcard_frame(*prev_hash, *origin, seq, event_time, deltas(payload@)),
        postcard_frame_parts(body@, usize::BITS) == Some(
            (*prev_hash, *origin, seq, event_time, deltas(payload@)),
        ),
{
    postcard::to_stdvec(&(prev_hash, origin, seq, event_time, payload)).expect(
        "frame encoding is infallible",
    )
}

/// The postcard encoding of a map from byte strings to multiplicities whose
/// entries, in key order, are `entries`.
pub uninterp spec fn postcard_multiset(entries: Seq<(Seq<u8>, i64)>) -> Seq<u8>;

/// What postcard reads from the front of `bytes` as a sequence of byte strings
/// with multiplicities, on a machine with `word_bits`-bit lengths; `None` if it
/// reports an error.
pub uninterp spec fn postcard_multiset_entries(bytes: Seq<u8>, word_bits: u32) -> Option<
    Seq<(Seq<u8>, i64)>,
>;

/// `postcard::to_stdvec` on a multiset's entries, which fails on none of them.
/// The encoding depends on the entries alone; it is that of a map with these
/// entries, since postcard writes a map as it writes a sequence of pairs.
/// `postcard::from_bytes` reads it back to the same entries.
#[verifier::external_body]
pub(crate) fn postcard_encode_multiset(entries: &Vec<(Vec<u8>, i64)>) -> (bytes: Vec<u8>)
    ensures
        bytes@ == postcard_multiset(deltas(entries@)),
        postcard_multiset_entries(bytes@, usize::BITS) == Some(deltas(entries@)),
{
    postcard::to_stdvec(entries).expect("multiset encoding is infallible")
}

/// `postcard::Error`: why a body does not decode. Nothing is said of it.
#[verifier::external_type_specification]
#[verifier::external_body]
pub struct ExPostcardError(postcard::Error);

/// `postcard::from_bytes` at the tuple of a frame's fields: what it reads, or
/// that it reports an error, depends on the bytes and on the machine's word
/// size alone.
#[verifier::external_body]
pub(crate) fn postcard_decode_frame(body: &[u8]) -> (r: Result<
    ([u8; 32], [u8; 16], u64, u64, Vec<(Vec<u8>, i64)>),
    postcard::Error,
>)
    ensures
        match r {
            Ok(t) => postcard_frame_parts(body@, usize::BITS) == Some(
                (t.0, t.1, t.2, t.3, deltas(t.4@)),
            ),
            Err(_) => postcard_frame_parts(body@, usize::BITS) is None,
        },
{
    postcard::from_bytes(body)
}

/// `getrandom::Error`: why the random source is unavailable. Nothing is said of
/// it.
#[verifier::external_type_specification]
#[verifier::external_body]
pub struct ExGetrandomError(getrandom::Error);

/// `getrandom::getrandom` on sixteen bytes. Which bytes come back, and whether
/// the source is available, is up to the operating system.
#[verifier::external_body]
pub(crate) fn random_bytes() -> (r: Result<[u8; 16], getrandom::Error>) {
    let mut b = [0u8; 16];
    match getrandom::getrandom(&mut b) {
        Ok(()) => Ok(b),
        Err(e) => Err(e),
    }
}

/// `core::fmt::Formatter`: where text is formatted to. Nothing is said of what it
/// holds.
#[verifier::external_type_specification]
#[verifier::external_body]
pub struct ExFormatter<'a>(core::fmt::Formatter<'a>);

/// `core::fmt::Error`: that a formatter did not take the text. Nothing is said of
/// it.
#[verifier::external_type_specification]
#[verifier::external_body]
pub struct ExFormatError(core::fmt::Error);

/// `core::fmt::Formatter::write_str`: whether the text is taken is up to what the
/// formatter writes to.
pub assume_specification<'a>[ core::fmt::Formatter::<'a>::write_str ](
    f: &mut core::fmt::Formatter<'a>,
    data: &str,
) -> (r: Result<(), core::fmt::Error>);

/// `core::fmt::DebugMap`: a map under way to a formatter. Nothing is said of what
/// it holds.
#[verifier::external_type_specification]
#[verifier::external_body]
pub struct ExDebugMap<'a, 'b: 'a>(core::fmt::DebugMap<'a, 'b>);

/// `core::fmt::Formatter::debug_map`: the start of a map.
pub assume_specification<'a, 'b>[ core::fmt::Formatter::<'a>::debug_map ](
    f: &'b mut core::fmt::Formatter<'a>,
) -> (map: core::fmt::DebugMap<'b, 'a>);

/// `core::fmt::DebugMap::finish`: whether the text is taken is up to what the
/// formatter writes to.
pub assume_specification<'a, 'b: 'a>[ core::fmt::DebugMap::<'a, 'b>::finish ](
    map: &mut core::fmt::DebugMap<'a, 'b>,
) -> (r: Result<(), core::fmt::Error>);

/// `core::fmt::DebugMap::entry`: one more entry of the map.
#[verifier::external_body]
pub(crate) fn debug_entry<K: core::fmt::Debug, V: core::fmt::Debug>(
    map: &mut core::fmt::DebugMap<'_, '_>,
    key: &K,
    value: &V,
) {
    map.entry(key, value);
}

} // verus!
