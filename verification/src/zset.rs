//! Z-sets: data with signed net multiplicities.
//!
//! A Z-set is the map from each datum to its net multiplicity, without the
//! data whose multiplicity is zero. Multiplicities are 64-bit and wrap.

use crate::ordmap::Key;
use vstd::prelude::*;

verus! {

impl Key for Vec<u8> {
    type Id = Seq<u8>;

    open spec fn id(&self) -> Seq<u8> {
        self@
    }

    open spec fn bytes(id: Seq<u8>) -> Seq<u8> {
        id
    }

    proof fn lemma_bytes_identify(a: Seq<u8>, b: Seq<u8>) {
    }

    fn as_key(&self) -> (key: &[u8]) {
        self.as_slice()
    }

    fn duplicate(&self) -> (copy: Vec<u8>) {
        let copy = self.clone();
        assert(copy@ =~= self@);
        copy
    }
}

/// The 64-bit integer congruent to `n` modulo 2^64.
pub open spec fn wrap64(n: int) -> i64 {
    let m = n % 0x1_0000_0000_0000_0000;
    if m <= i64::MAX {
        m as i64
    } else {
        (m - 0x1_0000_0000_0000_0000) as i64
    }
}

/// The net multiplicity of `d` in `z`.
pub open spec fn multiplicity(z: Map<Seq<u8>, i64>, d: Seq<u8>) -> i64 {
    if z.contains_key(d) {
        z[d]
    } else {
        0
    }
}

/// No datum is kept at multiplicity zero.
pub open spec fn zero_free(z: Map<Seq<u8>, i64>) -> bool {
    forall|d: Seq<u8>| #[trigger] z.contains_key(d) ==> z[d] != 0
}

/// `z` with the multiplicity of one datum changed to `n`.
pub open spec fn with_multiplicity(z: Map<Seq<u8>, i64>, d: Seq<u8>, n: i64) -> Map<Seq<u8>, i64> {
    if n == 0 {
        z.remove(d)
    } else {
        z.insert(d, n)
    }
}

/// `z` with the deltas of `payload` added, first to last.
pub open spec fn add_deltas(z: Map<Seq<u8>, i64>, payload: Seq<(Seq<u8>, i64)>) -> Map<
    Seq<u8>,
    i64,
>
    decreases payload.len(),
{
    if payload.len() == 0 {
        z
    } else {
        let before = add_deltas(z, payload.drop_last());
        let (d, m) = payload.last();
        with_multiplicity(before, d, wrap64(multiplicity(before, d) + m))
    }
}

/// The sum of the multiplicities that `payload` gives to `d`.
pub open spec fn total(payload: Seq<(Seq<u8>, i64)>, d: Seq<u8>) -> int
    decreases payload.len(),
{
    if payload.len() == 0 {
        0
    } else {
        total(payload.drop_last(), d) + if payload.last().0 == d {
            payload.last().1 as int
        } else {
            0
        }
    }
}

/// The Z-set in which each datum has the multiplicity that `sums` gives it,
/// modulo 2^64.
pub open spec fn zset_of(sums: spec_fn(Seq<u8>) -> int) -> Map<Seq<u8>, i64> {
    Map::new(|d: Seq<u8>| wrap64(sums(d)) != 0, |d: Seq<u8>| wrap64(sums(d)))
}

pub proof fn lemma_wrap64_sum(a: int, b: int)
    ensures
        wrap64(wrap64(a) + b) == wrap64(a + b),
        wrap64(a + wrap64(b)) == wrap64(a + b),
{
}

pub proof fn lemma_wrap64_small(n: i64)
    ensures
        wrap64(n as int) == n,
{
}

/// Adding deltas adds to each datum's multiplicity the sum that the payload
/// gives it, and leaves no datum at multiplicity zero.
pub proof fn law_add_deltas_sums(z: Map<Seq<u8>, i64>, payload: Seq<(Seq<u8>, i64)>, d: Seq<u8>)
    ensures
        multiplicity(add_deltas(z, payload), d) == wrap64(multiplicity(z, d) + total(payload, d)),
        zero_free(z) ==> zero_free(add_deltas(z, payload)),
    decreases payload.len(),
{
    if payload.len() == 0 {
        lemma_wrap64_small(multiplicity(z, d));
    } else {
        law_add_deltas_sums(z, payload.drop_last(), d);
        let (e, m) = payload.last();
        if e == d {
            lemma_wrap64_sum(multiplicity(z, d) + total(payload.drop_last(), d), m as int);
        }
    }
}

/// A Z-set is determined by its multiplicities.
pub proof fn lemma_zset_ext(y: Map<Seq<u8>, i64>, z: Map<Seq<u8>, i64>)
    requires
        zero_free(y),
        zero_free(z),
        forall|d: Seq<u8>| #[trigger] multiplicity(y, d) == multiplicity(z, d),
    ensures
        y == z,
{
    assert forall|d: Seq<u8>| #[trigger] y.contains_key(d) <==> z.contains_key(d) by {
        assert(multiplicity(y, d) == multiplicity(z, d));
    }
    assert forall|d: Seq<u8>| #[trigger] y.contains_key(d) implies y[d] == z[d] by {
        assert(multiplicity(y, d) == multiplicity(z, d));
    }
    assert(y =~= z);
}

/// Deltas commute: two payloads can be added in either order.
pub proof fn law_deltas_commute(
    z: Map<Seq<u8>, i64>,
    p: Seq<(Seq<u8>, i64)>,
    q: Seq<(Seq<u8>, i64)>,
)
    requires
        zero_free(z),
    ensures
        add_deltas(add_deltas(z, p), q) == add_deltas(add_deltas(z, q), p),
{
    let y1 = add_deltas(add_deltas(z, p), q);
    let y2 = add_deltas(add_deltas(z, q), p);
    assert forall|d: Seq<u8>| #[trigger] multiplicity(y1, d) == multiplicity(y2, d) by {
        law_add_deltas_sums(z, p, d);
        law_add_deltas_sums(add_deltas(z, p), q, d);
        law_add_deltas_sums(z, q, d);
        law_add_deltas_sums(add_deltas(z, q), p, d);
        let n = multiplicity(z, d) as int;
        lemma_wrap64_sum(n + total(p, d), total(q, d));
        lemma_wrap64_sum(n + total(q, d), total(p, d));
    }
    law_add_deltas_sums(z, p, seq![]);
    law_add_deltas_sums(add_deltas(z, p), q, seq![]);
    law_add_deltas_sums(z, q, seq![]);
    law_add_deltas_sums(add_deltas(z, q), p, seq![]);
    lemma_zset_ext(y1, y2);
}

/// Adding deltas to the Z-set of some sums gives the Z-set of the sums with the
/// payload's added.
pub proof fn lemma_add_to_zset_of(
    sums: spec_fn(Seq<u8>) -> int,
    payload: Seq<(Seq<u8>, i64)>,
    after: spec_fn(Seq<u8>) -> int,
)
    requires
        forall|d: Seq<u8>| #[trigger] after(d) == sums(d) + total(payload, d),
    ensures
        zero_free(zset_of(sums)),
        add_deltas(zset_of(sums), payload) == zset_of(after),
{
    let z = zset_of(sums);
    assert forall|d: Seq<u8>| #[trigger]
        multiplicity(add_deltas(z, payload), d) == multiplicity(zset_of(after), d) by {
        law_add_deltas_sums(z, payload, d);
        lemma_wrap64_sum(sums(d), total(payload, d));
        assert(after(d) == sums(d) + total(payload, d));
    }
    law_add_deltas_sums(z, payload, seq![]);
    lemma_zset_ext(add_deltas(z, payload), zset_of(after));
}

} // verus!
