//! Numbers as eight big-endian bytes, the form in which stores keep them.

use vstd::prelude::*;

verus! {

/// The eight big-endian bytes of `n`.
#[verifier::opaque]
pub open spec fn be64(n: u64) -> Seq<u8> {
    seq![
        (n / 0x100_0000_0000_0000 % 256) as u8,
        (n / 0x1_0000_0000_0000 % 256) as u8,
        (n / 0x100_0000_0000 % 256) as u8,
        (n / 0x1_0000_0000 % 256) as u8,
        (n / 0x100_0000 % 256) as u8,
        (n / 0x1_0000 % 256) as u8,
        (n / 0x100 % 256) as u8,
        (n % 256) as u8,
    ]
}

/// The number whose eight big-endian bytes are `b`.
#[verifier::opaque]
pub open spec fn from_be64(b: Seq<u8>) -> int {
    0x100_0000_0000_0000 * b[0] + 0x1_0000_0000_0000 * b[1] + 0x100_0000_0000 * b[2]
        + 0x1_0000_0000 * b[3] + 0x100_0000 * b[4] + 0x1_0000 * b[5] + 0x100 * b[6] + b[7]
}

/// The eight bytes of a signed number, in two's complement.
pub open spec fn signed_be64(n: i64) -> Seq<u8> {
    be64((n as int % 0x1_0000_0000_0000_0000) as u64)
}

/// The signed number whose eight bytes, in two's complement, are `b`.
pub open spec fn from_signed_be64(b: Seq<u8>) -> i64 {
    crate::zset::wrap64(from_be64(b))
}

/// Numbers read back from their bytes.
pub proof fn law_bytes_read_back(n: u64, m: i64)
    ensures
        be64(n).len() == 8,
        from_be64(be64(n)) == n,
        from_signed_be64(signed_be64(m)) == m,
{
    lemma_be64(n);
    lemma_be64((m as int % 0x1_0000_0000_0000_0000) as u64);
}

proof fn lemma_be64(n: u64)
    ensures
        be64(n).len() == 8,
        from_be64(be64(n)) == n,
{
    reveal(be64);
    reveal(from_be64);
    let n1 = n / 0x100;
    let n2 = n1 / 0x100;
    let n3 = n2 / 0x100;
    let n4 = n3 / 0x100;
    let n5 = n4 / 0x100;
    let n6 = n5 / 0x100;
    let n7 = n6 / 0x100;
    assert(n2 == n / 0x1_0000);
    assert(n3 == n / 0x100_0000);
    assert(n4 == n / 0x1_0000_0000);
    assert(n5 == n / 0x100_0000_0000);
    assert(n6 == n / 0x1_0000_0000_0000);
    assert(n7 == n / 0x100_0000_0000_0000);
}

pub fn to_be64(n: u64) -> (b: [u8; 8])
    ensures
        b@ == be64(n),
{
    reveal(be64);
    let b = [
        (n / 0x100_0000_0000_0000 % 256) as u8,
        (n / 0x1_0000_0000_0000 % 256) as u8,
        (n / 0x100_0000_0000 % 256) as u8,
        (n / 0x1_0000_0000 % 256) as u8,
        (n / 0x100_0000 % 256) as u8,
        (n / 0x1_0000 % 256) as u8,
        (n / 0x100 % 256) as u8,
        (n % 256) as u8,
    ];
    assert(b@ =~= be64(n));
    b
}

pub fn read_be64(b: &[u8]) -> (n: u64)
    requires
        b@.len() == 8,
    ensures
        n == from_be64(b@),
{
    reveal(from_be64);
    0x100_0000_0000_0000 * (b[0] as u64) + 0x1_0000_0000_0000 * (b[1] as u64) + 0x100_0000_0000 * (
    b[2] as u64) + 0x1_0000_0000 * (b[3] as u64) + 0x100_0000 * (b[4] as u64) + 0x1_0000 * (
    b[5] as u64) + 0x100 * (b[6] as u64) + b[7] as u64
}

pub fn to_signed_be64(n: i64) -> (b: [u8; 8])
    ensures
        b@ == signed_be64(n),
{
    let u: u64 = if n >= 0 {
        n as u64
    } else {
        // -(n + 1) cannot overflow
        u64::MAX - (-(n + 1)) as u64
    };
    assert(u == n as int % 0x1_0000_0000_0000_0000);
    to_be64(u)
}

pub fn read_signed_be64(b: &[u8]) -> (n: i64)
    requires
        b@.len() == 8,
    ensures
        n == from_signed_be64(b@),
{
    let u: u64 = read_be64(b);
    if u <= i64::MAX as u64 {
        u as i64
    } else {
        -1 - (u64::MAX - u) as i64
    }
}

} // verus!
