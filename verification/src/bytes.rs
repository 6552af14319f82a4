//! Big-endian encoding of 64-bit identifiers, as used on the wire.
use vstd::prelude::*;

verus! {

/// The eight bytes of `x`, most significant first.
pub open spec fn be_bytes(x: u64) -> Seq<u8> {
    seq![
        (x >> 56u64) as u8,
        (x >> 48u64) as u8,
        (x >> 40u64) as u8,
        (x >> 32u64) as u8,
        (x >> 24u64) as u8,
        (x >> 16u64) as u8,
        (x >> 8u64) as u8,
        x as u8,
    ]
}

/// The integer whose big-endian encoding is the first eight bytes of `s`.
pub open spec fn from_be(s: Seq<u8>) -> u64
    recommends
        s.len() >= 8,
{
    (s[0] as u64) << 56u64 | (s[1] as u64) << 48u64 | (s[2] as u64) << 40u64 | (s[3] as u64)
        << 32u64 | (s[4] as u64) << 24u64 | (s[5] as u64) << 16u64 | (s[6] as u64) << 8u64
        | (s[7] as u64)
}

/// Decoding an encoded identifier gives it back.
pub proof fn lemma_from_be_bytes(x: u64)
    ensures
        from_be(be_bytes(x)) == x,
        be_bytes(x).len() == 8,
{
    let b0: u8 = (x >> 56u64) as u8;
    let b1: u8 = (x >> 48u64) as u8;
    let b2: u8 = (x >> 40u64) as u8;
    let b3: u8 = (x >> 32u64) as u8;
    let b4: u8 = (x >> 24u64) as u8;
    let b5: u8 = (x >> 16u64) as u8;
    let b6: u8 = (x >> 8u64) as u8;
    let b7: u8 = x as u8;
    assert(((b0 as u64) << 56u64 | (b1 as u64) << 48u64 | (b2 as u64) << 40u64 | (b3 as u64)
        << 32u64 | (b4 as u64) << 24u64 | (b5 as u64) << 16u64 | (b6 as u64) << 8u64 | (b7 as u64))
        == x) by (bit_vector)
        requires
            b0 == (x >> 56u64) as u8,
            b1 == (x >> 48u64) as u8,
            b2 == (x >> 40u64) as u8,
            b3 == (x >> 32u64) as u8,
            b4 == (x >> 24u64) as u8,
            b5 == (x >> 16u64) as u8,
            b6 == (x >> 8u64) as u8,
            b7 == x as u8,
    ;
}

/// Two identifiers with the same encoding are equal.
pub proof fn lemma_be_bytes_injective(x: u64, y: u64)
    requires
        be_bytes(x) == be_bytes(y),
    ensures
        x == y,
{
    lemma_from_be_bytes(x);
    lemma_from_be_bytes(y);
}

/// Encodes `x` in eight big-endian bytes.
pub fn u64_to_be(x: u64) -> (res: Vec<u8>)
    ensures
        res@ == be_bytes(x),
{
    let mut v: Vec<u8> = Vec::with_capacity(8);
    v.push((x >> 56u64) as u8);
    v.push((x >> 48u64) as u8);
    v.push((x >> 40u64) as u8);
    v.push((x >> 32u64) as u8);
    v.push((x >> 24u64) as u8);
    v.push((x >> 16u64) as u8);
    v.push((x >> 8u64) as u8);
    v.push(x as u8);
    assert(v@ =~= be_bytes(x));
    v
}

/// Reads the identifier encoded in the first eight bytes of `s`.
pub fn u64_from_be(s: &[u8]) -> (res: u64)
    requires
        s@.len() >= 8,
    ensures
        res == from_be(s@),
{
    (s[0] as u64) << 56u64 | (s[1] as u64) << 48u64 | (s[2] as u64) << 40u64 | (s[3] as u64)
        << 32u64 | (s[4] as u64) << 24u64 | (s[5] as u64) << 16u64 | (s[6] as u64) << 8u64
        | (s[7] as u64)
}

} // verus!
