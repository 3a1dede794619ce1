//! Big-endian integer encoding.
//!
//! Every multi-byte integer on the wire is big-endian. The spec functions
//! here are what the wire-format contracts speak of; the lemmas show that
//! reading back what was written gives the original value.

use vstd::prelude::*;

verus! {

/// The two big-endian bytes of `v`.
pub open spec fn be16(v: u16) -> Seq<u8> {
    seq![(v >> 8u16) as u8, v as u8]
}

/// The four big-endian bytes of `v`.
pub open spec fn be32(v: u32) -> Seq<u8> {
    seq![(v >> 24u32) as u8, (v >> 16u32) as u8, (v >> 8u32) as u8, v as u8]
}

/// The value of two big-endian bytes.
pub open spec fn from_be16(a: u8, b: u8) -> u16 {
    ((a as u16) << 8u16) | (b as u16)
}

/// The value of four big-endian bytes.
pub open spec fn from_be32(a: u8, b: u8, c: u8, d: u8) -> u32 {
    ((a as u32) << 24u32) | ((b as u32) << 16u32) | ((c as u32) << 8u32) | (d as u32)
}

/// The value of the two big-endian bytes of `s` starting at `at`.
pub open spec fn read_be16(s: Seq<u8>, at: int) -> u16 {
    from_be16(s[at], s[at + 1])
}

/// The value of the four big-endian bytes of `s` starting at `at`.
pub open spec fn read_be32(s: Seq<u8>, at: int) -> u32 {
    from_be32(s[at], s[at + 1], s[at + 2], s[at + 3])
}

/// Reading back two written bytes gives the value.
pub proof fn lemma_be16_roundtrip(v: u16)
    ensures
        from_be16(be16(v)[0], be16(v)[1]) == v,
{
    let a = (v >> 8u16) as u8;
    let b = v as u8;
    assert(((((v >> 8u16) as u8) as u16) << 8u16) | ((v as u8) as u16) == v) by (bit_vector);
}

/// Reading back four written bytes gives the value.
pub proof fn lemma_be32_roundtrip(v: u32)
    ensures
        from_be32(be32(v)[0], be32(v)[1], be32(v)[2], be32(v)[3]) == v,
{
    assert(((((v >> 24u32) as u8) as u32) << 24u32) | ((((v >> 16u32) as u8) as u32) << 16u32)
        | ((((v >> 8u32) as u8) as u32) << 8u32) | ((v as u8) as u32) == v) by (bit_vector);
}

/// Writing back two read bytes gives the bytes.
pub proof fn lemma_from_be16_bytes(a: u8, b: u8)
    ensures
        be16(from_be16(a, b)) == seq![a, b],
{
    assert(((((a as u16) << 8u16) | (b as u16)) >> 8u16) as u8 == a) by (bit_vector);
    assert((((a as u16) << 8u16) | (b as u16)) as u8 == b) by (bit_vector);
    assert(be16(from_be16(a, b)) =~= seq![a, b]);
}

/// Writing back four read bytes gives the bytes.
pub proof fn lemma_from_be32_bytes(a: u8, b: u8, c: u8, d: u8)
    ensures
        be32(from_be32(a, b, c, d)) == seq![a, b, c, d],
{
    let v = from_be32(a, b, c, d);
    assert((((((a as u32) << 24u32) | ((b as u32) << 16u32) | ((c as u32) << 8u32) | (d as u32))
        >> 24u32) as u8) == a) by (bit_vector);
    assert((((((a as u32) << 24u32) | ((b as u32) << 16u32) | ((c as u32) << 8u32) | (d as u32))
        >> 16u32) as u8) == b) by (bit_vector);
    assert((((((a as u32) << 24u32) | ((b as u32) << 16u32) | ((c as u32) << 8u32) | (d as u32))
        >> 8u32) as u8) == c) by (bit_vector);
    assert(((((a as u32) << 24u32) | ((b as u32) << 16u32) | ((c as u32) << 8u32) | (d as u32))
        as u8) == d) by (bit_vector);
    assert(be32(v) =~= seq![a, b, c, d]);
}

/// Big-endian bytes of a `u16`.
pub fn u16_to_be(v: u16) -> (out: [u8; 2])
    ensures
        out@ == be16(v),
{
    let out = [(v >> 8u16) as u8, v as u8];
    assert(out@ =~= be16(v));
    out
}

/// Big-endian bytes of a `u32`.
pub fn u32_to_be(v: u32) -> (out: [u8; 4])
    ensures
        out@ == be32(v),
{
    let out = [(v >> 24u32) as u8, (v >> 16u32) as u8, (v >> 8u32) as u8, v as u8];
    assert(out@ =~= be32(v));
    out
}

/// A `u16` from two big-endian bytes.
pub fn u16_from_be(a: u8, b: u8) -> (out: u16)
    ensures
        out == from_be16(a, b),
{
    ((a as u16) << 8u16) | (b as u16)
}

/// A `u32` from four big-endian bytes.
pub fn u32_from_be(a: u8, b: u8, c: u8, d: u8) -> (out: u32)
    ensures
        out == from_be32(a, b, c, d),
{
    ((a as u32) << 24u32) | ((b as u32) << 16u32) | ((c as u32) << 8u32) | (d as u32)
}

/// Append the bytes of `src` to `out`.
pub fn push_all(out: &mut Vec<u8>, src: &[u8])
    ensures
        final(out)@ == old(out)@ + src@,
{
    let ghost start = out@;
    let mut i: usize = 0;
    while i < src.len()
        invariant
            i <= src@.len(),
            out@ == start + src@.subrange(0, i as int),
        decreases src@.len() - i,
    {
        out.push(src[i]);
        i = i + 1;
        assert(out@ =~= start + src@.subrange(0, i as int));
    }
    assert(src@.subrange(0, src@.len() as int) =~= src@);
}

/// A fresh vector holding the bytes of `src`.
pub fn to_vec(src: &[u8]) -> (out: Vec<u8>)
    ensures
        out@ == src@,
{
    let mut out: Vec<u8> = Vec::new();
    push_all(&mut out, src);
    assert(out@ =~= src@);
    out
}

/// Whether two 8-byte identifiers are equal.
pub fn eq8(a: &[u8; 8], b: &[u8; 8]) -> (eq: bool)
    ensures
        eq == (*a == *b),
{
    let mut i: usize = 0;
    while i < 8
        invariant
            i <= 8,
            forall|j: int| 0 <= j < i ==> a@[j] == b@[j],
        decreases 8 - i,
    {
        if a[i] != b[i] {
            return false;
        }
        i = i + 1;
    }
    proof {
        broadcast use vstd::array::group_array_axioms;
        assert(*a =~= *b);
    }
    true
}

} // verus!
