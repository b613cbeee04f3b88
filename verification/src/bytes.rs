//! Fixed-width integers as bytes, and comparison of byte slices.

use vstd::prelude::*;

verus! {

/// The four bytes of `x`, least significant first.
pub open spec fn le32(x: u32) -> Seq<u8> {
    seq![
        (x % 256) as u8,
        (x / 256 % 256) as u8,
        (x / 65536 % 256) as u8,
        (x / 16777216) as u8,
    ]
}

/// The number whose four bytes, least significant first, are `b`.
pub open spec fn le32_value(b: Seq<u8>) -> u32
    recommends
        b.len() == 4,
{
    (b[0] + 256 * b[1] + 65536 * b[2] + 16777216 * b[3]) as u32
}

/// The eight bytes of `x`, most significant first.
pub open spec fn be64(x: u64) -> Seq<u8> {
    seq![
        (x / 0x100_0000_0000_0000) as u8,
        (x / 0x1_0000_0000_0000 % 256) as u8,
        (x / 0x100_0000_0000 % 256) as u8,
        (x / 0x1_0000_0000 % 256) as u8,
        (x / 0x100_0000 % 256) as u8,
        (x / 0x1_0000 % 256) as u8,
        (x / 0x100 % 256) as u8,
        (x % 256) as u8,
    ]
}

/// Reading the four bytes of a number gives the number back.
pub proof fn law_le32_roundtrip(x: u32)
    ensures
        le32_value(le32(x)) == x,
{
}

/// The bytes of the number that four bytes stand for are these bytes.
pub proof fn law_le32_of_value(b: Seq<u8>)
    requires
        b.len() == 4,
    ensures
        le32(le32_value(b)) == b,
{
    let x = le32_value(b);
    let b0 = b[0] as u32;
    let b1 = b[1] as u32;
    let b2 = b[2] as u32;
    let b3 = b[3] as u32;
    assert(x == b0 + 256 * b1 + 65536 * b2 + 16777216 * b3);
    assert(x % 256 == b0 && x / 256 % 256 == b1 && x / 65536 % 256 == b2 && x / 16777216 == b3)
        by (bit_vector)
        requires
            x == b0 + 256 * b1 + 65536 * b2 + 16777216 * b3,
            b0 < 256,
            b1 < 256,
            b2 < 256,
            b3 < 256,
    ;
    assert(le32(x) =~= b);
}

/// Two numbers with the same eight bytes are the same number.
pub proof fn law_be64_injective(x: u64, y: u64)
    requires
        be64(x) == be64(y),
    ensures
        x == y,
{
    let p = be64(x);
    let q = be64(y);
    assert(p[0] == q[0] && p[1] == q[1] && p[2] == q[2] && p[3] == q[3]);
    assert(p[4] == q[4] && p[5] == q[5] && p[6] == q[6] && p[7] == q[7]);
    assert(x == y) by (bit_vector)
        requires
            x / 0x100_0000_0000_0000 == y / 0x100_0000_0000_0000,
            x / 0x1_0000_0000_0000 % 256 == y / 0x1_0000_0000_0000 % 256,
            x / 0x100_0000_0000 % 256 == y / 0x100_0000_0000 % 256,
            x / 0x1_0000_0000 % 256 == y / 0x1_0000_0000 % 256,
            x / 0x100_0000 % 256 == y / 0x100_0000 % 256,
            x / 0x1_0000 % 256 == y / 0x1_0000 % 256,
            x / 0x100 % 256 == y / 0x100 % 256,
            x % 256 == y % 256,
    ;
}

/// The four bytes of `x`, least significant first.
pub fn u32_to_le(x: u32) -> (b: [u8; 4])
    ensures
        b@ == le32(x),
{
    let b: [u8; 4] = [
        (x % 256) as u8,
        (x / 256 % 256) as u8,
        (x / 65536 % 256) as u8,
        (x / 16777216) as u8,
    ];
    assert(b@ =~= le32(x));
    b
}

/// The number whose four bytes, least significant first, are `b`.
pub fn u32_from_le(b: &[u8]) -> (x: u32)
    requires
        b@.len() == 4,
    ensures
        x == le32_value(b@),
{
    let b0: u32 = b[0] as u32;
    let b1: u32 = b[1] as u32;
    let b2: u32 = b[2] as u32;
    let b3: u32 = b[3] as u32;
    b0 + 256 * b1 + 65536 * b2 + 16777216 * b3
}

/// The eight bytes of `x`, most significant first.
pub fn u64_to_be(x: u64) -> (b: [u8; 8])
    ensures
        b@ == be64(x),
{
    let b: [u8; 8] = [
        (x / 0x100_0000_0000_0000) as u8,
        (x / 0x1_0000_0000_0000 % 256) as u8,
        (x / 0x100_0000_0000 % 256) as u8,
        (x / 0x1_0000_0000 % 256) as u8,
        (x / 0x100_0000 % 256) as u8,
        (x / 0x1_0000 % 256) as u8,
        (x / 0x100 % 256) as u8,
        (x % 256) as u8,
    ];
    assert(b@ =~= be64(x));
    b
}

/// Whether two slices hold the same bytes.
pub fn same_bytes(a: &[u8], b: &[u8]) -> (same: bool)
    ensures
        same == (a@ == b@),
{
    if a.len() != b.len() {
        return false;
    }
    let mut i: usize = 0;
    while i < a.len()
        invariant
            i <= a@.len(),
            a@.len() == b@.len(),
            forall|j: int| 0 <= j < i ==> a@[j] == b@[j],
        decreases a@.len() - i,
    {
        if a[i] != b[i] {
            return false;
        }
        i = i + 1;
    }
    assert(a@ =~= b@);
    true
}

/// Puts the bytes of `more` behind those of `buffer`.
pub fn append(buffer: &mut Vec<u8>, more: &[u8])
    ensures
        final(buffer)@ == old(buffer)@ + more@,
{
    buffer.extend_from_slice(more);
    assert(buffer@ =~= old(buffer)@ + more@);
}

/// Another copy of `bytes`.
pub fn copied(bytes: &[u8]) -> (copy: Vec<u8>)
    ensures
        copy@ == bytes@,
{
    let mut copy: Vec<u8> = Vec::new();
    append(&mut copy, bytes);
    assert(copy@ =~= bytes@);
    copy
}

/// The four bytes of a number are its digits to the base 256, the last one first.
pub proof fn law_le32_is_little_endian(x: u32)
    ensures
        le32(x).len() == 4,
        x == le32(x)[0] + le32(x)[1] * 0x100 + le32(x)[2] * 0x1_0000 + le32(x)[3] * 0x100_0000,
{
}

/// The number behind four bytes is the one that has them as its digits to the base
/// 256, the last one first.
pub proof fn law_le32_value_is_little_endian(b: Seq<u8>)
    requires
        b.len() == 4,
    ensures
        le32_value(b) == b[0] + b[1] * 0x100 + b[2] * 0x1_0000 + b[3] * 0x100_0000,
{
}

/// The eight bytes of a number are its digits to the base 256, the first one first.
pub proof fn law_be64_is_big_endian(x: u64)
    ensures
        be64(x).len() == 8,
        x == be64(x)[7] + be64(x)[6] * 0x100 + be64(x)[5] * 0x1_0000 + be64(x)[4] * 0x100_0000
            + be64(x)[3] * 0x1_0000_0000 + be64(x)[2] * 0x100_0000_0000 + be64(x)[1]
            * 0x1_0000_0000_0000 + be64(x)[0] * 0x100_0000_0000_0000,
{
    assert(x == x % 256 + (x / 0x100 % 256) * 0x100 + (x / 0x1_0000 % 256) * 0x1_0000 + (x
        / 0x100_0000 % 256) * 0x100_0000 + (x / 0x1_0000_0000 % 256) * 0x1_0000_0000 + (x
        / 0x100_0000_0000 % 256) * 0x100_0000_0000 + (x / 0x1_0000_0000_0000 % 256)
        * 0x1_0000_0000_0000 + (x / 0x100_0000_0000_0000) * 0x100_0000_0000_0000 && x
        / 0x100_0000_0000_0000 < 256) by (bit_vector);
}

} // verus!
