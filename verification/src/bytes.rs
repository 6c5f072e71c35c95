//! Bytes: little-endian integers, comparison and concatenation.

use vstd::prelude::*;

verus! {

/// The four little-endian bytes of a 32-bit number.
pub open spec fn le32(x: u32) -> Seq<u8> {
    seq![
        (x % 256) as u8,
        (x / 256 % 256) as u8,
        (x / 65536 % 256) as u8,
        (x / 16777216) as u8,
    ]
}

/// The 32-bit number that four little-endian bytes write.
pub open spec fn from_le32(s: Seq<u8>) -> u32 {
    (s[0] + s[1] * 256 + s[2] * 65536 + s[3] * 16777216) as u32
}

/// The eight little-endian bytes of a 64-bit number.
pub open spec fn le64(x: u64) -> Seq<u8> {
    le32((x % 0x1_0000_0000) as u32) + le32((x / 0x1_0000_0000) as u32)
}

/// The 64-bit number that eight little-endian bytes write.
pub open spec fn from_le64(s: Seq<u8>) -> u64 {
    (from_le32(s.take(4)) + from_le32(s.skip(4)) * 0x1_0000_0000) as u64
}

/// Reading the bytes of a 32-bit number gives the number back.
pub proof fn lemma_le32(x: u32)
    ensures
        from_le32(le32(x)) == x,
        le32(x).len() == 4,
{
}

/// Reading the bytes of a 64-bit number gives the number back.
pub proof fn lemma_le64(x: u64)
    ensures
        from_le64(le64(x)) == x,
        le64(x).len() == 8,
{
    let low = (x % 0x1_0000_0000) as u32;
    let high = (x / 0x1_0000_0000) as u32;
    lemma_le32(low);
    lemma_le32(high);
    assert(le64(x).take(4) =~= le32(low));
    assert(le64(x).skip(4) =~= le32(high));
}

/// Four bytes are the little-endian bytes of the number that they write.
pub proof fn lemma_from_le32(s: Seq<u8>)
    requires
        s.len() == 4,
    ensures
        le32(from_le32(s)) == s,
{
    let (a, b, c, d) = (s[0] as int, s[1] as int, s[2] as int, s[3] as int);
    let x = from_le32(s);
    assert(x == a + b * 256 + c * 65536 + d * 16777216);
    assert(x / 256 == b + c * 256 + d * 65536);
    assert(x / 65536 == c + d * 256);
    assert(x / 16777216 == d);
    assert(x % 256 == a);
    assert(x / 256 % 256 == b);
    assert(x / 65536 % 256 == c);
    assert(le32(x) =~= s);
}

/// Eight bytes are the little-endian bytes of the number that they write.
pub proof fn lemma_from_le64(s: Seq<u8>)
    requires
        s.len() == 8,
    ensures
        le64(from_le64(s)) == s,
{
    let low = from_le32(s.take(4));
    let high = from_le32(s.skip(4));
    lemma_from_le32(s.take(4));
    lemma_from_le32(s.skip(4));
    let x = from_le64(s);
    assert(x == low + high * 0x1_0000_0000);
    vstd::arithmetic::div_mod::lemma_fundamental_div_mod_converse(
        x as int,
        0x1_0000_0000,
        high as int,
        low as int,
    );
    assert(s =~= s.take(4) + s.skip(4));
}

/// Appends a slice.
pub fn append(out: &mut Vec<u8>, s: &[u8])
    ensures
        final(out)@ == old(out)@ + s@,
{
    out.extend_from_slice(s);
    assert(out@ =~= old(out)@ + s@);
}

/// A vector with the bytes `from..to` of a slice.
pub fn part(s: &[u8], from: usize, to: usize) -> (r: Vec<u8>)
    requires
        from <= to <= s@.len(),
    ensures
        r@ == s@.subrange(from as int, to as int),
{
    vstd::slice::slice_to_vec(vstd::slice::slice_subrange(s, from, to))
}

/// Appends the little-endian bytes of a 32-bit number.
pub fn append_le32(out: &mut Vec<u8>, x: u32)
    ensures
        final(out)@ == old(out)@ + le32(x),
{
    out.push((x % 256) as u8);
    out.push((x / 256 % 256) as u8);
    out.push((x / 65536 % 256) as u8);
    out.push((x / 16777216) as u8);
    assert(out@ =~= old(out)@ + le32(x));
}

/// Appends the little-endian bytes of a 64-bit number.
pub fn append_le64(out: &mut Vec<u8>, x: u64)
    ensures
        final(out)@ == old(out)@ + le64(x),
{
    append_le32(out, (x % 0x1_0000_0000) as u32);
    append_le32(out, (x / 0x1_0000_0000) as u32);
    assert(out@ =~= old(out)@ + le64(x));
}

/// Reads a little-endian 32-bit number.
pub fn read_le32(s: &[u8], at: usize) -> (r: u32)
    requires
        at + 4 <= s@.len(),
    ensures
        r == from_le32(s@.subrange(at as int, at + 4)),
{
    proof {
        let q = s@.subrange(at as int, at + 4);
        assert(q[0] == s@[at as int] && q[1] == s@[at + 1] && q[2] == s@[at + 2] && q[3] == s@[at
            + 3]);
    }
    (s[at] as u32) + (s[at + 1] as u32) * 256 + (s[at + 2] as u32) * 65536 + (s[at + 3] as u32)
        * 16777216
}

/// Reads a little-endian 64-bit number.
pub fn read_le64(s: &[u8], at: usize) -> (r: u64)
    requires
        at + 8 <= s@.len(),
    ensures
        r == from_le64(s@.subrange(at as int, at + 8)),
{
    proof {
        let q = s@.subrange(at as int, at + 8);
        assert(q.take(4) =~= s@.subrange(at as int, at + 4));
        assert(q.skip(4) =~= s@.subrange(at + 4, at + 8));
    }
    assert(at + 8 <= s.len());
    let low: u64 = read_le32(s, at) as u64;
    let high: u64 = read_le32(s, at + 4) as u64;
    low + high * 0x1_0000_0000
}

/// Whether two byte strings are the same.
pub fn same_bytes(a: &[u8], b: &[u8]) -> (r: bool)
    ensures
        r == (a@ == b@),
{
    if a.len() != b.len() {
        return false;
    }
    for i in 0..a.len()
        invariant
            a@.len() == b@.len(),
            forall|j: int| 0 <= j < i ==> a@[j] == b@[j],
    {
        if a[i] != b[i] {
            return false;
        }
    }
    assert(a@ =~= b@);
    true
}

/// A number is laid out from its lowest byte to its highest.
pub proof fn law_the_lowest_byte_comes_first(x: u32, y: u64)
    ensures
        le32(x).len() == 4,
        x == le32(x)[0] + 256 * le32(x)[1] + 65536 * le32(x)[2] + 16777216 * le32(x)[3],
        le64(y).len() == 8,
        y == le64(y)[0] + 0x100 * le64(y)[1] + 0x1_0000 * le64(y)[2] + 0x100_0000 * le64(y)[3]
            + 0x1_0000_0000 * le64(y)[4] + 0x100_0000_0000 * le64(y)[5] + 0x1_0000_0000_0000
            * le64(y)[6] + 0x100_0000_0000_0000 * le64(y)[7],
{
    let low = (y % 0x1_0000_0000) as u32;
    let high = (y / 0x1_0000_0000) as u32;
    assert(low == le32(low)[0] + 256 * le32(low)[1] + 65536 * le32(low)[2] + 16777216 * le32(
        low,
    )[3]);
    assert(high == le32(high)[0] + 256 * le32(high)[1] + 65536 * le32(high)[2] + 16777216 * le32(
        high,
    )[3]);
    assert(y == low + 0x1_0000_0000 * high);
}

} // verus!
