//! Reading and writing integers in byte order.

use vstd::prelude::*;

verus! {

/// The number whose big-endian digits in base 256 are `s`.
pub open spec fn be_value(s: Seq<u8>) -> nat
    decreases s.len(),
{
    if s.len() == 0 {
        0
    } else {
        be_value(s.drop_last()) * 256 + s.last() as nat
    }
}

/// The number whose little-endian digits in base 256 are the four bytes of
/// `s` that begin at `at`.
pub open spec fn le_value(s: Seq<u8>, at: int) -> int {
    s[at] + 256 * s[at + 1] + 65536 * s[at + 2] + 16777216 * s[at + 3]
}

/// The four little-endian digits of `v` in base 256.
pub open spec fn le_bytes(v: u32) -> Seq<u8> {
    seq![
        (v % 256) as u8,
        (v / 256 % 256) as u8,
        (v / 65536 % 256) as u8,
        (v / 16777216) as u8,
    ]
}

/// The two's complement pattern of `v`.
pub open spec fn pattern_of(v: i32) -> u32 {
    if v < 0 {
        (v + 0x1_0000_0000) as u32
    } else {
        v as u32
    }
}

/// The number whose two's complement pattern is `bits`.
pub open spec fn signed_of(bits: u32) -> i32 {
    if bits >= 0x8000_0000 {
        (bits - 0x1_0000_0000) as i32
    } else {
        bits as i32
    }
}

/// A two-digit big-endian value, written out.
pub proof fn be_value_two(s: Seq<u8>)
    requires
        s.len() == 2,
    ensures
        be_value(s) == s[0] * 256 + s[1],
{
    reveal_with_fuel(be_value, 3);
    assert(s.drop_last().drop_last().len() == 0);
}

/// The first two bytes of `b` as a big-endian number.
pub fn be_u16(b: &[u8]) -> (v: u16)
    requires
        b@.len() >= 2,
    ensures
        v == be_value(b@.take(2)),
        v == b@[0] * 256 + b@[1],
{
    proof {
        be_value_two(b@.take(2));
    }
    b[0] as u16 * 256 + b[1] as u16
}

/// The first four bytes of `b` as a big-endian number.
pub fn be_u32(b: &[u8]) -> (v: u32)
    requires
        b@.len() >= 4,
    ensures
        v == be_value(b@.take(4)),
{
    proof {
        reveal_with_fuel(be_value, 5);
        let s = b@.take(4);
        assert(s.drop_last().drop_last().drop_last().drop_last().len() == 0);
    }
    ((b[0] as u32 * 256 + b[1] as u32) * 256 + b[2] as u32) * 256 + b[3] as u32
}

/// The first six bytes of `b` as a big-endian number.
pub fn be_u48(b: &[u8]) -> (v: u64)
    requires
        b@.len() >= 6,
    ensures
        v == be_value(b@.take(6)),
        v < 0x1_0000_0000_0000,
{
    let mut v: u64 = 0;
    let mut i: usize = 0;
    let ghost mut bound: int = 1;
    while i < 6
        invariant
            i <= 6,
            b@.len() >= 6,
            v == be_value(b@.take(i as int)),
            v < bound,
            i == 0 ==> bound == 1,
            i == 1 ==> bound == 0x100,
            i == 2 ==> bound == 0x1_0000,
            i == 3 ==> bound == 0x100_0000,
            i == 4 ==> bound == 0x1_0000_0000,
            i == 5 ==> bound == 0x100_0000_0000,
            i == 6 ==> bound == 0x1_0000_0000_0000,
        decreases 6 - i,
    {
        assert(b@.take(i + 1).drop_last() =~= b@.take(i as int));
        v = v * 256 + b[i] as u64;
        i = i + 1;
        proof {
            bound = bound * 256;
        }
    }
    v
}

/// The four bytes of `b` from `at` on as a little-endian number.
pub fn read_le(b: &[u8], at: usize) -> (v: u32)
    requires
        at + 4 <= b@.len(),
    ensures
        v == le_value(b@, at as int),
{
    b[at] as u32 + 256 * (b[at + 1] as u32) + 65536 * (b[at + 2] as u32) + 16777216 * (
    b[at + 3] as u32)
}

/// Appends the four little-endian bytes of `v`.
pub fn push_le(buf: &mut Vec<u8>, v: u32)
    ensures
        final(buf)@ == old(buf)@ + le_bytes(v),
{
    buf.push((v % 256) as u8);
    buf.push((v / 256 % 256) as u8);
    buf.push((v / 65536 % 256) as u8);
    buf.push((v / 16777216) as u8);
    assert(buf@ =~= old(buf)@ + le_bytes(v));
}

/// The two's complement pattern of `v`.
pub fn to_pattern(v: i32) -> (bits: u32)
    ensures
        bits == pattern_of(v),
{
    if v < 0 {
        (v as i64 + 0x1_0000_0000) as u32
    } else {
        v as u32
    }
}

/// The number whose two's complement pattern is `bits`.
pub fn to_signed(bits: u32) -> (v: i32)
    ensures
        v == signed_of(bits),
{
    if bits >= 0x8000_0000 {
        (bits as i64 - 0x1_0000_0000) as i32
    } else {
        bits as i32
    }
}

/// Appends all of `part`.
pub fn push_all(buf: &mut Vec<u8>, part: &[u8])
    ensures
        final(buf)@ == old(buf)@ + part@,
{
    buf.extend_from_slice(part);
    assert(buf@ =~= old(buf)@ + part@);
}

/// Reading back four little-endian bytes gives the number that was written,
/// wherever in a longer sequence they stand.
pub proof fn le_bytes_read_back(v: u32, s: Seq<u8>, at: int)
    requires
        0 <= at,
        at + 4 <= s.len(),
        s.subrange(at, at + 4) == le_bytes(v),
    ensures
        le_value(s, at) == v,
{
    let t = s.subrange(at, at + 4);
    assert(s[at] == t[0] && s[at + 1] == t[1] && s[at + 2] == t[2] && s[at + 3] == t[3]);
}

/// Taking the two's complement pattern and reading it back changes nothing.
pub proof fn pattern_read_back(v: i32, bits: u32)
    ensures
        signed_of(pattern_of(v)) == v,
        pattern_of(signed_of(bits)) == bits,
{
}

/// The digits of a number in base 256, the least significant first.
pub proof fn le_bytes_are_digits(v: u32, s: Seq<u8>, at: int)
    requires
        0 <= at,
        at + 4 <= s.len(),
    ensures
        le_bytes(v).len() == 4,
        v == le_bytes(v)[0] + 0x100 * le_bytes(v)[1] + 0x1_0000 * le_bytes(v)[2] + 0x100_0000
            * le_bytes(v)[3],
        le_value(s, at) == s[at] + 0x100 * s[at + 1] + 0x1_0000 * s[at + 2] + 0x100_0000 * s[at
            + 3],
{
}

/// What stands in front counts for 256 times as much as what stands behind.
pub proof fn be_value_of_parts(s: Seq<u8>, last: u8)
    ensures
        be_value(Seq::empty()) == 0,
        be_value(s.push(last)) == 256 * be_value(s) + last,
{
    assert(s.push(last).drop_last() =~= s);
}

/// A pattern and its number differ by nothing or by two to the power of 32.
pub proof fn patterns_wrap_around(v: i32, bits: u32)
    ensures
        pattern_of(v) - v == 0 || pattern_of(v) - v == 0x1_0000_0000,
        bits - signed_of(bits) == 0 || bits - signed_of(bits) == 0x1_0000_0000,
{
}

} // verus!
