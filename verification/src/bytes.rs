//! Byte strings: numbers laid out most significant byte first, and the few
//! ways a buffer is grown, cut and copied.

use vstd::prelude::*;
use vstd::slice::slice_subrange;

verus! {

/// The sixteen bit number at `at`, most significant byte first.
pub open spec fn be16(s: Seq<u8>, at: int) -> int {
    s[at] * 0x100 + s[at + 1]
}

/// The thirty-two bit number at `at`, most significant byte first.
pub open spec fn be32(s: Seq<u8>, at: int) -> int {
    s[at] * 0x100_0000 + s[at + 1] * 0x1_0000 + s[at + 2] * 0x100 + s[at + 3]
}

/// `value`, modulo 65536, as two bytes, most significant first.
pub open spec fn be16_bytes(value: int) -> Seq<u8> {
    seq![(value / 0x100 % 0x100) as u8, (value % 0x100) as u8]
}

/// `value`, modulo 2^32, as four bytes, most significant first.
pub open spec fn be32_bytes(value: int) -> Seq<u8> {
    seq![
        (value / 0x100_0000 % 0x100) as u8,
        (value / 0x1_0000 % 0x100) as u8,
        (value / 0x100 % 0x100) as u8,
        (value % 0x100) as u8,
    ]
}

/// A number written as two bytes is read back as itself.
pub proof fn be16_round_trip(value: int)
    requires
        0 <= value < 0x1_0000,
    ensures
        be16(be16_bytes(value), 0) == value,
{
}

/// A number written as four bytes is read back as itself.
pub proof fn be32_round_trip(value: int)
    requires
        0 <= value < 0x1_0000_0000,
    ensures
        be32(be32_bytes(value), 0) == value,
{
}

/// Four bytes spell a number whose bytes are those four.
pub proof fn be32_digits(a: u8, b: u8, c: u8, d: u8)
    ensures
        be32_bytes(a * 0x100_0000 + b * 0x1_0000 + c * 0x100 + d) == seq![a, b, c, d],
{
    let v = a * 0x100_0000 + b * 0x1_0000 + c * 0x100 + d;
    assert(v / 0x100_0000 == a);
    assert(v / 0x1_0000 == a * 0x100 + b);
    assert(v / 0x100 == a * 0x1_0000 + b * 0x100 + c);
    assert(v % 0x100 == d);
    assert(be32_bytes(v) =~= seq![a, b, c, d]);
}

/// A number written somewhere in a byte string is read back from there.
pub proof fn be16_at(s: Seq<u8>, at: int, value: int)
    requires
        0 <= at,
        at + 2 <= s.len(),
        0 <= value < 0x1_0000,
        s.subrange(at, at + 2) == be16_bytes(value),
    ensures
        be16(s, at) == value,
{
    be16_round_trip(value);
    assert(s[at] == s.subrange(at, at + 2)[0]);
    assert(s[at + 1] == s.subrange(at, at + 2)[1]);
}

/// A number written somewhere in a byte string is read back from there.
pub proof fn be32_at(s: Seq<u8>, at: int, value: int)
    requires
        0 <= at,
        at + 4 <= s.len(),
        0 <= value < 0x1_0000_0000,
        s.subrange(at, at + 4) == be32_bytes(value),
    ensures
        be32(s, at) == value,
{
    be32_round_trip(value);
    assert(s[at] == s.subrange(at, at + 4)[0]);
    assert(s[at + 1] == s.subrange(at, at + 4)[1]);
    assert(s[at + 2] == s.subrange(at, at + 4)[2]);
    assert(s[at + 3] == s.subrange(at, at + 4)[3]);
}

pub fn read_be16(bytes: &[u8], at: usize) -> (value: u16)
    requires
        at + 1 < bytes@.len(),
    ensures
        value == be16(bytes@, at as int),
{
    bytes[at] as u16 * 0x100 + bytes[at + 1] as u16
}

pub fn read_be32(bytes: &[u8], at: usize) -> (value: u32)
    requires
        at + 3 < bytes@.len(),
    ensures
        value == be32(bytes@, at as int),
{
    bytes[at] as u32 * 0x100_0000 + bytes[at + 1] as u32 * 0x1_0000 + bytes[at + 2] as u32 * 0x100
        + bytes[at + 3] as u32
}

pub fn push_be16(out: &mut Vec<u8>, value: u16)
    ensures
        final(out)@ == old(out)@ + be16_bytes(value as int),
{
    out.push((value / 0x100) as u8);
    out.push((value % 0x100) as u8);
    assert(out@ =~= old(out)@ + be16_bytes(value as int));
}

pub fn push_be32(out: &mut Vec<u8>, value: u32)
    ensures
        final(out)@ == old(out)@ + be32_bytes(value as int),
{
    out.push((value / 0x100_0000) as u8);
    out.push((value / 0x1_0000 % 0x100) as u8);
    out.push((value / 0x100 % 0x100) as u8);
    out.push((value % 0x100) as u8);
    assert(out@ =~= old(out)@ + be32_bytes(value as int));
}

/// Append a byte string.
pub fn extend(out: &mut Vec<u8>, bytes: &[u8])
    ensures
        final(out)@ == old(out)@ + bytes@,
{
    out.extend_from_slice(bytes);
    assert(out@ =~= old(out)@ + bytes@);
}

/// The bytes from `from` up to `to`, in a buffer of their own.
pub fn copy_range(bytes: &[u8], from: usize, to: usize) -> (copy: Vec<u8>)
    requires
        from <= to <= bytes@.len(),
    ensures
        copy@ == bytes@.subrange(from as int, to as int),
{
    let mut copy: Vec<u8> = Vec::new();
    extend(&mut copy, slice_subrange(bytes, from, to));
    assert(copy@ =~= bytes@.subrange(from as int, to as int));
    copy
}

/// The whole of `bytes`, in a buffer of its own.
pub fn copy_of(bytes: &[u8]) -> (copy: Vec<u8>)
    ensures
        copy@ == bytes@,
{
    let mut copy: Vec<u8> = Vec::new();
    extend(&mut copy, bytes);
    assert(copy@ =~= bytes@);
    copy
}

/// Throw the first `count` bytes away.
pub fn drop_front(bytes: &mut Vec<u8>, count: usize)
    requires
        count <= old(bytes)@.len(),
    ensures
        final(bytes)@ == old(bytes)@.skip(count as int),
{
    let rest = bytes.split_off(count);
    *bytes = rest;
    assert(bytes@ =~= old(bytes)@.skip(count as int));
}

/// Write `value` over the two bytes at `at`.
pub fn put_be16(out: &mut Vec<u8>, at: usize, value: u16)
    requires
        at + 1 < old(out)@.len(),
    ensures
        final(out)@ == put16(old(out)@, at as int, value as int),
{
    assert(at + 1 < out.len());
    out.set(at, (value / 0x100) as u8);
    out.set(at + 1, (value % 0x100) as u8);
}

/// `s` with the two bytes at `at` replaced by `value`.
pub open spec fn put16(s: Seq<u8>, at: int, value: int) -> Seq<u8> {
    s.update(at, (value / 0x100 % 0x100) as u8).update(at + 1, (value % 0x100) as u8)
}

/// Whether two byte strings are the same.
pub fn same_bytes(a: &[u8], b: &[u8]) -> (same: bool)
    ensures
        same == (a@ == b@),
{
    if a.len() != b.len() {
        return false;
    }
    let mut i: usize = 0;
    while i < a.len()
        invariant
            a@.len() == b@.len(),
            i <= a@.len(),
            a@.take(i as int) == b@.take(i as int),
        decreases a@.len() - i,
    {
        if a[i] != b[i] {
            return false;
        }
        i += 1;
        assert(a@.take(i as int) =~= a@.take(i - 1).push(a@[i - 1]));
        assert(b@.take(i as int) =~= b@.take(i - 1).push(b@[i - 1]));
    }
    assert(a@.take(i as int) =~= a@);
    assert(b@.take(i as int) =~= b@);
    true
}

} // verus!
