//! Integers and byte strings on the wire: everything is read and written
//! low byte first and without padding.

use vstd::prelude::*;

verus! {

/// The two bytes of a 16-bit value, low byte first.
#[verifier::opaque]
pub open spec fn le16(v: u16) -> Seq<u8> {
    seq![(v % 256) as u8, (v / 256) as u8]
}

/// The four bytes of a 32-bit value, low byte first.
#[verifier::opaque]
pub open spec fn le32(v: u32) -> Seq<u8> {
    seq![
        (v % 256) as u8,
        (v / 256 % 256) as u8,
        (v / 65536 % 256) as u8,
        (v / 16777216) as u8,
    ]
}

/// The 16-bit value that two bytes stand for, low byte first.
pub open spec fn le16_value(bytes: Seq<u8>) -> u16 {
    (bytes[0] + 256 * bytes[1]) as u16
}

/// The 32-bit value that four bytes stand for, low byte first.
pub open spec fn le32_value(bytes: Seq<u8>) -> u32 {
    (bytes[0] + 256 * bytes[1] + 65536 * bytes[2] + 16777216 * bytes[3]) as u32
}

/// A number written as `q * d + r` with `0 <= r < d` has quotient `q` and
/// remainder `r` on division by `d`.
proof fn lemma_quotient(x: int, d: int, q: int, r: int)
    by (nonlinear_arith)
    requires
        d > 0,
        0 <= r < d,
        x == q * d + r,
    ensures
        x / d == q,
        x % d == r,
{
}

/// The two bytes of a 16-bit value stand for that value.
pub proof fn lemma_le16_value(v: u16)
    ensures
        le16(v).len() == 2,
        le16_value(le16(v)) == v,
{
    reveal(le16);
}

/// The four bytes of a 32-bit value stand for that value.
pub proof fn lemma_le32_value(v: u32)
    ensures
        le32(v).len() == 4,
        le32_value(le32(v)) == v,
{
    reveal(le32);
    let x = v as int;
    let q1 = x / 256;
    let q2 = q1 / 256;
    let q3 = q2 / 256;
    lemma_quotient(x, 65536, q2, x % 256 + 256 * (q1 % 256));
    lemma_quotient(x, 16777216, q3, x % 256 + 256 * (q1 % 256) + 65536 * (q2 % 256));
}

/// Two bytes are the bytes of the value that they stand for.
pub proof fn lemma_le16_bytes(b0: u8, b1: u8)
    ensures
        le16((b0 + 256 * b1) as u16) == seq![b0, b1],
{
    reveal(le16);
    let x = b0 + 256 * b1;
    lemma_quotient(x, 256, b1 as int, b0 as int);
    assert(le16(x as u16) =~= seq![b0, b1]);
}

/// Four bytes are the bytes of the value that they stand for.
pub proof fn lemma_le32_bytes(b0: u8, b1: u8, b2: u8, b3: u8)
    ensures
        le32((b0 + 256 * b1 + 65536 * b2 + 16777216 * b3) as u32) == seq![b0, b1, b2, b3],
{
    reveal(le32);
    let x = b0 + 256 * b1 + 65536 * b2 + 16777216 * b3;
    lemma_quotient(x, 256, b1 + 256 * b2 + 65536 * b3, b0 as int);
    lemma_quotient(b1 + 256 * b2 + 65536 * b3, 256, b2 + 256 * b3, b1 as int);
    lemma_quotient(x, 65536, b2 + 256 * b3, b0 + 256 * b1);
    lemma_quotient(b2 + 256 * b3, 256, b3 as int, b2 as int);
    lemma_quotient(x, 16777216, b3 as int, b0 + 256 * b1 + 65536 * b2);
    assert(le32(x as u32) =~= seq![b0, b1, b2, b3]);
}

/// Reads the 16-bit value at `at`.
pub fn read_u16(bytes: &[u8], at: usize) -> (v: u16)
    requires
        at + 2 <= bytes.len(),
    ensures
        le16(v) == bytes@.subrange(at as int, at + 2),
        v == le16_value(bytes@.subrange(at as int, at + 2)),
{
    let b0 = bytes[at];
    let b1 = bytes[at + 1];
    proof {
        lemma_le16_bytes(b0, b1);
        assert(seq![b0, b1] =~= bytes@.subrange(at as int, at + 2));
    }
    b0 as u16 + 256 * (b1 as u16)
}

/// Reads the 32-bit value at `at`.
pub fn read_u32(bytes: &[u8], at: usize) -> (v: u32)
    requires
        at + 4 <= bytes.len(),
    ensures
        le32(v) == bytes@.subrange(at as int, at + 4),
        v == le32_value(bytes@.subrange(at as int, at + 4)),
{
    let b0 = bytes[at];
    let b1 = bytes[at + 1];
    let b2 = bytes[at + 2];
    let b3 = bytes[at + 3];
    proof {
        lemma_le32_bytes(b0, b1, b2, b3);
        assert(seq![b0, b1, b2, b3] =~= bytes@.subrange(at as int, at + 4));
    }
    b0 as u32 + 256 * (b1 as u32) + 65536 * (b2 as u32) + 16777216 * (b3 as u32)
}

/// Reads the `N` bytes at `at`.
pub fn read_array<const N: usize>(bytes: &[u8], at: usize) -> (a: [u8; N])
    requires
        at + N <= bytes.len(),
    ensures
        a@ == bytes@.subrange(at as int, at + N),
{
    let mut a = [0u8; N];
    let mut i: usize = 0;
    while i < N
        invariant
            i <= N,
            at + N <= bytes.len(),
            forall|j: int| 0 <= j < i ==> a@[j] == bytes@[at + j],
        decreases N - i,
    {
        a[i] = bytes[at + i];
        i += 1;
    }
    assert(a@ =~= bytes@.subrange(at as int, at + N));
    a
}

/// Appends the two bytes of `v` to `buf`.
pub fn write_u16(buf: &mut Vec<u8>, v: u16)
    ensures
        final(buf)@ == old(buf)@ + le16(v),
{
    buf.push((v % 256) as u8);
    buf.push((v / 256) as u8);
    proof {
        reveal(le16);
    }
    assert(buf@ =~= old(buf)@ + le16(v));
}

/// Appends the four bytes of `v` to `buf`.
pub fn write_u32(buf: &mut Vec<u8>, v: u32)
    ensures
        final(buf)@ == old(buf)@ + le32(v),
{
    buf.push((v % 256) as u8);
    buf.push((v / 256 % 256) as u8);
    buf.push((v / 65536 % 256) as u8);
    buf.push((v / 16777216) as u8);
    proof {
        reveal(le32);
    }
    assert(buf@ =~= old(buf)@ + le32(v));
}

/// Appends `bytes` to `buf`.
pub fn write_bytes(buf: &mut Vec<u8>, bytes: &[u8])
    ensures
        final(buf)@ == old(buf)@ + bytes@,
{
    let mut i: usize = 0;
    while i < bytes.len()
        invariant
            i <= bytes.len(),
            buf@ == old(buf)@ + bytes@.take(i as int),
        decreases bytes.len() - i,
    {
        buf.push(bytes[i]);
        assert(bytes@.take(i + 1) =~= bytes@.take(i as int).push(bytes@[i as int]));
        i += 1;
    }
    assert(bytes@.take(bytes.len() as int) =~= bytes@);
}

/// Two stretches of `bytes` that meet at `mid` make up, joined, the stretch
/// from the start of the first to the end of the second.
pub proof fn lemma_join(bytes: Seq<u8>, from: int, mid: int, to: int)
    requires
        0 <= from <= mid <= to <= bytes.len(),
    ensures
        bytes.subrange(from, mid) + bytes.subrange(mid, to) == bytes.subrange(from, to),
{
    assert(bytes.subrange(from, mid) + bytes.subrange(mid, to) =~= bytes.subrange(from, to));
}

/// Appending two pieces one after the other is appending them joined.
pub proof fn lemma_append(before: Seq<u8>, first: Seq<u8>, second: Seq<u8>)
    ensures
        before + first + second == before + (first + second),
{
    assert(before + first + second =~= before + (first + second));
}

/// Two joined pairs that are equal, and whose second pieces are equally
/// long, are equal piece by piece.
pub proof fn lemma_joined_equal(x1: Seq<u8>, y1: Seq<u8>, x2: Seq<u8>, y2: Seq<u8>)
    requires
        x1 + y1 == x2 + y2,
        y1.len() == y2.len(),
    ensures
        x1 == x2,
        y1 == y2,
{
    let joined = x1 + y1;
    assert(joined.len() == x1.len() + y1.len());
    assert(joined.len() == x2.len() + y2.len());
    assert(x1 =~= joined.subrange(0, x1.len() as int));
    assert(x2 =~= joined.subrange(0, x2.len() as int));
    assert(y1 =~= joined.subrange(x1.len() as int, joined.len() as int));
    assert(y2 =~= joined.subrange(x2.len() as int, joined.len() as int));
}

/// Two 16-bit values with the same bytes are one value.
pub proof fn lemma_le16_equal(a: u16, b: u16)
    requires
        le16(a) == le16(b),
    ensures
        a == b,
{
    lemma_le16_value(a);
    lemma_le16_value(b);
}

/// Two 32-bit values with the same bytes are one value.
pub proof fn lemma_le32_equal(a: u32, b: u32)
    requires
        le32(a) == le32(b),
    ensures
        a == b,
{
    lemma_le32_value(a);
    lemma_le32_value(b);
}

} // verus!
