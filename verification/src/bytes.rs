//! Little-endian integers inside byte buffers.
//!
//! The values are stated arithmetically, byte by byte, so that what a buffer
//! holds at an offset is a plain sum and what an integer is written as is a
//! plain sequence of quotients and remainders.
use vstd::prelude::*;

verus! {

/// The 16-bit value that `s` holds at `at`.
pub open spec fn le_u16(s: Seq<u8>, at: int) -> int {
    s[at] as int + 0x100 * (s[at + 1] as int)
}

/// The 32-bit value that `s` holds at `at`.
pub open spec fn le_u32(s: Seq<u8>, at: int) -> int {
    le_u16(s, at) + 0x1_0000 * le_u16(s, at + 2)
}

/// The 64-bit value that `s` holds at `at`.
pub open spec fn le_u64(s: Seq<u8>, at: int) -> int {
    le_u32(s, at) + 0x1_0000_0000 * le_u32(s, at + 4)
}

/// The signed 32-bit value that `s` holds at `at`, in two's complement.
pub open spec fn le_i32(s: Seq<u8>, at: int) -> int {
    let raw = le_u32(s, at);
    if raw >= 0x8000_0000 {
        raw - 0x1_0000_0000
    } else {
        raw
    }
}

/// The four bytes of a 32-bit value, lowest first.
pub open spec fn le_bytes_u32(v: int) -> Seq<u8> {
    seq![
        (v % 0x100) as u8,
        (v / 0x100 % 0x100) as u8,
        (v / 0x1_0000 % 0x100) as u8,
        (v / 0x100_0000 % 0x100) as u8,
    ]
}

/// The eight bytes of a 64-bit value, lowest first.
pub open spec fn le_bytes_u64(v: int) -> Seq<u8> {
    le_bytes_u32(v % 0x1_0000_0000) + le_bytes_u32(v / 0x1_0000_0000)
}

/// The unsigned 32-bit pattern that stands for `d` in two's complement.
pub open spec fn twos_complement_u32(d: int) -> int {
    if d < 0 {
        d + 0x1_0000_0000
    } else {
        d
    }
}

/// Whether `d` can be written as a signed 32-bit value.
pub open spec fn fits_i32(d: int) -> bool {
    -0x8000_0000 <= d < 0x8000_0000
}

/// The sum of two 64-bit values, modulo 2^64.
pub open spec fn wrapping_sum(a: u64, b: u64) -> u64 {
    if a + b > u64::MAX {
        (a + b - 0x1_0000_0000_0000_0000) as u64
    } else {
        (a + b) as u64
    }
}

/// `s` with the bytes from `at` on replaced by `bytes`.
#[verifier::opaque]
pub open spec fn overwrite(s: Seq<u8>, at: int, bytes: Seq<u8>) -> Seq<u8> {
    Seq::new(
        s.len(),
        |i: int|
            if at <= i < at + bytes.len() {
                bytes[i - at]
            } else {
                s[i]
            },
    )
}

/// Whether `a` from `at` on and `b` from `bt` on hold the same `len` bytes.
pub open spec fn same_bytes(a: Seq<u8>, at: int, b: Seq<u8>, bt: int, len: int) -> bool {
    forall|k: int| at <= k < at + len ==> #[trigger] a[k] == b[k - at + bt]
}

/// Whether `a` and `b` are equally long and differ at most in the `len`
/// bytes from `at` on.
pub open spec fn same_outside(a: Seq<u8>, b: Seq<u8>, at: int, len: int) -> bool {
    &&& a.len() == b.len()
    &&& forall|k: int| 0 <= k < a.len() && !(at <= k < at + len) ==> #[trigger] a[k] == b[k]
}

/// Overwriting changes no length.
pub proof fn lemma_overwrite_len(s: Seq<u8>, at: int, bytes: Seq<u8>)
    ensures
        overwrite(s, at, bytes).len() == s.len(),
{
    reveal(overwrite);
}

/// A 32-bit value is written as four bytes, a 64-bit value as eight.
pub proof fn lemma_le_bytes_len(v: int)
    ensures
        le_bytes_u32(v).len() == 4,
        le_bytes_u64(v).len() == 8,
{
}

/// Overwriting puts the new bytes in their place and keeps every other byte.
pub proof fn lemma_overwrite(s: Seq<u8>, at: int, bytes: Seq<u8>)
    requires
        0 <= at,
        at + bytes.len() <= s.len(),
    ensures
        same_bytes(overwrite(s, at, bytes), at, bytes, 0, bytes.len() as int),
        same_outside(overwrite(s, at, bytes), s, at, bytes.len() as int),
{
    reveal(overwrite);
}

/// Four bytes written from a 32-bit value read back as that value.
pub proof fn lemma_le_u32_of_bytes(v: int)
    requires
        0 <= v < 0x1_0000_0000,
    ensures
        le_bytes_u32(v).len() == 4,
        le_u32(le_bytes_u32(v), 0) == v,
{
}

/// Eight bytes written from a 64-bit value read back as that value.
pub proof fn lemma_le_u64_of_bytes(v: int)
    requires
        0 <= v < 0x1_0000_0000_0000_0000,
    ensures
        le_bytes_u64(v).len() == 8,
        le_u64(le_bytes_u64(v), 0) == v,
{
    let lo = v % 0x1_0000_0000;
    let hi = v / 0x1_0000_0000;
    lemma_le_u32_of_bytes(lo);
    lemma_le_u32_of_bytes(hi);
    let s = le_bytes_u64(v);
    assert(le_u32(s, 0) == le_u32(le_bytes_u32(lo), 0));
    assert(le_u32(s, 4) == le_u32(le_bytes_u32(hi), 0));
}

/// A signed 32-bit value written in two's complement reads back unchanged.
pub proof fn lemma_le_i32_of_bytes(d: int)
    requires
        fits_i32(d),
    ensures
        le_i32(le_bytes_u32(twos_complement_u32(d)), 0) == d,
{
    lemma_le_u32_of_bytes(twos_complement_u32(d));
}

/// A 16-bit value depends on its two bytes alone.
pub proof fn lemma_le_u16_same(a: Seq<u8>, at: int, b: Seq<u8>, bt: int)
    requires
        same_bytes(a, at, b, bt, 2),
    ensures
        le_u16(a, at) == le_u16(b, bt),
{
    assert(a[at] == b[bt]);
    assert(a[at + 1] == b[bt + 1]);
}

/// A 32-bit value depends on its four bytes alone.
pub proof fn lemma_le_u32_same(a: Seq<u8>, at: int, b: Seq<u8>, bt: int)
    requires
        same_bytes(a, at, b, bt, 4),
    ensures
        le_u32(a, at) == le_u32(b, bt),
{
    assert(a[at] == b[bt]);
    assert(a[at + 1] == b[bt + 1]);
    assert(a[at + 2] == b[bt + 2]);
    assert(a[at + 3] == b[bt + 3]);
}

/// A 64-bit value depends on its eight bytes alone.
pub proof fn lemma_le_u64_same(a: Seq<u8>, at: int, b: Seq<u8>, bt: int)
    requires
        same_bytes(a, at, b, bt, 8),
    ensures
        le_u64(a, at) == le_u64(b, bt),
{
    assert(same_bytes(a, at, b, bt, 4));
    assert(same_bytes(a, at + 4, b, bt + 4, 4));
    lemma_le_u32_same(a, at, b, bt);
    lemma_le_u32_same(a, at + 4, b, bt + 4);
}

/// A 32-bit value that was written is the value that is read.
pub proof fn lemma_le_u32_written(s: Seq<u8>, at: int, v: u32)
    requires
        0 <= at,
        at + 4 <= s.len(),
    ensures
        le_u32(overwrite(s, at, le_bytes_u32(v as int)), at) == v,
{
    lemma_le_u32_of_bytes(v as int);
    let t = overwrite(s, at, le_bytes_u32(v as int));
    lemma_overwrite(s, at, le_bytes_u32(v as int));
    lemma_le_u32_same(t, at, le_bytes_u32(v as int), 0);
}

/// A 64-bit value that was written is the value that is read.
pub proof fn lemma_le_u64_written(s: Seq<u8>, at: int, v: u64)
    requires
        0 <= at,
        at + 8 <= s.len(),
    ensures
        le_u64(overwrite(s, at, le_bytes_u64(v as int)), at) == v,
{
    lemma_le_u64_of_bytes(v as int);
    let t = overwrite(s, at, le_bytes_u64(v as int));
    lemma_overwrite(s, at, le_bytes_u64(v as int));
    lemma_le_u64_same(t, at, le_bytes_u64(v as int), 0);
}

/// Two images that hold the same bytes in a range hold the same bytes in
/// every part of it.
pub proof fn lemma_same_bytes_part(
    a: Seq<u8>,
    at: int,
    b: Seq<u8>,
    bt: int,
    len: int,
    from: int,
    part: int,
)
    requires
        same_bytes(a, at, b, bt, len),
        0 <= from,
        from + part <= len,
    ensures
        same_bytes(a, at + from, b, bt + from, part),
{
    assert forall|k: int| at + from <= k < at + from + part implies #[trigger] a[k] == b[k - (at
        + from) + (bt + from)] by {
        assert(a[k] == b[k - at + bt]);
    }
}

/// Two images that differ at most in one range hold the same bytes in any
/// range that lies clear of it.
pub proof fn lemma_same_outside_bytes(
    a: Seq<u8>,
    b: Seq<u8>,
    lo: int,
    len: int,
    at: int,
    part: int,
)
    requires
        same_outside(a, b, lo, len),
        0 <= at,
        at + part <= a.len(),
        at + part <= lo || lo + len <= at || part <= 0 || len <= 0,
    ensures
        same_bytes(a, at, b, at, part),
{
}

/// Two images that differ from a third in at most one range each differ
/// from each other in at most a range that covers both.
pub proof fn lemma_same_outside_chain(
    a: Seq<u8>,
    b: Seq<u8>,
    c: Seq<u8>,
    lo1: int,
    len1: int,
    lo2: int,
    len2: int,
    lo: int,
    len: int,
)
    requires
        same_outside(a, b, lo1, len1),
        same_outside(b, c, lo2, len2),
        lo <= lo1 && lo1 + len1 <= lo + len,
        lo <= lo2 && lo2 + len2 <= lo + len,
    ensures
        same_outside(a, c, lo, len),
{
    assert forall|k: int| 0 <= k < a.len() && !(lo <= k < lo + len) implies #[trigger] a[k]
        == c[k] by {
        assert(a[k] == b[k]);
        assert(b[k] == c[k]);
    }
}

/// A 16-bit value outside the bytes in which two images differ is the same
/// in both.
pub proof fn lemma_le_u16_kept(a: Seq<u8>, b: Seq<u8>, at: int, lo: int, len: int)
    requires
        same_outside(a, b, lo, len),
        0 <= at,
        at + 2 <= a.len(),
        at + 2 <= lo || lo + len <= at,
    ensures
        le_u16(a, at) == le_u16(b, at),
{
    assert(same_bytes(a, at, b, at, 2));
    lemma_le_u16_same(a, at, b, at);
}

/// A 32-bit value outside the bytes in which two images differ is the same
/// in both.
pub proof fn lemma_le_u32_kept(a: Seq<u8>, b: Seq<u8>, at: int, lo: int, len: int)
    requires
        same_outside(a, b, lo, len),
        0 <= at,
        at + 4 <= a.len(),
        at + 4 <= lo || lo + len <= at,
    ensures
        le_u32(a, at) == le_u32(b, at),
{
    assert(same_bytes(a, at, b, at, 4));
    lemma_le_u32_same(a, at, b, at);
}

/// A 64-bit value outside the bytes in which two images differ is the same
/// in both.
pub proof fn lemma_le_u64_kept(a: Seq<u8>, b: Seq<u8>, at: int, lo: int, len: int)
    requires
        same_outside(a, b, lo, len),
        0 <= at,
        at + 8 <= a.len(),
        at + 8 <= lo || lo + len <= at,
    ensures
        le_u64(a, at) == le_u64(b, at),
{
    assert(same_bytes(a, at, b, at, 8));
    lemma_le_u64_same(a, at, b, at);
}

/// A 32-bit value that was written stays what is read while later writes go
/// elsewhere.
pub proof fn lemma_le_u32_survives(
    s: Seq<u8>,
    at: int,
    v: u32,
    later: Seq<u8>,
    lo: int,
    len: int,
)
    requires
        0 <= at,
        at + 4 <= s.len(),
        same_outside(later, overwrite(s, at, le_bytes_u32(v as int)), lo, len),
        at + 4 <= lo || lo + len <= at,
    ensures
        le_u32(later, at) == v,
{
    lemma_le_u32_written(s, at, v);
    lemma_overwrite_len(s, at, le_bytes_u32(v as int));
    lemma_le_u32_kept(later, overwrite(s, at, le_bytes_u32(v as int)), at, lo, len);
}

/// A 64-bit value that was written stays what is read while later writes go
/// elsewhere.
pub proof fn lemma_le_u64_survives(
    s: Seq<u8>,
    at: int,
    v: u64,
    later: Seq<u8>,
    lo: int,
    len: int,
)
    requires
        0 <= at,
        at + 8 <= s.len(),
        same_outside(later, overwrite(s, at, le_bytes_u64(v as int)), lo, len),
        at + 8 <= lo || lo + len <= at,
    ensures
        le_u64(later, at) == v,
{
    lemma_le_u64_written(s, at, v);
    lemma_overwrite_len(s, at, le_bytes_u64(v as int));
    lemma_le_u64_kept(later, overwrite(s, at, le_bytes_u64(v as int)), at, lo, len);
}

/// Reads the 16-bit value at `at`.
pub fn read_u16(buf: &[u8], at: usize) -> (v: u16)
    requires
        at + 2 <= buf.len(),
    ensures
        v == le_u16(buf@, at as int),
{
    let b0: u16 = buf[at] as u16;
    let b1: u16 = buf[at + 1] as u16;
    b0 + 0x100 * b1
}

/// Reads the 32-bit value at `at`.
pub fn read_u32(buf: &[u8], at: usize) -> (v: u32)
    requires
        at + 4 <= buf.len(),
    ensures
        v == le_u32(buf@, at as int),
{
    let lo: u32 = read_u16(buf, at) as u32;
    let hi: u32 = read_u16(buf, at + 2) as u32;
    lo + 0x1_0000 * hi
}

/// Reads the 64-bit value at `at`.
pub fn read_u64(buf: &[u8], at: usize) -> (v: u64)
    requires
        at + 8 <= buf.len(),
    ensures
        v == le_u64(buf@, at as int),
{
    let lo: u64 = read_u32(buf, at) as u64;
    let hi: u64 = read_u32(buf, at + 4) as u64;
    lo + 0x1_0000_0000 * hi
}

/// Writes `v` over the four bytes at `at`.
pub fn write_u32(buf: &mut Vec<u8>, at: usize, v: u32)
    requires
        at + 4 <= old(buf).len(),
    ensures
        final(buf)@ == overwrite(old(buf)@, at as int, le_bytes_u32(v as int)),
        final(buf).len() == old(buf).len(),
{
    buf.set(at, (v % 0x100) as u8);
    buf.set(at + 1, (v / 0x100 % 0x100) as u8);
    buf.set(at + 2, (v / 0x1_0000 % 0x100) as u8);
    buf.set(at + 3, (v / 0x100_0000 % 0x100) as u8);
    proof {
        reveal(overwrite);
    }
    assert(buf@ =~= overwrite(old(buf)@, at as int, le_bytes_u32(v as int)));
}

/// Writes `v` over the eight bytes at `at`.
pub fn write_u64(buf: &mut Vec<u8>, at: usize, v: u64)
    requires
        at + 8 <= old(buf).len(),
    ensures
        final(buf)@ == overwrite(old(buf)@, at as int, le_bytes_u64(v as int)),
        final(buf).len() == old(buf).len(),
{
    write_u32(buf, at, (v % 0x1_0000_0000) as u32);
    write_u32(buf, at + 4, (v / 0x1_0000_0000) as u32);
    proof {
        reveal(overwrite);
    }
    assert(buf@ =~= overwrite(old(buf)@, at as int, le_bytes_u64(v as int)));
}

/// Appends the four bytes of `v`.
pub fn push_u32(buf: &mut Vec<u8>, v: u32)
    ensures
        final(buf)@ == old(buf)@ + le_bytes_u32(v as int),
{
    buf.push((v % 0x100) as u8);
    buf.push((v / 0x100 % 0x100) as u8);
    buf.push((v / 0x1_0000 % 0x100) as u8);
    buf.push((v / 0x100_0000 % 0x100) as u8);
    assert(buf@ =~= old(buf)@ + le_bytes_u32(v as int));
}

/// Appends the eight bytes of `v`.
pub fn push_u64(buf: &mut Vec<u8>, v: u64)
    ensures
        final(buf)@ == old(buf)@ + le_bytes_u64(v as int),
{
    push_u32(buf, (v % 0x1_0000_0000) as u32);
    push_u32(buf, (v / 0x1_0000_0000) as u32);
    assert(buf@ =~= old(buf)@ + le_bytes_u64(v as int));
}

/// Appends every byte of `part` to `out`.
pub fn extend(out: &mut Vec<u8>, part: &[u8])
    ensures
        final(out)@ == old(out)@ + part@,
{
    extend_range(out, part, 0, part.len());
    assert(part@.subrange(0, part@.len() as int) =~= part@);
}

/// Appends the bytes of `part` from `from` up to `to`.
pub fn extend_range(out: &mut Vec<u8>, part: &[u8], from: usize, to: usize)
    requires
        from <= to <= part.len(),
    ensures
        final(out)@ == old(out)@ + part@.subrange(from as int, to as int),
{
    let mut i: usize = from;
    while i < to
        invariant
            from <= i <= to <= part.len(),
            out@ == old(out)@ + part@.subrange(from as int, i as int),
        decreases to - i,
    {
        out.push(part[i]);
        i += 1;
        assert(out@ =~= old(out)@ + part@.subrange(from as int, i as int));
    }
}

} // verus!
