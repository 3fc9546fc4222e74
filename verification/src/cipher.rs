//! The byte cipher that hides the executable segment.
//!
//! The packer and the stub that it emits share one key: the stub undoes at run
//! time what the packer did to the file.
use vstd::prelude::*;

verus! {

/// The key that every ciphered byte is combined with.
pub const CIPHER_KEY: u8 = 0x61;

/// One byte under the cipher.
pub open spec fn cipher_byte(b: u8) -> u8 {
    b ^ CIPHER_KEY
}

/// A whole sequence under the cipher.
pub open spec fn cipher(s: Seq<u8>) -> Seq<u8> {
    Seq::new(s.len(), |i: int| cipher_byte(s[i]))
}

/// A sequence in which only the `len` bytes from `start` on are ciphered.
pub open spec fn cipher_range(s: Seq<u8>, start: int, len: int) -> Seq<u8> {
    Seq::new(
        s.len(),
        |i: int|
            if start <= i < start + len {
                cipher_byte(s[i])
            } else {
                s[i]
            },
    )
}

/// Ciphering a byte twice gives the byte back.
pub proof fn lemma_cipher_byte_involutive(b: u8)
    ensures
        cipher_byte(cipher_byte(b)) == b,
{
    assert((b ^ 0x61u8) ^ 0x61u8 == b) by (bit_vector);
}

/// The cipher is an involution: applied twice to any sequence of bytes, it
/// returns that sequence.
pub proof fn lemma_cipher_involutive(s: Seq<u8>)
    ensures
        cipher(cipher(s)) == s,
{
    assert forall|i: int| 0 <= i < s.len() implies cipher(cipher(s))[i] == s[i] by {
        lemma_cipher_byte_involutive(s[i]);
    }
    assert(cipher(cipher(s)) =~= s);
}

/// Ciphering the same range twice restores the sequence.
pub proof fn lemma_cipher_range_involutive(s: Seq<u8>, start: int, len: int)
    ensures
        cipher_range(cipher_range(s, start, len), start, len) == s,
{
    let once = cipher_range(s, start, len);
    assert forall|i: int| 0 <= i < s.len() implies cipher_range(once, start, len)[i] == s[i] by {
        lemma_cipher_byte_involutive(s[i]);
    }
    assert(cipher_range(once, start, len) =~= s);
}

/// Ciphering the whole of a sequence is ciphering the range that covers it.
pub proof fn lemma_cipher_range_whole(s: Seq<u8>)
    ensures
        cipher_range(s, 0, s.len() as int) == cipher(s),
{
    assert(cipher_range(s, 0, s.len() as int) =~= cipher(s));
}

/// Ciphers `len` bytes of `buf` in place, starting at `start`, and leaves the
/// rest of the buffer as it was.
pub fn xor_cipher(buf: &mut Vec<u8>, start: usize, len: usize)
    requires
        start + len <= old(buf).len(),
    ensures
        final(buf)@ == cipher_range(old(buf)@, start as int, len as int),
{
    let end: usize = start + len;
    let mut i: usize = start;
    while i < end
        invariant
            start <= i <= end,
            end == start + len,
            end <= buf.len(),
            buf.len() == old(buf).len(),
            buf@ == cipher_range(old(buf)@, start as int, i - start),
        decreases end - i,
    {
        let b: u8 = buf[i];
        buf.set(i, b ^ CIPHER_KEY);
        i += 1;
        assert(buf@ =~= cipher_range(old(buf)@, start as int, i - start));
    }
    assert(buf@ =~= cipher_range(old(buf)@, start as int, len as int));
}

} // verus!
