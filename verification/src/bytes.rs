//! Little- and big-endian views of 32-bit words inside byte sequences.
use vstd::prelude::*;

verus! {

/// The little-endian 32-bit word whose first byte is `s[i]`.
pub open spec fn le_word(s: Seq<u8>, i: int) -> u32 {
    (s[i] as u32) | ((s[i + 1] as u32) << 8) | ((s[i + 2] as u32) << 16) | ((s[i + 3] as u32) << 24)
}

/// The four bytes of `w`, least significant first.
pub open spec fn word_le_bytes(w: u32) -> Seq<u8> {
    seq![(w & 0xff) as u8, ((w >> 8) & 0xff) as u8, ((w >> 16) & 0xff) as u8, ((w >> 24) & 0xff) as u8]
}

/// The four bytes of `w`, most significant first.
pub open spec fn word_be_bytes(w: u32) -> Seq<u8> {
    seq![((w >> 24) & 0xff) as u8, ((w >> 16) & 0xff) as u8, ((w >> 8) & 0xff) as u8, (w & 0xff) as u8]
}

/// Reading back the bytes of a word gives the word.
pub proof fn lemma_le_word_of_le_bytes(w: u32)
    ensures
        le_word(word_le_bytes(w), 0) == w,
{
    let b = word_le_bytes(w);
    let (b0, b1, b2, b3) = (b[0], b[1], b[2], b[3]);
    assert(b0 == (w & 0xff) as u8 && b1 == ((w >> 8) & 0xff) as u8 && b2 == ((w >> 16) & 0xff) as u8
        && b3 == ((w >> 24) & 0xff) as u8);
    assert((b0 as u32) | ((b1 as u32) << 8) | ((b2 as u32) << 16) | ((b3 as u32) << 24) == w)
        by (bit_vector)
        requires
            b0 == (w & 0xff) as u8,
            b1 == ((w >> 8) & 0xff) as u8,
            b2 == ((w >> 16) & 0xff) as u8,
            b3 == ((w >> 24) & 0xff) as u8,
    ;
}

/// Writing out the word read at `i` gives back the four bytes at `i`.
pub proof fn lemma_le_bytes_of_le_word(s: Seq<u8>, i: int)
    requires
        0 <= i,
        i + 4 <= s.len(),
    ensures
        word_le_bytes(le_word(s, i)) == s.subrange(i, i + 4),
{
    let (b0, b1, b2, b3) = (s[i], s[i + 1], s[i + 2], s[i + 3]);
    let w = le_word(s, i);
    assert(w == (b0 as u32) | ((b1 as u32) << 8) | ((b2 as u32) << 16) | ((b3 as u32) << 24));
    assert(b0 == (w & 0xff) as u8 && b1 == ((w >> 8) & 0xff) as u8 && b2 == ((w >> 16) & 0xff) as u8
        && b3 == ((w >> 24) & 0xff) as u8) by (bit_vector)
        requires
            w == (b0 as u32) | ((b1 as u32) << 8) | ((b2 as u32) << 16) | ((b3 as u32) << 24),
    ;
    assert(word_le_bytes(w) =~= s.subrange(i, i + 4));
}

/// The word read at `i` only depends on the four bytes at `i`.
pub proof fn lemma_le_word_local(s: Seq<u8>, t: Seq<u8>, i: int, j: int)
    requires
        0 <= i,
        i + 4 <= s.len(),
        0 <= j,
        j + 4 <= t.len(),
        s.subrange(i, i + 4) == t.subrange(j, j + 4),
    ensures
        le_word(s, i) == le_word(t, j),
{
    assert(s[i] == s.subrange(i, i + 4)[0]);
    assert(s[i + 1] == s.subrange(i, i + 4)[1]);
    assert(s[i + 2] == s.subrange(i, i + 4)[2]);
    assert(s[i + 3] == s.subrange(i, i + 4)[3]);
    assert(t[j] == t.subrange(j, j + 4)[0]);
    assert(t[j + 1] == t.subrange(j, j + 4)[1]);
    assert(t[j + 2] == t.subrange(j, j + 4)[2]);
    assert(t[j + 3] == t.subrange(j, j + 4)[3]);
}

/// The word read at `i` is the number whose base-256 digits are the four bytes
/// at `i`, least significant first.
pub proof fn lemma_le_word_value(s: Seq<u8>, i: int)
    ensures
        le_word(s, i) == s[i] + 256 * s[i + 1] + 65536 * s[i + 2] + 16777216 * s[i + 3],
{
    let (b0, b1, b2, b3) = (s[i], s[i + 1], s[i + 2], s[i + 3]);
    assert((b0 as u32) | ((b1 as u32) << 8) | ((b2 as u32) << 16) | ((b3 as u32) << 24) == b0 + 256 * b1
        + 65536 * b2 + 16777216 * b3) by (bit_vector);
}

/// The big-endian bytes of `w` are its base-256 digits, most significant first.
pub proof fn lemma_be_bytes_value(w: u32)
    ensures
        word_be_bytes(w).len() == 4,
        w == 16777216 * word_be_bytes(w)[0] + 65536 * word_be_bytes(w)[1] + 256 * word_be_bytes(w)[2]
            + word_be_bytes(w)[3],
{
    let (b0, b1, b2, b3) = (((w >> 24) & 0xff) as u8, ((w >> 16) & 0xff) as u8, ((w >> 8) & 0xff) as u8, (w
        & 0xff) as u8);
    assert(w == 16777216 * b0 + 65536 * b1 + 256 * b2 + b3) by (bit_vector)
        requires
            b0 == ((w >> 24) & 0xff) as u8,
            b1 == ((w >> 16) & 0xff) as u8,
            b2 == ((w >> 8) & 0xff) as u8,
            b3 == (w & 0xff) as u8,
    ;
}

/// Reads the little-endian word that starts at `at`.
pub fn le_slice_to_u32(input: &[u8], at: usize) -> (w: u32)
    requires
        at + 4 <= input@.len(),
    ensures
        w == le_word(input@, at as int),
{
    (input[at] as u32) | ((input[at + 1] as u32) << 8) | ((input[at + 2] as u32) << 16) | ((
    input[at + 3] as u32) << 24)
}

/// Appends the bytes of `w`, least significant first.
pub fn push_u32_le(out: &mut Vec<u8>, w: u32)
    ensures
        final(out)@ == old(out)@ + word_le_bytes(w),
{
    out.push((w & 0xff) as u8);
    out.push(((w >> 8) & 0xff) as u8);
    out.push(((w >> 16) & 0xff) as u8);
    out.push(((w >> 24) & 0xff) as u8);
    assert(final(out)@ =~= old(out)@ + word_le_bytes(w));
}

} // verus!
