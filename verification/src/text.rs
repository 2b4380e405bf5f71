//! UTF-8 text read from and written into game files.
use vstd::prelude::*;
use vstd::utf8::{
    decode_utf8, encode_utf8, encode_utf8_decode_utf8, encode_utf8_valid_utf8, is_ascii_chars,
    is_ascii_chars_encode_utf8, is_char_boundary_iff_not_is_continuation_byte,
    is_char_boundary_start_end_of_seq, valid_utf8,
};

verus! {

/// Calls `String::from_utf8`: the text that `bytes` encode, or `None` where
/// they are not valid UTF-8. Claimed of it: it succeeds exactly on valid UTF-8,
/// and the text it gives is the decoding of the bytes.
#[verifier::external_body]
pub(crate) fn string_from_utf8(bytes: Vec<u8>) -> (s: Option<String>)
    ensures
        match s {
            Some(s) => valid_utf8(bytes@) && s@ == decode_utf8(bytes@),
            None => !valid_utf8(bytes@),
        },
{
    String::from_utf8(bytes).ok()
}

/// `n` NUL characters.
pub open spec fn nuls(n: nat) -> Seq<char> {
    Seq::new(n, |i: int| '\0')
}

pub proof fn lemma_encode_utf8_append(a: Seq<char>, b: Seq<char>)
    ensures
        encode_utf8(a + b) == encode_utf8(a) + encode_utf8(b),
    decreases a.len(),
{
    if a.len() == 0 {
        assert(a + b =~= b);
        assert(encode_utf8(a) + encode_utf8(b) =~= encode_utf8(b));
    } else {
        assert((a + b)[0] == a[0]);
        assert((a + b).drop_first() =~= a.drop_first() + b);
        lemma_encode_utf8_append(a.drop_first(), b);
        let e = vstd::utf8::encode_scalar(a[0] as u32);
        assert(e + (encode_utf8(a.drop_first()) + encode_utf8(b)) =~= (e + encode_utf8(a.drop_first()))
            + encode_utf8(b));
    }
}

pub proof fn lemma_encode_utf8_nuls(n: nat)
    ensures
        encode_utf8(nuls(n)) == Seq::new(n, |i: int| 0u8),
{
    assert(is_ascii_chars(nuls(n)));
    is_ascii_chars_encode_utf8(nuls(n));
    assert(encode_utf8(nuls(n)) =~= Seq::new(n, |i: int| 0u8));
}

/// The UTF-8 encoding of a nonempty text is nonempty.
pub proof fn lemma_encode_utf8_nonempty(cs: Seq<char>)
    requires
        cs.len() > 0,
    ensures
        encode_utf8(cs).len() > 0,
{
    let first = vstd::utf8::encode_scalar(cs[0] as u32);
    assert(encode_utf8(cs) == first + encode_utf8(cs.drop_first()));
    assert(first.len() >= 1);
}

proof fn lemma_encode_scalar_clean(v: u32)
    requires
        v != 0,
        vstd::utf8::is_scalar(v),
    ensures
        forall|t: int| 0 <= t < vstd::utf8::encode_scalar(v).len() ==> #[trigger] vstd::utf8::encode_scalar(v)[t] != 0
            && vstd::utf8::encode_scalar(v)[t] != 0xff,
{
    assert(v <= 0x7f && v != 0 ==> (v & 0x7f) as u8 != 0 && (v & 0x7f) as u8 != 0xff) by (bit_vector);
    assert(0xc0 <= 0xC0 | ((v >> 6) & 0x1F) as u8 <= 0xdf) by (bit_vector);
    assert(0xe0 <= 0xE0 | ((v >> 12) & 0x0F) as u8 <= 0xef) by (bit_vector);
    assert(0xf0 <= 0xF0 | ((v >> 18) & 0x7) as u8 <= 0xf7) by (bit_vector);
    assert(0x80 <= 0x80 | (v & 0x3F) as u8 <= 0xbf) by (bit_vector);
    assert(0x80 <= 0x80 | ((v >> 6) & 0x3F) as u8 <= 0xbf) by (bit_vector);
    assert(0x80 <= 0x80 | ((v >> 12) & 0x3F) as u8 <= 0xbf) by (bit_vector);
}

/// The UTF-8 bytes of a text without NUL characters hold neither 0 nor 0xff.
pub proof fn lemma_encode_utf8_clean(cs: Seq<char>)
    requires
        forall|i: int| 0 <= i < cs.len() ==> cs[i] != '\0',
    ensures
        forall|t: int| 0 <= t < encode_utf8(cs).len() ==> #[trigger] encode_utf8(cs)[t] != 0
            && encode_utf8(cs)[t] != 0xff,
    decreases cs.len(),
{
    if cs.len() > 0 {
        let v = cs[0] as u32;
        vstd::utf8::char_is_scalar(cs[0]);
        assert(v != 0) by {
            if v == 0 {
                vstd::utf8::char_u32_cast(cs[0], v);
                assert((0u32 as char) == '\0');
            }
        }
        lemma_encode_scalar_clean(v);
        assert forall|i: int| 0 <= i < cs.drop_first().len() implies cs.drop_first()[i] != '\0' by {
            assert(cs.drop_first()[i] == cs[i + 1]);
        }
        lemma_encode_utf8_clean(cs.drop_first());
        let first = vstd::utf8::encode_scalar(v);
        let rest = encode_utf8(cs.drop_first());
        assert(encode_utf8(cs) == first + rest);
        assert forall|t: int| 0 <= t < encode_utf8(cs).len() implies #[trigger] encode_utf8(cs)[t] != 0
            && encode_utf8(cs)[t] != 0xff by {
            if t < first.len() {
                assert(encode_utf8(cs)[t] == first[t]);
            } else {
                assert(encode_utf8(cs)[t] == rest[t - first.len()]);
            }
        }
    }
}

/// `cs` without the NUL characters at its end.
pub open spec fn trim_nuls(cs: Seq<char>) -> Seq<char>
    decreases cs.len(),
{
    if cs.len() > 0 && cs.last() == '\0' {
        trim_nuls(cs.drop_last())
    } else {
        cs
    }
}

/// Trimming leaves a prefix of the text that does not end with NUL, and all
/// that it drops is NUL characters.
pub proof fn lemma_trim_nuls_drops_trailing_nuls(cs: Seq<char>)
    ensures
        trim_nuls(cs).len() <= cs.len(),
        trim_nuls(cs) == cs.subrange(0, trim_nuls(cs).len() as int),
        trim_nuls(cs).len() > 0 ==> trim_nuls(cs).last() != '\0',
        forall|i: int| trim_nuls(cs).len() <= i < cs.len() ==> cs[i] == '\0',
    decreases cs.len(),
{
    if cs.len() > 0 && cs.last() == '\0' {
        lemma_trim_nuls_drops_trailing_nuls(cs.drop_last());
        let t = trim_nuls(cs.drop_last());
        assert(cs.drop_last().subrange(0, t.len() as int) =~= cs.subrange(0, t.len() as int));
        assert forall|i: int| t.len() <= i < cs.len() implies cs[i] == '\0' by {
            if i < cs.len() - 1 {
                assert(cs.drop_last()[i] == cs[i]);
            }
        }
    } else {
        assert(cs.subrange(0, cs.len() as int) =~= cs);
    }
}

proof fn lemma_trim_nuls_padded(h: Seq<char>, k: nat)
    requires
        h.len() == 0 || h.last() != '\0',
    ensures
        trim_nuls(h + nuls(k)) == h,
    decreases k,
{
    if k == 0 {
        assert(h + nuls(0) =~= h);
    } else {
        assert((h + nuls(k)).drop_last() =~= h + nuls((k - 1) as nat));
        lemma_trim_nuls_padded(h, (k - 1) as nat);
    }
}

/// `s` without the NUL characters at its end.
pub fn trim_trailing_nuls(s: &String) -> (r: String)
    ensures
        r@ == trim_nuls(s@),
{
    let whole: &str = s.as_str();
    let bytes: &[u8] = whole.as_bytes();
    let ghost b = bytes@;
    let mut end: usize = bytes.len();
    while end > 0 && bytes[end - 1] == 0
        invariant
            end <= b.len(),
            b == bytes@,
            forall|j: int| end <= j < b.len() ==> b[j] == 0,
        decreases end,
    {
        end = end - 1;
    }
    proof {
        encode_utf8_valid_utf8(s@);
        if end < b.len() {
            is_char_boundary_iff_not_is_continuation_byte(b, end as int);
        } else {
            is_char_boundary_start_end_of_seq(b);
        }
    }
    let (head, _tail) = whole.split_at(end);
    let r: String = head.to_owned();
    proof {
        let h = r@;
        let k = (b.len() - end) as nat;
        assert(encode_utf8(h) == b.subrange(0, end as int));
        lemma_encode_utf8_nuls(k);
        lemma_encode_utf8_append(h, nuls(k));
        assert(encode_utf8(h + nuls(k)) =~= b);
        encode_utf8_decode_utf8(h + nuls(k));
        encode_utf8_decode_utf8(s@);
        assert(s@ == h + nuls(k));
        if h.len() > 0 && h.last() == '\0' {
            lemma_encode_utf8_append(h.drop_last(), seq!['\0']);
            lemma_encode_utf8_nuls(1);
            assert(seq!['\0'] =~= nuls(1));
            assert(h.drop_last() + seq!['\0'] =~= h);
            assert(b[end - 1] == 0);
        }
        lemma_trim_nuls_padded(h, k);
    }
    r
}

} // verus!
