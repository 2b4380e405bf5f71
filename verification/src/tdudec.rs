//! Decryption and encryption of save files and of other game files.
//!
//! Save files are a sequence of 8-byte blocks, each enciphered on its own.
//! Other files start with an 8-byte chaining value, and each plaintext block is
//! combined by XOR with the ciphertext block before it before it is enciphered.
use vstd::prelude::*;
use crate::bytes::{
    le_slice_to_u32, le_word, lemma_le_bytes_of_le_word, lemma_le_word_local,
    lemma_le_word_of_le_bytes, push_u32_le, word_le_bytes,
};
use crate::cipher::{
    decipher, decipher_block, encipher, encipher_block, lemma_decipher_encipher, lemma_encipher_decipher,
};

verus! {

/// The key of save files (`2C 43 EA 64 24 5B A3 F8 81 CD 8E 01 AC BE 26 83`).
pub const SAVE_KEY: [u32; 4] = [0x64EA432C, 0xF8A35B24, 0x018ECD81, 0x8326BEAC];

/// The key of other files (`4A 3C E2 4F 11 C2 BA 80 3A BD 17 69 BD 8E 52 F0`).
pub const OTHERS_KEY: [u32; 4] = [0x4FE23C4A, 0x80BAC211, 0x6917BD3A, 0xF0528EBD];

/// The key that a file of the given kind is enciphered with.
pub open spec fn key_of(save: bool) -> Seq<u32> {
    if save {
        SAVE_KEY@
    } else {
        OTHERS_KEY@
    }
}

/// The bytes of the deciphered block whose two words start at `at`.
pub open spec fn decipher_bytes(key: Seq<u32>, s: Seq<u8>, at: int) -> Seq<u8> {
    let b = decipher(key, le_word(s, at), le_word(s, at + 4));
    word_le_bytes(b.0) + word_le_bytes(b.1)
}

/// The bytes of the enciphered block `(y, z)`.
pub open spec fn encipher_bytes(key: Seq<u32>, y: u32, z: u32) -> Seq<u8> {
    let b = encipher(key, y, z);
    word_le_bytes(b.0) + word_le_bytes(b.1)
}

/// The first `n` plaintext blocks of a save file.
pub open spec fn save_plain_blocks(key: Seq<u32>, s: Seq<u8>, n: nat) -> Seq<u8>
    decreases n,
{
    if n == 0 {
        seq![]
    } else {
        save_plain_blocks(key, s, (n - 1) as nat) + decipher_bytes(key, s, 8 * (n - 1))
    }
}

/// The plaintext block of a chained file whose ciphertext follows the block at `at`.
pub open spec fn chained_plain_block(key: Seq<u32>, s: Seq<u8>, at: int) -> Seq<u8> {
    let b = decipher(key, le_word(s, at + 8), le_word(s, at + 12));
    word_le_bytes(le_word(s, at) ^ b.0) + word_le_bytes(le_word(s, at + 4) ^ b.1)
}

/// The first `n` plaintext blocks of a chained file.
pub open spec fn chained_plain_blocks(key: Seq<u32>, s: Seq<u8>, n: nat) -> Seq<u8>
    decreases n,
{
    if n == 0 {
        seq![]
    } else {
        chained_plain_blocks(key, s, (n - 1) as nat) + chained_plain_block(key, s, 8 * (n - 1))
    }
}

/// What decrypting `input` gives: nothing for fewer than 8 bytes; else, for a
/// save file, every whole block deciphered; for another file, every whole
/// block after the first deciphered and combined with the block before it.
/// Bytes after the last whole block are dropped.
pub open spec fn decrypt_spec(input: Seq<u8>, save: bool) -> Seq<u8> {
    if input.len() < 8 {
        seq![]
    } else if save {
        save_plain_blocks(SAVE_KEY@, input, input.len() / 8)
    } else {
        chained_plain_blocks(OTHERS_KEY@, input, ((input.len() - 8) / 8) as nat)
    }
}

/// `input` followed by as many zero bytes as its length modulo 32.
pub open spec fn zero_padded(input: Seq<u8>) -> Seq<u8> {
    input + Seq::new(input.len() % 32, |i: int| 0u8)
}

/// The first `n` ciphertext blocks of a save file with plaintext `p`.
pub open spec fn save_cipher_blocks(key: Seq<u32>, p: Seq<u8>, n: nat) -> Seq<u8>
    decreases n,
{
    if n == 0 {
        seq![]
    } else {
        let at = 8 * (n - 1);
        save_cipher_blocks(key, p, (n - 1) as nat) + encipher_bytes(
            key,
            le_word(p, at),
            le_word(p, at + 4),
        )
    }
}

/// The chaining value that a chained file starts with: the words 42 and !42.
pub open spec fn chain_start() -> Seq<u8> {
    word_le_bytes(42) + word_le_bytes(!42u32)
}

/// The chaining value and the first `n` ciphertext blocks of a chained file
/// with plaintext `p`.
pub open spec fn chained_cipher_blocks(key: Seq<u32>, p: Seq<u8>, n: nat) -> Seq<u8>
    decreases n,
{
    if n == 0 {
        chain_start()
    } else {
        let prev = chained_cipher_blocks(key, p, (n - 1) as nat);
        let at = 8 * (n - 1);
        prev + encipher_bytes(
            key,
            le_word(prev, at) ^ le_word(p, at),
            le_word(prev, at + 4) ^ le_word(p, at + 4),
        )
    }
}

/// What encrypting `input` gives: nothing for fewer than 8 bytes; else the
/// input is padded (see `zero_padded`) and its whole blocks are enciphered,
/// on their own for a save file, chained after `chain_start` for another file.
pub open spec fn encrypt_spec(input: Seq<u8>, save: bool) -> Seq<u8> {
    if input.len() < 8 {
        seq![]
    } else {
        let p = zero_padded(input);
        if save {
            save_cipher_blocks(SAVE_KEY@, p, p.len() / 8)
        } else {
            chained_cipher_blocks(OTHERS_KEY@, p, p.len() / 8)
        }
    }
}

fn decrypt(input: &Vec<u8>, save: bool) -> (output: Vec<u8>)
    ensures
        output@ == decrypt_spec(input@, save),
{
    let key: [u32; 4] = if save {
        SAVE_KEY
    } else {
        OTHERS_KEY
    };
    let mut output: Vec<u8> = Vec::new();
    if input.len() < 8 {
        return output;
    }
    let datalen: usize = if save {
        input.len()
    } else {
        input.len() - 8
    };
    let mut blocks: usize = datalen >> 3;
    assert(datalen >> 3 == datalen / 8) by (bit_vector);
    let ghost total: nat = (datalen / 8) as nat;
    let mut cursor: usize = 0;
    while blocks != 0
        invariant
            key@ == key_of(save),
            input@.len() >= 8,
            datalen == (if save { input@.len() } else { (input@.len() - 8) as nat }),
            total == datalen / 8,
            blocks <= total,
            cursor == 8 * (total - blocks),
            output@ == (if save {
                save_plain_blocks(key@, input@, (total - blocks) as nat)
            } else {
                chained_plain_blocks(key@, input@, (total - blocks) as nat)
            }),
        decreases blocks,
    {
        let ghost done = (total - blocks) as nat;
        if save {
            let (y, z) = decipher_block(
                &key,
                le_slice_to_u32(input.as_slice(), cursor),
                le_slice_to_u32(input.as_slice(), cursor + 4),
            );
            push_u32_le(&mut output, y);
            push_u32_le(&mut output, z);
            assert(output@ =~= save_plain_blocks(key@, input@, done + 1));
        } else {
            let (y, z) = decipher_block(
                &key,
                le_slice_to_u32(input.as_slice(), cursor + 8),
                le_slice_to_u32(input.as_slice(), cursor + 12),
            );
            push_u32_le(&mut output, le_slice_to_u32(input.as_slice(), cursor) ^ y);
            push_u32_le(&mut output, le_slice_to_u32(input.as_slice(), cursor + 4) ^ z);
            assert(output@ =~= chained_plain_blocks(key@, input@, done + 1));
        }
        blocks = blocks - 1;
        cursor = cursor + 8;
    }
    output
}

fn encrypt(input: &Vec<u8>, save: bool) -> (output: Vec<u8>)
    ensures
        output@ == encrypt_spec(input@, save),
{
    let key: [u32; 4] = if save {
        SAVE_KEY
    } else {
        OTHERS_KEY
    };
    let mut output: Vec<u8> = Vec::new();
    if input.len() < 8 {
        return output;
    }
    let ghost original = input@;
    let mut input = input.clone();
    assert(input@ =~= original);
    let padding: usize = input.len() % 32;
    if padding != 0 {
        let mut zeros: Vec<u8> = vec![0u8; padding];
        input.append(&mut zeros);
    }
    assert(input@ =~= zero_padded(original));
    let datalen: usize = input.len();
    if !save {
        push_u32_le(&mut output, 42);
        push_u32_le(&mut output, !42u32);
        assert(output@ =~= chain_start());
    }
    let mut blocksize: usize = datalen >> 3;
    assert(datalen >> 3 == datalen / 8) by (bit_vector);
    let ghost total: nat = (datalen / 8) as nat;
    let mut cursor: usize = 0;
    while blocksize != 0
        invariant
            key@ == key_of(save),
            datalen == input@.len(),
            total == datalen / 8,
            blocksize <= total,
            cursor == 8 * (total - blocksize),
            output@ == (if save {
                save_cipher_blocks(key@, input@, (total - blocksize) as nat)
            } else {
                chained_cipher_blocks(key@, input@, (total - blocksize) as nat)
            }),
            save ==> output@.len() == cursor,
            !save ==> output@.len() == cursor + 8,
        decreases blocksize,
    {
        let ghost done = (total - blocksize) as nat;
        let ghost prev = output@;
        let y: u32;
        let z: u32;
        if save {
            y = le_slice_to_u32(input.as_slice(), cursor);
            z = le_slice_to_u32(input.as_slice(), cursor + 4);
        } else {
            y = le_slice_to_u32(output.as_slice(), cursor) ^ le_slice_to_u32(input.as_slice(), cursor);
            z = le_slice_to_u32(output.as_slice(), cursor + 4) ^ le_slice_to_u32(input.as_slice(), cursor + 4);
        }
        let (y, z) = encipher_block(&key, y, z);
        push_u32_le(&mut output, y);
        push_u32_le(&mut output, z);
        if save {
            assert(output@ =~= save_cipher_blocks(key@, input@, done + 1));
        } else {
            assert(output@ =~= chained_cipher_blocks(key@, input@, done + 1));
        }
        blocksize = blocksize - 1;
        cursor = cursor + 8;
    }
    output
}

proof fn lemma_words_of_block(c: Seq<u8>, at: int, a: u32, b: u32)
    requires
        0 <= at,
        at + 8 <= c.len(),
        c.subrange(at, at + 8) == word_le_bytes(a) + word_le_bytes(b),
    ensures
        le_word(c, at) == a,
        le_word(c, at + 4) == b,
{
    let e = word_le_bytes(a) + word_le_bytes(b);
    assert(c.subrange(at, at + 4) == word_le_bytes(a).subrange(0, 4)) by {
        assert(c.subrange(at, at + 4) =~= e.subrange(0, 4));
        assert(e.subrange(0, 4) =~= word_le_bytes(a).subrange(0, 4));
    }
    assert(c.subrange(at + 4, at + 8) == word_le_bytes(b).subrange(0, 4)) by {
        assert(c.subrange(at + 4, at + 8) =~= e.subrange(4, 8));
        assert(e.subrange(4, 8) =~= word_le_bytes(b).subrange(0, 4));
    }
    lemma_le_word_local(c, word_le_bytes(a), at, 0);
    lemma_le_word_local(c, word_le_bytes(b), at + 4, 0);
    lemma_le_word_of_le_bytes(a);
    lemma_le_word_of_le_bytes(b);
}

proof fn lemma_block_of_words(p: Seq<u8>, at: int)
    requires
        0 <= at,
        at + 8 <= p.len(),
    ensures
        word_le_bytes(le_word(p, at)) + word_le_bytes(le_word(p, at + 4)) == p.subrange(at, at + 8),
{
    lemma_le_bytes_of_le_word(p, at);
    lemma_le_bytes_of_le_word(p, at + 4);
    assert(p.subrange(at, at + 4) + p.subrange(at + 4, at + 8) =~= p.subrange(at, at + 8));
}

proof fn lemma_save_cipher_blocks(key: Seq<u32>, p: Seq<u8>, n: nat, k: int)
    requires
        0 <= k < n,
    ensures
        save_cipher_blocks(key, p, n).len() == 8 * n,
        save_cipher_blocks(key, p, n).subrange(8 * k, 8 * k + 8) == encipher_bytes(
            key,
            le_word(p, 8 * k),
            le_word(p, 8 * k + 4),
        ),
    decreases n,
{
    let m = (n - 1) as nat;
    let prev = save_cipher_blocks(key, p, m);
    let last = encipher_bytes(key, le_word(p, 8 * (m as int)), le_word(p, 8 * (m as int) + 4));
    if m == 0 {
        assert(save_cipher_blocks(key, p, n) =~= last);
    } else {
        lemma_save_cipher_blocks(key, p, m, if k < m { k } else { 0 });
    }
    assert(save_cipher_blocks(key, p, n) == prev + last);
    if k < m {
        assert((prev + last).subrange(8 * k, 8 * k + 8) =~= prev.subrange(8 * k, 8 * k + 8));
    } else {
        assert((prev + last).subrange(8 * k, 8 * k + 8) =~= last);
    }
}

proof fn lemma_save_round_trip_blocks(key: Seq<u32>, p: Seq<u8>, n: nat, m: nat)
    requires
        m <= n,
        8 * n <= p.len(),
    ensures
        save_plain_blocks(key, save_cipher_blocks(key, p, n), m) == p.subrange(0, 8 * (m as int)),
    decreases m,
{
    if m == 0 {
        assert(p.subrange(0, 0) =~= Seq::<u8>::empty());
    } else {
        let k = m - 1;
        let c = save_cipher_blocks(key, p, n);
        lemma_save_round_trip_blocks(key, p, n, (m - 1) as nat);
        lemma_save_cipher_blocks(key, p, n, k);
        let (y, z) = (le_word(p, 8 * k), le_word(p, 8 * k + 4));
        let e = encipher(key, y, z);
        lemma_words_of_block(c, 8 * k, e.0, e.1);
        lemma_decipher_encipher(key, y, z);
        lemma_block_of_words(p, 8 * k);
        assert(p.subrange(0, 8 * k) + p.subrange(8 * k, 8 * k + 8) =~= p.subrange(0, 8 * (m as int)));
    }
}

proof fn lemma_chained_cipher_blocks_prefix(key: Seq<u32>, p: Seq<u8>, m: nat, n: nat)
    requires
        m <= n,
    ensures
        chained_cipher_blocks(key, p, n).len() == 8 + 8 * n,
        chained_cipher_blocks(key, p, n).subrange(0, 8 + 8 * (m as int)) == chained_cipher_blocks(key, p, m),
    decreases n,
{
    if n == 0 {
        assert(chained_cipher_blocks(key, p, 0).subrange(0, 8) =~= chained_cipher_blocks(key, p, 0));
    } else {
        let prev = chained_cipher_blocks(key, p, (n - 1) as nat);
        if m == n {
            lemma_chained_cipher_blocks_prefix(key, p, (n - 1) as nat, (n - 1) as nat);
            assert(chained_cipher_blocks(key, p, n).subrange(0, 8 + 8 * (m as int)) =~= chained_cipher_blocks(key, p, n));
        } else {
            lemma_chained_cipher_blocks_prefix(key, p, m, (n - 1) as nat);
            let at = 8 * (n - 1);
            let last = encipher_bytes(key, le_word(prev, at) ^ le_word(p, at), le_word(prev, at + 4) ^ le_word(p, at + 4));
            assert((prev + last).subrange(0, 8 + 8 * (m as int)) =~= prev.subrange(0, 8 + 8 * (m as int)));
        }
    }
}

proof fn lemma_chained_cipher_block(key: Seq<u32>, p: Seq<u8>, n: nat, k: int)
    requires
        0 <= k < n,
    ensures
        ({
            let c = chained_cipher_blocks(key, p, n);
            c.subrange(8 + 8 * k, 16 + 8 * k) == encipher_bytes(
                key,
                le_word(c, 8 * k) ^ le_word(p, 8 * k),
                le_word(c, 8 * k + 4) ^ le_word(p, 8 * k + 4),
            )
        }),
{
    let c = chained_cipher_blocks(key, p, n);
    let prev = chained_cipher_blocks(key, p, k as nat);
    let upto = chained_cipher_blocks(key, p, (k + 1) as nat);
    lemma_chained_cipher_blocks_prefix(key, p, (k + 1) as nat, n);
    lemma_chained_cipher_blocks_prefix(key, p, k as nat, k as nat);
    let last = encipher_bytes(key, le_word(prev, 8 * k) ^ le_word(p, 8 * k), le_word(prev, 8 * k + 4) ^ le_word(p, 8 * k + 4));
    assert(upto == prev + last);
    assert(c.subrange(8 + 8 * k, 16 + 8 * k) =~= last) by {
        assert(c.subrange(8 + 8 * k, 16 + 8 * k) =~= upto.subrange(8 + 8 * k, 16 + 8 * k));
    }
    assert(c.subrange(8 * k, 8 * k + 4) == prev.subrange(8 * k, 8 * k + 4)) by {
        assert(c.subrange(8 * k, 8 * k + 4) =~= upto.subrange(8 * k, 8 * k + 4));
    }
    assert(c.subrange(8 * k + 4, 8 * k + 8) == prev.subrange(8 * k + 4, 8 * k + 8)) by {
        assert(c.subrange(8 * k + 4, 8 * k + 8) =~= upto.subrange(8 * k + 4, 8 * k + 8));
    }
    lemma_le_word_local(c, prev, 8 * k, 8 * k);
    lemma_le_word_local(c, prev, 8 * k + 4, 8 * k + 4);
}

proof fn lemma_chained_round_trip_blocks(key: Seq<u32>, p: Seq<u8>, n: nat, m: nat)
    requires
        m <= n,
        8 * n <= p.len(),
    ensures
        chained_plain_blocks(key, chained_cipher_blocks(key, p, n), m) == p.subrange(0, 8 * (m as int)),
    decreases m,
{
    if m == 0 {
        assert(p.subrange(0, 0) =~= Seq::<u8>::empty());
    } else {
        let k = m - 1;
        let c = chained_cipher_blocks(key, p, n);
        lemma_chained_round_trip_blocks(key, p, n, (m - 1) as nat);
        lemma_chained_cipher_blocks_prefix(key, p, n, n);
        lemma_chained_cipher_block(key, p, n, k);
        let (a, b) = (le_word(c, 8 * k), le_word(c, 8 * k + 4));
        let (y, z) = (le_word(p, 8 * k), le_word(p, 8 * k + 4));
        let e = encipher(key, a ^ y, b ^ z);
        lemma_words_of_block(c, 8 * k + 8, e.0, e.1);
        lemma_decipher_encipher(key, a ^ y, b ^ z);
        assert(a ^ (a ^ y) == y && b ^ (b ^ z) == z) by (bit_vector);
        lemma_block_of_words(p, 8 * k);
        assert(p.subrange(0, 8 * k) + p.subrange(8 * k, 8 * k + 8) =~= p.subrange(0, 8 * (m as int)));
    }
}

/// Decrypting an encrypted save file gives back its padded plaintext, cut to
/// whole blocks.
pub proof fn lemma_decrypt_save_encrypt_save(x: Seq<u8>)
    requires
        x.len() >= 8,
    ensures
        decrypt_spec(encrypt_spec(x, true), true) == zero_padded(x).subrange(
            0,
            8 * (zero_padded(x).len() / 8) as int,
        ),
{
    let p = zero_padded(x);
    let n = p.len() / 8;
    lemma_save_cipher_blocks(SAVE_KEY@, p, n, 0);
    lemma_save_round_trip_blocks(SAVE_KEY@, p, n, n);
}

/// Decrypting an encrypted file of another kind gives back its padded
/// plaintext, cut to whole blocks.
pub proof fn lemma_decrypt_others_encrypt_others(x: Seq<u8>)
    requires
        x.len() >= 8,
    ensures
        decrypt_spec(encrypt_spec(x, false), false) == zero_padded(x).subrange(
            0,
            8 * (zero_padded(x).len() / 8) as int,
        ),
{
    let p = zero_padded(x);
    let n = p.len() / 8;
    lemma_chained_cipher_blocks_prefix(OTHERS_KEY@, p, n, n);
    lemma_chained_round_trip_blocks(OTHERS_KEY@, p, n, n);
}

proof fn lemma_save_plain_blocks(key: Seq<u32>, s: Seq<u8>, n: nat, k: int)
    requires
        0 <= k < n,
    ensures
        save_plain_blocks(key, s, n).len() == 8 * n,
        save_plain_blocks(key, s, n).subrange(8 * k, 8 * k + 8) == decipher_bytes(key, s, 8 * k),
    decreases n,
{
    let m = (n - 1) as nat;
    let prev = save_plain_blocks(key, s, m);
    let last = decipher_bytes(key, s, 8 * (m as int));
    if m == 0 {
        assert(save_plain_blocks(key, s, n) =~= last);
    } else {
        lemma_save_plain_blocks(key, s, m, if k < m { k } else { 0 });
    }
    assert(save_plain_blocks(key, s, n) == prev + last);
    if k < m {
        assert((prev + last).subrange(8 * k, 8 * k + 8) =~= prev.subrange(8 * k, 8 * k + 8));
    } else {
        assert((prev + last).subrange(8 * k, 8 * k + 8) =~= last);
    }
}

proof fn lemma_chained_plain_blocks(key: Seq<u32>, s: Seq<u8>, n: nat, k: int)
    requires
        0 <= k < n,
    ensures
        chained_plain_blocks(key, s, n).len() == 8 * n,
        chained_plain_blocks(key, s, n).subrange(8 * k, 8 * k + 8) == chained_plain_block(key, s, 8 * k),
    decreases n,
{
    let m = (n - 1) as nat;
    let prev = chained_plain_blocks(key, s, m);
    let last = chained_plain_block(key, s, 8 * (m as int));
    if m == 0 {
        assert(chained_plain_blocks(key, s, n) =~= last);
    } else {
        lemma_chained_plain_blocks(key, s, m, if k < m { k } else { 0 });
    }
    assert(chained_plain_blocks(key, s, n) == prev + last);
    if k < m {
        assert((prev + last).subrange(8 * k, 8 * k + 8) =~= prev.subrange(8 * k, 8 * k + 8));
    } else {
        assert((prev + last).subrange(8 * k, 8 * k + 8) =~= last);
    }
}

proof fn lemma_save_encrypt_decrypt_blocks(key: Seq<u32>, c: Seq<u8>, n: nat, m: nat)
    requires
        m <= n,
        8 * n <= c.len(),
    ensures
        save_cipher_blocks(key, save_plain_blocks(key, c, n), m) == c.subrange(0, 8 * (m as int)),
    decreases m,
{
    if m == 0 {
        assert(c.subrange(0, 0) =~= Seq::<u8>::empty());
    } else {
        let k = m - 1;
        let p = save_plain_blocks(key, c, n);
        lemma_save_encrypt_decrypt_blocks(key, c, n, (m - 1) as nat);
        lemma_save_plain_blocks(key, c, n, k);
        let (a, b) = (le_word(c, 8 * k), le_word(c, 8 * k + 4));
        let d = decipher(key, a, b);
        lemma_words_of_block(p, 8 * k, d.0, d.1);
        lemma_encipher_decipher(key, a, b);
        lemma_block_of_words(c, 8 * k);
        assert(c.subrange(0, 8 * k) + c.subrange(8 * k, 8 * k + 8) =~= c.subrange(0, 8 * (m as int)));
    }
}

proof fn lemma_chained_encrypt_decrypt_blocks(key: Seq<u32>, c: Seq<u8>, n: nat, m: nat)
    requires
        m <= n,
        8 + 8 * n <= c.len(),
        c.subrange(0, 8) == chain_start(),
    ensures
        chained_cipher_blocks(key, chained_plain_blocks(key, c, n), m) == c.subrange(0, 8 + 8 * (m as int)),
    decreases m,
{
    if m > 0 {
        let k = m - 1;
        let p = chained_plain_blocks(key, c, n);
        let prev = chained_cipher_blocks(key, p, (m - 1) as nat);
        lemma_chained_encrypt_decrypt_blocks(key, c, n, (m - 1) as nat);
        assert(prev == c.subrange(0, 8 + 8 * k));
        lemma_chained_plain_blocks(key, c, n, k);
        let (a, b) = (le_word(c, 8 * k), le_word(c, 8 * k + 4));
        let (x, y) = (le_word(c, 8 * k + 8), le_word(c, 8 * k + 12));
        let d = decipher(key, x, y);
        lemma_words_of_block(p, 8 * k, a ^ d.0, b ^ d.1);
        assert(prev.subrange(8 * k, 8 * k + 4) =~= c.subrange(8 * k, 8 * k + 4));
        assert(prev.subrange(8 * k + 4, 8 * k + 8) =~= c.subrange(8 * k + 4, 8 * k + 8));
        lemma_le_word_local(prev, c, 8 * k, 8 * k);
        lemma_le_word_local(prev, c, 8 * k + 4, 8 * k + 4);
        let (d0, d1) = (d.0, d.1);
        assert(a ^ (a ^ d0) == d0 && b ^ (b ^ d1) == d1) by (bit_vector);
        lemma_encipher_decipher(key, x, y);
        lemma_block_of_words(c, 8 * k + 8);
        assert(c.subrange(0, 8 + 8 * k) + c.subrange(8 * k + 8, 8 * k + 16) =~= c.subrange(
            0,
            8 + 8 * (m as int),
        ));
    }
}

/// Encrypting a decrypted save file gives it back, where its length is a
/// nonzero multiple of 32 (so that encryption adds no padding).
pub proof fn lemma_encrypt_save_decrypt_save(c: Seq<u8>)
    requires
        c.len() >= 32,
        c.len() % 32 == 0,
    ensures
        encrypt_spec(decrypt_spec(c, true), true) == c,
{
    let n = c.len() / 8;
    let p = decrypt_spec(c, true);
    lemma_save_plain_blocks(SAVE_KEY@, c, n, 0);
    assert(zero_padded(p) =~= p);
    lemma_save_encrypt_decrypt_blocks(SAVE_KEY@, c, n, n);
    assert(c.subrange(0, c.len() as int) =~= c);
}

/// Encrypting a decrypted file of another kind gives it back, where it starts
/// with the chaining value `chain_start` and its length past that value is a
/// nonzero multiple of 32.
pub proof fn lemma_encrypt_others_decrypt_others(c: Seq<u8>)
    requires
        c.len() >= 40,
        (c.len() - 8) % 32 == 0,
        c.subrange(0, 8) == chain_start(),
    ensures
        encrypt_spec(decrypt_spec(c, false), false) == c,
{
    let n = ((c.len() - 8) / 8) as nat;
    let p = decrypt_spec(c, false);
    lemma_chained_plain_blocks(OTHERS_KEY@, c, n, 0);
    assert(zero_padded(p) =~= p);
    lemma_chained_encrypt_decrypt_blocks(OTHERS_KEY@, c, n, n);
    assert(c.subrange(0, c.len() as int) =~= c);
}

proof fn lemma_save_plain_blocks_prefix(key: Seq<u32>, s: Seq<u8>, t: Seq<u8>, n: nat)
    requires
        8 * n <= s.len(),
        8 * n <= t.len(),
        s.subrange(0, 8 * (n as int)) == t.subrange(0, 8 * (n as int)),
    ensures
        save_plain_blocks(key, s, n) == save_plain_blocks(key, t, n),
    decreases n,
{
    if n > 0 {
        let at = 8 * (n - 1);
        assert(s.subrange(0, at) =~= s.subrange(0, 8 * (n as int)).subrange(0, at));
        assert(t.subrange(0, at) =~= t.subrange(0, 8 * (n as int)).subrange(0, at));
        lemma_save_plain_blocks_prefix(key, s, t, (n - 1) as nat);
        assert(s.subrange(at, at + 4) =~= s.subrange(0, 8 * (n as int)).subrange(at, at + 4));
        assert(t.subrange(at, at + 4) =~= t.subrange(0, 8 * (n as int)).subrange(at, at + 4));
        assert(s.subrange(at + 4, at + 8) =~= s.subrange(0, 8 * (n as int)).subrange(at + 4, at + 8));
        assert(t.subrange(at + 4, at + 8) =~= t.subrange(0, 8 * (n as int)).subrange(at + 4, at + 8));
        lemma_le_word_local(s, t, at, at);
        lemma_le_word_local(s, t, at + 4, at + 4);
    }
}

proof fn lemma_save_plain_blocks_split(key: Seq<u32>, a: Seq<u8>, b: Seq<u8>, m: nat)
    requires
        a.len() % 8 == 0,
        8 * m <= b.len(),
    ensures
        save_plain_blocks(key, a + b, a.len() / 8 + m) == save_plain_blocks(key, a, a.len() / 8)
            + save_plain_blocks(key, b, m),
    decreases m,
{
    let na = a.len() / 8;
    if m == 0 {
        assert((a + b).subrange(0, 8 * (na as int)) =~= a.subrange(0, 8 * (na as int)));
        lemma_save_plain_blocks_prefix(key, a + b, a, na);
        assert(save_plain_blocks(key, a, na) + save_plain_blocks(key, b, 0) =~= save_plain_blocks(key, a, na));
    } else {
        let k = (m - 1) as nat;
        lemma_save_plain_blocks_split(key, a, b, k);
        let at = 8 * (k as int);
        assert((a + b).subrange(a.len() + at, a.len() + at + 4) =~= b.subrange(at, at + 4));
        assert((a + b).subrange(a.len() + at + 4, a.len() + at + 8) =~= b.subrange(at + 4, at + 8));
        lemma_le_word_local(a + b, b, a.len() + at, at);
        lemma_le_word_local(a + b, b, a.len() + at + 4, at + 4);
        assert(8 * ((na + m - 1) as int) == a.len() + at);
        assert(save_plain_blocks(key, a + b, na + m) == save_plain_blocks(key, a + b, na + k)
            + decipher_bytes(key, a + b, a.len() + at));
        assert(save_plain_blocks(key, a, na) + save_plain_blocks(key, b, k) + decipher_bytes(key, b, at)
            =~= save_plain_blocks(key, a, na) + (save_plain_blocks(key, b, k) + decipher_bytes(key, b, at)));
    }
}

/// Save files are deciphered block by block: decrypting two pieces, the first
/// of whole blocks, gives the decryptions of the pieces one after the other.
pub proof fn lemma_decrypt_save_blocks_independent(a: Seq<u8>, b: Seq<u8>)
    requires
        a.len() % 8 == 0,
    ensures
        decrypt_spec(a + b, true) == decrypt_spec(a, true) + decrypt_spec(b, true),
{
    if a.len() == 0 {
        assert(a + b =~= b);
        assert(decrypt_spec(a, true) + decrypt_spec(b, true) =~= decrypt_spec(b, true));
    } else if b.len() < 8 {
        lemma_save_plain_blocks_split(SAVE_KEY@, a, b, 0);
        assert((a + b).len() / 8 == a.len() / 8);
    } else {
        lemma_save_plain_blocks_split(SAVE_KEY@, a, b, b.len() / 8);
        assert((a + b).len() / 8 == a.len() / 8 + b.len() / 8);
    }
}

proof fn lemma_keys_are_the_documented_keys()
    ensures
        SAVE_KEY@ == seq![0x64EA432Cu32, 0xF8A35B24u32, 0x018ECD81u32, 0x8326BEACu32],
        OTHERS_KEY@ == seq![0x4FE23C4Au32, 0x80BAC211u32, 0x6917BD3Au32, 0xF0528EBDu32],
{
    assert(SAVE_KEY@ =~= seq![0x64EA432Cu32, 0xF8A35B24u32, 0x018ECD81u32, 0x8326BEACu32]);
    assert(OTHERS_KEY@ =~= seq![0x4FE23C4Au32, 0x80BAC211u32, 0x6917BD3Au32, 0xF0528EBDu32]);
}

/// A decrypted save file is the input's whole blocks, each deciphered on its
/// own with the save key `2C 43 EA 64 24 5B A3 F8 81 CD 8E 01 AC BE 26 83`
/// (read as four little-endian words); an input under 8 bytes gives nothing.
pub proof fn lemma_decrypt_save_uses_save_key(input: Seq<u8>)
    ensures
        input.len() < 8 ==> decrypt_spec(input, true).len() == 0,
        input.len() >= 8 ==> decrypt_spec(input, true).len() == 8 * (input.len() / 8),
        input.len() >= 8 ==> forall|k: int|
            0 <= k < input.len() / 8 ==> #[trigger] decrypt_spec(input, true).subrange(8 * k, 8 * k + 8)
                == word_le_bytes(
                decipher(
                    seq![0x64EA432Cu32, 0xF8A35B24u32, 0x018ECD81u32, 0x8326BEACu32],
                    le_word(input, 8 * k),
                    le_word(input, 8 * k + 4),
                ).0,
            ) + word_le_bytes(
                decipher(
                    seq![0x64EA432Cu32, 0xF8A35B24u32, 0x018ECD81u32, 0x8326BEACu32],
                    le_word(input, 8 * k),
                    le_word(input, 8 * k + 4),
                ).1,
            ),
{
    lemma_keys_are_the_documented_keys();
    if input.len() >= 8 {
        let n = input.len() / 8;
        lemma_save_plain_blocks(SAVE_KEY@, input, n, 0);
        assert forall|k: int| 0 <= k < input.len() / 8 implies #[trigger] decrypt_spec(input, true).subrange(
            8 * k,
            8 * k + 8,
        ) == decipher_bytes(SAVE_KEY@, input, 8 * k) by {
            lemma_save_plain_blocks(SAVE_KEY@, input, n, k);
        }
    }
}

/// A decrypted file of another kind has one block for each whole block of the
/// input after the first: block `k` is the input's block `k + 1` deciphered
/// with the key `4A 3C E2 4F 11 C2 BA 80 3A BD 17 69 BD 8E 52 F0` (read as
/// four little-endian words), XORed with the input's block `k`.
pub proof fn lemma_decrypt_others_uses_others_key(input: Seq<u8>)
    ensures
        input.len() < 8 ==> decrypt_spec(input, false).len() == 0,
        input.len() >= 8 ==> decrypt_spec(input, false).len() == 8 * ((input.len() - 8) / 8),
        input.len() >= 8 ==> forall|k: int|
            0 <= k < (input.len() - 8) / 8 ==> #[trigger] decrypt_spec(input, false).subrange(8 * k, 8 * k + 8)
                == word_le_bytes(
                le_word(input, 8 * k) ^ decipher(
                    seq![0x4FE23C4Au32, 0x80BAC211u32, 0x6917BD3Au32, 0xF0528EBDu32],
                    le_word(input, 8 * k + 8),
                    le_word(input, 8 * k + 12),
                ).0,
            ) + word_le_bytes(
                le_word(input, 8 * k + 4) ^ decipher(
                    seq![0x4FE23C4Au32, 0x80BAC211u32, 0x6917BD3Au32, 0xF0528EBDu32],
                    le_word(input, 8 * k + 8),
                    le_word(input, 8 * k + 12),
                ).1,
            ),
{
    lemma_keys_are_the_documented_keys();
    if input.len() >= 8 {
        let n = ((input.len() - 8) / 8) as nat;
        if n > 0 {
            lemma_chained_plain_blocks(OTHERS_KEY@, input, n, 0);
        }
        assert forall|k: int| 0 <= k < (input.len() - 8) / 8 implies #[trigger] decrypt_spec(input, false).subrange(
            8 * k,
            8 * k + 8,
        ) == chained_plain_block(OTHERS_KEY@, input, 8 * k) by {
            lemma_chained_plain_blocks(OTHERS_KEY@, input, n, k);
        }
    }
}

/// An encrypted save file: the input followed by as many zero bytes as its
/// length modulo 32, cut to whole blocks, each enciphered on its own with the
/// save key `2C 43 EA 64 24 5B A3 F8 81 CD 8E 01 AC BE 26 83`; an input under
/// 8 bytes gives nothing.
pub proof fn lemma_encrypt_save_uses_save_key(input: Seq<u8>)
    ensures
        input.len() < 8 ==> encrypt_spec(input, true).len() == 0,
        ({
            let p = input + Seq::new(input.len() % 32, |i: int| 0u8);
            input.len() >= 8 ==> {
                &&& encrypt_spec(input, true).len() == 8 * (p.len() / 8)
                &&& forall|k: int|
                    0 <= k < p.len() / 8 ==> #[trigger] encrypt_spec(input, true).subrange(8 * k, 8 * k + 8)
                        == word_le_bytes(
                        encipher(
                            seq![0x64EA432Cu32, 0xF8A35B24u32, 0x018ECD81u32, 0x8326BEACu32],
                            le_word(p, 8 * k),
                            le_word(p, 8 * k + 4),
                        ).0,
                    ) + word_le_bytes(
                        encipher(
                            seq![0x64EA432Cu32, 0xF8A35B24u32, 0x018ECD81u32, 0x8326BEACu32],
                            le_word(p, 8 * k),
                            le_word(p, 8 * k + 4),
                        ).1,
                    )
            }
        }),
{
    lemma_keys_are_the_documented_keys();
    if input.len() >= 8 {
        let p = zero_padded(input);
        let n = p.len() / 8;
        lemma_save_cipher_blocks(SAVE_KEY@, p, n, 0);
        assert forall|k: int| 0 <= k < p.len() / 8 implies #[trigger] encrypt_spec(input, true).subrange(
            8 * k,
            8 * k + 8,
        ) == encipher_bytes(SAVE_KEY@, le_word(p, 8 * k), le_word(p, 8 * k + 4)) by {
            lemma_save_cipher_blocks(SAVE_KEY@, p, n, k);
        }
    }
}

/// An encrypted file of another kind: the bytes 2A 00 00 00 D5 FF FF FF, then
/// one block for each whole block of the padded input (the input followed by
/// as many zero bytes as its length modulo 32): block `k` of the input XORed
/// with the output's block before it, enciphered with the key
/// `4A 3C E2 4F 11 C2 BA 80 3A BD 17 69 BD 8E 52 F0`. An input under 8 bytes
/// gives nothing.
pub proof fn lemma_encrypt_others_uses_others_key(input: Seq<u8>)
    ensures
        input.len() < 8 ==> encrypt_spec(input, false).len() == 0,
        ({
            let p = input + Seq::new(input.len() % 32, |i: int| 0u8);
            let c = encrypt_spec(input, false);
            input.len() >= 8 ==> {
                &&& c.len() == 8 + 8 * (p.len() / 8)
                &&& c.subrange(0, 8) == seq![0x2au8, 0u8, 0u8, 0u8, 0xd5u8, 0xffu8, 0xffu8, 0xffu8]
                &&& forall|k: int|
                    0 <= k < p.len() / 8 ==> #[trigger] c.subrange(8 + 8 * k, 16 + 8 * k) == word_le_bytes(
                        encipher(
                            seq![0x4FE23C4Au32, 0x80BAC211u32, 0x6917BD3Au32, 0xF0528EBDu32],
                            le_word(c, 8 * k) ^ le_word(p, 8 * k),
                            le_word(c, 8 * k + 4) ^ le_word(p, 8 * k + 4),
                        ).0,
                    ) + word_le_bytes(
                        encipher(
                            seq![0x4FE23C4Au32, 0x80BAC211u32, 0x6917BD3Au32, 0xF0528EBDu32],
                            le_word(c, 8 * k) ^ le_word(p, 8 * k),
                            le_word(c, 8 * k + 4) ^ le_word(p, 8 * k + 4),
                        ).1,
                    )
            }
        }),
{
    lemma_keys_are_the_documented_keys();
    if input.len() >= 8 {
        let p = zero_padded(input);
        let n = p.len() / 8;
        let c = encrypt_spec(input, false);
        lemma_chained_cipher_blocks_prefix(OTHERS_KEY@, p, 0, n);
        let (w0, w1): (u32, u32) = (42, !42u32);
        assert(((w0 & 0xff) as u8 == 0x2a && ((w0 >> 8) & 0xff) as u8 == 0 && ((w0 >> 16) & 0xff) as u8 == 0
            && ((w0 >> 24) & 0xff) as u8 == 0 && (w1 & 0xff) as u8 == 0xd5 && ((w1 >> 8) & 0xff) as u8 == 0xff
            && ((w1 >> 16) & 0xff) as u8 == 0xff && ((w1 >> 24) & 0xff) as u8 == 0xff)) by (bit_vector)
            requires
                w0 == 42,
                w1 == !42u32,
        ;
        assert(chain_start() =~= seq![0x2au8, 0u8, 0u8, 0u8, 0xd5u8, 0xffu8, 0xffu8, 0xffu8]);
        assert forall|k: int| 0 <= k < p.len() / 8 implies #[trigger] c.subrange(8 + 8 * k, 16 + 8 * k)
            == encipher_bytes(
            OTHERS_KEY@,
            le_word(c, 8 * k) ^ le_word(p, 8 * k),
            le_word(c, 8 * k + 4) ^ le_word(p, 8 * k + 4),
        ) by {
            lemma_chained_cipher_block(OTHERS_KEY@, p, n, k);
        }
    }
}

/// Decrypts a file other than a save file.
pub fn decrypt_others(input: &Vec<u8>) -> (output: Vec<u8>)
    ensures
        output@ == decrypt_spec(input@, false),
{
    decrypt(input, false)
}

/// Encrypts a file other than a save file.
pub fn encrypt_others(input: &Vec<u8>) -> (output: Vec<u8>)
    ensures
        output@ == encrypt_spec(input@, false),
{
    encrypt(input, false)
}

/// Decrypts a save file.
pub fn decrypt_save(input: &Vec<u8>) -> (output: Vec<u8>)
    ensures
        output@ == decrypt_spec(input@, true),
{
    decrypt(input, true)
}

/// Encrypts a save file.
pub fn encrypt_save(input: &Vec<u8>) -> (output: Vec<u8>)
    ensures
        output@ == encrypt_spec(input@, true),
{
    encrypt(input, true)
}

} // verus!
