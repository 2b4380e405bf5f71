//! The 64-bit block cipher of the save files: 32 rounds of XTEA on a pair of
//! words, with a key of four words.
use vstd::prelude::*;

verus! {

/// The amount that the running sum goes down by in each enciphering round.
pub const SUM_STEP: u32 = 0x61c88647;

/// The running sum after all 32 enciphering rounds, where deciphering starts.
pub const SUM_AFTER_ROUNDS: u32 = 0xc6ef3720;

/// `a + b` modulo 2^32.
pub open spec fn wadd(a: u32, b: u32) -> u32 {
    vstd::wrapping::u32_specs::wrapping_add(a, b)
}

/// `a - b` modulo 2^32.
pub open spec fn wsub(a: u32, b: u32) -> u32 {
    vstd::wrapping::u32_specs::wrapping_sub(a, b)
}

/// The word mixing of XTEA: `v + ((v >> 5) ^ (v << 4))` modulo 2^32.
pub open spec fn mix(v: u32) -> u32 {
    wadd(v, (v >> 5) ^ (v << 4))
}

/// One enciphering round on the state `(y, z, sum)`.
pub open spec fn enc_round(key: Seq<u32>, t: (u32, u32, u32)) -> (u32, u32, u32) {
    let (y, z, s) = t;
    let y2 = wadd(y, mix(z) ^ wadd(s, key[(s & 3) as int]));
    let s2 = wsub(s, SUM_STEP);
    let z2 = wadd(z, mix(y2) ^ wadd(s2, key[((s2 >> 11) & 3) as int]));
    (y2, z2, s2)
}

/// One deciphering round on the state `(y, z, sum)`.
pub open spec fn dec_round(key: Seq<u32>, t: (u32, u32, u32)) -> (u32, u32, u32) {
    let (y, z, s) = t;
    let z2 = wsub(z, mix(y) ^ wadd(s, key[((s >> 11) & 3) as int]));
    let s2 = wadd(s, SUM_STEP);
    let y2 = wsub(y, mix(z2) ^ wadd(s2, key[(s2 & 3) as int]));
    (y2, z2, s2)
}

/// `n` enciphering rounds.
pub open spec fn enc_rounds(key: Seq<u32>, t: (u32, u32, u32), n: nat) -> (u32, u32, u32)
    decreases n,
{
    if n == 0 {
        t
    } else {
        enc_rounds(key, enc_round(key, t), (n - 1) as nat)
    }
}

/// `n` deciphering rounds.
pub open spec fn dec_rounds(key: Seq<u32>, t: (u32, u32, u32), n: nat) -> (u32, u32, u32)
    decreases n,
{
    if n == 0 {
        t
    } else {
        dec_rounds(key, dec_round(key, t), (n - 1) as nat)
    }
}

/// The enciphered block `(y, z)`: 32 rounds from a sum of zero.
pub open spec fn encipher(key: Seq<u32>, y: u32, z: u32) -> (u32, u32) {
    let t = enc_rounds(key, (y, z, 0), 32);
    (t.0, t.1)
}

/// The deciphered block `(y, z)`: 32 rounds from the final enciphering sum.
pub open spec fn decipher(key: Seq<u32>, y: u32, z: u32) -> (u32, u32) {
    let t = dec_rounds(key, (y, z, SUM_AFTER_ROUNDS), 32);
    (t.0, t.1)
}

/// The running sum after `n` enciphering rounds that start at `s`.
pub open spec fn sum_down(s: u32, n: nat) -> u32
    decreases n,
{
    if n == 0 {
        s
    } else {
        sum_down(wsub(s, SUM_STEP), (n - 1) as nat)
    }
}

proof fn lemma_dec_round_undoes_enc_round(key: Seq<u32>, t: (u32, u32, u32))
    ensures
        dec_round(key, enc_round(key, t)) == t,
{
}

proof fn lemma_enc_rounds_last(key: Seq<u32>, t: (u32, u32, u32), n: nat)
    ensures
        enc_rounds(key, t, n + 1) == enc_round(key, enc_rounds(key, t, n)),
    decreases n,
{
    if n == 0 {
        assert(enc_rounds(key, enc_round(key, t), 0) == enc_round(key, t));
    } else {
        lemma_enc_rounds_last(key, enc_round(key, t), (n - 1) as nat);
    }
}

proof fn lemma_dec_rounds_undo_enc_rounds(key: Seq<u32>, t: (u32, u32, u32), n: nat)
    ensures
        dec_rounds(key, enc_rounds(key, t, n), n) == t,
    decreases n,
{
    if n > 0 {
        let m = (n - 1) as nat;
        lemma_enc_rounds_last(key, t, m);
        lemma_dec_round_undoes_enc_round(key, enc_rounds(key, t, m));
        lemma_dec_rounds_undo_enc_rounds(key, t, m);
    }
}

proof fn lemma_enc_rounds_sum(key: Seq<u32>, t: (u32, u32, u32), n: nat)
    ensures
        enc_rounds(key, t, n).2 == sum_down(t.2, n),
    decreases n,
{
    if n > 0 {
        lemma_enc_rounds_sum(key, enc_round(key, t), (n - 1) as nat);
    }
}

/// Deciphering undoes enciphering, for every key and every block.
pub proof fn lemma_decipher_encipher(key: Seq<u32>, y: u32, z: u32)
    ensures
        decipher(key, encipher(key, y, z).0, encipher(key, y, z).1) == (y, z),
{
    lemma_enc_rounds_sum(key, (y, z, 0), 32);
    assert(sum_down(0, 32) == SUM_AFTER_ROUNDS) by {
        reveal_with_fuel(sum_down, 33);
    }
    lemma_dec_rounds_undo_enc_rounds(key, (y, z, 0), 32);
}

/// The running sum after `n` deciphering rounds that start at `s`.
pub open spec fn sum_up(s: u32, n: nat) -> u32
    decreases n,
{
    if n == 0 {
        s
    } else {
        sum_up(wadd(s, SUM_STEP), (n - 1) as nat)
    }
}

proof fn lemma_enc_round_undoes_dec_round(key: Seq<u32>, t: (u32, u32, u32))
    ensures
        enc_round(key, dec_round(key, t)) == t,
{
}

proof fn lemma_dec_rounds_last(key: Seq<u32>, t: (u32, u32, u32), n: nat)
    ensures
        dec_rounds(key, t, n + 1) == dec_round(key, dec_rounds(key, t, n)),
    decreases n,
{
    if n == 0 {
        assert(dec_rounds(key, dec_round(key, t), 0) == dec_round(key, t));
    } else {
        lemma_dec_rounds_last(key, dec_round(key, t), (n - 1) as nat);
    }
}

proof fn lemma_enc_rounds_undo_dec_rounds(key: Seq<u32>, t: (u32, u32, u32), n: nat)
    ensures
        enc_rounds(key, dec_rounds(key, t, n), n) == t,
    decreases n,
{
    if n > 0 {
        let m = (n - 1) as nat;
        lemma_dec_rounds_last(key, t, m);
        lemma_enc_round_undoes_dec_round(key, dec_rounds(key, t, m));
        lemma_enc_rounds_undo_dec_rounds(key, t, m);
    }
}

proof fn lemma_dec_rounds_sum(key: Seq<u32>, t: (u32, u32, u32), n: nat)
    ensures
        dec_rounds(key, t, n).2 == sum_up(t.2, n),
    decreases n,
{
    if n > 0 {
        lemma_dec_rounds_sum(key, dec_round(key, t), (n - 1) as nat);
    }
}

/// Enciphering undoes deciphering, for every key and every block.
pub proof fn lemma_encipher_decipher(key: Seq<u32>, y: u32, z: u32)
    ensures
        encipher(key, decipher(key, y, z).0, decipher(key, y, z).1) == (y, z),
{
    lemma_dec_rounds_sum(key, (y, z, SUM_AFTER_ROUNDS), 32);
    assert(sum_up(SUM_AFTER_ROUNDS, 32) == 0) by {
        reveal_with_fuel(sum_up, 33);
    }
    lemma_enc_rounds_undo_dec_rounds(key, (y, z, SUM_AFTER_ROUNDS), 32);
}

/// The rounds are those of XTEA, written in arithmetic modulo 2^32: the mix of
/// a word `v` is `v + ((v / 32) XOR (16 v))`; enciphering adds to `y` the mix
/// of `z` XOR (sum + key word `sum mod 4`), moves the sum on by the XTEA delta
/// 0x9E3779B9, then adds to `z` the mix of the new `y` XOR (sum + key word
/// `(sum / 2048) mod 4`); deciphering subtracts the same amounts in reverse
/// order. A block takes 32 rounds; enciphering starts with a sum of 0 and
/// deciphering with 32 times the delta, 0xC6EF3720.
pub proof fn lemma_rounds_are_xtea(key: Seq<u32>, y: u32, z: u32, s: u32)
    ensures
        mix(z) == ((z + ((z / 32) ^ ((z * 16) % 0x1_0000_0000) as u32)) % 0x1_0000_0000) as u32,
        ({
            let s2 = ((s + 0x9E3779B9) % 0x1_0000_0000) as u32;
            let y2 = ((y + (mix(z) ^ ((s + key[(s % 4) as int]) % 0x1_0000_0000) as u32)) % 0x1_0000_0000) as u32;
            let z2 = ((z + (mix(y2) ^ ((s2 + key[((s2 / 2048) % 4) as int]) % 0x1_0000_0000) as u32))
                % 0x1_0000_0000) as u32;
            enc_round(key, (y, z, s)) == (y2, z2, s2)
        }),
        ({
            let s2 = ((s + 0x1_0000_0000 - 0x9E3779B9) % 0x1_0000_0000) as u32;
            let z2 = ((z + 0x1_0000_0000 - (mix(y) ^ ((s + key[((s / 2048) % 4) as int]) % 0x1_0000_0000) as u32))
                % 0x1_0000_0000) as u32;
            let y2 = ((y + 0x1_0000_0000 - (mix(z2) ^ ((s2 + key[(s2 % 4) as int]) % 0x1_0000_0000) as u32))
                % 0x1_0000_0000) as u32;
            dec_round(key, (y, z, s)) == (y2, z2, s2)
        }),
        encipher(key, y, z) == (enc_rounds(key, (y, z, 0), 32).0, enc_rounds(key, (y, z, 0), 32).1),
        decipher(key, y, z) == (dec_rounds(key, (y, z, 0xC6EF3720), 32).0, dec_rounds(
            key,
            (y, z, 0xC6EF3720),
            32,
        ).1),
{
    lemma_mix(z);
    lemma_mix(y);
    let s2 = wsub(s, SUM_STEP);
    let s3 = wadd(s, SUM_STEP);
    lemma_wsub(s, SUM_STEP);
    lemma_wadd(s, SUM_STEP);
    lemma_key_index(s);
    lemma_key_index(s2);
    lemma_key_index(s3);
    let y2 = wadd(y, mix(z) ^ wadd(s, key[(s & 3) as int]));
    lemma_wadd(s, key[(s & 3) as int]);
    lemma_wadd(y, mix(z) ^ wadd(s, key[(s & 3) as int]));
    lemma_mix(y2);
    lemma_wadd(s2, key[((s2 >> 11) & 3) as int]);
    lemma_wadd(z, mix(y2) ^ wadd(s2, key[((s2 >> 11) & 3) as int]));
    assert(s2 == ((s + 0x9E3779B9) % 0x1_0000_0000) as u32);
    let z2 = wsub(z, mix(y) ^ wadd(s, key[((s >> 11) & 3) as int]));
    lemma_wadd(s, key[((s >> 11) & 3) as int]);
    lemma_wsub(z, mix(y) ^ wadd(s, key[((s >> 11) & 3) as int]));
    lemma_mix(z2);
    lemma_wadd(s3, key[(s3 & 3) as int]);
    lemma_wsub(y, mix(z2) ^ wadd(s3, key[(s3 & 3) as int]));
    assert(s3 == ((s + 0x1_0000_0000 - 0x9E3779B9) % 0x1_0000_0000) as u32);
}

proof fn lemma_wadd(a: u32, b: u32)
    ensures
        wadd(a, b) == ((a + b) % 0x1_0000_0000) as u32,
{
}

proof fn lemma_wsub(a: u32, b: u32)
    ensures
        wsub(a, b) == ((a + 0x1_0000_0000 - b) % 0x1_0000_0000) as u32,
{
}

proof fn lemma_mix(v: u32)
    ensures
        mix(v) == ((v + ((v / 32) ^ ((v * 16) % 0x1_0000_0000) as u32)) % 0x1_0000_0000) as u32,
{
    assert(v >> 5 == v / 32 && v << 4 == ((v * 16) % 0x1_0000_0000) as u32) by (bit_vector);
    lemma_wadd(v, (v >> 5) ^ (v << 4));
}

proof fn lemma_key_index(s: u32)
    ensures
        s & 3 == s % 4,
        (s >> 11) & 3 == (s / 2048) % 4,
{
    assert(s & 3 == s % 4 && (s >> 11) & 3 == (s / 2048) % 4) by (bit_vector);
}

/// Enciphers the block `(y, z)` with `key`.
pub fn encipher_block(key: &[u32; 4], y: u32, z: u32) -> (r: (u32, u32))
    ensures
        r == encipher(key@, y, z),
{
    let ghost start = (y, z, 0u32);
    let mut y = y;
    let mut z = z;
    let mut sum: u32 = 0;
    let mut round: usize = 0;
    while round < 32
        invariant
            round <= 32,
            enc_rounds(key@, (y, z, sum), (32 - round) as nat) == enc_rounds(key@, start, 32),
        decreases 32 - round,
    {
        let ghost before = (y, z, sum);
        assert(sum & 3 < 4) by (bit_vector);
        y = y.wrapping_add(z.wrapping_add((z >> 5) ^ (z << 4)) ^ sum.wrapping_add(key[(sum & 3) as usize]));
        sum = sum.wrapping_sub(SUM_STEP);
        assert((sum >> 11) & 3 < 4) by (bit_vector);
        z = z.wrapping_add(y.wrapping_add((y >> 5) ^ (y << 4)) ^ sum.wrapping_add(key[((sum >> 11) & 3) as usize]));
        assert((y, z, sum) == enc_round(key@, before));
        round = round + 1;
    }
    (y, z)
}

/// Deciphers the block `(y, z)` with `key`.
pub fn decipher_block(key: &[u32; 4], y: u32, z: u32) -> (r: (u32, u32))
    ensures
        r == decipher(key@, y, z),
{
    let ghost start = (y, z, SUM_AFTER_ROUNDS);
    let mut y = y;
    let mut z = z;
    let mut sum: u32 = SUM_AFTER_ROUNDS;
    let mut round: usize = 0;
    while round < 32
        invariant
            round <= 32,
            dec_rounds(key@, (y, z, sum), (32 - round) as nat) == dec_rounds(key@, start, 32),
        decreases 32 - round,
    {
        let ghost before = (y, z, sum);
        assert((sum >> 11) & 3 < 4) by (bit_vector);
        z = z.wrapping_sub(y.wrapping_add((y >> 5) ^ (y << 4)) ^ sum.wrapping_add(key[((sum >> 11) & 3) as usize]));
        sum = sum.wrapping_add(SUM_STEP);
        assert(sum & 3 < 4) by (bit_vector);
        y = y.wrapping_sub(z.wrapping_add((z >> 5) ^ (z << 4)) ^ sum.wrapping_add(key[(sum & 3) as usize]));
        assert((y, z, sum) == dec_round(key@, before));
        round = round + 1;
    }
    (y, z)
}

} // verus!
