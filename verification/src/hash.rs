//! The checksum that a player save keeps of the nickname, the email and the
//! password of its account: CRC-32 (reflected polynomial `0xEDB88320`,
//! starting register `0xFFFFFFFF`, final complement), written most
//! significant byte first.
use vstd::prelude::*;
use crate::bytes::word_be_bytes;

verus! {

/// The reflected CRC-32 polynomial.
pub const CRC_POLY: u32 = 0xedb88320;

/// One bit step of the table computation.
pub open spec fn crc_bit_step(c: u32) -> u32 {
    if c & 1 == 0 {
        c >> 1
    } else {
        (c >> 1) ^ CRC_POLY
    }
}

/// `n` bit steps.
pub open spec fn crc_bit_steps(c: u32, n: nat) -> u32
    decreases n,
{
    if n == 0 {
        c
    } else {
        crc_bit_step(crc_bit_steps(c, (n - 1) as nat))
    }
}

/// Entry `i` of the byte table: eight bit steps from `i`.
pub open spec fn crc_table_entry(i: u32) -> u32 {
    crc_bit_steps(i, 8)
}

/// The register after one more byte.
pub open spec fn crc_update(c: u32, b: u8) -> u32 {
    (c >> 8) ^ crc_table_entry((b as u32) ^ (c & 0xff))
}

/// The register after all of `bytes`.
pub open spec fn crc_register(bytes: Seq<u8>) -> u32
    decreases bytes.len(),
{
    if bytes.len() == 0 {
        0xffffffff
    } else {
        crc_update(crc_register(bytes.drop_last()), bytes.last())
    }
}

/// The checksum of `bytes`: the complemented register, most significant byte first.
pub open spec fn hash_spec(bytes: Seq<u8>) -> Seq<u8> {
    word_be_bytes(!crc_register(bytes))
}

/// The checksum of no bytes is zero: an empty email or password has the
/// checksum 00 00 00 00.
pub proof fn lemma_hash_of_empty()
    ensures
        hash_spec(seq![]) == seq![0u8, 0u8, 0u8, 0u8],
{
    let w: u32 = !0xffffffffu32;
    assert(((w >> 24) & 0xff) == 0 && ((w >> 16) & 0xff) == 0 && ((w >> 8) & 0xff) == 0 && (w & 0xff)
        == 0) by (bit_vector)
        requires
            w == !0xffffffffu32,
    ;
    assert(crc_register(seq![]) == 0xffffffff);
    assert(hash_spec(seq![]) =~= seq![0u8, 0u8, 0u8, 0u8]);
}

/// The checksum is CRC-32 with the reflected polynomial 0xEDB88320: each
/// table entry is eight steps that shift right and, where the bit shifted out
/// is 1, XOR the polynomial; the register starts at 0xFFFFFFFF, takes each byte
/// by shifting right 8 and XORing the entry of the byte XOR its low 8 bits;
/// the checksum is the complemented register, most significant byte first.
pub proof fn lemma_hash_is_crc32(bytes: Seq<u8>, c: u32, x: u8)
    ensures
        crc_bit_step(c) == (if c % 2 == 0 { c / 2 } else { (c / 2) ^ 0xedb88320u32 }),
        crc_table_entry((x as u32)) == crc_bit_step(crc_bit_step(crc_bit_step(crc_bit_step(crc_bit_step(
            crc_bit_step(crc_bit_step(crc_bit_step((x as u32)))),
        ))))),
        crc_register(seq![]) == 0xffffffffu32,
        crc_register(bytes.push(x)) == (crc_register(bytes) / 256) ^ crc_table_entry(
            (x as u32) ^ (crc_register(bytes) % 256),
        ),
        hash_spec(bytes) == crate::bytes::word_be_bytes(!crc_register(bytes)),
{
    assert((c & 1 == 0) == (c % 2 == 0) && c >> 1 == c / 2) by (bit_vector);
    let r = crc_register(bytes);
    assert(r >> 8 == r / 256 && r & 0xff == r % 256) by (bit_vector);
    assert(bytes.push(x).drop_last() =~= bytes);
    reveal_with_fuel(crc_bit_steps, 9);
}

fn crc_table_value(i: u32) -> (v: u32)
    ensures
        v == crc_table_entry(i),
{
    let mut c: u32 = i;
    let mut step: usize = 0;
    while step < 8
        invariant
            step <= 8,
            c == crc_bit_steps(i, step as nat),
        decreases 8 - step,
    {
        if (c & 1) == 0 {
            c = c >> 1;
        } else {
            c = (c >> 1) ^ CRC_POLY;
        }
        step = step + 1;
    }
    c
}

/// The checksum of `to_be_hashed`.
pub fn hash_byte_string(to_be_hashed: &Vec<u8>) -> (digest: [u8; 4])
    ensures
        digest@ == hash_spec(to_be_hashed@),
{
    let mut pad: Vec<u32> = Vec::new();
    let mut entry: u32 = 0;
    while entry < 0x100
        invariant
            entry <= 0x100,
            pad@.len() == entry,
            forall|j: int| 0 <= j < entry ==> pad@[j] == crc_table_entry(j as u32),
        decreases 0x100 - entry,
    {
        pad.push(crc_table_value(entry));
        entry = entry + 1;
    }
    let mut register: u32 = 0xffffffff;
    let mut i: usize = 0;
    while i < to_be_hashed.len()
        invariant
            i <= to_be_hashed@.len(),
            pad@.len() == 0x100,
            forall|j: int| 0 <= j < 0x100 ==> pad@[j] == crc_table_entry(j as u32),
            register == crc_register(to_be_hashed@.subrange(0, i as int)),
        decreases to_be_hashed@.len() - i,
    {
        let byte: u8 = to_be_hashed[i];
        let index: u32 = (byte as u32) ^ (register & 0xff);
        assert(((byte as u32) ^ (register & 0xff)) < 0x100) by (bit_vector)
            requires
                byte < 0x100,
        ;
        let ghost done = to_be_hashed@.subrange(0, i as int);
        let ghost next = to_be_hashed@.subrange(0, i + 1);
        assert(next.drop_last() =~= done);
        register = (register >> 8) ^ pad[index as usize];
        i = i + 1;
    }
    assert(to_be_hashed@.subrange(0, i as int) =~= to_be_hashed@);
    let value: u32 = !register;
    let digest: [u8; 4] = [
        ((value >> 24) & 0xff) as u8,
        ((value >> 16) & 0xff) as u8,
        ((value >> 8) & 0xff) as u8,
        (value & 0xff) as u8,
    ];
    assert(digest@ =~= hash_spec(to_be_hashed@));
    digest
}

} // verus!
