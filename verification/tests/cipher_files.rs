use tdu_savegame::cipher::{decipher_block, encipher_block};
use tdu_savegame::tdudec::{decrypt_others, decrypt_save, encrypt_others, encrypt_save, OTHERS_KEY, SAVE_KEY};

fn sample(len: usize) -> Vec<u8> {
    (0..len).map(|i| ((i * 37 + 11) % 251) as u8).collect()
}

#[test]
fn xtea_known_answer() {
    let key: [u32; 4] = [0x00010203, 0x04050607, 0x08090a0b, 0x0c0d0e0f];
    let (y, z) = encipher_block(&key, 0x41424344, 0x45464748);
    assert_eq!((y, z), (0x497df3d0, 0x72612cb5));
    assert_eq!(decipher_block(&key, y, z), (0x41424344, 0x45464748));
}

#[test]
fn block_round_trip_with_file_keys() {
    for (y, z) in [(0u32, 0u32), (1, 2), (0xffff_ffff, 0x1234_5678)] {
        let e = encipher_block(&SAVE_KEY, y, z);
        assert_ne!(e, (y, z));
        assert_eq!(decipher_block(&SAVE_KEY, e.0, e.1), (y, z));
        let e = encipher_block(&OTHERS_KEY, y, z);
        assert_eq!(decipher_block(&OTHERS_KEY, e.0, e.1), (y, z));
    }
}

#[test]
fn short_inputs_give_nothing() {
    let x = sample(7);
    assert!(encrypt_save(&x).is_empty());
    assert!(encrypt_others(&x).is_empty());
    assert!(decrypt_save(&x).is_empty());
    assert!(decrypt_others(&x).is_empty());
    assert!(decrypt_save(&Vec::new()).is_empty());
}

#[test]
fn save_round_trip_on_whole_blocks() {
    for len in [32usize, 64, 96, 320] {
        let x = sample(len);
        let c = encrypt_save(&x);
        assert_eq!(c.len(), len);
        assert_ne!(c, x);
        assert_eq!(decrypt_save(&c), x);
    }
}

#[test]
fn others_round_trip_on_whole_blocks() {
    for len in [32usize, 64, 128] {
        let x = sample(len);
        let c = encrypt_others(&x);
        assert_eq!(c.len(), len + 8);
        assert_eq!(&c[0..8], &[42u8, 0, 0, 0, 0xd5, 0xff, 0xff, 0xff]);
        assert_eq!(decrypt_others(&c), x);
    }
}

#[test]
fn padding_is_length_modulo_32() {
    // 9 bytes are padded with 9 zeros to 18 and cut to 2 blocks.
    let x = sample(9);
    let c = encrypt_save(&x);
    assert_eq!(c.len(), 16);
    let mut expected = x.clone();
    expected.extend_from_slice(&[0u8; 7]);
    assert_eq!(decrypt_save(&c), expected);
    // 40 bytes are padded with 8 zeros to 48.
    let x = sample(40);
    let c = encrypt_others(&x);
    assert_eq!(c.len(), 56);
    let mut expected = x.clone();
    expected.extend_from_slice(&[0u8; 8]);
    assert_eq!(decrypt_others(&c), expected);
    // 33 bytes are padded with 1 zero to 34 and cut to 4 blocks: the last byte is lost.
    let x = sample(33);
    let c = encrypt_save(&x);
    assert_eq!(c.len(), 32);
    assert_eq!(decrypt_save(&c), x[0..32].to_vec());
}

#[test]
fn decrypt_drops_partial_block() {
    let x = sample(32);
    let mut c = encrypt_save(&x);
    c.extend_from_slice(&[1, 2, 3]);
    assert_eq!(decrypt_save(&c), x);
    let mut c = encrypt_others(&x);
    c.push(9);
    assert_eq!(decrypt_others(&c), x);
}

#[test]
fn save_blocks_are_independent() {
    let x = sample(64);
    let mut y = x.clone();
    y[60] ^= 1;
    let cx = encrypt_save(&x);
    let cy = encrypt_save(&y);
    assert_eq!(&cx[0..56], &cy[0..56]);
    assert_ne!(&cx[56..64], &cy[56..64]);
}

#[test]
fn chained_blocks_depend_on_earlier_blocks() {
    let x = sample(64);
    let mut y = x.clone();
    y[0] ^= 1;
    let cx = encrypt_others(&x);
    let cy = encrypt_others(&y);
    assert_eq!(&cx[0..8], &cy[0..8]);
    assert_ne!(&cx[64..72], &cy[64..72]);
}

#[test]
fn encrypting_a_decrypted_save_gives_it_back() {
    for len in [32usize, 64, 320] {
        let c = sample(len);
        assert_eq!(encrypt_save(&decrypt_save(&c)), c);
    }
}

#[test]
fn encrypting_a_decrypted_chained_file_gives_it_back() {
    for len in [40usize, 72, 136] {
        let mut c = sample(len);
        c[0..8].copy_from_slice(&[42u8, 0, 0, 0, 0xd5, 0xff, 0xff, 0xff]);
        assert_eq!(encrypt_others(&decrypt_others(&c)), c);
    }
}

#[test]
fn save_decryption_splits_at_block_boundaries() {
    let a = sample(24);
    let b: Vec<u8> = sample(43).into_iter().rev().collect();
    let mut ab = a.clone();
    ab.extend_from_slice(&b);
    let mut expected = decrypt_save(&a);
    expected.extend_from_slice(&decrypt_save(&b));
    assert_eq!(decrypt_save(&ab), expected);
    let mut short = a.clone();
    short.extend_from_slice(&[1, 2, 3]);
    assert_eq!(decrypt_save(&short), decrypt_save(&a));
}
