use tdu_savegame::hash::hash_byte_string;

#[test]
fn checksum_of_empty_is_zero() {
    assert_eq!(hash_byte_string(&Vec::new()), [0, 0, 0, 0]);
}

#[test]
fn checksum_is_crc32_big_endian() {
    assert_eq!(hash_byte_string(&b"123456789".to_vec()), [0xcb, 0xf4, 0x39, 0x26]);
    assert_eq!(hash_byte_string(&b"a".to_vec()), [0xe8, 0xb7, 0xbe, 0x43]);
}
