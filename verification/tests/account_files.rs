use tdu_savegame::hash::hash_byte_string;
use tdu_savegame::util::{patch_commondrt, patch_playersave, read_commondt, PlayerIdentifier};

fn identifier(nickname: &str, email: &str, password: &str) -> PlayerIdentifier {
    PlayerIdentifier {
        nickname: String::from(nickname),
        email: String::from(email),
        password: String::from(password),
    }
}

fn blank(len: usize) -> Vec<u8> {
    (0..len).map(|i| (i % 7 + 0x20) as u8).collect()
}

fn padded(text: &str, width: usize) -> String {
    let mut s = String::from(text);
    while s.len() < width {
        s.push('\0');
    }
    s
}

#[test]
fn read_commondt_fields() {
    let mut c = vec![0u8; 0x10f];
    c[0x91] = 1;
    c[0x98..0x98 + 5].copy_from_slice(b"Katie");
    c[0xba..0xba + 3].copy_from_slice(b"a@b");
    c[0xf0..0xf0 + 2].copy_from_slice(b"pw");
    let (p, online) = read_commondt(&c).unwrap();
    assert_eq!(p.nickname, padded("Katie", 32));
    assert_eq!(p.email, padded("a@b", 52));
    assert_eq!(p.password, padded("pw", 31));
    assert!(online);
    c[0x91] = 2;
    let (_, online) = read_commondt(&c).unwrap();
    assert!(!online);
}

#[test]
fn read_commondt_errors() {
    assert_eq!(read_commondt(&vec![0u8; 0x10e]).unwrap_err(), "commondt is too small");
    let mut c = vec![0u8; 0x10f];
    c[0x98] = 0xff;
    assert_eq!(read_commondt(&c).unwrap_err(), "cannot decode nickname from commondt");
    let mut c = vec![0u8; 0x10f];
    c[0xed] = 0xc3;
    assert_eq!(read_commondt(&c).unwrap_err(), "cannot decode email from commondt");
    let mut c = vec![0u8; 0x10f];
    c[0x10e] = 0x80;
    assert_eq!(read_commondt(&c).unwrap_err(), "cannot decode password from commondt");
}

#[test]
fn patch_commondt_online_then_read() {
    let mut c = blank(0x200);
    let before = c.clone();
    patch_commondrt(&mut c, &identifier("Katie3", "katie@katie.inc", "12345678"), true).unwrap();
    let (p, online) = read_commondt(&c).unwrap();
    assert_eq!(p.nickname, padded("Katie3", 32));
    assert_eq!(p.email, padded("katie@katie.inc", 52));
    assert_eq!(p.password, padded("12345678", 31));
    assert!(online);
    assert_eq!(c[0x91], 1);
    assert_eq!(c[0xb8], 0);
    assert_eq!(c[0x10f], 0);
    assert_eq!(&c[0..0x91], &before[0..0x91]);
    assert_eq!(c[0x92..0x98], before[0x92..0x98]);
    assert_eq!(c[0xb9], before[0xb9]);
    assert_eq!(c[0xef], before[0xef]);
    assert_eq!(&c[0x110..], &before[0x110..]);
}

#[test]
fn patch_commondt_offline_clears_email_and_password() {
    let mut c = blank(0x110);
    patch_commondrt(&mut c, &identifier("Bob", "bob@x", "secret"), false).unwrap();
    let (p, online) = read_commondt(&c).unwrap();
    assert_eq!(p.nickname, padded("Bob", 32));
    assert_eq!(p.email, padded("", 52));
    assert_eq!(p.password, padded("", 31));
    assert!(!online);
    assert_eq!(c[0x91], 0);
}

#[test]
fn patch_commondt_errors_leave_file_unchanged() {
    let long30 = "x".repeat(31);
    let long50 = "y".repeat(51);
    let cases = [
        (0x100usize, identifier("a", "b", "c"), "commondt is too small"),
        (0x10f, identifier("a", "b", "c"), "commondt is too small"),
        (0x10f, identifier(&long30, "b", "c"), "commondt is too small"),
        (0x110, identifier(&long30, "b", "c"), "nickname is longer than 30 bytes"),
        (0x200, identifier("a", &long50, "c"), "email is longer than 50 bytes"),
        (0x200, identifier("a", "b", &long30), "password is longer than 30 bytes"),
    ];
    for (len, p, msg) in cases {
        let mut c = blank(len);
        let before = c.clone();
        assert_eq!(patch_commondrt(&mut c, &p, true).unwrap_err(), msg);
        assert_eq!(c, before);
    }
}

#[test]
fn patch_commondt_counts_bytes_not_characters() {
    // 15 two-byte characters are 30 bytes: accepted; 16 are 32 bytes: refused.
    let mut c = blank(0x120);
    patch_commondrt(&mut c, &identifier(&"é".repeat(15), "", ""), true).unwrap();
    let (p, _) = read_commondt(&c).unwrap();
    assert_eq!(p.nickname, padded(&"é".repeat(15), 32));
    let mut c = blank(0x120);
    assert_eq!(
        patch_commondrt(&mut c, &identifier(&"é".repeat(16), "", ""), true).unwrap_err(),
        "nickname is longer than 30 bytes"
    );
}

#[test]
fn patch_playersave_online() {
    let mut s = blank(0x60);
    let before = s.clone();
    patch_playersave(&mut s, &identifier("Katie3", "katie@katie.inc", "12345678"), true).unwrap();
    assert_eq!(&s[0x8..0xc], &hash_byte_string(&b"Katie3".to_vec()));
    assert_eq!(&s[0xc..0x10], &hash_byte_string(&b"katie@katie.inc".to_vec()));
    assert_eq!(&s[0x10..0x14], &hash_byte_string(&b"12345678".to_vec()));
    assert_eq!(&s[0x1a..0x20], b"Katie3");
    assert!(s[0x20..0x3a].iter().all(|b| *b == 0));
    assert_eq!(&s[0..8], &before[0..8]);
    assert_eq!(&s[0x14..0x1a], &before[0x14..0x1a]);
    assert_eq!(&s[0x3a..], &before[0x3a..]);
}

#[test]
fn patch_playersave_offline() {
    let mut s = blank(0x3a);
    patch_playersave(&mut s, &identifier("Bob", "bob@x", "secret"), false).unwrap();
    assert_eq!(&s[0x8..0xc], &hash_byte_string(&b"Bob".to_vec()));
    assert!(s[0xc..0x14].iter().all(|b| *b == 0));
    assert_eq!(&s[0x1a..0x1d], b"Bob");
}

#[test]
fn patch_playersave_errors() {
    for len in [0x12usize, 0x13, 0x20, 0x39] {
        let mut s = blank(len);
        assert_eq!(patch_playersave(&mut s, &identifier("a", "", ""), true).unwrap_err(), "playersave is too small");
        assert_eq!(s, blank(len));
        assert_eq!(
            patch_playersave(&mut s, &identifier(&"n".repeat(31), "", ""), true).unwrap_err(),
            "playersave is too small"
        );
    }
    let mut s = blank(0x3a);
    assert_eq!(
        patch_playersave(&mut s, &identifier(&"n".repeat(31), "", ""), true).unwrap_err(),
        "nickname is longer than 30 bytes"
    );
    assert_eq!(s, blank(0x3a));
}
