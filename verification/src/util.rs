//! The account file (`commondt.sav`), the player save (`playersave`) and the
//! profile list (`ProfileList.dat`), all as decrypted bytes.
use vstd::prelude::*;
use vstd::utf8::{decode_utf8, encode_utf8, encode_utf8_decode_utf8, encode_utf8_valid_utf8, valid_utf8};
use crate::text::{lemma_encode_utf8_append, lemma_encode_utf8_clean, lemma_encode_utf8_nuls, nuls, string_from_utf8};
use crate::hash::{hash_byte_string, hash_spec};

verus! {

/// The nickname, email and password of a game account.
#[derive(Debug)]
pub struct PlayerIdentifier {
    pub nickname: String,
    pub email: String,
    pub password: String,
}

/// Offset of the online flag in the account file (1 is online).
pub const ONLINE_FLAG_AT: usize = 0x91;

/// The nickname field of an account file.
pub open spec fn nickname_field(c: Seq<u8>) -> Seq<u8> {
    c.subrange(0x98, 0xb8)
}

/// The email field of an account file.
pub open spec fn email_field(c: Seq<u8>) -> Seq<u8> {
    c.subrange(0xba, 0xee)
}

/// The password field of an account file.
pub open spec fn password_field(c: Seq<u8>) -> Seq<u8> {
    c.subrange(0xf0, 0x10f)
}

/// The error that reading the account file `c` gives, if any.
pub open spec fn read_commondt_error(c: Seq<u8>) -> Option<&'static str> {
    if c.len() < 0x10f {
        Some("commondt is too small")
    } else if !valid_utf8(nickname_field(c)) {
        Some("cannot decode nickname from commondt")
    } else if !valid_utf8(email_field(c)) {
        Some("cannot decode email from commondt")
    } else if !valid_utf8(password_field(c)) {
        Some("cannot decode password from commondt")
    } else {
        None
    }
}

/// Copies `v[lo..hi]`.
fn copy_range(v: &Vec<u8>, lo: usize, hi: usize) -> (r: Vec<u8>)
    requires
        lo <= hi <= v@.len(),
    ensures
        r@ == v@.subrange(lo as int, hi as int),
{
    vstd::slice::slice_to_vec(vstd::slice::slice_subrange(v.as_slice(), lo, hi))
}

/// Reads the account and the online flag from a decrypted account file.
/// Each text field keeps the zero bytes that pad it.
pub fn read_commondt(commondt: &Vec<u8>) -> (r: Result<(PlayerIdentifier, bool), &'static str>)
    ensures
        match read_commondt_error(commondt@) {
            Some(msg) => r matches Err(e) && e@ == msg@,
            None => r matches Ok((p, online)) && p.nickname@ == decode_utf8(nickname_field(commondt@))
                && p.email@ == decode_utf8(email_field(commondt@)) && p.password@ == decode_utf8(
                password_field(commondt@),
            ) && online == (commondt@[0x91] == 1),
        },
{
    if commondt.len() < 0x10f {
        return Err("commondt is too small");
    }
    let nickname = match string_from_utf8(copy_range(commondt, 0x98, 0xb8)) {
        Some(s) => s,
        None => {
            return Err("cannot decode nickname from commondt");
        },
    };
    let email = match string_from_utf8(copy_range(commondt, 0xba, 0xee)) {
        Some(s) => s,
        None => {
            return Err("cannot decode email from commondt");
        },
    };
    let password = match string_from_utf8(copy_range(commondt, 0xf0, 0x10f)) {
        Some(s) => s,
        None => {
            return Err("cannot decode password from commondt");
        },
    };
    let online = if commondt[ONLINE_FLAG_AT] == 1 {
        true
    } else {
        false
    };
    Ok((PlayerIdentifier { nickname: nickname, email: email, password: password }, online))
}

/// Sets `v[lo..hi]` to zero.
fn fill_zero(v: &mut Vec<u8>, lo: usize, hi: usize)
    requires
        lo <= hi <= old(v)@.len(),
    ensures
        final(v)@.len() == old(v)@.len(),
        forall|j: int|
            0 <= j < old(v)@.len() ==> #[trigger] final(v)@[j] == (if lo <= j < hi {
                0u8
            } else {
                old(v)@[j]
            }),
{
    let mut i: usize = lo;
    while i < hi
        invariant
            lo <= i <= hi,
            hi <= v@.len(),
            v@.len() == old(v)@.len(),
            forall|j: int|
                0 <= j < old(v)@.len() ==> #[trigger] v@[j] == (if lo <= j < i {
                    0u8
                } else {
                    old(v)@[j]
                }),
        decreases hi - i,
    {
        v[i] = 0;
        i = i + 1;
    }
}

/// Copies `src` into `v` from `at` on.
fn write_bytes(v: &mut Vec<u8>, at: usize, src: &[u8])
    requires
        at + src@.len() <= old(v)@.len(),
    ensures
        final(v)@.len() == old(v)@.len(),
        forall|j: int|
            0 <= j < old(v)@.len() ==> #[trigger] final(v)@[j] == (if at <= j < at + src@.len() {
                src@[j - at]
            } else {
                old(v)@[j]
            }),
{
    let mut i: usize = 0;
    while i < src.len()
        invariant
            i <= src@.len(),
            at + src@.len() <= v.len(),
            v@.len() == old(v)@.len(),
            forall|j: int|
                0 <= j < old(v)@.len() ==> #[trigger] v@[j] == (if at <= j < at + i {
                    src@[j - at]
                } else {
                    old(v)@[j]
                }),
        decreases src@.len() - i,
    {
        v[i + at] = src[i];
        i = i + 1;
    }
}

/// The error that patching an account file of length `len` with text fields of
/// these byte lengths gives, if any. The file must hold the whole password
/// field, which ends at 0x10f.
pub open spec fn patch_commondt_error(len: nat, nickname_len: nat, email_len: nat, password_len: nat) -> Option<&'static str> {
    if len < 0x110 {
        Some("commondt is too small")
    } else if nickname_len > 30 {
        Some("nickname is longer than 30 bytes")
    } else if email_len > 50 {
        Some("email is longer than 50 bytes")
    } else if password_len > 30 {
        Some("password is longer than 30 bytes")
    } else {
        None
    }
}

/// The account file `c` after a patch: the online flag set from `online`; the
/// nickname field cleared and given `nickname`; the email and password fields
/// cleared and, when online, given `email` and `password`; all else unchanged.
pub open spec fn patched_commondt(c: Seq<u8>, nickname: Seq<u8>, email: Seq<u8>, password: Seq<u8>, online: bool) -> Seq<u8> {
    Seq::new(
        c.len(),
        |i: int|
            if i == 0x91 {
                if online {
                    1u8
                } else {
                    0u8
                }
            } else if 0x98 <= i < 0x98 + nickname.len() {
                nickname[i - 0x98]
            } else if 0x98 <= i < 0xb9 {
                0u8
            } else if online && 0xba <= i < 0xba + email.len() {
                email[i - 0xba]
            } else if 0xba <= i < 0xef {
                0u8
            } else if online && 0xf0 <= i < 0xf0 + password.len() {
                password[i - 0xf0]
            } else if 0xf0 <= i < 0x110 {
                0u8
            } else {
                c[i]
            },
    )
}

/// Writes the account of `player_identifier` and the online flag into a
/// decrypted account file. Email and password are written only when online.
pub fn patch_commondrt(commondt: &mut Vec<u8>, player_identifier: &PlayerIdentifier, online: bool) -> (r: Result<(), &'static str>)
    ensures
        match patch_commondt_error(
            old(commondt)@.len(),
            encode_utf8(player_identifier.nickname@).len(),
            encode_utf8(player_identifier.email@).len(),
            encode_utf8(player_identifier.password@).len(),
        ) {
            Some(msg) => r matches Err(e) && e@ == msg@ && final(commondt)@ == old(commondt)@,
            None => r is Ok && final(commondt)@ == patched_commondt(
                old(commondt)@,
                encode_utf8(player_identifier.nickname@),
                encode_utf8(player_identifier.email@),
                encode_utf8(player_identifier.password@),
                online,
            ),
        },
{
    if commondt.len() < 0x110 {
        return Err("commondt is too small");
    }
    let nickname_bytes: &[u8] = player_identifier.nickname.as_str().as_bytes();
    let email_bytes: &[u8] = player_identifier.email.as_str().as_bytes();
    let password_bytes: &[u8] = player_identifier.password.as_str().as_bytes();
    if nickname_bytes.len() > 30 {
        return Err("nickname is longer than 30 bytes");
    }
    if email_bytes.len() > 50 {
        return Err("email is longer than 50 bytes");
    }
    if password_bytes.len() > 30 {
        return Err("password is longer than 30 bytes");
    }
    let ghost start = commondt@;
    fill_zero(commondt, 0x98, 0xb9);
    fill_zero(commondt, 0xba, 0xef);
    fill_zero(commondt, 0xf0, 0x110);
    if online {
        commondt[ONLINE_FLAG_AT] = 1;
    } else {
        commondt[ONLINE_FLAG_AT] = 0;
    }
    write_bytes(commondt, 0x98, nickname_bytes);
    if !online {
        assert(commondt@ =~= patched_commondt(start, nickname_bytes@, email_bytes@, password_bytes@, online));
        return Ok(());
    }
    write_bytes(commondt, 0xba, email_bytes);
    write_bytes(commondt, 0xf0, password_bytes);
    assert(commondt@ =~= patched_commondt(start, nickname_bytes@, email_bytes@, password_bytes@, online));
    Ok(())
}

/// The error that patching a player save of length `len` with a nickname of
/// `nickname_len` bytes gives, if any. The save must hold the whole nickname
/// field, which ends at 0x39.
pub open spec fn patch_playersave_error(len: nat, nickname_len: nat) -> Option<&'static str> {
    if len < 0x3a {
        Some("playersave is too small")
    } else if nickname_len > 30 {
        Some("nickname is longer than 30 bytes")
    } else {
        None
    }
}

/// The player save `s` after a patch: the checksum of the nickname at 0x8;
/// when online, the checksums of the email at 0xc and of the password at 0x10,
/// else zeros there; the nickname field at 0x1a cleared and given `nickname`;
/// all else unchanged.
pub open spec fn patched_playersave(s: Seq<u8>, nickname: Seq<u8>, email: Seq<u8>, password: Seq<u8>, online: bool) -> Seq<u8> {
    Seq::new(
        s.len(),
        |i: int|
            if 0x8 <= i < 0xc {
                hash_spec(nickname)[i - 0x8]
            } else if 0xc <= i < 0x10 {
                if online {
                    hash_spec(email)[i - 0xc]
                } else {
                    0u8
                }
            } else if 0x10 <= i < 0x14 {
                if online {
                    hash_spec(password)[i - 0x10]
                } else {
                    0u8
                }
            } else if 0x1a <= i < 0x1a + nickname.len() {
                nickname[i - 0x1a]
            } else if 0x1a <= i < 0x3a {
                0u8
            } else {
                s[i]
            },
    )
}

/// Binds a decrypted player save to the account of `player_identifier`: writes
/// the checksums of its fields and its nickname.
pub fn patch_playersave(playersave: &mut Vec<u8>, player_identifier: &PlayerIdentifier, online: bool) -> (r: Result<(), &'static str>)
    ensures
        match patch_playersave_error(old(playersave)@.len(), encode_utf8(player_identifier.nickname@).len()) {
            Some(msg) => r matches Err(e) && e@ == msg@ && final(playersave)@ == old(playersave)@,
            None => r is Ok && final(playersave)@ == patched_playersave(
                old(playersave)@,
                encode_utf8(player_identifier.nickname@),
                encode_utf8(player_identifier.email@),
                encode_utf8(player_identifier.password@),
                online,
            ),
        },
{
    if playersave.len() < 0x3a {
        return Err("playersave is too small");
    }
    let nickname_bytes: Vec<u8> = vstd::slice::slice_to_vec(player_identifier.nickname.as_str().as_bytes());
    let email_bytes: Vec<u8> = vstd::slice::slice_to_vec(player_identifier.email.as_str().as_bytes());
    let password_bytes: Vec<u8> = vstd::slice::slice_to_vec(player_identifier.password.as_str().as_bytes());
    if nickname_bytes.len() > 30 {
        return Err("nickname is longer than 30 bytes");
    }
    let ghost start = playersave@;
    let nickname_digest: [u8; 4] = hash_byte_string(&nickname_bytes);
    write_bytes(playersave, 0x8, nickname_digest.as_slice());
    if online {
        let email_digest: [u8; 4] = hash_byte_string(&email_bytes);
        write_bytes(playersave, 0xc, email_digest.as_slice());
        let password_digest: [u8; 4] = hash_byte_string(&password_bytes);
        write_bytes(playersave, 0x10, password_digest.as_slice());
    } else {
        fill_zero(playersave, 0xc, 0x14);
    }
    fill_zero(playersave, 0x1a, 0x3a);
    write_bytes(playersave, 0x1a, nickname_bytes.as_slice());
    assert(playersave@ =~= patched_playersave(start, nickname_bytes@, email_bytes@, password_bytes@, online));
    Ok(())
}

/// Where a scan of a profile list ends: with the names it found, at a name
/// that is not valid UTF-8, or at the end of the bytes with no end mark.
pub enum ProfileScan {
    Complete(Seq<Seq<u8>>),
    BadName,
    Unterminated,
}

/// The name held so far, as it stands when the byte `mark` closes it: a zero
/// byte also drops the byte before it (the low byte of the next name's length).
pub open spec fn closed_name(current: Seq<u8>, mark: u8) -> Seq<u8> {
    if mark == 0 && current.len() > 0 {
        current.drop_last()
    } else {
        current
    }
}

/// The names before `scan` in front of what `scan` found.
pub open spec fn scan_after(names: Seq<Seq<u8>>, scan: ProfileScan) -> ProfileScan {
    match scan {
        ProfileScan::Complete(rest) => ProfileScan::Complete(names + rest),
        other => other,
    }
}

/// Scans `b` from `i` on, with `current` the bytes of the name held so far.
/// A byte 0 or 0xff closes the name; 0xff ends the list.
pub open spec fn scan_profile_names(b: Seq<u8>, i: int, current: Seq<u8>) -> ProfileScan
    decreases b.len() - i,
{
    if i < 0 || i >= b.len() {
        ProfileScan::Unterminated
    } else if b[i] == 0 || b[i] == 0xff {
        let name = closed_name(current, b[i]);
        if !valid_utf8(name) {
            ProfileScan::BadName
        } else if b[i] == 0xff {
            ProfileScan::Complete(seq![name])
        } else {
            scan_after(seq![name], scan_profile_names(b, i + 1, seq![]))
        }
    } else {
        scan_profile_names(b, i + 1, current.push(b[i]))
    }
}

proof fn lemma_scan_after_scan_after(a: Seq<Seq<u8>>, b: Seq<Seq<u8>>, scan: ProfileScan)
    ensures
        scan_after(a, scan_after(b, scan)) == scan_after(a + b, scan),
{
    if let ProfileScan::Complete(rest) = scan {
        assert(a + (b + rest) =~= (a + b) + rest);
    }
}

/// Reads the profile names from a profile list. The first two bytes are
/// skipped; each name ends at a zero byte (which drops the byte before it) or
/// at 0xff, which ends the list.
pub fn read_profile_list(profile_list: &Vec<u8>) -> (r: Result<Vec<String>, &'static str>)
    ensures
        profile_list@.len() < 3 ==> (r matches Err(e) && e@ == "profile_list too short"@),
        profile_list@.len() >= 3 ==> match scan_profile_names(profile_list@, 2, seq![]) {
            ProfileScan::Complete(names) => r matches Ok(v) && v@.len() == names.len() && forall|k: int|
                0 <= k < names.len() ==> #[trigger] v@[k]@ == decode_utf8(names[k]),
            ProfileScan::BadName => r matches Err(e) && e@ == "failed decoding profile name"@,
            ProfileScan::Unterminated => r matches Err(e) && e@ == "profile_list ended unexpectedly"@,
        },
{
    if profile_list.len() < 3 {
        return Err("profile_list too short");
    }
    let mut i: usize = 2;
    let mut ret: Vec<String> = Vec::new();
    let mut profile_name: Vec<u8> = Vec::new();
    let ghost mut names: Seq<Seq<u8>> = seq![];
    while i < profile_list.len()
        invariant
            2 <= i <= profile_list@.len(),
            ret@.len() == names.len(),
            forall|k: int| 0 <= k < names.len() ==> #[trigger] ret@[k]@ == decode_utf8(names[k]),
            scan_profile_names(profile_list@, 2, seq![]) == scan_after(
                names,
                scan_profile_names(profile_list@, i as int, profile_name@),
            ),
        decreases profile_list@.len() - i,
    {
        let byte: u8 = profile_list[i];
        let ghost held = profile_name@;
        if byte == 0 || byte == 0xff {
            if byte == 0 {
                profile_name.pop();
            }
            let ghost name = profile_name@;
            let copy: Vec<u8> = profile_name.clone();
            assert(copy@ =~= name);
            let new_string = match string_from_utf8(copy) {
                Some(s) => s,
                None => {
                    return Err("failed decoding profile name");
                },
            };
            ret.push(new_string);
            proof {
                assert(name == closed_name(held, byte));
                lemma_scan_after_scan_after(names, seq![name], scan_profile_names(profile_list@, i + 1, seq![]));
                assert(names + seq![name] =~= names.push(name));
                names = names.push(name);
            }
            profile_name.clear();
        } else {
            profile_name.push(byte);
        }
        if byte == 0xff {
            return Ok(ret);
        }
        i = i + 1;
    }
    Err("profile_list ended unexpectedly")
}

/// What ends a profile list: 0xff 0xff 0x58 0x8d and six zero bytes.
pub open spec fn profile_list_trailer() -> Seq<u8> {
    seq![0xffu8, 0xffu8, 0x58u8, 0x8du8, 0u8, 0u8, 0u8, 0u8, 0u8, 0u8]
}

/// The UTF-8 bytes of each name.
pub open spec fn names_utf8(list: Seq<String>) -> Seq<Seq<u8>> {
    list.map_values(|s: String| encode_utf8(s@))
}

/// One entry of a profile list: the length of `n` in two bytes, low byte
/// first, then `n`.
pub open spec fn profile_entry(n: Seq<u8>) -> Seq<u8> {
    seq![(n.len() % 256) as u8, (n.len() / 256) as u8] + n
}

/// The entries of a profile list, one for each name, in order.
pub open spec fn profile_entries(names: Seq<Seq<u8>>) -> Seq<u8>
    decreases names.len(),
{
    if names.len() == 0 {
        seq![]
    } else {
        profile_entries(names.drop_last()) + profile_entry(names.last())
    }
}

/// Writes a profile list with the given names, in order.
pub fn write_profile_list(profile_list: &Vec<String>) -> (r: Vec<u8>)
    requires
        forall|k: int| 0 <= k < profile_list@.len() ==> encode_utf8(#[trigger] profile_list@[k]@).len() <= 0xffff,
    ensures
        r@ == profile_entries(names_utf8(profile_list@)) + profile_list_trailer(),
{
    let mut ret: Vec<u8> = Vec::new();
    let mut i: usize = 0;
    while i < profile_list.len()
        invariant
            i <= profile_list@.len(),
            forall|k: int| 0 <= k < profile_list@.len() ==> encode_utf8(#[trigger] profile_list@[k]@).len() <= 0xffff,
            ret@ == profile_entries(names_utf8(profile_list@.subrange(0, i as int))),
        decreases profile_list@.len() - i,
    {
        let bytes: &[u8] = profile_list[i].as_str().as_bytes();
        let len: u16 = bytes.len() as u16;
        let lo: u8 = (len & 0xff) as u8;
        let hi: u8 = (len >> 8) as u8;
        assert(lo == len % 256 && hi == len / 256) by (bit_vector)
            requires
                lo == (len & 0xff) as u8,
                hi == (len >> 8) as u8,
        ;
        ret.push(lo);
        ret.push(hi);
        let mut j: usize = 0;
        let ghost before = ret@;
        while j < bytes.len()
            invariant
                j <= bytes@.len(),
                ret@ == before + bytes@.subrange(0, j as int),
            decreases bytes@.len() - j,
        {
            ret.push(bytes[j]);
            j = j + 1;
            assert(ret@ =~= before + bytes@.subrange(0, j as int));
        }
        let ghost done = names_utf8(profile_list@.subrange(0, i + 1));
        assert(done.drop_last() =~= names_utf8(profile_list@.subrange(0, i as int)));
        assert(ret@ =~= profile_entries(done));
        i = i + 1;
    }
    assert(profile_list@.subrange(0, i as int) =~= profile_list@);
    let mut trailer: Vec<u8> = vec![0xff, 0xff, 0x58, 0x8d, 0x00, 0x00, 0x00, 0x00, 0x00, 0x00];
    ret.append(&mut trailer);
    assert(ret@ =~= profile_entries(names_utf8(profile_list@)) + profile_list_trailer());
    ret
}

/// A name that reads back from a profile list: valid UTF-8 with no byte 0 or
/// 0xff in it.
pub open spec fn clean_name(n: Seq<u8>) -> bool {
    &&& valid_utf8(n)
    &&& forall|t: int| 0 <= t < n.len() ==> #[trigger] n[t] != 0 && n[t] != 0xff
}

/// Names that a profile list gives back: at least one, all clean, and each
/// after the first of 1 to 254 bytes (the low byte of its length is read as a
/// last byte of the name before, and must be neither 0 nor 0xff). The length
/// of the first name is never read.
pub open spec fn listable_names(names: Seq<Seq<u8>>) -> bool {
    &&& names.len() >= 1
    &&& forall|k: int| 0 <= k < names.len() ==> clean_name(#[trigger] names[k])
    &&& forall|k: int| 1 <= k < names.len() ==> 1 <= (#[trigger] names[k]).len() <= 254
}

proof fn lemma_profile_entries_append(a: Seq<Seq<u8>>, b: Seq<Seq<u8>>)
    ensures
        profile_entries(a + b) == profile_entries(a) + profile_entries(b),
    decreases b.len(),
{
    if b.len() == 0 {
        assert(a + b =~= a);
        assert(profile_entries(a) + profile_entries(b) =~= profile_entries(a));
    } else {
        assert((a + b).drop_last() =~= a + b.drop_last());
        assert((a + b).last() == b.last());
        lemma_profile_entries_append(a, b.drop_last());
        let e = profile_entry(b.last());
        assert(profile_entries(a + b) =~= profile_entries(a + b.drop_last()) + e);
        assert(profile_entries(b) =~= profile_entries(b.drop_last()) + e);
        assert(profile_entries(a) + profile_entries(b.drop_last()) + e =~= profile_entries(a) + (
        profile_entries(b.drop_last()) + e));
    }
}

proof fn lemma_profile_entries_first(names: Seq<Seq<u8>>)
    requires
        names.len() > 0,
    ensures
        profile_entries(names) == profile_entry(names[0]) + profile_entries(names.skip(1)),
{
    assert(names =~= seq![names[0]] + names.skip(1));
    lemma_profile_entries_append(seq![names[0]], names.skip(1));
    let one = seq![names[0]];
    assert(one.drop_last() =~= Seq::<Seq<u8>>::empty());
    assert(one.last() == names[0]);
    assert(profile_entries(one.drop_last()) == Seq::<u8>::empty());
    assert(profile_entries(one) =~= profile_entry(names[0]));
}

proof fn lemma_scan_shift(a: Seq<u8>, b: Seq<u8>, i: int, current: Seq<u8>)
    requires
        0 <= i,
    ensures
        scan_profile_names(a + b, a.len() + i, current) == scan_profile_names(b, i, current),
    decreases b.len() - i,
{
    if i < b.len() {
        assert((a + b)[a.len() + i] == b[i]);
        lemma_scan_shift(a, b, i + 1, current.push(b[i]));
        lemma_scan_shift(a, b, i + 1, seq![]);
    }
}

proof fn lemma_scan_through_name(b: Seq<u8>, i: int, current: Seq<u8>, k: int)
    requires
        0 <= i,
        0 <= k,
        i + k <= b.len(),
        forall|t: int| i <= t < i + k ==> #[trigger] b[t] != 0 && b[t] != 0xff,
    ensures
        scan_profile_names(b, i, current) == scan_profile_names(b, i + k, current + b.subrange(i, i + k)),
    decreases k,
{
    if k == 0 {
        assert(current + b.subrange(i, i) =~= current);
    } else {
        lemma_scan_through_name(b, i + 1, current.push(b[i]), k - 1);
        assert(current.push(b[i]) + b.subrange(i + 1, i + k) =~= current + b.subrange(i, i + k));
    }
}

/// The bytes from name `j` of a written list on: that name, the entries after
/// it and the trailer.
pub open spec fn list_from_name(names: Seq<Seq<u8>>, j: int) -> Seq<u8> {
    names[j] + profile_entries(names.skip(j + 1)) + profile_list_trailer()
}

proof fn lemma_scan_from_name(names: Seq<Seq<u8>>, j: int)
    requires
        0 <= j < names.len(),
        listable_names(names),
    ensures
        scan_profile_names(list_from_name(names, j), 0, seq![]) == ProfileScan::Complete(names.skip(j)),
    decreases names.len() - j,
{
    let n = names[j];
    let s = list_from_name(names, j);
    assert(clean_name(n));
    assert forall|t: int| 0 <= t < 0 + n.len() implies #[trigger] s[t] != 0 && s[t] != 0xff by {
        assert(s[t] == n[t]);
    }
    lemma_scan_through_name(s, 0, seq![], n.len() as int);
    assert(seq![] + s.subrange(0, n.len() as int) =~= n);
    if j + 1 == names.len() {
        assert(names.skip(j + 1) =~= Seq::<Seq<u8>>::empty());
        assert(s[n.len() as int] == 0xff);
        assert(closed_name(n, 0xff) == n);
        assert(scan_profile_names(s, n.len() as int, n) == ProfileScan::Complete(seq![n]));
        assert(names.skip(j) =~= seq![n]);
    } else {
        let next = names[j + 1];
        assert(1 <= next.len() <= 254);
        lemma_profile_entries_first(names.skip(j + 1));
        assert(names.skip(j + 1).skip(1) =~= names.skip(j + 2));
        let rest = list_from_name(names, j + 1);
        let lo = (next.len() % 256) as u8;
        assert(s =~= n + seq![lo, 0u8] + rest);
        assert(s[n.len() as int] == lo);
        assert(s[n.len() as int + 1] == 0);
        assert(lo != 0 && lo != 0xff);
        assert(closed_name(n.push(lo), 0) =~= n);
        lemma_scan_from_name(names, j + 1);
        lemma_scan_shift(n + seq![lo, 0u8], rest, 0, seq![]);
        let len = n.len() as int;
        assert(scan_profile_names(s, len + 2, seq![]) == scan_profile_names(rest, 0, seq![]));
        assert(scan_profile_names(s, len + 1, n.push(lo)) == scan_after(
            seq![n],
            scan_profile_names(s, len + 2, seq![]),
        ));
        assert(scan_profile_names(s, len, n) == scan_profile_names(s, len + 1, n.push(lo)));
        assert(seq![n] + names.skip(j + 1) =~= names.skip(j));
    }
}

/// Reading a written profile list gives back its names, where they are
/// `listable_names`.
pub proof fn lemma_scan_written_profile_list(names: Seq<Seq<u8>>)
    requires
        listable_names(names),
    ensures
        (profile_entries(names) + profile_list_trailer()).len() >= 3,
        scan_profile_names(profile_entries(names) + profile_list_trailer(), 2, seq![])
            == ProfileScan::Complete(names),
{
    let first = names[0];
    lemma_profile_entries_first(names);
    let lo = (first.len() % 256) as u8;
    let hi = (first.len() / 256) as u8;
    let all = profile_entries(names) + profile_list_trailer();
    assert(all =~= seq![lo, hi] + list_from_name(names, 0));
    lemma_scan_shift(seq![lo, hi], list_from_name(names, 0), 0, seq![]);
    lemma_scan_from_name(names, 0);
    assert(names.skip(0) =~= names);
}

/// Where the account file's fields lie and when it reads: at least 0x10f
/// bytes; the nickname at 0x98..0xb8, the email at 0xba..0xee, the password at
/// 0xf0..0x10f, each valid UTF-8.
pub proof fn lemma_commondt_layout(c: Seq<u8>)
    ensures
        nickname_field(c) == c.subrange(0x98, 0xb8),
        email_field(c) == c.subrange(0xba, 0xee),
        password_field(c) == c.subrange(0xf0, 0x10f),
        c.len() < 0x10f ==> read_commondt_error(c) == Some("commondt is too small"),
        read_commondt_error(c) is None <==> (c.len() >= 0x10f && valid_utf8(c.subrange(0x98, 0xb8)) && valid_utf8(
            c.subrange(0xba, 0xee),
        ) && valid_utf8(c.subrange(0xf0, 0x10f))),
{
}

/// A patch of the account file succeeds exactly when the file holds at least
/// 0x110 bytes, the nickname and the password at most 30 bytes and the email
/// at most 50; otherwise it reports the first of these that fails.
pub proof fn lemma_patch_commondt_refusals(len: nat, nickname_len: nat, email_len: nat, password_len: nat)
    ensures
        patch_commondt_error(len, nickname_len, email_len, password_len) is None <==> (len >= 0x110
            && nickname_len <= 30 && email_len <= 50 && password_len <= 30),
        len < 0x110 ==> patch_commondt_error(len, nickname_len, email_len, password_len) == Some(
            "commondt is too small",
        ),
        len >= 0x110 && nickname_len > 30 ==> patch_commondt_error(len, nickname_len, email_len, password_len)
            == Some("nickname is longer than 30 bytes"),
        len >= 0x110 && nickname_len <= 30 && email_len > 50 ==> patch_commondt_error(
            len,
            nickname_len,
            email_len,
            password_len,
        ) == Some("email is longer than 50 bytes"),
        len >= 0x110 && nickname_len <= 30 && email_len <= 50 && password_len > 30 ==> patch_commondt_error(
            len,
            nickname_len,
            email_len,
            password_len,
        ) == Some("password is longer than 30 bytes"),
{
}

/// What a patch writes into an account file: the online flag at 0x91 (1 or
/// 0); the nickname at 0x98 with zeros after it up to 0xb8; when online the
/// email at 0xba and the password at 0xf0, each with zeros after it up to
/// 0xee and 0x10f, and when offline zeros in both fields; every other byte and
/// the length unchanged.
pub proof fn lemma_patched_commondt_layout(c: Seq<u8>, n: Seq<u8>, e: Seq<u8>, w: Seq<u8>, online: bool)
    requires
        c.len() >= 0x110,
        n.len() <= 30,
        e.len() <= 50,
        w.len() <= 30,
    ensures
        ({
            let r = patched_commondt(c, n, e, w, online);
            &&& r.len() == c.len()
            &&& r[0x91] == (if online { 1u8 } else { 0u8 })
            &&& r.subrange(0x98, 0x98 + n.len() as int) == n
            &&& forall|j: int| 0x98 + n.len() as int <= j <= 0xb8 ==> #[trigger] r[j] == 0
            &&& online ==> r.subrange(0xba, 0xba + e.len() as int) == e
            &&& forall|j: int| (if online { 0xba + e.len() as int } else { 0xba }) <= j <= 0xee ==> #[trigger] r[j] == 0
            &&& online ==> r.subrange(0xf0, 0xf0 + w.len() as int) == w
            &&& forall|j: int| (if online { 0xf0 + w.len() as int } else { 0xf0 }) <= j <= 0x10f ==> #[trigger] r[j] == 0
            &&& forall|j: int|
                0 <= j < c.len() && j != 0x91 && !(0x98 <= j <= 0xb8) && !(0xba <= j <= 0xee) && !(0xf0 <= j
                    <= 0x10f) ==> #[trigger] r[j] == c[j]
        }),
{
    let r = patched_commondt(c, n, e, w, online);
    assert(r.subrange(0x98, 0x98 + n.len() as int) =~= n);
    if online {
        assert(r.subrange(0xba, 0xba + e.len() as int) =~= e);
        assert(r.subrange(0xf0, 0xf0 + w.len() as int) =~= w);
    }
}

/// A patch of a player save succeeds exactly when the save holds at least
/// 0x3a bytes and the nickname at most 30; otherwise it reports the first of
/// these that fails.
pub proof fn lemma_patch_playersave_refusals(len: nat, nickname_len: nat)
    ensures
        patch_playersave_error(len, nickname_len) is None <==> (len >= 0x3a && nickname_len <= 30),
        len < 0x3a ==> patch_playersave_error(len, nickname_len) == Some("playersave is too small"),
        len >= 0x3a && nickname_len > 30 ==> patch_playersave_error(len, nickname_len) == Some(
            "nickname is longer than 30 bytes",
        ),
{
}

/// What a patch writes into a player save, online or offline: the checksum of
/// the nickname at 0x8..0xc; when online the checksums of the email at
/// 0xc..0x10 and of the password at 0x10..0x14, when offline zeros there; the
/// nickname at 0x1a with zeros after it up to 0x3a; every other byte and the
/// length unchanged.
pub proof fn lemma_patched_playersave_layout(s: Seq<u8>, n: Seq<u8>, e: Seq<u8>, w: Seq<u8>, online: bool)
    requires
        s.len() >= 0x3a,
        n.len() <= 30,
    ensures
        ({
            let r = patched_playersave(s, n, e, w, online);
            &&& r.len() == s.len()
            &&& r.subrange(0x8, 0xc) == hash_spec(n)
            &&& online ==> r.subrange(0xc, 0x10) == hash_spec(e) && r.subrange(0x10, 0x14) == hash_spec(w)
            &&& !online ==> forall|j: int| 0xc <= j < 0x14 ==> #[trigger] r[j] == 0
            &&& r.subrange(0x1a, 0x1a + n.len() as int) == n
            &&& forall|j: int| 0x1a + n.len() as int <= j < 0x3a ==> #[trigger] r[j] == 0
            &&& forall|j: int|
                0 <= j < s.len() && !(0x8 <= j < 0x14) && !(0x1a <= j < 0x3a) ==> #[trigger] r[j] == s[j]
        }),
{
    let r = patched_playersave(s, n, e, w, online);
    assert(r.subrange(0x8, 0xc) =~= hash_spec(n));
    if online {
        assert(r.subrange(0xc, 0x10) =~= hash_spec(e));
        assert(r.subrange(0x10, 0x14) =~= hash_spec(w));
    }
    assert(r.subrange(0x1a, 0x1a + n.len() as int) =~= n);
}

/// A profile list of one clean name, after any two header bytes and before
/// the end mark 0xff, reads as that name.
pub proof fn lemma_profile_list_single_name(h0: u8, h1: u8, n: Seq<u8>)
    requires
        clean_name(n),
    ensures
        scan_profile_names(seq![h0, h1] + n + seq![0xffu8], 2, seq![]) == ProfileScan::Complete(seq![n]),
{
    let b = seq![h0, h1] + n + seq![0xffu8];
    assert forall|t: int| 2 <= t < 2 + n.len() as int implies #[trigger] b[t] != 0 && b[t] != 0xff by {
        assert(b[t] == n[t - 2]);
    }
    lemma_scan_through_name(b, 2, seq![], n.len() as int);
    assert(seq![] + b.subrange(2, 2 + n.len() as int) =~= n);
    assert(b[2 + n.len() as int] == 0xff);
    assert(closed_name(n, 0xff) == n);
}

/// A written profile list ends with FF FF 58 8D and six zero bytes, and each
/// name is written as its length, low byte first, and its bytes.
pub proof fn lemma_profile_list_format(n: Seq<u8>)
    ensures
        profile_list_trailer() == seq![0xffu8, 0xffu8, 0x58u8, 0x8du8, 0u8, 0u8, 0u8, 0u8, 0u8, 0u8],
        profile_entries(seq![n]) == seq![(n.len() % 256) as u8, (n.len() / 256) as u8] + n,
{
    let one = seq![n];
    assert(one.drop_last() =~= Seq::<Seq<u8>>::empty());
    assert(one.last() == n);
    assert(profile_entries(one.drop_last()) == Seq::<u8>::empty());
    assert(profile_entries(one) =~= seq![(n.len() % 256) as u8, (n.len() / 256) as u8] + n);
}

/// A written profile list reads back as the texts it was written from, where
/// there is at least one, none holds a NUL character, and each after the
/// first is 1 to 254 bytes long in UTF-8.
pub proof fn lemma_profile_list_round_trip(list: Seq<String>)
    requires
        list.len() >= 1,
        forall|k: int, i: int| 0 <= k < list.len() && 0 <= i < list[k]@.len() ==> #[trigger] list[k]@[i] != '\0',
        forall|k: int| 1 <= k < list.len() ==> 1 <= encode_utf8(#[trigger] list[k]@).len() <= 254,
    ensures
        (profile_entries(names_utf8(list)) + profile_list_trailer()).len() >= 3,
        scan_profile_names(profile_entries(names_utf8(list)) + profile_list_trailer(), 2, seq![])
            == ProfileScan::Complete(names_utf8(list)),
        forall|k: int| 0 <= k < list.len() ==> decode_utf8(#[trigger] names_utf8(list)[k]) == list[k]@,
{
    let names = names_utf8(list);
    assert forall|k: int| 0 <= k < names.len() implies clean_name(#[trigger] names[k]) by {
        assert(names[k] == encode_utf8(list[k]@));
        assert forall|i: int| 0 <= i < list[k]@.len() implies list[k]@[i] != '\0' by {
            assert(list[k]@[i] != '\0');
        }
        lemma_encode_utf8_clean(list[k]@);
        encode_utf8_valid_utf8(list[k]@);
    }
    assert forall|k: int| 1 <= k < names.len() implies 1 <= (#[trigger] names[k]).len() <= 254 by {
        assert(names[k] == encode_utf8(list[k]@));
    }
    lemma_scan_written_profile_list(names);
    assert forall|k: int| 0 <= k < list.len() implies decode_utf8(#[trigger] names_utf8(list)[k]) == list[k]@ by {
        encode_utf8_decode_utf8(list[k]@);
    }
}

proof fn lemma_scan_same_prefix(b1: Seq<u8>, b2: Seq<u8>, i: int, current: Seq<u8>, k: int)
    requires
        0 <= i <= k,
        k < b1.len(),
        k < b2.len(),
        b1[k] == 0xff,
        b1.subrange(i, k + 1) == b2.subrange(i, k + 1),
    ensures
        scan_profile_names(b1, i, current) == scan_profile_names(b2, i, current),
    decreases k - i,
{
    assert(b1[i] == b1.subrange(i, k + 1)[0]);
    assert(b2[i] == b2.subrange(i, k + 1)[0]);
    if i < k {
        assert(b1.subrange(i + 1, k + 1) =~= b1.subrange(i, k + 1).subrange(1, k + 1 - i));
        assert(b2.subrange(i + 1, k + 1) =~= b2.subrange(i, k + 1).subrange(1, k + 1 - i));
        lemma_scan_same_prefix(b1, b2, i + 1, current.push(b1[i]), k);
        lemma_scan_same_prefix(b1, b2, i + 1, seq![], k);
    }
}

/// Reading a profile list ignores its two header bytes and everything after
/// an end mark: two lists that agree from byte 2 up to a byte 0xff read alike.
pub proof fn lemma_profile_list_reads_header_to_end_mark(b1: Seq<u8>, b2: Seq<u8>, k: int)
    requires
        2 <= k < b1.len(),
        k < b2.len(),
        b1[k] == 0xff,
        b1.subrange(2, k + 1) == b2.subrange(2, k + 1),
    ensures
        b1.len() >= 3 && b2.len() >= 3,
        scan_profile_names(b1, 2, seq![]) == scan_profile_names(b2, 2, seq![]),
{
    lemma_scan_same_prefix(b1, b2, 2, seq![], k);
}

/// A text field of `width` bytes that holds `text` and zeros after it reads
/// back as `text` followed by NULs.
proof fn lemma_padded_field(field: Seq<u8>, text: Seq<char>, width: nat)
    requires
        encode_utf8(text).len() <= width,
        field.len() == width,
        forall|t: int| 0 <= t < width ==> #[trigger] field[t] == (if t < encode_utf8(text).len() {
            encode_utf8(text)[t]
        } else {
            0u8
        }),
    ensures
        valid_utf8(field),
        decode_utf8(field) == text + nuls((width - encode_utf8(text).len()) as nat),
{
    let k = (width - encode_utf8(text).len()) as nat;
    lemma_encode_utf8_nuls(k);
    lemma_encode_utf8_append(text, nuls(k));
    assert(field =~= encode_utf8(text + nuls(k)));
    encode_utf8_valid_utf8(text + nuls(k));
    encode_utf8_decode_utf8(text + nuls(k));
}

/// Reading a patched account file gives back what the patch wrote: the
/// nickname, and when online the email and password, each followed by the
/// NULs that fill its field (when offline, email and password are all NULs),
/// and the online flag.
pub proof fn lemma_read_commondt_after_patch(
    c: Seq<u8>,
    nickname: Seq<char>,
    email: Seq<char>,
    password: Seq<char>,
    online: bool,
)
    requires
        patch_commondt_error(
            c.len(),
            encode_utf8(nickname).len(),
            encode_utf8(email).len(),
            encode_utf8(password).len(),
        ) is None,
    ensures
        ({
            let p = patched_commondt(c, encode_utf8(nickname), encode_utf8(email), encode_utf8(password), online);
            &&& read_commondt_error(p) is None
            &&& decode_utf8(nickname_field(p)) == nickname + nuls((32 - encode_utf8(nickname).len()) as nat)
            &&& decode_utf8(email_field(p)) == (if online {
                email + nuls((52 - encode_utf8(email).len()) as nat)
            } else {
                nuls(52)
            })
            &&& decode_utf8(password_field(p)) == (if online {
                password + nuls((31 - encode_utf8(password).len()) as nat)
            } else {
                nuls(31)
            })
            &&& (p[0x91] == 1) == online
        }),
{
    let (n, e, w) = (encode_utf8(nickname), encode_utf8(email), encode_utf8(password));
    let p = patched_commondt(c, n, e, w, online);
    lemma_padded_field(nickname_field(p), nickname, 32);
    let shown_email = if online { email } else { seq![] };
    let shown_password = if online { password } else { seq![] };
    lemma_padded_field(email_field(p), shown_email, 52);
    lemma_padded_field(password_field(p), shown_password, 31);
    assert(seq![] + nuls(52) =~= nuls(52));
    assert(seq![] + nuls(31) =~= nuls(31));
}

} // verus!
