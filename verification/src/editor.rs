//! Decisions of the account editor: the profile name that a nickname gives,
//! whether it may be used, the account fields as they are written, the
//! patched and encrypted save files, and the profile list after a rename.
use vstd::prelude::*;
use vstd::utf8::{decode_utf8, encode_utf8, encode_utf8_valid_utf8, is_ascii_chars, is_ascii_chars_encode_utf8, valid_utf8};
use crate::text::{lemma_encode_utf8_nonempty, string_from_utf8, trim_nuls, trim_trailing_nuls};
use crate::tdudec::{decrypt_spec, encrypt_save, encrypt_spec, lemma_decrypt_save_encrypt_save, zero_padded};
use crate::util::{
    PlayerIdentifier, email_field, lemma_read_commondt_after_patch, nickname_field, password_field,
    read_commondt_error, patch_commondrt, patch_commondt_error, patch_playersave, patch_playersave_error,
    patched_commondt, patched_playersave,
};

verus! {

/// `b` is an ASCII letter or digit.
pub open spec fn is_ascii_alnum(b: u8) -> bool {
    (0x61 <= b <= 0x7a) || (0x41 <= b <= 0x5a) || (0x30 <= b <= 0x39)
}

/// The letters and digits of `b`, in order.
pub open spec fn keep_alnum(b: Seq<u8>) -> Seq<u8>
    decreases b.len(),
{
    if b.len() == 0 {
        seq![]
    } else {
        keep_alnum(b.drop_last()) + (if is_ascii_alnum(b.last()) {
            seq![b.last()]
        } else {
            seq![]
        })
    }
}

/// The index of the first zero byte of `b`, or its length where it has none.
pub open spec fn first_nul(b: Seq<u8>) -> nat
    decreases b.len(),
{
    if b.len() == 0 || b[0] == 0 {
        0
    } else {
        1 + first_nul(b.drop_first())
    }
}

/// The bytes of the profile name for a nickname with UTF-8 bytes `b`: its
/// letters and digits before the first zero byte.
pub open spec fn profile_name_bytes(b: Seq<u8>) -> Seq<u8> {
    keep_alnum(b.subrange(0, first_nul(b) as int))
}

proof fn lemma_first_nul(b: Seq<u8>)
    ensures
        first_nul(b) <= b.len(),
        forall|j: int| 0 <= j < first_nul(b) ==> b[j] != 0,
        first_nul(b) < b.len() ==> b[first_nul(b) as int] == 0,
    decreases b.len(),
{
    if b.len() > 0 && b[0] != 0 {
        lemma_first_nul(b.drop_first());
        assert forall|j: int| 0 <= j < first_nul(b) implies b[j] != 0 by {
            if j > 0 {
                assert(b[j] == b.drop_first()[j - 1]);
            }
        }
    }
}

proof fn lemma_keep_alnum_ascii(b: Seq<u8>)
    ensures
        forall|j: int| 0 <= j < keep_alnum(b).len() ==> #[trigger] keep_alnum(b)[j] < 0x80,
    decreases b.len(),
{
    if b.len() > 0 {
        let prev = keep_alnum(b.drop_last());
        lemma_keep_alnum_ascii(b.drop_last());
        assert forall|j: int| 0 <= j < keep_alnum(b).len() implies #[trigger] keep_alnum(b)[j] < 0x80 by {
            if j < prev.len() {
                assert(keep_alnum(b)[j] == prev[j]);
            }
        }
    }
}

proof fn lemma_ascii_bytes_valid(b: Seq<u8>)
    requires
        forall|j: int| 0 <= j < b.len() ==> #[trigger] b[j] < 0x80,
    ensures
        valid_utf8(b),
{
    let cs = Seq::new(b.len(), |j: int| b[j] as char);
    assert(is_ascii_chars(cs));
    is_ascii_chars_encode_utf8(cs);
    assert(encode_utf8(cs) =~= b);
    encode_utf8_valid_utf8(cs);
}

proof fn lemma_first_nul_of_nul_free(b: Seq<u8>)
    requires
        forall|i: int| 0 <= i < b.len() ==> b[i] != 0,
    ensures
        first_nul(b) == b.len(),
    decreases b.len(),
{
    if b.len() > 0 {
        assert forall|i: int| 0 <= i < b.drop_first().len() implies b.drop_first()[i] != 0 by {
            assert(b.drop_first()[i] == b[i + 1]);
        }
        lemma_first_nul_of_nul_free(b.drop_first());
    }
}

proof fn lemma_first_nul_at(b: Seq<u8>, rest: Seq<u8>)
    requires
        forall|i: int| 0 <= i < b.len() ==> b[i] != 0,
    ensures
        first_nul(b + seq![0u8] + rest) == b.len(),
    decreases b.len(),
{
    let all = b + seq![0u8] + rest;
    if b.len() == 0 {
        assert(all[0] == 0);
    } else {
        assert(all.drop_first() =~= b.drop_first() + seq![0u8] + rest);
        assert forall|i: int| 0 <= i < b.drop_first().len() implies b.drop_first()[i] != 0 by {
            assert(b.drop_first()[i] == b[i + 1]);
        }
        lemma_first_nul_at(b.drop_first(), rest);
        assert(all[0] == b[0]);
    }
}

/// The profile name of a nickname keeps its ASCII letters `a`-`z`, `A`-`Z`
/// and digits `0`-`9`, in order, and drops every other byte, up to the first
/// zero byte, after which nothing counts: empty bytes give an empty name; one
/// more nonzero byte adds itself exactly when it is a letter or digit; a zero
/// byte ends the name.
pub proof fn lemma_profile_name_letters_and_digits(b: Seq<u8>, x: u8, rest: Seq<u8>)
    requires
        forall|i: int| 0 <= i < b.len() ==> b[i] != 0,
    ensures
        profile_name_bytes(seq![]) == Seq::<u8>::empty(),
        x != 0 ==> profile_name_bytes(b.push(x)) == profile_name_bytes(b) + (if ('a' as u8 <= x <= 'z' as u8)
            || ('A' as u8 <= x <= 'Z' as u8) || ('0' as u8 <= x <= '9' as u8) {
            seq![x]
        } else {
            seq![]
        }),
        profile_name_bytes(b + seq![0u8] + rest) == profile_name_bytes(b),
{
    assert(seq![].subrange(0, 0) =~= Seq::<u8>::empty());
    lemma_first_nul_of_nul_free(b);
    assert(b.subrange(0, b.len() as int) =~= b);
    if x != 0 {
        assert forall|i: int| 0 <= i < b.push(x).len() implies b.push(x)[i] != 0 by {
            if i < b.len() {
                assert(b.push(x)[i] == b[i]);
            }
        }
        lemma_first_nul_of_nul_free(b.push(x));
        assert(b.push(x).subrange(0, b.len() as int + 1) =~= b.push(x));
        assert(b.push(x).drop_last() =~= b);
    }
    lemma_first_nul_at(b, rest);
    assert((b + seq![0u8] + rest).subrange(0, b.len() as int) =~= b);
}

/// The profile name that a nickname gives: the ASCII letters and digits of
/// its bytes, up to the first zero byte.
pub fn nickname_to_profile_name(nickname: &String) -> (r: Result<String, String>)
    ensures
        r matches Ok(s) && encode_utf8(s@) == profile_name_bytes(encode_utf8(nickname@)),
{
    let string_bytes: &[u8] = nickname.as_str().as_bytes();
    let ghost b = string_bytes@;
    proof {
        lemma_first_nul(b);
    }
    let mut i: usize = 0;
    let mut new_string_bytes: Vec<u8> = Vec::new();
    while i < string_bytes.len()
        invariant
            b == string_bytes@,
            i <= first_nul(b),
            first_nul(b) <= b.len(),
            forall|j: int| 0 <= j < first_nul(b) ==> b[j] != 0,
            first_nul(b) < b.len() ==> b[first_nul(b) as int] == 0,
            new_string_bytes@ == keep_alnum(b.subrange(0, i as int)),
        ensures
            i == first_nul(b),
            new_string_bytes@ == keep_alnum(b.subrange(0, i as int)),
        decreases b.len() - i,
    {
        if string_bytes[i] == 0 {
            break;
        }
        let byte: u8 = string_bytes[i];
        if (byte >= 0x61 && byte <= 0x7a) || (byte >= 0x41 && byte <= 0x5a) || (byte >= 0x30 && byte <= 0x39) {
            new_string_bytes.push(byte);
        }
        assert(b.subrange(0, i + 1).drop_last() =~= b.subrange(0, i as int));
        i = i + 1;
    }
    assert(i == first_nul(b));
    proof {
        lemma_keep_alnum_ascii(b.subrange(0, i as int));
        lemma_ascii_bytes_valid(new_string_bytes@);
    }
    let ghost kept = new_string_bytes@;
    match string_from_utf8(new_string_bytes) {
        Some(s) => {
            proof {
                vstd::utf8::decode_utf8_encode_utf8(kept);
            }
            Ok(s)
        },
        None => Err(String::new()),
    }
}

/// Why a new profile name is refused.
#[derive(Debug)]
pub enum ApplyRefusal {
    /// The nickname has no ASCII letter or digit before its first NUL.
    NoProfileName,
    /// Another profile already has the name.
    ProfileNameInUse,
}

/// The profile name, as text, that a nickname gives.
pub open spec fn profile_name_of(nickname: Seq<char>) -> Seq<char> {
    decode_utf8(profile_name_bytes(encode_utf8(nickname)))
}

/// The profile name for `nickname` where it may replace `selected_profile`:
/// refused when it is empty, or when it differs from `selected_profile` and
/// another profile of `profile_list` has it.
pub fn check_new_profile_name(nickname: &String, selected_profile: &String, profile_list: &Vec<String>) -> (r: Result<String, ApplyRefusal>)
    ensures
        match r {
            Ok(name) => name@ == profile_name_of(nickname@) && name@.len() > 0 && (name@ == selected_profile@
                || forall|k: int| 0 <= k < profile_list@.len() ==> #[trigger] profile_list@[k]@ != name@),
            Err(ApplyRefusal::NoProfileName) => profile_name_of(nickname@).len() == 0,
            Err(ApplyRefusal::ProfileNameInUse) => profile_name_of(nickname@).len() > 0
                && profile_name_of(nickname@) != selected_profile@ && exists|k: int|
                0 <= k < profile_list@.len() && #[trigger] profile_list@[k]@ == profile_name_of(nickname@),
        },
{
    let new_profile_name = match nickname_to_profile_name(nickname) {
        Ok(s) => s,
        Err(_) => {
            return Err(ApplyRefusal::NoProfileName);
        },
    };
    proof {
        lemma_keep_alnum_ascii_valid(encode_utf8(nickname@));
        vstd::utf8::encode_utf8_decode_utf8(new_profile_name@);
    }
    assert(new_profile_name@ == profile_name_of(nickname@));
    let name_str: &str = new_profile_name.as_str();
    let name_len: usize = name_str.as_bytes().len();
    assert(name_len == encode_utf8(new_profile_name@).len());
    if name_len == 0 {
        assert(new_profile_name@.len() == 0) by {
            if new_profile_name@.len() > 0 {
                lemma_encode_utf8_nonempty(new_profile_name@);
            }
        }
        return Err(ApplyRefusal::NoProfileName);
    }
    assert(new_profile_name@.len() > 0);
    if new_profile_name != *selected_profile {
        let mut i: usize = 0;
        while i < profile_list.len()
            invariant
                i <= profile_list@.len(),
                forall|k: int| 0 <= k < i ==> #[trigger] profile_list@[k]@ != new_profile_name@,
                new_profile_name@ == profile_name_of(nickname@),
                new_profile_name@.len() > 0,
                new_profile_name@ != selected_profile@,
            decreases profile_list@.len() - i,
        {
            if profile_list[i] == new_profile_name {
                assert(profile_list@[i as int]@ == profile_name_of(nickname@));
                return Err(ApplyRefusal::ProfileNameInUse);
            }
            i = i + 1;
        }
    }
    Ok(new_profile_name)
}

proof fn lemma_keep_alnum_ascii_valid(b: Seq<u8>)
    ensures
        valid_utf8(profile_name_bytes(b)),
{
    lemma_keep_alnum_ascii(b.subrange(0, first_nul(b) as int));
    lemma_ascii_bytes_valid(profile_name_bytes(b));
}

/// The names of `names` other than `name`, in order.
pub open spec fn names_other_than(names: Seq<Seq<char>>, name: Seq<char>) -> Seq<Seq<char>>
    decreases names.len(),
{
    if names.len() == 0 {
        seq![]
    } else {
        names_other_than(names.drop_last(), name) + (if names.last() == name {
            seq![]
        } else {
            seq![names.last()]
        })
    }
}

/// Dropping a name keeps the other names in order: no name left equals it, a
/// list without it stays as it is, and a list in two parts loses it from each.
pub proof fn lemma_names_other_than(a: Seq<Seq<char>>, b: Seq<Seq<char>>, name: Seq<char>)
    ensures
        forall|k: int| 0 <= k < names_other_than(a, name).len() ==> #[trigger] names_other_than(a, name)[k] != name,
        (forall|k: int| 0 <= k < a.len() ==> #[trigger] a[k] != name) ==> names_other_than(a, name) == a,
        names_other_than(a + b, name) == names_other_than(a, name) + names_other_than(b, name),
    decreases a.len() + b.len(),
{
    if b.len() > 0 {
        assert((a + b).drop_last() =~= a + b.drop_last());
        assert((a + b).last() == b.last());
        lemma_names_other_than(a, b.drop_last(), name);
        let tail = if b.last() == name { seq![] } else { seq![b.last()] };
        assert(names_other_than(a, name) + names_other_than(b.drop_last(), name) + tail =~= names_other_than(
            a,
            name,
        ) + (names_other_than(b.drop_last(), name) + tail));
    } else {
        assert(a + b =~= a);
        assert(names_other_than(a, name) + names_other_than(b, name) =~= names_other_than(a, name));
        if a.len() > 0 {
            lemma_names_other_than(a.drop_last(), seq![], name);
            let prev = names_other_than(a.drop_last(), name);
            assert forall|k: int| 0 <= k < names_other_than(a, name).len() implies #[trigger] names_other_than(
                a,
                name,
            )[k] != name by {
                if k < prev.len() {
                    assert(names_other_than(a, name)[k] == prev[k]);
                }
            }
            if forall|k: int| 0 <= k < a.len() ==> #[trigger] a[k] != name {
                assert forall|k: int| 0 <= k < a.drop_last().len() implies #[trigger] a.drop_last()[k] != name by {
                    assert(a.drop_last()[k] == a[k]);
                }
                assert(a[a.len() - 1] != name);
                assert(names_other_than(a, name) =~= a);
            }
        }
    }
}

/// The texts of a list of strings.
pub open spec fn texts(list: Seq<String>) -> Seq<Seq<char>> {
    list.map_values(|s: String| s@)
}

/// The profile list after `profile_name` is renamed to `new_profile_name`:
/// the new name first, then every other name in order.
pub fn renamed_profile_list(profile_list: &Vec<String>, profile_name: &String, new_profile_name: &String) -> (r: Vec<String>)
    ensures
        texts(r@) == seq![new_profile_name@] + names_other_than(texts(profile_list@), profile_name@),
{
    let mut new_profile_list: Vec<String> = Vec::new();
    new_profile_list.push(new_profile_name.clone());
    let mut i: usize = 0;
    while i < profile_list.len()
        invariant
            i <= profile_list@.len(),
            texts(new_profile_list@) == seq![new_profile_name@] + names_other_than(
                texts(profile_list@.subrange(0, i as int)),
                profile_name@,
            ),
        decreases profile_list@.len() - i,
    {
        let ghost before = new_profile_list@;
        let ghost seen = texts(profile_list@.subrange(0, i + 1));
        assert(seen.drop_last() =~= texts(profile_list@.subrange(0, i as int)));
        if !(profile_list[i] == *profile_name) {
            new_profile_list.push(profile_list[i].clone());
            assert(texts(new_profile_list@) =~= texts(before).push(profile_list@[i as int]@));
        } else {
            assert(texts(new_profile_list@) =~= texts(before));
        }
        assert(texts(new_profile_list@) =~= seq![new_profile_name@] + names_other_than(seen, profile_name@));
        i = i + 1;
    }
    assert(profile_list@.subrange(0, i as int) =~= profile_list@);
    new_profile_list
}

/// The account to write from the editor's fields: each field without the
/// NUL characters at its end (the padding that reading the account file keeps).
pub fn identifier_from_fields(nickname: &String, email: &String, password: &String) -> (p: PlayerIdentifier)
    ensures
        p.nickname@ == trim_nuls(nickname@),
        p.email@ == trim_nuls(email@),
        p.password@ == trim_nuls(password@),
{
    PlayerIdentifier {
        nickname: trim_trailing_nuls(nickname),
        email: trim_trailing_nuls(email),
        password: trim_trailing_nuls(password),
    }
}

/// Why patching the save files failed.
#[derive(Debug)]
pub enum PatchFailure {
    /// Patching the account file failed.
    Commondt(&'static str),
    /// Patching the player save failed.
    Playersave(&'static str),
}

/// The byte lengths of the account fields.
pub open spec fn field_lengths(p: PlayerIdentifier) -> (nat, nat, nat) {
    (encode_utf8(p.nickname@).len(), encode_utf8(p.email@).len(), encode_utf8(p.password@).len())
}

/// Patches decrypted copies of the account file and, where it is not empty,
/// of the player save, and encrypts them again. An empty player save stays
/// unwritten (`None`).
pub fn patched_save_files(
    commondt: &Vec<u8>,
    playersave: &Vec<u8>,
    player_identifier: &PlayerIdentifier,
    online: bool,
) -> (r: Result<(Vec<u8>, Option<Vec<u8>>), PatchFailure>)
    ensures
        ({
            let (nl, el, pl) = field_lengths(*player_identifier);
            let n = encode_utf8(player_identifier.nickname@);
            let e = encode_utf8(player_identifier.email@);
            let w = encode_utf8(player_identifier.password@);
            match patch_commondt_error(commondt@.len(), nl, el, pl) {
                Some(msg) => r matches Err(PatchFailure::Commondt(m)) && m@ == msg@,
                None => if playersave@.len() == 0 {
                    r matches Ok((c, None)) && c@ == encrypt_spec(patched_commondt(commondt@, n, e, w, online), true)
                } else {
                    match patch_playersave_error(playersave@.len(), nl) {
                        Some(msg) => r matches Err(PatchFailure::Playersave(m)) && m@ == msg@,
                        None => r matches Ok((c, Some(p))) && c@ == encrypt_spec(
                            patched_commondt(commondt@, n, e, w, online),
                            true,
                        ) && p@ == encrypt_spec(patched_playersave(playersave@, n, e, w, online), true),
                    }
                },
            }
        }),
{
    let mut commondt_copy = commondt.clone();
    assert(commondt_copy@ =~= commondt@);
    match patch_commondrt(&mut commondt_copy, player_identifier, online) {
        Ok(_) => {},
        Err(e) => {
            return Err(PatchFailure::Commondt(e));
        },
    }
    let encrypted = encrypt_save(&commondt_copy);
    if playersave.len() == 0 {
        return Ok((encrypted, None));
    }
    let mut playersave_copy = playersave.clone();
    assert(playersave_copy@ =~= playersave@);
    match patch_playersave(&mut playersave_copy, player_identifier, online) {
        Ok(_) => {},
        Err(e) => {
            return Err(PatchFailure::Playersave(e));
        },
    }
    Ok((encrypted, Some(encrypt_save(&playersave_copy))))
}

/// The account file that the editor writes reads back, once decrypted, as the
/// account that it was patched with: each field holds the new text followed by
/// NULs (email and password hold only NULs when offline), and the online flag
/// is set as asked.
pub proof fn lemma_written_commondt_reads_back(
    c: Seq<u8>,
    nickname: Seq<char>,
    email: Seq<char>,
    password: Seq<char>,
    online: bool,
)
    requires
        patch_commondt_error(
            c.len(),
            encode_utf8(nickname).len(),
            encode_utf8(email).len(),
            encode_utf8(password).len(),
        ) is None,
    ensures
        ({
            let p = patched_commondt(c, encode_utf8(nickname), encode_utf8(email), encode_utf8(password), online);
            let back = decrypt_spec(encrypt_spec(p, true), true);
            &&& read_commondt_error(back) is None
            &&& nickname_field(back) == nickname_field(p)
            &&& email_field(back) == email_field(p)
            &&& password_field(back) == password_field(p)
            &&& back[0x91] == p[0x91]
            &&& decode_utf8(nickname_field(back)) == nickname + crate::text::nuls((32 - encode_utf8(nickname).len()) as nat)
            &&& decode_utf8(email_field(back)) == (if online {
                email + crate::text::nuls((52 - encode_utf8(email).len()) as nat)
            } else {
                crate::text::nuls(52)
            })
            &&& decode_utf8(password_field(back)) == (if online {
                password + crate::text::nuls((31 - encode_utf8(password).len()) as nat)
            } else {
                crate::text::nuls(31)
            })
            &&& (back[0x91] == 1) == online
        }),
{
    let p = patched_commondt(c, encode_utf8(nickname), encode_utf8(email), encode_utf8(password), online);
    lemma_decrypt_save_encrypt_save(p);
    let z = zero_padded(p);
    let m = 8 * (z.len() / 8) as int;
    let back = decrypt_spec(encrypt_spec(p, true), true);
    assert(back == z.subrange(0, m));
    assert(m >= 0x110);
    assert forall|i: int| 0 <= i < 0x110 implies back[i] == p[i] by {
        assert(back[i] == z[i]);
    }
    assert(nickname_field(back) =~= nickname_field(p));
    assert(email_field(back) =~= email_field(p));
    assert(password_field(back) =~= password_field(p));
    lemma_read_commondt_after_patch(c, nickname, email, password, online);
}

} // verus!
