use tdu_savegame::editor::{
    check_new_profile_name, identifier_from_fields, nickname_to_profile_name, patched_save_files,
    renamed_profile_list, ApplyRefusal, PatchFailure,
};
use tdu_savegame::tdudec::decrypt_save;
use tdu_savegame::text::trim_trailing_nuls;
use tdu_savegame::util::{read_commondt, PlayerIdentifier};

fn strings(names: &[&str]) -> Vec<String> {
    names.iter().map(|s| String::from(*s)).collect()
}

#[test]
fn profile_name_keeps_letters_and_digits_before_nul() {
    assert_eq!(nickname_to_profile_name(&String::from("Ka tie_3!")).unwrap(), "Katie3");
    assert_eq!(nickname_to_profile_name(&String::from("Zoë99\0\0abc")).unwrap(), "Zo99");
    assert_eq!(nickname_to_profile_name(&String::from("\0abc")).unwrap(), "");
    assert_eq!(nickname_to_profile_name(&String::from("")).unwrap(), "");
}

#[test]
fn check_new_profile_name_cases() {
    let list = strings(&["Katie3", "Bob"]);
    assert_eq!(check_new_profile_name(&String::from("Kate!"), &String::from("Katie3"), &list).unwrap(), "Kate");
    assert_eq!(check_new_profile_name(&String::from("Katie_3"), &String::from("Katie3"), &list).unwrap(), "Katie3");
    assert!(matches!(
        check_new_profile_name(&String::from("B-o-b"), &String::from("Katie3"), &list),
        Err(ApplyRefusal::ProfileNameInUse)
    ));
    assert!(matches!(
        check_new_profile_name(&String::from("__"), &String::from("Katie3"), &list),
        Err(ApplyRefusal::NoProfileName)
    ));
}

#[test]
fn renamed_list_puts_new_name_first() {
    let list = strings(&["A", "B", "C", "B"]);
    assert_eq!(
        renamed_profile_list(&list, &String::from("B"), &String::from("D")),
        strings(&["D", "A", "C"])
    );
    assert_eq!(renamed_profile_list(&Vec::new(), &String::from("B"), &String::from("D")), strings(&["D"]));
}

#[test]
fn trimming_drops_only_trailing_nuls() {
    assert_eq!(trim_trailing_nuls(&String::from("ab\0\0")), "ab");
    assert_eq!(trim_trailing_nuls(&String::from("a\0b\0")), "a\0b");
    assert_eq!(trim_trailing_nuls(&String::from("\0\0")), "");
    assert_eq!(trim_trailing_nuls(&String::from("é")), "é");
    let p = identifier_from_fields(&String::from("N\0"), &String::from("e\0\0"), &String::from("p"));
    assert_eq!((p.nickname.as_str(), p.email.as_str(), p.password.as_str()), ("N", "e", "p"));
}

#[test]
fn patched_files_read_back() {
    let commondt: Vec<u8> = (0..0x140).map(|i| (i % 5 + 0x30) as u8).collect();
    let playersave: Vec<u8> = vec![7u8; 0x80];
    let p = PlayerIdentifier {
        nickname: String::from("Katie3"),
        email: String::from("katie@katie.inc"),
        password: String::from("12345678"),
    };
    let (c, s) = patched_save_files(&commondt, &playersave, &p, true).unwrap();
    let (back, online) = read_commondt(&decrypt_save(&c)).unwrap();
    let fields = identifier_from_fields(&back.nickname, &back.email, &back.password);
    assert_eq!(fields.nickname, "Katie3");
    assert_eq!(fields.email, "katie@katie.inc");
    assert_eq!(fields.password, "12345678");
    assert!(online);
    let s = decrypt_save(&s.unwrap());
    assert_eq!(&s[0x1a..0x20], b"Katie3");
    let (_, none) = patched_save_files(&commondt, &Vec::new(), &p, false).unwrap();
    assert!(none.is_none());
}

#[test]
fn patched_files_report_failures() {
    let p = PlayerIdentifier { nickname: String::from("a"), email: String::new(), password: String::new() };
    assert!(matches!(
        patched_save_files(&vec![0u8; 8], &Vec::new(), &p, true),
        Err(PatchFailure::Commondt("commondt is too small"))
    ));
    assert!(matches!(
        patched_save_files(&vec![0u8; 0x200], &vec![0u8; 4], &p, true),
        Err(PatchFailure::Playersave("playersave is too small"))
    ));
}
