use tdu_savegame::util::{read_profile_list, write_profile_list};

fn strings(names: &[&str]) -> Vec<String> {
    names.iter().map(|s| String::from(*s)).collect()
}

#[test]
fn write_profile_list_bytes() {
    let bytes = write_profile_list(&strings(&["Katie3", "Bob"]));
    let mut expected = vec![6u8, 0];
    expected.extend_from_slice(b"Katie3");
    expected.extend_from_slice(&[3, 0]);
    expected.extend_from_slice(b"Bob");
    expected.extend_from_slice(&[0xff, 0xff, 0x58, 0x8d, 0, 0, 0, 0, 0, 0]);
    assert_eq!(bytes, expected);
    assert_eq!(write_profile_list(&Vec::new()), vec![0xff, 0xff, 0x58, 0x8d, 0, 0, 0, 0, 0, 0]);
}

#[test]
fn profile_list_round_trip() {
    for names in [vec!["Katie3"], vec!["Katie3", "Bob", "x"], vec!["Zoë", "日本"]] {
        let list = strings(&names);
        assert_eq!(read_profile_list(&write_profile_list(&list)).unwrap(), list);
    }
}

#[test]
fn read_profile_list_names() {
    let bytes = vec![0x5d, 0x00, b'A', b'b', 0x07, 0x00, b'C', 0xff];
    assert_eq!(read_profile_list(&bytes).unwrap(), strings(&["Ab", "C"]));
    // A zero byte right after the header closes an empty name.
    let bytes = vec![1, 0, 0, b'x', 0xff];
    assert_eq!(read_profile_list(&bytes).unwrap(), strings(&["", "x"]));
}

#[test]
fn read_profile_list_errors() {
    assert_eq!(read_profile_list(&vec![1, 0]).unwrap_err(), "profile_list too short");
    assert_eq!(read_profile_list(&vec![1, 0, b'a', b'b']).unwrap_err(), "profile_list ended unexpectedly");
    assert_eq!(read_profile_list(&vec![1, 0, 0xc3, 0xff]).unwrap_err(), "failed decoding profile name");
    assert_eq!(read_profile_list(&vec![1, 0, 0xc3, 0x28, 0x00, b'a']).unwrap_err(), "failed decoding profile name");
}

#[test]
fn first_name_length_is_not_read() {
    let long = "L".repeat(300);
    for names in [vec![long.as_str(), "b"], vec!["", "b"], vec![""], vec![long.as_str()]] {
        let list = strings(&names);
        assert_eq!(read_profile_list(&write_profile_list(&list)).unwrap(), list);
    }
}

#[test]
fn header_and_bytes_after_end_mark_are_ignored() {
    let a = vec![6u8, 0, b'K', b'a', 3, 0, b'B', 0xff, 1, 2, 3];
    let b = vec![0x5du8, 0x99, b'K', b'a', 3, 0, b'B', 0xff];
    assert_eq!(read_profile_list(&a).unwrap(), read_profile_list(&b).unwrap());
    assert_eq!(read_profile_list(&b).unwrap(), strings(&["Ka", "B"]));
}
