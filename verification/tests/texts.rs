use voice_prompt::device::{find_holding, find_preferred, select_device, Choice};
use voice_prompt::http::is_success;
use voice_prompt::json::{parse_json, Json};
use voice_prompt::output::{begin_copy, Copying};
use voice_prompt::text::{characters, contains, join, same, slice_text, stands_at, to_decimal};

fn names(list: &[&str]) -> Vec<String> {
    list.iter().map(|s| s.to_string()).collect()
}

#[test]
fn white_space_is_what_unicode_says() {
    // Texts of a single character are skipped exactly where that character is white space.
    for n in 0..0x11_0000u32 {
        if let Some(c) = char::from_u32(n) {
            let listed = matches!(
                n,
                9..=13 | 0x20 | 0x85 | 0xa0 | 0x1680 | 0x2000..=0x200a | 0x2028 | 0x2029 | 0x202f
                    | 0x205f | 0x3000
            );
            assert_eq!(c.is_whitespace(), listed);
            if listed {
                assert!(matches!(begin_copy(true, &c.to_string()), Copying::Skipped));
            }
        }
    }
}

#[test]
fn texts_are_searched() {
    assert!(contains("hello", "ell"));
    assert!(contains("hello", ""));
    assert!(contains("", ""));
    assert!(contains("aab", "ab"));
    assert!(!contains("hello", "hellos"));
    assert!(!contains("hello", "elo"));
    assert!(contains("gr\u{fc}n", "\u{fc}"));
    assert!(same("a\u{fc}", "a\u{fc}"));
    assert!(!same("a", "b"));
    assert!(!same("a", "ab"));
    let hay = characters("abcabc");
    let needle = characters("abc");
    assert!(stands_at(&hay, &needle, 3));
    assert!(!stands_at(&hay, &needle, 1));
    assert!(!stands_at(&hay, &needle, 9));
    assert_eq!(slice_text(&hay, 1, 4), "bca");
}

#[test]
fn numbers_are_written_in_decimal() {
    assert_eq!(to_decimal(0), "0");
    assert_eq!(to_decimal(10), "10");
    assert_eq!(to_decimal(987654321), "987654321");
    assert_eq!(to_decimal(u128::MAX), u128::MAX.to_string());
}

#[test]
fn texts_are_joined() {
    assert_eq!(join(&names(&[]), ", "), "");
    assert_eq!(join(&names(&["a"]), ", "), "a");
    assert_eq!(join(&names(&["a", "b", "c"]), ", "), "a, b, c");
}

#[test]
fn statuses_of_success() {
    assert!(!is_success(199));
    assert!(is_success(200));
    assert!(is_success(299));
    assert!(!is_success(300));
}

#[test]
fn documents_are_parsed() {
    let json = parse_json(r#"{"a": [null, true, 1.5, "x"], "b": {"c": "d"}}"#).unwrap();
    let items = json.get("a").unwrap().as_array().unwrap();
    assert!(matches!(items[0], Json::Null));
    assert!(matches!(items[1], Json::Bool(true)));
    assert!(matches!(items[2], Json::Number));
    assert_eq!(items[3].as_str(), Some("x"));
    assert_eq!(json.get("b").unwrap().get("c").unwrap().as_str(), Some("d"));
    assert!(json.get("z").is_none());
    assert!(json.as_str().is_none());
    assert!(json.as_array().is_none());
    assert!(items[3].get("a").is_none());
}

#[test]
fn the_last_member_of_a_name_counts() {
    let json = parse_json(r#"{"a": "first", "a": "second"}"#).unwrap();
    assert_eq!(json.get("a").unwrap().as_str(), Some("second"));
}

#[test]
fn a_broken_document_is_reported_as_serde_json_does() {
    let reason = parse_json("{\"a\": ").unwrap_err();
    let expected = serde_json::from_str::<serde_json::Value>("{\"a\": ").unwrap_err().to_string();
    assert_eq!(reason, expected);
    assert_eq!(reason, "EOF while parsing a value at line 1 column 6");
}

#[test]
fn a_device_is_found_whatever_its_case() {
    let list = names(&["Microphone (Realtek)", "Yeti Stereo Microphone", "YETI X"]);
    assert_eq!(select_device(&list, Some("yEtI")), Ok(Choice::Listed(1)));
    assert_eq!(select_device(&list, Some("")), Ok(Choice::Listed(0)));
    assert_eq!(select_device(&names(&["\u{c4}u\u{df}eres"]), Some("\u{e4}U")), Ok(Choice::Listed(0)));
}

#[test]
fn a_missing_device_is_reported() {
    assert_eq!(
        select_device(&names(&["Built-in"]), Some("Yeti")),
        Err("Specified audio device substring 'Yeti' not found.".to_string())
    );
    assert_eq!(
        select_device(&names(&[]), Some("")),
        Err("Specified audio device substring '' not found.".to_string())
    );
}

#[test]
fn the_webcam_is_preferred() {
    let list = names(&["Line In", "Microphone (HD Pro Webcam C920)", "C920"]);
    assert_eq!(select_device(&list, None), Ok(Choice::Listed(1)));
    assert_eq!(select_device(&names(&["", "my C920 cam"]), None), Ok(Choice::Listed(1)));
    assert_eq!(select_device(&names(&["c920"]), None), Ok(Choice::SystemDefault));
    assert_eq!(select_device(&names(&[]), None), Ok(Choice::SystemDefault));
    assert_eq!(find_preferred(&list), Some(1));
}

#[test]
fn a_name_is_found_as_it_stands() {
    let list = names(&["alpha", "beta", "alphabet"]);
    assert_eq!(find_holding(&list, "bet"), Some(1));
    assert_eq!(find_holding(&list, "alphabet"), Some(2));
    assert_eq!(find_holding(&list, "Beta"), None);
}
