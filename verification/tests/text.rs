use calendar_bot::text::{
    before_last_two_bytes, byte_count, chars_of, find_char, find_text, first_bytes, has_text,
    join, part, same_text, split_text, stands_at, string_of, trim, trim_end_char,
    white_space, width,
};

fn cs(s: &str) -> Vec<char> {
    s.chars().collect()
}

fn st(v: &[char]) -> String {
    v.iter().collect()
}

#[test]
fn characters_and_back() {
    let s = "añ€😀 b";
    assert_eq!(chars_of(s), cs(s));
    assert_eq!(string_of(&cs(s)), s);
    assert_eq!(chars_of(""), Vec::<char>::new());
    assert_eq!(string_of(&[]), "");
}

#[test]
fn searching() {
    let s = cs("banana");
    assert_eq!(find_text(&s, "ana", 0), Some(1));
    assert_eq!(find_text(&s, "ana", 2), Some(3));
    assert_eq!(find_text(&s, "ana", 4), None);
    assert_eq!(find_text(&s, "", 6), Some(6));
    assert_eq!(find_text(&s, "bananas", 0), None);
    assert_eq!(find_char(&s, 'n', 3), Some(4));
    assert_eq!(find_char(&s, 'x', 0), None);
    assert!(stands_at(&s, &cs("nan"), 2));
    assert!(!stands_at(&s, &cs("nan"), 4));
    assert!(has_text(&s, "nan"));
    assert!(!has_text(&s, "naan"));
    assert!(same_text(&s, "banana"));
    assert!(!same_text(&s, "banan"));
    assert_eq!(st(&part(&s, 1, 4)), "ana");
}

#[test]
fn splitting_agrees_with_std() {
    for s in ["", ";", "a", "a;b", ";a;;b;", "ä;ö"] {
        let pieces: Vec<String> = split_text(&cs(s), ';').iter().map(|p| st(p)).collect();
        let expected: Vec<String> = s.split(';').map(|p| p.to_owned()).collect();
        assert_eq!(pieces, expected, "{s:?}");
    }
}

#[test]
fn splitting_undoes_joining() {
    let pieces = vec!["FREQ=WEEKLY".to_owned(), String::new(), "BYDAY=MO".to_owned()];
    let whole = join(&pieces, ";");
    assert_eq!(whole, "FREQ=WEEKLY;;BYDAY=MO");
    let again: Vec<String> = split_text(&cs(&whole), ';').iter().map(|p| st(p)).collect();
    assert_eq!(again, pieces);
    assert_eq!(join(&Vec::new(), ";"), "");
}

#[test]
fn trimming_agrees_with_std() {
    for s in ["", "  ", " a b ", "\u{a0}x\u{2003}", "\t\r\nx", "x\u{200b}"] {
        assert_eq!(st(&trim(&cs(s))), s.trim(), "{s:?}");
    }
    for s in ["", "ZZ", "20240101Z", "20240101ZZ", "Z1"] {
        assert_eq!(st(&trim_end_char(&cs(s), 'Z')), s.trim_end_matches('Z'), "{s:?}");
    }
}

#[test]
fn white_space_is_that_of_std() {
    for n in 0..=0x10ffffu32 {
        if let Some(c) = char::from_u32(n) {
            assert_eq!(white_space(c), c.is_whitespace(), "{n:x}");
        }
    }
}

#[test]
fn widths_are_those_of_std() {
    for c in ['\0', '\u{7f}', '\u{80}', '\u{7ff}', '\u{800}', '\u{ffff}', '\u{10000}', '\u{10ffff}'] {
        assert_eq!(width(c), c.len_utf8());
    }
    assert_eq!(byte_count(&cs("aé€😀"), 100), "aé€😀".len());
    assert!(byte_count(&cs("aé€😀"), 5) >= 5);
}

#[test]
fn first_bytes_end_between_characters() {
    assert_eq!(first_bytes(&cs("20240101T1"), 8), Some(cs("20240101")));
    assert_eq!(first_bytes(&cs("2024"), 8), Some(cs("2024")));
    assert_eq!(first_bytes(&cs("1234567é"), 8), None);
    assert_eq!(first_bytes(&cs("123456é"), 8), Some(cs("123456é")));
    assert_eq!(first_bytes(&cs("é"), 0), Some(Vec::new()));
}

#[test]
fn last_two_bytes() {
    assert_eq!(before_last_two_bytes(&cs("3TH")), Some(1));
    assert_eq!(before_last_two_bytes(&cs("TH")), Some(0));
    assert_eq!(before_last_two_bytes(&cs("3é")), Some(1));
    assert_eq!(before_last_two_bytes(&cs("€")), None);
}
