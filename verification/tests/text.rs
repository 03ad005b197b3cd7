use word_trie::text::{letter_of, loose_key_of, scan_loose, scan_strict, strict_key_of};

fn chars(text: &str) -> Vec<char> {
    text.chars().collect()
}

#[test]
fn letters_are_classified_without_regard_to_case() {
    assert_eq!(letter_of('a'), Some('a'));
    assert_eq!(letter_of('z'), Some('z'));
    assert_eq!(letter_of('m'), Some('m'));
    assert_eq!(letter_of('A'), Some('a'));
    assert_eq!(letter_of('Z'), Some('z'));
    assert_eq!(letter_of('Q'), Some('q'));
}

#[test]
fn what_is_no_ascii_letter_is_no_letter() {
    for c in ['@', '[', '`', '{', '0', '9', ' ', '\'', '\0', '\n', '\u{7f}', '\u{e9}', '\u{212a}'] {
        assert_eq!(letter_of(c), None, "{:?}", c);
    }
}

#[test]
fn every_character_is_classified_as_std_does() {
    for code in 0u32..0x3000 {
        if let Some(c) = char::from_u32(code) {
            let expected =
                if c.is_ascii_alphabetic() { Some(c.to_ascii_lowercase()) } else { None };
            assert_eq!(letter_of(c), expected);
        }
    }
}

#[test]
fn a_loose_scan_keeps_the_letters() {
    assert_eq!(scan_loose("Hello, World!"), chars("helloworld"));
    assert_eq!(scan_loose("ape'"), chars("ape"));
    assert_eq!(scan_loose(""), chars(""));
    assert_eq!(scan_loose("12 34"), chars(""));
    assert_eq!(scan_loose("caf\u{e9}s"), chars("cafs"));
}

#[test]
fn a_strict_scan_refuses_what_is_no_letter() {
    assert_eq!(scan_strict("Hello"), Some(chars("hello")));
    assert_eq!(scan_strict(""), Some(chars("")));
    assert_eq!(scan_strict("Hello!"), None);
    assert_eq!(scan_strict(" hello"), None);
    assert_eq!(scan_strict("caf\u{e9}"), None);
}

#[test]
fn the_loose_key_of_ascii_text() {
    assert_eq!(loose_key_of("Apple"), chars("apple"));
    assert_eq!(loose_key_of("a'b"), chars("ab"));
    assert_eq!(loose_key_of("  "), chars(""));
}

#[test]
fn the_loose_key_of_other_text_goes_through_lower_case() {
    assert_eq!(loose_key_of("\u{212A}"), chars("k"));
    assert_eq!(loose_key_of("\u{130}x"), chars("ix"));
    assert_eq!(loose_key_of("\u{c9}A"), chars("a"));
}

#[test]
fn the_strict_key_of_text() {
    assert_eq!(strict_key_of("Apple"), Some(chars("apple")));
    assert_eq!(strict_key_of("a'b"), None);
    assert_eq!(strict_key_of(""), Some(chars("")));
    assert_eq!(strict_key_of("\u{212A}elvin"), Some(chars("kelvin")));
    assert_eq!(strict_key_of("\u{130}"), None);
    assert_eq!(strict_key_of("\u{e9}"), None);
}

#[test]
fn ascii_text_is_read_as_its_lower_case_is() {
    for code in 0u8..128 {
        let text = format!("x{}y", code as char);
        assert_eq!(loose_key_of(&text), scan_loose(&text.to_lowercase()));
        assert_eq!(strict_key_of(&text), scan_strict(&text.to_lowercase()));
    }
}

#[test]
fn ascii_letters_are_read_alike_next_to_other_text() {
    for code in 0u8..128 {
        let alone = format!("{}q", code as char);
        let beside = format!("{}q\u{e9}", code as char);
        assert_eq!(loose_key_of(&alone), loose_key_of(&beside));
    }
}
