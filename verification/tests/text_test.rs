use procpulse::text::{decimal_string, find, from_chars, join, parse_u32, parse_u64, push_padded};
use procpulse::text::{same_text, split_at, to_chars, trim, white_space, CharClass};

fn chars(s: &str) -> Vec<char> {
    s.chars().collect()
}

#[test]
fn white_space_agrees_with_the_standard_library() {
    for n in 0..=0x10ffffu32 {
        if let Some(c) = char::from_u32(n) {
            assert_eq!(white_space(c), c.is_whitespace());
        }
    }
}

#[test]
fn characters_of_texts() {
    for s in ["", "abc", "gr\u{fc}n \u{1f600}"] {
        assert_eq!(to_chars(s), chars(s));
        assert_eq!(from_chars(&chars(s)), s);
    }
}

#[test]
fn trimming_agrees_with_the_standard_library() {
    for s in ["", " ", "a", "  a b\t", "\u{a0}x\u{2003}", "\r\n"] {
        let c = chars(s);
        assert_eq!(from_chars(trim(&c, CharClass::Whitespace)), s.trim());
    }
    for s in ["\"'a'\"", "''", "a\"b", "\"a"] {
        let c = chars(s);
        assert_eq!(
            from_chars(trim(&c, CharClass::Quote)),
            s.trim_matches(|c| c == '"' || c == '\'')
        );
    }
}

#[test]
fn splitting_agrees_with_the_standard_library() {
    for s in ["", ",", "a,b;c", ";;", "a,"] {
        let expected: Vec<Vec<char>> = s.split([',', ';']).map(|p| p.chars().collect()).collect();
        assert_eq!(split_at(&chars(s), CharClass::ListSeparator), expected);
    }
    assert_eq!(find(&chars("a=b=c"), CharClass::One('='), 0), 1);
    assert_eq!(find(&chars("a=b=c"), CharClass::One('='), 2), 3);
    assert_eq!(find(&chars("abc"), CharClass::One('='), 0), 3);
}

#[test]
fn joining_texts() {
    let list = vec!["a".to_string(), "".to_string(), "b".to_string()];
    assert_eq!(join(&list, ", "), "a, , b");
    assert_eq!(join(&list[..1], ", "), "a");
    assert_eq!(join(&[], ", "), "");
    assert!(same_text("ab", "ab"));
    assert!(!same_text("ab", "aB"));
    assert!(!same_text("ab", "abc"));
}

#[test]
fn numbers_agree_with_the_standard_library() {
    for s in [
        "", "+", "-", "0", "-0", "00", "+7", "++7", "42", " 42", "42 ", "4_2", "18446744073709551615",
        "18446744073709551616", "99999999999999999999999", "4294967295", "4294967296", "1e3", "\u{0663}",
    ] {
        assert_eq!(parse_u64(&chars(s)), s.parse::<u64>().ok());
        assert_eq!(parse_u32(&chars(s)), s.parse::<u32>().ok());
    }
}

#[test]
fn decimal_notation_reads_back() {
    for n in [0u64, 7, 10, 99, 100, 4711, u64::MAX] {
        let s = decimal_string(n);
        assert_eq!(s, n.to_string());
        assert_eq!(parse_u64(&chars(&s)), Some(n));
    }
}

#[test]
fn padding() {
    let mut s = String::new();
    push_padded(&mut s, 7, 4);
    push_padded(&mut s, 12345, 2);
    push_padded(&mut s, 0, 1);
    assert_eq!(s, "0007123450");
}
