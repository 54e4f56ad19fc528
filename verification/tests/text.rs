use nxdl::text::{
    cut_before_last, comes_before, find_char, from_chars, is_digit, is_hex_digit, is_white, lines,
    pick_filled_in, replace_char, same_ignoring_case, same_text, split, take_bytes, to_chars,
    to_lower, trim, trim_trailing,
};

fn chars(s: &str) -> Vec<char> {
    s.chars().collect()
}

#[test]
fn white_space_and_digits_are_those_of_std() {
    for n in 0..=0x10FFFFu32 {
        if let Some(c) = char::from_u32(n) {
            assert_eq!(is_white(c), c.is_whitespace(), "{c:?}");
            assert_eq!(is_digit(c), c.is_ascii_digit());
            assert_eq!(is_hex_digit(c), c.is_ascii_hexdigit());
        }
    }
}

#[test]
fn strings_come_apart_and_together() {
    for s in ["", "a", "héllo 🦀 wörld", "\u{0}\u{10FFFF}"] {
        assert_eq!(to_chars(s), chars(s));
        assert_eq!(from_chars(&chars(s)), s);
    }
    assert!(same_text("ab", "ab"));
    assert!(!same_text("ab", "aB"));
    assert!(same_ignoring_case("aBÄ", "AbÄ"));
    assert!(!same_ignoring_case("ä", "Ä"));
}

#[test]
fn trimming_is_that_of_std() {
    for s in ["", " ", "a", "  a b\t\n", "\u{3000}x\u{a0}", "x\u{200b}", "\r\n\r\n"] {
        assert_eq!(from_chars(trim(&chars(s))), s.trim());
        assert_eq!(from_chars(trim_trailing(&chars(s), 'b')), s.trim_end_matches('b'));
    }
    assert_eq!(from_chars(trim_trailing(&chars("a//b///"), '/')), "a//b");
}

#[test]
fn small_letters_are_ascii_only() {
    assert_eq!(from_chars(&to_lower(&chars("AZ[`aÄÉ@"))), "az[`aÄÉ@");
    assert_eq!(from_chars(&replace_char(&chars("a\\b/c"), '\\', '/')), "a/b/c");
}

#[test]
fn splitting_is_that_of_std() {
    for s in ["", ":", "a", "a:b", "::a::", "a:b:", "é:ü"] {
        let parts: Vec<String> = s.split(':').map(str::to_owned).collect();
        assert_eq!(split(&chars(s), ':'), parts);
    }
    for s in ["", "\n", "a", "a\n", "a\r\nb", "\r", "a\n\nb\r", "a\r\r\n", "\r\n"] {
        let found: Vec<String> = s.lines().map(str::to_owned).collect();
        assert_eq!(lines(&chars(s)), found, "{s:?}");
    }
}

#[test]
fn positions_are_found() {
    assert_eq!(find_char(&chars("a=b=c"), '='), 1);
    assert_eq!(find_char(&chars("abc"), '='), 3);
    assert_eq!(from_chars(cut_before_last(&chars("a/b/c"), '/')), "a/b");
    assert_eq!(from_chars(cut_before_last(&chars("abc"), '/')), "abc");
    assert_eq!(from_chars(cut_before_last(&chars("/abc"), '/')), "");
}

#[test]
fn byte_prefixes_end_at_characters() {
    for s in ["", "a", "ab", "abc", "é", "éa", "aé", "€", "🦀x", "a🦀"] {
        for n in 0..6 {
            let meant = if s.is_char_boundary(n) { Some(s[..n].to_owned()) } else { None };
            assert_eq!(take_bytes(s, n), meant, "{s:?} {n}");
        }
    }
}

#[test]
fn the_order_of_texts_is_that_of_std() {
    let all = ["", "a", "aa", "ab", "b", "A", "é", "e\u{301}", "\u{ffff}", "🦀", "z"];
    for a in all {
        for b in all {
            assert_eq!(comes_before(&chars(a), &chars(b)), a < b, "{a:?} {b:?}");
        }
    }
}

#[test]
fn the_first_filled_text_is_picked() {
    let list = vec![None, Some(" ".to_owned()), Some(" b ".to_owned()), Some("c".to_owned())];
    assert_eq!(pick_filled_in(&list), Some("b".to_owned()));
    assert_eq!(pick_filled_in(&list[..2]), None);
}
