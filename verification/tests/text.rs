use rustclaw::text::{
    align_left, align_right, ascii_lower_of, byte_count, char_width, collapse, count_fitting,
    count_fitting_back, decimal_of, hex_of, join_strings, lines_of, parse_decimal, pieces_of,
    signed_decimal_of, split_of, split_once_of, str_contains, str_count, str_replace, take_chars,
    trimmed, trimmed_slashes, words_of,
};

fn strings(v: &[&str]) -> Vec<String> {
    v.iter().map(|s| s.to_string()).collect()
}

#[test]
fn lines_end_at_line_feeds() {
    for s in ["", "a", "a\n", "a\nb", "a\r\nb\r\n", "\n\n", "a\rb", "a\r", "\r\n", "a\r\r\n"] {
        let std: Vec<String> = s.lines().map(|l| l.to_string()).collect();
        assert_eq!(lines_of(s), std, "{s:?}");
    }
}

#[test]
fn pieces_keep_their_line_feeds() {
    for s in ["", "a", "a\n", "a\nb", "\n\n"] {
        let std: Vec<String> = s.split_inclusive('\n').map(|l| l.to_string()).collect();
        assert_eq!(pieces_of(s), std, "{s:?}");
    }
}

#[test]
fn white_space_is_what_unicode_says() {
    for c in ['\u{85}', '\u{a0}', '\u{1680}', '\u{2003}', '\u{2028}', '\u{202f}', '\u{205f}', '\u{3000}', '\t', '\u{b}'] {
        assert!(c.is_whitespace());
        assert_eq!(trimmed(&format!("{c}x{c}")), "x", "{c:?}");
    }
    assert_eq!(trimmed("\u{200b}x"), "\u{200b}x");
    assert_eq!(words_of(" a \n b\u{3000}c "), strings(&["a", "b", "c"]));
    assert_eq!(collapse(" a \n  b "), "a b");
}

#[test]
fn replacing_agrees_with_the_standard_library() {
    for (s, a, b) in [("aaa", "aa", "b"), ("abc", "", "-"), ("", "", "-"), ("xyx", "x", ""), ("áé", "", "|")] {
        assert_eq!(str_replace(s, a, b), s.replace(a, b), "{s:?} {a:?}");
        assert_eq!(str_count(s, a), s.matches(a).count(), "{s:?} {a:?}");
        assert_eq!(str_contains(s, a), s.contains(a));
    }
}

#[test]
fn bytes_are_counted_as_they_are_encoded() {
    for c in ['a', 'á', '日', '🦀', '\u{7f}', '\u{80}', '\u{7ff}', '\u{800}', '\u{ffff}'] {
        assert_eq!(char_width(c), c.len_utf8(), "{c:?}");
    }
    assert_eq!(byte_count("aá日🦀"), 10);
    let cs: Vec<char> = "aá日".chars().collect();
    assert_eq!(count_fitting(&cs, 4), 2);
    assert_eq!(count_fitting_back(&cs, 4), 1);
}

#[test]
fn numbers_are_written_and_read() {
    for n in [0u64, 7, 10, 120, u64::MAX] {
        assert_eq!(decimal_of(n), n.to_string());
        assert_eq!(parse_decimal(&n.to_string(), u64::MAX), Some(n));
    }
    for n in [0i64, -1, 7, i64::MIN, i64::MAX] {
        assert_eq!(signed_decimal_of(n), n.to_string());
    }
    assert_eq!(parse_decimal("18446744073709551616", u64::MAX), None);
    assert_eq!(parse_decimal("+", 10), None);
    assert_eq!(parse_decimal("+7", 10), Some(7));
    assert_eq!(parse_decimal("11", 10), None);
    assert_eq!(parse_decimal("7 ", 10), None);
}

#[test]
fn columns_are_padded_by_characters() {
    assert_eq!(align_right("á", 3), "  á");
    assert_eq!(align_left("á", 3), "á  ");
    assert_eq!(align_right("abcd", 3), "abcd");
    assert_eq!(align_left("abcd", 3), "abcd");
}

#[test]
fn small_pieces() {
    assert_eq!(hex_of(&[0, 15, 255]), "000fff");
    assert_eq!(trimmed_slashes("a//"), "a");
    assert_eq!(take_chars("áéí", 2), "áé");
    assert_eq!(ascii_lower_of("AÁz"), "aÁz");
    assert_eq!(split_of("a;b;", ';'), strings(&["a", "b", ""]));
    assert_eq!(split_once_of("a=b=c", '='), Some(("a".into(), "b=c".into())));
    assert_eq!(split_once_of("abc", '='), None);
    assert_eq!(join_strings(&strings(&["a", "b"]), ", "), "a, b");
}
