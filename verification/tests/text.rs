use dsh_desktop::text::{
    decimal_string, is_blank, join_strings, padded_string, read_u32, signed_string, split_lines,
    split_pieces, split_words, str_contains, trim_string,
};

fn chars(s: &str) -> Vec<char> {
    s.chars().collect()
}

fn strings(v: Vec<Vec<char>>) -> Vec<String> {
    v.into_iter().map(|l| l.into_iter().collect()).collect()
}

#[test]
fn white_space_is_what_std_calls_white_space() {
    let mut c = 0u32;
    while c < 0x11_0000 {
        if let Some(ch) = char::from_u32(c) {
            assert_eq!(dsh_desktop::text::white(ch), ch.is_whitespace(), "{:x}", c);
        }
        c += 1;
    }
}

#[test]
fn trims_like_std() {
    for s in ["", "  ", " a b\t\r\n", "\u{3000}中 文\u{a0}", "x"] {
        assert_eq!(trim_string(s), s.trim());
        assert_eq!(is_blank(s), s.trim().is_empty());
    }
}

#[test]
fn lines_are_cut_like_std() {
    for s in ["", "\n", "a", "a\n", "a\r\nb\rc\n\nd", "\r\n\r", "a\n\n"] {
        let want: Vec<String> = s.lines().map(|l| l.to_string()).collect();
        assert_eq!(strings(split_lines(&chars(s))), want, "{:?}", s);
    }
}

#[test]
fn words_and_pieces_are_cut_like_std() {
    for s in ["", " a  b\tc ", "TCP 0.0.0.0:3080", "\r\n"] {
        let want: Vec<String> = s.split_whitespace().map(|l| l.to_string()).collect();
        assert_eq!(strings(split_words(&chars(s))), want);
    }
    for s in ["", "a\r\nb", "\r\n\r\n", "1.2.3", "a\r"] {
        let want: Vec<String> = s.split("\r\n").map(|l| l.to_string()).collect();
        assert_eq!(strings(split_pieces(&chars(s), &chars("\r\n"))), want);
    }
}

#[test]
fn numbers_are_read_and_printed_like_std() {
    for s in ["0", "007", "+5", "-1", "", "+", "4294967295", "4294967296", "1a", "99999999999999999999"] {
        assert_eq!(read_u32(&chars(s)), s.parse::<u32>().ok(), "{:?}", s);
    }
    assert_eq!(decimal_string(18446744073709551615), "18446744073709551615");
    assert_eq!(decimal_string(0), "0");
    assert_eq!(padded_string(7, 3), "007");
    assert_eq!(padded_string(12345, 4), "12345");
    assert_eq!(signed_string(-2147483648), "-2147483648");
    assert_eq!(signed_string(42), "42");
}

#[test]
fn parts_are_found_and_joined() {
    assert!(str_contains("dsh web: ready", "web"));
    assert!(str_contains("x", ""));
    assert!(!str_contains("we", "web"));
    assert_eq!(join_strings(&["a".to_string(), "".to_string(), "c".to_string()], ", "), "a, , c");
    assert_eq!(join_strings(&[], ", "), "");
}
