use banking_jitter::text::{
    chars_of, is_whitespace, parse_number, parse_number_at, push_decimal, push_left, push_number,
    push_right, split_fields, split_lines, split_pieces, starts_with, string_of, trim,
};

fn strings(v: Vec<Vec<char>>) -> Vec<String> {
    v.into_iter().map(|w| w.into_iter().collect()).collect()
}

fn samples() -> Vec<&'static str> {
    vec![
        "",
        " ",
        "a",
        " a",
        "a ",
        "  a  b\tc\n",
        "one two",
        "\u{a0}x\u{2003}y\u{3000}",
        "a\r\nb\r\n",
        "a\nb",
        "a\n\nb\n",
        "\n",
        "\r\n",
        "a\r",
        "a\r\r\n",
        "\u{200b}z",
        "Δ_block = 400\u{85}ms",
    ]
}

#[test]
fn whitespace_is_unicode_white_space() {
    for code in 0..=0x10ffffu32 {
        if let Some(c) = char::from_u32(code) {
            assert_eq!(is_whitespace(c), c.is_whitespace(), "{code:x}");
        }
    }
}

#[test]
fn fields_lines_and_trim_agree_with_std() {
    for s in samples() {
        let chars = chars_of(s);
        let fields: Vec<&str> = s.split_whitespace().collect();
        assert_eq!(strings(split_fields(&chars)), fields);
        let lines: Vec<&str> = s.lines().collect();
        assert_eq!(strings(split_lines(&chars)), lines);
        let pieces: Vec<&str> = s.split('\n').collect();
        assert_eq!(strings(split_pieces(&chars, '\n')), pieces);
        assert_eq!(string_of(&trim(&chars)), s.trim());
    }
}

#[test]
fn numbers_agree_with_std() {
    for s in [
        "",
        "0",
        "7",
        "007",
        "+5",
        "+",
        "-",
        "-5",
        "++5",
        "5+",
        "1_000",
        " 5",
        "5 ",
        "12a",
        "٣",
        "18446744073709551615",
        "+18446744073709551615",
        "18446744073709551616",
        "18446744073709551620",
        "99999999999999999999",
        "184467440737095516150",
        "00000000000000000000000000042",
        "99999999999999999999999999999999x",
    ] {
        assert_eq!(parse_number(&chars_of(s)), s.parse::<u64>().ok(), "{s}");
    }
}

#[test]
fn number_at_defaults_to_zero() {
    let fields = split_fields(&chars_of("12 x 34"));
    assert_eq!(parse_number_at(&fields, 0), 12);
    assert_eq!(parse_number_at(&fields, 1), 0);
    assert_eq!(parse_number_at(&fields, 2), 34);
    assert_eq!(parse_number_at(&fields, 3), 0);
}

#[test]
fn decimals_read_back() {
    for n in [0u64, 1, 9, 10, 99, 100, 1000, 123456789, u64::MAX - 1, u64::MAX] {
        let mut out = String::new();
        push_decimal(&mut out, n);
        assert_eq!(out, n.to_string());
        assert_eq!(parse_number(&chars_of(&out)), Some(n));
    }
}

#[test]
fn columns_agree_with_std() {
    for s in ["", "abc", "exactly8", "longer than eight", "δ (ms)"] {
        let mut left = String::from("x");
        push_left(&mut left, s, 8);
        assert_eq!(left, format!("x{s:<8}"));
        let mut right = String::from("x");
        push_right(&mut right, s, 8);
        assert_eq!(right, format!("x{s:>8}"));
    }
    for n in [0u64, 42, 12345678, 123456789, u64::MAX] {
        let mut out = String::new();
        push_number(&mut out, n, 8);
        assert_eq!(out, format!("{n:>8}"));
    }
}

#[test]
fn prefixes() {
    let line = chars_of("voluntary_ctxt_switches:\t150");
    assert!(starts_with(&line, &chars_of("voluntary_ctxt_switches")));
    assert!(!starts_with(&line, &chars_of("nonvoluntary_ctxt_switches")));
    assert!(starts_with(&line, &chars_of("")));
    assert!(!starts_with(&chars_of("vol"), &chars_of("voluntary")));
}
