use memprof::numeral::{
    digit, digit_to_char, parse_digits, parse_float, parse_long, push_fixed, push_float,
    push_numeral,
};
use memprof::text::{
    chars_of, ends_with, find, push_chars, space, split_bounds, starts_with, string_of,
    trim_bounds,
};

fn chars(text: &str) -> Vec<char> {
    text.chars().collect()
}

#[test]
fn chars_of_gives_each_character() {
    assert_eq!(chars_of(""), Vec::<char>::new());
    assert_eq!(chars_of("a\tb"), vec!['a', '\t', 'b']);
    assert_eq!(chars_of("\u{e9}\u{4e16}"), vec!['\u{e9}', '\u{4e16}']);
}

#[test]
fn string_of_takes_a_range() {
    let v = chars("VmPeak:\t 1024 kB");

    assert_eq!(string_of(&v, 0, 7), "VmPeak:");
    assert_eq!(string_of(&v, 9, 13), "1024");
    assert_eq!(string_of(&v, 3, 3), "");
    assert_eq!(string_of(&v, 0, v.len()), "VmPeak:\t 1024 kB");
}

#[test]
fn push_chars_appends_a_range() {
    let v = chars("abcdef");
    let mut out = String::from("x");

    push_chars(&mut out, &v, 2, 5);
    push_chars(&mut out, &v, 6, 6);

    assert_eq!(out, "xcde");
}

#[test]
fn find_gives_the_first_place_or_the_end() {
    let v = chars("a.b.c");

    assert_eq!(find(&v, 0, 5, '.'), 1);
    assert_eq!(find(&v, 2, 5, '.'), 3);
    assert_eq!(find(&v, 4, 5, '.'), 5);
    assert_eq!(find(&v, 0, 1, '.'), 1);
    assert_eq!(find(&v, 1, 1, '.'), 1);
    assert_eq!(find(&v, 0, 5, 'x'), 5);
}

#[test]
fn split_bounds_agrees_with_the_standard_library() {
    for text in ["", "\t", "a", "a\tb", "\ta", "a\t", "\t\t", "a\t\tb\t", "\u{e9}\t\u{4e16}\u{754c}"] {
        let v = chars(text);
        let parts: Vec<String> = split_bounds(&v, '\t')
            .iter()
            .map(|(lo, hi)| string_of(&v, *lo, *hi))
            .collect();
        let expected: Vec<String> = text.split('\t').map(String::from).collect();

        assert_eq!(parts, expected);
    }
}

#[test]
fn starts_with_and_ends_with_agree_with_the_standard_library() {
    for text in ["", "k", "kB", "kBkB", "VmPeak: 1 kB", "VmPeak:", "Bk"] {
        for part in ["", "k", "kB", "VmPeak:", "VmPeak: 1 kB", "B"] {
            let v = chars(text);
            let p = chars(part);

            assert_eq!(starts_with(&v, 0, v.len(), &p), text.starts_with(part));
            assert_eq!(ends_with(&v, 0, v.len(), &p), text.ends_with(part));
        }
    }
}

#[test]
fn starts_with_and_ends_with_look_at_the_range_only() {
    let v = chars("abcabc");

    assert!(starts_with(&v, 3, 6, &chars("abc")));
    assert!(!starts_with(&v, 3, 5, &chars("abc")));
    assert!(!starts_with(&v, 1, 6, &chars("abc")));
    assert!(ends_with(&v, 0, 3, &chars("bc")));
    assert!(!ends_with(&v, 0, 4, &chars("bc")));
    assert!(!ends_with(&v, 2, 3, &chars("bc")));
}

#[test]
fn space_agrees_with_the_standard_library() {
    for code in 0u32..0x11_0000 {
        if let Some(c) = char::from_u32(code) {
            assert_eq!(space(c), c.is_whitespace());
        }
    }
}

#[test]
fn trim_bounds_agrees_with_the_standard_library() {
    for text in ["", " ", "  ", "a", " a", "a ", "\t a b \n", "\u{a0}1024\u{3000}", " \u{e9} "] {
        let v = chars(text);
        let (lo, hi) = trim_bounds(&v, 0, v.len());

        assert_eq!(string_of(&v, lo, hi), text.trim());
    }
}

#[test]
fn trim_bounds_looks_at_the_range_only() {
    let v = chars("  a  b  ");

    assert_eq!(trim_bounds(&v, 1, 4), (2, 3));
    let (lo, hi) = trim_bounds(&v, 3, 5);

    assert_eq!(lo, hi);
    assert!(3 <= lo && hi <= 5);
    assert_eq!(trim_bounds(&v, 2, 6), (2, 6));
}

#[test]
fn digit_of_each_character() {
    assert_eq!(digit('0'), Some(0));
    assert_eq!(digit('7'), Some(7));
    assert_eq!(digit('9'), Some(9));
    assert_eq!(digit('/'), None);
    assert_eq!(digit(':'), None);
    assert_eq!(digit('a'), None);
    assert_eq!(digit('\u{661}'), None);
    for d in 0..10 {
        assert_eq!(digit(digit_to_char(d)), Some(d));
        assert_eq!(digit_to_char(d), char::from_digit(d as u32, 10).unwrap());
    }
}

#[test]
fn parse_digits_reads_digits_only() {
    let v = chars("+0042x");

    assert_eq!(parse_digits(&v, 1, 5), Some(42));
    assert_eq!(parse_digits(&v, 0, 5), None);
    assert_eq!(parse_digits(&v, 1, 6), None);
    assert_eq!(parse_digits(&v, 2, 2), Some(0));
    assert_eq!(parse_digits(&chars("18446744073709551615"), 0, 20), Some(u64::MAX));
    assert_eq!(parse_digits(&chars("18446744073709551616"), 0, 20), None);
    assert_eq!(parse_digits(&chars("184467440737095516150"), 0, 21), None);
}

#[test]
fn parse_long_reads_a_range() {
    let v = chars("VmPeak:\t 1024 kB");

    assert_eq!(parse_long(&v, 9, 13), Some(1024));
    assert_eq!(parse_long(&v, 8, 13), None);
    assert_eq!(parse_long(&v, 9, 14), None);
    assert_eq!(parse_long(&v, 9, 9), None);
    assert_eq!(parse_long(&chars("+"), 0, 1), None);
    assert_eq!(parse_long(&chars("+12"), 0, 3), Some(12));
    assert_eq!(parse_long(&chars("1+2"), 0, 3), None);
}

#[test]
fn parse_float_reads_a_range() {
    let v = chars("x1.25y");

    assert_eq!(parse_float(&v, 1, 5), Some(1_250_000));
    assert_eq!(parse_float(&v, 1, 3), Some(1_000_000));
    assert_eq!(parse_float(&v, 1, 2), Some(1_000_000));
    assert_eq!(parse_float(&v, 2, 5), None);
    assert_eq!(parse_float(&v, 0, 5), None);
    assert_eq!(parse_float(&v, 1, 6), None);
    assert_eq!(parse_float(&v, 1, 1), None);
}

#[test]
fn push_numeral_writes_as_the_standard_library_does() {
    for n in [0u64, 1, 9, 10, 11, 99, 100, 241296, 1_600_000_000, u64::MAX - 1, u64::MAX] {
        let mut out = String::from(">");

        push_numeral(&mut out, n);

        assert_eq!(out, format!(">{}", n));
    }
}

#[test]
fn push_fixed_writes_the_last_digits() {
    let mut out = String::from(">");

    push_fixed(&mut out, 42, 6);
    push_fixed(&mut out, 1234, 2);
    push_fixed(&mut out, 7, 0);
    push_fixed(&mut out, 0, 3);

    assert_eq!(out, ">00004234000");
}

#[test]
fn push_float_writes_the_shortest_numeral() {
    for (v, text) in [
        (0u64, "0"),
        (1, "0.000001"),
        (1_000, "0.001"),
        (500_000, "0.5"),
        (1_000_000, "1"),
        (1_234_567, "1.234567"),
        (1_500_000, "1.5"),
        (1_050_000, "1.05"),
        (60_000_000, "60"),
        (u64::MAX, "18446744073709.551615"),
    ] {
        let mut out = String::new();

        push_float(&mut out, v);

        assert_eq!(out, text);
        assert_eq!(parse_float(&chars(text), 0, text.len()), Some(v));
    }
}
