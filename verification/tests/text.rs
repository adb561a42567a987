use mockreplay::text::{
    eq_ignore_ascii_case, nth_word, parse_number, same_bytes, same_text, split_once, trim,
    trim_line_end, white_space,
};
use mockreplay::utf8_text::{push_decimal, push_text};

#[test]
fn white_space_is_that_of_unicode() {
    for c in '\0'..=char::MAX {
        assert_eq!(white_space(c), c.is_whitespace(), "{:?}", c);
    }
}

const SAMPLES: [&str; 14] = [
    "",
    " ",
    "a",
    " a ",
    "\r\n",
    "GET /x HTTP/1.1\r\n",
    "\u{2003}\u{e9}t\u{e9} \u{3000}",
    "k: v\r\n",
    ":",
    "a:b:c",
    "\n\r\n\r",
    "one  two\tthree",
    "\u{85}x\u{a0}y\u{1680}",
    "\u{1f600} \u{1f601}:\u{1f602}",
];

#[test]
fn trimming_is_that_of_the_standard_library() {
    for s in SAMPLES {
        assert_eq!(trim(s), s.trim());
        assert_eq!(trim_line_end(s), s.trim_end_matches(['\r', '\n']));
    }
}

#[test]
fn splitting_is_that_of_the_standard_library() {
    for s in SAMPLES {
        assert_eq!(split_once(s, ':'), s.split_once(':'));
        for n in 0..4 {
            assert_eq!(nth_word(s, n), s.split_whitespace().nth(n));
        }
    }
}

#[test]
fn numbers_are_read_as_the_standard_library_reads_them() {
    let numbers = [
        "", "0", "00", "7", "+7", "++7", "-7", "-0", "+", "-", " 7", "7 ", "1_0", "0x10", "65535",
        "65536", "99999", "18446744073709551615", "18446744073709551616", "184467440737095516150",
        "\u{663}", "12a",
    ];
    for s in numbers {
        assert_eq!(parse_number(s, usize::MAX), s.parse::<usize>().ok(), "{}", s);
        assert_eq!(
            parse_number(s, 65535),
            s.parse::<u16>().ok().map(|n| n as usize),
            "{}",
            s
        );
    }
    assert_eq!(parse_number("3", 2), None);
    assert_eq!(parse_number("0", 0), Some(0));
}

#[test]
fn comparing_without_case_is_that_of_the_standard_library() {
    let names = ["", "a", "A", "content-length", "Content-LENGTH", "\u{c9}", "\u{e9}", "[", "{", "@", "`"];
    for a in names {
        for b in names {
            assert_eq!(eq_ignore_ascii_case(a, b), a.eq_ignore_ascii_case(b));
            assert_eq!(same_text(a, b), a == b);
            assert_eq!(same_bytes(a.as_bytes(), b.as_bytes()), a == b);
        }
    }
}

#[test]
fn numbers_are_written_in_decimal() {
    for n in [0usize, 9, 10, 11, 99, 100, 65535, usize::MAX] {
        let mut out = b"n=".to_vec();
        push_decimal(&mut out, n);
        assert_eq!(out, format!("n={}", n).into_bytes());
    }
}

#[test]
fn text_is_written_as_utf8() {
    let mut out = Vec::new();
    push_text(&mut out, "a\u{e9}");
    push_text(&mut out, "\u{1f600}");
    assert_eq!(out, "a\u{e9}\u{1f600}".as_bytes());
}
