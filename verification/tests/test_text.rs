use command_line_rust::number::{format_decimal, format_number, parse_number, NumberError};
use command_line_rust::text::{
    char_is_space, chars_of, count_words, decode_lossy, decode_strict, join_strings, push_lines,
    split_chars, string_of,
};
use std::num::IntErrorKind;

fn number(text: &str) -> Result<usize, NumberError> {
    let chars: Vec<char> = text.chars().collect();
    parse_number(&chars, 0, chars.len())
}

#[test]
fn numbers_in_decimal() {
    assert_eq!(format_decimal(0), "0");
    assert_eq!(format_decimal(7), "7");
    assert_eq!(format_decimal(10), "10");
    assert_eq!(format_decimal(1234567890), "1234567890");
    assert_eq!(format_decimal(usize::MAX), usize::MAX.to_string());
    for n in [0usize, 1, 9, 10, 11, 99, 100, 101, 4096, 65535, 1 << 40] {
        assert_eq!(format_decimal(n), n.to_string());
        assert_eq!(format_number(n, 8), format!("{:>8}", n));
        assert_eq!(format_number(n, 6), format!("{:>6}", n));
        assert_eq!(format_number(n, 4), format!("{:>4}", n));
        assert_eq!(format_number(n, 0), n.to_string());
    }
    assert_eq!(format_number(42, 5), "   42");
    assert_eq!(format_number(123456, 5), "123456");
}

#[test]
fn numbers_are_read_as_the_standard_library_reads_them() {
    let texts = [
        "", "+", "-", "0", "+0", "-0", "7", "+7", "007", "+007", "++7", "+-7", "7+", " 7", "7 ",
        "7a", "a7", "1_000", "٣", "18446744073709551615", "18446744073709551616",
        "+18446744073709551615", "018446744073709551615", "99999999999999999999999",
        "99999999999999999999999x", "9999999999999999999x9999", "x99999999999999999999999",
        "184467440737095516150", "18446744073709551615x", "1844674407370955161x",
    ];
    for text in texts {
        let ours = number(text);
        match text.parse::<usize>() {
            Ok(n) => assert_eq!(ours, Ok(n), "{:?}", text),
            Err(e) => {
                let expected = match e.kind() {
                    IntErrorKind::Empty => NumberError::Empty,
                    IntErrorKind::InvalidDigit => NumberError::InvalidDigit,
                    IntErrorKind::PosOverflow => NumberError::TooLarge,
                    other => panic!("{:?} for {:?}", other, text),
                };
                assert_eq!(ours, Err(expected), "{:?}", text);
                assert_eq!(expected.to_string(), e.to_string());
            }
        }
    }
}

#[test]
fn numbers_within_a_text() {
    let chars: Vec<char> = "ab12cd".chars().collect();
    assert_eq!(parse_number(&chars, 2, 4), Ok(12));
    assert_eq!(parse_number(&chars, 2, 3), Ok(1));
    assert_eq!(parse_number(&chars, 3, 3), Err(NumberError::Empty));
    assert_eq!(parse_number(&chars, 6, 6), Err(NumberError::Empty));
    assert_eq!(parse_number(&chars, 1, 4), Err(NumberError::InvalidDigit));
    assert_eq!(parse_number(&chars, 2, 6), Err(NumberError::InvalidDigit));
}

#[test]
fn white_space_is_what_the_standard_library_calls_so() {
    for code in 0u32..0x11000 {
        if let Some(c) = char::from_u32(code) {
            assert_eq!(char_is_space(c), c.is_whitespace(), "{:x}", code);
        }
    }
    assert!(!char_is_space('\u{10ffff}'));
}

#[test]
fn words_are_counted_as_the_standard_library_splits_them() {
    let texts = [
        "",
        " ",
        "a",
        " a",
        "a ",
        "  two  words  ",
        "tabs\tand\nbreaks\r\n",
        "wide\u{3000}blank",
        "no\u{200b}break",
        "日本語 テキスト",
    ];
    for text in texts {
        let chars: Vec<char> = text.chars().collect();
        assert_eq!(count_words(&chars), text.split_whitespace().count(), "{:?}", text);
    }
}

#[test]
fn fields_are_split_as_the_standard_library_splits_them() {
    let texts = ["", ",", "a", "a,b", ",a", "a,", "a,,b", ",,", "日,本,語"];
    for text in texts {
        let chars: Vec<char> = text.chars().collect();
        let ours: Vec<String> = split_chars(&chars, ',')
            .iter()
            .map(|field| field.iter().collect())
            .collect();
        let theirs: Vec<String> = text.split(',').map(|s| s.to_string()).collect();
        assert_eq!(ours, theirs, "{:?}", text);
    }
}

#[test]
fn strings_and_their_characters() {
    assert_eq!(chars_of("aé日"), vec!['a', 'é', '日']);
    assert_eq!(chars_of(""), Vec::<char>::new());
    assert_eq!(string_of(&vec!['a', 'é', '日']), "aé日");
    assert_eq!(string_of(&Vec::new()), "");
}

#[test]
fn bytes_to_text() {
    assert_eq!(decode_strict("grün".as_bytes()), Some("grün".to_string()));
    assert_eq!(decode_strict(b""), Some(String::new()));
    assert_eq!(decode_strict(b"\xff"), None);
    assert_eq!(decode_strict(b"a\xc3"), None);
    assert_eq!(decode_strict(b"\xed\xa0\x80"), None);
    assert_eq!(decode_strict(b"\xc0\x80"), None);
    assert_eq!(decode_lossy("grün".as_bytes()), "grün");
    assert_eq!(decode_lossy(b""), "");
    assert_eq!(decode_lossy(b"a\xffb\xc3"), "a\u{fffd}b\u{fffd}");
}

#[test]
fn joining_and_lining_up() {
    let parts = vec!["a".to_string(), "".to_string(), "c".to_string()];
    assert_eq!(join_strings(&parts, "\n"), "a\n\nc");
    assert_eq!(join_strings(&parts, ", "), "a, , c");
    assert_eq!(join_strings(&parts[..1].to_vec(), "\n"), "a");
    assert_eq!(join_strings(&Vec::new(), "\n"), "");
    let mut out = "> ".to_string();
    push_lines(&mut out, &parts);
    assert_eq!(out, "> a\n\nc\n");
    push_lines(&mut out, &Vec::new());
    assert_eq!(out, "> a\n\nc\n");
}
