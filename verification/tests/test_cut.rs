use command_line_rust::libcut::cut_fields;

#[test]
fn cut_bytes_legit() {
    let line = "012345";
    let range = 0usize..4usize;
    assert_eq!(command_line_rust::libcut::cut_bytes(line, &range), "0123");
}

#[test]
fn test_cut_chars() {
    let line = "那么古尔丹，代价是什么呢";
    let range = 2usize..5usize;
    assert_eq!(command_line_rust::libcut::cut_chars(line, &range), "古尔丹");
}

#[test]
fn test_cut_csv() {
    let line = "0,1,2,3,4,5,6,7,8,9";
    let delim = ',';
    let range = 0usize..4usize;
    assert_eq!(cut_fields(line, &delim, &range), "0,1,2,3");
}

#[test]
fn test_cut_tsv_outside() {
    let line = "0\t1\t2\t3\t4\t5\t6\t7\t8\t9";
    let delim = '\t';
    let range = 8usize..99usize;
    assert_eq!(cut_fields(line, &delim, &range), "8\t9");
}

use command_line_rust::stream::Stream;
use command_line_rust::libcut::{
    cut_line, cut_reader, parse_list, parse_range, run, Args, CutRange, ParsingError,
};
use command_line_rust::number::NumberError;

const BOOKS: &str = "Author,Year,Title\nÉmile Zola,1865,La Fortune des Rougon\nSamuel Beckett,1952,Waiting for Godot\nJules Verne,1870,20,000 Leagues Under the Sea\n";

fn args(bytes: Option<&str>, chars: Option<&str>, fields: Option<&str>, delimiter: char) -> Args {
    Args {
        byte_ranges: bytes.map(|s| s.to_string()),
        char_ranges: chars.map(|s| s.to_string()),
        field_ranges: fields.map(|s| s.to_string()),
        delimiter,
        files: vec!["tests/cut/books.csv".to_string()],
    }
}

fn books() -> Vec<Result<Vec<u8>, String>> {
    vec![Ok(BOOKS.as_bytes().to_vec())]
}

#[test]
fn cut_bytes() {
    let out = run(&args(Some("1-2"), None, None, '\t'), &books()).unwrap();
    assert_eq!(out.code, 0);
    assert_eq!(
        out.stdout,
        "Au
É
Sa
Ju
"
    );
}

#[test]
fn cut_chars() {
    let out = run(&args(None, Some("1,2,3-10"), None, '\t'), &books()).unwrap();
    assert_eq!(out.code, 0);
    assert_eq!(
        out.stdout,
        "Author,Yea
Émile Zola
Samuel Bec
Jules Vern
"
    );
}

#[test]
fn cut_csv() {
    let out = run(&args(None, None, Some("2"), ','), &books()).unwrap();
    assert_eq!(out.code, 0);
    assert_eq!(
        out.stdout,
        "Year
1865
1952
1870
"
    );
}

#[test]
fn cut_outside_range() {
    let out = run(&args(None, Some("77-99"), None, '\t'), &books()).unwrap();
    assert_eq!(out.code, 0);
    assert_eq!(
        out.stdout,
        "



"
    );
}

#[test]
fn cut_half_a_character_is_replaced() {
    let range = 0usize..1usize;
    assert_eq!(command_line_rust::libcut::cut_bytes("Émile", &range), "\u{fffd}");
    let range = 1usize..3usize;
    assert_eq!(command_line_rust::libcut::cut_bytes("Émile", &range), "\u{fffd}m");
}

#[test]
fn cut_with_empty_and_reversed_ranges() {
    let empty = 3usize..3usize;
    let reversed = 4usize..2usize;
    let beyond = 10usize..20usize;
    for range in [&empty, &reversed, &beyond] {
        assert_eq!(command_line_rust::libcut::cut_bytes("012345", range), "");
        assert_eq!(command_line_rust::libcut::cut_chars("012345", range), "");
        assert_eq!(
            command_line_rust::libcut::cut_fields("0,1,2,3,4,5", &',', range),
            ""
        );
    }
    let all = 0usize..usize::MAX;
    assert_eq!(command_line_rust::libcut::cut_chars("日本語", &all), "日本語");
    assert_eq!(
        command_line_rust::libcut::cut_fields(",a,,b,", &',', &all),
        ",a,,b,"
    );
    let second = 1usize..2usize;
    assert_eq!(command_line_rust::libcut::cut_fields("", &',', &second), "");
    let first = 0usize..1usize;
    assert_eq!(command_line_rust::libcut::cut_fields("abc", &',', &first), "abc");
    assert_eq!(command_line_rust::libcut::cut_fields("a,b", &',', &second), "b");
}

#[test]
fn ranges_of_a_list() {
    assert_eq!(parse_range("1"), Ok(0usize..1usize));
    assert_eq!(parse_range("+7"), Ok(6usize..7usize));
    assert_eq!(parse_range("007"), Ok(6usize..7usize));
    assert_eq!(parse_range("3-10"), Ok(2usize..10usize));
    assert_eq!(parse_range("5-2"), Ok(4usize..2usize));
    assert_eq!(parse_range("+1-+3"), Ok(0usize..3usize));
    assert_eq!(parse_range("0"), Err(ParsingError::ZeroPosition));
    assert_eq!(parse_range("0-4"), Err(ParsingError::ZeroPosition));
    assert_eq!(parse_range("4-0"), Err(ParsingError::ZeroPosition));
    assert_eq!(parse_range(""), Err(ParsingError::InvalidInput));
    assert_eq!(parse_range("abc"), Err(ParsingError::InvalidInput));
    assert_eq!(parse_range("1,2"), Err(ParsingError::InvalidInput));
    assert_eq!(
        parse_range("-4"),
        Err(ParsingError::Number(NumberError::Empty))
    );
    assert_eq!(
        parse_range("4-"),
        Err(ParsingError::Number(NumberError::Empty))
    );
    assert_eq!(
        parse_range("a-4"),
        Err(ParsingError::Number(NumberError::InvalidDigit))
    );
    assert_eq!(
        parse_range("1-2-3"),
        Err(ParsingError::Number(NumberError::InvalidDigit))
    );
    assert_eq!(
        parse_range("+-4"),
        Err(ParsingError::Number(NumberError::InvalidDigit))
    );
    assert_eq!(
        parse_range("1-99999999999999999999999"),
        Err(ParsingError::Number(NumberError::TooLarge))
    );
    assert_eq!(
        parse_range("99999999999999999999999x-1"),
        Err(ParsingError::Number(NumberError::TooLarge))
    );
    assert_eq!(parse_range("99999999999999999999999"), Err(ParsingError::InvalidInput));
    assert_eq!(
        parse_range("18446744073709551615"),
        Ok(18446744073709551614usize..18446744073709551615usize)
    );
}

#[test]
fn range_errors_in_words() {
    assert_eq!(
        ParsingError::ZeroPosition.to_string(),
        "list: value may not contain 0's"
    );
    assert_eq!(ParsingError::InvalidInput.to_string(), "list: invalid input");
    assert_eq!(
        ParsingError::Number(NumberError::Empty).to_string(),
        "cannot parse integer from empty string"
    );
    assert_eq!(
        ParsingError::Number(NumberError::InvalidDigit).to_string(),
        "invalid digit found in string"
    );
    assert_eq!(
        ParsingError::Number(NumberError::TooLarge).to_string(),
        "number too large to fit in target type"
    );
}

#[test]
fn cut_by_several_ranges() {
    let ranges = vec![
        CutRange::CharRange(0..1),
        CutRange::FieldRange(1..3, ','),
        CutRange::ByteRange(0..1),
    ];
    assert_eq!(
        cut_line("Émile Zola,1865,La Fortune", &ranges),
        "É1865,La Fortune\u{fffd}"
    );
    assert_eq!(cut_line("anything", &[]), "");
    let mut stream = Stream::new(b"ab,cd\n\xff\nxy\n");
    assert_eq!(
        cut_reader(&mut stream, &ranges),
        vec!["acda", "stream did not contain valid UTF-8", "xx"]
    );
}

#[test]
fn cut_refuses_a_bad_list() {
    assert_eq!(
        run(&args(Some("1,0,x"), None, None, '\t'), &books()).unwrap_err(),
        ParsingError::ZeroPosition
    );
    assert_eq!(
        run(&args(None, Some("1,,2"), None, '\t'), &books()).unwrap_err(),
        ParsingError::InvalidInput
    );
    assert_eq!(
        run(&args(None, None, Some("2-x"), '\t'), &books()).unwrap_err(),
        ParsingError::Number(NumberError::InvalidDigit)
    );
    assert_eq!(
        run(&args(None, None, None, '\t'), &books()).unwrap_err(),
        ParsingError::InvalidInput
    );
}

#[test]
fn cut_reports_a_file_that_fails_and_goes_on() {
    let mut options = args(None, Some("1"), None, '\t');
    options.files = vec!["a".to_string(), "gone".to_string(), "b".to_string()];
    let inputs = vec![
        Ok(b"xy\n".to_vec()),
        Err("No such file or directory (os error 2)".to_string()),
        Ok(b"zw\n".to_vec()),
    ];
    let out = run(&options, &inputs).unwrap();
    assert_eq!(out.code, 1);
    assert_eq!(out.stdout, "x\nz\n");
    assert_eq!(out.stderr, "cut: gone: No such file or directory (os error 2)\n");
    let out = run(&options, &vec![inputs[0].clone(), inputs[2].clone(), inputs[0].clone()]).unwrap();
    assert_eq!(out.code, 0);
    assert_eq!(out.stderr, "");
}

#[test]
fn lists_of_ranges() {
    let ranges = parse_list(&args(None, None, Some("2,4-5"), ';')).unwrap();
    assert_eq!(ranges.len(), 2);
    assert!(matches!(&ranges[0], CutRange::FieldRange(r, ';') if *r == (1usize..2usize)));
    assert!(matches!(&ranges[1], CutRange::FieldRange(r, ';') if *r == (3usize..5usize)));
    let ranges = parse_list(&args(Some("7"), Some("1"), Some("2"), ';')).unwrap();
    assert!(matches!(&ranges[..], [CutRange::ByteRange(r)] if *r == (6usize..7usize)));
    let ranges = parse_list(&args(None, Some("1"), Some("2"), ';')).unwrap();
    assert!(matches!(&ranges[..], [CutRange::CharRange(r)] if *r == (0usize..1usize)));
    assert_eq!(
        parse_list(&args(None, Some("1,x,0"), None, ';')).unwrap_err(),
        ParsingError::InvalidInput
    );
}
