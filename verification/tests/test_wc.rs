use command_line_rust::libwc::WordCountInfo;
use command_line_rust::stream::Stream;

#[test]
fn create_word_cnt_info() {
    let test_str = "锟斤拷\n锘锘锘\n烫烫烫\n屯屯屯\n";
    let mut reader = Stream::new(test_str.as_bytes());
    let wcinfo = WordCountInfo::from_reader("", &mut reader);

    assert_eq!(wcinfo.line_cnt, 4);
    assert_eq!(wcinfo.word_cnt, 4);
    assert_eq!(wcinfo.byte_cnt, 40);
    assert_eq!(wcinfo.char_cnt, 16);
}

#[test]
fn combine_word_cnt_info() {
    let wc1 = WordCountInfo::new(1, 2, 3, 4, "one");
    let wc2 = WordCountInfo::new(1, 2, 3, 4, "one");
    let wc3 = WordCountInfo::new(1, 2, 3, 4, "one");
    let wc4 = WordCountInfo::new(1, 2, 3, 4, "one");
    let wc = WordCountInfo::from_word_counts(&[wc1, wc2, wc3, wc4]);
    assert_eq!(wc.line_cnt, 4);
    assert_eq!(wc.word_cnt, 8);
    assert_eq!(wc.byte_cnt, 12);
    assert_eq!(wc.char_cnt, 16);
    assert_eq!(wc.path, "total");
}

use command_line_rust::libwc::{run, Args};

const HAIKU: &str = "It's not DNS\nThere's no way it's DNS\nIt was DNS\n";

fn args(lines: bool, words: bool, bytes: bool, chars: bool, files: &[&str]) -> Args {
    Args {
        words,
        bytes,
        chars,
        lines,
        files: files.iter().map(|s| s.to_string()).collect(),
    }
}

fn ok(text: &str) -> Result<Vec<u8>, String> {
    Ok(text.as_bytes().to_vec())
}

#[test]
fn count_stdin() {
    let stdin = vec![ok("Hello, world!\n")];
    let out = run(&args(false, false, false, false, &[]), &stdin);
    assert_eq!(out.code, 0);
    assert_eq!(out.stdout, "       1       2      14 \n");
    assert_eq!(out.stderr, "");

    let out = run(&args(true, false, false, true, &[]), &stdin);
    assert_eq!(out.code, 0);
    assert_eq!(out.stdout, "       1      14 \n");
    assert_eq!(out.stderr, "");

    let out = run(&args(false, true, true, false, &[]), &stdin);
    assert_eq!(out.code, 0);
    assert_eq!(out.stdout, "       2      14 \n");
    assert_eq!(out.stderr, "");
}

#[test]
fn count_multiple_files() {
    let out = run(
        &args(false, false, false, false, &["tests/wc/haiku.txt", "tests/wc/haiku.txt"]),
        &vec![ok(HAIKU), ok(HAIKU)],
    );
    assert_eq!(out.code, 0);
    assert_eq!(
        out.stdout,
        "       3      11      48 tests/wc/haiku.txt
       3      11      48 tests/wc/haiku.txt
       6      22      96 total\n"
    );
    assert_eq!(out.stderr, "");
}

#[test]
fn count_nonascii() {
    let out = run(
        &args(true, true, false, true, &["tests/wc/nonascii.txt"]),
        &vec![ok("锟斤拷\n锘锘锘\n烫烫烫\n屯屯屯\n")],
    );
    assert_eq!(out.code, 0);
    assert_eq!(out.stdout, "       4       4      16 tests/wc/nonascii.txt\n");
    assert_eq!(out.stderr, "");
}

#[test]
fn count_does_not_exist() {
    let out = run(
        &args(false, false, false, false, &["does-not-exist"]),
        &vec![Err("No such file or directory (os error 2)".to_string())],
    );
    assert_eq!(out.code, 1);
    assert_eq!(out.stdout, "");
    assert_eq!(
        out.stderr,
        "wc: does-not-exist: No such file or directory (os error 2)\n"
    );
}

#[test]
fn count_goes_on_after_a_file_that_fails() {
    let out = run(
        &args(false, false, false, false, &["a", "missing", "b"]),
        &vec![ok("one two\n"), Err("gone".to_string()), ok("three\nfour\n")],
    );
    assert_eq!(out.code, 1);
    assert_eq!(
        out.stdout,
        "       1       2       8 a\n       2       2      11 b\n       3       4      19 total\n"
    );
    assert_eq!(out.stderr, "wc: missing: gone\n");
}

#[test]
fn count_words_between_white_space() {
    let text = "  one\ttwo\u{a0}three\u{3000}four \n\n five\u{2003}six\r\nlast";
    let mut reader = Stream::new(text.as_bytes());
    let info = WordCountInfo::from_reader("p", &mut reader);
    assert_eq!(info.line_cnt, 4);
    assert_eq!(info.word_cnt, 7);
    // The carriage return goes with the line feed; a line break counts
    // for the last line too.
    assert_eq!(info.char_cnt, 22 + 1 + 10 + 5);
    assert_eq!(info.byte_cnt, 25 + 1 + 12 + 5);
    assert_eq!(info.path, "p");
}

#[test]
fn count_leaves_out_lines_that_are_no_text() {
    let mut reader = Stream::new(b"one\n\xff\xff two\nthree\n");
    let info = WordCountInfo::from_reader("", &mut reader);
    assert_eq!(info.line_cnt, 2);
    assert_eq!(info.word_cnt, 2);
    assert_eq!(info.byte_cnt, 10);
    assert_eq!(info.char_cnt, 10);
}

#[test]
fn report_line_of_counts() {
    let info = WordCountInfo::new(1, 22, 333, 4444, "file");
    assert_eq!(
        info.to_string(true, true, true, true),
        "       1      22     333    4444 file"
    );
    assert_eq!(info.to_string(false, false, false, false), " file");
    assert_eq!(info.to_string(false, true, false, false), "      22 file");
    let wide = WordCountInfo::new(123456789, 0, 0, 0, "");
    assert_eq!(wide.to_string(true, true, false, false), "123456789       0 ");
    let total = WordCountInfo::from_word_counts(&[]);
    assert_eq!(total.to_string(true, true, true, true), "       0       0       0       0 total");
}
