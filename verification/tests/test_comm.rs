use command_line_rust::libcomm::{compare, less_than, run, Args, Column};
use command_line_rust::stream::Stream;

const FAANG: &str = "Amazon\nApple\nFacebook\nGoogle\nNetflix\n";
const MANGA: &str = "Amazon\nApple\nGoogle\nMeta\nNetflix\n";
const EMPTY: &str = "";

fn args(sup1: bool, sup2: bool, sup3: bool, file1: &str, file2: &str) -> Args {
    Args {
        sup1,
        sup2,
        sup3,
        file1: file1.to_string(),
        file2: file2.to_string(),
    }
}

fn ok(text: &str) -> Result<Vec<u8>, String> {
    Ok(text.as_bytes().to_vec())
}

#[test]
fn test_faang_empty() {
    let out = run(&args(false, false, false, "FAANG.txt", "empty.txt"), &ok(FAANG), &ok(EMPTY));
    assert_eq!(out.code, 0);
    assert_eq!(
        out.stdout,
        "Amazon
Apple
Facebook
Google
Netflix
"
    );
    assert_eq!(out.stderr, "");
}

#[test]
fn test_empty_faang() {
    let out = run(&args(false, false, false, "empty.txt", "FAANG.txt"), &ok(EMPTY), &ok(FAANG));
    assert_eq!(out.code, 0);
    assert_eq!(
        out.stdout,
        "	Amazon
	Apple
	Facebook
	Google
	Netflix
"
    );
    assert_eq!(out.stderr, "");
}

#[test]
fn test_faang_manga() {
    let out = run(&args(false, false, false, "FAANG.txt", "MANGA.txt"), &ok(FAANG), &ok(MANGA));
    assert_eq!(out.code, 0);
    assert_eq!(
        out.stdout,
        "		Amazon
		Apple
Facebook
		Google
	Meta
		Netflix
"
    );
    assert_eq!(out.stderr, "");
}

#[test]
fn test_faang_manga_1() {
    let out = run(&args(false, true, true, "FAANG.txt", "MANGA.txt"), &ok(FAANG), &ok(MANGA));
    assert_eq!(out.code, 0);
    assert_eq!(out.stdout, "Facebook\n");
    assert_eq!(out.stderr, "");
}

#[test]
fn test_faang_manga_2() {
    let out = run(&args(true, false, true, "FAANG.txt", "MANGA.txt"), &ok(FAANG), &ok(MANGA));
    assert_eq!(out.code, 0);
    assert_eq!(out.stdout, "Meta\n");
    assert_eq!(out.stderr, "");
}

#[test]
fn test_faang_manga_3() {
    let out = run(&args(true, true, false, "FAANG.txt", "MANGA.txt"), &ok(FAANG), &ok(MANGA));
    assert_eq!(out.code, 0);
    assert_eq!(
        out.stdout,
        "Amazon
Apple
Google
Netflix
"
    );
    assert_eq!(out.stderr, "");
}

#[test]
fn comm_refuses_standard_input_twice() {
    let out = run(&args(false, false, false, "-", "-"), &ok(FAANG), &ok(MANGA));
    assert_eq!(out.code, 1);
    assert_eq!(out.stdout, "");
    assert_eq!(out.stderr, "comm: Two files cannot both be stdin\n");
    let out = run(&args(false, false, false, "-", "MANGA.txt"), &ok(MANGA), &ok(MANGA));
    assert_eq!(out.code, 0);
}

#[test]
fn comm_reports_each_input_that_fails() {
    let gone = Err("No such file or directory (os error 2)".to_string());
    let out = run(&args(false, false, false, "a", "b"), &gone, &Err("other".to_string()));
    assert_eq!(out.code, 1);
    assert_eq!(out.stdout, "");
    assert_eq!(
        out.stderr,
        "comm: a: No such file or directory (os error 2)\ncomm: b: other\n"
    );
    let out = run(&args(false, false, false, "a", "b"), &gone, &ok(FAANG));
    assert_eq!(out.code, 1);
    assert_eq!(out.stdout, "");
    assert_eq!(out.stderr, "comm: a: No such file or directory (os error 2)\n");
    let out = run(&args(false, false, false, "a", "b"), &ok(FAANG), &gone);
    assert_eq!(out.code, 1);
    assert_eq!(out.stdout, "");
    assert_eq!(out.stderr, "comm: b: No such file or directory (os error 2)\n");
}

#[test]
fn column_lines() {
    let one = Column::Col1("x".to_string());
    let two = Column::Col2("y".to_string());
    let three = Column::Col3("z".to_string());
    assert_eq!(one.to_string(), "x");
    assert_eq!(two.to_string(), "y");
    assert_eq!(three.to_string(), "z");
    assert_eq!(one.to_line(false, false, false), Some("x".to_string()));
    assert_eq!(two.to_line(false, false, false), Some("\ty".to_string()));
    assert_eq!(three.to_line(false, false, false), Some("\t\tz".to_string()));
    assert_eq!(one.to_line(true, false, false), None);
    assert_eq!(two.to_line(true, false, false), Some("y".to_string()));
    assert_eq!(three.to_line(true, false, false), Some("\tz".to_string()));
    assert_eq!(one.to_line(false, true, false), Some("x".to_string()));
    assert_eq!(two.to_line(false, true, false), None);
    assert_eq!(three.to_line(false, true, false), Some("\tz".to_string()));
    assert_eq!(three.to_line(true, true, false), Some("z".to_string()));
    assert_eq!(three.to_line(false, false, true), None);
    assert_eq!(two.to_line(false, false, true), Some("\ty".to_string()));
    assert_eq!(one.to_line(true, true, true), None);
}

#[test]
fn texts_in_order() {
    assert!(less_than("", "a"));
    assert!(!less_than("", ""));
    assert!(!less_than("a", ""));
    assert!(less_than("a", "b"));
    assert!(!less_than("b", "a"));
    assert!(less_than("a", "ab"));
    assert!(!less_than("ab", "a"));
    assert!(!less_than("ab", "ab"));
    assert!(less_than("Zebra", "apple"));
    assert!(less_than("z", "é"));
    assert!(less_than("é", "日"));
    assert!(less_than("\u{ffff}", "\u{10000}"));
    for (a, b) in [("", "a"), ("a", "ab"), ("é", "日"), ("z", "é"), ("b", "a"), ("x", "x")] {
        assert_eq!(less_than(a, b), a < b);
    }
}

#[test]
fn compare_merges_whatever_the_order() {
    let mut first = Stream::new("b\na\nc\n".as_bytes());
    let mut second = Stream::new("a\nc\n".as_bytes());
    let columns = compare(&mut first, &mut second);
    let lines: Vec<String> = columns
        .iter()
        .map(|c| c.to_line(false, false, false).unwrap())
        .collect();
    assert_eq!(lines, vec!["\ta", "b", "a", "\t\tc"]);
    // Lines that are no text take no part.
    let mut first = Stream::new(b"a\n\xff\nb\n");
    let mut second = Stream::new(b"\xfe\nb\n");
    let columns = compare(&mut first, &mut second);
    assert_eq!(columns.len(), 2);
    assert!(matches!(&columns[0], Column::Col1(s) if s == "a"));
    assert!(matches!(&columns[1], Column::Col3(s) if s == "b"));
}
