use command_line_rust::common::input_paths;
use command_line_rust::libhead::{read_bytes, read_lines, run, Args};
use command_line_rust::stream::Stream;

fn manylines() -> Vec<u8> {
    let mut text = String::new();
    for i in 0..100 {
        text.push_str(&format!("{:04}\n", i));
    }
    text.into_bytes()
}

fn args(line_count: usize, bytes_count: Option<usize>, files: &[&str]) -> Args {
    Args {
        line_count,
        bytes_count,
        files: files.iter().map(|s| s.to_string()).collect(),
    }
}

#[test]
fn single_file() {
    let out = run(&args(4, None, &["tests/head/manylines.txt"]), &vec![Ok(manylines())]);
    assert_eq!(out.code, 0);
    assert_eq!(out.stdout, "0000\n0001\n0002\n0003\n");
    assert_eq!(out.stderr, "");
}

#[test]
fn byte_flag() {
    let out = run(&args(10, Some(10), &["tests/head/manylines.txt"]), &vec![Ok(manylines())]);
    assert_eq!(out.code, 0);
    assert_eq!(out.stdout, "0000\n0001\n");
    assert_eq!(out.stderr, "");
}

#[test]
fn head_stdin() {
    let stdin = "0\n1\n2\n3\n4\n5\n6\n7\n8\n9".as_bytes().to_vec();
    let options = args(4, None, &[]);
    assert_eq!(input_paths(&options.files), vec!["".to_string()]);
    let out = run(&options, &vec![Ok(stdin)]);
    assert_eq!(out.code, 0);
    assert_eq!(out.stdout, "0\n1\n2\n3\n");
    assert_eq!(out.stderr, "");
}

#[test]
fn multiple_files() {
    let out = run(
        &args(1, None, &["tests/head/manylines.txt", "tests/head/manylines.txt"]),
        &vec![Ok(manylines()), Ok(manylines())],
    );
    assert_eq!(out.code, 0);
    assert_eq!(
        out.stdout,
        "==> tests/head/manylines.txt <==
0000

==> tests/head/manylines.txt <==
0000
"
    );
    assert_eq!(out.stderr, "");
}

#[test]
fn does_not_exist() {
    let out = run(
        &args(10, None, &["does-not-exist"]),
        &vec![Err("No such file or directory (os error 2)".to_string())],
    );
    assert_eq!(out.code, 1);
    assert_eq!(out.stdout, "");
    assert_eq!(
        out.stderr,
        "head: does-not-exist: No such file or directory (os error 2)\n"
    );
}

#[test]
fn head_goes_on_after_a_file_that_fails() {
    let out = run(
        &args(1, None, &["a", "missing", "b"]),
        &vec![
            Ok(b"1\n2\n".to_vec()),
            Err("Permission denied (os error 13)".to_string()),
            Ok(b"3\n4\n".to_vec()),
        ],
    );
    assert_eq!(out.code, 1);
    assert_eq!(out.stdout, "==> a <==\n1\n\n==> b <==\n3\n");
    assert_eq!(out.stderr, "head: missing: Permission denied (os error 13)\n");
}

#[test]
fn head_read_lines() {
    let mut stream = Stream::new("a\nb\nc\n".as_bytes());
    assert_eq!(read_lines(&mut stream, 2), "a\nb\n");
    // The stream stands after what was read.
    assert_eq!(read_lines(&mut stream, 2), "c\n");
    assert_eq!(read_lines(&mut stream, 2), "\n");
    let mut stream = Stream::new("a\nb\nc\n".as_bytes());
    assert_eq!(read_lines(&mut stream, 0), "\n");
    let mut stream = Stream::new("a\nb\nc".as_bytes());
    assert_eq!(read_lines(&mut stream, usize::MAX), "a\nb\nc\n");
    // A line that is no text is among the lines that are read, and left out.
    let mut stream = Stream::new(b"a\n\xff\nc\n");
    assert_eq!(read_lines(&mut stream, 2), "a\n");
    let mut stream = Stream::new(b"a\n\xff\nc\n");
    assert_eq!(read_lines(&mut stream, 3), "a\nc\n");
}

#[test]
fn head_read_bytes() {
    let mut stream = Stream::new("Hello, world".as_bytes());
    assert_eq!(read_bytes(&mut stream, 5), "Hello");
    assert_eq!(read_bytes(&mut stream, 2), ", ");
    assert_eq!(read_bytes(&mut stream, 100), "world");
    assert_eq!(read_bytes(&mut stream, 100), "");
    let mut stream = Stream::new("é".as_bytes());
    assert_eq!(read_bytes(&mut stream, 1), "\u{fffd}");
    let mut stream = Stream::new("abc".as_bytes());
    assert_eq!(read_bytes(&mut stream, 0), "");
}
