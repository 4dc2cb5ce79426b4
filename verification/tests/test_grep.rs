use command_line_rust::common::{Entry, Failure, FileKind};
use command_line_rust::libgrep::{
    match_filter_reader, plan_path, run, search, select_lines, walk_paths, Args, Walk,
};
use command_line_rust::pattern::Pattern;
use command_line_rust::stream::Stream;

const NOBODY: &str = "I'm Nobody! Who are you?
Are you—Nobody—too?
Then there's a pair of us!
Don't tell! they'd advertise—you know!

How dreary—to be—Somebody!
How public—like a Frog—
To tell one's name—the livelong June—
To an admiring Bog!
";
const BUSTLE: &str = "The bustle in a house
The morning after death
Is solemnest of industries
Enacted upon earth,—

The sweeping up the heart,
And putting love away
We shall not want to use again
Until eternity.
";
const FOX: &str = "The quick brown fox jumps over the lazy dog.\n";

fn args(pattern: &str, count: bool, invert_match: bool, ignore_case: bool, recursive: bool) -> Args {
    Args {
        count,
        invert_match,
        ignore_case,
        recursive,
        pattern: pattern.to_string(),
        paths: Vec::new(),
    }
}

fn ok(text: &str) -> Result<Vec<u8>, String> {
    Ok(text.as_bytes().to_vec())
}

fn names(paths: &[&str]) -> Vec<String> {
    paths.iter().map(|s| s.to_string()).collect()
}

#[test]
fn test_empty() {
    let out = run(&args("fox", false, false, false, false), &Vec::new(),
        &names(&["tests/grep/empty.txt"]),
        &vec![ok("")],
    )
    .unwrap();
    assert_eq!(out.code, 1);
    assert_eq!(out.stdout, "");
    assert_eq!(out.stderr, "");
}

#[test]
fn test_case_sensitivity() {
    let files = names(&["tests/grep/nobody.txt"]);
    let out = run(&args("nobody", false, false, false, false), &Vec::new(), &files, &vec![ok(NOBODY)]).unwrap();
    assert_eq!(out.code, 1);
    assert_eq!(out.stdout, "");
    assert_eq!(out.stderr, "");

    let out = run(&args("Nobody", false, false, false, false), &Vec::new(), &files, &vec![ok(NOBODY)]).unwrap();
    assert_eq!(out.code, 0);
    assert_eq!(
        out.stdout,
        "I'm Nobody! Who are you?
Are you—Nobody—too?
"
    );
    assert_eq!(out.stderr, "");
}

#[test]
fn test_ignore_case() {
    let files = names(&["tests/grep/nobody.txt"]);
    let out = run(&args("nobody", false, false, true, false), &Vec::new(), &files, &vec![ok(NOBODY)]).unwrap();
    assert_eq!(out.code, 0);
    assert_eq!(
        out.stdout,
        "I'm Nobody! Who are you?
Are you—Nobody—too?
"
    );
    assert_eq!(out.stderr, "");
}

#[test]
fn test_invert_match() {
    let files = names(&["tests/grep/nobody.txt"]);
    let out = run(&args("Nobody", false, true, false, false), &Vec::new(), &files, &vec![ok(NOBODY)]).unwrap();
    assert_eq!(out.code, 0);
    assert_eq!(
        out.stdout,
        "Then there's a pair of us!
Don't tell! they'd advertise—you know!

How dreary—to be—Somebody!
How public—like a Frog—
To tell one's name—the livelong June—
To an admiring Bog!
"
    );
    assert_eq!(out.stderr, "");
}

#[test]
fn test_count() {
    let files = names(&["tests/grep/nobody.txt"]);
    let out = run(&args("Nobody", true, false, false, false), &Vec::new(), &files, &vec![ok(NOBODY)]).unwrap();
    assert_eq!(out.code, 0);
    assert_eq!(out.stdout, "2\n");
    assert_eq!(out.stderr, "");
}

#[test]
fn test_multiple_files() {
    let files = names(&["tests/grep/nobody.txt", "tests/grep/bustle.txt"]);
    let inputs = vec![ok(NOBODY), ok(BUSTLE)];
    let out = run(&args("the", false, false, false, false), &Vec::new(), &files, &inputs).unwrap();
    assert_eq!(out.code, 0);
    assert_eq!(
        out.stdout,
        "tests/grep/nobody.txt:Then there's a pair of us!
tests/grep/nobody.txt:Don't tell! they'd advertise—you know!
tests/grep/nobody.txt:To tell one's name—the livelong June—
tests/grep/bustle.txt:The sweeping up the heart,
"
    );
    assert_eq!(out.stderr, "");
    let out = run(&args("the", true, false, false, false), &Vec::new(), &files, &inputs).unwrap();
    assert_eq!(
        out.stdout,
        "tests/grep/nobody.txt:3\ntests/grep/bustle.txt:1\n"
    );
}

#[test]
fn test_directory_nonrecursive() {
    let refused = match plan_path(&Ok(FileKind::Dir), false) {
        Walk::Refuse(message) => vec![Failure { path: "tests/grep".to_string(), message }],
        other => panic!("{:?}", other),
    };
    let out = run(
        &args("the", false, false, false, false),
        &refused,
        &Vec::new(),
        &Vec::new(),
    )
    .unwrap();
    assert_eq!(out.code, 1);
    assert_eq!(out.stdout, "");
    assert_eq!(out.stderr, "grep: tests/grep: Is a directory\n");
}

#[test]
fn test_directory_recursive() {
    assert!(matches!(
        plan_path(&Ok(FileKind::Dir), true),
        Walk::Search
    ));
    let walk = vec![
        Entry { path: "tests/grep".to_string(), kind: FileKind::Dir },
        Entry { path: "tests/grep/nobody.txt".to_string(), kind: FileKind::File },
        Entry { path: "tests/grep/link".to_string(), kind: FileKind::Link },
        Entry { path: "tests/grep/bustle.txt".to_string(), kind: FileKind::File },
        Entry { path: "tests/grep/pipe".to_string(), kind: FileKind::Other },
        Entry { path: "tests/grep/fox.txt".to_string(), kind: FileKind::File },
    ];
    let files = walk_paths(&walk);
    assert_eq!(
        files,
        vec!["tests/grep/nobody.txt", "tests/grep/bustle.txt", "tests/grep/fox.txt"]
    );
    let inputs = vec![ok(NOBODY), ok(BUSTLE), ok(FOX)];
    let out = run(&args("the", false, false, false, true), &Vec::new(), &files, &inputs).unwrap();
    assert_eq!(out.code, 0);
    assert_eq!(
        out.stdout,
        "tests/grep/nobody.txt:Then there's a pair of us!
tests/grep/nobody.txt:Don't tell! they'd advertise—you know!
tests/grep/nobody.txt:To tell one's name—the livelong June—
tests/grep/bustle.txt:The sweeping up the heart,
tests/grep/fox.txt:The quick brown fox jumps over the lazy dog.
"
    );
    assert_eq!(out.stderr, "");
}

#[test]
fn grep_plans_each_path() {
    assert!(matches!(plan_path(&Ok(FileKind::File), false), Walk::Search));
    assert!(matches!(plan_path(&Ok(FileKind::File), true), Walk::Search));
    assert!(matches!(plan_path(&Ok(FileKind::Dir), true), Walk::Search));
    assert!(matches!(plan_path(&Ok(FileKind::Link), true), Walk::Skip));
    assert!(matches!(plan_path(&Ok(FileKind::Other), false), Walk::Skip));
    match plan_path(&Ok(FileKind::Dir), false) {
        Walk::Refuse(message) => assert_eq!(message, "Is a directory"),
        other => panic!("{:?}", other),
    }
    match plan_path(&Err("No such file or directory (os error 2)".to_string()), true) {
        Walk::Refuse(message) => assert_eq!(message, "No such file or directory (os error 2)"),
        other => panic!("{:?}", other),
    }
}

#[test]
fn grep_reports_refused_paths_and_goes_on() {
    let refused = vec![
        Failure {
            path: "gone".to_string(),
            message: "No such file or directory (os error 2)".to_string(),
        },
        Failure { path: "dir".to_string(), message: "Is a directory".to_string() },
    ];
    let files = names(&["a", "b"]);
    let inputs = vec![ok("the a\n"), Err("Permission denied (os error 13)".to_string())];
    let out = run(&args("the", false, false, false, false), &refused, &files, &inputs).unwrap();
    assert_eq!(out.stdout, "a:the a\n");
    assert_eq!(
        out.stderr,
        "grep: gone: No such file or directory (os error 2)\ngrep: dir: Is a directory\n\
         grep: b: Permission denied (os error 13)\n"
    );
    assert_eq!(out.code, 1);
    // A refused path alone makes the run fail, whatever was selected.
    let out = run(
        &args("the", false, false, false, false),
        &refused[1..].iter().map(|f| Failure { path: f.path.clone(), message: f.message.clone() }).collect(),
        &files[..1].to_vec(),
        &inputs[..1].to_vec(),
    )
    .unwrap();
    assert_eq!(out.stdout, "the a\n");
    assert_eq!(out.stderr, "grep: dir: Is a directory\n");
    assert_eq!(out.code, 1);
}

#[test]
fn grep_goes_on_after_a_file_that_fails() {
    let files = names(&["a", "gone", "b"]);
    let inputs = vec![
        ok("the a\n"),
        Err("Permission denied (os error 13)".to_string()),
        ok("the b\nno\n"),
    ];
    let out = run(&args("the", false, false, false, false), &Vec::new(), &files, &inputs).unwrap();
    assert_eq!(out.code, 1);
    assert_eq!(out.stdout, "a:the a\nb:the b\n");
    assert_eq!(out.stderr, "grep: gone: Permission denied (os error 13)\n");
    let out = run(&args("the", true, false, false, false), &Vec::new(), &files, &inputs).unwrap();
    assert_eq!(out.code, 1);
    assert_eq!(out.stdout, "a:1\nb:1\n");
    let all_gone = vec![Err("x".to_string()), Err("y".to_string()), Err("z".to_string())];
    let out = run(&args("the", false, false, false, false), &Vec::new(), &files, &all_gone).unwrap();
    assert_eq!(out.code, 1);
    assert_eq!(out.stdout, "");
    assert_eq!(out.stderr, "grep: a: x\ngrep: gone: y\ngrep: b: z\n");
}

#[test]
fn grep_refuses_a_pattern_that_does_not_compile() {
    let files = names(&["a"]);
    let err = run(
        &args("(unclosed", false, false, false, false),
        &Vec::new(),
        &files,
        &vec![ok("x\n")],
    )
    .unwrap_err();
    assert!(!err.message.is_empty());
    assert!(Pattern::new("a(b", false).is_err());
    assert!(Pattern::new("[z-a]", true).is_err());
    assert!(Pattern::new("a(b)", false).is_ok());
    assert!(Pattern::new("", false).is_ok());
}

#[test]
fn patterns_match_anywhere_in_the_text() {
    let plain = Pattern::new("fo+", false).unwrap();
    assert!(plain.is_match("a foo b"));
    assert!(plain.is_match("fo"));
    assert!(!plain.is_match("FOO"));
    assert!(!plain.is_match("f"));
    assert!(!plain.is_match(""));
    let loose = Pattern::new("fo+", true).unwrap();
    assert!(loose.is_match("a FOo b"));
    assert!(!loose.is_match("bar"));
    let whole = Pattern::new("^a.c$", false).unwrap();
    assert!(whole.is_match("abc"));
    assert!(!whole.is_match("xabc"));
    let empty = Pattern::new("", false).unwrap();
    assert!(empty.is_match(""));
    assert!(empty.is_match("anything"));
}

#[test]
fn grep_selects_lines() {
    let pattern = Pattern::new("o", false).unwrap();
    let lines = names(&["one", "two", "three", "four"]);
    assert_eq!(select_lines(lines.clone(), &pattern, false), vec!["one", "two", "four"]);
    assert_eq!(select_lines(lines, &pattern, true), vec!["three"]);
    assert_eq!(select_lines(Vec::new(), &pattern, true), Vec::<String>::new());
    // Lines that are no text are never selected.
    let mut stream = Stream::new(b"so\n\xffo\nno\nyes");
    assert_eq!(match_filter_reader(&mut stream, &pattern, false), vec!["so", "no"]);
    let mut stream = Stream::new(b"so\n\xffo\nno\nyes");
    assert_eq!(match_filter_reader(&mut stream, &pattern, true), vec!["yes"]);
}

#[test]
fn search_with_a_compiled_pattern() {
    let files = names(&["a", "b"]);
    let inputs = vec![ok("one\ntwo\n"), ok("three\n")];
    let pattern = Pattern::new("^t", false).unwrap();
    let out = search(&args("ignored", false, false, false, false), &pattern, &Vec::new(), &files, &inputs);
    assert_eq!(out.stdout, "a:two\nb:three\n");
    assert_eq!(out.stderr, "");
    assert_eq!(out.code, 0);
    let out = search(&args("ignored", true, true, false, false), &pattern, &Vec::new(), &files, &inputs);
    assert_eq!(out.stdout, "a:1\nb:0\n");
    assert_eq!(out.code, 0);
    let none = Pattern::new("x", false).unwrap();
    let out = search(&args("ignored", true, false, false, false), &none, &Vec::new(), &files[..1].to_vec(), &inputs[..1].to_vec());
    assert_eq!(out.stdout, "0\n");
    assert_eq!(out.code, 1);
}
