use command_line_rust::common::{Entry, Failure, FileKind};
use command_line_rust::libfind::{filter_entry, list, run, walk_dir, Args, EntryType};
use command_line_rust::pattern::Pattern;

fn entry(path: &str, kind: FileKind) -> Entry {
    Entry { path: path.to_string(), kind }
}

fn tree() -> Vec<Entry> {
    vec![
        entry("tests/find", FileKind::Dir),
        entry("tests/find/g.csv", FileKind::File),
        entry("tests/find/a", FileKind::Dir),
        entry("tests/find/a/a.txt", FileKind::File),
        entry("tests/find/a/b", FileKind::Dir),
        entry("tests/find/a/b/b.csv", FileKind::File),
        entry("tests/find/a/b/c", FileKind::Dir),
        entry("tests/find/a/b/c/c.mp3", FileKind::File),
        entry("tests/find/f", FileKind::Dir),
        entry("tests/find/f/f.txt", FileKind::File),
        entry("tests/find/d", FileKind::Dir),
        entry("tests/find/d/b.csv", FileKind::Link),
        entry("tests/find/d/d.txt", FileKind::File),
        entry("tests/find/d/d.tsv", FileKind::File),
        entry("tests/find/d/e", FileKind::Dir),
        entry("tests/find/d/e/e.mp3", FileKind::File),
        entry("tests/find/pipe", FileKind::Other),
    ]
}

fn args(types: &[EntryType], regex: &[&str]) -> Args {
    Args {
        types: types.to_vec(),
        regex: regex.iter().map(|s| s.to_string()).collect(),
        paths: vec!["tests/find".to_string()],
    }
}

fn lines(paths: &[&str]) -> String {
    paths.iter().map(|p| format!("{}\n", p)).collect()
}

#[test]
fn find_all() {
    let out = run(&args(&[], &[]), &vec![tree()], &Vec::new()).unwrap();
    assert_eq!(out.code, 0);
    let all: Vec<String> = tree().into_iter().map(|e| e.path).collect();
    let expected: Vec<&str> = all.iter().map(|s| s.as_str()).collect();
    assert_eq!(out.stdout, lines(&expected));
    assert_eq!(out.stderr, "");
}

#[test]
fn find_files() {
    let out = run(&args(&[EntryType::File], &[]), &vec![tree()], &Vec::new()).unwrap();
    assert_eq!(
        out.stdout,
        lines(&[
            "tests/find/g.csv",
            "tests/find/a/a.txt",
            "tests/find/a/b/b.csv",
            "tests/find/a/b/c/c.mp3",
            "tests/find/f/f.txt",
            "tests/find/d/d.txt",
            "tests/find/d/d.tsv",
            "tests/find/d/e/e.mp3",
        ])
    );
}

#[test]
fn find_dirs() {
    let out = run(&args(&[EntryType::Dir], &[]), &vec![tree()], &Vec::new()).unwrap();
    assert_eq!(
        out.stdout,
        lines(&[
            "tests/find",
            "tests/find/a",
            "tests/find/a/b",
            "tests/find/a/b/c",
            "tests/find/f",
            "tests/find/d",
            "tests/find/d/e",
        ])
    );
}

#[test]
fn find_links() {
    let out = run(&args(&[EntryType::Link], &[]), &vec![tree()], &Vec::new()).unwrap();
    assert_eq!(out.code, 0);
    assert_eq!(out.stdout, "tests/find/d/b.csv\n");
}

#[test]
fn find_txts() {
    let out = run(&args(&[], &[".*\\.txt"]), &vec![tree()], &Vec::new()).unwrap();
    assert_eq!(
        out.stdout,
        "tests/find/a/a.txt\ntests/find/f/f.txt\ntests/find/d/d.txt\n"
    );
}

#[test]
fn find_csv() {
    let out = run(&args(&[], &[".*\\.csv"]), &vec![tree()], &Vec::new()).unwrap();
    assert_eq!(
        out.stdout,
        "tests/find/g.csv\ntests/find/a/b/b.csv\ntests/find/d/b.csv\n"
    );
}

#[test]
fn find_mp3() {
    let out = run(&args(&[], &[".*\\.mp3"]), &vec![tree()], &Vec::new()).unwrap();
    assert_eq!(
        out.stdout,
        "tests/find/a/b/c/c.mp3\ntests/find/d/e/e.mp3\n"
    );
}

#[test]
fn find_by_kind_or_by_pattern() {
    let out = run(
        &args(&[EntryType::Link, EntryType::Dir], &["mp3$", "^tests/find/g"]),
        &vec![vec![
            entry("tests/find/g.csv", FileKind::File),
            entry("tests/find/a", FileKind::Dir),
            entry("tests/find/a/a.txt", FileKind::File),
            entry("tests/find/d/b.csv", FileKind::Link),
            entry("tests/find/d/e/e.mp3", FileKind::File),
            entry("tests/find/pipe", FileKind::Other),
        ]],
        &Vec::new(),
    )
    .unwrap();
    assert_eq!(
        out.stdout,
        "tests/find/g.csv\ntests/find/a\ntests/find/d/b.csv\ntests/find/d/e/e.mp3\n"
    );
}

#[test]
fn find_walks_each_root_in_order() {
    let walks = vec![
        vec![entry("b", FileKind::Dir), entry("b/x", FileKind::File)],
        Vec::new(),
        vec![entry("a", FileKind::File)],
    ];
    let out = run(&args(&[], &[]), &walks, &Vec::new()).unwrap();
    assert_eq!(out.stdout, "b\nb/x\na\n");
    let out = run(&args(&[], &[]), &Vec::new(), &Vec::new()).unwrap();
    assert_eq!(out.stdout, "");
    assert_eq!(out.code, 0);
}

#[test]
fn find_refuses_a_pattern_that_does_not_compile() {
    let err = run(&args(&[EntryType::File], &["ok", "(", "["]), &vec![tree()], &Vec::new()).unwrap_err();
    assert!(!err.message.is_empty());
    let first = Pattern::new("(", false).unwrap_err();
    assert_eq!(err.message, first.message);
}

#[test]
fn find_filters_one_entry() {
    let file = entry("dir/name.txt", FileKind::File);
    let other = entry("dir/socket", FileKind::Other);
    let txt = Pattern::new("\\.txt$", false).unwrap();
    let none = Pattern::new("nothing", false).unwrap();
    assert!(EntryType::File.match_type(&file));
    assert!(!EntryType::Dir.match_type(&file));
    assert!(!EntryType::Link.match_type(&file));
    assert!(!EntryType::File.match_type(&other));
    assert!(filter_entry(&file, &[], &[]));
    assert!(filter_entry(&other, &[], &[]));
    assert!(filter_entry(&file, &[EntryType::Dir, EntryType::File], &[]));
    assert!(!filter_entry(&file, &[EntryType::Dir, EntryType::Link], &[]));
    assert!(filter_entry(&file, &[EntryType::Dir], &[none, txt]));
    let txt = Pattern::new("\\.txt$", false).unwrap();
    let none = Pattern::new("nothing", false).unwrap();
    assert!(!filter_entry(&other, &[EntryType::File], &[txt]));
    assert!(!filter_entry(&file, &[], &[none]));
    let txt = Pattern::new("\\.txt$", false).unwrap();
    assert_eq!(
        walk_dir(&vec![other, file], &[], &[txt]),
        vec!["dir/name.txt"]
    );
}

#[test]
fn list_with_compiled_patterns() {
    let csv = Pattern::new("\\.csv$", false).unwrap();
    let out = list(&[EntryType::Dir], &[csv], &vec![tree(), vec![entry("x.csv", FileKind::Other)]], &Vec::new());
    assert_eq!(
        out.stdout,
        lines(&[
            "tests/find",
            "tests/find/g.csv",
            "tests/find/a",
            "tests/find/a/b",
            "tests/find/a/b/b.csv",
            "tests/find/a/b/c",
            "tests/find/f",
            "tests/find/d",
            "tests/find/d/b.csv",
            "tests/find/d/e",
            "x.csv",
        ])
    );
    assert_eq!(out.stderr, "");
    assert_eq!(out.code, 0);
}

#[test]
fn find_without_patterns_never_fails() {
    for types in [
        Vec::new(),
        vec![EntryType::File],
        vec![EntryType::Dir, EntryType::Link],
    ] {
        assert!(run(&args(&types, &[]), &vec![tree()], &Vec::new()).is_ok());
        assert!(run(&args(&types, &[]), &Vec::new(), &Vec::new()).is_ok());
    }
    assert!(run(&args(&[], &["("]), &Vec::new(), &Vec::new()).is_err());
}

#[test]
fn find_reports_what_it_could_not_read_and_goes_on() {
    let failures = vec![
        Failure {
            path: "gone".to_string(),
            message: "No such file or directory (os error 2)".to_string(),
        },
        Failure {
            path: "tests/find/locked".to_string(),
            message: "Permission denied (os error 13)".to_string(),
        },
    ];
    let walks = vec![Vec::new(), vec![entry("tests/find/g.csv", FileKind::File)]];
    let out = run(&args(&[EntryType::File], &[]), &walks, &failures).unwrap();
    assert_eq!(out.stdout, "tests/find/g.csv\n");
    assert_eq!(
        out.stderr,
        "find: gone: No such file or directory (os error 2)\n\
         find: tests/find/locked: Permission denied (os error 13)\n"
    );
    assert_eq!(out.code, 1);
}
