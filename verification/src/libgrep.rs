//! Lines that match a pattern, or that do not.

use crate::common::{
    diagnostic, failed_before, failure_lines, push_diagnostic, push_failures, Entry, Failure,
    FileKind, Output,
};
use crate::number::{decimal, format_decimal};
use crate::pattern::{regex_matches, Pattern, PatternError, PatternView};
use crate::stream::{keep_valid, valid_lines, Stream};
use crate::text::string_views;
use vstd::prelude::*;
use vstd::string::StringExecFns;

verus! {

/// Whether a line is selected: it matches, or it does not and the selection
/// is inverted.
pub open spec fn is_selected(line: Seq<char>, pattern: PatternView, invert: bool) -> bool {
    regex_matches(pattern.source, pattern.ignore_case, line) != invert
}

/// The lines that are selected, in order.
pub open spec fn selected(lines: Seq<Seq<char>>, pattern: PatternView, invert: bool) -> Seq<
    Seq<char>,
>
    decreases lines.len(),
{
    if lines.len() == 0 {
        Seq::empty()
    } else if is_selected(lines.last(), pattern, invert) {
        selected(lines.drop_last(), pattern, invert).push(lines.last())
    } else {
        selected(lines.drop_last(), pattern, invert)
    }
}

/// Picks out of the lines that were read those that the pattern selects.
pub fn select_lines(lines: Vec<String>, pattern: &Pattern, invert: bool) -> (out: Vec<String>)
    ensures
        string_views(out@) == selected(string_views(lines@), pattern@, invert),
{
    let ghost all = string_views(lines@);
    let mut lines = lines;
    let mut out: Vec<String> = Vec::new();
    let mut i: usize = 0;
    proof {
        assert(all.take(0) =~= Seq::<Seq<char>>::empty());
        assert(string_views(out@) =~= selected(all.take(0), pattern@, invert));
    }
    while i < lines.len()
        invariant
            i <= lines@.len(),
            lines@.len() == all.len(),
            forall|j: int| i <= j < lines@.len() ==> lines@[j]@ == #[trigger] all[j],
            string_views(out@) == selected(all.take(i as int), pattern@, invert),
        decreases lines@.len() - i,
    {
        let ghost before = lines@;
        let mut line = String::new();
        core::mem::swap(&mut line, &mut lines[i]);
        proof {
            assert(line@ == all[i as int]);
            assert(all.take(i + 1).drop_last() =~= all.take(i as int));
            assert forall|j: int| i < j < lines@.len() implies lines@[j]@ == #[trigger] all[j] by {
                assert(before[j]@ == all[j]);
            }
        }
        if pattern.is_match(line.as_str()) != invert {
            proof {
                assert(string_views(out@.push(line)) =~= string_views(out@).push(line@));
            }
            out.push(line);
        }
        i += 1;
    }
    proof {
        assert(all.take(lines@.len() as int) =~= all);
    }
    out
}

/// Reads the lines that are left in the stream and gives those that are
/// text and that the pattern selects.
pub fn match_filter_reader(reader: &mut Stream<'_>, pattern: &Pattern, invert: bool) -> (out: Vec<
    String,
>)
    ensures
        string_views(out@) == selected(valid_lines(old(reader).remaining()), pattern@, invert),
        final(reader).content() == old(reader).content(),
        final(reader).remaining() == Seq::<u8>::empty(),
{
    let lines = keep_valid(reader.text_lines());
    select_lines(lines, pattern, invert)
}

/// What is done with a path that was named for a search.
#[derive(Debug)]
pub enum Walk {
    /// The tree under the path is searched.
    Search,
    /// The path is reported with this message and left out.
    Refuse(String),
    /// The path is left out without a word.
    Skip,
}

/// What is said of a directory in a search that does not go into
/// directories.
pub open spec fn is_a_directory() -> Seq<char> {
    "Is a directory"@
}

/// Decides what is done with one path. `probe` is what looking at the path
/// gave: its kind, or the message of the error. A path that could not be
/// looked at is refused with that message, and a directory is refused
/// unless the search goes into directories; regular files and the
/// directories of such a search are searched, and anything else is left
/// out.
pub fn plan_path(probe: &Result<FileKind, String>, recursive: bool) -> (walk: Walk)
    ensures
        match *probe {
            Err(message) => walk matches Walk::Refuse(said) && said@ == message@,
            Ok(FileKind::Dir) => if recursive {
                walk is Search
            } else {
                walk matches Walk::Refuse(said) && said@ == is_a_directory()
            },
            Ok(FileKind::File) => walk is Search,
            Ok(_) => walk is Skip,
        },
{
    match probe {
        Err(message) => Walk::Refuse(message.clone()),
        Ok(FileKind::Dir) => {
            if recursive {
                Walk::Search
            } else {
                Walk::Refuse("Is a directory".to_owned())
            }
        },
        Ok(FileKind::File) => Walk::Search,
        Ok(_) => Walk::Skip,
    }
}

/// The paths of the regular files among entries, in order.
pub open spec fn files_among(entries: Seq<Entry>) -> Seq<Seq<char>>
    decreases entries.len(),
{
    if entries.len() == 0 {
        Seq::empty()
    } else if entries.last().kind == FileKind::File {
        files_among(entries.drop_last()).push(entries.last().path@)
    } else {
        files_among(entries.drop_last())
    }
}

/// Picks the regular files out of the entries of a walk.
pub fn walk_paths(entries: &Vec<Entry>) -> (files: Vec<String>)
    ensures
        string_views(files@) == files_among(entries@),
{
    let mut files: Vec<String> = Vec::new();
    let mut i: usize = 0;
    proof {
        assert(entries@.take(0) =~= Seq::<Entry>::empty());
        assert(string_views(files@) =~= files_among(entries@.take(0)));
    }
    while i < entries.len()
        invariant
            i <= entries@.len(),
            string_views(files@) == files_among(entries@.take(i as int)),
        decreases entries@.len() - i,
    {
        proof {
            assert(entries@.take(i + 1).drop_last() =~= entries@.take(i as int));
        }
        if entries[i].kind == FileKind::File {
            let path = entries[i].path.clone();
            proof {
                assert(string_views(files@.push(path)) =~= string_views(files@).push(path@));
            }
            files.push(path);
        }
        i += 1;
    }
    proof {
        assert(entries@.take(entries@.len() as int) =~= entries@);
    }
    files
}

/// The options of a run.
#[derive(Debug)]
pub struct Args {
    /// Show the number of selected lines of each file, not the lines.
    pub count: bool,
    /// Select the lines that do not match.
    pub invert_match: bool,
    /// Match without regard to case.
    pub ignore_case: bool,
    /// Go into directories.
    pub recursive: bool,
    /// The pattern.
    pub pattern: String,
    /// The paths to search.
    pub paths: Vec<String>,
}

impl Args {
    /// What the pattern of the run is compiled from.
    pub open spec fn pattern_view(&self) -> PatternView {
        PatternView { source: self.pattern@, ignore_case: self.ignore_case }
    }
}

/// Lines one after the other, each after `prefix` and followed by a line
/// break.
pub open spec fn prefixed(lines: Seq<Seq<char>>, prefix: Seq<char>) -> Seq<char>
    decreases lines.len(),
{
    if lines.len() == 0 {
        Seq::empty()
    } else {
        prefixed(lines.drop_last(), prefix) + prefix + lines.last() + seq!['\n']
    }
}

/// What stands before each output line of file `i`: its path and a colon
/// where several files are searched.
pub open spec fn line_prefix(files: Seq<String>, i: int) -> Seq<char> {
    if files.len() > 1 {
        files[i]@ + seq![':']
    } else {
        Seq::empty()
    }
}

/// The selected lines of file `i`; none if it could not be opened.
pub open spec fn file_matches(
    args: Args,
    pattern: PatternView,
    inputs: Seq<Result<Vec<u8>, String>>,
    i: int,
) -> Seq<Seq<char>> {
    match inputs[i] {
        Ok(content) => selected(valid_lines(content@), pattern, args.invert_match),
        Err(_) => Seq::empty(),
    }
}

/// What file `i` adds to standard output: its selected lines, or their
/// number where lines are counted.
pub open spec fn file_stdout(
    args: Args,
    pattern: PatternView,
    files: Seq<String>,
    inputs: Seq<Result<Vec<u8>, String>>,
    i: int,
) -> Seq<char> {
    let lines = file_matches(args, pattern, inputs, i);
    if inputs[i] is Err {
        Seq::empty()
    } else if args.count {
        line_prefix(files, i) + decimal(lines.len()) + seq!['\n']
    } else {
        prefixed(lines, line_prefix(files, i))
    }
}

/// Standard output after the first `k` files.
pub open spec fn stdout_after(
    args: Args,
    pattern: PatternView,
    files: Seq<String>,
    inputs: Seq<Result<Vec<u8>, String>>,
    k: nat,
) -> Seq<char>
    decreases k,
{
    if k == 0 {
        Seq::empty()
    } else {
        stdout_after(args, pattern, files, inputs, (k - 1) as nat) + file_stdout(
            args,
            pattern,
            files,
            inputs,
            k - 1,
        )
    }
}

/// Whether one of the first `k` files has a selected line.
pub open spec fn matched_before(
    args: Args,
    pattern: PatternView,
    inputs: Seq<Result<Vec<u8>, String>>,
    k: nat,
) -> bool
    decreases k,
{
    k > 0 && (matched_before(args, pattern, inputs, (k - 1) as nat) || file_matches(
        args,
        pattern,
        inputs,
        k - 1,
    ).len() > 0)
}

/// Appends lines, each after a prefix and followed by a line break.
fn push_prefixed(out: &mut String, lines: &Vec<String>, prefix: &str)
    ensures
        final(out)@ == old(out)@ + prefixed(string_views(lines@), prefix@),
{
    let mut i: usize = 0;
    proof {
        assert(out@ =~= old(out)@ + prefixed(string_views(lines@).take(0), prefix@));
    }
    while i < lines.len()
        invariant
            i <= lines@.len(),
            out@ == old(out)@ + prefixed(string_views(lines@).take(i as int), prefix@),
        decreases lines@.len() - i,
    {
        proof {
            let all = string_views(lines@);
            assert(all.take(i + 1).drop_last() =~= all.take(i as int));
            assert(all.take(i + 1).last() == lines@[i as int]@);
        }
        out.append(prefix);
        out.append(lines[i].as_str());
        out.push('\n');
        proof {
            let all = string_views(lines@);
            assert(out@ =~= old(out)@ + (prefixed(all.take(i as int), prefix@) + prefix@
                + lines@[i as int]@ + seq!['\n']));
        }
        i += 1;
    }
    proof {
        assert(string_views(lines@).take(lines@.len() as int) =~= string_views(lines@));
    }
}

/// What file `i` adds to standard error: a diagnostic if it could not be
/// opened.
pub open spec fn file_stderr(
    files: Seq<String>,
    inputs: Seq<Result<Vec<u8>, String>>,
    i: int,
) -> Seq<char> {
    match inputs[i] {
        Ok(_) => Seq::empty(),
        Err(message) => diagnostic("grep"@, files[i]@, message@),
    }
}

/// Standard error after the first `k` files.
pub open spec fn stderr_after(
    files: Seq<String>,
    inputs: Seq<Result<Vec<u8>, String>>,
    k: nat,
) -> Seq<char>
    decreases k,
{
    if k == 0 {
        Seq::empty()
    } else {
        stderr_after(files, inputs, (k - 1) as nat) + file_stderr(files, inputs, k - 1)
    }
}

/// What a search leaves behind. Every file is searched, in order. The
/// paths that the walk refused are reported first; a file that could not be
/// opened leaves a diagnostic on standard error and does not stop the
/// others. The exit code is 1 if any path was refused or any file failed;
/// else it is 0 if any line was selected and 1 if none was.
pub open spec fn search_result(
    args: Args,
    pattern: PatternView,
    refused: Seq<Failure>,
    files: Seq<String>,
    inputs: Seq<Result<Vec<u8>, String>>,
    out: Output,
) -> bool {
    let n = inputs.len();
    &&& out.stdout@ == stdout_after(args, pattern, files, inputs, n)
    &&& out.stderr@ == failure_lines("grep"@, refused) + stderr_after(files, inputs, n)
    &&& out.code == if refused.len() == 0 && !failed_before(inputs, n) && matched_before(
        args,
        pattern,
        inputs,
        n,
    ) {
        0i32
    } else {
        1i32
    }
}

/// Searches files with a compiled pattern. `refused` are the paths that
/// the walk refused, `files` the paths of the files it found, and
/// `inputs[i]` is what opening and reading `files[i]` gave: its bytes, or
/// the message of the error.
pub fn search(
    args: &Args,
    pattern: &Pattern,
    refused: &Vec<Failure>,
    files: &Vec<String>,
    inputs: &Vec<Result<Vec<u8>, String>>,
) -> (out: Output)
    requires
        inputs@.len() == files@.len(),
    ensures
        search_result(*args, pattern@, refused@, files@, inputs@, out),
{
    let mut stdout = String::new();
    let mut stderr = String::new();
    push_failures(&mut stderr, "grep", refused);
    proof {
        assert(stderr@ =~= failure_lines("grep"@, refused@) + stderr_after(files@, inputs@, 0));
    }
    let mut matched: bool = false;
    let mut failed: bool = false;
    let mut i: usize = 0;
    while i < inputs.len()
        invariant
            i <= inputs@.len(),
            inputs@.len() == files@.len(),
            stdout@ == stdout_after(*args, pattern@, files@, inputs@, i as nat),
            stderr@ == failure_lines("grep"@, refused@) + stderr_after(files@, inputs@, i as nat),
            matched == matched_before(*args, pattern@, inputs@, i as nat),
            failed == failed_before(inputs@, i as nat),
        decreases inputs@.len() - i,
    {
        let path: &str = files[i].as_str();
        match &inputs[i] {
            Err(message) => {
                push_diagnostic(&mut stderr, "grep", path, message.as_str());
                failed = true;
                proof {
                    assert(stdout@ =~= stdout@ + Seq::<char>::empty());
                    assert(stderr@ =~= failure_lines("grep"@, refused@) + (stderr_after(
                        files@,
                        inputs@,
                        i as nat,
                    ) + file_stderr(files@, inputs@, i as int)));
                }
            },
            Ok(content) => {
                let mut reader = Stream::new(content.as_slice());
                assert(reader.remaining() =~= content@);
                let lines = match_filter_reader(&mut reader, pattern, args.invert_match);
                let mut prefix = String::new();
                if files.len() > 1 {
                    prefix.append(path);
                    prefix.push(':');
                }
                proof {
                    assert(prefix@ =~= line_prefix(files@, i as int));
                    assert(string_views(lines@).len() == lines@.len());
                    assert(stderr@ =~= failure_lines("grep"@, refused@) + (stderr_after(
                        files@,
                        inputs@,
                        i as nat,
                    ) + Seq::<char>::empty()));
                }
                if lines.len() > 0 {
                    matched = true;
                }
                let ghost before = stdout@;
                if args.count {
                    stdout.append(prefix.as_str());
                    stdout.append(format_decimal(lines.len()).as_str());
                    stdout.push('\n');
                    proof {
                        assert(stdout@ =~= before + file_stdout(
                            *args,
                            pattern@,
                            files@,
                            inputs@,
                            i as int,
                        ));
                    }
                } else {
                    push_prefixed(&mut stdout, &lines, prefix.as_str());
                }
            },
        }
        i += 1;
    }
    let code: i32 = if refused.len() == 0 && !failed && matched {
        0
    } else {
        1
    };
    Output { stdout, stderr, code }
}

/// Compiles the pattern of a run and searches the files that the walk
/// found. `refused` are the paths that the walk refused, `files` the paths
/// of the files it found, and `inputs[i]` is what opening and reading
/// `files[i]` gave: its bytes, or the message of the error.
///
/// A pattern that does not compile ends the run with its error. With the
/// pattern compiled, the run leaves behind what the search does.
pub fn run(
    args: &Args,
    refused: &Vec<Failure>,
    files: &Vec<String>,
    inputs: &Vec<Result<Vec<u8>, String>>,
) -> (r: Result<Output, PatternError>)
    requires
        inputs@.len() == files@.len(),
    ensures
        r matches Ok(out) ==> search_result(
            *args,
            args.pattern_view(),
            refused@,
            files@,
            inputs@,
            out,
        ),
{
    let pattern = Pattern::new(args.pattern.as_str(), args.ignore_case)?;
    Ok(search(args, &pattern, refused, files, inputs))
}

} // verus!
