//! What the tools share: the outcome of a run, the lines that announce and
//! report files, and the inputs of a run.

use crate::text::string_views;
use vstd::prelude::*;
use vstd::string::StringExecFns;

verus! {

/// What a run of one tool leaves behind: the text for standard output, the
/// text for standard error, and the exit code.
#[derive(Debug)]
pub struct Output {
    pub stdout: String,
    pub stderr: String,
    pub code: i32,
}

/// What kind of thing a path names.
#[derive(Clone, Copy, Debug, PartialEq, Eq, Structural)]
pub enum FileKind {
    /// A regular file.
    File,
    /// A directory.
    Dir,
    /// A symbolic link.
    Link,
    /// Anything else.
    Other,
}

/// An entry met on a walk through a directory tree.
#[derive(Debug)]
pub struct Entry {
    pub path: String,
    pub kind: FileKind,
}

/// The line that announces a file where several are shown.
pub open spec fn header(path: Seq<char>) -> Seq<char> {
    "==> "@ + path + " <==\n"@
}

/// The line that reports a failing file: the tool, the path and the
/// message of the error.
pub open spec fn diagnostic(tool: Seq<char>, path: Seq<char>, message: Seq<char>) -> Seq<char> {
    tool + ": "@ + path + ": "@ + message + "\n"@
}

/// Appends the header of a file.
pub fn push_header(out: &mut String, path: &str)
    ensures
        final(out)@ == old(out)@ + header(path@),
{
    out.append("==> ");
    out.append(path);
    out.append(" <==\n");
    assert(out@ =~= old(out)@ + header(path@));
}

/// Appends the diagnostic of a failing file.
pub fn push_diagnostic(err: &mut String, tool: &str, path: &str, message: &str)
    ensures
        final(err)@ == old(err)@ + diagnostic(tool@, path@, message@),
{
    err.append(tool);
    err.append(": ");
    err.append(path);
    err.append(": ");
    err.append(message);
    err.append("\n");
    assert(err@ =~= old(err)@ + diagnostic(tool@, path@, message@));
}

/// The paths of the inputs of a run: the files, or the empty path of
/// standard input where there are none.
pub open spec fn paths_or_stdin(files: Seq<String>) -> Seq<Seq<char>> {
    if files.len() == 0 {
        seq![Seq::empty()]
    } else {
        string_views(files)
    }
}

/// The paths to open, in order.
pub fn input_paths(files: &Vec<String>) -> (paths: Vec<String>)
    ensures
        string_views(paths@) == paths_or_stdin(files@),
{
    let mut paths: Vec<String> = Vec::new();
    if files.len() == 0 {
        paths.push(String::new());
        assert(string_views(paths@) =~= paths_or_stdin(files@));
        return paths;
    }
    let mut i: usize = 0;
    assert(string_views(paths@) =~= string_views(files@).take(0));
    while i < files.len()
        invariant
            i <= files@.len(),
            string_views(paths@) == string_views(files@).take(i as int),
        decreases files@.len() - i,
    {
        let path = files[i].clone();
        proof {
            assert(string_views(paths@).len() == i);
            assert(path@ == files@[i as int]@);
            assert(string_views(paths@.push(path)) =~= string_views(files@).take(i + 1));
        }
        paths.push(path);
        i += 1;
    }
    proof {
        assert(string_views(files@).take(files@.len() as int) =~= string_views(files@));
    }
    paths
}

/// A path that could not be read, with the message of the error.
#[derive(Debug)]
pub struct Failure {
    pub path: String,
    pub message: String,
}

/// The diagnostics of failures, one after the other.
pub open spec fn failure_lines(tool: Seq<char>, failures: Seq<Failure>) -> Seq<char>
    decreases failures.len(),
{
    if failures.len() == 0 {
        Seq::empty()
    } else {
        failure_lines(tool, failures.drop_last()) + diagnostic(
            tool,
            failures.last().path@,
            failures.last().message@,
        )
    }
}

/// Appends the diagnostic of each failure.
pub fn push_failures(err: &mut String, tool: &str, failures: &Vec<Failure>)
    ensures
        final(err)@ == old(err)@ + failure_lines(tool@, failures@),
{
    let mut i: usize = 0;
    proof {
        assert(err@ =~= old(err)@ + failure_lines(tool@, failures@.take(0)));
    }
    while i < failures.len()
        invariant
            i <= failures@.len(),
            err@ == old(err)@ + failure_lines(tool@, failures@.take(i as int)),
        decreases failures@.len() - i,
    {
        proof {
            assert(failures@.take(i + 1).drop_last() =~= failures@.take(i as int));
            assert(failures@.take(i + 1).last() == failures@[i as int]);
        }
        push_diagnostic(err, tool, failures[i].path.as_str(), failures[i].message.as_str());
        proof {
            assert(err@ =~= old(err)@ + (failure_lines(tool@, failures@.take(i as int))
                + diagnostic(tool@, failures@[i as int].path@, failures@[i as int].message@)));
        }
        i += 1;
    }
    proof {
        assert(failures@.take(failures@.len() as int) =~= failures@);
    }
}

/// Whether one of the first `k` inputs could not be opened.
pub open spec fn failed_before(inputs: Seq<Result<Vec<u8>, String>>, k: nat) -> bool
    decreases k,
{
    k > 0 && (failed_before(inputs, (k - 1) as nat) || inputs[k - 1] is Err)
}

} // verus!
