//! Inputs written out one after the other, with or without line numbers.

use crate::common::{diagnostic, failed_before, push_diagnostic, Output};
use crate::number::{decimal, format_number, right_aligned};
use crate::stream::{keep_valid, valid_lines, Stream};
use crate::text::{push_lines, string_views, unlines};
use vstd::prelude::*;
use vstd::string::StringExecFns;

verus! {

/// Whether a line gets a number: every line does where all are numbered,
/// and a line that is not empty where those are.
pub open spec fn is_numbered(line: Seq<char>, count_nonblank: bool, count_all: bool) -> bool {
    (count_nonblank && line.len() != 0) || count_all
}

/// How many of the first `k` lines get a number.
pub open spec fn numbered_before(
    lines: Seq<Seq<char>>,
    count_nonblank: bool,
    count_all: bool,
    k: nat,
) -> nat
    decreases k,
{
    if k == 0 {
        0
    } else {
        numbered_before(lines, count_nonblank, count_all, (k - 1) as nat) + if is_numbered(
            lines[k - 1],
            count_nonblank,
            count_all,
        ) {
            1nat
        } else {
            0nat
        }
    }
}

/// Line `i` as it is written: after its number in a field of six characters
/// and a tab, where it gets one. Numbers start at one.
pub open spec fn written_line(
    lines: Seq<Seq<char>>,
    count_nonblank: bool,
    count_all: bool,
    i: int,
) -> Seq<char> {
    if is_numbered(lines[i], count_nonblank, count_all) {
        right_aligned(
            decimal(numbered_before(lines, count_nonblank, count_all, (i + 1) as nat)),
            6,
        ) + seq!['\t'] + lines[i]
    } else {
        lines[i]
    }
}

/// The lines as they are written.
pub open spec fn written_lines(lines: Seq<Seq<char>>, count_nonblank: bool, count_all: bool) -> Seq<
    Seq<char>,
> {
    Seq::new(lines.len(), |i: int| written_line(lines, count_nonblank, count_all, i))
}

/// Reads the lines that are left in the stream and gives those that are
/// text as they are written.
pub fn cat(reader: &mut Stream<'_>, count_nonblank: bool, count_all: bool) -> (out: Vec<String>)
    ensures
        string_views(out@) == written_lines(
            valid_lines(old(reader).remaining()),
            count_nonblank,
            count_all,
        ),
        final(reader).content() == old(reader).content(),
        final(reader).remaining() == Seq::<u8>::empty(),
{
    let lines = keep_valid(reader.text_lines());
    let ghost texts = string_views(lines@);
    let mut out: Vec<String> = Vec::new();
    let mut line_no: usize = 0;
    let mut i: usize = 0;
    proof {
        assert(string_views(out@) =~= written_lines(texts, count_nonblank, count_all).take(0));
    }
    while i < lines.len()
        invariant
            i <= lines@.len(),
            texts == string_views(lines@),
            line_no == numbered_before(texts, count_nonblank, count_all, i as nat),
            line_no <= i,
            string_views(out@) == written_lines(texts, count_nonblank, count_all).take(i as int),
        decreases lines@.len() - i,
    {
        let line: &str = lines[i].as_str();
        proof {
            assert(texts[i as int] == line@);
        }
        let blank: bool = line.unicode_len() == 0;
        let text = if (count_nonblank && !blank) || count_all {
            line_no += 1;
            let mut numbered = format_number(line_no, 6);
            numbered.push('\t');
            numbered.append(line);
            numbered
        } else {
            lines[i].clone()
        };
        proof {
            let all = written_lines(texts, count_nonblank, count_all);
            assert(text@ =~= all[i as int]);
            assert(string_views(out@).len() == i);
            assert(string_views(out@.push(text)) =~= all.take(i + 1));
        }
        out.push(text);
        i += 1;
    }
    proof {
        let all = written_lines(texts, count_nonblank, count_all);
        assert(all.take(lines@.len() as int) =~= all);
    }
    out
}

/// The options of a run.
#[derive(Debug)]
pub struct Args {
    /// Number the lines that are not empty.
    pub nonblank_lines: bool,
    /// Number all lines.
    pub all_lines: bool,
    /// The files to write out, in order.
    pub files: Vec<String>,
}

/// What input `i` adds to standard output: its text lines as they are
/// written, each followed by a line break; nothing if it could not be
/// opened. Numbers start anew with each input.
pub open spec fn file_stdout(args: Args, inputs: Seq<Result<Vec<u8>, String>>, i: int) -> Seq<
    char,
> {
    match inputs[i] {
        Ok(content) => unlines(
            written_lines(valid_lines(content@), args.nonblank_lines, args.all_lines),
        ),
        Err(_) => Seq::empty(),
    }
}

/// Standard output after the first `k` inputs.
pub open spec fn stdout_after(args: Args, inputs: Seq<Result<Vec<u8>, String>>, k: nat) -> Seq<
    char,
>
    decreases k,
{
    if k == 0 {
        Seq::empty()
    } else {
        stdout_after(args, inputs, (k - 1) as nat) + file_stdout(args, inputs, k - 1)
    }
}

/// What input `i` adds to standard error: a diagnostic if it could not be
/// opened.
pub open spec fn file_stderr(args: Args, inputs: Seq<Result<Vec<u8>, String>>, i: int) -> Seq<
    char,
> {
    match inputs[i] {
        Ok(_) => Seq::empty(),
        Err(message) => diagnostic("cat"@, args.files@[i]@, message@),
    }
}

/// Standard error after the first `k` inputs.
pub open spec fn stderr_after(args: Args, inputs: Seq<Result<Vec<u8>, String>>, k: nat) -> Seq<
    char,
>
    decreases k,
{
    if k == 0 {
        Seq::empty()
    } else {
        stderr_after(args, inputs, (k - 1) as nat) + file_stderr(args, inputs, k - 1)
    }
}

/// Writes out each input in order. `inputs[i]` is what opening and reading
/// `args.files[i]` gave: its bytes, or the message of the error.
///
/// Every input is gone through. One that could not be opened leaves a
/// diagnostic on standard error and does not stop the others, and the exit
/// code is 1 if any input failed and 0 if none did.
pub fn run(args: &Args, inputs: &Vec<Result<Vec<u8>, String>>) -> (out: Output)
    requires
        inputs@.len() == args.files@.len(),
    ensures
        out.stdout@ == stdout_after(*args, inputs@, inputs@.len()),
        out.stderr@ == stderr_after(*args, inputs@, inputs@.len()),
        out.code == if failed_before(inputs@, inputs@.len()) {
            1i32
        } else {
            0i32
        },
{
    let mut stdout = String::new();
    let mut stderr = String::new();
    let mut code: i32 = 0;
    let mut i: usize = 0;
    while i < inputs.len()
        invariant
            i <= inputs@.len(),
            inputs@.len() == args.files@.len(),
            stdout@ == stdout_after(*args, inputs@, i as nat),
            stderr@ == stderr_after(*args, inputs@, i as nat),
            code == if failed_before(inputs@, i as nat) {
                1i32
            } else {
                0i32
            },
        decreases inputs@.len() - i,
    {
        match &inputs[i] {
            Ok(content) => {
                let mut reader = Stream::new(content.as_slice());
                assert(reader.remaining() =~= content@);
                let lines = cat(&mut reader, args.nonblank_lines, args.all_lines);
                push_lines(&mut stdout, &lines);
                proof {
                    assert(stderr@ =~= stderr@ + Seq::<char>::empty());
                }
            },
            Err(message) => {
                push_diagnostic(&mut stderr, "cat", args.files[i].as_str(), message.as_str());
                code = 1;
                proof {
                    assert(stdout@ =~= stdout@ + Seq::<char>::empty());
                }
            },
        }
        i += 1;
    }
    Output { stdout, stderr, code }
}

} // verus!
