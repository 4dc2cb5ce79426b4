//! Adjacent repeated lines reduced to one, with or without their number.

use crate::common::{diagnostic, push_diagnostic, Output};
use crate::number::{decimal, format_number, right_aligned};
use crate::stream::{
    decoded_lines, framed_len, lemma_framed_len_prefix, lemma_split_lines_framed, line_views,
    split_lines, Stream,
};
use crate::text::{decode_strict, strict_text};
use vstd::prelude::*;
use vstd::string::StringExecFns;
use vstd::utf8::encode_utf8;

verus! {

/// A line of the input that is not well-formed UTF-8.
#[derive(Clone, Copy, Debug, PartialEq, Eq, Structural)]
pub struct InvalidText;

impl InvalidText {
    /// The message shown to the user.
    pub fn to_string(&self) -> (msg: String)
        ensures
            msg@ == "stream did not contain valid UTF-8"@,
    {
        "stream did not contain valid UTF-8".to_owned()
    }
}

/// A run of equal adjacent lines: the line, and how often it stands there.
pub struct Group {
    pub line: Seq<char>,
    pub times: nat,
}

/// The output line of a run: the line, and before it, where runs are
/// counted, the number in a field of four characters and a blank.
pub open spec fn group_line(line: Seq<char>, times: nat, count: bool) -> Seq<char> {
    (if count {
        right_aligned(decimal(times), 4) + seq![' ']
    } else {
        Seq::empty()
    }) + line + seq!['\n']
}

/// The runs of equal adjacent lines, in order.
pub open spec fn groups(lines: Seq<Seq<char>>) -> Seq<Group>
    decreases lines.len(),
{
    if lines.len() == 0 {
        Seq::empty()
    } else {
        let before = groups(lines.drop_last());
        if before.len() > 0 && before.last().line == lines.last() {
            before.drop_last().push(
                Group { line: lines.last(), times: before.last().times + 1 },
            )
        } else {
            before.push(Group { line: lines.last(), times: 1 })
        }
    }
}

/// The output lines of runs, one after the other.
pub open spec fn rendered(runs: Seq<Group>, count: bool) -> Seq<char>
    decreases runs.len(),
{
    if runs.len() == 0 {
        Seq::empty()
    } else {
        rendered(runs.drop_last(), count) + group_line(runs.last().line, runs.last().times, count)
    }
}

/// The bytes that the lines of runs take, line breaks not counted.
pub open spec fn weight(runs: Seq<Group>) -> nat
    decreases runs.len(),
{
    if runs.len() == 0 {
        0
    } else {
        weight(runs.drop_last()) + encode_utf8(runs.last().line).len()
    }
}

/// The runs that have ended: all but the last.
pub open spec fn ended(runs: Seq<Group>) -> Seq<Group> {
    if runs.len() == 0 {
        runs
    } else {
        runs.drop_last()
    }
}

/// The runs that are written. A run is written when it ends; the last is
/// written at the end of the input only if the runs before it weigh
/// anything.
pub open spec fn written(runs: Seq<Group>) -> Seq<Group> {
    if weight(ended(runs)) > 0 {
        runs
    } else {
        ended(runs)
    }
}

/// How many lines stand before the first that is no text.
pub open spec fn text_prefix_len(lines: Seq<Option<Seq<char>>>) -> nat
    decreases lines.len(),
{
    if lines.len() > 0 && lines[0] is Some {
        1 + text_prefix_len(lines.drop_first())
    } else {
        0
    }
}

/// The lines before the first that is no text.
pub open spec fn text_prefix(lines: Seq<Option<Seq<char>>>) -> Seq<Seq<char>> {
    Seq::new(text_prefix_len(lines), |i: int| lines[i]->0)
}

/// Lines that are all text up to `k` are `k` lines of text at least, and
/// exactly `k` if line `k` is no text or the end.
pub proof fn lemma_text_prefix_len(lines: Seq<Option<Seq<char>>>, k: int)
    requires
        0 <= k <= lines.len(),
        forall|j: int| 0 <= j < k ==> (#[trigger] lines[j]) is Some,
    ensures
        k <= text_prefix_len(lines) <= lines.len(),
        k == lines.len() || lines[k] is None ==> text_prefix_len(lines) == k,
    decreases lines.len(),
{
    if lines.len() > 0 && lines[0] is Some {
        let rest = lines.drop_first();
        let m = if k > 0 {
            k - 1
        } else {
            0
        };
        assert forall|j: int| 0 <= j < m implies (#[trigger] rest[j]) is Some by {
            assert(rest[j] == lines[j + 1]);
        }
        lemma_text_prefix_len(rest, m);
    }
}

/// Writes the line of one run to the output and returns the bytes the line
/// itself takes.
pub fn flush(writer: &mut String, buffer: &str, buffer_cnt: usize, count: bool) -> (n: usize)
    ensures
        final(writer)@ == old(writer)@ + group_line(buffer@, buffer_cnt as nat, count),
        n == encode_utf8(buffer@).len(),
{
    if count {
        writer.append(format_number(buffer_cnt, 4).as_str());
        writer.push(' ');
    }
    writer.append(buffer);
    writer.push('\n');
    proof {
        assert(writer@ =~= old(writer)@ + group_line(buffer@, buffer_cnt as nat, count));
    }
    buffer.as_bytes().len()
}

/// Reads every line that is left in the stream and writes one line for each
/// run of equal adjacent lines, as `written` says.
///
/// A line that is not well-formed UTF-8 ends the work with an error; the
/// runs that ended before it are written then, and nothing else. Otherwise
/// the result is the number of bytes that the written lines take, line
/// breaks and counts left out.
pub fn stream_uniq(reader: &mut Stream<'_>, writer: &mut String, count: bool) -> (r: Result<
    usize,
    InvalidText,
>)
    ensures
        final(reader).content() == old(reader).content(),
        final(reader).remaining() == Seq::<u8>::empty(),
        ({
            let decoded = decoded_lines(old(reader).remaining());
            let runs = groups(text_prefix(decoded));
            match r {
                Ok(n) => {
                    &&& text_prefix_len(decoded) == decoded.len()
                    &&& final(writer)@ == old(writer)@ + rendered(written(runs), count)
                    &&& n == weight(written(runs))
                },
                Err(_) => {
                    &&& text_prefix_len(decoded) < decoded.len()
                    &&& final(writer)@ == old(writer)@ + rendered(ended(runs), count)
                },
            }
        }),
{
    let ghost bytes = old(reader).remaining();
    let ghost raw = split_lines(bytes);
    let ghost decoded = decoded_lines(bytes);
    let total: usize = reader.len();
    assert(bytes.len() <= total);
    let lines = reader.lines();
    let mut bytes_written: usize = 0;
    let mut prev_line = String::new();
    let mut prev_line_cnt: usize = 0;
    let ghost mut texts: Seq<Seq<char>> = Seq::empty();
    let ghost mut flushed: Seq<Group> = Seq::empty();
    let mut i: usize = 0;
    proof {
        lemma_split_lines_framed(bytes);
        assert(line_views(lines@).len() == lines@.len());
        assert(writer@ =~= old(writer)@ + rendered(flushed, count));
    }
    while i < lines.len()
        invariant
            i <= lines@.len(),
            reader.content() == old(reader).content(),
            reader.remaining() == Seq::<u8>::empty(),
            bytes == old(reader).remaining(),
            raw.len() == lines@.len(),
            line_views(lines@) == raw,
            raw == split_lines(bytes),
            decoded == decoded_lines(bytes),
            framed_len(raw) <= bytes.len() + 1,
            bytes.len() <= usize::MAX,
            texts.len() == i,
            forall|j: int| 0 <= j < i ==> (#[trigger] decoded[j]) == Some(texts[j]),
            i == 0 ==> flushed.len() == 0 && bytes_written == 0,
            i > 0 ==> groups(texts) == flushed.push(
                Group { line: prev_line@, times: prev_line_cnt as nat },
            ),
            i > 0 ==> bytes_written + encode_utf8(prev_line@).len() + i <= framed_len(
                raw.take(i as int),
            ),
            prev_line_cnt <= i,
            writer@ == old(writer)@ + rendered(flushed, count),
            bytes_written == weight(flushed),
        decreases lines@.len() - i,
    {
        proof {
            assert(line_views(lines@)[i as int] == lines@[i as int]@);
            assert(decoded[i as int] == strict_text(raw[i as int]));
            assert(raw.take(i + 1).drop_last() =~= raw.take(i as int));
            assert(raw.take(i + 1).last() == raw[i as int]);
            lemma_framed_len_prefix(raw, i + 1);
        }
        let new_line = match decode_strict(lines[i].as_slice()) {
            Some(line) => line,
            None => {
                proof {
                    lemma_text_prefix_len(decoded, i as int);
                    assert(text_prefix(decoded) =~= texts);
                    if i > 0 {
                        assert(groups(texts).drop_last() =~= flushed);
                    }
                }
                return Err(InvalidText);
            },
        };
        proof {
            vstd::utf8::decode_utf8_encode_utf8(raw[i as int]);
            assert(encode_utf8(new_line@) == raw[i as int]);
            let next = texts.push(new_line@);
            assert(next.drop_last() =~= texts);
            assert(next.last() == new_line@);
            if i > 0 {
                let last = Group { line: prev_line@, times: prev_line_cnt as nat };
                assert(groups(texts).last() == last);
                assert(groups(texts).drop_last() =~= flushed);
            }
        }
        let ghost next = texts.push(new_line@);
        let ghost before = groups(texts);
        if i == 0 {
            proof {
                assert(texts =~= Seq::<Seq<char>>::empty());
                assert(before =~= Seq::<Group>::empty());
                assert(groups(next) =~= flushed.push(Group { line: new_line@, times: 1 }));
                assert(raw.take(1).drop_last() =~= Seq::<Seq<u8>>::empty());
                assert(framed_len(raw.take(0)) == 0);
            }
            prev_line = new_line;
            prev_line_cnt = 1;
        } else if new_line == prev_line {
            proof {
                assert(groups(next) =~= flushed.push(
                    Group { line: prev_line@, times: (prev_line_cnt + 1) as nat },
                ));
            }
            prev_line_cnt += 1;
        } else {
            proof {
                assert(groups(next) =~= before.push(Group { line: new_line@, times: 1 }));
            }
            proof {
                let last = Group { line: prev_line@, times: prev_line_cnt as nat };
                assert(flushed.push(last).drop_last() =~= flushed);
                flushed = flushed.push(last);
            }
            let n: usize = flush(writer, prev_line.as_str(), prev_line_cnt, count);
            bytes_written += n;
            prev_line = new_line;
            prev_line_cnt = 1;
            proof {
                assert(writer@ =~= old(writer)@ + rendered(flushed, count));
            }
        }
        proof {
            texts = texts.push(new_line@);
        }
        i += 1;
    }
    proof {
        lemma_text_prefix_len(decoded, i as int);
        assert(text_prefix(decoded) =~= texts);
        assert(raw.take(i as int) =~= raw);
        if i > 0 {
            assert(groups(texts).drop_last() =~= flushed);
        }
    }
    if bytes_written > 0 {
        let n: usize = flush(writer, prev_line.as_str(), prev_line_cnt, count);
        bytes_written += n;
        proof {
            let runs = groups(texts);
            assert(runs.last() == Group { line: prev_line@, times: prev_line_cnt as nat });
            assert(writer@ =~= old(writer)@ + rendered(runs, count));
        }
    }
    Ok(bytes_written)
}

/// The options of a run.
#[derive(Debug)]
pub struct Args {
    /// Put before each line how often it stood in the input.
    pub count: bool,
    /// The input; none, or a dash, stands for standard input.
    pub filein: Option<String>,
    /// The file for the output; none stands for standard output.
    pub fileout: Option<String>,
}

impl Args {
    /// The path of the input.
    pub open spec fn input_path(&self) -> Seq<char> {
        match self.filein {
            Some(path) => path@,
            None => seq!['-'],
        }
    }
}

/// What a run writes to its output.
pub open spec fn run_output(args: Args, input: Result<Vec<u8>, String>) -> Seq<char> {
    match input {
        Err(_) => Seq::empty(),
        Ok(content) => {
            let decoded = decoded_lines(content@);
            let runs = groups(text_prefix(decoded));
            if text_prefix_len(decoded) == decoded.len() {
                rendered(written(runs), args.count)
            } else {
                rendered(ended(runs), args.count)
            }
        },
    }
}

/// What a run writes to standard error: the diagnostic of an input that
/// could not be opened, or the complaint about a line that is no text.
pub open spec fn run_stderr(args: Args, input: Result<Vec<u8>, String>) -> Seq<char> {
    match input {
        Err(message) => diagnostic("uniq"@, args.input_path(), message@),
        Ok(content) => {
            let decoded = decoded_lines(content@);
            if text_prefix_len(decoded) == decoded.len() {
                Seq::empty()
            } else {
                "uniq: stream did not contain valid UTF-8\n"@
            }
        },
    }
}

/// Whether a run fails: the input could not be opened, or holds a line that
/// is no text.
pub open spec fn run_fails(input: Result<Vec<u8>, String>) -> bool {
    match input {
        Err(_) => true,
        Ok(content) => text_prefix_len(decoded_lines(content@)) < decoded_lines(content@).len(),
    }
}

/// Reduces the runs of one input. `input` is what opening and reading the
/// input gave: its bytes, or the message of the error. The text in `stdout`
/// is for the output of the run, be it a file or standard output. The exit
/// code is 1 where the run fails and 0 where it does not.
pub fn run(args: &Args, input: &Result<Vec<u8>, String>) -> (out: Output)
    ensures
        out.stdout@ == run_output(*args, *input),
        out.stderr@ == run_stderr(*args, *input),
        out.code == if run_fails(*input) {
            1i32
        } else {
            0i32
        },
{
    let mut stdout = String::new();
    let mut stderr = String::new();
    let content = match input {
        Ok(content) => content,
        Err(message) => {
            match &args.filein {
                Some(path) => push_diagnostic(&mut stderr, "uniq", path.as_str(), message.as_str()),
                None => {
                    proof {
                        reveal_strlit("-");
                        assert("-"@ =~= seq!['-']);
                    }
                    push_diagnostic(&mut stderr, "uniq", "-", message.as_str())
                },
            }
            return Output { stdout, stderr, code: 1 };
        },
    };
    let mut reader = Stream::new(content.as_slice());
    assert(reader.remaining() =~= content@);
    match stream_uniq(&mut reader, &mut stdout, args.count) {
        Ok(_) => Output { stdout, stderr, code: 0 },
        Err(e) => {
            stderr.append("uniq: ");
            stderr.append(e.to_string().as_str());
            stderr.push('\n');
            proof {
                reveal_strlit("uniq: ");
                reveal_strlit("stream did not contain valid UTF-8");
                reveal_strlit("uniq: stream did not contain valid UTF-8\n");
                assert(stderr@ =~= "uniq: stream did not contain valid UTF-8\n"@);
            }
            Output { stdout, stderr, code: 1 }
        },
    }
}

} // verus!
