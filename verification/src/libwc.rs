//! Counts of lines, words, bytes and characters.

use crate::common::{
    diagnostic, failed_before, input_paths, paths_or_stdin, push_diagnostic, Output,
};
use crate::number::{decimal, format_number, right_aligned};
use crate::stream::{
    decoded_lines, framed_len, lemma_framed_len_prefix, lemma_split_lines_framed, line_views,
    split_lines, valid_lines, valid_texts, Stream,
};
use crate::text::{
    chars_of, count_words, decode_strict, lemma_chars_le_bytes, lemma_word_count_bound, strict_text,
    string_views, word_count,
};
use vstd::prelude::*;
use vstd::string::StringExecFns;
use vstd::utf8::encode_utf8;

verus! {

/// The counts of one input, and the path it came from.
#[derive(Debug)]
pub struct WordCountInfo {
    pub line_cnt: usize,
    pub word_cnt: usize,
    pub byte_cnt: usize,
    pub char_cnt: usize,
    pub path: String,
}

/// The words of all lines together.
pub open spec fn total_words(lines: Seq<Seq<char>>) -> nat
    decreases lines.len(),
{
    if lines.len() == 0 {
        0
    } else {
        total_words(lines.drop_last()) + word_count(lines.last())
    }
}

/// The characters of all lines together, with one for the line break of
/// each.
pub open spec fn total_chars(lines: Seq<Seq<char>>) -> nat
    decreases lines.len(),
{
    if lines.len() == 0 {
        0
    } else {
        total_chars(lines.drop_last()) + lines.last().len() + 1
    }
}

/// The bytes of all lines together, with one for the line break of each.
pub open spec fn total_bytes(lines: Seq<Seq<char>>) -> nat
    decreases lines.len(),
{
    if lines.len() == 0 {
        0
    } else {
        total_bytes(lines.drop_last()) + encode_utf8(lines.last()).len() + 1
    }
}

impl WordCountInfo {
    /// Puts counts and a path together.
    pub fn new(
        line_cnt: usize,
        word_cnt: usize,
        byte_cnt: usize,
        char_cnt: usize,
        path: &str,
    ) -> (info: Self)
        ensures
            info.line_cnt == line_cnt,
            info.word_cnt == word_cnt,
            info.byte_cnt == byte_cnt,
            info.char_cnt == char_cnt,
            info.path@ == path@,
    {
        Self { line_cnt, word_cnt, byte_cnt, char_cnt, path: path.to_owned() }
    }

    /// Counts what is left in the stream. Only lines that are well-formed
    /// UTF-8 count; each counts its line break, written or not, as one byte
    /// and one character.
    pub fn from_reader(path: &str, reader: &mut Stream<'_>) -> (info: Self)
        requires
            old(reader).remaining().len() < usize::MAX,
        ensures
            info.line_cnt == valid_lines(old(reader).remaining()).len(),
            info.word_cnt == total_words(valid_lines(old(reader).remaining())),
            info.byte_cnt == total_bytes(valid_lines(old(reader).remaining())),
            info.char_cnt == total_chars(valid_lines(old(reader).remaining())),
            info.path@ == path@,
            info.line_cnt <= info.byte_cnt,
            info.word_cnt <= info.char_cnt <= info.byte_cnt <= old(reader).remaining().len() + 1,
            final(reader).content() == old(reader).content(),
            final(reader).remaining() == Seq::<u8>::empty(),
    {
        let ghost bytes = old(reader).remaining();
        let ghost raw = split_lines(bytes);
        let ghost decoded = decoded_lines(bytes);
        let lines = reader.lines();
        let mut line_cnt: usize = 0;
        let mut word_cnt: usize = 0;
        let mut byte_cnt: usize = 0;
        let mut char_cnt: usize = 0;
        let mut i: usize = 0;
        proof {
            lemma_split_lines_framed(bytes);
            assert(line_views(lines@).len() == lines@.len());
            assert(decoded.take(0) =~= Seq::<Option<Seq<char>>>::empty());
            assert(raw.take(0) =~= Seq::<Seq<u8>>::empty());
        }
        while i < lines.len()
            invariant
                i <= lines@.len(),
                raw.len() == lines@.len(),
                line_views(lines@) == raw,
                raw == split_lines(bytes),
                decoded == decoded_lines(bytes),
                framed_len(raw) <= usize::MAX,
                line_cnt == valid_texts(decoded.take(i as int)).len(),
                word_cnt == total_words(valid_texts(decoded.take(i as int))),
                byte_cnt == total_bytes(valid_texts(decoded.take(i as int))),
                char_cnt == total_chars(valid_texts(decoded.take(i as int))),
                line_cnt <= i,
                line_cnt <= byte_cnt,
                word_cnt <= char_cnt <= byte_cnt <= framed_len(raw.take(i as int)),
            decreases lines@.len() - i,
        {
            proof {
                assert(line_views(lines@)[i as int] == lines@[i as int]@);
                assert(decoded.take(i + 1).drop_last() =~= decoded.take(i as int));
                assert(decoded.take(i + 1).last() == strict_text(raw[i as int]));
                assert(raw.take(i + 1).drop_last() =~= raw.take(i as int));
                assert(raw.take(i + 1).last() == raw[i as int]);
                lemma_framed_len_prefix(raw, i + 1);
            }
            match decode_strict(lines[i].as_slice()) {
                Some(line) => {
                    let chars = chars_of(line.as_str());
                    proof {
                        vstd::utf8::decode_utf8_encode_utf8(raw[i as int]);
                        lemma_chars_le_bytes(line@);
                        lemma_word_count_bound(line@);
                        let before = valid_texts(decoded.take(i as int));
                        let after = valid_texts(decoded.take(i + 1));
                        assert(after == before.push(line@));
                        assert(after.drop_last() =~= before);
                        assert(after.last() == line@);
                        assert(encode_utf8(line@) == raw[i as int]);
                    }
                    byte_cnt += lines[i].len() + 1;
                    line_cnt += 1;
                    char_cnt += chars.len() + 1;
                    word_cnt += count_words(&chars);
                },
                None => {
                    proof {
                        assert(valid_texts(decoded.take(i + 1)) == valid_texts(
                            decoded.take(i as int),
                        ));
                    }
                },
            }
            i += 1;
        }
        proof {
            assert(decoded.take(lines@.len() as int) =~= decoded);
            assert(raw.take(lines@.len() as int) =~= raw);
        }
        Self::new(line_cnt, word_cnt, byte_cnt, char_cnt, path)
    }

    /// The four counts.
    pub open spec fn counts(&self) -> Counts {
        Counts {
            lines: self.line_cnt as nat,
            words: self.word_cnt as nat,
            bytes: self.byte_cnt as nat,
            chars: self.char_cnt as nat,
        }
    }

    /// Adds up the counts of several inputs under the path `total`.
    pub fn from_word_counts(word_counts: &[WordCountInfo]) -> (info: Self)
        requires
            sum_counts(word_counts@).fits(),
        ensures
            info.counts() == sum_counts(word_counts@),
            info.path@ == "total"@,
    {
        let mut line_cnt: usize = 0;
        let mut word_cnt: usize = 0;
        let mut byte_cnt: usize = 0;
        let mut char_cnt: usize = 0;
        let mut i: usize = 0;
        while i < word_counts.len()
            invariant
                i <= word_counts@.len(),
                sum_counts(word_counts@).fits(),
                sum_counts(word_counts@.take(i as int)) == (Counts {
                    lines: line_cnt as nat,
                    words: word_cnt as nat,
                    bytes: byte_cnt as nat,
                    chars: char_cnt as nat,
                }),
            decreases word_counts@.len() - i,
        {
            proof {
                lemma_sum_counts_prefix(word_counts@, i + 1);
                assert(word_counts@.take(i + 1).drop_last() =~= word_counts@.take(i as int));
                assert(word_counts@.take(i + 1).last() == word_counts@[i as int]);
            }
            line_cnt += word_counts[i].line_cnt;
            word_cnt += word_counts[i].word_cnt;
            byte_cnt += word_counts[i].byte_cnt;
            char_cnt += word_counts[i].char_cnt;
            i += 1;
        }
        proof {
            assert(word_counts@.take(word_counts@.len() as int) =~= word_counts@);
        }
        Self::new(line_cnt, word_cnt, byte_cnt, char_cnt, "total")
    }

    /// One line of the report: the counts that are asked for, each in a
    /// field of eight characters, in the order lines, words, bytes,
    /// characters; then a blank and the path.
    pub fn to_string(
        &self,
        count_lines: bool,
        count_words: bool,
        count_bytes: bool,
        count_chars: bool,
    ) -> (out: String)
        ensures
            out@ == report(
                self.counts(),
                self.path@,
                count_lines,
                count_words,
                count_bytes,
                count_chars,
            ),
    {
        let mut output = String::new();
        if count_lines {
            output.append(format_number(self.line_cnt, 8).as_str());
        }
        if count_words {
            output.append(format_number(self.word_cnt, 8).as_str());
        }
        if count_bytes {
            output.append(format_number(self.byte_cnt, 8).as_str());
        }
        if count_chars {
            output.append(format_number(self.char_cnt, 8).as_str());
        }
        output.push(' ');
        output.append(self.path.as_str());
        proof {
            assert(output@ =~= report(
                self.counts(),
                self.path@,
                count_lines,
                count_words,
                count_bytes,
                count_chars,
            ));
        }
        output
    }
}

/// Four counts, as numbers without a bound.
pub struct Counts {
    pub lines: nat,
    pub words: nat,
    pub bytes: nat,
    pub chars: nat,
}

impl Counts {
    /// Whether each count fits the machine's word.
    pub open spec fn fits(self) -> bool {
        &&& self.lines <= usize::MAX
        &&& self.words <= usize::MAX
        &&& self.bytes <= usize::MAX
        &&& self.chars <= usize::MAX
    }

    /// The sum, count by count.
    pub open spec fn plus(self, other: Counts) -> Counts {
        Counts {
            lines: self.lines + other.lines,
            words: self.words + other.words,
            bytes: self.bytes + other.bytes,
            chars: self.chars + other.chars,
        }
    }
}

/// The counts of several inputs added up.
pub open spec fn sum_counts(infos: Seq<WordCountInfo>) -> Counts
    decreases infos.len(),
{
    if infos.len() == 0 {
        Counts { lines: 0, words: 0, bytes: 0, chars: 0 }
    } else {
        sum_counts(infos.drop_last()).plus(infos.last().counts())
    }
}

/// The sum over the first inputs is no larger, in any count, than the sum
/// over all.
pub proof fn lemma_sum_counts_prefix(infos: Seq<WordCountInfo>, k: int)
    requires
        0 <= k <= infos.len(),
    ensures
        sum_counts(infos.take(k)).lines <= sum_counts(infos).lines,
        sum_counts(infos.take(k)).words <= sum_counts(infos).words,
        sum_counts(infos.take(k)).bytes <= sum_counts(infos).bytes,
        sum_counts(infos.take(k)).chars <= sum_counts(infos).chars,
    decreases infos.len() - k,
{
    if k < infos.len() {
        lemma_sum_counts_prefix(infos, k + 1);
        assert(infos.take(k + 1).drop_last() =~= infos.take(k));
    } else {
        assert(infos.take(k) =~= infos);
    }
}

/// A count in its field of eight characters.
pub open spec fn field(n: nat) -> Seq<char> {
    right_aligned(decimal(n), 8)
}

/// One line of the report.
pub open spec fn report(
    counts: Counts,
    path: Seq<char>,
    count_lines: bool,
    count_words: bool,
    count_bytes: bool,
    count_chars: bool,
) -> Seq<char> {
    (if count_lines {
        field(counts.lines)
    } else {
        Seq::empty()
    }) + (if count_words {
        field(counts.words)
    } else {
        Seq::empty()
    }) + (if count_bytes {
        field(counts.bytes)
    } else {
        Seq::empty()
    }) + (if count_chars {
        field(counts.chars)
    } else {
        Seq::empty()
    }) + seq![' '] + path
}

/// The options of a run.
#[derive(Debug)]
pub struct Args {
    /// Show the number of words.
    pub words: bool,
    /// Show the number of bytes.
    pub bytes: bool,
    /// Show the number of characters.
    pub chars: bool,
    /// Show the number of lines.
    pub lines: bool,
    /// The files to count, in order; none stands for standard input.
    pub files: Vec<String>,
}

impl Args {
    /// Whether no count is asked for, so that lines, words and bytes are
    /// shown.
    pub open spec fn plain(&self) -> bool {
        !(self.lines || self.words || self.bytes || self.chars)
    }

    /// The paths of the inputs.
    pub open spec fn paths(&self) -> Seq<Seq<char>> {
        paths_or_stdin(self.files@)
    }
}

/// The counts of the content of one input.
pub open spec fn counts_of(content: Seq<u8>) -> Counts {
    Counts {
        lines: valid_lines(content).len(),
        words: total_words(valid_lines(content)),
        bytes: total_bytes(valid_lines(content)),
        chars: total_chars(valid_lines(content)),
    }
}

/// The line of the report for given counts, with the counts that a run
/// shows.
pub open spec fn report_line(args: Args, counts: Counts, path: Seq<char>) -> Seq<char> {
    report(
        counts,
        path,
        args.lines || args.plain(),
        args.words || args.plain(),
        args.bytes || args.plain(),
        args.chars,
    ) + seq!['\n']
}

/// What input `i` of a run adds to standard output: its line of the report,
/// unless it could not be opened.
pub open spec fn file_stdout(args: Args, inputs: Seq<Result<Vec<u8>, String>>, i: int) -> Seq<
    char,
> {
    match inputs[i] {
        Ok(content) => report_line(args, counts_of(content@), args.paths()[i]),
        Err(_) => Seq::empty(),
    }
}

/// What input `i` of a run adds to standard error: a diagnostic if it could
/// not be opened.
pub open spec fn file_stderr(args: Args, inputs: Seq<Result<Vec<u8>, String>>, i: int) -> Seq<
    char,
> {
    match inputs[i] {
        Ok(_) => Seq::empty(),
        Err(message) => diagnostic("wc"@, args.paths()[i], message@),
    }
}

/// Standard output after the first `k` inputs.
pub open spec fn stdout_after(args: Args, inputs: Seq<Result<Vec<u8>, String>>, k: nat) -> Seq<
    char,
>
    decreases k,
{
    if k == 0 {
        Seq::empty()
    } else {
        stdout_after(args, inputs, (k - 1) as nat) + file_stdout(args, inputs, k - 1)
    }
}

/// Standard error after the first `k` inputs.
pub open spec fn stderr_after(args: Args, inputs: Seq<Result<Vec<u8>, String>>, k: nat) -> Seq<
    char,
>
    decreases k,
{
    if k == 0 {
        Seq::empty()
    } else {
        stderr_after(args, inputs, (k - 1) as nat) + file_stderr(args, inputs, k - 1)
    }
}

/// The counts of the first `k` inputs added up; those that could not be
/// opened add nothing.
pub open spec fn totals_after(inputs: Seq<Result<Vec<u8>, String>>, k: nat) -> Counts
    decreases k,
{
    if k == 0 {
        Counts { lines: 0, words: 0, bytes: 0, chars: 0 }
    } else {
        match inputs[k - 1] {
            Ok(content) => totals_after(inputs, (k - 1) as nat).plus(counts_of(content@)),
            Err(_) => totals_after(inputs, (k - 1) as nat),
        }
    }
}

/// The bytes of the first `k` inputs that were opened, with one more for
/// each: a bound on every count of their total.
pub open spec fn weight_after(inputs: Seq<Result<Vec<u8>, String>>, k: nat) -> nat
    decreases k,
{
    if k == 0 {
        0
    } else {
        match inputs[k - 1] {
            Ok(content) => weight_after(inputs, (k - 1) as nat) + content@.len() + 1,
            Err(_) => weight_after(inputs, (k - 1) as nat),
        }
    }
}

/// The first inputs weigh no more than all of them.
pub proof fn lemma_weight_prefix(inputs: Seq<Result<Vec<u8>, String>>, k: nat, n: nat)
    requires
        k <= n,
    ensures
        weight_after(inputs, k) <= weight_after(inputs, n),
    decreases n - k,
{
    if k < n {
        lemma_weight_prefix(inputs, k, (n - 1) as nat);
    }
}

/// Counts every input. `inputs[i]` is what opening and reading the `i`-th
/// of `args.paths()` gave: its bytes, or the message of the error.
///
/// Each input that was opened gives a line of the report; with more than
/// one path a line of totals follows. Each input that could not be opened
/// leaves a diagnostic on standard error and makes the exit code 1.
pub fn run(args: &Args, inputs: &Vec<Result<Vec<u8>, String>>) -> (out: Output)
    requires
        inputs@.len() == args.paths().len(),
        weight_after(inputs@, inputs@.len()) <= usize::MAX,
    ensures
        out.stdout@ == stdout_after(*args, inputs@, inputs@.len()) + if inputs@.len() > 1 {
            report_line(*args, totals_after(inputs@, inputs@.len()), "total"@)
        } else {
            Seq::empty()
        },
        out.stderr@ == stderr_after(*args, inputs@, inputs@.len()),
        out.code == if failed_before(inputs@, inputs@.len()) {
            1i32
        } else {
            0i32
        },
{
    let plain: bool = !(args.lines || args.words || args.bytes || args.chars);
    let lines: bool = args.lines || plain;
    let words: bool = args.words || plain;
    let bytes: bool = args.bytes || plain;
    let paths = input_paths(&args.files);
    let mut stdout = String::new();
    let mut stderr = String::new();
    let mut code: i32 = 0;
    let mut infos: Vec<WordCountInfo> = Vec::new();
    let mut i: usize = 0;
    while i < inputs.len()
        invariant
            i <= inputs@.len(),
            inputs@.len() == args.paths().len(),
            string_views(paths@) == args.paths(),
            weight_after(inputs@, inputs@.len()) <= usize::MAX,
            lines == (args.lines || args.plain()),
            words == (args.words || args.plain()),
            bytes == (args.bytes || args.plain()),
            stdout@ == stdout_after(*args, inputs@, i as nat),
            stderr@ == stderr_after(*args, inputs@, i as nat),
            sum_counts(infos@) == totals_after(inputs@, i as nat),
            totals_after(inputs@, i as nat).lines <= weight_after(inputs@, i as nat),
            totals_after(inputs@, i as nat).words <= weight_after(inputs@, i as nat),
            totals_after(inputs@, i as nat).bytes <= weight_after(inputs@, i as nat),
            totals_after(inputs@, i as nat).chars <= weight_after(inputs@, i as nat),
            code == if failed_before(inputs@, i as nat) {
                1i32
            } else {
                0i32
            },
        decreases inputs@.len() - i,
    {
        proof {
            lemma_weight_prefix(inputs@, (i + 1) as nat, inputs@.len());
            assert(string_views(paths@)[i as int] == paths@[i as int]@);
        }
        let path: &str = paths[i].as_str();
        match &inputs[i] {
            Ok(content) => {
                let mut reader = Stream::new(content.as_slice());
                assert(reader.remaining() =~= content@);
                let info = WordCountInfo::from_reader(path, &mut reader);
                let ghost before = stdout@;
                stdout.append(info.to_string(lines, words, bytes, args.chars).as_str());
                stdout.push('\n');
                proof {
                    assert(info.counts() == counts_of(content@));
                    assert(stdout@ =~= before + file_stdout(*args, inputs@, i as int));
                    assert(stderr@ =~= stderr@ + Seq::<char>::empty());
                    assert(infos@.push(info).drop_last() =~= infos@);
                }
                infos.push(info);
            },
            Err(message) => {
                push_diagnostic(&mut stderr, "wc", path, message.as_str());
                code = 1;
                proof {
                    assert(stdout@ =~= stdout@ + Seq::<char>::empty());
                }
            },
        }
        i += 1;
    }
    if inputs.len() > 1 {
        let total = WordCountInfo::from_word_counts(infos.as_slice());
        let ghost before = stdout@;
        stdout.append(total.to_string(lines, words, bytes, args.chars).as_str());
        stdout.push('\n');
        proof {
            assert(stdout@ =~= before + report_line(
                *args,
                totals_after(inputs@, inputs@.len()),
                "total"@,
            ));
        }
    } else {
        proof {
            assert(stdout@ =~= stdout@ + Seq::<char>::empty());
        }
    }
    Output { stdout, stderr, code }
}

} // verus!
