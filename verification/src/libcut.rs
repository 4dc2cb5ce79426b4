//! Selected portions of each line: ranges of bytes, of characters, or of
//! delimited fields.

use crate::common::{diagnostic, failed_before, push_diagnostic, Output};
use crate::number::{parse_number, parsed_number, NumberError};
use crate::stream::{decoded_lines, decoded_views, Stream};
use crate::text::{
    char_views, chars_of, clip, decode_lossy, join, join_strings, lossy_text, push_lines,
    split_chars, split_on, string_of, string_views, unlines,
};
use std::ops::Range;
use vstd::prelude::*;
use vstd::string::StringExecFns;
use vstd::utf8::encode_utf8;

verus! {

/// One range of a list, with the unit it counts in.
#[derive(Debug)]
pub enum CutRange {
    /// Byte positions.
    ByteRange(Range<usize>),
    /// Character positions.
    CharRange(Range<usize>),
    /// Field positions, and the character that separates fields.
    FieldRange(Range<usize>, char),
}

/// Why a range of a list was refused.
#[derive(Clone, Copy, Debug, PartialEq, Eq, Structural)]
pub enum ParsingError {
    /// Positions count from one: a zero is no position.
    ZeroPosition,
    /// The range is neither a number nor two parts around a dash.
    InvalidInput,
    /// A part of the range is not a number.
    Number(NumberError),
}

impl ParsingError {
    /// The message shown to the user.
    pub fn to_string(&self) -> (msg: String)
        ensures
            msg@ == match *self {
                ParsingError::ZeroPosition => "list: value may not contain 0's"@,
                ParsingError::InvalidInput => "list: invalid input"@,
                ParsingError::Number(NumberError::Empty) => {
                    "cannot parse integer from empty string"@
                },
                ParsingError::Number(NumberError::InvalidDigit) => {
                    "invalid digit found in string"@
                },
                ParsingError::Number(NumberError::TooLarge) => {
                    "number too large to fit in target type"@
                },
            },
    {
        match self {
            ParsingError::ZeroPosition => "list: value may not contain 0's".to_owned(),
            ParsingError::InvalidInput => "list: invalid input".to_owned(),
            ParsingError::Number(e) => e.to_string(),
        }
    }
}

/// The index of the first dash of a text, or its length when it has none.
pub open spec fn dash_at(s: Seq<char>) -> nat
    decreases s.len(),
{
    if s.len() == 0 || s[0] == '-' {
        0
    } else {
        1 + dash_at(s.drop_first())
    }
}

/// What a range of a list stands for. A number `n` is the one position `n`;
/// `a-b` is the positions from `a` to `b`. Positions count from one and the
/// range that comes out counts from zero, its end left out.
pub open spec fn parsed_range(s: Seq<char>) -> Result<Range<usize>, ParsingError> {
    match parsed_number(s) {
        Ok(n) => if n == 0 {
            Err(ParsingError::ZeroPosition)
        } else {
            Ok(((n - 1) as usize)..n)
        },
        Err(_) => {
            let k = dash_at(s) as int;
            if k >= s.len() {
                Err(ParsingError::InvalidInput)
            } else {
                match parsed_number(s.take(k)) {
                    Err(e) => Err(ParsingError::Number(e)),
                    Ok(a) => match parsed_number(s.skip(k + 1)) {
                        Err(e) => Err(ParsingError::Number(e)),
                        Ok(b) => if a == 0 || b == 0 {
                            Err(ParsingError::ZeroPosition)
                        } else {
                            Ok(((a - 1) as usize)..b)
                        },
                    },
                }
            }
        },
    }
}

/// `dash_at` is the one index that holds a dash, or is the end, and has no
/// dash before it.
pub proof fn lemma_dash_at_is(s: Seq<char>, k: int)
    requires
        0 <= k <= s.len(),
        forall|j: int| 0 <= j < k ==> s[j] != '-',
        k == s.len() || s[k] == '-',
    ensures
        dash_at(s) == k,
    decreases s.len(),
{
    if k > 0 {
        let rest = s.drop_first();
        assert forall|j: int| 0 <= j < k - 1 implies rest[j] != '-' by {
            assert(rest[j] == s[j + 1]);
        }
        lemma_dash_at_is(rest, k - 1);
    }
}

/// Reads one range of a list.
pub fn parse_range(input: &str) -> (r: Result<Range<usize>, ParsingError>)
    ensures
        r == parsed_range(input@),
{
    let chars = chars_of(input);
    let len: usize = chars.len();
    proof {
        assert(chars@.subrange(0, len as int) =~= input@);
    }
    match parse_number(&chars, 0, len) {
        Ok(num) => {
            if num == 0 {
                return Err(ParsingError::ZeroPosition);
            }
            return Ok((num - 1)..num);
        },
        Err(_) => {},
    }
    let mut k: usize = 0;
    while k < len && chars[k] != '-'
        invariant
            k <= len,
            len == chars@.len(),
            forall|j: int| 0 <= j < k ==> chars@[j] != '-',
        decreases len - k,
    {
        k += 1;
    }
    proof {
        lemma_dash_at_is(chars@, k as int);
    }
    if k == len {
        return Err(ParsingError::InvalidInput);
    }
    proof {
        assert(chars@.subrange(0, k as int) =~= input@.take(k as int));
        assert(chars@.subrange(k + 1, len as int) =~= input@.skip(k + 1));
    }
    let start: usize = match parse_number(&chars, 0, k) {
        Ok(n) => n,
        Err(e) => {
            return Err(ParsingError::Number(e));
        },
    };
    let end: usize = match parse_number(&chars, k + 1, len) {
        Ok(n) => n,
        Err(e) => {
            return Err(ParsingError::Number(e));
        },
    };
    if start == 0 || end == 0 {
        return Err(ParsingError::ZeroPosition);
    }
    Ok((start - 1)..end)
}

/// The bytes of a line whose positions lie in the range, decoded leniently.
pub fn cut_bytes(line: &str, range: &Range<usize>) -> (out: String)
    ensures
        out@ == lossy_text(clip(encode_utf8(line@), range.start as int, range.end as int)),
{
    let bytes = line.as_bytes();
    let len: usize = bytes.len();
    let mut kept: Vec<u8> = Vec::new();
    if range.start < range.end && range.start < len {
        let stop: usize = if range.end < len {
            range.end
        } else {
            len
        };
        let mut i: usize = range.start;
        while i < stop
            invariant
                range.start <= i <= stop <= len,
                len == bytes@.len(),
                kept@ == bytes@.subrange(range.start as int, i as int),
            decreases stop - i,
        {
            kept.push(bytes[i]);
            i += 1;
        }
    }
    decode_lossy(kept.as_slice())
}

/// The characters of a line whose positions lie in the range.
pub fn cut_chars(line: &str, range: &Range<usize>) -> (out: String)
    ensures
        out@ == clip(line@, range.start as int, range.end as int),
{
    let chars = chars_of(line);
    let len: usize = chars.len();
    let mut kept: Vec<char> = Vec::new();
    if range.start < range.end && range.start < len {
        let stop: usize = if range.end < len {
            range.end
        } else {
            len
        };
        let mut i: usize = range.start;
        while i < stop
            invariant
                range.start <= i <= stop <= len,
                len == chars@.len(),
                kept@ == chars@.subrange(range.start as int, i as int),
            decreases stop - i,
        {
            kept.push(chars[i]);
            i += 1;
        }
    }
    string_of(&kept)
}

/// The fields of a line whose positions lie in the range, with the
/// delimiter between them.
pub fn cut_fields(line: &str, delimiter: &char, range: &Range<usize>) -> (out: String)
    ensures
        out@ == join(
            clip(split_on(line@, *delimiter), range.start as int, range.end as int),
            seq![*delimiter],
        ),
{
    let chars = chars_of(line);
    let fields = split_chars(&chars, *delimiter);
    let len: usize = fields.len();
    let ghost all = split_on(line@, *delimiter);
    let mut kept: Vec<String> = Vec::new();
    proof {
        assert(char_views(fields@).len() == fields@.len());
        assert(string_views(kept@) =~= clip(all, range.start as int, range.start as int));
    }
    if range.start < range.end && range.start < len {
        let stop: usize = if range.end < len {
            range.end
        } else {
            len
        };
        let mut i: usize = range.start;
        proof {
            assert(string_views(kept@) =~= all.subrange(range.start as int, i as int));
        }
        while i < stop
            invariant
                range.start <= i <= stop <= len,
                len == fields@.len(),
                all.len() == len,
                char_views(fields@) == all,
                string_views(kept@) == all.subrange(range.start as int, i as int),
            decreases stop - i,
        {
            let field = string_of(&fields[i]);
            proof {
                assert(char_views(fields@)[i as int] == fields@[i as int]@);
                assert(string_views(kept@).len() == i - range.start);
                assert(string_views(kept@.push(field)) =~= all.subrange(
                    range.start as int,
                    i + 1,
                ));
            }
            kept.push(field);
            i += 1;
        }
    }
    let mut sep = String::new();
    sep.push(*delimiter);
    proof {
        assert(sep@ =~= seq![*delimiter]);
    }
    join_strings(&kept, sep.as_str())
}

impl CutRange {
    /// What the range selects from a line.
    pub open spec fn fragment(self, line: Seq<char>) -> Seq<char> {
        match self {
            CutRange::ByteRange(range) => lossy_text(
                clip(encode_utf8(line), range.start as int, range.end as int),
            ),
            CutRange::CharRange(range) => clip(line, range.start as int, range.end as int),
            CutRange::FieldRange(range, delimiter) => join(
                clip(split_on(line, delimiter), range.start as int, range.end as int),
                seq![delimiter],
            ),
        }
    }
}

/// What the first `k` ranges select from a line, one selection after the
/// other.
pub open spec fn cut_text(line: Seq<char>, ranges: Seq<CutRange>, k: nat) -> Seq<char>
    decreases k,
{
    if k == 0 {
        Seq::empty()
    } else {
        cut_text(line, ranges, (k - 1) as nat) + ranges[k - 1].fragment(line)
    }
}

/// Cuts a line by each range in turn and puts the pieces together.
pub fn cut_line(line: &str, ranges: &[CutRange]) -> (out: String)
    ensures
        out@ == cut_text(line@, ranges@, ranges@.len()),
{
    let mut out = String::new();
    let mut i: usize = 0;
    while i < ranges.len()
        invariant
            i <= ranges@.len(),
            out@ == cut_text(line@, ranges@, i as nat),
        decreases ranges@.len() - i,
    {
        let piece = match &ranges[i] {
            CutRange::ByteRange(range) => cut_bytes(line, range),
            CutRange::CharRange(range) => cut_chars(line, range),
            CutRange::FieldRange(range, delimiter) => cut_fields(line, delimiter, range),
        };
        out.append(piece.as_str());
        i += 1;
    }
    out
}

/// What stands in the output for a line that is not well-formed UTF-8.
pub open spec fn undecodable() -> Seq<char> {
    "stream did not contain valid UTF-8"@
}

/// The lines of a byte sequence after cutting: each line of text cut by the
/// ranges, and a notice in place of each line that is no text.
pub open spec fn cut_lines(bytes: Seq<u8>, ranges: Seq<CutRange>) -> Seq<Seq<char>> {
    decoded_lines(bytes).map_values(
        |line: Option<Seq<char>>|
            match line {
                Some(text) => cut_text(text, ranges, ranges.len()),
                None => undecodable(),
            },
    )
}

/// Cuts every line that is left in the stream.
pub fn cut_reader(reader: &mut Stream<'_>, ranges: &[CutRange]) -> (out: Vec<String>)
    ensures
        string_views(out@) == cut_lines(old(reader).remaining(), ranges@),
        final(reader).content() == old(reader).content(),
        final(reader).remaining() == Seq::<u8>::empty(),
{
    let lines = reader.text_lines();
    let ghost all = cut_lines(old(reader).remaining(), ranges@);
    let mut out: Vec<String> = Vec::new();
    let mut i: usize = 0;
    proof {
        assert(decoded_views(lines@).len() == lines@.len());
        assert(string_views(out@) =~= all.take(0));
    }
    while i < lines.len()
        invariant
            i <= lines@.len(),
            all.len() == lines@.len(),
            decoded_views(lines@) == decoded_lines(old(reader).remaining()),
            all == cut_lines(old(reader).remaining(), ranges@),
            string_views(out@) == all.take(i as int),
        decreases lines@.len() - i,
    {
        let cut = match &lines[i] {
            Some(line) => cut_line(line.as_str(), ranges),
            None => "stream did not contain valid UTF-8".to_owned(),
        };
        proof {
            assert(decoded_views(lines@)[i as int] == decoded_lines(
                old(reader).remaining(),
            )[i as int]);
            assert(cut@ == all[i as int]);
            assert(string_views(out@).len() == i);
            assert(string_views(out@.push(cut)) =~= all.take(i + 1));
        }
        out.push(cut);
        i += 1;
    }
    proof {
        assert(all.take(lines@.len() as int) =~= all);
    }
    out
}

/// The options of a run.
#[derive(Debug)]
pub struct Args {
    /// The list, where it counts bytes.
    pub byte_ranges: Option<String>,
    /// The list, where it counts characters.
    pub char_ranges: Option<String>,
    /// The list, where it counts fields.
    pub field_ranges: Option<String>,
    /// The character that separates fields.
    pub delimiter: char,
    /// The files to cut, in order.
    pub files: Vec<String>,
}

impl Args {
    /// The list in force: the one in bytes, else the one in characters,
    /// else the one in fields, and an empty list where none is given.
    pub open spec fn list(&self) -> Seq<char> {
        match self.byte_ranges {
            Some(s) => s@,
            None => match self.char_ranges {
                Some(s) => s@,
                None => match self.field_ranges {
                    Some(s) => s@,
                    None => Seq::empty(),
                },
            },
        }
    }

    /// A range of the list in force, with the unit of that list.
    pub open spec fn with_unit(&self, range: Range<usize>) -> CutRange {
        if self.byte_ranges is Some {
            CutRange::ByteRange(range)
        } else if self.char_ranges is Some {
            CutRange::CharRange(range)
        } else {
            CutRange::FieldRange(range, self.delimiter)
        }
    }
}

/// What the first `k` entries of a list stand for: their ranges, or the
/// error of the first entry that is refused.
pub open spec fn parsed_list(args: Args, entries: Seq<Seq<char>>, k: nat) -> Result<
    Seq<CutRange>,
    ParsingError,
>
    decreases k,
{
    if k == 0 {
        Ok(Seq::empty())
    } else {
        match parsed_list(args, entries, (k - 1) as nat) {
            Err(e) => Err(e),
            Ok(ranges) => match parsed_range(entries[k - 1]) {
                Err(e) => Err(e),
                Ok(range) => Ok(ranges.push(args.with_unit(range))),
            },
        }
    }
}

/// The ranges of a run: the entries that commas separate in the list in
/// force.
pub open spec fn ranges_of(args: Args) -> Result<Seq<CutRange>, ParsingError> {
    let entries = split_on(args.list(), ',');
    parsed_list(args, entries, entries.len())
}

/// What file `i` of a run adds to standard output: its lines after
/// cutting, each followed by a line break. A file that could not be opened
/// adds nothing.
pub open spec fn file_stdout(
    inputs: Seq<Result<Vec<u8>, String>>,
    ranges: Seq<CutRange>,
    i: int,
) -> Seq<char> {
    match inputs[i] {
        Ok(content) => unlines(cut_lines(content@, ranges)),
        Err(_) => Seq::empty(),
    }
}

/// What file `i` of a run adds to standard error: a diagnostic if it could
/// not be opened.
pub open spec fn file_stderr(
    args: Args,
    inputs: Seq<Result<Vec<u8>, String>>,
    i: int,
) -> Seq<char> {
    match inputs[i] {
        Ok(_) => Seq::empty(),
        Err(message) => diagnostic("cut"@, args.files@[i]@, message@),
    }
}

/// Standard output after the first `k` files.
pub open spec fn stdout_after(
    inputs: Seq<Result<Vec<u8>, String>>,
    ranges: Seq<CutRange>,
    k: nat,
) -> Seq<char>
    decreases k,
{
    if k == 0 {
        Seq::empty()
    } else {
        stdout_after(inputs, ranges, (k - 1) as nat) + file_stdout(inputs, ranges, k - 1)
    }
}

/// Standard error after the first `k` files.
pub open spec fn stderr_after(
    args: Args,
    inputs: Seq<Result<Vec<u8>, String>>,
    k: nat,
) -> Seq<char>
    decreases k,
{
    if k == 0 {
        Seq::empty()
    } else {
        stderr_after(args, inputs, (k - 1) as nat) + file_stderr(args, inputs, k - 1)
    }
}

/// Reads the list in force: its ranges, or the error of the first entry
/// that is refused.
pub fn parse_list(args: &Args) -> (r: Result<Vec<CutRange>, ParsingError>)
    ensures
        match r {
            Ok(ranges) => ranges_of(*args) == Ok::<Seq<CutRange>, ParsingError>(ranges@),
            Err(e) => ranges_of(*args) == Err::<Seq<CutRange>, ParsingError>(e),
        },
{
    let (list, unit): (&String, u8) = match &args.byte_ranges {
        Some(s) => (s, 0),
        None => match &args.char_ranges {
            Some(s) => (s, 1),
            None => match &args.field_ranges {
                Some(s) => (s, 2),
                None => {
                    proof {
                        let entries = split_on(args.list(), ',');
                        assert(entries =~= seq![Seq::<char>::empty()]);
                        assert(parsed_list(*args, entries, 0) == Ok::<
                            Seq<CutRange>,
                            ParsingError,
                        >(Seq::empty()));
                        assert(parsed_range(entries[0]) == Err::<Range<usize>, ParsingError>(
                            ParsingError::InvalidInput,
                        ));
                    }
                    return Err(ParsingError::InvalidInput);
                },
            },
        },
    };
    let chars = chars_of(list.as_str());
    let entries = split_chars(&chars, ',');
    let ghost all = split_on(args.list(), ',');
    let mut ranges: Vec<CutRange> = Vec::new();
    let mut i: usize = 0;
    proof {
        assert(char_views(entries@).len() == entries@.len());
    }
    while i < entries.len()
        invariant
            i <= entries@.len(),
            all.len() == entries@.len(),
            char_views(entries@) == all,
            all == split_on(args.list(), ','),
            unit == 0 <==> args.byte_ranges is Some,
            unit == 1 <==> args.byte_ranges is None && args.char_ranges is Some,
            parsed_list(*args, all, i as nat) == Ok::<Seq<CutRange>, ParsingError>(ranges@),
        decreases entries@.len() - i,
    {
        let entry = string_of(&entries[i]);
        proof {
            assert(char_views(entries@)[i as int] == entries@[i as int]@);
        }
        match parse_range(entry.as_str()) {
            Err(e) => {
                proof {
                    assert(parsed_list(*args, all, (i + 1) as nat) == Err::<
                        Seq<CutRange>,
                        ParsingError,
                    >(e));
                    lemma_first_refusal(*args, all, (i + 1) as nat, all.len());
                }
                return Err(e);
            },
            Ok(range) => {
                let cut = if unit == 0 {
                    CutRange::ByteRange(range)
                } else if unit == 1 {
                    CutRange::CharRange(range)
                } else {
                    CutRange::FieldRange(range, args.delimiter)
                };
                ranges.push(cut);
            },
        }
        i += 1;
    }
    Ok(ranges)
}

/// Once an entry is refused, its error is that of every longer prefix of
/// the list.
pub proof fn lemma_first_refusal(args: Args, entries: Seq<Seq<char>>, k: nat, n: nat)
    requires
        k <= n,
        parsed_list(args, entries, k) is Err,
    ensures
        parsed_list(args, entries, n) == parsed_list(args, entries, k),
    decreases n - k,
{
    if k < n {
        lemma_first_refusal(args, entries, k, (n - 1) as nat);
    }
}

/// Cuts every line of every file. `inputs[i]` is what opening and reading
/// `args.files[i]` gave: its bytes, or the message of the error.
///
/// A list with an entry that is refused ends the run with the error of the
/// first such entry; so does a missing list, which counts as one empty
/// entry. Otherwise the lines of each file are cut and written in order, a
/// file that could not be opened leaves a diagnostic on standard error and
/// does not stop the others, and the exit code is 1 if any file failed and
/// 0 if none did.
pub fn run(args: &Args, inputs: &Vec<Result<Vec<u8>, String>>) -> (r: Result<
    Output,
    ParsingError,
>)
    requires
        inputs@.len() == args.files@.len(),
    ensures
        match r {
            Ok(out) => ranges_of(*args) matches Ok(ranges) && out.stdout@ == stdout_after(
                inputs@,
                ranges,
                inputs@.len(),
            ) && out.stderr@ == stderr_after(*args, inputs@, inputs@.len()) && out.code
                == if failed_before(inputs@, inputs@.len()) {
                1i32
            } else {
                0i32
            },
            Err(e) => ranges_of(*args) == Err::<Seq<CutRange>, ParsingError>(e),
        },
{
    let ranges = parse_list(args)?;
    let mut stdout = String::new();
    let mut stderr = String::new();
    let mut code: i32 = 0;
    let mut i: usize = 0;
    while i < inputs.len()
        invariant
            i <= inputs@.len(),
            stdout@ == stdout_after(inputs@, ranges@, i as nat),
            inputs@.len() == args.files@.len(),
            stderr@ == stderr_after(*args, inputs@, i as nat),
            code == if failed_before(inputs@, i as nat) {
                1i32
            } else {
                0i32
            },
        decreases inputs@.len() - i,
    {
        match &inputs[i] {
            Ok(content) => {
                let mut reader = Stream::new(content.as_slice());
                assert(reader.remaining() =~= content@);
                let lines = cut_reader(&mut reader, ranges.as_slice());
                push_lines(&mut stdout, &lines);
                proof {
                    assert(stderr@ =~= stderr@ + Seq::<char>::empty());
                }
            },
            Err(message) => {
                push_diagnostic(&mut stderr, "cut", args.files[i].as_str(), message.as_str());
                code = 1;
                proof {
                    assert(stdout@ =~= stdout@ + Seq::<char>::empty());
                }
            },
        }
        i += 1;
    }
    Ok(Output { stdout, stderr, code })
}

} // verus!
