//! The last part of a stream: offsets counted in bytes or in lines, from
//! the start or from the end.

use crate::common::{diagnostic, header, push_diagnostic, push_header, Output};
use crate::number::{
    decimal, digits_value, format_decimal, is_digit, lemma_decimal_digits,
    lemma_digit_prefix_at_least, parse_number, unsigned_digits,
};
use crate::stream::{bytes_from, line_views, split_lines, SeekFrom, Stream};
use crate::text::{
    chars_of, decode_lossy, decode_strict, join, join_strings, lossy_text, string_views,
};
use vstd::prelude::*;
use vstd::string::StringExecFns;
use vstd::utf8::{decode_utf8, encode_utf8, valid_utf8};

verus! {

/// Where the part to show begins.
#[derive(Clone, Copy, Debug, PartialEq, Eq, Structural)]
pub enum TakeValue {
    /// That many units from the start are skipped.
    Start(usize),
    /// That many units before the end are kept.
    Last(usize),
}

/// An offset argument that is not a number with an optional sign.
#[derive(Debug)]
pub struct ParseTakeValueError {
    val: String,
}

impl View for ParseTakeValueError {
    type V = Seq<char>;

    /// The rejected argument.
    closed spec fn view(&self) -> Seq<char> {
        self.val@
    }
}

/// What can go wrong while an offset is read or applied.
#[derive(Debug)]
pub enum TailError {
    /// The offset argument does not follow the grammar.
    InvalidOffset(ParseTakeValueError),
    /// The offset argument follows the grammar and its number does not fit
    /// the machine's word.
    OffsetTooLarge,
    /// More bytes before the end were asked for than the stream holds.
    SeekOutOfRange,
}

/// How many characters the sign of an offset takes: one or none.
pub open spec fn sign_len(s: Seq<char>) -> int {
    if s.len() > 0 && (s[0] == '+' || s[0] == '-') {
        1
    } else {
        0
    }
}

/// The digits of an offset: what follows its sign.
pub open spec fn magnitude(s: Seq<char>) -> Seq<char> {
    s.skip(sign_len(s))
}

/// The offset grammar: an optional `+` or `-`, then one or more decimal
/// digits, and nothing else.
pub open spec fn is_offset(s: Seq<char>) -> bool {
    &&& magnitude(s).len() > 0
    &&& forall|i: int| 0 <= i < magnitude(s).len() ==> is_digit(#[trigger] magnitude(s)[i])
}

/// Whether an offset counts from the start: it does with a leading `+`,
/// and counts from the end with `-` or with no sign.
pub open spec fn counts_from_start(s: Seq<char>) -> bool {
    s.len() > 0 && s[0] == '+'
}

/// The offset that an argument following the grammar stands for.
pub open spec fn offset_of(s: Seq<char>) -> TakeValue {
    if counts_from_start(s) {
        TakeValue::Start(digits_value(magnitude(s)) as usize)
    } else {
        TakeValue::Last(digits_value(magnitude(s)) as usize)
    }
}

/// An offset written out: its sign, `+` from the start and `-` from the
/// end, then its number in decimal.
pub open spec fn offset_text(offset: TakeValue) -> Seq<char> {
    match offset {
        TakeValue::Start(n) => seq!['+'] + decimal(n as nat),
        TakeValue::Last(n) => seq!['-'] + decimal(n as nat),
    }
}

impl TakeValue {
    /// Writes the offset out.
    pub fn to_string(&self) -> (out: String)
        ensures
            out@ == offset_text(*self),
    {
        let (mut out, n): (String, usize) = match *self {
            TakeValue::Start(n) => ("+".to_owned(), n),
            TakeValue::Last(n) => ("-".to_owned(), n),
        };
        proof {
            reveal_strlit("+");
            reveal_strlit("-");
            assert("+"@ =~= seq!['+']);
            assert("-"@ =~= seq!['-']);
        }
        out.append(format_decimal(n).as_str());
        out
    }

    /// Reads an offset argument.
    ///
    /// An argument that follows the grammar gives `Start` with a leading
    /// `+` and `Last` otherwise, with the number its digits write; if that
    /// number does not fit, `OffsetTooLarge`. Any other argument gives
    /// `InvalidOffset` with the argument in it.
    pub fn parse(s: &str) -> (r: Result<TakeValue, TailError>)
        ensures
            match r {
                Ok(offset) => is_offset(s@) && digits_value(magnitude(s@)) <= usize::MAX
                    && offset == offset_of(s@),
                Err(TailError::InvalidOffset(e)) => !is_offset(s@) && e@ == s@,
                Err(TailError::OffsetTooLarge) => is_offset(s@) && digits_value(magnitude(s@))
                    > usize::MAX,
                Err(TailError::SeekOutOfRange) => false,
            },
    {
        let chars = chars_of(s);
        let len: usize = chars.len();
        let first: usize = if len > 0 && (chars[0] == '+' || chars[0] == '-') {
            1
        } else {
            0
        };
        let ghost digits = magnitude(s@);
        if first == len {
            return Err(TailError::InvalidOffset(ParseTakeValueError::new(s)));
        }
        let mut i: usize = first;
        while i < len
            invariant
                first <= i <= len,
                len == chars.len(),
                chars@ == s@,
                first == sign_len(s@),
                digits == magnitude(s@),
                forall|j: int| 0 <= j < i - first ==> is_digit(#[trigger] digits[j]),
            decreases len - i,
        {
            let c: char = chars[i];
            if !(c >= '0' && c <= '9') {
                proof {
                    assert(digits[i - first] == c);
                }
                return Err(TailError::InvalidOffset(ParseTakeValueError::new(s)));
            }
            proof {
                assert(digits[i - first] == c);
            }
            i += 1;
        }
        proof {
            assert(chars@.subrange(first as int, len as int) =~= digits);
            assert(unsigned_digits(digits) == digits);
            lemma_digit_prefix_at_least(digits, digits.len() as int);
            assert(digits.take(digits.len() as int) =~= digits);
        }
        let value: usize = match parse_number(&chars, first, len) {
            Ok(value) => value,
            Err(_) => {
                return Err(TailError::OffsetTooLarge);
            },
        };
        if chars[0] == '+' {
            Ok(TakeValue::Start(value))
        } else {
            Ok(TakeValue::Last(value))
        }
    }
}

impl ParseTakeValueError {
    /// Records the argument that was rejected.
    pub fn new(val: &str) -> (e: Self)
        ensures
            e@ == val@,
    {
        Self { val: val.to_owned() }
    }

    /// The message shown to the user.
    pub fn to_string(&self) -> (msg: String)
        ensures
            msg@ == "illegal offset -- "@ + self@,
    {
        let mut msg = "illegal offset -- ".to_owned();
        msg.append(self.val.as_str());
        msg
    }
}

impl TailError {
    /// The message shown to the user.
    pub fn to_string(&self) -> (msg: String)
        ensures
            msg@ == match *self {
                TailError::InvalidOffset(e) => "illegal offset -- "@ + e@,
                TailError::OffsetTooLarge => "number too large to fit in target type"@,
                TailError::SeekOutOfRange => "invalid seek to a negative or overflowing position"@,
            },
    {
        match self {
            TailError::InvalidOffset(e) => e.to_string(),
            TailError::OffsetTooLarge => "number too large to fit in target type".to_owned(),
            TailError::SeekOutOfRange => {
                "invalid seek to a negative or overflowing position".to_owned()
            },
        }
    }
}

/// The text of one line: what its bytes encode, or nothing when they are not
/// well-formed UTF-8.
pub open spec fn line_text(line: Seq<u8>) -> Seq<char> {
    if valid_utf8(line) {
        decode_utf8(line)
    } else {
        Seq::empty()
    }
}

/// The texts of the lines of a byte sequence.
pub open spec fn text_lines(bytes: Seq<u8>) -> Seq<Seq<char>> {
    split_lines(bytes).map_values(|line: Seq<u8>| line_text(line))
}

/// The lines of `bytes` after the first `skip`, joined by line breaks. With
/// `skip` at or past the number of lines nothing is left.
pub open spec fn lines_after(bytes: Seq<u8>, skip: nat) -> Seq<char> {
    let lines = text_lines(bytes);
    if skip <= lines.len() {
        join(lines.skip(skip as int), seq!['\n'])
    } else {
        Seq::empty()
    }
}

/// How many leading lines an offset leaves out of a stream of `total`
/// lines.
pub open spec fn lines_skipped(total: nat, offset: TakeValue) -> nat {
    match offset {
        TakeValue::Start(n) => n as nat,
        TakeValue::Last(n) => if n >= total {
            0
        } else {
            (total - n) as nat
        },
    }
}

/// The part of `content` that an offset in lines selects.
pub open spec fn line_tail(content: Seq<u8>, offset: TakeValue) -> Seq<char> {
    lines_after(content, lines_skipped(split_lines(content).len(), offset))
}

/// The bytes of `content` that an offset in bytes selects, or `None` where
/// the offset reaches back past the first byte.
pub open spec fn byte_tail(content: Seq<u8>, offset: TakeValue) -> Option<Seq<u8>> {
    match offset {
        TakeValue::Start(n) => Some(bytes_from(content, n as nat)),
        TakeValue::Last(n) => if n <= content.len() {
            Some(content.skip(content.len() - n))
        } else {
            None
        },
    }
}

/// Reads from byte `loc` of the stream to its end, whatever the position
/// was, and decodes leniently. Past the end there is nothing to read.
pub fn read_bytes_from(reader: &mut Stream<'_>, loc: u64) -> (r: Result<String, TailError>)
    ensures
        r matches Ok(text) && text@ == lossy_text(bytes_from(old(reader).content(), loc as nat)),
        final(reader).content() == old(reader).content(),
        final(reader).remaining() == Seq::<u8>::empty(),
{
    let _ = reader.seek(SeekFrom::Start(loc));
    let bytes = reader.read_to_end();
    Ok(decode_lossy(bytes.as_slice()))
}

/// Reads from `loc` bytes after the end of the stream to its end and decodes
/// leniently; `loc` is negative to read the last bytes. A `loc` that
/// reaches back past the first byte is refused, and the stream stays as it
/// was.
pub fn tail_n_bytes(reader: &mut Stream<'_>, loc: i64) -> (r: Result<String, TailError>)
    ensures
        final(reader).content() == old(reader).content(),
        ({
            let target = old(reader).content().len() + loc;
            if 0 <= target <= u64::MAX {
                r matches Ok(text) && text@ == lossy_text(
                    bytes_from(old(reader).content(), target as nat),
                ) && final(reader).remaining() == Seq::<u8>::empty()
            } else {
                r matches Err(TailError::SeekOutOfRange) && final(reader).position() == old(
                    reader,
                ).position()
            }
        }),
{
    match reader.seek(SeekFrom::End(loc)) {
        Ok(_) => {
            let bytes = reader.read_to_end();
            Ok(decode_lossy(bytes.as_slice()))
        },
        Err(_) => Err(TailError::SeekOutOfRange),
    }
}

/// Reads the lines that are left in the stream, leaves out the first `n`,
/// and joins the others by line breaks, with none at the end. A line that
/// is not well-formed UTF-8 counts as an empty line.
pub fn read_lines_from(reader: &mut Stream<'_>, n: usize) -> (r: Result<String, TailError>)
    ensures
        r matches Ok(text) && text@ == lines_after(old(reader).remaining(), n as nat),
        final(reader).content() == old(reader).content(),
        final(reader).remaining() == Seq::<u8>::empty(),
{
    let lines = reader.lines();
    let ghost raw = split_lines(old(reader).remaining());
    let ghost texts = text_lines(old(reader).remaining());
    let mut kept: Vec<String> = Vec::new();
    proof {
        reveal_strlit("\n");
        assert("\n"@ =~= seq!['\n']);
        assert(line_views(lines@).len() == lines@.len());
    }
    if n > lines.len() {
        return Ok(String::new());
    }
    assert(string_views(kept@) =~= texts.subrange(n as int, n as int));
    let mut i: usize = n;
    while i < lines.len()
        invariant
            n <= i <= lines.len(),
            line_views(lines@) == raw,
            raw.len() == lines@.len(),
            texts.len() == lines@.len(),
            texts == raw.map_values(|line: Seq<u8>| line_text(line)),
            string_views(kept@) == texts.subrange(n as int, i as int),
        decreases lines.len() - i,
    {
        proof {
            assert(line_views(lines@)[i as int] == lines@[i as int]@);
        }
        let line = match decode_strict(lines[i].as_slice()) {
            Some(text) => text,
            None => String::new(),
        };
        proof {
            assert(line@ == texts[i as int]);
            assert(string_views(kept@).len() == i - n);
            assert(string_views(kept@.push(line)) =~= texts.subrange(n as int, i + 1));
        }
        kept.push(line);
        i += 1;
    }
    proof {
        assert(texts.subrange(n as int, lines.len() as int) =~= texts.skip(n as int));
    }
    Ok(join_strings(&kept, "\n"))
}

/// Counts the lines that are left in the stream, goes back to its first
/// byte, and reads from there all lines but the first `total - n`; all of
/// them when `n` is `total` or more. On a stream at its first byte this is
/// the last `n` lines.
pub fn tail_n_lines(reader: &mut Stream<'_>, n: usize) -> (r: Result<String, TailError>)
    ensures
        r matches Ok(text) && text@ == lines_after(
            old(reader).content(),
            lines_skipped(split_lines(old(reader).remaining()).len(), TakeValue::Last(n)),
        ),
        final(reader).content() == old(reader).content(),
        final(reader).remaining() == Seq::<u8>::empty(),
{
    let n_lines: usize = reader.lines().len();
    let _ = reader.seek(SeekFrom::Start(0));
    assert(reader.remaining() =~= reader.content());
    if n > n_lines {
        read_lines_from(reader, 0)
    } else {
        read_lines_from(reader, n_lines - n)
    }
}

/// The text that an offset in bytes selects from the stream, whatever its
/// position was.
pub fn extract_bytes(reader: &mut Stream<'_>, offset: TakeValue) -> (r: Result<String, TailError>)
    ensures
        final(reader).content() == old(reader).content(),
        match byte_tail(old(reader).content(), offset) {
            Some(bytes) => r matches Ok(text) && text@ == lossy_text(bytes),
            None => r matches Err(TailError::SeekOutOfRange),
        },
{
    match offset {
        TakeValue::Start(n) => read_bytes_from(reader, n as u64),
        TakeValue::Last(n) => {
            let len: usize = reader.len();
            if n > len {
                Err(TailError::SeekOutOfRange)
            } else if n as u64 <= i64::MAX as u64 {
                tail_n_bytes(reader, -(n as i64))
            } else {
                read_bytes_from(reader, (len - n) as u64)
            }
        },
    }
}

/// The text that an offset in lines selects from the stream, whatever its
/// position was.
pub fn extract_lines(reader: &mut Stream<'_>, offset: TakeValue) -> (r: Result<String, TailError>)
    ensures
        final(reader).content() == old(reader).content(),
        r matches Ok(text) && text@ == line_tail(old(reader).content(), offset),
{
    let _ = reader.seek(SeekFrom::Start(0));
    assert(reader.remaining() =~= reader.content());
    match offset {
        TakeValue::Start(n) => read_lines_from(reader, n),
        TakeValue::Last(n) => tail_n_lines(reader, n),
    }
}

/// The options of a run.
#[derive(Debug)]
pub struct Args {
    /// The offset in lines, as it was typed.
    pub lines_offset: Option<String>,
    /// The offset in bytes, as it was typed. It takes precedence.
    pub byte_offset: Option<String>,
    /// No headers, however many files there are.
    pub quiet: bool,
    /// The files to show, in order.
    pub files: Vec<String>,
}

impl Args {
    /// Whether offsets count bytes rather than lines.
    pub open spec fn by_bytes(&self) -> bool {
        self.byte_offset is Some
    }

    /// The offset argument in force: the one in bytes, else the one in
    /// lines, else ten lines from the end.
    pub open spec fn offset_argument(&self) -> Seq<char> {
        match self.byte_offset {
            Some(s) => s@,
            None => match self.lines_offset {
                Some(s) => s@,
                None => "10"@,
            },
        }
    }

    /// Whether each file is announced by a header.
    pub open spec fn headers(&self) -> bool {
        !self.quiet && self.files@.len() > 1
    }
}

/// What an offset selects from the content of one file, or `None` where it
/// cannot be applied.
pub open spec fn selection(content: Seq<u8>, by_bytes: bool, offset: TakeValue) -> Option<
    Seq<char>,
> {
    if by_bytes {
        match byte_tail(content, offset) {
            Some(bytes) => Some(lossy_text(bytes)),
            None => None,
        }
    } else {
        Some(line_tail(content, offset))
    }
}

/// Whether file `i` of a run fails: it could not be opened, or the offset
/// cannot be applied to it.
pub open spec fn file_fails(
    args: Args,
    inputs: Seq<Result<Vec<u8>, String>>,
    offset: TakeValue,
    i: int,
) -> bool {
    match inputs[i] {
        Err(_) => true,
        Ok(content) => selection(content@, args.by_bytes(), offset) is None,
    }
}

/// What file `i` of a run adds to standard output: its header where headers
/// are shown, then the selected text and a line break, then an empty line
/// unless the file is the last. A file that could not be opened adds
/// nothing, and one to which the offset cannot be applied only its header.
pub open spec fn file_stdout(
    args: Args,
    inputs: Seq<Result<Vec<u8>, String>>,
    offset: TakeValue,
    i: int,
) -> Seq<char> {
    match inputs[i] {
        Err(_) => Seq::empty(),
        Ok(content) => {
            let head = if args.headers() {
                header(args.files@[i]@)
            } else {
                Seq::empty()
            };
            let gap = if i < args.files@.len() - 1 {
                "\n"@
            } else {
                Seq::empty()
            };
            match selection(content@, args.by_bytes(), offset) {
                Some(text) => head + text + "\n"@ + gap,
                None => head,
            }
        },
    }
}

/// What file `i` of a run adds to standard error: a diagnostic if it
/// fails.
pub open spec fn file_stderr(
    args: Args,
    inputs: Seq<Result<Vec<u8>, String>>,
    offset: TakeValue,
    i: int,
) -> Seq<char> {
    match inputs[i] {
        Err(message) => diagnostic("tail"@, args.files@[i]@, message@),
        Ok(content) => match selection(content@, args.by_bytes(), offset) {
            Some(_) => Seq::empty(),
            None => diagnostic(
                "tail"@,
                args.files@[i]@,
                "invalid seek to a negative or overflowing position"@,
            ),
        },
    }
}

/// Standard output after the first `k` files.
pub open spec fn stdout_after(
    args: Args,
    inputs: Seq<Result<Vec<u8>, String>>,
    offset: TakeValue,
    k: nat,
) -> Seq<char>
    decreases k,
{
    if k == 0 {
        Seq::empty()
    } else {
        stdout_after(args, inputs, offset, (k - 1) as nat) + file_stdout(
            args,
            inputs,
            offset,
            k - 1,
        )
    }
}

/// Standard error after the first `k` files.
pub open spec fn stderr_after(
    args: Args,
    inputs: Seq<Result<Vec<u8>, String>>,
    offset: TakeValue,
    k: nat,
) -> Seq<char>
    decreases k,
{
    if k == 0 {
        Seq::empty()
    } else {
        stderr_after(args, inputs, offset, (k - 1) as nat) + file_stderr(
            args,
            inputs,
            offset,
            k - 1,
        )
    }
}

/// Whether one of the first `k` files fails.
pub open spec fn failed_before(
    args: Args,
    inputs: Seq<Result<Vec<u8>, String>>,
    offset: TakeValue,
    k: nat,
) -> bool
    decreases k,
{
    k > 0 && (failed_before(args, inputs, offset, (k - 1) as nat) || file_fails(
        args,
        inputs,
        offset,
        k - 1,
    ))
}

/// Goes through file `i` of a run and says whether it failed.
fn report_file(
    args: &Args,
    inputs: &Vec<Result<Vec<u8>, String>>,
    offset: TakeValue,
    i: usize,
    stdout: &mut String,
    stderr: &mut String,
) -> (failed: bool)
    requires
        inputs@.len() == args.files@.len(),
        i < inputs@.len(),
    ensures
        final(stdout)@ == old(stdout)@ + file_stdout(*args, inputs@, offset, i as int),
        final(stderr)@ == old(stderr)@ + file_stderr(*args, inputs@, offset, i as int),
        failed == file_fails(*args, inputs@, offset, i as int),
{
    let path: &str = args.files[i].as_str();
    let nfiles: usize = args.files.len();
    match &inputs[i] {
        Err(message) => {
            push_diagnostic(stderr, "tail", path, message.as_str());
            assert(stdout@ =~= old(stdout)@ + Seq::<char>::empty());
            true
        },
        Ok(content) => {
            if !args.quiet && nfiles > 1 {
                push_header(stdout, path);
            }
            let ghost with_head = stdout@;
            let mut reader = Stream::new(content.as_slice());
            let selected = if args.byte_offset.is_some() {
                extract_bytes(&mut reader, offset)
            } else {
                extract_lines(&mut reader, offset)
            };
            match selected {
                Ok(text) => {
                    stdout.append(text.as_str());
                    stdout.append("\n");
                    if i < nfiles - 1 {
                        stdout.append("\n");
                    }
                    proof {
                        let gap = if i < nfiles - 1 {
                            "\n"@
                        } else {
                            Seq::empty()
                        };
                        assert(stdout@ =~= with_head + text@ + "\n"@ + gap);
                        assert(with_head =~= old(stdout)@ + (if args.headers() {
                            header(path@)
                        } else {
                            Seq::empty()
                        }));
                        assert(stdout@ =~= old(stdout)@ + file_stdout(
                            *args,
                            inputs@,
                            offset,
                            i as int,
                        ));
                        assert(stderr@ =~= old(stderr)@ + Seq::<char>::empty());
                    }
                    false
                },
                Err(e) => {
                    push_diagnostic(stderr, "tail", path, e.to_string().as_str());
                    proof {
                        assert(stdout@ =~= old(stdout)@ + file_stdout(
                            *args,
                            inputs@,
                            offset,
                            i as int,
                        ));
                    }
                    true
                },
            }
        },
    }
}

/// Shows the last part of each file. `inputs[i]` is what opening and
/// reading `args.files[i]` gave: its bytes, or the message of the error.
///
/// A malformed offset ends the run with its error and no output. Otherwise
/// every file is gone through in order, a failing file leaves a diagnostic
/// on standard error and does not stop the others, and the exit code is 1
/// if any file failed and 0 if none did.
pub fn run(args: &Args, inputs: &Vec<Result<Vec<u8>, String>>) -> (r: Result<Output, TailError>)
    requires
        inputs@.len() == args.files@.len(),
    ensures
        match r {
            Ok(out) => {
                let offset = offset_of(args.offset_argument());
                let n = inputs@.len();
                &&& is_offset(args.offset_argument())
                &&& digits_value(magnitude(args.offset_argument())) <= usize::MAX
                &&& out.stdout@ == stdout_after(*args, inputs@, offset, n)
                &&& out.stderr@ == stderr_after(*args, inputs@, offset, n)
                &&& out.code == if failed_before(*args, inputs@, offset, n) {
                    1i32
                } else {
                    0i32
                }
            },
            Err(TailError::InvalidOffset(e)) => !is_offset(args.offset_argument()) && e@
                == args.offset_argument(),
            Err(TailError::OffsetTooLarge) => is_offset(args.offset_argument()) && digits_value(
                magnitude(args.offset_argument()),
            ) > usize::MAX,
            Err(TailError::SeekOutOfRange) => false,
        },
{
    let offset = match &args.byte_offset {
        Some(s) => TakeValue::parse(s.as_str())?,
        None => match &args.lines_offset {
            Some(s) => TakeValue::parse(s.as_str())?,
            None => TakeValue::parse("10")?,
        },
    };
    let nfiles: usize = args.files.len();
    let mut stdout = String::new();
    let mut stderr = String::new();
    let mut code: i32 = 0;
    let mut i: usize = 0;
    while i < nfiles
        invariant
            i <= nfiles,
            nfiles == args.files@.len(),
            nfiles == inputs@.len(),
            stdout@ == stdout_after(*args, inputs@, offset, i as nat),
            stderr@ == stderr_after(*args, inputs@, offset, i as nat),
            code == if failed_before(*args, inputs@, offset, i as nat) {
                1i32
            } else {
                0i32
            },
        decreases nfiles - i,
    {
        let failed: bool = report_file(args, inputs, offset, i, &mut stdout, &mut stderr);
        if failed {
            code = 1;
        }
        i += 1;
    }
    Ok(Output { stdout, stderr, code })
}

/// An offset that is written out follows the grammar, and reading it back
/// gives the offset that was written.
pub proof fn lemma_offset_round_trip(offset: TakeValue)
    ensures
        is_offset(offset_text(offset)),
        digits_value(magnitude(offset_text(offset))) <= usize::MAX,
        offset_of(offset_text(offset)) == offset,
{
    let n: nat = match offset {
        TakeValue::Start(n) => n as nat,
        TakeValue::Last(n) => n as nat,
    };
    lemma_decimal_digits(n);
    assert(magnitude(offset_text(offset)) =~= decimal(n));
}

/// For every argument that follows the grammar: the offset it stands for
/// counts from the start exactly when the argument begins with `+`, and
/// from the end when it begins with `-` or with a digit; and writing that
/// offset out and reading it again gives the same direction and the same
/// offset.
pub proof fn lemma_direction_is_kept(s: Seq<char>)
    requires
        is_offset(s),
    ensures
        offset_of(s) is Start <==> s[0] == '+',
        offset_of(s) is Last <==> s[0] == '-' || is_digit(s[0]),
        counts_from_start(offset_text(offset_of(s))) == counts_from_start(s),
        offset_of(offset_text(offset_of(s))) == offset_of(s),
{
    lemma_offset_round_trip(offset_of(s));
    assert(magnitude(s).len() > 0);
    if sign_len(s) == 0 {
        assert(magnitude(s) =~= s);
        assert(is_digit(magnitude(s)[0]));
    }
}

/// In bytes, an offset of zero from the start selects the whole content:
/// the text is the lenient decoding of all of it, and where the content is
/// well-formed UTF-8 the text encodes back to exactly the content.
pub proof fn lemma_bytes_from_start_is_all(content: Seq<u8>)
    ensures
        byte_tail(content, TakeValue::Start(0)) == Some(content),
        selection(content, true, TakeValue::Start(0)) == Some(lossy_text(content)),
        valid_utf8(content) ==> encode_utf8(lossy_text(content)) == content,
{
    assert(content.skip(0) =~= content);
    if valid_utf8(content) {
        vstd::utf8::decode_utf8_encode_utf8(content);
    }
}

/// In bytes, an offset of zero from the end selects nothing: the text is
/// empty.
pub proof fn lemma_bytes_from_end_is_empty(content: Seq<u8>)
    ensures
        byte_tail(content, TakeValue::Last(0)) == Some(Seq::<u8>::empty()),
        selection(content, true, TakeValue::Last(0)) == Some(Seq::<char>::empty()),
{
    assert(content.skip(content.len() as int) =~= Seq::<u8>::empty());
    assert(valid_utf8(Seq::<u8>::empty()));
    assert(decode_utf8(Seq::<u8>::empty()) =~= Seq::<char>::empty());
}

/// In lines, an offset from the end that is at least the number of lines
/// selects what an offset of zero from the start selects: every line.
pub proof fn lemma_lines_from_end_clamp(content: Seq<u8>, n: usize)
    requires
        n >= split_lines(content).len(),
    ensures
        line_tail(content, TakeValue::Last(n)) == line_tail(content, TakeValue::Start(0)),
        line_tail(content, TakeValue::Start(0)) == join(text_lines(content), seq!['\n']),
{
    assert(text_lines(content).skip(0) =~= text_lines(content));
}

} // verus!
