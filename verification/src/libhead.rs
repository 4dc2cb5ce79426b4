//! The first part of each input: so many lines, or so many bytes.

use crate::common::{
    diagnostic, failed_before, header, input_paths, paths_or_stdin, push_diagnostic, push_header,
    Output,
};
use crate::stream::{decoded_lines, decoded_views, keep_valid, split_lines, valid_texts, Stream};
use crate::text::{
    decode_lossy, decode_strict, join, join_strings, lossy_text, strict_text, string_views,
};
use vstd::prelude::*;
use vstd::string::StringExecFns;

verus! {

/// The options of a run.
#[derive(Debug)]
pub struct Args {
    /// How many lines of each input are shown.
    pub line_count: usize,
    /// How many bytes of each input are shown; where given, lines are not
    /// counted.
    pub bytes_count: Option<usize>,
    /// The files to show, in order; none stands for standard input.
    pub files: Vec<String>,
}

/// The smaller of a number and a length.
pub open spec fn at_most(num: usize, len: nat) -> int {
    if num <= len {
        num as int
    } else {
        len as int
    }
}

/// The first `num` lines of a byte sequence, those that are no text left
/// out, joined by line breaks and with a line break at the end.
pub open spec fn head_lines(bytes: Seq<u8>, num: usize) -> Seq<char> {
    let lines = decoded_lines(bytes);
    join(valid_texts(lines.take(at_most(num, lines.len()))), seq!['\n']) + seq!['\n']
}

/// The first `num` bytes of a byte sequence, decoded leniently.
pub open spec fn head_bytes(bytes: Seq<u8>, num: usize) -> Seq<char> {
    lossy_text(bytes.take(at_most(num, bytes.len())))
}

/// Reads up to `num` lines from the stream and gives those that are text,
/// each followed by a line break.
pub fn read_lines(reader: &mut Stream<'_>, num: usize) -> (out: String)
    ensures
        out@ == head_lines(old(reader).remaining(), num),
        final(reader).content() == old(reader).content(),
        split_lines(final(reader).remaining()) == split_lines(old(reader).remaining()).skip(
            at_most(num, split_lines(old(reader).remaining()).len()),
        ),
{
    let ghost raw = split_lines(old(reader).remaining());
    let ghost all = decoded_lines(old(reader).remaining());
    let mut taken: Vec<Option<String>> = Vec::new();
    let mut i: usize = 0;
    proof {
        assert(raw.skip(0) =~= raw);
        assert(decoded_views(taken@) =~= all.take(0));
    }
    while i < num
        invariant
            i <= num,
            i <= raw.len(),
            reader.content() == old(reader).content(),
            raw == split_lines(old(reader).remaining()),
            all == decoded_lines(old(reader).remaining()),
            split_lines(reader.remaining()) == raw.skip(i as int),
            decoded_views(taken@) == all.take(i as int),
        ensures
            i == at_most(num, raw.len()),
            reader.content() == old(reader).content(),
            split_lines(reader.remaining()) == raw.skip(i as int),
            decoded_views(taken@) == all.take(i as int),
        decreases num - i,
    {
        let ghost left = reader.remaining();
        match reader.next_line() {
            None => {
                proof {
                    assert(raw.skip(i as int).len() == 0);
                }
                break ;
            },
            Some(line) => {
                let text = decode_strict(line.as_slice());
                proof {
                    assert(split_lines(left).len() > 0);
                    assert(raw.skip(i as int)[0] == raw[i as int]);
                    assert(raw.skip(i as int).drop_first() =~= raw.skip(i + 1));
                    assert(all[i as int] == strict_text(raw[i as int]));
                    assert(decoded_views(taken@).len() == i);
                    assert forall|j: int| 0 <= j < i implies decoded_views(taken@.push(text))[j]
                        == all.take(i + 1)[j] by {
                        assert(decoded_views(taken@)[j] == all.take(i as int)[j]);
                    }
                    assert(decoded_views(taken@.push(text)) =~= all.take(i + 1));
                }
                taken.push(text);
                i += 1;
            },
        }
    }
    let kept = keep_valid(taken);
    let mut out = join_strings(&kept, "\n");
    proof {
        reveal_strlit("\n");
        assert("\n"@ =~= seq!['\n']);
    }
    out.push('\n');
    out
}

/// Reads up to `num` bytes from the stream and decodes them leniently.
pub fn read_bytes(reader: &mut Stream<'_>, num: usize) -> (out: String)
    ensures
        out@ == head_bytes(old(reader).remaining(), num),
        final(reader).content() == old(reader).content(),
        final(reader).remaining() == old(reader).remaining().skip(
            at_most(num, old(reader).remaining().len()),
        ),
{
    let bytes = reader.read_up_to(num);
    decode_lossy(bytes.as_slice())
}

impl Args {
    /// The paths of the inputs.
    pub open spec fn paths(&self) -> Seq<Seq<char>> {
        paths_or_stdin(self.files@)
    }

    /// The first part of the content of one input.
    pub open spec fn head_of(&self, content: Seq<u8>) -> Seq<char> {
        match self.bytes_count {
            Some(num) => head_bytes(content, num),
            None => head_lines(content, self.line_count),
        }
    }
}

/// What input `i` of a run shows: its first part, after its header where
/// there are several inputs; `None` if it could not be opened.
pub open spec fn piece(args: Args, inputs: Seq<Result<Vec<u8>, String>>, i: int) -> Option<
    Seq<char>,
> {
    match inputs[i] {
        Ok(content) => Some(
            (if inputs.len() > 1 {
                header(args.paths()[i])
            } else {
                Seq::empty()
            }) + args.head_of(content@),
        ),
        Err(_) => None,
    }
}

/// What the first `k` inputs show.
pub open spec fn pieces_after(args: Args, inputs: Seq<Result<Vec<u8>, String>>, k: nat) -> Seq<
    Seq<char>,
>
    decreases k,
{
    if k == 0 {
        Seq::empty()
    } else {
        match piece(args, inputs, k - 1) {
            Some(text) => pieces_after(args, inputs, (k - 1) as nat).push(text),
            None => pieces_after(args, inputs, (k - 1) as nat),
        }
    }
}

/// What input `i` of a run adds to standard error: a diagnostic if it could
/// not be opened.
pub open spec fn file_stderr(args: Args, inputs: Seq<Result<Vec<u8>, String>>, i: int) -> Seq<
    char,
> {
    match inputs[i] {
        Ok(_) => Seq::empty(),
        Err(message) => diagnostic("head"@, args.paths()[i], message@),
    }
}

/// Standard error after the first `k` inputs.
pub open spec fn stderr_after(args: Args, inputs: Seq<Result<Vec<u8>, String>>, k: nat) -> Seq<
    char,
>
    decreases k,
{
    if k == 0 {
        Seq::empty()
    } else {
        stderr_after(args, inputs, (k - 1) as nat) + file_stderr(args, inputs, k - 1)
    }
}

/// Shows the first part of each input. `inputs[i]` is what opening and
/// reading the `i`-th of `args.paths()` gave: its bytes, or the message of
/// the error.
///
/// What the inputs show is joined by line breaks on standard output. Each
/// input that could not be opened leaves a diagnostic on standard error
/// and makes the exit code 1.
pub fn run(args: &Args, inputs: &Vec<Result<Vec<u8>, String>>) -> (out: Output)
    requires
        inputs@.len() == args.paths().len(),
    ensures
        out.stdout@ == join(pieces_after(*args, inputs@, inputs@.len()), seq!['\n']),
        out.stderr@ == stderr_after(*args, inputs@, inputs@.len()),
        out.code == if failed_before(inputs@, inputs@.len()) {
            1i32
        } else {
            0i32
        },
{
    let paths = input_paths(&args.files);
    let with_header: bool = inputs.len() > 1;
    let mut heads: Vec<String> = Vec::new();
    let mut stderr = String::new();
    let mut code: i32 = 0;
    let mut i: usize = 0;
    proof {
        assert(string_views(heads@) =~= pieces_after(*args, inputs@, 0));
    }
    while i < inputs.len()
        invariant
            i <= inputs@.len(),
            inputs@.len() == args.paths().len(),
            string_views(paths@) == args.paths(),
            with_header == (inputs@.len() > 1),
            string_views(heads@) == pieces_after(*args, inputs@, i as nat),
            stderr@ == stderr_after(*args, inputs@, i as nat),
            code == if failed_before(inputs@, i as nat) {
                1i32
            } else {
                0i32
            },
        decreases inputs@.len() - i,
    {
        proof {
            assert(string_views(paths@)[i as int] == paths@[i as int]@);
        }
        let path: &str = paths[i].as_str();
        match &inputs[i] {
            Ok(content) => {
                let mut reader = Stream::new(content.as_slice());
                assert(reader.remaining() =~= content@);
                let mut text = String::new();
                if with_header {
                    push_header(&mut text, path);
                }
                let head = match args.bytes_count {
                    Some(num) => read_bytes(&mut reader, num),
                    None => read_lines(&mut reader, args.line_count),
                };
                text.append(head.as_str());
                proof {
                    assert(text@ =~= piece(*args, inputs@, i as int)->0);
                    assert(string_views(heads@.push(text)) =~= string_views(heads@).push(text@));
                    assert(stderr@ =~= stderr@ + Seq::<char>::empty());
                }
                heads.push(text);
            },
            Err(message) => {
                push_diagnostic(&mut stderr, "head", path, message.as_str());
                code = 1;
            },
        }
        i += 1;
    }
    proof {
        reveal_strlit("\n");
        assert("\n"@ =~= seq!['\n']);
    }
    let stdout = join_strings(&heads, "\n");
    Output { stdout, stderr, code }
}

} // verus!
