//! A seekable byte stream held in memory, and the way its bytes fall into
//! lines.

use crate::text::{decode_strict, strict_text, string_views};
use vstd::prelude::*;

verus! {

/// Where a seek is measured from, and by how much.
#[derive(Clone, Copy, Debug, PartialEq, Eq, Structural)]
pub enum SeekFrom {
    /// An absolute position, counted from the first byte.
    Start(u64),
    /// An offset from the end of the stream; negative values move back.
    End(i64),
    /// An offset from the current position.
    Current(i64),
}

/// A seek that would land before the first byte, or past what a position
/// can hold.
#[derive(Clone, Copy, Debug, PartialEq, Eq, Structural)]
pub struct SeekOutOfRange;

/// The position a seek asks for, as a mathematical integer.
pub open spec fn seek_target(len: nat, pos: nat, from: SeekFrom) -> int {
    match from {
        SeekFrom::Start(n) => n as int,
        SeekFrom::End(n) => len + n,
        SeekFrom::Current(n) => pos + n,
    }
}

/// The bytes of `data` from `pos` on; nothing when `pos` lies past the end.
pub open spec fn bytes_from(data: Seq<u8>, pos: nat) -> Seq<u8> {
    if pos <= data.len() {
        data.skip(pos as int)
    } else {
        Seq::empty()
    }
}

/// The byte that ends a line.
pub const LINE_FEED: u8 = 0x0A;

/// The byte that may stand before a line feed and is dropped with it.
pub const CARRIAGE_RETURN: u8 = 0x0D;

/// The index of the first line feed in `bytes`, or the length of `bytes`
/// when it holds none.
pub open spec fn newline_at(bytes: Seq<u8>) -> nat
    decreases bytes.len(),
{
    if bytes.len() == 0 || bytes[0] == LINE_FEED {
        0
    } else {
        1 + newline_at(bytes.drop_first())
    }
}

/// A line without the carriage return that stood before its line feed.
pub open spec fn chomp(line: Seq<u8>) -> Seq<u8> {
    if line.len() > 0 && line.last() == CARRIAGE_RETURN {
        line.drop_last()
    } else {
        line
    }
}

/// The lines of a byte sequence. Each line feed ends a line; the line feed,
/// and a carriage return just before it, are not part of the line. What
/// follows the last line feed is a line of its own unless it is empty.
pub open spec fn split_lines(bytes: Seq<u8>) -> Seq<Seq<u8>>
    decreases bytes.len(),
{
    let k = newline_at(bytes);
    if bytes.len() == 0 {
        Seq::empty()
    } else if k >= bytes.len() {
        seq![bytes]
    } else {
        seq![chomp(bytes.take(k as int))] + split_lines(bytes.skip(k as int + 1))
    }
}

/// The bytes that lines take, with one byte more for each.
pub open spec fn framed_len(lines: Seq<Seq<u8>>) -> nat
    decreases lines.len(),
{
    if lines.len() == 0 {
        0
    } else {
        framed_len(lines.drop_last()) + lines.last().len() + 1
    }
}

/// A line put before others adds its length and one.
pub proof fn lemma_framed_len_prepend(first: Seq<u8>, rest: Seq<Seq<u8>>)
    ensures
        framed_len(seq![first] + rest) == first.len() + 1 + framed_len(rest),
    decreases rest.len(),
{
    let all = seq![first] + rest;
    if rest.len() == 0 {
        assert(all.drop_last() =~= Seq::<Seq<u8>>::empty());
        assert(framed_len(all.drop_last()) == 0);
        assert(all.last() == first);
    } else {
        lemma_framed_len_prepend(first, rest.drop_last());
        assert(all.drop_last() =~= seq![first] + rest.drop_last());
        assert(all.last() == rest.last());
    }
}

/// The first lines take no more than all of them.
pub proof fn lemma_framed_len_prefix(lines: Seq<Seq<u8>>, k: int)
    requires
        0 <= k <= lines.len(),
    ensures
        framed_len(lines.take(k)) <= framed_len(lines),
    decreases lines.len() - k,
{
    if k < lines.len() {
        lemma_framed_len_prefix(lines, k + 1);
        assert(lines.take(k + 1).drop_last() =~= lines.take(k));
    } else {
        assert(lines.take(k) =~= lines);
    }
}

/// Splitting into lines loses bytes or keeps them, and never adds any: the
/// lines of a byte sequence, with one byte more for each, take at most one
/// byte more than the sequence.
pub proof fn lemma_split_lines_framed(bytes: Seq<u8>)
    ensures
        framed_len(split_lines(bytes)) <= bytes.len() + 1,
    decreases bytes.len(),
{
    let k = newline_at(bytes) as int;
    lemma_newline_at_bound(bytes);
    if bytes.len() == 0 {
    } else if k >= bytes.len() {
        assert(seq![bytes].drop_last() =~= Seq::<Seq<u8>>::empty());
        assert(framed_len(seq![bytes].drop_last()) == 0);
        assert(seq![bytes].last() == bytes);
    } else {
        let rest = bytes.skip(k + 1);
        lemma_split_lines_framed(rest);
        lemma_framed_len_prepend(chomp(bytes.take(k)), split_lines(rest));
        assert(chomp(bytes.take(k)).len() <= k);
    }
}

/// The views of a vector of byte vectors.
pub open spec fn line_views(lines: Seq<Vec<u8>>) -> Seq<Seq<u8>> {
    Seq::new(lines.len(), |i: int| lines[i]@)
}

/// `newline_at` never points past the end.
pub proof fn lemma_newline_at_bound(bytes: Seq<u8>)
    ensures
        newline_at(bytes) <= bytes.len(),
    decreases bytes.len(),
{
    if bytes.len() > 0 && bytes[0] != LINE_FEED {
        lemma_newline_at_bound(bytes.drop_first());
    }
}

/// `newline_at` is the one index that holds a line feed, or is the end,
/// and has no line feed before it.
pub proof fn lemma_newline_at_is(bytes: Seq<u8>, k: int)
    requires
        0 <= k <= bytes.len(),
        forall|j: int| 0 <= j < k ==> bytes[j] != LINE_FEED,
        k == bytes.len() || bytes[k] == LINE_FEED,
    ensures
        newline_at(bytes) == k,
    decreases bytes.len(),
{
    if k > 0 {
        let rest = bytes.drop_first();
        assert forall|j: int| 0 <= j < k - 1 implies rest[j] != LINE_FEED by {
            assert(rest[j] == bytes[j + 1]);
        }
        lemma_newline_at_is(rest, k - 1);
    }
}

/// The lines of a byte sequence as text: `None` stands for a line that is
/// not well-formed UTF-8.
pub open spec fn decoded_lines(bytes: Seq<u8>) -> Seq<Option<Seq<char>>> {
    split_lines(bytes).map_values(|line: Seq<u8>| strict_text(line))
}

/// The lines that are text, in order; the others are left out.
pub open spec fn valid_texts(lines: Seq<Option<Seq<char>>>) -> Seq<Seq<char>>
    decreases lines.len(),
{
    if lines.len() == 0 {
        Seq::empty()
    } else {
        match lines.last() {
            Some(text) => valid_texts(lines.drop_last()).push(text),
            None => valid_texts(lines.drop_last()),
        }
    }
}

/// The text lines of a byte sequence: its lines that are well-formed UTF-8.
pub open spec fn valid_lines(bytes: Seq<u8>) -> Seq<Seq<char>> {
    valid_texts(decoded_lines(bytes))
}

/// The views of a vector of lines that may have failed to decode.
pub open spec fn decoded_views(lines: Seq<Option<String>>) -> Seq<Option<Seq<char>>> {
    Seq::new(
        lines.len(),
        |i: int|
            match lines[i] {
                Some(text) => Some(text@),
                None => None,
            },
    )
}

/// Leaves out the lines that failed to decode.
pub fn keep_valid(lines: Vec<Option<String>>) -> (out: Vec<String>)
    ensures
        string_views(out@) == valid_texts(decoded_views(lines@)),
{
    let ghost all = decoded_views(lines@);
    let mut out: Vec<String> = Vec::new();
    let mut lines = lines;
    let mut i: usize = 0;
    assert(all.take(0) =~= Seq::<Option<Seq<char>>>::empty());
    assert(string_views(out@) =~= valid_texts(all.take(0)));
    while i < lines.len()
        invariant
            i <= lines@.len(),
            lines@.len() == all.len(),
            forall|j: int| i <= j < lines@.len() ==> decoded_views(lines@)[j] == all[j],
            string_views(out@) == valid_texts(all.take(i as int)),
        decreases lines@.len() - i,
    {
        let ghost before = lines@;
        let mut slot: Option<String> = None;
        core::mem::swap(&mut slot, &mut lines[i]);
        proof {
            assert(all.take(i + 1).drop_last() =~= all.take(i as int));
            assert(decoded_views(before)[i as int] == all[i as int]);
            assert forall|j: int| i < j < lines@.len() implies decoded_views(lines@)[j]
                == all[j] by {
                assert(decoded_views(before)[j] == all[j]);
            }
        }
        match slot {
            Some(text) => {
                proof {
                    assert(string_views(out@.push(text)) =~= string_views(
                        out@,
                    ).push(text@));
                }
                out.push(text);
            },
            None => {},
        }
        i += 1;
    }
    proof {
        assert(all.take(lines@.len() as int) =~= all);
    }
    out
}

/// A byte stream held in memory, with a read position.
pub struct Stream<'a> {
    data: &'a [u8],
    pos: u64,
}

impl<'a> Stream<'a> {
    /// Everything the stream holds, whatever the position.
    pub closed spec fn content(&self) -> Seq<u8> {
        self.data@
    }

    /// The read position. It may lie past the end.
    pub closed spec fn position(&self) -> nat {
        self.pos as nat
    }

    /// The bytes that are still to be read.
    pub open spec fn remaining(&self) -> Seq<u8> {
        bytes_from(self.content(), self.position())
    }

    /// A stream over `data`, positioned at its first byte. What it holds
    /// fits the machine's word, as every slice does.
    pub fn new(data: &'a [u8]) -> (s: Stream<'a>)
        ensures
            s.content() == data@,
            s.content().len() <= usize::MAX,
            s.position() == 0,
    {
        assert(data@.len() == vstd::slice::spec_slice_len(data));
        Stream { data, pos: 0 }
    }

    /// What a stream holds fits the machine's word, whatever was done to
    /// the stream.
    pub proof fn lemma_content_fits(&self)
        ensures
            self.content().len() <= usize::MAX,
    {
        assert(self.data@.len() == vstd::slice::spec_slice_len(self.data));
    }

    /// The number of bytes the stream holds.
    pub fn len(&self) -> (n: usize)
        ensures
            n == self.content().len(),
    {
        self.data.len()
    }

    /// Moves the read position. A target below zero or above `u64::MAX` is
    /// refused and leaves the stream as it was; any other target is taken,
    /// even one past the end.
    pub fn seek(&mut self, from: SeekFrom) -> (r: Result<u64, SeekOutOfRange>)
        ensures
            final(self).content() == old(self).content(),
            ({
                let target = seek_target(old(self).content().len(), old(self).position(), from);
                if 0 <= target <= u64::MAX {
                    r == Ok::<u64, SeekOutOfRange>(target as u64) && final(self).position()
                        == target
                } else {
                    r == Err::<u64, SeekOutOfRange>(SeekOutOfRange) && final(self).position()
                        == old(self).position()
                }
            }),
    {
        let (base, delta): (u64, i64) = match from {
            SeekFrom::Start(n) => {
                self.pos = n;
                return Ok(n);
            },
            SeekFrom::End(n) => (self.data.len() as u64, n),
            SeekFrom::Current(n) => (self.pos, n),
        };
        if delta >= 0 {
            let forward: u64 = delta as u64;
            if forward > u64::MAX - base {
                return Err(SeekOutOfRange);
            }
            self.pos = base + forward;
        } else {
            let back: u64 = (-(delta + 1)) as u64 + 1;
            if back > base {
                return Err(SeekOutOfRange);
            }
            self.pos = base - back;
        }
        Ok(self.pos)
    }

    /// Reads everything that is left and moves the position to the end.
    pub fn read_to_end(&mut self) -> (out: Vec<u8>)
        ensures
            out@ == old(self).remaining(),
            final(self).content() == old(self).content(),
            final(self).remaining() == Seq::<u8>::empty(),
            final(self).position() == if old(self).position() <= old(self).content().len() {
                old(self).content().len()
            } else {
                old(self).position()
            },
    {
        let len: usize = self.data.len();
        let mut out: Vec<u8> = Vec::new();
        if self.pos >= len as u64 {
            return out;
        }
        let start: usize = self.pos as usize;
        let mut i: usize = start;
        while i < len
            invariant
                start <= i <= len,
                len == self.data.len(),
                out@ == self.data@.subrange(start as int, i as int),
            decreases len - i,
        {
            out.push(self.data[i]);
            i += 1;
        }
        self.pos = len as u64;
        out
    }

    /// Reads the next line, if any bytes are left, and moves the position
    /// past its line feed.
    pub fn next_line(&mut self) -> (r: Option<Vec<u8>>)
        ensures
            final(self).content() == old(self).content(),
            old(self).remaining().len() == 0 ==> r is None && final(self).position() == old(
                self,
            ).position(),
            old(self).remaining().len() > 0 ==> r is Some && r->0@ == split_lines(
                old(self).remaining(),
            )[0] && split_lines(final(self).remaining()) == split_lines(
                old(self).remaining(),
            ).drop_first() && final(self).position() <= final(self).content().len()
                && r->0@.len() + final(self).remaining().len() <= old(self).remaining().len()
                && final(self).remaining().len() < old(self).remaining().len(),
    {
        let len: usize = self.data.len();
        if self.pos >= len as u64 {
            return None;
        }
        let start: usize = self.pos as usize;
        let ghost rest = self.data@.skip(start as int);
        let mut end: usize = start;
        while end < len && self.data[end] != LINE_FEED
            invariant
                start <= end <= len,
                len == self.data.len(),
                forall|j: int| start <= j < end ==> self.data@[j] != LINE_FEED,
            decreases len - end,
        {
            end += 1;
        }
        proof {
            assert forall|j: int| 0 <= j < end - start implies rest[j] != LINE_FEED by {
                assert(rest[j] == self.data@[start + j]);
            }
            lemma_newline_at_is(rest, end - start);
        }
        let mut stop: usize = end;
        if end < len && end > start && self.data[end - 1] == CARRIAGE_RETURN {
            stop = end - 1;
        }
        let mut line: Vec<u8> = Vec::new();
        let mut i: usize = start;
        while i < stop
            invariant
                start <= i <= stop <= len,
                len == self.data.len(),
                line@ == self.data@.subrange(start as int, i as int),
            decreases stop - i,
        {
            line.push(self.data[i]);
            i += 1;
        }
        if end < len {
            self.pos = (end + 1) as u64;
        } else {
            self.pos = len as u64;
        }
        proof {
            let k = (end - start) as int;
            if end < len {
                assert(rest.take(k) =~= self.data@.subrange(start as int, end as int));
                assert(chomp(rest.take(k)) =~= line@);
                assert(rest.skip(k + 1) =~= self.data@.skip(end + 1));
                let lines = split_lines(rest);
                assert(lines == seq![chomp(rest.take(k))] + split_lines(rest.skip(k + 1)));
                assert(lines.drop_first() =~= split_lines(rest.skip(k + 1)));
            } else {
                assert(line@ =~= rest);
                assert(split_lines(rest) == seq![rest]);
                assert(self.data@.skip(len as int) =~= Seq::<u8>::empty());
                assert(split_lines(rest).drop_first() =~= Seq::<Seq<u8>>::empty());
            }
        }
        Some(line)
    }

    /// Reads every line that is left and moves the position to the end.
    pub fn lines(&mut self) -> (out: Vec<Vec<u8>>)
        ensures
            line_views(out@) == split_lines(old(self).remaining()),
            final(self).content() == old(self).content(),
            final(self).remaining() == Seq::<u8>::empty(),
    {
        let mut out: Vec<Vec<u8>> = Vec::new();
        let ghost all = split_lines(self.remaining());
        assert(line_views(out@) =~= all.take(0));
        loop
            invariant
                self.content() == old(self).content(),
                all == split_lines(old(self).remaining()),
                out@.len() <= all.len(),
                line_views(out@) == all.take(out@.len() as int),
                split_lines(self.remaining()) == all.skip(out@.len() as int),
            ensures
                line_views(out@) == all,
                self.content() == old(self).content(),
                self.remaining() == Seq::<u8>::empty(),
            decreases self.remaining().len(),
        {
            let ghost before = split_lines(self.remaining());
            let ghost n = out@.len() as int;
            match self.next_line() {
                None => {
                    proof {
                        assert(self.remaining() =~= Seq::<u8>::empty());
                        assert(all.skip(n).len() == 0);
                        assert(all.take(n) =~= all);
                    }
                    break ;
                },
                Some(line) => {
                    proof {
                        assert(before.len() > 0);
                        assert(all.skip(n)[0] == all[n]);
                        assert(line_views(out@.push(line)) =~= all.take(n + 1));
                        assert(all.skip(n).drop_first() =~= all.skip(n + 1));
                    }
                    out.push(line);
                },
            }
        }
        out
    }

    /// Reads every line that is left as text and moves the position to the
    /// end.
    pub fn text_lines(&mut self) -> (out: Vec<Option<String>>)
        ensures
            decoded_views(out@) == decoded_lines(old(self).remaining()),
            final(self).content() == old(self).content(),
            final(self).remaining() == Seq::<u8>::empty(),
    {
        let raw = self.lines();
        let ghost lines = split_lines(old(self).remaining());
        let mut out: Vec<Option<String>> = Vec::new();
        let mut i: usize = 0;
        proof {
            assert(line_views(raw@).len() == raw@.len());
            assert(decoded_views(out@) =~= decoded_lines(old(self).remaining()).take(0));
        }
        while i < raw.len()
            invariant
                i <= raw@.len(),
                raw@.len() == lines.len(),
                line_views(raw@) == lines,
                lines == split_lines(old(self).remaining()),
                decoded_views(out@) == decoded_lines(old(self).remaining()).take(i as int),
            decreases raw@.len() - i,
        {
            proof {
                assert(line_views(raw@)[i as int] == raw@[i as int]@);
            }
            let text = decode_strict(raw[i].as_slice());
            proof {
                let all = decoded_lines(old(self).remaining());
                assert(all.len() == lines.len());
                assert(all[i as int] == strict_text(lines[i as int]));
                assert(decoded_views(out@).len() == i);
                assert(decoded_views(out@.push(text))[i as int] == all[i as int]);
                assert forall|j: int| 0 <= j < i implies decoded_views(out@.push(text))[j]
                    == all.take(i + 1)[j] by {
                    assert(decoded_views(out@)[j] == all.take(i as int)[j]);
                }
                assert(decoded_views(out@.push(text)) =~= all.take(i + 1));
            }
            out.push(text);
            i += 1;
        }
        proof {
            let all = decoded_lines(old(self).remaining());
            assert(all.take(raw@.len() as int) =~= all);
        }
        out
    }

    /// Reads up to `num` bytes and moves the position past them.
    pub fn read_up_to(&mut self, num: usize) -> (out: Vec<u8>)
        ensures
            final(self).content() == old(self).content(),
            ({
                let left = old(self).remaining();
                let n = if num <= left.len() {
                    num as int
                } else {
                    left.len() as int
                };
                out@ == left.take(n) && final(self).remaining() == left.skip(n)
            }),
    {
        let len: usize = self.data.len();
        let mut out: Vec<u8> = Vec::new();
        if self.pos >= len as u64 {
            proof {
                assert(self.remaining() =~= Seq::<u8>::empty());
                assert(out@ =~= self.remaining().take(0));
                assert(self.remaining() =~= self.remaining().skip(0));
            }
            return out;
        }
        let start: usize = self.pos as usize;
        let stop: usize = if num <= len - start {
            start + num
        } else {
            len
        };
        let mut i: usize = start;
        while i < stop
            invariant
                start <= i <= stop <= len,
                len == self.data@.len(),
                out@ == self.data@.subrange(start as int, i as int),
            decreases stop - i,
        {
            out.push(self.data[i]);
            i += 1;
        }
        self.pos = stop as u64;
        proof {
            let left = old(self).remaining();
            assert(out@ =~= left.take(stop - start));
            assert(self.remaining() =~= left.skip(stop - start));
        }
        out
    }
}

} // verus!
