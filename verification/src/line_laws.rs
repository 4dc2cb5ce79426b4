//! When text that was put together from lines falls into the same lines
//! again: the facts about UTF-8 and line breaks behind the laws of line
//! extraction.

use crate::libtail::{line_tail, line_text, text_lines, TakeValue};
use crate::stream::{
    chomp, lemma_newline_at_bound, lemma_newline_at_is, newline_at, split_lines, CARRIAGE_RETURN,
    LINE_FEED,
};
use crate::text::{join, lemma_chars_le_bytes};
use vstd::prelude::*;
use vstd::utf8::{
    char_is_scalar, decode_utf8, decode_utf8_encode_utf8, encode_scalar, encode_utf8,
    encode_utf8_decode_utf8, encode_utf8_valid_utf8, valid_utf8,
};

verus! {

/// Whether no byte of a sequence is a line feed.
pub open spec fn has_no_line_feed(bytes: Seq<u8>) -> bool {
    forall|i: int| 0 <= i < bytes.len() ==> bytes[i] != LINE_FEED
}

/// Whether no character of a text is a line feed.
pub open spec fn is_one_line(text: Seq<char>) -> bool {
    forall|i: int| 0 <= i < text.len() ==> text[i] != '\n'
}

/// The bytes of one character: a line feed and a carriage return are one
/// byte each, and no other character has such a byte in its encoding.
pub proof fn lemma_scalar_bytes(c: char)
    ensures
        encode_scalar(c as u32).len() >= 1,
        c == '\n' ==> encode_scalar(c as u32) == seq![LINE_FEED],
        c == '\r' ==> encode_scalar(c as u32) == seq![CARRIAGE_RETURN],
        c != '\n' ==> has_no_line_feed(encode_scalar(c as u32)),
        c != '\r' ==> encode_scalar(c as u32).last() != CARRIAGE_RETURN,
{
    let v = c as u32;
    char_is_scalar(c);
    assert(v <= 0x7F ==> ((v & 0x7F) as u8 == 0x0Au8 <==> v == 0x0Au32)) by (bit_vector);
    assert(v <= 0x7F ==> ((v & 0x7F) as u8 == 0x0Du8 <==> v == 0x0Du32)) by (bit_vector);
    assert((0xC0u8 | ((v >> 6) & 0x1F) as u8) >= 0x80u8) by (bit_vector);
    assert((0xE0u8 | ((v >> 12) & 0x0F) as u8) >= 0x80u8) by (bit_vector);
    assert((0xF0u8 | ((v >> 18) & 0x7) as u8) >= 0x80u8) by (bit_vector);
    assert((0x80u8 | (v & 0x3F) as u8) >= 0x80u8) by (bit_vector);
    assert((0x80u8 | ((v >> 6) & 0x3F) as u8) >= 0x80u8) by (bit_vector);
    assert((0x80u8 | ((v >> 12) & 0x3F) as u8) >= 0x80u8) by (bit_vector);
    if c == '\n' {
        assert(encode_scalar(v) =~= seq![LINE_FEED]);
    }
    if c == '\r' {
        assert(encode_scalar(v) =~= seq![CARRIAGE_RETURN]);
    }
}

/// The encoding of two texts, one after the other, is the encoding of the
/// first and then that of the second.
pub proof fn lemma_encode_concat(a: Seq<char>, b: Seq<char>)
    ensures
        encode_utf8(a + b) == encode_utf8(a) + encode_utf8(b),
    decreases a.len(),
{
    if a.len() == 0 {
        assert(a + b =~= b);
        assert(encode_utf8(a) + encode_utf8(b) =~= encode_utf8(b));
    } else {
        lemma_encode_concat(a.drop_first(), b);
        assert((a + b).drop_first() =~= a.drop_first() + b);
        assert((a + b)[0] == a[0]);
        assert(encode_utf8(a + b) =~= encode_utf8(a) + encode_utf8(b));
    }
}

/// The encoding of a single character.
pub proof fn lemma_encode_single(c: char)
    ensures
        encode_utf8(seq![c]) == encode_scalar(c as u32),
{
    assert(seq![c].drop_first() =~= Seq::<char>::empty());
    assert(encode_utf8(Seq::<char>::empty()) =~= Seq::<u8>::empty());
    assert(encode_utf8(seq![c]) =~= encode_scalar(c as u32));
}

/// A text without a line feed has no line feed among its bytes.
pub proof fn lemma_encode_one_line(text: Seq<char>)
    requires
        is_one_line(text),
    ensures
        has_no_line_feed(encode_utf8(text)),
    decreases text.len(),
{
    if text.len() > 0 {
        let rest = text.drop_first();
        assert forall|i: int| 0 <= i < rest.len() implies rest[i] != '\n' by {
            assert(rest[i] == text[i + 1]);
        }
        lemma_encode_one_line(rest);
        lemma_scalar_bytes(text[0]);
    }
}

/// The last byte of a text is a carriage return exactly when its last
/// character is one, and without that byte the text is without that
/// character.
pub proof fn lemma_encode_last(text: Seq<char>)
    requires
        text.len() > 0,
    ensures
        encode_utf8(text).len() > 0,
        encode_utf8(text).last() == CARRIAGE_RETURN <==> text.last() == '\r',
        text.last() == '\r' ==> encode_utf8(text).drop_last() == encode_utf8(text.drop_last()),
{
    let front = text.drop_last();
    let c = text.last();
    assert(text =~= front + seq![c]);
    lemma_encode_concat(front, seq![c]);
    lemma_encode_single(c);
    lemma_scalar_bytes(c);
    let bytes = encode_utf8(front) + encode_scalar(c as u32);
    assert(bytes.last() == encode_scalar(c as u32).last());
    if c == '\r' {
        assert(bytes.drop_last() =~= encode_utf8(front));
    }
}

/// The index of the first line feed in a text, or the length of the text
/// when it holds none.
pub open spec fn break_at(text: Seq<char>) -> nat
    decreases text.len(),
{
    if text.len() == 0 || text[0] == '\n' {
        0
    } else {
        1 + break_at(text.drop_first())
    }
}

/// A line of text without the carriage return that stood before its line
/// feed.
pub open spec fn trimmed(line: Seq<char>) -> Seq<char> {
    if line.len() > 0 && line.last() == '\r' {
        line.drop_last()
    } else {
        line
    }
}

/// The lines of a text, by the rule that gives the lines of a byte
/// sequence.
pub open spec fn lines_of(text: Seq<char>) -> Seq<Seq<char>>
    decreases text.len(),
{
    let k = break_at(text);
    if text.len() == 0 {
        Seq::empty()
    } else if k >= text.len() {
        seq![text]
    } else {
        seq![trimmed(text.take(k as int))] + lines_of(text.skip(k as int + 1))
    }
}

/// `break_at` never points past the end, and no line feed stands before
/// it.
pub proof fn lemma_break_at(text: Seq<char>)
    ensures
        break_at(text) <= text.len(),
        is_one_line(text.take(break_at(text) as int)),
        break_at(text) < text.len() ==> text[break_at(text) as int] == '\n',
    decreases text.len(),
{
    if text.len() > 0 && text[0] != '\n' {
        let rest = text.drop_first();
        lemma_break_at(rest);
        let k = break_at(text) as int;
        assert forall|i: int| 0 <= i < k implies text.take(k)[i] != '\n' by {
            if i > 0 {
                assert(rest.take(k - 1)[i - 1] == text[i]);
            }
        }
    }
}

/// `break_at` is the one index that holds a line feed, or is the end, and
/// has no line feed before it.
pub proof fn lemma_break_at_is(text: Seq<char>, k: int)
    requires
        0 <= k <= text.len(),
        forall|j: int| 0 <= j < k ==> text[j] != '\n',
        k == text.len() || text[k] == '\n',
    ensures
        break_at(text) == k,
    decreases text.len(),
{
    if k > 0 {
        let rest = text.drop_first();
        assert forall|j: int| 0 <= j < k - 1 implies rest[j] != '\n' by {
            assert(rest[j] == text[j + 1]);
        }
        lemma_break_at_is(rest, k - 1);
    }
}

/// The lines of an encoded text, decoded, are the lines of the text.
pub proof fn lemma_lines_of_encoded(text: Seq<char>)
    ensures
        text_lines(encode_utf8(text)) == lines_of(text),
    decreases text.len(),
{
    let bytes = encode_utf8(text);
    let k = break_at(text) as int;
    lemma_break_at(text);
    let head = text.take(k);
    lemma_encode_one_line(head);
    encode_utf8_valid_utf8(text);
    encode_utf8_decode_utf8(text);
    lemma_chars_le_bytes(text);
    if text.len() == 0 {
        assert(text_lines(bytes) =~= lines_of(text));
    } else if k >= text.len() {
        assert(head =~= text);
        lemma_newline_at_is(bytes, bytes.len() as int);
        assert(split_lines(bytes) =~= seq![bytes]);
        assert(text_lines(bytes) =~= seq![line_text(bytes)]);
        assert(text_lines(bytes) =~= lines_of(text));
    } else {
        let tail = text.skip(k + 1);
        assert(text =~= head + (seq!['\n'] + tail));
        lemma_encode_concat(head, seq!['\n'] + tail);
        lemma_encode_concat(seq!['\n'], tail);
        lemma_encode_single('\n');
        lemma_scalar_bytes('\n');
        let head_bytes = encode_utf8(head);
        let tail_bytes = encode_utf8(tail);
        let n = head_bytes.len() as int;
        assert(bytes =~= head_bytes + (seq![LINE_FEED] + tail_bytes));
        assert(bytes[n] == LINE_FEED);
        assert forall|j: int| 0 <= j < n implies bytes[j] != LINE_FEED by {
            assert(bytes[j] == head_bytes[j]);
        }
        lemma_newline_at_is(bytes, n);
        assert(bytes.take(n) =~= head_bytes);
        assert(bytes.skip(n + 1) =~= tail_bytes);
        // The first line, with or without a carriage return at its end.
        if head.len() > 0 {
            lemma_encode_last(head);
        } else {
            assert(head_bytes =~= Seq::<u8>::empty());
        }
        assert(chomp(head_bytes) == encode_utf8(trimmed(head)));
        encode_utf8_valid_utf8(trimmed(head));
        encode_utf8_decode_utf8(trimmed(head));
        assert(line_text(chomp(head_bytes)) == trimmed(head));
        lemma_lines_of_encoded(tail);
        let rest = split_lines(tail_bytes);
        assert(split_lines(bytes) == seq![chomp(head_bytes)] + rest);
        assert(text_lines(bytes) =~= seq![trimmed(head)] + text_lines(tail_bytes));
    }
}

/// A text put before others, joined: the text, the separator, and the
/// others joined.
pub proof fn lemma_join_front(first: Seq<char>, rest: Seq<Seq<char>>, sep: Seq<char>)
    requires
        rest.len() >= 1,
    ensures
        join(seq![first] + rest, sep) == first + sep + join(rest, sep),
    decreases rest.len(),
{
    let all = seq![first] + rest;
    assert(all.last() == rest.last());
    if rest.len() == 1 {
        assert(all.drop_last() =~= seq![first]);
        assert(join(seq![first], sep) == first);
        assert(join(rest, sep) == rest[0]);
        assert(join(all, sep) == join(all.drop_last(), sep) + sep + all.last());
        assert(join(all, sep) =~= first + sep + join(rest, sep));
    } else {
        assert(all.drop_last() =~= seq![first] + rest.drop_last());
        lemma_join_front(first, rest.drop_last(), sep);
        assert(join(all, sep) == join(all.drop_last(), sep) + sep + all.last());
        assert(join(rest, sep) == join(rest.drop_last(), sep) + sep + rest.last());
        assert(join(all, sep) =~= first + sep + join(rest, sep));
    }
}

/// What lines become when they are joined by line feeds and split again:
/// each line but the last is without the carriage return at its end, and the
/// last is left out if it is empty.
pub open spec fn resplit(lines: Seq<Seq<char>>) -> Seq<Seq<char>> {
    if lines.len() == 0 {
        lines
    } else {
        lines.drop_last().map_values(|line: Seq<char>| trimmed(line)) + if lines.last().len()
            > 0 {
            seq![lines.last()]
        } else {
            Seq::empty()
        }
    }
}

/// Lines without line feeds, joined by line feeds, fall into the lines that
/// `resplit` gives.
pub proof fn lemma_lines_of_joined(lines: Seq<Seq<char>>)
    requires
        forall|i: int| 0 <= i < lines.len() ==> is_one_line(#[trigger] lines[i]),
    ensures
        lines_of(join(lines, seq!['\n'])) == resplit(lines),
    decreases lines.len(),
{
    let text = join(lines, seq!['\n']);
    if lines.len() == 0 {
        assert(lines_of(text) =~= resplit(lines));
    } else if lines.len() == 1 {
        let first = lines[0];
        assert(is_one_line(first));
        assert(lines.drop_last() =~= Seq::<Seq<char>>::empty());
        if first.len() > 0 {
            lemma_break_at_is(text, text.len() as int);
        }
        assert(lines_of(text) =~= resplit(lines));
    } else {
        let first = lines[0];
        assert(is_one_line(first));
        let rest = lines.drop_first();
        assert(lines =~= seq![first] + rest);
        lemma_join_front(first, rest, seq!['\n']);
        let tail = join(rest, seq!['\n']);
        let k = first.len() as int;
        assert(text =~= first + seq!['\n'] + tail);
        assert(text[k] == '\n');
        assert forall|j: int| 0 <= j < k implies text[j] != '\n' by {
            assert(text[j] == first[j]);
        }
        lemma_break_at_is(text, k);
        assert(text.take(k) =~= first);
        assert(text.skip(k + 1) =~= tail);
        assert forall|i: int| 0 <= i < rest.len() implies is_one_line(#[trigger] rest[i]) by {
            assert(rest[i] == lines[i + 1]);
        }
        lemma_lines_of_joined(rest);
        assert(lines_of(text) == seq![trimmed(first)] + resplit(rest));
        assert(rest.last() == lines.last());
        assert(lines.drop_last() =~= seq![first] + rest.drop_last());
        assert(resplit(lines) =~= seq![trimmed(first)] + resplit(rest));
    }
}

/// Joined lines without their carriage returns are no longer than the
/// joined lines, and shorter if any line had one.
pub proof fn lemma_trimmed_join_len(lines: Seq<Seq<char>>)
    ensures
        join(lines.map_values(|line: Seq<char>| trimmed(line)), seq!['\n']).len() <= join(
            lines,
            seq!['\n'],
        ).len(),
        (exists|i: int| 0 <= i < lines.len() && trimmed(#[trigger] lines[i]) != lines[i]) ==> join(
            lines.map_values(|line: Seq<char>| trimmed(line)),
            seq!['\n'],
        ).len() < join(lines, seq!['\n']).len(),
    decreases lines.len(),
{
    let cut = lines.map_values(|line: Seq<char>| trimmed(line));
    if lines.len() == 1 {
        assert(cut[0] == trimmed(lines[0]));
    } else if lines.len() >= 2 {
        let front = lines.drop_last();
        lemma_trimmed_join_len(front);
        assert(cut.drop_last() =~= front.map_values(|line: Seq<char>| trimmed(line)));
        assert(cut.last() == trimmed(lines.last()));
        if exists|i: int| 0 <= i < lines.len() && trimmed(#[trigger] lines[i]) != lines[i] {
            let i = choose|i: int|
                0 <= i < lines.len() && trimmed(#[trigger] lines[i]) != lines[i];
            if i < lines.len() - 1 {
                assert(front[i] == lines[i]);
            }
        }
    }
}

/// No line feed stands before the first line feed.
pub proof fn lemma_newline_at_prefix(bytes: Seq<u8>)
    ensures
        has_no_line_feed(bytes.take(newline_at(bytes) as int)),
    decreases bytes.len(),
{
    lemma_newline_at_bound(bytes);
    if bytes.len() > 0 && bytes[0] != LINE_FEED {
        let rest = bytes.drop_first();
        lemma_newline_at_prefix(rest);
        lemma_newline_at_bound(rest);
        let k = newline_at(bytes) as int;
        assert forall|i: int| 0 <= i < k implies bytes.take(k)[i] != LINE_FEED by {
            if i > 0 {
                assert(rest.take(k - 1)[i - 1] == bytes[i]);
            }
        }
    }
}

/// No line of a byte sequence holds a line feed.
pub proof fn lemma_split_lines_one_line(bytes: Seq<u8>)
    ensures
        forall|i: int|
            0 <= i < split_lines(bytes).len() ==> has_no_line_feed(#[trigger] split_lines(bytes)[i]),
    decreases bytes.len(),
{
    let k = newline_at(bytes) as int;
    lemma_newline_at_bound(bytes);
    lemma_newline_at_prefix(bytes);
    if bytes.len() == 0 {
    } else if k >= bytes.len() {
        assert(bytes.take(k) =~= bytes);
    } else {
        let rest = bytes.skip(k + 1);
        lemma_split_lines_one_line(rest);
        let first = chomp(bytes.take(k));
        assert(has_no_line_feed(first));
        let lines = split_lines(bytes);
        assert(lines == seq![first] + split_lines(rest));
        assert forall|i: int| 0 <= i < lines.len() implies has_no_line_feed(
            #[trigger] lines[i],
        ) by {
            if i > 0 {
                assert(lines[i] == split_lines(rest)[i - 1]);
            }
        }
    }
}

/// Bytes without a line feed decode to a text without one.
pub proof fn lemma_decode_one_line(bytes: Seq<u8>)
    requires
        valid_utf8(bytes),
        has_no_line_feed(bytes),
    ensures
        is_one_line(decode_utf8(bytes)),
{
    let text = decode_utf8(bytes);
    decode_utf8_encode_utf8(bytes);
    assert forall|i: int| 0 <= i < text.len() implies text[i] != '\n' by {
        if text[i] == '\n' {
            let before = text.take(i);
            let after = text.skip(i + 1);
            assert(text =~= before + (seq!['\n'] + after));
            lemma_encode_concat(before, seq!['\n'] + after);
            lemma_encode_concat(seq!['\n'], after);
            lemma_encode_single('\n');
            lemma_scalar_bytes('\n');
            let n = encode_utf8(before).len() as int;
            assert(bytes =~= encode_utf8(before) + (seq![LINE_FEED] + encode_utf8(after)));
            assert(bytes[n] == LINE_FEED);
        }
    }
}

/// No text line of a byte sequence holds a line feed.
pub proof fn lemma_text_lines_one_line(bytes: Seq<u8>)
    ensures
        forall|i: int|
            0 <= i < text_lines(bytes).len() ==> is_one_line(#[trigger] text_lines(bytes)[i]),
{
    lemma_split_lines_one_line(bytes);
    assert forall|i: int| 0 <= i < text_lines(bytes).len() implies is_one_line(
        #[trigger] text_lines(bytes)[i],
    ) by {
        let raw = split_lines(bytes)[i];
        assert(has_no_line_feed(raw));
        if valid_utf8(raw) {
            lemma_decode_one_line(raw);
        }
    }
}

/// Lines that stay as they are when they are joined and read again: none
/// but the last ends in a carriage return, and the last of several is not
/// empty.
pub open spec fn is_settled(lines: Seq<Seq<char>>) -> bool {
    &&& forall|i: int| 0 <= i < lines.len() - 1 ==> trimmed(#[trigger] lines[i]) == lines[i]
    &&& lines.len() >= 2 ==> lines.last().len() > 0
}

/// In lines, taking everything is idempotent exactly where the lines of the
/// content are settled: then, and only then, the text of all its lines,
/// read as a content of its own, gives the same text again.
pub proof fn lemma_all_lines_idempotent(content: Seq<u8>)
    ensures
        is_settled(text_lines(content)) <==> line_tail(
            encode_utf8(line_tail(content, TakeValue::Start(0))),
            TakeValue::Start(0),
        ) == line_tail(content, TakeValue::Start(0)),
{
    let lines = text_lines(content);
    let text = join(lines, seq!['\n']);
    assert(lines.skip(0) =~= lines);
    assert(line_tail(content, TakeValue::Start(0)) == text);
    lemma_lines_of_encoded(text);
    lemma_text_lines_one_line(content);
    lemma_lines_of_joined(lines);
    let again = resplit(lines);
    assert(again.skip(0) =~= again);
    let text_again = join(again, seq!['\n']);
    assert(line_tail(encode_utf8(text), TakeValue::Start(0)) == text_again);
    if lines.len() == 0 {
    } else if lines.len() == 1 {
        assert(lines.drop_last() =~= Seq::<Seq<char>>::empty());
        if lines[0].len() > 0 {
            assert(again =~= lines);
        } else {
            assert(again =~= Seq::<Seq<char>>::empty());
            assert(text =~= text_again);
        }
    } else {
        let front = lines.drop_last();
        let cut = front.map_values(|line: Seq<char>| trimmed(line));
        lemma_trimmed_join_len(front);
        assert(text == join(front, seq!['\n']) + seq!['\n'] + lines.last());
        if is_settled(lines) {
            assert forall|i: int| 0 <= i < front.len() implies cut[i] == front[i] by {
                assert(front[i] == lines[i]);
            }
            assert(cut =~= front);
            assert(again =~= lines);
        } else if lines.last().len() > 0 {
            let i = choose|i: int|
                0 <= i < lines.len() - 1 && trimmed(#[trigger] lines[i]) != lines[i];
            assert(front[i] == lines[i]);
            assert(again.drop_last() =~= cut);
            assert(again.last() == lines.last());
            assert(text_again == join(cut, seq!['\n']) + seq!['\n'] + lines.last());
            assert(text_again.len() < text.len());
        } else {
            assert(again =~= cut);
            assert(text_again.len() < text.len());
        }
    }
}

} // verus!
