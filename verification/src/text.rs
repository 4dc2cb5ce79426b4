//! Text primitives shared by the tools: conversions between bytes,
//! characters and strings, and the ways text is split and joined.

use vstd::prelude::*;
use vstd::string::StringExecFns;
use vstd::utf8::*;

verus! {

/// What `String::from_utf8_lossy` makes of a byte sequence that is not
/// well-formed UTF-8.
pub uninterp spec fn replaced_text(bytes: Seq<u8>) -> Seq<char>;

/// The text of a byte sequence under lenient decoding: what the bytes
/// encode where they are well-formed UTF-8, and else the text in which each
/// malformed sequence is replaced by U+FFFD.
pub open spec fn lossy_text(bytes: Seq<u8>) -> Seq<char> {
    if valid_utf8(bytes) {
        decode_utf8(bytes)
    } else {
        replaced_text(bytes)
    }
}

/// The text of a byte sequence under strict decoding.
pub open spec fn strict_text(bytes: Seq<u8>) -> Option<Seq<char>> {
    if valid_utf8(bytes) {
        Some(decode_utf8(bytes))
    } else {
        None
    }
}

/// `String::push` appends one character to the string.
pub assume_specification[ String::push ](s: &mut String, ch: char)
    ensures
        final(s)@ == old(s)@.push(ch),
;

/// `core::str::from_utf8` accepts exactly the well-formed UTF-8 byte
/// sequences, and the string slice it returns holds the characters they
/// encode.
#[verifier::external_body]
fn utf8_str(bytes: &[u8]) -> (r: Option<&str>)
    ensures
        r is Some <==> valid_utf8(bytes@),
        r matches Some(s) ==> s@ == decode_utf8(bytes@),
{
    match core::str::from_utf8(bytes) {
        Ok(s) => Some(s),
        Err(_) => None,
    }
}

/// `String::from_utf8_lossy` always yields a string: on well-formed UTF-8
/// the text that the bytes encode, and on anything else a text that depends
/// on the bytes alone.
#[verifier::external_body]
fn utf8_lossy(bytes: &[u8]) -> (r: String)
    ensures
        valid_utf8(bytes@) ==> r@ == decode_utf8(bytes@),
        !valid_utf8(bytes@) ==> r@ == replaced_text(bytes@),
{
    String::from_utf8_lossy(bytes).into_owned()
}

/// Decodes bytes strictly: `None` unless they are well-formed UTF-8.
pub fn decode_strict(bytes: &[u8]) -> (r: Option<String>)
    ensures
        match r {
            Some(s) => strict_text(bytes@) == Some(s@),
            None => strict_text(bytes@) is None,
        },
{
    match utf8_str(bytes) {
        Some(s) => Some(s.to_owned()),
        None => None,
    }
}

/// Decodes bytes leniently.
pub fn decode_lossy(bytes: &[u8]) -> (r: String)
    ensures
        r@ == lossy_text(bytes@),
{
    utf8_lossy(bytes)
}

/// The strings of `parts`, joined with `sep` between neighbours.
pub open spec fn join(parts: Seq<Seq<char>>, sep: Seq<char>) -> Seq<char>
    decreases parts.len(),
{
    if parts.len() == 0 {
        Seq::empty()
    } else if parts.len() == 1 {
        parts[0]
    } else {
        join(parts.drop_last(), sep) + sep + parts.last()
    }
}

/// The views of a vector of strings.
pub open spec fn string_views(parts: Seq<String>) -> Seq<Seq<char>> {
    Seq::new(parts.len(), |i: int| parts[i]@)
}

/// Joins strings with a separator.
pub fn join_strings(parts: &Vec<String>, sep: &str) -> (out: String)
    ensures
        out@ == join(string_views(parts@), sep@),
{
    let mut out = String::new();
    let mut i: usize = 0;
    while i < parts.len()
        invariant
            i <= parts.len(),
            out@ == join(string_views(parts@).take(i as int), sep@),
        decreases parts.len() - i,
    {
        proof {
            let all = string_views(parts@);
            assert(all.take(i + 1).drop_last() =~= all.take(i as int));
            assert(all.take(i + 1).last() == parts@[i as int]@);
            if i == 0 {
                assert(join(all.take(0), sep@) =~= Seq::<char>::empty());
            }
        }
        if i > 0 {
            out.append(sep);
        }
        out.append(parts[i].as_str());
        i += 1;
    }
    proof {
        let all = string_views(parts@);
        assert(all.take(parts.len() as int) =~= all);
    }
    out
}

/// The part of a sequence whose indices lie in `start..end`: nothing when
/// the range is empty, and no more than the sequence holds.
pub open spec fn clip<T>(s: Seq<T>, start: int, end: int) -> Seq<T> {
    if 0 <= start < end && start < s.len() {
        s.subrange(start, if end < s.len() {
            end
        } else {
            s.len() as int
        })
    } else {
        Seq::empty()
    }
}

/// White space, as Unicode defines it.
pub open spec fn is_space(c: char) -> bool {
    let u = c as u32;
    ||| 0x09 <= u <= 0x0D
    ||| u == 0x20
    ||| u == 0x85
    ||| u == 0xA0
    ||| u == 0x1680
    ||| 0x2000 <= u <= 0x200A
    ||| u == 0x2028
    ||| u == 0x2029
    ||| u == 0x202F
    ||| u == 0x205F
    ||| u == 0x3000
}

/// Whether a word begins at index `i`: a character that is no white space,
/// at the start or after white space.
pub open spec fn word_starts_at(s: Seq<char>, i: int) -> bool {
    &&& 0 <= i < s.len()
    &&& !is_space(s[i])
    &&& (i == 0 || is_space(s[i - 1]))
}

/// The number of words: the maximal runs of characters that are no white
/// space.
pub open spec fn word_count(s: Seq<char>) -> nat
    decreases s.len(),
{
    if s.len() == 0 {
        0
    } else {
        word_count(s.drop_last()) + if word_starts_at(s, s.len() - 1) {
            1nat
        } else {
            0nat
        }
    }
}

/// The number of words never exceeds the number of characters.
pub proof fn lemma_word_count_bound(s: Seq<char>)
    ensures
        word_count(s) <= s.len(),
    decreases s.len(),
{
    if s.len() > 0 {
        lemma_word_count_bound(s.drop_last());
    }
}

/// Tells white space from other characters.
pub fn char_is_space(c: char) -> (r: bool)
    ensures
        r == is_space(c),
{
    let u: u32 = c as u32;
    (0x09 <= u && u <= 0x0D) || u == 0x20 || u == 0x85 || u == 0xA0 || u == 0x1680 || (0x2000 <= u
        && u <= 0x200A) || u == 0x2028 || u == 0x2029 || u == 0x202F || u == 0x205F || u == 0x3000
}

/// Counts the words of a text.
pub fn count_words(chars: &Vec<char>) -> (n: usize)
    ensures
        n == word_count(chars@),
{
    let mut n: usize = 0;
    let mut after_space: bool = true;
    let mut i: usize = 0;
    while i < chars.len()
        invariant
            i <= chars.len(),
            n == word_count(chars@.take(i as int)),
            n <= i,
            after_space == (i == 0 || is_space(chars@[i - 1])),
        decreases chars.len() - i,
    {
        let space: bool = char_is_space(chars[i]);
        proof {
            let next = chars@.take(i + 1);
            assert(next.drop_last() =~= chars@.take(i as int));
            assert(next[i as int] == chars@[i as int]);
            if i > 0 {
                assert(next[i - 1] == chars@[i - 1]);
            }
        }
        if !space && after_space {
            n += 1;
        }
        after_space = space;
        i += 1;
    }
    proof {
        assert(chars@.take(chars.len() as int) =~= chars@);
    }
    n
}

/// The fields of a text that `delimiter` separates. There is always at
/// least one field, and a text with `n` delimiters has `n + 1` of them.
pub open spec fn split_on(s: Seq<char>, delimiter: char) -> Seq<Seq<char>>
    decreases s.len(),
{
    if s.len() == 0 {
        seq![Seq::empty()]
    } else {
        let before = split_on(s.drop_last(), delimiter);
        if s.last() == delimiter {
            before.push(Seq::empty())
        } else {
            before.drop_last().push(before.last().push(s.last()))
        }
    }
}

/// The views of a vector of character vectors.
pub open spec fn char_views(parts: Seq<Vec<char>>) -> Seq<Seq<char>> {
    Seq::new(parts.len(), |i: int| parts[i]@)
}

/// Splits characters into the fields that `delimiter` separates.
pub fn split_chars(chars: &Vec<char>, delimiter: char) -> (out: Vec<Vec<char>>)
    ensures
        char_views(out@) == split_on(chars@, delimiter),
{
    let mut done: Vec<Vec<char>> = Vec::new();
    let mut current: Vec<char> = Vec::new();
    let mut i: usize = 0;
    proof {
        assert(chars@.take(0) =~= Seq::<char>::empty());
        assert(char_views(done@).push(current@) =~= split_on(chars@.take(0), delimiter));
    }
    while i < chars.len()
        invariant
            i <= chars.len(),
            char_views(done@).push(current@) == split_on(chars@.take(i as int), delimiter),
        decreases chars.len() - i,
    {
        let c: char = chars[i];
        proof {
            let next = chars@.take(i + 1);
            assert(next.drop_last() =~= chars@.take(i as int));
            assert(next.last() == c);
            let before = char_views(done@).push(current@);
            assert(before.last() == current@);
            assert(before.drop_last() =~= char_views(done@));
        }
        if c == delimiter {
            proof {
                assert(char_views(done@.push(current)) =~= char_views(done@).push(current@));
            }
            done.push(current);
            current = Vec::new();
        } else {
            current.push(c);
        }
        i += 1;
    }
    proof {
        assert(chars@.take(chars.len() as int) =~= chars@);
        assert(char_views(done@.push(current)) =~= char_views(done@).push(current@));
    }
    done.push(current);
    done
}

/// Lines put one after the other, each followed by a line break.
pub open spec fn unlines(lines: Seq<Seq<char>>) -> Seq<char>
    decreases lines.len(),
{
    if lines.len() == 0 {
        Seq::empty()
    } else {
        unlines(lines.drop_last()) + lines.last() + seq!['\n']
    }
}

/// Appends lines, each followed by a line break.
pub fn push_lines(out: &mut String, lines: &Vec<String>)
    ensures
        final(out)@ == old(out)@ + unlines(string_views(lines@)),
{
    let mut i: usize = 0;
    proof {
        reveal_strlit("\n");
        assert("\n"@ =~= seq!['\n']);
        assert(out@ =~= old(out)@ + unlines(string_views(lines@).take(0)));
    }
    while i < lines.len()
        invariant
            i <= lines@.len(),
            "\n"@ == seq!['\n'],
            out@ == old(out)@ + unlines(string_views(lines@).take(i as int)),
        decreases lines@.len() - i,
    {
        proof {
            let all = string_views(lines@);
            assert(all.take(i + 1).drop_last() =~= all.take(i as int));
            assert(all.take(i + 1).last() == lines@[i as int]@);
        }
        out.append(lines[i].as_str());
        out.append("\n");
        proof {
            let all = string_views(lines@);
            assert(out@ =~= old(out)@ + (unlines(all.take(i as int)) + lines@[i as int]@
                + seq!['\n']));
        }
        i += 1;
    }
    proof {
        assert(string_views(lines@).take(lines@.len() as int) =~= string_views(lines@));
    }
}

/// A text takes at least one byte for each of its characters.
pub proof fn lemma_chars_le_bytes(s: Seq<char>)
    ensures
        s.len() <= encode_utf8(s).len(),
    decreases s.len(),
{
    if s.len() > 0 {
        lemma_chars_le_bytes(s.drop_first());
        assert(encode_scalar(s[0] as u32).len() >= 1);
    }
}

/// Collects the characters of a string slice, in order.
pub fn chars_of(s: &str) -> (out: Vec<char>)
    ensures
        out@ == s@,
{
    let mut out: Vec<char> = Vec::new();
    for c in it: s.chars()
        invariant
            out@ == it.seq().take(it.index()),
            it.seq() == s@,
    {
        out.push(c);
    }
    out
}

/// Builds a string out of characters.
pub fn string_of(chars: &Vec<char>) -> (out: String)
    ensures
        out@ == chars@,
{
    let mut out = String::new();
    let mut i: usize = 0;
    while i < chars.len()
        invariant
            i <= chars.len(),
            out@ == chars@.take(i as int),
        decreases chars.len() - i,
    {
        out.push(chars[i]);
        i += 1;
    }
    out
}

} // verus!
