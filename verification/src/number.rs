//! Numbers as text: reading them and writing them in decimal.

use vstd::prelude::*;
use vstd::string::StringExecFns;

verus! {

/// A decimal digit.
pub open spec fn is_digit(c: char) -> bool {
    '0' <= c <= '9'
}

/// The number that a sequence of decimal digits writes.
pub open spec fn digits_value(digits: Seq<char>) -> nat
    decreases digits.len(),
{
    if digits.len() == 0 {
        0
    } else {
        10 * digits_value(digits.drop_last()) + (digits.last() as u32 - '0' as u32) as nat
    }
}

/// A prefix of digits writes a number no larger than the whole.
pub proof fn lemma_digits_value_prefix(digits: Seq<char>, n: int)
    requires
        0 <= n <= digits.len(),
    ensures
        digits_value(digits.take(n)) <= digits_value(digits),
    decreases digits.len() - n,
{
    if n < digits.len() {
        lemma_digits_value_prefix(digits, n + 1);
        assert(digits.take(n + 1).drop_last() =~= digits.take(n));
    } else {
        assert(digits.take(n) =~= digits);
    }
}

/// The character of a digit below ten.
pub open spec fn digit_char(d: nat) -> char {
    (('0' as u32 + d) as u32) as char
}

/// A number in decimal, without sign or leading zeros.
pub open spec fn decimal(n: nat) -> Seq<char>
    decreases n,
{
    if n < 10 {
        seq![digit_char(n)]
    } else {
        decimal(n / 10).push(digit_char(n % 10))
    }
}

/// The decimal form of a number is one or more digits that write it.
pub proof fn lemma_decimal_digits(n: nat)
    ensures
        decimal(n).len() > 0,
        forall|i: int| 0 <= i < decimal(n).len() ==> is_digit(#[trigger] decimal(n)[i]),
        digits_value(decimal(n)) == n,
    decreases n,
{
    if n < 10 {
        assert(decimal(n).drop_last() =~= Seq::<char>::empty());
        assert(digits_value(decimal(n).drop_last()) == 0);
        assert(decimal(n).last() == digit_char(n));
        assert(digit_char(n) as u32 == '0' as u32 + n);
    } else {
        lemma_decimal_digits(n / 10);
        assert(decimal(n).drop_last() =~= decimal(n / 10));
        assert(decimal(n).last() == digit_char(n % 10));
        assert(digit_char(n % 10) as u32 == '0' as u32 + n % 10);
    }
}

/// Writes a number in decimal.
pub fn format_decimal(n: usize) -> (out: String)
    ensures
        out@ == decimal(n as nat),
{
    let mut digits: Vec<char> = Vec::new();
    let mut rest: usize = n;
    // Digits come out lowest first.
    while rest >= 10
        invariant
            decimal(n as nat) == decimal(rest as nat) + digits@.reverse(),
        decreases rest,
    {
        let d: u8 = (rest % 10) as u8;
        proof {
            let c = digit_char((rest % 10) as nat);
            assert(digits@.push(c).reverse() =~= seq![c] + digits@.reverse());
            assert(decimal(rest as nat) == decimal((rest / 10) as nat).push(c));
            assert(decimal((rest / 10) as nat).push(c) + digits@.reverse() =~= decimal(
                (rest / 10) as nat,
            ) + (seq![c] + digits@.reverse()));
        }
        digits.push((0x30u8 + d) as char);
        rest = rest / 10;
    }
    proof {
        let c = digit_char(rest as nat);
        assert(digits@.push(c).reverse() =~= seq![c] + digits@.reverse());
        assert(decimal(rest as nat) =~= seq![c]);
    }
    digits.push((0x30u8 + rest as u8) as char);
    let mut out = String::new();
    let mut i: usize = digits.len();
    while i > 0
        invariant
            i <= digits.len(),
            out@ == digits@.reverse().take(digits.len() - i),
        decreases i,
    {
        i -= 1;
        proof {
            let r = digits@.reverse();
            let k = digits.len() - i - 1;
            assert(r.take(k + 1) =~= r.take(k).push(r[k]));
            assert(r[k] == digits@[i as int]);
        }
        out.push(digits[i]);
    }
    proof {
        assert(digits@.reverse().take(digits.len() as int) =~= digits@.reverse());
    }
    out
}

/// Why a text is not a number that fits the machine's word.
#[derive(Clone, Copy, Debug, PartialEq, Eq, Structural)]
pub enum NumberError {
    /// The text is empty.
    Empty,
    /// A character that is no digit was met before the number grew too
    /// large; a lone `+` counts as such.
    InvalidDigit,
    /// The digits read so far already write a number that does not fit.
    TooLarge,
}

impl NumberError {
    /// The message shown to the user.
    pub fn to_string(&self) -> (msg: String)
        ensures
            msg@ == match *self {
                NumberError::Empty => "cannot parse integer from empty string"@,
                NumberError::InvalidDigit => "invalid digit found in string"@,
                NumberError::TooLarge => "number too large to fit in target type"@,
            },
    {
        match self {
            NumberError::Empty => "cannot parse integer from empty string".to_owned(),
            NumberError::InvalidDigit => "invalid digit found in string".to_owned(),
            NumberError::TooLarge => "number too large to fit in target type".to_owned(),
        }
    }
}

/// How many digits a text begins with.
pub open spec fn digit_prefix_len(s: Seq<char>) -> nat
    decreases s.len(),
{
    if s.len() > 0 && is_digit(s[0]) {
        1 + digit_prefix_len(s.drop_first())
    } else {
        0
    }
}

/// A text without its leading `+`, if it has one.
pub open spec fn unsigned_digits(s: Seq<char>) -> Seq<char> {
    if s.len() > 0 && s[0] == '+' {
        s.skip(1)
    } else {
        s
    }
}

/// What reading a text as an unsigned number gives. The text is an optional
/// `+` and then digits, read from the left: reading stops with `TooLarge`
/// as soon as the digits read write a number that does not fit, and with
/// `InvalidDigit` at a character that is no digit.
pub open spec fn parsed_number(s: Seq<char>) -> Result<usize, NumberError> {
    let d = unsigned_digits(s);
    let p = digit_prefix_len(d);
    if s.len() == 0 {
        Err(NumberError::Empty)
    } else if d.len() == 0 {
        Err(NumberError::InvalidDigit)
    } else if digits_value(d.take(p as int)) > usize::MAX {
        Err(NumberError::TooLarge)
    } else if p < d.len() {
        Err(NumberError::InvalidDigit)
    } else {
        Ok(digits_value(d) as usize)
    }
}

/// A text that begins with `k` digits begins with at least that many.
pub proof fn lemma_digit_prefix_at_least(s: Seq<char>, k: int)
    requires
        0 <= k <= s.len(),
        forall|j: int| 0 <= j < k ==> is_digit(#[trigger] s[j]),
    ensures
        k <= digit_prefix_len(s) <= s.len(),
        k == s.len() || !is_digit(s[k]) ==> digit_prefix_len(s) == k,
    decreases s.len(),
{
    if s.len() > 0 && is_digit(s[0]) {
        let rest = s.drop_first();
        if k > 0 {
            assert forall|j: int| 0 <= j < k - 1 implies is_digit(#[trigger] rest[j]) by {
                assert(rest[j] == s[j + 1]);
            }
            lemma_digit_prefix_at_least(rest, k - 1);
        } else {
            lemma_digit_prefix_at_least(rest, 0);
        }
    }
}

/// Reads the characters from `from` up to `to` as an unsigned number.
pub fn parse_number(chars: &Vec<char>, from: usize, to: usize) -> (r: Result<usize, NumberError>)
    requires
        from <= to <= chars@.len(),
    ensures
        r == parsed_number(chars@.subrange(from as int, to as int)),
{
    let ghost s = chars@.subrange(from as int, to as int);
    if from == to {
        return Err(NumberError::Empty);
    }
    let first: usize = if chars[from] == '+' {
        from + 1
    } else {
        from
    };
    let ghost d = unsigned_digits(s);
    proof {
        assert(s[0] == chars@[from as int]);
        assert(d =~= chars@.subrange(first as int, to as int));
    }
    if first == to {
        return Err(NumberError::InvalidDigit);
    }
    let mut value: usize = 0;
    let mut k: usize = first;
    while k < to
        invariant
            from <= first <= k <= to <= chars@.len(),
            s == chars@.subrange(from as int, to as int),
            s.len() > 0,
            d == unsigned_digits(s),
            d == chars@.subrange(first as int, to as int),
            forall|j: int| 0 <= j < k - first ==> is_digit(#[trigger] d[j]),
            value == digits_value(d.take(k - first)),
        decreases to - k,
    {
        let c: char = chars[k];
        proof {
            assert(d[k - first] == c);
            lemma_digit_prefix_at_least(d, k - first);
        }
        if !(c >= '0' && c <= '9') {
            return Err(NumberError::InvalidDigit);
        }
        proof {
            assert(d.take(k - first + 1).drop_last() =~= d.take(k - first));
            lemma_digit_prefix_at_least(d, k - first + 1);
            let p = digit_prefix_len(d) as int;
            lemma_digits_value_prefix(d.take(p), k - first + 1);
            assert(d.take(p).take(k - first + 1) =~= d.take(k - first + 1));
        }
        let digit: usize = (c as u32 - '0' as u32) as usize;
        if value > (usize::MAX - digit) / 10 {
            return Err(NumberError::TooLarge);
        }
        value = value * 10 + digit;
        k += 1;
    }
    proof {
        lemma_digit_prefix_at_least(d, to - first);
        assert(d.take(to - first) =~= d);
    }
    Ok(value)
}

/// A text moved to the right edge of a field of `width` characters by
/// blanks before it; a text that is wider stays as it is.
pub open spec fn right_aligned(s: Seq<char>, width: nat) -> Seq<char> {
    if s.len() >= width {
        s
    } else {
        Seq::new((width - s.len()) as nat, |i: int| ' ') + s
    }
}

/// Writes a number in decimal, right-aligned in a field of `width`
/// characters.
pub fn format_number(n: usize, width: usize) -> (out: String)
    ensures
        out@ == right_aligned(decimal(n as nat), width as nat),
{
    let digits = format_decimal(n);
    let len: usize = digits.as_str().unicode_len();
    let blanks: usize = if width > len {
        width - len
    } else {
        0
    };
    let mut out = String::new();
    let mut i: usize = 0;
    while i < blanks
        invariant
            i <= blanks,
            out@ == Seq::new(i as nat, |k: int| ' '),
        decreases blanks - i,
    {
        proof {
            assert(Seq::new(i as nat, |k: int| ' ').push(' ') =~= Seq::new(
                (i + 1) as nat,
                |k: int| ' ',
            ));
        }
        out.push(' ');
        i += 1;
    }
    out.append(digits.as_str());
    proof {
        if len >= width {
            assert(out@ =~= digits@);
        }
    }
    out
}

} // verus!
