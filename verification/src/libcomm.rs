//! Lines of two sorted inputs in three columns: only in the first, only in
//! the second, in both.

use crate::common::{diagnostic, push_diagnostic, Output};
use crate::stream::{keep_valid, valid_lines, Stream};
use crate::text::{chars_of, push_lines, string_views, unlines};
use vstd::prelude::*;
use vstd::string::StringExecFns;

verus! {

/// A line with the column it belongs to.
#[derive(Debug)]
pub enum Column {
    /// The line is in the first input only.
    Col1(String),
    /// The line is in the second input only.
    Col2(String),
    /// The line is in both inputs.
    Col3(String),
}

/// A line with its column, as text.
pub enum ColumnText {
    Col1(Seq<char>),
    Col2(Seq<char>),
    Col3(Seq<char>),
}

impl ColumnText {
    /// The line itself.
    pub open spec fn text(self) -> Seq<char> {
        match self {
            ColumnText::Col1(s) => s,
            ColumnText::Col2(s) => s,
            ColumnText::Col3(s) => s,
        }
    }

    /// The tabs before the line: one for each column to its left that is
    /// shown.
    pub open spec fn indent(self, sup1: bool, sup2: bool) -> Seq<char> {
        let one = if sup1 {
            Seq::<char>::empty()
        } else {
            seq!['\t']
        };
        let two = if sup2 {
            Seq::<char>::empty()
        } else {
            seq!['\t']
        };
        match self {
            ColumnText::Col1(_) => Seq::empty(),
            ColumnText::Col2(_) => one,
            ColumnText::Col3(_) => one + two,
        }
    }

    /// Whether the column of the line is left out.
    pub open spec fn suppressed(self, sup1: bool, sup2: bool, sup3: bool) -> bool {
        match self {
            ColumnText::Col1(_) => sup1,
            ColumnText::Col2(_) => sup2,
            ColumnText::Col3(_) => sup3,
        }
    }

    /// The output line, or `None` where the column is left out.
    pub open spec fn line(self, sup1: bool, sup2: bool, sup3: bool) -> Option<Seq<char>> {
        if self.suppressed(sup1, sup2, sup3) {
            None
        } else {
            Some(self.indent(sup1, sup2) + self.text())
        }
    }
}

impl View for Column {
    type V = ColumnText;

    open spec fn view(&self) -> ColumnText {
        match *self {
            Column::Col1(s) => ColumnText::Col1(s@),
            Column::Col2(s) => ColumnText::Col2(s@),
            Column::Col3(s) => ColumnText::Col3(s@),
        }
    }
}

impl Column {
    /// The line itself.
    pub fn to_string(&self) -> (s: String)
        ensures
            s@ == self@.text(),
    {
        match self {
            Column::Col1(s) => s.clone(),
            Column::Col2(s) => s.clone(),
            Column::Col3(s) => s.clone(),
        }
    }

    /// The output line for the column, or `None` where the column is left
    /// out.
    pub fn to_line(&self, sup1: bool, sup2: bool, sup3: bool) -> (r: Option<String>)
        ensures
            match r {
                Some(line) => self@.line(sup1, sup2, sup3) == Some(line@),
                None => self@.line(sup1, sup2, sup3) is None,
            },
    {
        let tabs: usize = match self {
            Column::Col1(_) => 0,
            Column::Col2(_) => if sup1 {
                0
            } else {
                1
            },
            Column::Col3(_) => (if sup1 {
                0
            } else {
                1
            }) + (if sup2 {
                0
            } else {
                1
            }),
        };
        let hidden: bool = match self {
            Column::Col1(_) => sup1,
            Column::Col2(_) => sup2,
            Column::Col3(_) => sup3,
        };
        if hidden {
            return None;
        }
        let mut line = String::new();
        if tabs >= 1 {
            line.push('\t');
        }
        if tabs >= 2 {
            line.push('\t');
        }
        line.append(self.to_string().as_str());
        proof {
            assert(line@ =~= self@.indent(sup1, sup2) + self@.text());
        }
        Some(line)
    }
}

/// The order of texts: character by character, and a text before every
/// longer text that begins with it.
pub open spec fn text_less(a: Seq<char>, b: Seq<char>) -> bool
    decreases a.len(),
{
    if b.len() == 0 {
        false
    } else if a.len() == 0 {
        true
    } else if a[0] != b[0] {
        a[0] < b[0]
    } else {
        text_less(a.drop_first(), b.drop_first())
    }
}

/// Tells whether one text comes before another.
pub fn less_than(a: &str, b: &str) -> (r: bool)
    ensures
        r == text_less(a@, b@),
{
    let x = chars_of(a);
    let y = chars_of(b);
    let mut i: usize = 0;
    proof {
        assert(x@.skip(0) =~= x@);
        assert(y@.skip(0) =~= y@);
    }
    while i < x.len() && i < y.len()
        invariant
            i <= x@.len(),
            i <= y@.len(),
            x@ == a@,
            y@ == b@,
            text_less(x@, y@) == text_less(x@.skip(i as int), y@.skip(i as int)),
        decreases x@.len() - i,
    {
        proof {
            assert(x@.skip(i as int)[0] == x@[i as int]);
            assert(y@.skip(i as int)[0] == y@[i as int]);
            assert(x@.skip(i as int).drop_first() =~= x@.skip(i + 1));
            assert(y@.skip(i as int).drop_first() =~= y@.skip(i + 1));
        }
        if x[i] != y[i] {
            return x[i] < y[i];
        }
        i += 1;
    }
    i < y.len()
}

/// The lines of two inputs merged into columns. While both have lines
/// left, equal first lines go to the third column together, and else the
/// lesser goes to the column of its input; when one input has run out, the
/// lines of the other follow in its column.
pub open spec fn merged(a: Seq<Seq<char>>, b: Seq<Seq<char>>) -> Seq<ColumnText>
    decreases a.len() + b.len(),
{
    if a.len() == 0 && b.len() == 0 {
        Seq::empty()
    } else if b.len() == 0 {
        seq![ColumnText::Col1(a[0])] + merged(a.drop_first(), b)
    } else if a.len() == 0 {
        seq![ColumnText::Col2(b[0])] + merged(a, b.drop_first())
    } else if a[0] == b[0] {
        seq![ColumnText::Col3(a[0])] + merged(a.drop_first(), b.drop_first())
    } else if text_less(a[0], b[0]) {
        seq![ColumnText::Col1(a[0])] + merged(a.drop_first(), b)
    } else {
        seq![ColumnText::Col2(b[0])] + merged(a, b.drop_first())
    }
}

/// The views of a vector of columns.
pub open spec fn column_views(columns: Seq<Column>) -> Seq<ColumnText> {
    Seq::new(columns.len(), |i: int| columns[i]@)
}

/// Merges the text lines that are left in two streams into columns.
pub fn compare(reader1: &mut Stream<'_>, reader2: &mut Stream<'_>) -> (columns: Vec<Column>)
    ensures
        column_views(columns@) == merged(
            valid_lines(old(reader1).remaining()),
            valid_lines(old(reader2).remaining()),
        ),
        final(reader1).content() == old(reader1).content(),
        final(reader2).content() == old(reader2).content(),
        final(reader1).remaining() == Seq::<u8>::empty(),
        final(reader2).remaining() == Seq::<u8>::empty(),
{
    let lines1 = keep_valid(reader1.text_lines());
    let lines2 = keep_valid(reader2.text_lines());
    let ghost a = string_views(lines1@);
    let ghost b = string_views(lines2@);
    let mut columns: Vec<Column> = Vec::new();
    let mut i: usize = 0;
    let mut j: usize = 0;
    proof {
        assert(a.skip(0) =~= a);
        assert(b.skip(0) =~= b);
        assert(column_views(columns@) + merged(a, b) =~= merged(a, b));
    }
    while i < lines1.len() || j < lines2.len()
        invariant
            i <= lines1@.len(),
            j <= lines2@.len(),
            a == string_views(lines1@),
            b == string_views(lines2@),
            merged(a, b) == column_views(columns@) + merged(a.skip(i as int), b.skip(j as int)),
        decreases lines1@.len() - i + lines2@.len() - j,
    {
        let ghost rest1 = a.skip(i as int);
        let ghost rest2 = b.skip(j as int);
        let ghost done = column_views(columns@);
        proof {
            if i < lines1@.len() {
                assert(rest1[0] == lines1@[i as int]@);
                assert(rest1.drop_first() =~= a.skip(i + 1));
            }
            if j < lines2@.len() {
                assert(rest2[0] == lines2@[j as int]@);
                assert(rest2.drop_first() =~= b.skip(j + 1));
            }
        }
        let column = if j >= lines2.len() {
            i += 1;
            Column::Col1(lines1[i - 1].clone())
        } else if i >= lines1.len() {
            j += 1;
            Column::Col2(lines2[j - 1].clone())
        } else if lines1[i] == lines2[j] {
            i += 1;
            j += 1;
            Column::Col3(lines1[i - 1].clone())
        } else if less_than(lines1[i].as_str(), lines2[j].as_str()) {
            i += 1;
            Column::Col1(lines1[i - 1].clone())
        } else {
            j += 1;
            Column::Col2(lines2[j - 1].clone())
        };
        proof {
            assert(column_views(columns@.push(column)) =~= done.push(column@));
            assert(merged(rest1, rest2) == seq![column@] + merged(
                a.skip(i as int),
                b.skip(j as int),
            ));
            assert(done + (seq![column@] + merged(a.skip(i as int), b.skip(j as int)))
                =~= done.push(column@) + merged(a.skip(i as int), b.skip(j as int)));
        }
        columns.push(column);
    }
    proof {
        assert(a.skip(i as int) =~= Seq::<Seq<char>>::empty());
        assert(b.skip(j as int) =~= Seq::<Seq<char>>::empty());
        assert(column_views(columns@) + Seq::<ColumnText>::empty() =~= column_views(columns@));
    }
    columns
}

/// The output lines of columns: those of the columns that are shown, in
/// order, each with its indent.
pub open spec fn shown(columns: Seq<ColumnText>, sup1: bool, sup2: bool, sup3: bool) -> Seq<
    Seq<char>,
>
    decreases columns.len(),
{
    if columns.len() == 0 {
        Seq::empty()
    } else {
        let before = shown(columns.drop_last(), sup1, sup2, sup3);
        match columns.last().line(sup1, sup2, sup3) {
            Some(line) => before.push(line),
            None => before,
        }
    }
}

/// The options of a run.
#[derive(Debug)]
pub struct Args {
    /// Leave out the first column.
    pub sup1: bool,
    /// Leave out the second column.
    pub sup2: bool,
    /// Leave out the third column.
    pub sup3: bool,
    /// The first input; `-` stands for standard input.
    pub file1: String,
    /// The second input; `-` stands for standard input.
    pub file2: String,
}

impl Args {
    /// Whether both inputs are standard input, which cannot be read twice.
    pub open spec fn both_stdin(&self) -> bool {
        self.file1@ == seq!['-'] && self.file2@ == seq!['-']
    }
}

/// Tells whether a path is the dash that stands for standard input.
fn is_dash(path: &str) -> (r: bool)
    ensures
        r == (path@ == seq!['-']),
{
    let chars = chars_of(path);
    let r: bool = chars.len() == 1 && chars[0] == '-';
    proof {
        if r {
            assert(path@ =~= seq!['-']);
        }
    }
    r
}

/// What a run writes to standard output: the merged lines of the two
/// inputs in the columns that are shown; nothing where the run fails.
pub open spec fn run_stdout(
    args: Args,
    input1: Result<Vec<u8>, String>,
    input2: Result<Vec<u8>, String>,
) -> Seq<char> {
    match (input1, input2) {
        (Ok(first), Ok(second)) => if args.both_stdin() {
            Seq::empty()
        } else {
            unlines(
                shown(
                    merged(valid_lines(first@), valid_lines(second@)),
                    args.sup1,
                    args.sup2,
                    args.sup3,
                ),
            )
        },
        _ => Seq::empty(),
    }
}

/// What one input adds to standard error: a diagnostic if it could not be
/// opened.
pub open spec fn input_stderr(path: Seq<char>, input: Result<Vec<u8>, String>) -> Seq<char> {
    match input {
        Ok(_) => Seq::empty(),
        Err(message) => diagnostic("comm"@, path, message@),
    }
}

/// What a run writes to standard error: a complaint where both inputs are
/// standard input, and else the diagnostic of each input that could not be
/// opened, the first input first.
pub open spec fn run_stderr(
    args: Args,
    input1: Result<Vec<u8>, String>,
    input2: Result<Vec<u8>, String>,
) -> Seq<char> {
    if args.both_stdin() {
        "comm: Two files cannot both be stdin\n"@
    } else {
        input_stderr(args.file1@, input1) + input_stderr(args.file2@, input2)
    }
}

/// Compares two inputs. `input1` and `input2` are what opening and reading
/// `args.file1` and `args.file2` gave: the bytes, or the message of the
/// error. Each input that could not be opened leaves a diagnostic on
/// standard error. The exit code is 0 where the inputs were compared and 1
/// where the run fails.
pub fn run(args: &Args, input1: &Result<Vec<u8>, String>, input2: &Result<Vec<u8>, String>) -> (out:
    Output)
    ensures
        out.stdout@ == run_stdout(*args, *input1, *input2),
        out.stderr@ == run_stderr(*args, *input1, *input2),
        out.code == if args.both_stdin() || input1 is Err || input2 is Err {
            1i32
        } else {
            0i32
        },
{
    let mut stdout = String::new();
    let mut stderr = String::new();
    if is_dash(args.file1.as_str()) && is_dash(args.file2.as_str()) {
        stderr.append("comm: Two files cannot both be stdin\n");
        return Output { stdout, stderr, code: 1 };
    }
    match input1 {
        Ok(_) => {},
        Err(message) => {
            push_diagnostic(&mut stderr, "comm", args.file1.as_str(), message.as_str());
        },
    }
    proof {
        assert(stderr@ =~= input_stderr(args.file1@, *input1));
    }
    match input2 {
        Ok(_) => {
            proof {
                assert(stderr@ =~= stderr@ + Seq::<char>::empty());
            }
        },
        Err(message) => {
            push_diagnostic(&mut stderr, "comm", args.file2.as_str(), message.as_str());
        },
    }
    let (first, second) = match (input1, input2) {
        (Ok(first), Ok(second)) => (first, second),
        _ => {
            return Output { stdout, stderr, code: 1 };
        },
    };
    let mut reader1 = Stream::new(first.as_slice());
    let mut reader2 = Stream::new(second.as_slice());
    proof {
        assert(reader1.remaining() =~= first@);
        assert(reader2.remaining() =~= second@);
    }
    let columns = compare(&mut reader1, &mut reader2);
    let ghost all = column_views(columns@);
    let mut lines: Vec<String> = Vec::new();
    let mut i: usize = 0;
    proof {
        assert(all.take(0) =~= Seq::<ColumnText>::empty());
        assert(string_views(lines@) =~= shown(all.take(0), args.sup1, args.sup2, args.sup3));
    }
    while i < columns.len()
        invariant
            i <= columns@.len(),
            all == column_views(columns@),
            string_views(lines@) == shown(all.take(i as int), args.sup1, args.sup2, args.sup3),
        decreases columns@.len() - i,
    {
        proof {
            assert(all.take(i + 1).drop_last() =~= all.take(i as int));
            assert(all.take(i + 1).last() == columns@[i as int]@);
        }
        match columns[i].to_line(args.sup1, args.sup2, args.sup3) {
            Some(line) => {
                proof {
                    assert(string_views(lines@.push(line)) =~= string_views(lines@).push(line@));
                }
                lines.push(line);
            },
            None => {},
        }
        i += 1;
    }
    proof {
        assert(all.take(columns@.len() as int) =~= all);
    }
    push_lines(&mut stdout, &lines);
    proof {
        assert(stdout@ =~= unlines(string_views(lines@)));
    }
    Output { stdout, stderr, code: 0 }
}

} // verus!
