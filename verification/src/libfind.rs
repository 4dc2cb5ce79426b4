//! Entries of a directory tree, filtered by kind and by pattern.

use crate::common::{failure_lines, push_failures, Entry, Failure, FileKind, Output};
use crate::pattern::{regex_matches, Pattern, PatternError, PatternView};
use crate::text::{push_lines, string_views, unlines};
use vstd::prelude::*;

verus! {

/// A kind of entry to look for.
#[derive(Clone, Copy, Debug, PartialEq, Eq, Structural)]
pub enum EntryType {
    /// Regular files.
    File,
    /// Symbolic links.
    Link,
    /// Directories.
    Dir,
}

impl EntryType {
    /// The kind of entry that is looked for.
    pub open spec fn kind(self) -> FileKind {
        match self {
            EntryType::File => FileKind::File,
            EntryType::Link => FileKind::Link,
            EntryType::Dir => FileKind::Dir,
        }
    }

    /// Tells whether an entry is of this kind.
    pub fn match_type(&self, entry: &Entry) -> (r: bool)
        ensures
            r == (entry.kind == self.kind()),
    {
        match self {
            EntryType::File => entry.kind == FileKind::File,
            EntryType::Dir => entry.kind == FileKind::Dir,
            EntryType::Link => entry.kind == FileKind::Link,
        }
    }
}

/// The views of a vector of patterns.
pub open spec fn pattern_views(patterns: Seq<Pattern>) -> Seq<PatternView> {
    Seq::new(patterns.len(), |i: int| patterns[i]@)
}

/// Whether an entry passes the filters: it is of one of the kinds, or its
/// path matches one of the patterns, or there is no filter at all.
pub open spec fn passes(entry: Entry, types: Seq<EntryType>, patterns: Seq<PatternView>) -> bool {
    ||| exists|i: int| 0 <= i < types.len() && entry.kind == (#[trigger] types[i]).kind()
    ||| exists|i: int|
        0 <= i < patterns.len() && regex_matches(
            (#[trigger] patterns[i]).source,
            patterns[i].ignore_case,
            entry.path@,
        )
    ||| (types.len() == 0 && patterns.len() == 0)
}

/// Tells whether an entry passes the filters.
pub fn filter_entry(entry: &Entry, types: &[EntryType], regexprs: &[Pattern]) -> (r: bool)
    ensures
        r == passes(*entry, types@, pattern_views(regexprs@)),
{
    let ghost patterns = pattern_views(regexprs@);
    let mut match_type: bool = false;
    let mut i: usize = 0;
    while i < types.len()
        invariant
            i <= types@.len(),
            match_type == exists|j: int|
                0 <= j < i && entry.kind == (#[trigger] types@[j]).kind(),
        decreases types@.len() - i,
    {
        if types[i].match_type(entry) {
            match_type = true;
        }
        i += 1;
    }
    let mut match_rx: bool = false;
    let mut k: usize = 0;
    while k < regexprs.len()
        invariant
            k <= regexprs@.len(),
            patterns == pattern_views(regexprs@),
            match_rx == exists|j: int|
                0 <= j < k && regex_matches(
                    (#[trigger] patterns[j]).source,
                    patterns[j].ignore_case,
                    entry.path@,
                ),
        decreases regexprs@.len() - k,
    {
        proof {
            assert(patterns[k as int] == regexprs@[k as int]@);
        }
        if regexprs[k].is_match(entry.path.as_str()) {
            match_rx = true;
        }
        k += 1;
    }
    match_type || match_rx || (types.len() == 0 && regexprs.len() == 0)
}

/// The paths of the entries that pass the filters, in order.
pub open spec fn found(
    entries: Seq<Entry>,
    types: Seq<EntryType>,
    patterns: Seq<PatternView>,
) -> Seq<Seq<char>>
    decreases entries.len(),
{
    if entries.len() == 0 {
        Seq::empty()
    } else if passes(entries.last(), types, patterns) {
        found(entries.drop_last(), types, patterns).push(entries.last().path@)
    } else {
        found(entries.drop_last(), types, patterns)
    }
}

/// Goes through the entries of one walk and gives the paths of those that
/// pass the filters.
pub fn walk_dir(entries: &Vec<Entry>, types: &[EntryType], reg_exprs: &[Pattern]) -> (paths: Vec<
    String,
>)
    ensures
        string_views(paths@) == found(entries@, types@, pattern_views(reg_exprs@)),
{
    let ghost patterns = pattern_views(reg_exprs@);
    let mut paths: Vec<String> = Vec::new();
    let mut i: usize = 0;
    proof {
        assert(entries@.take(0) =~= Seq::<Entry>::empty());
        assert(string_views(paths@) =~= found(entries@.take(0), types@, patterns));
    }
    while i < entries.len()
        invariant
            i <= entries@.len(),
            patterns == pattern_views(reg_exprs@),
            string_views(paths@) == found(entries@.take(i as int), types@, patterns),
        decreases entries@.len() - i,
    {
        proof {
            assert(entries@.take(i + 1).drop_last() =~= entries@.take(i as int));
        }
        if filter_entry(&entries[i], types, reg_exprs) {
            let path = entries[i].path.clone();
            proof {
                assert(string_views(paths@.push(path)) =~= string_views(paths@).push(path@));
            }
            paths.push(path);
        }
        i += 1;
    }
    proof {
        assert(entries@.take(entries@.len() as int) =~= entries@);
    }
    paths
}

/// The options of a run.
#[derive(Debug)]
pub struct Args {
    /// The kinds of entry to look for.
    pub types: Vec<EntryType>,
    /// The patterns for whole paths.
    pub regex: Vec<String>,
    /// The roots of the walks.
    pub paths: Vec<String>,
}

impl Args {
    /// What the patterns of the run are compiled from.
    pub open spec fn pattern_views(&self) -> Seq<PatternView> {
        Seq::new(
            self.regex@.len(),
            |i: int| PatternView { source: self.regex@[i]@, ignore_case: false },
        )
    }
}

/// Standard output after the first `k` walks: the paths found on each, each
/// followed by a line break.
pub open spec fn stdout_after(
    types: Seq<EntryType>,
    patterns: Seq<PatternView>,
    walks: Seq<Vec<Entry>>,
    k: nat,
) -> Seq<char>
    decreases k,
{
    if k == 0 {
        Seq::empty()
    } else {
        stdout_after(types, patterns, walks, (k - 1) as nat) + unlines(
            found(walks[k - 1]@, types, patterns),
        )
    }
}

/// Compiles the patterns of a run, in order, up to the first that does not
/// compile. With no pattern there is nothing that could fail.
fn compile_all(args: &Args) -> (r: Result<Vec<Pattern>, PatternError>)
    ensures
        args.regex@.len() == 0 ==> r is Ok,
        r matches Ok(patterns) ==> pattern_views(patterns@) == args.pattern_views(),
{
    let mut patterns: Vec<Pattern> = Vec::new();
    let mut i: usize = 0;
    proof {
        assert(pattern_views(patterns@) =~= args.pattern_views().take(0));
    }
    while i < args.regex.len()
        invariant
            i <= args.regex@.len(),
            pattern_views(patterns@) == args.pattern_views().take(i as int),
        decreases args.regex@.len() - i,
    {
        let pattern = Pattern::new(args.regex[i].as_str(), false)?;
        proof {
            assert(pattern_views(patterns@).len() == i);
            assert(pattern_views(patterns@.push(pattern)) =~= args.pattern_views().take(i + 1));
        }
        patterns.push(pattern);
        i += 1;
    }
    proof {
        assert(args.pattern_views().take(args.regex@.len() as int) =~= args.pattern_views());
    }
    Ok(patterns)
}

/// Lists what compiled filters find. `walks[i]` holds the entries that the
/// walk from the `i`-th root met, in the order it met them, and `failures`
/// what the walks could not read. The paths found on each walk are written
/// in order, each failure leaves a diagnostic on standard error, and the
/// exit code is 1 if there was a failure and 0 if there was none.
pub fn list(
    types: &[EntryType],
    reg_exprs: &[Pattern],
    walks: &Vec<Vec<Entry>>,
    failures: &Vec<Failure>,
) -> (out: Output)
    ensures
        out.stdout@ == stdout_after(types@, pattern_views(reg_exprs@), walks@, walks@.len()),
        out.stderr@ == failure_lines("find"@, failures@),
        out.code == if failures@.len() > 0 {
            1i32
        } else {
            0i32
        },
{
    let mut stdout = String::new();
    let mut i: usize = 0;
    while i < walks.len()
        invariant
            i <= walks@.len(),
            stdout@ == stdout_after(types@, pattern_views(reg_exprs@), walks@, i as nat),
        decreases walks@.len() - i,
    {
        let paths = walk_dir(&walks[i], types, reg_exprs);
        push_lines(&mut stdout, &paths);
        i += 1;
    }
    let mut stderr = String::new();
    push_failures(&mut stderr, "find", failures);
    proof {
        assert(stderr@ =~= failure_lines("find"@, failures@));
    }
    let code: i32 = if failures.len() > 0 {
        1
    } else {
        0
    };
    Output { stdout, stderr, code }
}

/// Compiles the patterns of a run and lists what the filters find.
/// `walks[i]` holds the entries that the walk from the `i`-th root met, in
/// the order it met them, and `failures` what the walks could not read.
///
/// A pattern that does not compile ends the run with the error of the first
/// such pattern. With the patterns compiled, the run leaves behind what the
/// listing does; a run without patterns always gets that far.
pub fn run(args: &Args, walks: &Vec<Vec<Entry>>, failures: &Vec<Failure>) -> (r: Result<
    Output,
    PatternError,
>)
    ensures
        args.regex@.len() == 0 ==> r is Ok,
        r matches Ok(out) ==> out.stdout@ == stdout_after(
            args.types@,
            args.pattern_views(),
            walks@,
            walks@.len(),
        ) && out.stderr@ == failure_lines("find"@, failures@) && out.code == if failures@.len()
            > 0 {
            1i32
        } else {
            0i32
        },
{
    let reg_exprs = compile_all(args)?;
    Ok(list(args.types.as_slice(), reg_exprs.as_slice(), walks, failures))
}

} // verus!
