//! Walking a source tree: which destination a source path has, which
//! entries are left out, and what is done with each entry.
//!
//! Nothing here touches the file system. The caller walks the tree, says
//! what it found at each path, and does what `template` answers.

use crate::sniff::{binary, is_binary, is_dir, Entry};
use crate::text::{chars_match_at, matches_at, str_eq, to_chars};
use vstd::prelude::*;

verus! {

/// What a run does with the files of the source tree.
#[derive(Debug, Clone, Copy, PartialEq, Eq, Structural)]
pub enum Mode {
    /// Writes each rendered file to its destination.
    Template,
    /// Compares each rendered file with what stands at its destination.
    Diff,
}

/// What is to be done with one entry of the source tree.
#[derive(Debug, Clone, Copy, PartialEq, Eq, Structural)]
pub enum Step {
    /// Nothing.
    Skip,
    /// Create the destination directory.
    CreateDir,
    /// Copy the source file to the destination, byte for byte.
    Copy,
    /// Render the source file and write the text to the destination.
    Render,
    /// Report that the destination does not exist.
    ReportMissing,
    /// Report that a binary file cannot be compared.
    ReportBinary,
    /// Render the source file and compare the text with the destination.
    Compare,
}

/// `s` without one `/` at its end.
pub open spec fn without_trailing_slash(s: Seq<char>) -> Seq<char> {
    if s.len() > 0 && s.last() == '/' {
        s.drop_last()
    } else {
        s
    }
}

/// `string` without one `/` at its end.
pub fn trim_trailing_slash(string: &str) -> (trimmed: &str)
    ensures
        trimmed@ == without_trailing_slash(string@),
{
    let n = string.unicode_len();
    if n > 0 && string.get_char(n - 1) == '/' {
        string.substring_char(0, n - 1)
    } else {
        string
    }
}

/// The arguments of a run.
pub struct Arguments<'a> {
    /// The path of the rules file.
    pub rules: &'a str,
    /// The root of the source tree, without a `/` at its end.
    pub source: &'a str,
    /// The root of the destination tree, without a `/` at its end.
    pub dest: &'a str,
    /// What the run does with the files.
    pub diff: Mode,
    /// The paths to leave out, each relative to the source root.
    pub ignore: Vec<&'a str>,
}

impl<'a> Arguments<'a> {
    /// The arguments of a run on the tree `source` with the destination
    /// `dest`: in `Diff` mode if `diff` is set, else in `Template` mode.
    pub fn new(
        rules: &'a str,
        source: &'a str,
        dest: &'a str,
        diff: bool,
        ignore: Vec<&'a str>,
    ) -> (arguments: Self)
        ensures
            arguments.rules@ == rules@,
            arguments.source@ == without_trailing_slash(source@),
            arguments.dest@ == without_trailing_slash(dest@),
            arguments.diff == if diff {
                Mode::Diff
            } else {
                Mode::Template
            },
            arguments.ignore == ignore,
    {
        Arguments {
            rules,
            source: trim_trailing_slash(source),
            dest: trim_trailing_slash(dest),
            diff: if diff {
                Mode::Diff
            } else {
                Mode::Template
            },
            ignore,
        }
    }
}

/// The path of an entry below the source root: the path without the root
/// in front and without one `/` after it. A path that does not begin with
/// the root has none.
pub open spec fn relative_path(source_dir: Seq<char>, path: Seq<char>) -> Option<Seq<char>> {
    let rest = path.skip(source_dir.len() as int);
    if !matches_at(path, source_dir, 0) {
        None
    } else if rest.len() > 0 && rest[0] == '/' {
        Some(rest.skip(1))
    } else {
        Some(rest)
    }
}

/// `path` without the `/` at its end, however many there are, as long as
/// one character stays: `dir/` and `dir//` name what `dir` names, and `/`
/// names the root.
pub open spec fn without_trailing_slashes(path: Seq<char>) -> Seq<char>
    decreases path.len(),
{
    if path.len() > 1 && path.last() == '/' {
        without_trailing_slashes(path.drop_last())
    } else {
        path
    }
}

/// Whether two paths are the same but for `/` at their ends.
pub open spec fn same_path(first: Seq<char>, second: Seq<char>) -> bool {
    without_trailing_slashes(first) == without_trailing_slashes(second)
}

/// Whether the entry at `path` is left out: its path below the source root
/// is the same path as one of `ignore`. Nothing else about the entry counts:
/// what lies below an entry that is left out is not left out with it.
pub open spec fn ignored(source_dir: Seq<char>, path: Seq<char>, ignore: Seq<Seq<char>>) -> bool {
    relative_path(source_dir, path) matches Some(relative) && exists|i: int|
        0 <= i < ignore.len() && same_path(#[trigger] ignore[i], relative)
}

/// The destination of the entry at `path`: the path with the destination
/// root in place of the source root in front. A path that does not begin
/// with the source root has none.
pub open spec fn destination(source_dir: Seq<char>, dest_dir: Seq<char>, path: Seq<char>) -> Option<
    Seq<char>,
> {
    if matches_at(path, source_dir, 0) {
        Some(dest_dir + path.skip(source_dir.len() as int))
    } else {
        None
    }
}

/// Whether `path` begins with `source_dir`, and the number of characters of
/// each.
fn below_root(source_dir: &str, path: &str) -> (found: (bool, usize, usize))
    ensures
        found.0 == matches_at(path@, source_dir@, 0),
        found.1 == source_dir@.len(),
        found.2 == path@.len(),
{
    let root = to_chars(source_dir);
    let chars = to_chars(path);
    let below = chars_match_at(&chars, &root, 0);
    (below, root.len(), chars.len())
}

/// `path` without the `/` at its end, as long as one character stays.
pub fn strip_trailing_slashes(path: &str) -> (stripped: &str)
    ensures
        stripped@ == without_trailing_slashes(path@),
{
    let chars = to_chars(path);
    let mut n: usize = chars.len();
    proof {
        assert(path@.take(n as int) =~= path@);
    }
    while n > 1 && chars[n - 1] == '/'
        invariant
            n <= chars.len(),
            chars@ == path@,
            without_trailing_slashes(path@) == without_trailing_slashes(path@.take(n as int)),
        decreases n,
    {
        proof {
            assert(path@.take(n as int).drop_last() =~= path@.take(n - 1));
        }
        n -= 1;
    }
    path.substring_char(0, n)
}

/// Whether the entry at `path` is left out.
pub fn is_ignored(source_dir: &str, path: &str, ignore: &Vec<&str>) -> (left_out: bool)
    ensures
        left_out == ignored(source_dir@, path@, ignore.deep_view()),
{
    let (below, m, n) = below_root(source_dir, path);
    if !below {
        return false;
    }
    let rest = path.substring_char(m, n);
    let relative = if rest.unicode_len() > 0 && rest.get_char(0) == '/' {
        rest.substring_char(1, n - m)
    } else {
        rest
    };
    let wanted = strip_trailing_slashes(relative);
    let count = ignore.len();
    let mut i: usize = 0;
    while i < count
        invariant
            i <= count,
            count == ignore.len(),
            relative_path(source_dir@, path@) == Some(relative@),
            wanted@ == without_trailing_slashes(relative@),
            forall|j: int| 0 <= j < i ==> !same_path(#[trigger] ignore.deep_view()[j], relative@),
        decreases count - i,
    {
        if str_eq(strip_trailing_slashes(ignore[i]), wanted) {
            proof {
                assert(same_path(ignore.deep_view()[i as int], relative@));
            }
            return true;
        }
        i += 1;
    }
    false
}

/// The destination of the entry at `path`.
pub fn dest_path(source_dir: &str, dest_dir: &str, path: &str) -> (dest: Option<String>)
    ensures
        dest.deep_view() == destination(source_dir@, dest_dir@, path@),
{
    let (below, m, n) = below_root(source_dir, path);
    if !below {
        return None;
    }
    let mut dest = dest_dir.to_owned();
    dest.append(path.substring_char(m, n));
    Some(dest)
}

/// What `Template` mode does with an entry. A directory is created unless
/// the destination exists; a binary file is copied; any other file is
/// rendered.
pub open spec fn template_step(source: Entry, dest_exists: bool) -> Step {
    if source is Directory {
        if dest_exists {
            Step::Skip
        } else {
            Step::CreateDir
        }
    } else if binary(source) {
        Step::Copy
    } else {
        Step::Render
    }
}

/// What `Diff` mode does with an entry. A directory is passed over; a
/// file without a destination is reported as missing; a binary file is
/// reported as such; any other file is compared.
pub open spec fn diff_step(source: Entry, dest_exists: bool) -> Step {
    if source is Directory {
        Step::Skip
    } else if !dest_exists {
        Step::ReportMissing
    } else if binary(source) {
        Step::ReportBinary
    } else {
        Step::Compare
    }
}

/// What `Template` mode does with the entry `source`, given whether
/// anything stands at its destination.
pub fn template_files(source: &Entry, dest_exists: bool) -> (step: Step)
    ensures
        step == template_step(*source, dest_exists),
{
    if is_dir(source) {
        if dest_exists {
            Step::Skip
        } else {
            Step::CreateDir
        }
    } else if is_binary(source) {
        Step::Copy
    } else {
        Step::Render
    }
}

/// What `Diff` mode does with the entry `source`, given whether anything
/// stands at its destination.
pub fn diff_files(source: &Entry, dest_exists: bool) -> (step: Step)
    ensures
        step == diff_step(*source, dest_exists),
{
    if is_dir(source) {
        Step::Skip
    } else if !dest_exists {
        Step::ReportMissing
    } else if is_binary(source) {
        Step::ReportBinary
    } else {
        Step::Compare
    }
}

/// What a run in `mode` does with the entry `source`, given whether
/// anything stands at its destination.
pub fn template(mode: Mode, source: &Entry, dest_exists: bool) -> (step: Step)
    ensures
        step == match mode {
            Mode::Template => template_step(*source, dest_exists),
            Mode::Diff => diff_step(*source, dest_exists),
        },
{
    match mode {
        Mode::Template => template_files(source, dest_exists),
        Mode::Diff => diff_files(source, dest_exists),
    }
}

} // verus!
