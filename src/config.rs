//! What a run counts: the flags and the names to leave out.

use vstd::prelude::*;
use crate::text::{lines_of, split_lines, trim, trimmed};

verus! {

/// Name of the file, directly inside the scanned directory, that lists names to leave out.
pub const IGNORE_FILE_NAME: &'static str = ".lcignore";

/// The settings of one run.
pub struct Args {
    /// The file or directory whose lines are counted.
    pub file_path: String,
    /// Leave blank lines out of the counts.
    pub skip_empty_lines: bool,
    /// Descend into subdirectories.
    pub recursive: bool,
    /// Count characters as well as lines.
    pub count_chars: bool,
    /// Entry names that are neither counted nor descended into.
    pub ignored: Vec<String>,
}

/// The ignored names as character sequences.
pub open spec fn ignored_names(args: &Args) -> Seq<Seq<char>> {
    args.ignored@.map_values(|s: String| s@)
}

/// Whether an entry of this name is left out.
pub open spec fn is_ignored_name(args: &Args, name: Seq<char>) -> bool {
    ignored_names(args).contains(name)
}

/// The names an ignore file lists: each of its lines trimmed, blank ones dropped.
pub open spec fn ignore_list(text: Seq<char>) -> Seq<Seq<char>> {
    lines_of(text).map_values(|l: Seq<char>| trimmed(l)).filter(|n: Seq<char>| n.len() > 0)
}

/// Reads the names listed in the text of an ignore file: one per line, surrounding white
/// space trimmed, blank lines skipped.
pub fn parse_ignore_list(text: &str) -> (r: Vec<String>)
    ensures
        r@.map_values(|s: String| s@) == ignore_list(text@),
{
    let lines = split_lines(text);
    let ghost ls = lines@.map_values(|l: String| l@);
    let ghost tr = ls.map_values(|l: Seq<char>| trimmed(l));
    let mut names: Vec<String> = Vec::new();
    let mut i: usize = 0;
    while i < lines.len()
        invariant
            i <= lines.len(),
            ls == lines@.map_values(|l: String| l@),
            tr == ls.map_values(|l: Seq<char>| trimmed(l)),
            names@.map_values(|s: String| s@) == tr.take(i as int).filter(
                |n: Seq<char>| n.len() > 0,
            ),
        decreases lines.len() - i,
    {
        let t = trim(lines[i].as_str());
        proof {
            assert(tr.take(i + 1) =~= tr.take(i as int).push(t@));
            tr.take(i as int).lemma_filter_push(t@, |n: Seq<char>| n.len() > 0);
        }
        if !t.is_empty() {
            let name = t.to_owned();
            let ghost before = names@;
            names.push(name);
            proof {
                assert(names@.map_values(|s: String| s@) =~= before.map_values(|s: String| s@).push(
                    name@,
                ));
            }
        }
        i = i + 1;
    }
    proof {
        assert(tr.take(i as int) =~= tr);
    }
    names
}

impl Args {
    /// Adds the names listed in an ignore file's text, then the ignore file's own name, to the
    /// ignored names.
    pub fn with_ignored(self, ignore_text: &str) -> (r: Args)
        ensures
            r.file_path == self.file_path,
            r.skip_empty_lines == self.skip_empty_lines,
            r.recursive == self.recursive,
            r.count_chars == self.count_chars,
            ignored_names(&r) == ignored_names(&self) + ignore_list(ignore_text@).push(
                IGNORE_FILE_NAME@,
            ),
    {
        let mut args = self;
        let listed = parse_ignore_list(ignore_text);
        let mut i: usize = 0;
        while i < listed.len()
            invariant
                i <= listed.len(),
                args.file_path == self.file_path,
                args.skip_empty_lines == self.skip_empty_lines,
                args.recursive == self.recursive,
                args.count_chars == self.count_chars,
                ignored_names(&args) == ignored_names(&self) + listed@.map_values(
                    |s: String| s@,
                ).take(i as int),
            decreases listed.len() - i,
        {
            let ghost before = args.ignored@;
            args.ignored.push(listed[i].clone());
            proof {
                assert(listed@.map_values(|s: String| s@).take(i + 1) =~= listed@.map_values(
                    |s: String| s@,
                ).take(i as int).push(listed@[i as int]@));
                assert(args.ignored@.map_values(|s: String| s@) =~= before.map_values(
                    |s: String| s@,
                ).push(listed@[i as int]@));
            }
            i = i + 1;
        }
        let ghost before = args.ignored@;
        args.ignored.push(IGNORE_FILE_NAME.to_owned());
        proof {
            assert(listed@.map_values(|s: String| s@).take(i as int) =~= listed@.map_values(
                |s: String| s@,
            ));
            assert(args.ignored@.map_values(|s: String| s@) =~= before.map_values(
                |s: String| s@,
            ).push(IGNORE_FILE_NAME@));
        }
        args
    }

    /// Whether an entry of this name is left out.
    pub fn is_ignored(&self, name: &String) -> (r: bool)
        ensures
            r == is_ignored_name(self, name@),
    {
        let mut i: usize = 0;
        while i < self.ignored.len()
            invariant
                i <= self.ignored.len(),
                forall|j: int| 0 <= j < i ==> self.ignored@[j]@ != name@,
            decreases self.ignored.len() - i,
        {
            if self.ignored[i] == *name {
                proof {
                    assert(ignored_names(self)[i as int] == name@);
                }
                return true;
            }
            i = i + 1;
        }
        proof {
            if ignored_names(self).contains(name@) {
                let j = choose|j: int| 0 <= j < ignored_names(self).len() && ignored_names(self)[j] == name@;
                assert(self.ignored@[j]@ == name@);
            }
        }
        false
    }
}

} // verus!
