//! Directory trees: their line and character totals, and the report of a walk through them.

use vstd::prelude::*;
use crate::config::{is_ignored_name, Args};
use crate::text::{count_text, text_chars, text_lines};

verus! {

/// Running line count of a directory level at which the report adds a `Nice` line.
pub const NICE_COUNT: usize = 69;

/// An entry of a directory: a file with its text, or a directory with its own entries.
pub enum Entry {
    File { name: String, text: String },
    Dir { name: String, path: String, entries: Vec<Entry> },
}

/// One line of the report of a walk.
pub enum ReportLine {
    /// A directory's path, heading its part of the report.
    Header { depth: usize, path: String },
    /// A counted file, with the running line count of its directory level after it.
    File { depth: usize, name: String, running: usize },
    /// The running line count of a directory level has just reached `NICE_COUNT`.
    Nice { depth: usize },
}

impl Entry {
    /// The entry's name.
    pub open spec fn name_of(self) -> Seq<char> {
        match self {
            Entry::File { name, .. } => name@,
            Entry::Dir { name, .. } => name@,
        }
    }
}

/// Adds two (lines, characters) pairs.
pub open spec fn plus(a: (nat, nat), b: (nat, nat)) -> (nat, nat) {
    (a.0 + b.0, a.1 + b.1)
}

/// A file that is counted: not ignored.
pub open spec fn counts_file(e: Entry, args: &Args) -> bool {
    e is File && !is_ignored_name(args, e.name_of())
}

/// A subdirectory that is descended into: not ignored, and the walk is recursive.
pub open spec fn visits(e: Entry, args: &Args) -> bool {
    e is Dir && !is_ignored_name(args, e.name_of()) && args.recursive
}

/// The counts of a file's text; nothing for a directory.
pub open spec fn file_total(e: Entry, args: &Args) -> (nat, nat) {
    match e {
        Entry::File { text, .. } => (
            text_lines(text@, args.skip_empty_lines),
            text_chars(text@, args.skip_empty_lines, args.count_chars),
        ),
        Entry::Dir { .. } => (0, 0),
    }
}

/// What an entry adds to the totals of the directory that holds it.
pub open spec fn entry_total(e: Entry, args: &Args) -> (nat, nat)
    decreases e, 0nat,
{
    if is_ignored_name(args, e.name_of()) {
        (0, 0)
    } else {
        match e {
            Entry::File { .. } => file_total(e, args),
            Entry::Dir { entries, .. } => if args.recursive {
                dir_total(entries@, args)
            } else {
                (0, 0)
            },
        }
    }
}

/// The totals of a directory with these entries: the sum of what each entry adds.
pub open spec fn dir_total(es: Seq<Entry>, args: &Args) -> (nat, nat)
    decreases es, 1nat,
{
    if es.len() == 0 {
        (0, 0)
    } else {
        plus(dir_total(es.drop_last(), args), entry_total(es.last(), args))
    }
}

/// The totals of the counted files among `es`.
pub open spec fn files_total(es: Seq<Entry>, args: &Args) -> (nat, nat)
    decreases es.len(),
{
    if es.len() == 0 {
        (0, 0)
    } else {
        plus(
            files_total(es.drop_last(), args),
            if counts_file(es.last(), args) {
                file_total(es.last(), args)
            } else {
                (0, 0)
            },
        )
    }
}

/// The totals of the subdirectories among `es` that are descended into.
pub open spec fn subdirs_total(es: Seq<Entry>, args: &Args) -> (nat, nat)
    decreases es.len(),
{
    if es.len() == 0 {
        (0, 0)
    } else {
        plus(
            subdirs_total(es.drop_last(), args),
            if visits(es.last(), args) {
                entry_total(es.last(), args)
            } else {
                (0, 0)
            },
        )
    }
}

/// How many levels below this one a walk descends.
pub open spec fn height(es: Seq<Entry>, args: &Args) -> nat
    decreases es,
{
    if es.len() == 0 {
        0
    } else {
        let rest = height(es.drop_last(), args);
        let here = match es.last() {
            Entry::Dir { entries, .. } => if visits(es.last(), args) {
                1 + height(entries@, args)
            } else {
                0
            },
            Entry::File { .. } => 0,
        };
        if rest >= here {
            rest
        } else {
            here
        }
    }
}

/// Whether a walk of these entries at this depth keeps its counts and depths within `usize`.
pub open spec fn fits(es: Seq<Entry>, args: &Args, depth: usize) -> bool {
    &&& dir_total(es, args).0 <= usize::MAX
    &&& dir_total(es, args).1 <= usize::MAX
    &&& depth + height(es, args) <= usize::MAX
}

/// The report lines of the counted files among `es`, each with the running line count of the
/// level after it, and a `Nice` line after the one that brings it to `NICE_COUNT`.
pub open spec fn file_report(es: Seq<Entry>, args: &Args, depth: usize) -> Seq<ReportLine>
    decreases es.len(),
{
    if es.len() == 0 {
        Seq::empty()
    } else {
        let prev = file_report(es.drop_last(), args, depth);
        let running = files_total(es, args).0;
        match es.last() {
            Entry::File { name, .. } => if counts_file(es.last(), args) {
                let line = ReportLine::File { depth, name, running: running as usize };
                if running == NICE_COUNT {
                    prev.push(line).push(ReportLine::Nice { depth })
                } else {
                    prev.push(line)
                }
            } else {
                prev
            },
            Entry::Dir { .. } => prev,
        }
    }
}

/// The report of a directory: its header, its files, then each subdirectory descended into.
pub open spec fn dir_report(path: String, es: Seq<Entry>, args: &Args, depth: usize) -> Seq<
    ReportLine,
>
    decreases es, 1nat,
{
    seq![ReportLine::Header { depth, path }] + file_report(es, args, depth) + subdir_reports(
        es,
        args,
        depth,
    )
}

/// The reports of the subdirectories among `es` that are descended into, one level deeper.
pub open spec fn subdir_reports(es: Seq<Entry>, args: &Args, depth: usize) -> Seq<ReportLine>
    decreases es, 0nat,
{
    if es.len() == 0 {
        Seq::empty()
    } else {
        let prev = subdir_reports(es.drop_last(), args, depth);
        match es.last() {
            Entry::Dir { path, entries, .. } => if visits(es.last(), args) {
                prev + dir_report(path, entries@, args, (depth + 1) as usize)
            } else {
                prev
            },
            Entry::File { .. } => prev,
        }
    }
}

/// A directory's totals are those of its counted files plus those of the subdirectories
/// descended into.
pub proof fn lemma_split_totals(es: Seq<Entry>, args: &Args)
    ensures
        dir_total(es, args) == plus(files_total(es, args), subdirs_total(es, args)),
    decreases es.len(),
{
    if es.len() > 0 {
        lemma_split_totals(es.drop_last(), args);
        let e = es.last();
        let f = if counts_file(e, args) {
            file_total(e, args)
        } else {
            (0nat, 0nat)
        };
        let d = if visits(e, args) {
            entry_total(e, args)
        } else {
            (0nat, 0nat)
        };
        assert(entry_total(e, args) == plus(f, d));
    }
}

proof fn lemma_prefix_totals(es: Seq<Entry>, args: &Args, i: int, j: int)
    requires
        0 <= i <= j <= es.len(),
    ensures
        files_total(es.take(i), args).0 <= files_total(es.take(j), args).0,
        files_total(es.take(i), args).1 <= files_total(es.take(j), args).1,
        subdirs_total(es.take(i), args).0 <= subdirs_total(es.take(j), args).0,
        subdirs_total(es.take(i), args).1 <= subdirs_total(es.take(j), args).1,
        height(es.take(i), args) <= height(es.take(j), args),
    decreases j - i,
{
    if i < j {
        lemma_prefix_totals(es, args, i, j - 1);
        assert(es.take(j).drop_last() =~= es.take(j - 1));
    }
}

proof fn lemma_whole(es: Seq<Entry>)
    ensures
        es.take(es.len() as int) == es,
{
    assert(es.take(es.len() as int) =~= es);
}

/// Walks a directory with these entries at this depth: counts its files, then descends into
/// its subdirectories when the walk is recursive, skipping ignored entries, and appends the
/// report of the walk to `report`. Returns the directory's totals, or `None` where they or the
/// depth do not fit in `usize`.
pub fn get_dir_lines(
    path: &String,
    entries: &Vec<Entry>,
    args: &Args,
    depth: usize,
    report: &mut Vec<ReportLine>,
) -> (r: Option<(usize, usize)>)
    ensures
        !fits(entries@, args, depth) ==> r is None,
        fits(entries@, args, depth) ==> r == Some(
            (dir_total(entries@, args).0 as usize, dir_total(entries@, args).1 as usize),
        ) && final(report)@ == old(report)@ + dir_report(*path, entries@, args, depth),
    decreases entries@,
{
    let ghost es = entries@;
    let ghost start = old(report)@;
    proof {
        lemma_split_totals(es, args);
        lemma_whole(es);
    }
    report.push(ReportLine::Header { depth, path: path.clone() });
    let mut lines: usize = 0;
    let mut chars: usize = 0;
    let mut i: usize = 0;
    while i < entries.len()
        invariant
            es == entries@,
            i <= es.len(),
            lines == files_total(es.take(i as int), args).0,
            chars == files_total(es.take(i as int), args).1,
            report@ == start + seq![ReportLine::Header { depth, path: *path }] + file_report(
                es.take(i as int),
                args,
                depth,
            ),
            dir_total(es, args) == plus(files_total(es, args), subdirs_total(es, args)),
            es.take(es.len() as int) == es,
        decreases es.len() - i,
    {
        proof {
            assert(es.take(i + 1).drop_last() =~= es.take(i as int));
            lemma_prefix_totals(es, args, i + 1, es.len() as int);
        }
        match &entries[i] {
            Entry::File { name, text } => {
                if !args.is_ignored(name) {
                    let (l, c) = count_text(text.as_str(), args.skip_empty_lines, args.count_chars);
                    match lines.checked_add(l) {
                        Some(v) => {
                            lines = v;
                        },
                        None => {
                            return None;
                        },
                    }
                    match chars.checked_add(c) {
                        Some(v) => {
                            chars = v;
                        },
                        None => {
                            return None;
                        },
                    }
                    report.push(ReportLine::File { depth, name: name.clone(), running: lines });
                    if lines == NICE_COUNT {
                        report.push(ReportLine::Nice { depth });
                    }
                    proof {
                        assert(report@ =~= start + seq![ReportLine::Header { depth, path: *path }]
                            + file_report(es.take(i + 1), args, depth));
                    }
                }
            },
            Entry::Dir { .. } => {},
        }
        i = i + 1;
    }
    proof {
        assert(report@ =~= start + seq![ReportLine::Header { depth, path: *path }] + file_report(
            es,
            args,
            depth,
        ) + subdir_reports(es.take(0), args, depth));
    }
    let mut j: usize = 0;
    while j < entries.len()
        invariant
            es == entries@,
            j <= es.len(),
            lines == files_total(es, args).0 + subdirs_total(es.take(j as int), args).0,
            chars == files_total(es, args).1 + subdirs_total(es.take(j as int), args).1,
            depth + height(es.take(j as int), args) <= usize::MAX,
            report@ == start + seq![ReportLine::Header { depth, path: *path }] + file_report(
                es,
                args,
                depth,
            ) + subdir_reports(es.take(j as int), args, depth),
            dir_total(es, args) == plus(files_total(es, args), subdirs_total(es, args)),
            es.take(es.len() as int) == es,
        decreases es.len() - j,
    {
        proof {
            assert(es.take(j + 1).drop_last() =~= es.take(j as int));
            lemma_prefix_totals(es, args, j + 1, es.len() as int);
        }
        match &entries[j] {
            Entry::Dir { name, path: sub_path, entries: sub } => {
                if args.recursive && !args.is_ignored(name) {
                    if depth == usize::MAX {
                        return None;
                    }
                    match get_dir_lines(sub_path, sub, args, depth + 1, report) {
                        Some((l, c)) => {
                            match lines.checked_add(l) {
                                Some(v) => {
                                    lines = v;
                                },
                                None => {
                                    return None;
                                },
                            }
                            match chars.checked_add(c) {
                                Some(v) => {
                                    chars = v;
                                },
                                None => {
                                    return None;
                                },
                            }
                            proof {
                                assert(report@ =~= start + seq![
                                    ReportLine::Header { depth, path: *path },
                                ] + file_report(es, args, depth) + subdir_reports(
                                    es.take(j + 1),
                                    args,
                                    depth,
                                ));
                            }
                        },
                        None => {
                            return None;
                        },
                    }
                }
            },
            Entry::File { .. } => {},
        }
        j = j + 1;
    }
    Some((lines, chars))
}

/// The totals of entries placed one after the other add up.
pub proof fn lemma_total_concat(a: Seq<Entry>, b: Seq<Entry>, args: &Args)
    ensures
        dir_total(a + b, args) == plus(dir_total(a, args), dir_total(b, args)),
    decreases b.len(),
{
    if b.len() == 0 {
        assert(a + b =~= a);
    } else {
        lemma_total_concat(a, b.drop_last(), args);
        assert((a + b).drop_last() =~= a + b.drop_last());
    }
}

/// An entry whose name is ignored is neither counted nor descended into, whatever the flags:
/// the totals of a directory are those it would have without it.
pub proof fn lemma_ignored_entry(a: Seq<Entry>, e: Entry, b: Seq<Entry>, args: &Args)
    requires
        is_ignored_name(args, e.name_of()),
    ensures
        !counts_file(e, args),
        !visits(e, args),
        entry_total(e, args) == (0nat, 0nat),
        dir_total(a + seq![e] + b, args) == dir_total(a + b, args),
{
    lemma_total_concat(a + seq![e], b, args);
    lemma_total_concat(a, seq![e], args);
    lemma_total_concat(a, b, args);
    assert(seq![e].drop_last() =~= Seq::<Entry>::empty());
    assert(dir_total(seq![e], args) == plus(dir_total(seq![e].drop_last(), args), entry_total(e, args)));
}

/// Without recursion a directory's totals are those of the files directly inside it, and a
/// subdirectory adds nothing to them.
pub proof fn lemma_non_recursive(a: Seq<Entry>, d: Entry, b: Seq<Entry>, args: &Args)
    requires
        !args.recursive,
        d is Dir,
    ensures
        dir_total(a + seq![d] + b, args) == files_total(a + seq![d] + b, args),
        dir_total(a + seq![d] + b, args) == dir_total(a + b, args),
{
    lemma_split_totals(a + seq![d] + b, args);
    lemma_no_subdirs(a + seq![d] + b, args);
    lemma_total_concat(a + seq![d], b, args);
    lemma_total_concat(a, seq![d], args);
    lemma_total_concat(a, b, args);
    assert(seq![d].drop_last() =~= Seq::<Entry>::empty());
    assert(dir_total(seq![d], args) == plus(dir_total(seq![d].drop_last(), args), entry_total(d, args)));
}

proof fn lemma_no_subdirs(es: Seq<Entry>, args: &Args)
    requires
        !args.recursive,
    ensures
        subdirs_total(es, args) == (0nat, 0nat),
    decreases es.len(),
{
    if es.len() > 0 {
        lemma_no_subdirs(es.drop_last(), args);
    }
}

/// The same settings, without recursion.
pub open spec fn non_recursive(args: &Args) -> Args {
    Args {
        file_path: args.file_path,
        skip_empty_lines: args.skip_empty_lines,
        recursive: false,
        count_chars: args.count_chars,
        ignored: args.ignored,
    }
}

/// The non-recursive totals of this level, plus those of every level below it that a
/// recursive walk reaches.
pub open spec fn levels_total(es: Seq<Entry>, args: &Args) -> (nat, nat)
    decreases es, 1nat,
{
    plus(dir_total(es, &non_recursive(args)), sublevels_total(es, args))
}

/// The `levels_total` of each subdirectory among `es` that is descended into, added up.
pub open spec fn sublevels_total(es: Seq<Entry>, args: &Args) -> (nat, nat)
    decreases es, 0nat,
{
    if es.len() == 0 {
        (0, 0)
    } else {
        plus(
            sublevels_total(es.drop_last(), args),
            match es.last() {
                Entry::Dir { entries, .. } => if visits(es.last(), args) {
                    levels_total(entries@, args)
                } else {
                    (0, 0)
                },
                Entry::File { .. } => (0, 0),
            },
        )
    }
}

proof fn lemma_files_non_recursive(es: Seq<Entry>, args: &Args)
    ensures
        files_total(es, &non_recursive(args)) == files_total(es, args),
    decreases es.len(),
{
    if es.len() > 0 {
        lemma_files_non_recursive(es.drop_last(), args);
    }
}

/// A recursive walk's totals are the sum of the non-recursive totals of every directory level
/// it reaches, each counted on its own.
pub proof fn lemma_recursive_levels(es: Seq<Entry>, args: &Args)
    requires
        args.recursive,
    ensures
        dir_total(es, args) == levels_total(es, args),
    decreases es, 1nat,
{
    let flat = non_recursive(args);
    lemma_split_totals(es, args);
    lemma_split_totals(es, &flat);
    lemma_no_subdirs(es, &flat);
    lemma_files_non_recursive(es, args);
    lemma_sublevels(es, args);
}

proof fn lemma_sublevels(es: Seq<Entry>, args: &Args)
    requires
        args.recursive,
    ensures
        subdirs_total(es, args) == sublevels_total(es, args),
    decreases es, 0nat,
{
    if es.len() > 0 {
        lemma_sublevels(es.drop_last(), args);
        match es.last() {
            Entry::Dir { entries, .. } => {
                if visits(es.last(), args) {
                    lemma_recursive_levels(entries@, args);
                }
            },
            Entry::File { .. } => {},
        }
    }
}

} // verus!
