use line_counter::config::{parse_ignore_list, Args, IGNORE_FILE_NAME};
use line_counter::text::count_text;
use line_counter::walk::{get_dir_lines, Entry, ReportLine, NICE_COUNT};

fn args(skip: bool, recursive: bool, chars: bool) -> Args {
    Args {
        file_path: String::from("root"),
        skip_empty_lines: skip,
        recursive,
        count_chars: chars,
        ignored: Vec::new(),
    }
}

fn file(name: &str, text: &str) -> Entry {
    Entry::File { name: name.to_string(), text: text.to_string() }
}

fn dir(name: &str, path: &str, entries: Vec<Entry>) -> Entry {
    Entry::Dir { name: name.to_string(), path: path.to_string(), entries }
}

fn walk(entries: &Vec<Entry>, a: &Args) -> (Option<(usize, usize)>, Vec<ReportLine>) {
    let mut report = Vec::new();
    let r = get_dir_lines(&String::from("root"), entries, a, 0, &mut report);
    (r, report)
}

fn file_lines(report: &[ReportLine]) -> Vec<(usize, String, usize)> {
    report
        .iter()
        .filter_map(|l| match l {
            ReportLine::File { depth, name, running } => Some((*depth, name.clone(), *running)),
            _ => None,
        })
        .collect()
}

#[test]
fn counts_terminated_lines() {
    assert_eq!(count_text("line1\nline2\n", false, true), (2, 10));
    assert_eq!(count_text("line1\nline2\n", false, false), (2, 0));
}

#[test]
fn empty_text_has_no_lines() {
    assert_eq!(count_text("", false, true), (0, 0));
    assert_eq!(count_text("", true, true), (0, 0));
}

#[test]
fn skip_empty_counts_only_non_blank_lines() {
    assert_eq!(count_text("\n\n  \nhello\n", true, true), (1, 5));
    assert_eq!(count_text("\n\n  \nhello\n", false, true), (4, 7));
}

#[test]
fn blank_and_non_blank_lines_add_up() {
    let text = "a\n \t\nb c\n\n  d  \n";
    let (kept, _) = count_text(text, true, false);
    let (all, _) = count_text(text, false, false);
    assert_eq!(kept, 3);
    assert_eq!(all, 5);
}

#[test]
fn one_trailing_terminator_adds_no_line() {
    assert_eq!(count_text("one\ntwo", false, false).0, 2);
    assert_eq!(count_text("one\ntwo\n", false, false).0, 2);
    assert_eq!(count_text("\n", false, false).0, 1);
}

#[test]
fn characters_leave_out_terminators() {
    assert_eq!(count_text("ab\r\ncd\n", false, true), (2, 4));
    assert_eq!(count_text("ab\r\n", false, true), (1, 2));
    assert_eq!(count_text("héllo\n", false, true), (1, 5));
    assert_eq!(count_text("a\r", false, true), (1, 2));
}

#[test]
fn unicode_white_space_is_blank() {
    assert_eq!(count_text("\u{3000}\u{a0}\nx\n", true, true), (1, 1));
}

#[test]
fn ignore_list_is_trimmed_and_skips_blank_lines() {
    let names = parse_ignore_list("  b.txt \n\n\ttarget\n   \n");
    assert_eq!(names, vec![String::from("b.txt"), String::from("target")]);
}

#[test]
fn with_ignored_appends_names_and_ignore_file() {
    let mut a = args(false, false, false);
    a.ignored.push(String::from("x"));
    let a = a.with_ignored("b.txt\n");
    assert_eq!(a.ignored, vec![String::from("x"), String::from("b.txt"), String::from(".lcignore")]);
    assert_eq!(IGNORE_FILE_NAME, ".lcignore");
    assert!(a.is_ignored(&String::from("b.txt")));
    assert!(a.is_ignored(&String::from(".lcignore")));
    assert!(!a.is_ignored(&String::from("a.txt")));
    assert!(!a.is_ignored(&String::from("b.tx")));
}

#[test]
fn ignore_file_scenario() {
    let entries = vec![file("a.txt", "line1\nline2\n"), file("b.txt", ""), file(".lcignore", "b.txt")];
    let a = args(false, false, false).with_ignored("b.txt");
    let (r, report) = walk(&entries, &a);
    assert_eq!(r, Some((2, 0)));
    assert_eq!(report.len(), 2);
    assert!(matches!(&report[0], ReportLine::Header { depth: 0, path } if path == "root"));
    assert_eq!(file_lines(&report), vec![(0, String::from("a.txt"), 2)]);
}

#[test]
fn skip_empty_scenario() {
    let entries = vec![
        file("a.txt", "line1\nline2\n"),
        file("b.txt", ""),
        file(".lcignore", "b.txt"),
        file("c.txt", "\n\n  \nhello\n"),
    ];
    let a = args(true, false, false).with_ignored("b.txt");
    let (r, report) = walk(&entries, &a);
    assert_eq!(r, Some((3, 0)));
    assert_eq!(file_lines(&report), vec![(0, String::from("a.txt"), 2), (0, String::from("c.txt"), 3)]);
}

#[test]
fn nice_marker_only_at_sixty_nine() {
    let big = "x\n".repeat(68);
    let entries = vec![file("big", &big), file("one", "y\n"), file("two", "z\n")];
    let (r, report) = walk(&entries, &args(false, false, false));
    assert_eq!(r, Some((70, 0)));
    assert_eq!(NICE_COUNT, 69);
    let nice: Vec<usize> = report
        .iter()
        .enumerate()
        .filter(|(_, l)| matches!(l, ReportLine::Nice { .. }))
        .map(|(i, _)| i)
        .collect();
    assert_eq!(nice.len(), 1);
    assert!(matches!(&report[nice[0] - 1], ReportLine::File { name, running: 69, .. } if name == "one"));
    assert!(matches!(&report[nice[0] + 1], ReportLine::File { name, running: 70, .. } if name == "two"));
}

#[test]
fn non_recursive_skips_subdirectories() {
    let entries = vec![dir("sub", "root/sub", vec![file("s.txt", "1\n2\n3\n")]), file("a.txt", "a\nb\n")];
    let (r, report) = walk(&entries, &args(false, false, true));
    assert_eq!(r, Some((2, 2)));
    assert_eq!(report.len(), 2);
}

#[test]
fn recursive_walks_subdirectories_after_files() {
    let entries = vec![
        dir("sub", "root/sub", vec![file("s.txt", "1\n2\n3\n")]),
        file("a.txt", "a\nb\n"),
    ];
    let (r, report) = walk(&entries, &args(false, true, true));
    assert_eq!(r, Some((5, 5)));
    assert_eq!(report.len(), 4);
    assert!(matches!(&report[2], ReportLine::Header { depth: 1, path } if path == "root/sub"));
    assert_eq!(
        file_lines(&report),
        vec![(0, String::from("a.txt"), 2), (1, String::from("s.txt"), 3)]
    );
}

#[test]
fn ignored_directory_is_not_descended() {
    let entries = vec![dir("target", "root/target", vec![file("t.txt", "t\n")]), file("a.txt", "a\n")];
    let mut a = args(false, true, false);
    a.ignored.push(String::from("target"));
    let (r, report) = walk(&entries, &a);
    assert_eq!(r, Some((1, 0)));
    assert_eq!(report.len(), 2);
}

#[test]
fn recursive_total_is_sum_of_levels() {
    let deep = dir("d", "root/s/d", vec![file("d1", "1\n2\n")]);
    let sub = dir("s", "root/s", vec![file("s1", "a\nb\nc\n"), deep]);
    let entries = vec![file("r1", "x\n"), sub];
    let (r, _) = walk(&entries, &args(false, true, false));
    let mut flat = 0;
    for level in [
        vec![file("r1", "x\n")],
        vec![file("s1", "a\nb\nc\n")],
        vec![file("d1", "1\n2\n")],
    ] {
        flat += walk(&level, &args(false, false, false)).0.unwrap().0;
    }
    assert_eq!(r, Some((flat, 0)));
    assert_eq!(flat, 6);
}

#[test]
fn too_deep_walk_is_refused() {
    let entries = vec![dir("sub", "root/sub", vec![])];
    let mut report = Vec::new();
    let r = get_dir_lines(&String::from("root"), &entries, &args(false, true, false), usize::MAX, &mut report);
    assert_eq!(r, None);
    let r = get_dir_lines(&String::from("root"), &entries, &args(false, false, false), usize::MAX, &mut report);
    assert_eq!(r, Some((0, 0)));
}
