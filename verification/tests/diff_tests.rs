use std::sync::Arc;

use diff_core::diff::{Diff, DiffList, DiffRange, LineChange, SrcSelector};
use diff_core::line_data::parse_lines;

#[test]
fn test_diff_identical_files() {
    let content = Arc::new("line1\nline2\nline3".to_string());
    let lines = parse_lines(Arc::clone(&content));
    let diff = DiffList::from_lines(&lines, &lines);
    assert!(diff.0.iter().all(|d| d.diff1 == 0 && d.diff2 == 0));
}

#[test]
fn test_diff_changed_line() {
    let a = Arc::new("line1\nline2\nline3".to_string());
    let b = Arc::new("line1\nchanged\nline3".to_string());
    let la = parse_lines(a);
    let lb = parse_lines(b);
    let diff = DiffList::from_lines(&la, &lb);
    let has_diff = diff.0.iter().any(|d| d.diff1 > 0 || d.diff2 > 0);
    assert!(has_diff);
}

#[test]
fn changed_line_groups_into_three_diffs() {
    let la = parse_lines(Arc::new("line1\nline2\nline3".to_string()));
    let lb = parse_lines(Arc::new("line1\nchanged\nline3".to_string()));
    let diff = DiffList::from_lines(&la, &lb);
    assert_eq!(diff.0, vec![Diff::new(1, 0, 0), Diff::new(0, 1, 1), Diff::new(1, 0, 0)]);
}

#[test]
fn identical_files_give_one_equal_run() {
    let lines = parse_lines(Arc::new("a\nb\nc\nd".to_string()));
    let diff = DiffList::from_lines(&lines, &lines);
    assert_eq!(diff.0, vec![Diff::new(4, 0, 0)]);
}

#[test]
fn diff_totals_cover_both_files() {
    let la = parse_lines(Arc::new("x\ny\nz".to_string()));
    let lb = parse_lines(Arc::new("x\nq\nr\ns\nz".to_string()));
    let diff = DiffList::from_lines(&la, &lb);
    let first: usize = diff.0.iter().map(|d| d.nof_equals + d.diff1).sum();
    let second: usize = diff.0.iter().map(|d| d.nof_equals + d.diff2).sum();
    assert_eq!(first, 3);
    assert_eq!(second, 5);
}

#[test]
fn grouping_of_changes() {
    let changes = vec![
        LineChange::Equal,
        LineChange::Equal,
        LineChange::Delete,
        LineChange::Insert,
        LineChange::Insert,
        LineChange::Equal,
        LineChange::Delete,
    ];
    let diff = DiffList::from_changes(&changes);
    assert_eq!(
        diff.0,
        vec![Diff::new(2, 0, 0), Diff::new(0, 1, 2), Diff::new(1, 0, 0), Diff::new(0, 1, 0)]
    );
}

#[test]
fn grouping_of_no_changes_is_empty() {
    let diff = DiffList::from_changes(&Vec::new());
    assert!(diff.is_empty());
    assert_eq!(diff.iter().count(), 0);
}

#[test]
fn refine_absorbs_short_equal_run() {
    let mut d = Diff::new(3, 1, 2);
    d.refine();
    assert_eq!(d, Diff::new(0, 4, 5));
    d.refine();
    assert_eq!(d, Diff::new(0, 4, 5));
}

#[test]
fn refine_keeps_long_equal_run() {
    let mut d = Diff::new(4, 1, 2);
    d.refine();
    assert_eq!(d, Diff::new(4, 1, 2));
}

#[test]
fn refine_keeps_pure_equal_run() {
    let mut d = Diff::new(2, 0, 0);
    d.refine();
    assert_eq!(d, Diff::new(2, 0, 0));
}

#[test]
fn diff_is_empty_only_when_all_zero() {
    assert!(Diff::new(0, 0, 0).is_empty());
    assert!(!Diff::new(0, 0, 1).is_empty());
    assert!(!Diff::new(1, 0, 0).is_empty());
}

#[test]
fn diff_list_iterates_in_order() {
    let list = DiffList(vec![Diff::new(1, 0, 0), Diff::new(0, 2, 3)]);
    assert!(!list.is_empty());
    let got: Vec<usize> = list.iter().map(|d| d.diff2).collect();
    assert_eq!(got, vec![0, 3]);
}

#[test]
fn diff_range_end() {
    let r = DiffRange::new(5, 3);
    assert_eq!(r.start, 5);
    assert_eq!(r.len, 3);
    assert_eq!(r.end(), 8);
}

#[test]
fn selector_cycles() {
    assert_eq!(SrcSelector::NoSource.next(), SrcSelector::A);
    assert_eq!(SrcSelector::A.next(), SrcSelector::B);
    assert_eq!(SrcSelector::B.next(), SrcSelector::C);
    assert_eq!(SrcSelector::C.next(), SrcSelector::NoSource);
}

#[test]
fn line_totals_of_diffs() {
    let list = DiffList(vec![Diff::new(2, 1, 0), Diff::new(0, 3, 4)]);
    assert_eq!(list.line_totals(), Some((6, 6)));
    let empty = DiffList(Vec::new());
    assert_eq!(empty.line_totals(), Some((0, 0)));
    let huge = DiffList(vec![Diff::new(usize::MAX, 1, 0)]);
    assert_eq!(huge.line_totals(), None);
}

#[test]
fn equal_runs_pair_equal_lines() {
    let la = parse_lines(Arc::new("a\nb\nc\nd\ne".to_string()));
    let lb = parse_lines(Arc::new("a\nx\nc\nd\ny\ne".to_string()));
    let diff = DiffList::from_lines(&la, &lb);
    let (mut pa, mut pb) = (0usize, 0usize);
    for d in diff.iter() {
        for j in 0..d.nof_equals {
            assert_eq!(la[pa + j].get_line(), lb[pb + j].get_line());
        }
        pa += d.nof_equals + d.diff1;
        pb += d.nof_equals + d.diff2;
    }
    assert_eq!((pa, pb), (5, 6));
}
