use std::sync::Arc;

use diff_core::diff::{Diff, DiffList};
use diff_core::diff_view::{build_diff_lines, highlight, row_label, DiffView, LineKind, ViewMode};
use diff_core::dir_diff::{DirDiff, DirListing, EntryMeta, EntryStatus, FileTime, Joined};
use diff_core::dir_view::{
    chars_of, contains_chars, epoch_to_ymd, fmt_time, header_text, open_request_for, shown_entries, DirView, SortKey,
};
use diff_core::line_data::parse_lines;
use diff_core::merge_view::{merge_line_label, LineSource, MergeLine, MergeView};
use diff_core::path_order::RelPath;
use diff_core::session::{change_block_count, compare_sources, status_text};
use diff_core::source_data::SourceData;

fn rel(p: &str) -> RelPath {
    RelPath { components: p.split('/').map(|c| c.as_bytes().to_vec()).collect() }
}

fn file(size: u64) -> EntryMeta {
    EntryMeta { size, modified: None, is_dir: false }
}

fn sample_dir_diff() -> DirDiff {
    let mut a = DirListing::new();
    a.insert(rel("Readme.md"), file(30));
    a.insert(rel("src"), EntryMeta { size: 0, modified: None, is_dir: true });
    a.insert(rel("src/main.rs"), file(10));
    a.insert(rel("zeta.txt"), file(5));
    let mut b = DirListing::new();
    b.insert(rel("Readme.md"), file(30));
    b.insert(rel("src"), EntryMeta { size: 0, modified: None, is_dir: true });
    b.insert(rel("src/main.rs"), file(12));
    b.insert(rel("new.txt"), file(7));
    let j = Joined::twoway(&a, &b);
    let same = vec![true; j.len()];
    DirDiff::compare_twoway(b"/x".to_vec(), b"/y".to_vec(), &j, &same)
}

fn names(d: &DirDiff, idx: &[usize]) -> Vec<String> {
    idx.iter()
        .map(|&i| {
            let parts: Vec<String> = d.entries[i]
                .rel_path
                .components
                .iter()
                .map(|c| String::from_utf8_lossy(c).into_owned())
                .collect();
            parts.join("/")
        })
        .collect()
}

#[test]
fn diff_rows_side_by_side() {
    let a = SourceData::from_str("a", "one\ntwo\nthree");
    let b = SourceData::from_str("b", "one\n2\nthree");
    let d = DiffList(vec![Diff::new(1, 1, 1), Diff::new(1, 0, 0)]);
    let rows = build_diff_lines(Some(&a), Some(&b), None, &d);
    let got: Vec<(Option<String>, Option<String>, LineKind)> =
        rows.iter().map(|r| (r.line_a.clone(), r.line_b.clone(), r.kind)).collect();
    assert_eq!(
        got,
        vec![
            (Some("one".to_string()), Some("one".to_string()), LineKind::Equal),
            (Some("two".to_string()), None, LineKind::OnlyA),
            (None, Some("2".to_string()), LineKind::OnlyB),
            (Some("three".to_string()), Some("three".to_string()), LineKind::Equal),
        ]
    );
    assert!(rows.iter().all(|r| r.line_c.is_none()));
}

#[test]
fn diff_rows_past_the_end_are_empty() {
    let a = SourceData::from_str("a", "x");
    let d = DiffList(vec![Diff::new(2, 0, 1)]);
    let rows = build_diff_lines(Some(&a), None, None, &d);
    assert_eq!(rows.len(), 3);
    assert_eq!(rows[0].line_a, Some("x".to_string()));
    assert_eq!(rows[1].line_a, None);
    assert_eq!(rows[2].line_b, None);
    assert_eq!(rows[2].kind, LineKind::OnlyB);
}

#[test]
fn diff_view_set_sources() {
    let a = SourceData::from_str("a", "l1\nl2");
    let b = SourceData::from_str("b", "l1\nl2");
    let c = SourceData::from_str("c", "l1");
    let mut v = DiffView::new();
    assert!(v.show_line_numbers);
    assert_eq!(v.mode, ViewMode::TwoWay);
    let dab = DiffList::from_lines(&a.lines, &b.lines);
    v.set_sources(Some(a.clone()), Some(b.clone()), Some(c), dab.clone(), None);
    assert_eq!(v.mode, ViewMode::ThreeWay);
    assert_eq!(v.lines.len(), 2);
    v.set_sources(Some(a), Some(b), None, dab, None);
    assert_eq!(v.mode, ViewMode::TwoWay);
}

#[test]
fn row_labels() {
    assert_eq!(row_label(0, "abc", true), "   1 │ abc");
    assert_eq!(row_label(41, "", true), "  42 │ ");
    assert_eq!(row_label(9999, "x", true), "10000 │ x");
    assert_eq!(row_label(3, "abc", false), "abc");
}

#[test]
fn merge_view_from_diff() {
    let mut v = MergeView::new();
    assert_eq!(v.conflict_count(), 0);
    let d = DiffList(vec![Diff::new(2, 0, 0), Diff::new(0, 2, 3), Diff::new(1, 0, 2), Diff::new(0, 4, 0)]);
    v.set_diff(d, None);
    let got: Vec<(String, LineSource)> =
        v.lines().iter().map(|l| (l.content.clone(), l.source.clone())).collect();
    assert_eq!(
        got,
        vec![
            (String::new(), LineSource::A),
            (String::new(), LineSource::A),
            ("<<<<<<< (충돌: A 2줄, B 3줄)".to_string(), LineSource::Conflict),
            (String::new(), LineSource::A),
            (String::new(), LineSource::B),
            (String::new(), LineSource::B),
        ]
    );
    assert_eq!(v.conflict_count(), 1);
}

#[test]
fn merge_view_conflict_navigation() {
    let mut v = MergeView::new();
    v.set_diff(DiffList(vec![Diff::new(0, 1, 1), Diff::new(1, 12, 10)]), None);
    assert_eq!(v.conflict_count(), 2);
    assert_eq!(v.lines()[2].content, "<<<<<<< (충돌: A 12줄, B 10줄)");
    assert_eq!(v.current_conflict(), 0);
    v.select_prev_conflict();
    assert_eq!(v.current_conflict(), 0);
    v.select_next_conflict();
    v.select_next_conflict();
    v.select_next_conflict();
    assert_eq!(v.current_conflict(), 2);
    v.select_prev_conflict();
    assert_eq!(v.current_conflict(), 1);
    v.resolve_current(LineSource::B);
    assert_eq!(v.current_conflict(), 1);
    assert_eq!(v.lines().len(), 3);
}

#[test]
fn merge_line_labels() {
    let conflict = MergeLine { content: "<<<".to_string(), source: LineSource::Conflict };
    assert_eq!(merge_line_label(0, &conflict), "   1 │ !! <<<");
    let resolved = MergeLine { content: "ok".to_string(), source: LineSource::Resolved("x".to_string()) };
    assert_eq!(merge_line_label(11, &resolved), "  12 │ ✓  ok");
    let b = MergeLine { content: String::new(), source: LineSource::B };
    assert_eq!(merge_line_label(1, &b), "   2 │ B  ");
    let c = MergeLine { content: "c".to_string(), source: LineSource::C };
    assert_eq!(merge_line_label(2, &c), "   3 │ C  c");
}

#[test]
fn dir_view_defaults_and_sort_clicks() {
    let mut v = DirView::new();
    assert!(v.dir_diff.is_none());
    assert!(!v.show_equal);
    assert_eq!(v.sort_by, SortKey::Path);
    assert!(v.sort_asc);
    assert!(v.visible_entries().is_empty());
    v.click_sort(SortKey::Path);
    assert!(!v.sort_asc);
    v.click_sort(SortKey::SizeA);
    assert_eq!(v.sort_by, SortKey::SizeA);
    assert!(v.sort_asc);
}

#[test]
fn dir_view_hides_equal_and_sorts_by_path() {
    let d = sample_dir_diff();
    let mut v = DirView::new();
    v.set_diff(d);
    let d = v.dir_diff.as_ref().unwrap();
    let shown = v.visible_entries();
    assert_eq!(names(d, &shown), vec!["new.txt", "src/main.rs", "zeta.txt"]);
    let mut v2 = DirView::new();
    v2.set_diff(sample_dir_diff());
    v2.show_equal = true;
    v2.click_sort(SortKey::Path);
    let d2 = v2.dir_diff.as_ref().unwrap();
    assert_eq!(
        names(d2, &v2.visible_entries()),
        vec!["zeta.txt", "src/main.rs", "src", "new.txt", "Readme.md"]
    );
}

#[test]
fn dir_view_filter_ignores_case() {
    let d = sample_dir_diff();
    let shown = shown_entries(&d.entries, true, "README", SortKey::Path, true);
    assert_eq!(names(&d, &shown), vec!["Readme.md"]);
    let shown = shown_entries(&d.entries, true, "src", SortKey::Path, true);
    assert_eq!(names(&d, &shown), vec!["src", "src/main.rs"]);
    let shown = shown_entries(&d.entries, false, "nothing", SortKey::Path, true);
    assert!(shown.is_empty());
}

#[test]
fn dir_view_sorts_by_status_and_size() {
    let d = sample_dir_diff();
    let by_status = shown_entries(&d.entries, true, "", SortKey::Status, true);
    let statuses: Vec<EntryStatus> = by_status.iter().map(|&i| d.entries[i].status).collect();
    assert_eq!(
        statuses,
        vec![
            EntryStatus::Equal,
            EntryStatus::Equal,
            EntryStatus::Modified,
            EntryStatus::OnlyInA,
            EntryStatus::OnlyInB,
        ]
    );
    assert_eq!(names(&d, &by_status[0..2]), vec!["Readme.md", "src"]);
    let by_size = shown_entries(&d.entries, true, "", SortKey::SizeB, true);
    assert_eq!(names(&d, &by_size), vec!["src", "zeta.txt", "new.txt", "src/main.rs", "Readme.md"]);
    let by_size_desc = shown_entries(&d.entries, true, "", SortKey::SizeA, false);
    assert_eq!(
        names(&d, &by_size_desc),
        vec!["Readme.md", "src/main.rs", "zeta.txt", "src", "new.txt"]
    );
}

#[test]
fn dir_view_open_requests() {
    let d = sample_dir_diff();
    let i_main = d.entries.iter().position(|e| e.rel_path.components.len() == 2).unwrap();
    let req = open_request_for(&d, i_main).unwrap();
    assert_eq!(req.path_a, "/x/src/main.rs");
    assert_eq!(req.path_b, "/y/src/main.rs");
    assert_eq!(req.path_c, None);
    let i_new = d.entries.iter().position(|e| e.rel_path.components[0] == b"new.txt").unwrap();
    let req = open_request_for(&d, i_new).unwrap();
    assert_eq!(req.path_a, "");
    assert_eq!(req.path_b, "/y/new.txt");
    let i_dir = d.entries.iter().position(|e| e.is_dir).unwrap();
    assert!(open_request_for(&d, i_dir).is_none());
    let mut v = DirView::new();
    v.click_entry(0);
    assert!(v.open_request.is_none());
    v.set_diff(d);
    v.click_entry(i_main);
    assert_eq!(v.open_request.as_ref().unwrap().path_b, "/y/src/main.rs");
    v.click_entry(99);
    assert!(v.open_request.is_none());
}

#[test]
fn header_texts() {
    assert_eq!(header_text("경로", SortKey::Path, SortKey::Path, true), "경로 ▲");
    assert_eq!(header_text("경로", SortKey::Path, SortKey::Path, false), "경로 ▼");
    assert_eq!(header_text("상태", SortKey::Status, SortKey::Path, true), "상태");
}

#[test]
fn epoch_dates() {
    assert_eq!(epoch_to_ymd(0), (1970, 1, 1, 0, 0));
    assert_eq!(epoch_to_ymd(86399), (1970, 1, 1, 23, 59));
    assert_eq!(epoch_to_ymd(951782400), (2000, 2, 29, 0, 0));
    assert_eq!(epoch_to_ymd(1700000000), (2023, 11, 14, 22, 13));
    assert_eq!(epoch_to_ymd(4102444800), (2100, 1, 1, 0, 0));
}

#[test]
fn time_formatting() {
    assert_eq!(fmt_time(FileTime { before_epoch: false, secs: 1700000000, nanos: 5 }), "2023-11-14 22:13");
    assert_eq!(fmt_time(FileTime { before_epoch: true, secs: 1700000000, nanos: 0 }), "1970-01-01 00:00");
    assert_eq!(fmt_time(FileTime { before_epoch: false, secs: 0, nanos: 0 }), "1970-01-01 00:00");
}

#[test]
fn status_line_texts() {
    assert_eq!(status_text(3, 0), "변경 블록: 3개");
    assert_eq!(status_text(12, 1), "변경 블록: 12개  충돌: 1개");
}

#[test]
fn compare_two_and_three_files() {
    let a = SourceData::from_str("a", "a\nb\nc");
    let b = SourceData::from_str("b", "a\nX\nc");
    let c = SourceData::from_str("c", "a\nY\nc");
    let two = compare_sources(&a, &b, None).unwrap();
    assert!(two.diff_ac.is_none());
    assert_eq!(change_block_count(&two.diff_ab), 1);
    assert_eq!(two.merger.conflict_count(), 0);
    assert_eq!(two.status, "변경 블록: 1개");
    let three = compare_sources(&a, &b, Some(&c)).unwrap();
    assert!(three.diff_ac.is_some());
    assert_eq!(three.merger.conflict_count(), 1);
    assert_eq!(three.status, "변경 블록: 1개  충돌: 1개");
    let same = compare_sources(&a, &a, None).unwrap();
    assert_eq!(same.status, "변경 블록: 0개");
}

#[test]
fn parse_lines_feed_diff_rows() {
    let la = parse_lines(Arc::new("p\nq".to_string()));
    assert_eq!(la.len(), 2);
}

#[test]
fn char_containment() {
    let hay = chars_of("src/main.rs");
    assert_eq!(hay.len(), 11);
    assert!(contains_chars(&hay, &chars_of("main")));
    assert!(contains_chars(&hay, &chars_of("")));
    assert!(contains_chars(&hay, &chars_of("src/main.rs")));
    assert!(!contains_chars(&hay, &chars_of("src/main.rs!")));
    assert!(!contains_chars(&hay, &chars_of("Main")));
    assert!(contains_chars(&chars_of("가나다"), &chars_of("나다")));
}

#[test]
fn highlighted_cells() {
    assert_eq!(highlight(LineKind::Equal), (false, false, false));
    assert_eq!(highlight(LineKind::OnlyA), (true, false, false));
    assert_eq!(highlight(LineKind::OnlyB), (false, true, false));
    assert_eq!(highlight(LineKind::OnlyC), (false, false, true));
    assert_eq!(highlight(LineKind::Changed), (true, true, false));
}
