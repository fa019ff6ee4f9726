use diff_core::dir_diff::{
    bytes_equal, content_equal, DirDiff, DirListing, EntryMeta, EntryStatus, FileTime, Joined,
};
use diff_core::path_order::{compare_bytes, compare_paths, RelPath};

fn rel(p: &str) -> RelPath {
    RelPath { components: p.split('/').map(|c| c.as_bytes().to_vec()).collect() }
}

fn file(size: u64, secs: u64) -> EntryMeta {
    EntryMeta {
        size,
        modified: Some(FileTime { before_epoch: false, secs, nanos: 0 }),
        is_dir: false,
    }
}

fn dir() -> EntryMeta {
    EntryMeta { size: 0, modified: None, is_dir: true }
}

fn listing(entries: &[(&str, EntryMeta)]) -> DirListing {
    let mut l = DirListing::new();
    for (p, m) in entries {
        l.insert(rel(p), *m);
    }
    l
}

fn path_text(r: &RelPath) -> String {
    let parts: Vec<String> =
        r.components.iter().map(|c| String::from_utf8_lossy(c).into_owned()).collect();
    parts.join("/")
}

fn statuses(d: &DirDiff) -> Vec<(String, EntryStatus)> {
    d.entries.iter().map(|e| (path_text(&e.rel_path), e.status)).collect()
}

fn twoway(a: &DirListing, b: &DirListing, bytes: &dyn Fn(&str) -> bool) -> DirDiff {
    let j = Joined::twoway(a, b);
    let same: Vec<bool> = (0..j.len())
        .map(|i| j.needs_bytes_twoway(i) && bytes(&path_text(&j.get(i).rel_path)))
        .collect();
    DirDiff::compare_twoway(b"/a".to_vec(), b"/b".to_vec(), &j, &same)
}

#[test]
fn twoway_basic_statuses() {
    let a = listing(&[("same.txt", file(5, 10)), ("only_a.txt", file(3, 11))]);
    let b = listing(&[("same.txt", file(5, 20)), ("only_b.txt", file(3, 12))]);
    let d = twoway(&a, &b, &|p| p == "same.txt");
    assert_eq!(
        statuses(&d),
        vec![
            ("only_a.txt".to_string(), EntryStatus::OnlyInA),
            ("only_b.txt".to_string(), EntryStatus::OnlyInB),
            ("same.txt".to_string(), EntryStatus::Equal),
        ]
    );
    assert_eq!(d.changed_count(), 2);
    assert_eq!(d.conflict_count(), 0);
    assert!(!d.is_threeway());
}

#[test]
fn twoway_modified_file() {
    let a = listing(&[("file.txt", file(9, 1))]);
    let b = listing(&[("file.txt", file(9, 2))]);
    let d = twoway(&a, &b, &|_| false);
    assert_eq!(d.entries[0].status, EntryStatus::Modified);
    assert_eq!(d.changed_count(), 1);
}

#[test]
fn twoway_size_or_time_decide_without_bytes() {
    let a = listing(&[("big", file(9, 1)), ("same_time", file(4, 7))]);
    let b = listing(&[("big", file(10, 1)), ("same_time", file(4, 7))]);
    let j = Joined::twoway(&a, &b);
    assert_eq!(j.len(), 2);
    assert!(!j.needs_bytes_twoway(0));
    assert!(!j.needs_bytes_twoway(1));
    let d = DirDiff::compare_twoway(Vec::new(), Vec::new(), &j, &[true, false]);
    assert_eq!(d.entries[0].status, EntryStatus::Modified);
    assert_eq!(d.entries[1].status, EntryStatus::Equal);
}

#[test]
fn twoway_directories_are_equal() {
    let a = listing(&[("sub", dir()), ("sub/x", file(1, 1))]);
    let b = listing(&[("sub", dir()), ("sub/x", file(1, 1))]);
    let d = twoway(&a, &b, &|_| false);
    assert_eq!(
        statuses(&d),
        vec![("sub".to_string(), EntryStatus::Equal), ("sub/x".to_string(), EntryStatus::Equal)]
    );
    assert!(d.entries[0].is_dir);
    assert!(!d.entries[1].is_dir);
}

#[test]
fn listing_insert_replaces_and_sorts() {
    let mut l = DirListing::new();
    l.insert(rel("b"), file(1, 1));
    l.insert(rel("a/z"), file(2, 1));
    l.insert(rel("a"), dir());
    l.insert(rel("b"), file(5, 1));
    assert_eq!(l.len(), 3);
    let names: Vec<String> = (0..l.len()).map(|i| path_text(&l.get(i).rel_path)).collect();
    assert_eq!(names, vec!["a", "a/z", "b"]);
    assert_eq!(l.get(2).meta.size, 5);
}

#[test]
fn threeway_statuses() {
    let a = listing(&[
        ("all_same", file(1, 1)),
        ("b_changed", file(1, 1)),
        ("c_changed", file(1, 1)),
        ("both_same_change", file(1, 1)),
        ("conflict", file(1, 1)),
        ("only_a", file(1, 1)),
        ("a_and_c", file(1, 1)),
    ]);
    let b = listing(&[
        ("all_same", file(1, 1)),
        ("b_changed", file(2, 1)),
        ("c_changed", file(1, 1)),
        ("both_same_change", file(2, 2)),
        ("conflict", file(2, 1)),
        ("only_b", file(1, 1)),
        ("b_and_c", file(1, 5)),
    ]);
    let c = listing(&[
        ("all_same", file(1, 1)),
        ("b_changed", file(1, 1)),
        ("c_changed", file(3, 1)),
        ("both_same_change", file(2, 2)),
        ("conflict", file(3, 1)),
        ("only_c", file(1, 1)),
        ("a_and_c", file(1, 1)),
        ("b_and_c", file(1, 6)),
    ]);
    let j = Joined::threeway(&a, &b, &c);
    let n = j.len();
    let d = DirDiff::compare_threeway(
        b"/a".to_vec(),
        b"/b".to_vec(),
        b"/c".to_vec(),
        &j,
        &vec![false; n],
        &vec![false; n],
        &vec![true; n],
    );
    let got = statuses(&d);
    let expect = vec![
        ("a_and_c", EntryStatus::Equal),
        ("all_same", EntryStatus::Equal),
        ("b_and_c", EntryStatus::OnlyInB),
        ("b_changed", EntryStatus::BModified),
        ("both_same_change", EntryStatus::BothModified),
        ("c_changed", EntryStatus::CModified),
        ("conflict", EntryStatus::Conflict),
        ("only_a", EntryStatus::OnlyInA),
        ("only_b", EntryStatus::OnlyInB),
        ("only_c", EntryStatus::OnlyInC),
    ];
    let expect: Vec<(String, EntryStatus)> =
        expect.into_iter().map(|(p, s)| (p.to_string(), s)).collect();
    assert_eq!(got, expect);
    assert!(d.is_threeway());
    assert_eq!(d.conflict_count(), 1);
    assert_eq!(d.changed_count(), 8);
}

#[test]
fn threeway_b_and_c_differ_without_a_is_conflict() {
    let a = DirListing::new();
    let b = listing(&[("x", file(1, 1))]);
    let c = listing(&[("x", file(1, 2))]);
    let j = Joined::threeway(&a, &b, &c);
    assert_eq!(j.needs_bytes_threeway(0), (false, false, true));
    let d = DirDiff::compare_threeway(Vec::new(), Vec::new(), Vec::new(), &j, &[true], &[true], &[false]);
    assert_eq!(d.entries[0].status, EntryStatus::Conflict);
}

#[test]
fn identical_listings_compare_equal() {
    let a = listing(&[("d", dir()), ("d/f", file(3, 4)), ("g", file(8, 9))]);
    let b = listing(&[("d", dir()), ("d/f", file(3, 4)), ("g", file(8, 9))]);
    let d = twoway(&a, &b, &|_| false);
    assert!(d.entries.iter().all(|e| e.status == EntryStatus::Equal));
    assert_eq!(d.changed_count(), 0);
}

#[test]
fn absolute_paths_of_entries() {
    let a = listing(&[("sub/f.txt", file(1, 1))]);
    let b = DirListing::new();
    let j = Joined::twoway(&a, &b);
    let d = DirDiff::compare_twoway(b"/base/a".to_vec(), b"/base/b/".to_vec(), &j, &[false]);
    let e = &d.entries[0];
    assert_eq!(e.status, EntryStatus::OnlyInA);
    assert_eq!(e.abs_path_a(&d.base_a), Some(b"/base/a/sub/f.txt".to_vec()));
    assert_eq!(e.abs_path_b(&d.base_b), None);
    assert_eq!(e.abs_path_c(b"/c"), None);
    let f = diff_core::dir_diff::DirDiffEntry {
        rel_path: rel("x"),
        status: EntryStatus::Equal,
        meta_a: None,
        meta_b: Some(file(1, 1)),
        meta_c: Some(file(1, 1)),
        is_dir: false,
    };
    assert_eq!(f.abs_path_b(b"/b/"), Some(b"/b/x".to_vec()));
    assert_eq!(f.abs_path_c(b""), Some(b"x".to_vec()));
}

#[test]
fn status_symbols_and_flags() {
    assert_eq!(EntryStatus::Equal.symbol(), "  =");
    assert_eq!(EntryStatus::OnlyInA.symbol(), "← A");
    assert_eq!(EntryStatus::OnlyInB.symbol(), "B →");
    assert_eq!(EntryStatus::OnlyInC.symbol(), "C ↓");
    assert_eq!(EntryStatus::Modified.symbol(), " ≠ ");
    assert_eq!(EntryStatus::BModified.symbol(), " B~");
    assert_eq!(EntryStatus::CModified.symbol(), " C~");
    assert_eq!(EntryStatus::BothModified.symbol(), "BC~");
    assert_eq!(EntryStatus::Conflict.symbol(), " !! ");
    assert!(!EntryStatus::Equal.is_changed());
    assert!(EntryStatus::OnlyInC.is_changed());
    assert!(EntryStatus::Conflict.is_conflict());
    assert!(!EntryStatus::BothModified.is_conflict());
}

#[test]
fn content_equality_rules() {
    let d = dir();
    assert!(content_equal(&d, &d, false));
    assert!(!content_equal(&file(1, 1), &file(2, 1), true));
    assert!(content_equal(&file(4, 1), &file(4, 1), false));
    assert!(content_equal(&file(4, 1), &file(4, 2), true));
    assert!(!content_equal(&file(4, 1), &file(4, 2), false));
    assert!(bytes_equal(b"abc", b"abc"));
    assert!(!bytes_equal(b"abc", b"abd"));
    assert!(!bytes_equal(b"abc", b"ab"));
}

#[test]
fn path_ordering() {
    assert!(compare_bytes(b"a", b"b") < 0);
    assert!(compare_bytes(b"ab", b"a") > 0);
    assert_eq!(compare_bytes(b"", b""), 0);
    assert!(compare_paths(&rel("a"), &rel("a/b")) < 0);
    assert!(compare_paths(&rel("a/b"), &rel("a.txt")) < 0);
    assert!(compare_paths(&rel("b"), &rel("a/z")) > 0);
    assert_eq!(compare_paths(&rel("x/y"), &rel("x/y")), 0);
}
