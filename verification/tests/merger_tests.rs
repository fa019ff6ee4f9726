use std::sync::Arc;

use diff_core::diff::{Diff, DiffList};
use diff_core::line_data::parse_lines;
use diff_core::merger::{Choice, MergeDetails, Merger, ResolvedChoice};

fn lines(text: &str) -> Vec<diff_core::line_data::LineData> {
    parse_lines(Arc::new(text.to_string()))
}

fn ranges(m: &Merger) -> Vec<(usize, usize, usize, usize, usize, usize, MergeDetails)> {
    m.blocks
        .iter()
        .map(|b| {
            (
                b.a_range.start,
                b.a_range.end,
                b.b_range.start,
                b.b_range.end,
                b.c_range.start,
                b.c_range.end,
                b.details,
            )
        })
        .collect()
}

#[test]
fn twoway_blocks_follow_the_diff() {
    let d = DiffList(vec![Diff::new(1, 0, 0), Diff::new(0, 1, 1), Diff::new(3, 0, 0)]);
    let m = Merger::from_twoway(&d);
    assert_eq!(
        ranges(&m),
        vec![
            (0, 1, 0, 1, 0, 0, MergeDetails::NoChange),
            (1, 2, 1, 2, 0, 0, MergeDetails::BChanged),
            (2, 5, 2, 5, 0, 0, MergeDetails::NoChange),
        ]
    );
    assert_eq!(m.conflict_count(), 0);
    assert_eq!(m.unresolved_count(), 0);
}

#[test]
fn twoway_added_and_deleted_blocks() {
    let d = DiffList(vec![Diff::new(2, 0, 3), Diff::new(1, 2, 0)]);
    let m = Merger::from_twoway(&d);
    assert_eq!(
        ranges(&m),
        vec![
            (0, 2, 0, 2, 0, 0, MergeDetails::NoChange),
            (2, 2, 2, 5, 0, 0, MergeDetails::BAdded),
            (2, 3, 5, 6, 0, 0, MergeDetails::NoChange),
            (3, 5, 6, 6, 0, 0, MergeDetails::BDeleted),
        ]
    );
}

#[test]
fn twoway_output_takes_changes_of_b() {
    let la = lines("a\nb\nc\nd\ne");
    let lb = lines("a\nB\nc\nd\ne");
    let d = DiffList::from_lines(&la, &lb);
    let m = Merger::from_twoway(&d);
    let out = m.output(&la, &lb, &[]);
    assert_eq!(out, vec!["a", "B", "c", "d", "e"]);
}

#[test]
fn twoway_all_a_reproduces_a() {
    let la = lines("a\nb\nc");
    let lb = lines("a\nx\ny\nc");
    let d = DiffList::from_lines(&la, &lb);
    let mut m = Merger::from_twoway(&d);
    for i in 0..m.blocks.len() {
        m.resolve(i, ResolvedChoice::A);
    }
    assert_eq!(m.output(&la, &lb, &[]), vec!["a", "b", "c"]);
    for i in 0..m.blocks.len() {
        m.resolve(i, ResolvedChoice::B);
    }
    assert_eq!(m.output(&la, &lb, &[]), vec!["a", "x", "y", "c"]);
}

#[test]
fn threeway_separate_changes_merge_cleanly() {
    let la = lines("a\nb\nc\nd\ne");
    let lb = lines("a\nB\nc\nd\ne");
    let lc = lines("a\nb\nc\nD\ne");
    let dab = DiffList::from_lines(&la, &lb);
    let dac = DiffList::from_lines(&la, &lc);
    let m = Merger::from_threeway(&dab, &dac, &lb, &lc);
    assert_eq!(
        ranges(&m),
        vec![
            (0, 1, 0, 1, 0, 1, MergeDetails::NoChange),
            (1, 2, 1, 2, 1, 2, MergeDetails::BChanged),
            (2, 3, 2, 3, 2, 3, MergeDetails::NoChange),
            (3, 4, 3, 4, 3, 4, MergeDetails::CChanged),
            (4, 5, 4, 5, 4, 5, MergeDetails::NoChange),
        ]
    );
    assert_eq!(m.conflict_count(), 0);
    assert_eq!(m.output(&la, &lb, &lc), vec!["a", "B", "c", "D", "e"]);
}

#[test]
fn threeway_conflict_is_marked_and_resolvable() {
    let la = lines("a\nb\nc\nd\ne");
    let lb = lines("a\nX\nc\nd\ne");
    let lc = lines("a\nY\nc\nd\ne");
    let dab = DiffList::from_lines(&la, &lb);
    let dac = DiffList::from_lines(&la, &lc);
    let mut m = Merger::from_threeway(&dab, &dac, &lb, &lc);
    assert_eq!(
        ranges(&m),
        vec![
            (0, 1, 0, 1, 0, 1, MergeDetails::NoChange),
            (1, 2, 1, 2, 1, 2, MergeDetails::BCChanged),
            (2, 5, 2, 5, 2, 5, MergeDetails::NoChange),
        ]
    );
    assert_eq!(m.conflict_count(), 1);
    assert_eq!(m.unresolved_count(), 1);
    assert_eq!(m.next_conflict_after(0), Some(1));
    assert_eq!(m.next_conflict_after(2), None);
    assert_eq!(m.prev_conflict_before(3), Some(1));
    assert_eq!(m.prev_conflict_before(1), None);
    assert_eq!(
        m.output(&la, &lb, &lc),
        vec![
            "a",
            "<<<<<<< A (base)",
            "b",
            "||||||| B",
            "X",
            "======= C",
            "Y",
            ">>>>>>>",
            "c",
            "d",
            "e"
        ]
    );
    m.resolve(1, Choice::C);
    assert_eq!(m.unresolved_count(), 0);
    assert_eq!(m.conflict_count(), 1);
    assert_eq!(m.next_conflict_after(0), None);
    assert_eq!(m.output(&la, &lb, &lc), vec!["a", "Y", "c", "d", "e"]);
}

#[test]
fn threeway_same_change_on_both_sides_is_taken() {
    let la = lines("a\nb\nc");
    let lb = lines("a\nX\nc");
    let lc = lines("a\nX\nc");
    let dab = DiffList::from_lines(&la, &lb);
    let dac = DiffList::from_lines(&la, &lc);
    let m = Merger::from_threeway(&dab, &dac, &lb, &lc);
    assert_eq!(m.blocks[1].details, MergeDetails::BCChangedAndEqual);
    assert_eq!(m.conflict_count(), 0);
    assert_eq!(m.unresolved_count(), 0);
    assert_eq!(m.output(&la, &lb, &lc), vec!["a", "X", "c"]);
}

#[test]
fn threeway_insert_in_c_only() {
    let la = lines("a\nb");
    let lb = lines("a\nb");
    let lc = lines("a\nnew\nb");
    let dab = DiffList::from_lines(&la, &lb);
    let dac = DiffList::from_lines(&la, &lc);
    let m = Merger::from_threeway(&dab, &dac, &lb, &lc);
    assert_eq!(
        ranges(&m),
        vec![
            (0, 1, 0, 1, 0, 1, MergeDetails::NoChange),
            (1, 1, 1, 1, 1, 2, MergeDetails::CAdded),
            (1, 2, 1, 2, 2, 3, MergeDetails::NoChange),
        ]
    );
    assert_eq!(m.output(&la, &lb, &lc), vec!["a", "new", "b"]);
}

#[test]
fn threeway_unchanged_c_has_no_conflicts_and_applies_deletions() {
    let la = lines("p\nq\nr\ns");
    let lb = lines("p\nQ\nr");
    let lc = lines("p\nq\nr\ns");
    let dab = DiffList::from_lines(&la, &lb);
    let dac = DiffList::from_lines(&la, &lc);
    let m = Merger::from_threeway(&dab, &dac, &lb, &lc);
    assert_eq!(m.conflict_count(), 0);
    assert_eq!(m.blocks[m.blocks.len() - 1].details, MergeDetails::BDeleted);
    assert_eq!(m.output(&la, &lb, &lc), vec!["p", "Q", "r"]);
}

#[test]
fn block_choices() {
    assert_eq!(MergeDetails::NoChange.auto_choice(), Some(ResolvedChoice::A));
    assert_eq!(MergeDetails::BCChangedAndEqual.auto_choice(), Some(ResolvedChoice::B));
    assert_eq!(MergeDetails::BCAddedAndEqual.auto_choice(), Some(ResolvedChoice::B));
    assert_eq!(MergeDetails::BCDeleted.auto_choice(), Some(ResolvedChoice::B));
    assert_eq!(MergeDetails::BAdded.auto_choice(), Some(ResolvedChoice::B));
    assert_eq!(MergeDetails::CDeleted.auto_choice(), Some(ResolvedChoice::C));
    assert_eq!(MergeDetails::BDeleted.auto_choice(), Some(ResolvedChoice::B));
    assert_eq!(MergeDetails::CChanged.auto_choice(), Some(ResolvedChoice::C));
    assert_eq!(MergeDetails::BCAdded.auto_choice(), None);
    assert!(MergeDetails::BCAdded.is_conflict());
    assert!(MergeDetails::BCChanged.is_conflict());
    assert!(!MergeDetails::BCDeleted.is_conflict());
    let mut m = Merger::from_twoway(&DiffList(vec![Diff::new(0, 1, 1)]));
    assert!(!m.blocks[0].is_unresolved_conflict());
    assert_eq!(m.blocks[0].output_choice(), Some(ResolvedChoice::B));
    m.resolve(0, ResolvedChoice::A);
    assert_eq!(m.blocks[0].output_choice(), Some(ResolvedChoice::A));
    m.resolve(7, ResolvedChoice::C);
    assert_eq!(m.blocks.len(), 1);
}

#[test]
fn threeway_insertion_of_c_after_change_of_b_is_kept() {
    let la = lines("x\ny\nz");
    let lb = lines("x\nY\nz");
    let lc = lines("x\ny\nw\nz");
    let dab = DiffList(vec![Diff::new(1, 0, 0), Diff::new(0, 1, 1), Diff::new(1, 0, 0)]);
    let dac = DiffList(vec![Diff::new(2, 0, 0), Diff::new(0, 0, 1), Diff::new(1, 0, 0)]);
    let m = Merger::from_threeway(&dab, &dac, &lb, &lc);
    assert_eq!(
        ranges(&m),
        vec![
            (0, 1, 0, 1, 0, 1, MergeDetails::NoChange),
            (1, 2, 1, 2, 1, 2, MergeDetails::BChanged),
            (2, 2, 2, 2, 2, 3, MergeDetails::CAdded),
            (2, 3, 2, 3, 3, 4, MergeDetails::NoChange),
        ]
    );
    assert_eq!(m.output(&la, &lb, &lc), vec!["x", "Y", "w", "z"]);
}

#[test]
fn threeway_deletion_of_c_only_is_applied() {
    let la = lines("p\nq\nr");
    let lb = lines("p\nq\nr");
    let lc = lines("p\nq");
    let dab = DiffList(vec![Diff::new(3, 0, 0)]);
    let dac = DiffList(vec![Diff::new(2, 0, 0), Diff::new(0, 1, 0)]);
    let m = Merger::from_threeway(&dab, &dac, &lb, &lc);
    assert_eq!(m.blocks[1].details, MergeDetails::CDeleted);
    assert_eq!(m.unresolved_count(), 0);
    assert_eq!(m.output(&la, &lb, &lc), vec!["p", "q"]);
}

#[test]
fn twoway_automatic_output_is_b() {
    let la = lines("a\nb\nc\nd");
    let lb = lines("a\nx\nc");
    let d = DiffList::from_lines(&la, &lb);
    let m = Merger::from_twoway(&d);
    assert_eq!(m.output(&la, &lb, &[]), vec!["a", "x", "c"]);
}

#[test]
fn threeway_with_c_unchanged_outputs_b() {
    let la = lines("1\n2\n3\n4\n5");
    let lb = lines("1\ntwo\n3\n5\n6");
    let lc = lines("1\n2\n3\n4\n5");
    let dab = DiffList::from_lines(&la, &lb);
    let dac = DiffList::from_lines(&la, &lc);
    let m = Merger::from_threeway(&dab, &dac, &lb, &lc);
    assert!(m.blocks.iter().all(|b| matches!(
        b.details,
        MergeDetails::NoChange | MergeDetails::BAdded | MergeDetails::BDeleted | MergeDetails::BChanged
    )));
    assert_eq!(m.output(&la, &lb, &lc), vec!["1", "two", "3", "5", "6"]);
}

#[test]
fn threeway_with_b_unchanged_has_only_c_kinds() {
    let la = lines("1\n2\n3");
    let lb = lines("1\n2\n3");
    let lc = lines("0\n1\n3\nx");
    let dab = DiffList::from_lines(&la, &lb);
    let dac = DiffList::from_lines(&la, &lc);
    let m = Merger::from_threeway(&dab, &dac, &lb, &lc);
    assert!(m.blocks.iter().all(|b| matches!(
        b.details,
        MergeDetails::NoChange | MergeDetails::CAdded | MergeDetails::CDeleted | MergeDetails::CChanged
    )));
    assert_eq!(m.conflict_count(), 0);
}

#[test]
fn twoway_block_shapes() {
    let d = DiffList(vec![Diff::new(2, 0, 3), Diff::new(1, 2, 0), Diff::new(0, 1, 4)]);
    let m = Merger::from_twoway(&d);
    for b in &m.blocks {
        let na = b.a_range.end - b.a_range.start;
        let nb = b.b_range.end - b.b_range.start;
        match b.details {
            MergeDetails::NoChange => assert!(na == nb && na > 0),
            MergeDetails::BAdded => assert!(na == 0 && nb > 0),
            MergeDetails::BDeleted => assert!(na > 0 && nb == 0),
            MergeDetails::BChanged => assert!(na > 0 && nb > 0),
            _ => panic!("unexpected kind"),
        }
        assert!(b.resolved.is_none());
    }
    assert_eq!(m.blocks.len(), 5);
}
