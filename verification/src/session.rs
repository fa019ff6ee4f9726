use vstd::prelude::*;

use crate::diff::{changes_to_diffs, similar_line_changes, DiffList};
use crate::line_data::{all_texts, lines_wf, LineData};
use crate::merger::{conflicts_in, spans_of, threeway_blocks, twoway_blocks, Merger};
use crate::source_data::SourceData;
use crate::text_fmt::{decimal, push_decimal, push_str};

verus! {

/// The number of diffs that change lines on either side.
pub open spec fn changed_blocks(ds: Seq<crate::diff::Diff>) -> nat
    decreases ds.len(),
{
    if ds.len() == 0 {
        0
    } else {
        changed_blocks(ds.drop_last()) + if ds.last().diff1 > 0 || ds.last().diff2 > 0 {
            1nat
        } else {
            0nat
        }
    }
}

/// The number of diffs of `d` that change lines on either side.
pub fn change_block_count(d: &DiffList) -> (r: usize)
    ensures
        r == changed_blocks(d.0@),
{
    let mut n: usize = 0;
    let mut i: usize = 0;
    while i < d.0.len()
        invariant
            i <= d.0@.len(),
            n == changed_blocks(d.0@.take(i as int)),
            n <= i,
        decreases d.0@.len() - i,
    {
        proof {
            assert(d.0@.take(i + 1).drop_last() =~= d.0@.take(i as int));
        }
        if d.0[i].diff1 > 0 || d.0[i].diff2 > 0 {
            n += 1;
        }
        i += 1;
    }
    proof {
        assert(d.0@.take(i as int) =~= d.0@);
    }
    n
}

/// The status line after a comparison: the number of changed blocks, and
/// the number of conflicts when there are any.
pub open spec fn status_line(blocks: nat, conflicts: nat) -> Seq<char> {
    "변경 블록: "@ + decimal(blocks) + "개"@ + if conflicts > 0 {
        "  충돌: "@ + decimal(conflicts) + "개"@
    } else {
        Seq::empty()
    }
}

pub fn status_text(blocks: usize, conflicts: usize) -> (r: String)
    ensures
        r@ == status_line(blocks as nat, conflicts as nat),
{
    let mut s = String::new();
    push_str(&mut s, "변경 블록: ");
    push_decimal(&mut s, blocks as u64, 0);
    push_str(&mut s, "개");
    let ghost head = s@;
    if conflicts > 0 {
        push_str(&mut s, "  충돌: ");
        push_decimal(&mut s, conflicts as u64, 0);
        push_str(&mut s, "개");
    }
    proof {
        assert(crate::text_fmt::padded_decimal(blocks as nat, 0) =~= decimal(blocks as nat));
        assert(crate::text_fmt::padded_decimal(conflicts as nat, 0) =~= decimal(conflicts as nat));
        assert(s@ =~= status_line(blocks as nat, conflicts as nat));
    }
    s
}

/// What comparing the loaded files gives: the diff of A with B, the diff of
/// A with C when C is given, their merge and the status line.
pub struct Comparison {
    pub diff_ab: DiffList,
    pub diff_ac: Option<DiffList>,
    pub merger: Merger,
    pub status: String,
}

/// The diffs of the lines of two files.
pub open spec fn file_diffs(a: Seq<LineData>, b: Seq<LineData>) -> Seq<crate::diff::Diff> {
    changes_to_diffs(similar_line_changes(all_texts(a), all_texts(b)))
}

/// Compares A with B, and with C when it is given, and merges them: two-way
/// from the diff of A and B, three-way from both diffs. Nothing comes back
/// only when the line counts of A and another file add up past `usize::MAX`.
pub fn compare_sources(a: &SourceData, b: &SourceData, c: Option<&SourceData>) -> (r: Option<
    Comparison,
>)
    requires
        lines_wf(a.lines@),
        lines_wf(b.lines@),
        c matches Some(cs) ==> lines_wf(cs.lines@),
    ensures
        r is None <==> (c matches Some(cs) && (a.lines@.len() + cs.lines@.len() > usize::MAX
            || a.lines@.len() + b.lines@.len() > usize::MAX)),
        r matches Some(cmp) ==> {
            &&& cmp.diff_ab.0@ == file_diffs(a.lines@, b.lines@)
            &&& match c {
                None => {
                    &&& cmp.diff_ac is None
                    &&& cmp.merger.blocks@ == twoway_blocks(cmp.diff_ab.0@)
                },
                Some(cs) => cmp.diff_ac matches Some(dac) && dac.0@ == file_diffs(a.lines@, cs.lines@)
                    && cmp.merger.blocks@ == threeway_blocks(
                    spans_of(cmp.diff_ab.0@),
                    spans_of(dac.0@),
                    b.lines@,
                    cs.lines@,
                ),
            }
            &&& cmp.status@ == status_line(
                changed_blocks(cmp.diff_ab.0@),
                conflicts_in(cmp.merger.blocks@),
            )
            &&& all_texts(a.lines@) != all_texts(b.lines@) ==> changed_blocks(cmp.diff_ab.0@) > 0
        },
{
    let na = a.lines.len();
    let nb = b.lines.len();
    let diff_ab = DiffList::from_lines(a.lines.as_slice(), b.lines.as_slice());
    let (diff_ac, merger) = match c {
        Some(cs) => {
            if na > usize::MAX - cs.lines.len() || na > usize::MAX - nb {
                return None;
            }
            let dac = DiffList::from_lines(a.lines.as_slice(), cs.lines.as_slice());
            let m = Merger::from_threeway(&diff_ab, &dac, b.lines.as_slice(), cs.lines.as_slice());
            (Some(dac), m)
        },
        None => (None, Merger::from_twoway(&diff_ab)),
    };
    proof {
        law_changed_blocks_counts_changes(diff_ab.0@);
    }
    let blocks = change_block_count(&diff_ab);
    let conflicts = merger.conflict_count();
    let status = status_text(blocks, conflicts);
    Some(Comparison { diff_ab, diff_ac, merger, status })
}

/// The changed-block count counts every diff that changes a line on either
/// side: it is positive exactly when some diff deletes or inserts a line,
/// and it never exceeds the number of diffs.
pub proof fn law_changed_blocks_counts_changes(ds: Seq<crate::diff::Diff>)
    ensures
        changed_blocks(ds) > 0 <==> exists|k: int|
            0 <= k < ds.len() && ((#[trigger] ds[k]).diff1 > 0 || ds[k].diff2 > 0),
        changed_blocks(ds) <= ds.len(),
    decreases ds.len(),
{
    if ds.len() > 0 {
        let p = ds.drop_last();
        law_changed_blocks_counts_changes(p);
        assert forall|k: int| 0 <= k < p.len() implies #[trigger] p[k] == ds[k] by {}
        if exists|k: int| 0 <= k < ds.len() && ((#[trigger] ds[k]).diff1 > 0 || ds[k].diff2 > 0) {
            let k = choose|k: int| 0 <= k < ds.len() && ((#[trigger] ds[k]).diff1 > 0 || ds[k].diff2 > 0);
            if k < p.len() {
                assert(p[k] == ds[k]);
            } else {
                assert(ds.last() == ds[k]);
            }
        }
        if changed_blocks(p) > 0 {
            let k = choose|k: int| 0 <= k < p.len() && ((#[trigger] p[k]).diff1 > 0 || p[k].diff2 > 0);
            assert(ds[k] == p[k]);
        }
        if ds.last().diff1 > 0 || ds.last().diff2 > 0 {
            assert(ds[ds.len() - 1] == ds.last());
        }
    }
}

} // verus!
