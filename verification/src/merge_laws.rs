use vstd::prelude::*;

use crate::diff::{lines_first, lines_second, runs_match, Diff};
use crate::line_data::{all_texts, LineData};
use crate::merger::{
    block_output, merge_output, range_texts,
    a_end, c_change_kind, c_inserts, c_only_block, changed_block, collect_c, conflicts_in, diff_spans,
    equal_loop, first_change, flush_c, flush_rest, o_end, other_pos, rng, spans_of, threeway_blocks,
    threeway_loop, twoway_blocks, twoway_diff_blocks, unchanged_block, unresolved_in, MergeBlock,
    MergeDetails, ResolvedChoice, Span, advance, b_change_kind, lemma_spans_of_wf, spans_wf, range_len, ranges_text_equal,
};

verus! {

/// No block is resolved yet.
pub open spec fn all_fresh(blocks: Seq<MergeBlock>) -> bool {
    forall|k: int| 0 <= k < blocks.len() ==> (#[trigger] blocks[k]).resolved is None
}

/// No block is a conflict.
pub open spec fn all_calm(blocks: Seq<MergeBlock>) -> bool {
    forall|k: int| 0 <= k < blocks.len() ==> !(#[trigger] blocks[k]).details.conflicting()
}

/// A diff sequence that records no changed line on either side.
pub open spec fn no_change(ds: Seq<Diff>) -> bool {
    forall|k: int| 0 <= k < ds.len() ==> (#[trigger] ds[k]).diff1 == 0 && ds[k].diff2 == 0
}

/// Every block's choice set to `c`.
pub open spec fn resolve_all(blocks: Seq<MergeBlock>, c: ResolvedChoice) -> Seq<MergeBlock> {
    blocks.map_values(|b: MergeBlock| MergeBlock { resolved: Some(c), ..b })
}

proof fn lemma_push_keeps(acc: Seq<MergeBlock>, b: MergeBlock)
    ensures
        all_fresh(acc) && b.resolved is None ==> all_fresh(acc.push(b)),
        all_calm(acc) && !b.details.conflicting() ==> all_calm(acc.push(b)),
{
    assert forall|k: int| 0 <= k < acc.push(b).len() implies acc.push(b)[k] == if k < acc.len() {
        acc[k]
    } else {
        b
    } by {}
}

proof fn lemma_flush_c(sab: Seq<Span>, sac: Seq<Span>, ci: int, limit: int, acc: Seq<MergeBlock>)
    ensures
        all_fresh(acc) ==> all_fresh(flush_c(sab, sac, ci, limit, acc).0),
        all_calm(acc) ==> all_calm(flush_c(sab, sac, ci, limit, acc).0),
    decreases sac.len() - ci,
{
    if 0 <= ci < sac.len() && a_end(sac[ci]) <= limit {
        let acc2 = if sac[ci].equal {
            acc
        } else {
            acc.push(c_only_block(sac[ci], sab))
        };
        lemma_push_keeps(acc, c_only_block(sac[ci], sab));
        lemma_flush_c(sab, sac, ci + 1, limit, acc2);
    }
}

proof fn lemma_flush_rest(sab: Seq<Span>, sac: Seq<Span>, ci: int, acc: Seq<MergeBlock>)
    ensures
        all_fresh(acc) ==> all_fresh(flush_rest(sab, sac, ci, acc)),
        all_calm(acc) ==> all_calm(flush_rest(sab, sac, ci, acc)),
    decreases sac.len() - ci,
{
    if 0 <= ci < sac.len() {
        let acc2 = if sac[ci].equal {
            acc
        } else {
            acc.push(c_only_block(sac[ci], sab))
        };
        lemma_push_keeps(acc, c_only_block(sac[ci], sab));
        lemma_flush_rest(sab, sac, ci + 1, acc2);
    }
}

proof fn lemma_c_inserts(sac: Seq<Span>, ci: int, a_cur: int, bp: int, acc: Seq<MergeBlock>)
    ensures
        all_fresh(acc) ==> all_fresh(c_inserts(sac, ci, a_cur, bp, acc).0),
        all_calm(acc) ==> all_calm(c_inserts(sac, ci, a_cur, bp, acc).0),
    decreases sac.len() - ci,
{
    if 0 <= ci < sac.len() && sac[ci].a_start == a_cur && sac[ci].a_len == 0 {
        let blk = MergeBlock {
            a_range: rng(a_cur, a_cur),
            b_range: rng(bp, bp),
            c_range: rng(sac[ci].o_start as int, o_end(sac[ci])),
            details: MergeDetails::CAdded,
            resolved: None,
        };
        lemma_push_keeps(acc, blk);
        lemma_c_inserts(sac, ci + 1, a_cur, bp, acc.push(blk));
    }
}

proof fn lemma_equal_loop(
    sb: Span,
    a_stop: int,
    sac: Seq<Span>,
    ci: int,
    a_cur: int,
    acc: Seq<MergeBlock>,
)
    ensures
        all_fresh(acc) ==> all_fresh(equal_loop(sb, a_stop, sac, ci, a_cur, acc).0),
        all_calm(acc) ==> all_calm(equal_loop(sb, a_stop, sac, ci, a_cur, acc).0),
    decreases (a_stop - a_cur) + (sac.len() - ci),
{
    let b_base = sb.o_start as int;
    let bp = b_base + (a_cur - sb.a_start);
    let (acc1, ci1) = c_inserts(sac, ci, a_cur, bp, acc);
    lemma_c_inserts(sac, ci, a_cur, bp, acc);
    if a_cur < a_stop {
        let k = first_change(sac, ci1, a_cur, a_stop);
        if 0 <= k < sac.len() {
            let sc = sac[k];
            let ub = unchanged_block(a_cur, sc.a_start as int, bp, other_pos(sac, a_cur));
            let acc2 = if a_cur < sc.a_start {
                acc1.push(ub)
            } else {
                acc1
            };
            lemma_push_keeps(acc1, ub);
            let len = if sc.a_len < a_stop - sc.a_start {
                sc.a_len as int
            } else {
                a_stop - sc.a_start
            };
            let bp2 = b_base + (sc.a_start - sb.a_start);
            let cb = MergeBlock {
                a_range: rng(sc.a_start as int, sc.a_start + len),
                b_range: rng(bp2, bp2 + len),
                c_range: rng(sc.o_start as int, o_end(sc)),
                details: c_change_kind(sc.a_len as int, sc.o_len as int),
                resolved: None,
            };
            let acc3 = acc2.push(cb);
            lemma_push_keeps(acc2, cb);
            let a3 = sc.a_start + len;
            let ci3 = advance(sac, ci1, a3);
            let m = (a_stop - a3) + (sac.len() - ci3);
            if 0 <= m < (a_stop - a_cur) + (sac.len() - ci) {
                lemma_equal_loop(sb, a_stop, sac, ci3, a3, acc3);
            }
        } else {
            lemma_push_keeps(acc1, unchanged_block(a_cur, a_stop, bp, other_pos(sac, a_cur)));
        }
    }
}

proof fn lemma_collect_unchanged(sac: Seq<Span>, k: int, a_stop: int)
    requires
        forall|j: int| 0 <= j < sac.len() ==> (#[trigger] sac[j]).equal,
    ensures
        !collect_c(sac, k, a_stop, false, 0, 0).0,
    decreases sac.len() - k,
{
    if 0 <= k < sac.len() && sac[k].a_start < a_stop {
        lemma_collect_unchanged(sac, k + 1, a_stop);
    }
}

proof fn lemma_threeway_loop(
    sab: Seq<Span>,
    sac: Seq<Span>,
    lb: Seq<LineData>,
    lc: Seq<LineData>,
    i: int,
    ci: int,
    acc: Seq<MergeBlock>,
)
    ensures
        all_fresh(acc) ==> all_fresh(threeway_loop(sab, sac, lb, lc, i, ci, acc)),
        all_calm(acc) && ((forall|j: int| 0 <= j < sab.len() ==> (#[trigger] sab[j]).equal)
            || (forall|j: int| 0 <= j < sac.len() ==> (#[trigger] sac[j]).equal)) ==> all_calm(
            threeway_loop(sab, sac, lb, lc, i, ci, acc),
        ),
    decreases sab.len() - i,
{
    if 0 <= i < sab.len() {
        let sb = sab[i];
        let (acc1, ci1) = flush_c(sab, sac, ci, sb.a_start as int, acc);
        lemma_flush_c(sab, sac, ci, sb.a_start as int, acc);
        if sb.equal {
            let (acc2, ci2) = equal_loop(sb, a_end(sb), sac, ci1, sb.a_start as int, acc1);
            lemma_equal_loop(sb, a_end(sb), sac, ci1, sb.a_start as int, acc1);
            lemma_threeway_loop(sab, sac, lb, lc, i + 1, ci2, acc2);
        } else {
            let (blk, ci2) = changed_block(sb, sac, ci1, lb, lc);
            if forall|j: int| 0 <= j < sac.len() ==> (#[trigger] sac[j]).equal {
                lemma_collect_unchanged(sac, ci1, a_end(sb));
            }
            lemma_push_keeps(acc1, blk);
            lemma_threeway_loop(sab, sac, lb, lc, i + 1, ci2, acc1.push(blk));
        }
    } else {
        lemma_flush_rest(sab, sac, ci, acc);
    }
}

proof fn lemma_counts(blocks: Seq<MergeBlock>)
    ensures
        all_calm(blocks) ==> conflicts_in(blocks) == 0,
        all_fresh(blocks) ==> unresolved_in(blocks) == conflicts_in(blocks),
        unresolved_in(blocks) <= conflicts_in(blocks),
    decreases blocks.len(),
{
    if blocks.len() > 0 {
        let p = blocks.drop_last();
        assert forall|k: int| 0 <= k < p.len() implies p[k] == blocks[k] by {}
        lemma_counts(p);
        if all_calm(blocks) {
            assert(!blocks[blocks.len() - 1].details.conflicting());
        }
        if all_fresh(blocks) {
            assert(blocks[blocks.len() - 1].resolved is None);
        }
    }
}

proof fn lemma_no_change_spans(ds: Seq<Diff>)
    requires
        no_change(ds),
    ensures
        forall|j: int| 0 <= j < spans_of(ds).len() ==> (#[trigger] spans_of(ds)[j]).equal,
        all_equal_spans(spans_of(ds)),
    decreases ds.len(),
{
    if ds.len() > 0 {
        let p = ds.drop_last();
        assert(no_change(p)) by {
            assert forall|k: int| 0 <= k < p.len() implies (#[trigger] p[k]).diff1 == 0 && p[k].diff2 == 0 by {
                assert(p[k] == ds[k]);
            }
        }
        lemma_no_change_spans(p);
        let s0 = spans_of(p);
        let t = diff_spans(ds.last(), lines_first(p) as int, lines_second(p) as int);
        assert(ds.last() == ds[ds.len() - 1]);
        assert forall|j: int| 0 <= j < spans_of(ds).len() implies (#[trigger] spans_of(ds)[j]).equal
            && spans_of(ds)[j].a_len > 0 by {
            if j < s0.len() {
                assert(spans_of(ds)[j] == s0[j]);
            } else {
                assert(spans_of(ds)[j] == t[j - s0.len()]);
            }
        }
    }
}

/// A block kind that only B's changes (or none) give.
pub open spec fn b_kind(d: MergeDetails) -> bool {
    d is NoChange || d is BAdded || d is BDeleted || d is BChanged
}

/// A block kind that only C's changes (or none) give.
pub open spec fn c_kind(d: MergeDetails) -> bool {
    d is NoChange || d is CAdded || d is CDeleted || d is CChanged
}

/// Every block is of a kind of B's side (`b_side`) or of C's side.
pub open spec fn side_kinds(blocks: Seq<MergeBlock>, b_side: bool) -> bool {
    forall|k: int|
        0 <= k < blocks.len() ==> if b_side {
            b_kind((#[trigger] blocks[k]).details)
        } else {
            c_kind(blocks[k].details)
        }
}

/// Every span is an equal, non-empty run.
pub open spec fn all_equal_spans(s: Seq<Span>) -> bool {
    forall|j: int| 0 <= j < s.len() ==> (#[trigger] s[j]).equal && s[j].a_len > 0
}

proof fn lemma_push_side(acc: Seq<MergeBlock>, b: MergeBlock, b_side: bool)
    requires
        side_kinds(acc, b_side),
        if b_side {
            b_kind(b.details)
        } else {
            c_kind(b.details)
        },
    ensures
        side_kinds(acc.push(b), b_side),
{
    assert forall|k: int| 0 <= k < acc.push(b).len() implies acc.push(b)[k] == if k < acc.len() {
        acc[k]
    } else {
        b
    } by {}
}

proof fn lemma_flush_c_side(sab: Seq<Span>, sac: Seq<Span>, ci: int, limit: int, acc: Seq<MergeBlock>, b_side: bool)
    requires
        side_kinds(acc, b_side),
        b_side ==> all_equal_spans(sac),
    ensures
        side_kinds(flush_c(sab, sac, ci, limit, acc).0, b_side),
    decreases sac.len() - ci,
{
    if 0 <= ci < sac.len() && a_end(sac[ci]) <= limit {
        let acc2 = if sac[ci].equal {
            acc
        } else {
            acc.push(c_only_block(sac[ci], sab))
        };
        if !sac[ci].equal {
            lemma_push_side(acc, c_only_block(sac[ci], sab), b_side);
        }
        lemma_flush_c_side(sab, sac, ci + 1, limit, acc2, b_side);
    }
}

proof fn lemma_flush_rest_side(sab: Seq<Span>, sac: Seq<Span>, ci: int, acc: Seq<MergeBlock>, b_side: bool)
    requires
        side_kinds(acc, b_side),
        b_side ==> all_equal_spans(sac),
    ensures
        side_kinds(flush_rest(sab, sac, ci, acc), b_side),
    decreases sac.len() - ci,
{
    if 0 <= ci < sac.len() {
        let acc2 = if sac[ci].equal {
            acc
        } else {
            acc.push(c_only_block(sac[ci], sab))
        };
        if !sac[ci].equal {
            lemma_push_side(acc, c_only_block(sac[ci], sab), b_side);
        }
        lemma_flush_rest_side(sab, sac, ci + 1, acc2, b_side);
    }
}

proof fn lemma_c_inserts_side(sac: Seq<Span>, ci: int, a_cur: int, bp: int, acc: Seq<MergeBlock>, b_side: bool)
    requires
        side_kinds(acc, b_side),
        b_side ==> all_equal_spans(sac),
    ensures
        side_kinds(c_inserts(sac, ci, a_cur, bp, acc).0, b_side),
    decreases sac.len() - ci,
{
    if 0 <= ci < sac.len() && sac[ci].a_start == a_cur && sac[ci].a_len == 0 {
        let blk = MergeBlock {
            a_range: rng(a_cur, a_cur),
            b_range: rng(bp, bp),
            c_range: rng(sac[ci].o_start as int, o_end(sac[ci])),
            details: MergeDetails::CAdded,
            resolved: None,
        };
        lemma_push_side(acc, blk, b_side);
        lemma_c_inserts_side(sac, ci + 1, a_cur, bp, acc.push(blk), b_side);
    }
}

proof fn lemma_equal_loop_side(
    sb: Span,
    a_stop: int,
    sac: Seq<Span>,
    ci: int,
    a_cur: int,
    acc: Seq<MergeBlock>,
    b_side: bool,
)
    requires
        side_kinds(acc, b_side),
        b_side ==> all_equal_spans(sac),
    ensures
        side_kinds(equal_loop(sb, a_stop, sac, ci, a_cur, acc).0, b_side),
    decreases (a_stop - a_cur) + (sac.len() - ci),
{
    let b_base = sb.o_start as int;
    let bp = b_base + (a_cur - sb.a_start);
    let (acc1, ci1) = c_inserts(sac, ci, a_cur, bp, acc);
    lemma_c_inserts_side(sac, ci, a_cur, bp, acc, b_side);
    if a_cur < a_stop {
        let k = first_change(sac, ci1, a_cur, a_stop);
        if 0 <= k < sac.len() {
            lemma_first_change_is_change(sac, ci1, a_cur, a_stop);
            let sc = sac[k];
            let ub = unchanged_block(a_cur, sc.a_start as int, bp, other_pos(sac, a_cur));
            let acc2 = if a_cur < sc.a_start {
                acc1.push(ub)
            } else {
                acc1
            };
            if a_cur < sc.a_start {
                lemma_push_side(acc1, ub, b_side);
            }
            let len = if sc.a_len < a_stop - sc.a_start {
                sc.a_len as int
            } else {
                a_stop - sc.a_start
            };
            let bp2 = b_base + (sc.a_start - sb.a_start);
            let cb = MergeBlock {
                a_range: rng(sc.a_start as int, sc.a_start + len),
                b_range: rng(bp2, bp2 + len),
                c_range: rng(sc.o_start as int, o_end(sc)),
                details: c_change_kind(sc.a_len as int, sc.o_len as int),
                resolved: None,
            };
            let acc3 = acc2.push(cb);
            lemma_push_side(acc2, cb, b_side);
            let a3 = sc.a_start + len;
            let ci3 = advance(sac, ci1, a3);
            let m = (a_stop - a3) + (sac.len() - ci3);
            if 0 <= m < (a_stop - a_cur) + (sac.len() - ci) {
                lemma_equal_loop_side(sb, a_stop, sac, ci3, a3, acc3, b_side);
            }
        } else {
            lemma_push_side(acc1, unchanged_block(a_cur, a_stop, bp, other_pos(sac, a_cur)), b_side);
        }
    }
}

/// The first change found from `k` on, when there is one, is a change.
proof fn lemma_first_change_is_change(sac: Seq<Span>, k: int, a_cur: int, a_stop: int)
    ensures
        0 <= first_change(sac, k, a_cur, a_stop) < sac.len() ==> !sac[first_change(sac, k, a_cur, a_stop)].equal,
    decreases sac.len() - k,
{
    if 0 <= k < sac.len() && !(!sac[k].equal && a_cur <= sac[k].a_start < a_stop) {
        lemma_first_change_is_change(sac, k + 1, a_cur, a_stop);
    }
}

proof fn lemma_threeway_loop_side(
    sab: Seq<Span>,
    sac: Seq<Span>,
    lb: Seq<LineData>,
    lc: Seq<LineData>,
    i: int,
    ci: int,
    acc: Seq<MergeBlock>,
    b_side: bool,
)
    requires
        side_kinds(acc, b_side),
        b_side ==> all_equal_spans(sac),
        !b_side ==> all_equal_spans(sab),
    ensures
        side_kinds(threeway_loop(sab, sac, lb, lc, i, ci, acc), b_side),
    decreases sab.len() - i,
{
    if 0 <= i < sab.len() {
        let sb = sab[i];
        let (acc1, ci1) = flush_c(sab, sac, ci, sb.a_start as int, acc);
        lemma_flush_c_side(sab, sac, ci, sb.a_start as int, acc, b_side);
        if sb.equal {
            let (acc2, ci2) = equal_loop(sb, a_end(sb), sac, ci1, sb.a_start as int, acc1);
            lemma_equal_loop_side(sb, a_end(sb), sac, ci1, sb.a_start as int, acc1, b_side);
            lemma_threeway_loop_side(sab, sac, lb, lc, i + 1, ci2, acc2, b_side);
        } else {
            let (blk, ci2) = changed_block(sb, sac, ci1, lb, lc);
            lemma_collect_unchanged(sac, ci1, a_end(sb));
            assert(blk.details == b_change_kind(sb.a_len as int, sb.o_len as int));
            lemma_push_side(acc1, blk, b_side);
            lemma_threeway_loop_side(sab, sac, lb, lc, i + 1, ci2, acc1.push(blk), b_side);
        }
    } else {
        lemma_flush_rest_side(sab, sac, ci, acc, b_side);
    }
}

/// When C changes nothing against the base, every block of the three-way
/// merge is unchanged or a change of B alone; when B changes nothing, every
/// block is unchanged or a change of C alone.
pub proof fn law_threeway_one_side_kinds(
    diff_ab: Seq<Diff>,
    diff_ac: Seq<Diff>,
    lines_b: Seq<LineData>,
    lines_c: Seq<LineData>,
)
    ensures
        ({
            let blocks = threeway_blocks(spans_of(diff_ab), spans_of(diff_ac), lines_b, lines_c);
            &&& no_change(diff_ac) ==> side_kinds(blocks, true)
            &&& no_change(diff_ab) ==> side_kinds(blocks, false)
        }),
{
    let sab = spans_of(diff_ab);
    let sac = spans_of(diff_ac);
    if no_change(diff_ac) {
        lemma_no_change_spans(diff_ac);
        lemma_threeway_loop_side(sab, sac, lines_b, lines_c, 0, 0, Seq::empty(), true);
    }
    if no_change(diff_ab) {
        lemma_no_change_spans(diff_ab);
        lemma_threeway_loop_side(sab, sac, lines_b, lines_c, 0, 0, Seq::empty(), false);
    }
}

/// A three-way merge where C changes nothing against the base, or B changes
/// nothing, has no conflicts; no block of a new three-way merge is resolved,
/// so its unresolved conflicts are all its conflicts.
pub proof fn law_threeway_one_side_unchanged(
    diff_ab: Seq<Diff>,
    diff_ac: Seq<Diff>,
    lines_b: Seq<LineData>,
    lines_c: Seq<LineData>,
)
    ensures
        ({
            let blocks = threeway_blocks(spans_of(diff_ab), spans_of(diff_ac), lines_b, lines_c);
            &&& (no_change(diff_ab) || no_change(diff_ac)) ==> conflicts_in(blocks) == 0
            &&& all_fresh(blocks)
            &&& unresolved_in(blocks) == conflicts_in(blocks)
        }),
{
    let sab = spans_of(diff_ab);
    let sac = spans_of(diff_ac);
    if no_change(diff_ab) {
        lemma_no_change_spans(diff_ab);
    }
    if no_change(diff_ac) {
        lemma_no_change_spans(diff_ac);
    }
    lemma_threeway_loop(sab, sac, lines_b, lines_c, 0, 0, Seq::empty());
    lemma_counts(threeway_blocks(sab, sac, lines_b, lines_c));
}

proof fn lemma_twoway_props(ds: Seq<Diff>)
    ensures
        all_fresh(twoway_blocks(ds)),
        all_calm(twoway_blocks(ds)),
    decreases ds.len(),
{
    if ds.len() > 0 {
        let p = ds.drop_last();
        lemma_twoway_props(p);
        let s0 = twoway_blocks(p);
        let t = twoway_diff_blocks(ds.last(), lines_first(p) as int, lines_second(p) as int);
        let s = twoway_blocks(ds);
        assert forall|k: int| 0 <= k < s.len() implies (#[trigger] s[k]).resolved is None && !s[k].details.conflicting() by {
            if k < s0.len() {
                assert(s[k] == s0[k]);
            } else {
                assert(s[k] == t[k - s0.len()]);
            }
        }
    }
}

/// A two-way merge has no conflicts, and none of its blocks is resolved yet.
pub proof fn law_twoway_no_conflicts(ds: Seq<Diff>)
    ensures
        conflicts_in(twoway_blocks(ds)) == 0,
        unresolved_in(twoway_blocks(ds)) == 0,
        all_fresh(twoway_blocks(ds)),
{
    lemma_twoway_props(ds);
    lemma_counts(twoway_blocks(ds));
}

/// Resolving a block that is an unresolved conflict leaves one unresolved
/// conflict fewer; resolving any other block leaves the number unchanged.
pub proof fn law_resolve_count(blocks: Seq<MergeBlock>, idx: int, c: ResolvedChoice)
    requires
        0 <= idx < blocks.len(),
    ensures
        unresolved_in(blocks.update(idx, MergeBlock { resolved: Some(c), ..blocks[idx] }))
            == unresolved_in(blocks) - if blocks[idx].unresolved_conflict() {
            1int
        } else {
            0int
        },
    decreases blocks.len(),
{
    let nb = MergeBlock { resolved: Some(c), ..blocks[idx] };
    let u = blocks.update(idx, nb);
    if idx == blocks.len() - 1 {
        assert(u.drop_last() =~= blocks.drop_last());
    } else {
        let p = blocks.drop_last();
        law_resolve_count(p, idx, c);
        assert(u.drop_last() =~= p.update(idx, nb));
        assert(u.last() == blocks.last());
    }
}


pub proof fn lemma_range_texts_concat(l: Seq<LineData>, x: int, y: int, z: int)
    requires
        0 <= x <= y <= z <= usize::MAX,
    ensures
        range_texts(l, rng(x, y)) + range_texts(l, rng(y, z)) == range_texts(l, rng(x, z)),
{
    assert(range_texts(l, rng(x, y)) + range_texts(l, rng(y, z)) =~= range_texts(l, rng(x, z)));
}

pub proof fn lemma_merge_output_concat(
    x: Seq<MergeBlock>,
    y: Seq<MergeBlock>,
    la: Seq<LineData>,
    lb: Seq<LineData>,
    lc: Seq<LineData>,
)
    ensures
        merge_output(x + y, la, lb, lc) == merge_output(x, la, lb, lc) + merge_output(y, la, lb, lc),
    decreases y.len(),
{
    if y.len() == 0 {
        assert(x + y =~= x);
    } else {
        lemma_merge_output_concat(x, y.drop_last(), la, lb, lc);
        assert((x + y).drop_last() =~= x + y.drop_last());
        assert((x + y).last() == y.last());
    }
}

#[verifier::spinoff_prover]
#[verifier::rlimit(40)]
proof fn lemma_twoway_chosen_output(
    ds: Seq<Diff>,
    c: ResolvedChoice,
    la: Seq<LineData>,
    lb: Seq<LineData>,
    lc: Seq<LineData>,
)
    requires
        c == ResolvedChoice::A || c == ResolvedChoice::B,
        lines_first(ds) <= usize::MAX,
        lines_second(ds) <= usize::MAX,
    ensures
        merge_output(resolve_all(twoway_blocks(ds), c), la, lb, lc) == if c == ResolvedChoice::A {
            range_texts(la, rng(0, lines_first(ds) as int))
        } else {
            range_texts(lb, rng(0, lines_second(ds) as int))
        },
    decreases ds.len(),
{
    if ds.len() == 0 {
        assert(resolve_all(twoway_blocks(ds), c) =~= Seq::<MergeBlock>::empty());
        assert(range_texts(la, rng(0, 0)) =~= Seq::<Seq<char>>::empty());
        assert(range_texts(lb, rng(0, 0)) =~= Seq::<Seq<char>>::empty());
    } else {
        let p = ds.drop_last();
        let d = ds.last();
        let a = lines_first(p) as int;
        let b = lines_second(p) as int;
        lemma_twoway_chosen_output(p, c, la, lb, lc);
        let s0 = twoway_blocks(p);
        let t = twoway_diff_blocks(d, a, b);
        assert(resolve_all(s0 + t, c) =~= resolve_all(s0, c) + resolve_all(t, c));
        lemma_merge_output_concat(resolve_all(s0, c), resolve_all(t, c), la, lb, lc);
        let lines = if c == ResolvedChoice::A {
            la
        } else {
            lb
        };
        let start = if c == ResolvedChoice::A {
            a
        } else {
            b
        };
        let mid = start + d.nof_equals;
        let stop = if c == ResolvedChoice::A {
            mid + d.diff1
        } else {
            mid + d.diff2
        };
        let rt = resolve_all(t, c);
        let eq_out = range_texts(lines, rng(start, mid));
        let ch_out = range_texts(lines, rng(mid, stop));
        assert(range_texts(lines, rng(start, start)) =~= Seq::<Seq<char>>::empty());
        assert(range_texts(lines, rng(mid, mid)) =~= Seq::<Seq<char>>::empty());
        let changed = d.diff1 > 0 || d.diff2 > 0;
        if d.nof_equals > 0 && changed {
            assert(rt.len() == 2);
            assert(rt.drop_last().drop_last() =~= Seq::<MergeBlock>::empty());
            assert(block_output(rt[0], la, lb, lc) == eq_out);
            assert(block_output(rt[1], la, lb, lc) == ch_out);
            assert(merge_output(rt.drop_last().drop_last(), la, lb, lc) =~= Seq::<Seq<char>>::empty());
            assert(rt.drop_last().last() == rt[0]);
            assert(merge_output(rt.drop_last(), la, lb, lc) =~= eq_out);
            assert(merge_output(rt, la, lb, lc) =~= eq_out + ch_out);
        } else if d.nof_equals > 0 {
            assert(rt.len() == 1);
            assert(rt.drop_last() =~= Seq::<MergeBlock>::empty());
            assert(block_output(rt[0], la, lb, lc) == eq_out);
            assert(ch_out =~= Seq::<Seq<char>>::empty());
            assert(merge_output(rt.drop_last(), la, lb, lc) =~= Seq::<Seq<char>>::empty());
            assert(rt.last() == rt[0]);
            assert(merge_output(rt, la, lb, lc) =~= eq_out + ch_out);
        } else if changed {
            assert(rt.len() == 1);
            assert(rt.drop_last() =~= Seq::<MergeBlock>::empty());
            assert(block_output(rt[0], la, lb, lc) == ch_out);
            assert(eq_out =~= Seq::<Seq<char>>::empty());
            assert(merge_output(rt.drop_last(), la, lb, lc) =~= Seq::<Seq<char>>::empty());
            assert(rt.last() == rt[0]);
            assert(merge_output(rt, la, lb, lc) =~= eq_out + ch_out);
        } else {
            assert(rt.len() == 0);
            assert(eq_out =~= Seq::<Seq<char>>::empty());
            assert(ch_out =~= Seq::<Seq<char>>::empty());
            assert(merge_output(rt, la, lb, lc) =~= eq_out + ch_out);
        }
        lemma_range_texts_concat(lines, 0, start, mid);
        lemma_range_texts_concat(lines, 0, mid, stop);
    }
}

/// In a two-way merge of A and B, choosing A for every block outputs exactly
/// the lines of A, and choosing B for every block outputs exactly the lines
/// of B, when the diff describes all lines of both files.
pub proof fn law_twoway_choice_reproduces_side(
    ds: Seq<Diff>,
    la: Seq<LineData>,
    lb: Seq<LineData>,
    lc: Seq<LineData>,
)
    requires
        lines_first(ds) == la.len(),
        lines_second(ds) == lb.len(),
        la.len() <= usize::MAX,
        lb.len() <= usize::MAX,
    ensures
        merge_output(resolve_all(twoway_blocks(ds), ResolvedChoice::A), la, lb, lc) == all_texts(la),
        merge_output(resolve_all(twoway_blocks(ds), ResolvedChoice::B), la, lb, lc) == all_texts(lb),
{
    lemma_twoway_chosen_output(ds, ResolvedChoice::A, la, lb, lc);
    lemma_twoway_chosen_output(ds, ResolvedChoice::B, la, lb, lc);
    assert(range_texts(la, rng(0, la.len() as int)) =~= all_texts(la));
    assert(range_texts(lb, rng(0, lb.len() as int)) =~= all_texts(lb));
}

/// Where a run of `n` lines pairs equal texts, A's lines of the run give
/// the same output texts as B's.
proof fn lemma_equal_run_texts(la: Seq<LineData>, lb: Seq<LineData>, a: int, b: int, n: int)
    requires
        0 <= a,
        0 <= b,
        0 <= n,
        a + n <= la.len(),
        b + n <= lb.len(),
        a + n <= usize::MAX,
        b + n <= usize::MAX,
        forall|j: int| 0 <= j < n ==> #[trigger] all_texts(la)[a + j] == all_texts(lb)[b + j],
    ensures
        range_texts(la, rng(a, a + n)) == range_texts(lb, rng(b, b + n)),
{
    assert forall|k: int| 0 <= k < n implies (#[trigger] la[a + k]).text() == lb[b + k].text() by {
        assert(all_texts(la)[a + k] == all_texts(lb)[b + k]);
    }
    assert(range_texts(la, rng(a, a + n)) =~= range_texts(lb, rng(b, b + n)));
}

#[verifier::spinoff_prover]
proof fn lemma_twoway_auto_output(ds: Seq<Diff>, la: Seq<LineData>, lb: Seq<LineData>, lc: Seq<LineData>)
    requires
        lines_first(ds) <= la.len(),
        lines_second(ds) <= lb.len(),
        la.len() <= usize::MAX,
        lb.len() <= usize::MAX,
        runs_match(ds, all_texts(la), all_texts(lb)),
    ensures
        merge_output(twoway_blocks(ds), la, lb, lc) == range_texts(lb, rng(0, lines_second(ds) as int)),
    decreases ds.len(),
{
    if ds.len() == 0 {
        assert(twoway_blocks(ds) =~= Seq::<MergeBlock>::empty());
        assert(range_texts(lb, rng(0, 0)) =~= Seq::<Seq<char>>::empty());
    } else {
        let p = ds.drop_last();
        let d = ds.last();
        let a = lines_first(p) as int;
        let b = lines_second(p) as int;
        lemma_twoway_auto_output(p, la, lb, lc);
        let s0 = twoway_blocks(p);
        let t = twoway_diff_blocks(d, a, b);
        lemma_merge_output_concat(s0, t, la, lb, lc);
        let mid = b + d.nof_equals;
        let stop = mid + d.diff2;
        let eq_out = range_texts(lb, rng(b, mid));
        let ch_out = range_texts(lb, rng(mid, stop));
        lemma_equal_run_texts(la, lb, a, b, d.nof_equals as int);
        assert(range_texts(lb, rng(b, b)) =~= Seq::<Seq<char>>::empty());
        assert(range_texts(lb, rng(mid, mid)) =~= Seq::<Seq<char>>::empty());
        let changed = d.diff1 > 0 || d.diff2 > 0;
        if d.nof_equals > 0 && changed {
            assert(t.len() == 2);
            assert(block_output(t[0], la, lb, lc) == eq_out);
            assert(block_output(t[1], la, lb, lc) == ch_out);
            assert(t.drop_last().drop_last() =~= Seq::<MergeBlock>::empty());
            assert(merge_output(t.drop_last().drop_last(), la, lb, lc) =~= Seq::<Seq<char>>::empty());
            assert(t.drop_last().last() == t[0]);
            assert(merge_output(t.drop_last(), la, lb, lc) =~= eq_out);
            assert(merge_output(t, la, lb, lc) =~= eq_out + ch_out);
        } else if d.nof_equals > 0 {
            assert(t.len() == 1);
            assert(t.drop_last() =~= Seq::<MergeBlock>::empty());
            assert(block_output(t[0], la, lb, lc) == eq_out);
            assert(ch_out =~= Seq::<Seq<char>>::empty());
            assert(merge_output(t.drop_last(), la, lb, lc) =~= Seq::<Seq<char>>::empty());
            assert(t.last() == t[0]);
            assert(merge_output(t, la, lb, lc) =~= eq_out + ch_out);
        } else if changed {
            assert(t.len() == 1);
            assert(t.drop_last() =~= Seq::<MergeBlock>::empty());
            assert(block_output(t[0], la, lb, lc) == ch_out);
            assert(eq_out =~= Seq::<Seq<char>>::empty());
            assert(merge_output(t.drop_last(), la, lb, lc) =~= Seq::<Seq<char>>::empty());
            assert(t.last() == t[0]);
            assert(merge_output(t, la, lb, lc) =~= eq_out + ch_out);
        } else {
            assert(t.len() == 0);
            assert(eq_out =~= Seq::<Seq<char>>::empty());
            assert(ch_out =~= Seq::<Seq<char>>::empty());
            assert(merge_output(t, la, lb, lc) =~= eq_out + ch_out);
        }
        lemma_range_texts_concat(lb, 0, b, mid);
        lemma_range_texts_concat(lb, 0, mid, stop);
    }
}

/// A two-way merge of A and B whose blocks keep their automatic choices
/// outputs exactly the lines of B, when the diff describes all lines of both
/// files and its equal runs pair lines with the same text.
pub proof fn law_twoway_automatic_reproduces_b(
    ds: Seq<Diff>,
    la: Seq<LineData>,
    lb: Seq<LineData>,
    lc: Seq<LineData>,
)
    requires
        lines_first(ds) == la.len(),
        lines_second(ds) == lb.len(),
        la.len() <= usize::MAX,
        lb.len() <= usize::MAX,
        runs_match(ds, all_texts(la), all_texts(lb)),
    ensures
        merge_output(twoway_blocks(ds), la, lb, lc) == all_texts(lb),
{
    lemma_twoway_auto_output(ds, la, lb, lc);
    assert(range_texts(lb, rng(0, lb.len() as int)) =~= all_texts(lb));
}

/// Every equal span pairs A's lines with lines of the other file that have
/// the same texts.
pub open spec fn spans_match(s: Seq<Span>, la: Seq<LineData>, lo: Seq<LineData>) -> bool {
    forall|k: int|
        0 <= k < s.len() && (#[trigger] s[k]).equal ==> range_texts(la, rng(s[k].a_start as int, a_end(s[k])))
            == range_texts(lo, rng(s[k].o_start as int, o_end(s[k])))
}

/// B's lines of the spans from `i` on, in order.
pub open spec fn b_texts_from(s: Seq<Span>, lb: Seq<LineData>, i: int) -> Seq<Seq<char>>
    decreases s.len() - i,
{
    if 0 <= i < s.len() {
        range_texts(lb, rng(s[i].o_start as int, o_end(s[i]))) + b_texts_from(s, lb, i + 1)
    } else {
        Seq::empty()
    }
}

pub proof fn lemma_spans_match(ds: Seq<Diff>, la: Seq<LineData>, lb: Seq<LineData>)
    requires
        lines_first(ds) <= la.len(),
        lines_second(ds) <= lb.len(),
        la.len() <= usize::MAX,
        lb.len() <= usize::MAX,
        runs_match(ds, all_texts(la), all_texts(lb)),
    ensures
        spans_match(spans_of(ds), la, lb),
    decreases ds.len(),
{
    if ds.len() > 0 {
        let p = ds.drop_last();
        let d = ds.last();
        let a = lines_first(p) as int;
        let o = lines_second(p) as int;
        lemma_spans_match(p, la, lb);
        let s0 = spans_of(p);
        let t = diff_spans(d, a, o);
        let sp = spans_of(ds);
        assert(sp == s0 + t);
        lemma_equal_run_texts(la, lb, a, o, d.nof_equals as int);
        assert forall|k: int| 0 <= k < sp.len() && (#[trigger] sp[k]).equal implies range_texts(
            la,
            rng(sp[k].a_start as int, a_end(sp[k])),
        ) == range_texts(lb, rng(sp[k].o_start as int, o_end(sp[k]))) by {
            if k < s0.len() {
                assert(sp[k] == s0[k]);
            } else {
                assert(sp[k] == t[k - s0.len()]);
            }
        }
    }
}

/// B's lines of well-formed spans from `i` on are B's lines from where span
/// `i` starts to the end of the spans.
proof fn lemma_b_texts_from(s: Seq<Span>, lb: Seq<LineData>, ta: int, to: int, i: int)
    requires
        spans_wf(s, ta, to),
        0 <= i <= s.len(),
    ensures
        b_texts_from(s, lb, i) == range_texts(lb, rng(if i < s.len() { s[i].o_start as int } else { to }, to)),
    decreases s.len() - i,
{
    if i < s.len() {
        lemma_b_texts_from(s, lb, ta, to, i + 1);
        if i + 1 < s.len() {
            assert(s[i + 1].o_start == o_end(s[i]));
        } else {
            assert(s[i] == s.last());
        }
        assert(s[i].o_start <= o_end(s[i]) <= to);
        lemma_range_texts_concat(lb, 0, s[i].o_start as int, o_end(s[i]));
        lemma_range_texts_concat(lb, 0, o_end(s[i]), to);
        lemma_range_texts_concat(lb, s[i].o_start as int, o_end(s[i]), to);
    } else {
        assert(range_texts(lb, rng(to, to)) =~= Seq::<Seq<char>>::empty());
    }
}

proof fn lemma_flush_c_equal(sab: Seq<Span>, sac: Seq<Span>, ci: int, limit: int, acc: Seq<MergeBlock>)
    requires
        all_equal_spans(sac),
    ensures
        flush_c(sab, sac, ci, limit, acc).0 == acc,
    decreases sac.len() - ci,
{
    if 0 <= ci < sac.len() && a_end(sac[ci]) <= limit {
        lemma_flush_c_equal(sab, sac, ci + 1, limit, acc);
    }
}

proof fn lemma_flush_rest_equal(sab: Seq<Span>, sac: Seq<Span>, ci: int, acc: Seq<MergeBlock>)
    requires
        all_equal_spans(sac),
    ensures
        flush_rest(sab, sac, ci, acc) == acc,
    decreases sac.len() - ci,
{
    if 0 <= ci < sac.len() {
        lemma_flush_rest_equal(sab, sac, ci + 1, acc);
    }
}

/// With C unchanged, the three-way blocks from span `i` of the A-B spans on
/// output B's lines of those spans.
proof fn lemma_threeway_c_unchanged(
    sab: Seq<Span>,
    sac: Seq<Span>,
    la: Seq<LineData>,
    lb: Seq<LineData>,
    lc: Seq<LineData>,
    ta: int,
    tb: int,
    i: int,
    ci: int,
    acc: Seq<MergeBlock>,
)
    requires
        all_equal_spans(sac),
        spans_wf(sab, ta, tb),
        spans_match(sab, la, lb),
        0 <= i <= sab.len(),
        0 <= ci,
    ensures
        merge_output(threeway_loop(sab, sac, lb, lc, i, ci, acc), la, lb, lc) == merge_output(acc, la, lb, lc)
            + b_texts_from(sab, lb, i),
    decreases sab.len() - i,
{
    if i < sab.len() {
        let sb = sab[i];
        let (acc1, ci1) = flush_c(sab, sac, ci, sb.a_start as int, acc);
        lemma_flush_c_equal(sab, sac, ci, sb.a_start as int, acc);
        assert(ci1 >= 0) by {
            lemma_flush_c_index(sab, sac, ci, sb.a_start as int, acc);
        }
        let bt = range_texts(lb, rng(sb.o_start as int, o_end(sb)));
        if sb.equal {
            let a_stop = a_end(sb);
            let a_cur = sb.a_start as int;
            let bp = sb.o_start as int + (a_cur - sb.a_start);
            lemma_c_inserts_equal(sac, ci1, a_cur, bp, acc1);
            let k = first_change(sac, ci1, a_cur, a_stop);
            lemma_first_change_is_change(sac, ci1, a_cur, a_stop);
            let ub = unchanged_block(a_cur, a_stop, bp, other_pos(sac, a_cur));
            assert(equal_loop(sb, a_stop, sac, ci1, a_cur, acc1) == (acc1.push(ub), ci1));
            assert(block_output(ub, la, lb, lc) == bt);
            assert(acc1.push(ub).drop_last() =~= acc1);
            lemma_threeway_c_unchanged(sab, sac, la, lb, lc, ta, tb, i + 1, ci1, acc1.push(ub));
        } else {
            let (blk, ci2) = changed_block(sb, sac, ci1, lb, lc);
            lemma_collect_unchanged(sac, ci1, a_end(sb));
            lemma_advance_inside_index(sac, ci1, a_end(sb));
            assert(block_output(blk, la, lb, lc) == bt);
            assert(acc1.push(blk).drop_last() =~= acc1);
            lemma_threeway_c_unchanged(sab, sac, la, lb, lc, ta, tb, i + 1, ci2, acc1.push(blk));
        }
        assert(merge_output(acc, la, lb, lc) + bt + b_texts_from(sab, lb, i + 1) =~= merge_output(
            acc,
            la,
            lb,
            lc,
        ) + b_texts_from(sab, lb, i));
    } else {
        lemma_flush_rest_equal(sab, sac, ci, acc);
        assert(merge_output(acc, la, lb, lc) + b_texts_from(sab, lb, i) =~= merge_output(acc, la, lb, lc));
    }
}

proof fn lemma_flush_c_index(sab: Seq<Span>, sac: Seq<Span>, ci: int, limit: int, acc: Seq<MergeBlock>)
    requires
        0 <= ci,
    ensures
        flush_c(sab, sac, ci, limit, acc).1 >= ci,
    decreases sac.len() - ci,
{
    if 0 <= ci < sac.len() && a_end(sac[ci]) <= limit {
        let acc2 = if sac[ci].equal {
            acc
        } else {
            acc.push(c_only_block(sac[ci], sab))
        };
        lemma_flush_c_index(sab, sac, ci + 1, limit, acc2);
    }
}

proof fn lemma_advance_inside_index(sac: Seq<Span>, ci: int, limit: int)
    requires
        0 <= ci,
    ensures
        crate::merger::advance_inside(sac, ci, limit) >= ci,
    decreases sac.len() - ci,
{
    if 0 <= ci < sac.len() && a_end(sac[ci]) <= limit && sac[ci].a_start < limit {
        lemma_advance_inside_index(sac, ci + 1, limit);
    }
}

proof fn lemma_c_inserts_equal(sac: Seq<Span>, ci: int, a_cur: int, bp: int, acc: Seq<MergeBlock>)
    requires
        all_equal_spans(sac),
    ensures
        c_inserts(sac, ci, a_cur, bp, acc) == (acc, ci),
{
}

/// A three-way merge in which C changes nothing against the base, with the
/// automatic choices, outputs exactly the lines of B, when the A-B diff
/// describes all lines of A and B and its equal runs pair lines with the
/// same text.
pub proof fn law_threeway_c_unchanged_gives_b(
    diff_ab: Seq<Diff>,
    diff_ac: Seq<Diff>,
    la: Seq<LineData>,
    lb: Seq<LineData>,
    lc: Seq<LineData>,
)
    requires
        no_change(diff_ac),
        lines_first(diff_ab) == la.len(),
        lines_second(diff_ab) == lb.len(),
        la.len() <= usize::MAX,
        lb.len() <= usize::MAX,
        runs_match(diff_ab, all_texts(la), all_texts(lb)),
    ensures
        merge_output(threeway_blocks(spans_of(diff_ab), spans_of(diff_ac), lb, lc), la, lb, lc)
            == all_texts(lb),
{
    let sab = spans_of(diff_ab);
    let sac = spans_of(diff_ac);
    lemma_no_change_spans(diff_ac);
    lemma_spans_of_wf(diff_ab);
    lemma_spans_match(diff_ab, la, lb);
    lemma_threeway_c_unchanged(
        sab,
        sac,
        la,
        lb,
        lc,
        la.len() as int,
        lb.len() as int,
        0,
        0,
        Seq::empty(),
    );
    lemma_b_texts_from(sab, lb, la.len() as int, lb.len() as int, 0);
    assert(merge_output(Seq::<MergeBlock>::empty(), la, lb, lc) =~= Seq::<Seq<char>>::empty());
    if sab.len() > 0 {
        assert(sab[0].o_start == 0);
    }
    assert(range_texts(lb, rng(0, lb.len() as int)) =~= all_texts(lb));
    assert(Seq::<Seq<char>>::empty() + b_texts_from(sab, lb, 0) =~= b_texts_from(sab, lb, 0));
}

/// The shape of a two-way block: unchanged lines, as many in A as in B and
/// at least one; lines that B added (none in A, some in B); lines that B
/// deleted (some in A, none in B); or lines that B changed (some on both
/// sides). No other kind occurs.
pub open spec fn twoway_shape(b: MergeBlock) -> bool {
    let na = range_len(b.a_range);
    let nb = range_len(b.b_range);
    match b.details {
        MergeDetails::NoChange => na == nb && na > 0,
        MergeDetails::BAdded => na == 0 && nb > 0,
        MergeDetails::BDeleted => na > 0 && nb == 0,
        MergeDetails::BChanged => na > 0 && nb > 0,
        _ => false,
    }
}

/// Every block of a two-way merge has one of the four two-way shapes and
/// is not resolved yet.
pub proof fn law_twoway_block_shapes(ds: Seq<Diff>)
    requires
        lines_first(ds) <= usize::MAX,
        lines_second(ds) <= usize::MAX,
    ensures
        forall|k: int|
            0 <= k < twoway_blocks(ds).len() ==> twoway_shape(#[trigger] twoway_blocks(ds)[k])
                && twoway_blocks(ds)[k].resolved is None,
    decreases ds.len(),
{
    if ds.len() > 0 {
        let p = ds.drop_last();
        let d = ds.last();
        let a = lines_first(p) as int;
        let b = lines_second(p) as int;
        assert(lines_first(ds) == a + d.nof_equals + d.diff1);
        assert(lines_second(ds) == b + d.nof_equals + d.diff2);
        law_twoway_block_shapes(p);
        let s0 = twoway_blocks(p);
        let t = twoway_diff_blocks(d, a, b);
        let s = twoway_blocks(ds);
        assert(s == s0 + t);
        assert forall|k: int| 0 <= k < t.len() implies twoway_shape(#[trigger] t[k]) && t[k].resolved is None by {
            if d.nof_equals > 0 && k == 0 {
                assert(range_len(t[k].a_range) == d.nof_equals);
                assert(range_len(t[k].b_range) == d.nof_equals);
            } else {
                assert(range_len(t[k].a_range) == d.diff1);
                assert(range_len(t[k].b_range) == d.diff2);
            }
        }
        assert forall|k: int| 0 <= k < s.len() implies twoway_shape(#[trigger] s[k]) && s[k].resolved is None by {
            if k < s0.len() {
                assert(s[k] == s0[k]);
            } else {
                assert(s[k] == t[k - s0.len()]);
            }
        }
    }
}

/// A block marked as changed by both B and C is a conflict exactly when
/// B's lines there differ from C's: a conflicting change of both has
/// differing lines, an agreed one equal lines, and no other kind of block
/// of both sides occurs.
pub open spec fn honest_block(b: MergeBlock, lb: Seq<LineData>, lc: Seq<LineData>) -> bool {
    &&& b.details is BCChanged ==> !ranges_text_equal(b.b_range, lb, b.c_range, lc)
    &&& b.details is BCChangedAndEqual ==> ranges_text_equal(b.b_range, lb, b.c_range, lc)
    &&& !(b.details is BCAdded || b.details is BCAddedAndEqual || b.details is BCDeleted)
}

pub open spec fn all_honest(blocks: Seq<MergeBlock>, lb: Seq<LineData>, lc: Seq<LineData>) -> bool {
    forall|k: int| 0 <= k < blocks.len() ==> honest_block(#[trigger] blocks[k], lb, lc)
}

proof fn lemma_push_honest(acc: Seq<MergeBlock>, b: MergeBlock, lb: Seq<LineData>, lc: Seq<LineData>)
    requires
        all_honest(acc, lb, lc),
        honest_block(b, lb, lc),
    ensures
        all_honest(acc.push(b), lb, lc),
{
    assert forall|k: int| 0 <= k < acc.push(b).len() implies acc.push(b)[k] == if k < acc.len() {
        acc[k]
    } else {
        b
    } by {}
}

proof fn lemma_flush_c_honest(sab: Seq<Span>, sac: Seq<Span>, ci: int, limit: int, acc: Seq<MergeBlock>, lb: Seq<LineData>, lc: Seq<LineData>)
    requires
        all_honest(acc, lb, lc),
    ensures
        all_honest(flush_c(sab, sac, ci, limit, acc).0, lb, lc),
    decreases sac.len() - ci,
{
    if 0 <= ci < sac.len() && a_end(sac[ci]) <= limit {
        let acc2 = if sac[ci].equal {
            acc
        } else {
            acc.push(c_only_block(sac[ci], sab))
        };
        if !sac[ci].equal {
            lemma_push_honest(acc, c_only_block(sac[ci], sab), lb, lc);
        }
        lemma_flush_c_honest(sab, sac, ci + 1, limit, acc2, lb, lc);
    }
}

proof fn lemma_flush_rest_honest(sab: Seq<Span>, sac: Seq<Span>, ci: int, acc: Seq<MergeBlock>, lb: Seq<LineData>, lc: Seq<LineData>)
    requires
        all_honest(acc, lb, lc),
    ensures
        all_honest(flush_rest(sab, sac, ci, acc), lb, lc),
    decreases sac.len() - ci,
{
    if 0 <= ci < sac.len() {
        let acc2 = if sac[ci].equal {
            acc
        } else {
            acc.push(c_only_block(sac[ci], sab))
        };
        if !sac[ci].equal {
            lemma_push_honest(acc, c_only_block(sac[ci], sab), lb, lc);
        }
        lemma_flush_rest_honest(sab, sac, ci + 1, acc2, lb, lc);
    }
}

proof fn lemma_c_inserts_honest(sac: Seq<Span>, ci: int, a_cur: int, bp: int, acc: Seq<MergeBlock>, lb: Seq<LineData>, lc: Seq<LineData>)
    requires
        all_honest(acc, lb, lc),
    ensures
        all_honest(c_inserts(sac, ci, a_cur, bp, acc).0, lb, lc),
    decreases sac.len() - ci,
{
    if 0 <= ci < sac.len() && sac[ci].a_start == a_cur && sac[ci].a_len == 0 {
        let blk = MergeBlock {
            a_range: rng(a_cur, a_cur),
            b_range: rng(bp, bp),
            c_range: rng(sac[ci].o_start as int, o_end(sac[ci])),
            details: MergeDetails::CAdded,
            resolved: None,
        };
        lemma_push_honest(acc, blk, lb, lc);
        lemma_c_inserts_honest(sac, ci + 1, a_cur, bp, acc.push(blk), lb, lc);
    }
}

proof fn lemma_equal_loop_honest(
    sb: Span,
    a_stop: int,
    sac: Seq<Span>,
    ci: int,
    a_cur: int,
    acc: Seq<MergeBlock>,
    lb: Seq<LineData>,
    lc: Seq<LineData>,
)
    requires
        all_honest(acc, lb, lc),
    ensures
        all_honest(equal_loop(sb, a_stop, sac, ci, a_cur, acc).0, lb, lc),
    decreases (a_stop - a_cur) + (sac.len() - ci),
{
    let b_base = sb.o_start as int;
    let bp = b_base + (a_cur - sb.a_start);
    let (acc1, ci1) = c_inserts(sac, ci, a_cur, bp, acc);
    lemma_c_inserts_honest(sac, ci, a_cur, bp, acc, lb, lc);
    if a_cur < a_stop {
        let k = first_change(sac, ci1, a_cur, a_stop);
        if 0 <= k < sac.len() {
            let sc = sac[k];
            let ub = unchanged_block(a_cur, sc.a_start as int, bp, other_pos(sac, a_cur));
            let acc2 = if a_cur < sc.a_start {
                acc1.push(ub)
            } else {
                acc1
            };
            if a_cur < sc.a_start {
                lemma_push_honest(acc1, ub, lb, lc);
            }
            let len = if sc.a_len < a_stop - sc.a_start {
                sc.a_len as int
            } else {
                a_stop - sc.a_start
            };
            let bp2 = b_base + (sc.a_start - sb.a_start);
            let cb = MergeBlock {
                a_range: rng(sc.a_start as int, sc.a_start + len),
                b_range: rng(bp2, bp2 + len),
                c_range: rng(sc.o_start as int, o_end(sc)),
                details: c_change_kind(sc.a_len as int, sc.o_len as int),
                resolved: None,
            };
            let acc3 = acc2.push(cb);
            lemma_push_honest(acc2, cb, lb, lc);
            let a3 = sc.a_start + len;
            let ci3 = advance(sac, ci1, a3);
            let m = (a_stop - a3) + (sac.len() - ci3);
            if 0 <= m < (a_stop - a_cur) + (sac.len() - ci) {
                lemma_equal_loop_honest(sb, a_stop, sac, ci3, a3, acc3, lb, lc);
            }
        } else {
            lemma_push_honest(acc1, unchanged_block(a_cur, a_stop, bp, other_pos(sac, a_cur)), lb, lc);
        }
    }
}

proof fn lemma_threeway_loop_honest(
    sab: Seq<Span>,
    sac: Seq<Span>,
    lb: Seq<LineData>,
    lc: Seq<LineData>,
    i: int,
    ci: int,
    acc: Seq<MergeBlock>,
)
    requires
        all_honest(acc, lb, lc),
    ensures
        all_honest(threeway_loop(sab, sac, lb, lc, i, ci, acc), lb, lc),
    decreases sab.len() - i,
{
    if 0 <= i < sab.len() {
        let sb = sab[i];
        let (acc1, ci1) = flush_c(sab, sac, ci, sb.a_start as int, acc);
        lemma_flush_c_honest(sab, sac, ci, sb.a_start as int, acc, lb, lc);
        if sb.equal {
            let (acc2, ci2) = equal_loop(sb, a_end(sb), sac, ci1, sb.a_start as int, acc1);
            lemma_equal_loop_honest(sb, a_end(sb), sac, ci1, sb.a_start as int, acc1, lb, lc);
            lemma_threeway_loop_honest(sab, sac, lb, lc, i + 1, ci2, acc2);
        } else {
            let (blk, ci2) = changed_block(sb, sac, ci1, lb, lc);
            lemma_push_honest(acc1, blk, lb, lc);
            lemma_threeway_loop_honest(sab, sac, lb, lc, i + 1, ci2, acc1.push(blk));
        }
    } else {
        lemma_flush_rest_honest(sab, sac, ci, acc, lb, lc);
    }
}

/// In a three-way merge, a block is a conflict exactly where B and C both
/// changed the same lines of the base and B's new lines differ from C's;
/// where both made the same change, the block is an agreed change.
pub proof fn law_threeway_conflicts_differ(
    diff_ab: Seq<Diff>,
    diff_ac: Seq<Diff>,
    lines_b: Seq<LineData>,
    lines_c: Seq<LineData>,
)
    ensures
        ({
            let blocks = threeway_blocks(spans_of(diff_ab), spans_of(diff_ac), lines_b, lines_c);
            forall|k: int|
                0 <= k < blocks.len() ==> {
                    let b = #[trigger] blocks[k];
                    let both = b.details is BCChanged || b.details is BCChangedAndEqual;
                    &&& b.details.conflicting() <==> (both && !ranges_text_equal(
                        b.b_range,
                        lines_b,
                        b.c_range,
                        lines_c,
                    ))
                    &&& b.details is BCChangedAndEqual ==> ranges_text_equal(
                        b.b_range,
                        lines_b,
                        b.c_range,
                        lines_c,
                    )
                }
        }),
{
    let sab = spans_of(diff_ab);
    let sac = spans_of(diff_ac);
    lemma_threeway_loop_honest(sab, sac, lines_b, lines_c, 0, 0, Seq::empty());
    let blocks = threeway_blocks(sab, sac, lines_b, lines_c);
    assert forall|k: int| 0 <= k < blocks.len() implies honest_block(#[trigger] blocks[k], lines_b, lines_c) by {}
}

/// The output of an unresolved conflict shows every side: it opens with the
/// base marker, holds A's lines of the block after it and B's lines after
/// the B marker, holds C's lines after the C marker whenever the block
/// covers lines of C (whatever B's range), and closes with the end marker.
pub proof fn law_conflict_output_shows_all_sides(
    b: MergeBlock,
    la: Seq<LineData>,
    lb: Seq<LineData>,
    lc: Seq<LineData>,
)
    requires
        b.choice() is None,
    ensures
        ({
            let o = block_output(b, la, lb, lc);
            let ta = range_texts(la, b.a_range);
            let tb = range_texts(lb, b.b_range);
            let tc = range_texts(lc, b.c_range);
            let na = ta.len() as int;
            let nb = tb.len() as int;
            let nc = tc.len() as int;
            &&& o[0] == "<<<<<<< A (base)"@
            &&& o.subrange(1, 1 + na) == ta
            &&& o[1 + na] == "||||||| B"@
            &&& o.subrange(2 + na, 2 + na + nb) == tb
            &&& o.last() == ">>>>>>>"@
            &&& b.c_range.start < b.c_range.end ==> {
                &&& o.len() == 4 + na + nb + nc
                &&& o[2 + na + nb] == "======= C"@
                &&& o.subrange(3 + na + nb, 3 + na + nb + nc) == tc
            }
            &&& !(b.c_range.start < b.c_range.end) ==> o.len() == 3 + na + nb
        }),
{
    let o = block_output(b, la, lb, lc);
    let ta = range_texts(la, b.a_range);
    let tb = range_texts(lb, b.b_range);
    let tc = range_texts(lc, b.c_range);
    let na = ta.len() as int;
    let nb = tb.len() as int;
    let nc = tc.len() as int;
    let head = seq!["<<<<<<< A (base)"@] + ta + seq!["||||||| B"@] + tb;
    if b.c_range.start < b.c_range.end {
        assert(o == head + (seq!["======= C"@] + tc) + seq![">>>>>>>"@]);
    } else {
        assert(o == head + Seq::<Seq<char>>::empty() + seq![">>>>>>>"@]);
    }
    assert(head.len() == 2 + na + nb);
    assert(head[0] == "<<<<<<< A (base)"@);
    assert(head[1 + na] == "||||||| B"@);
    assert(o[0] == head[0]);
    assert(o[1 + na] == head[1 + na]);
    assert(o.last() == ">>>>>>>"@);
    assert(o.subrange(1, 1 + na) =~= ta);
    assert(o.subrange(2 + na, 2 + na + nb) =~= tb);
    if b.c_range.start < b.c_range.end {
        assert(o[2 + na + nb] == "======= C"@);
        assert(o.subrange(3 + na + nb, 3 + na + nb + nc) =~= tc);
        assert(o.len() == 4 + na + nb + nc);
    } else {
        assert(o.len() == 3 + na + nb);
    }
    assert(o[0] == "<<<<<<< A (base)"@);
    assert(o.subrange(1, 1 + na) == ta);
    assert(o[1 + na] == "||||||| B"@);
    assert(o.subrange(2 + na, 2 + na + nb) == tb);
}

/// A block of C's changes alone covers all of the lines that C put in place
/// of a change: its C range is the whole C side of one change span of C,
/// and it starts where that change starts in A.
pub open spec fn c_block_from_span(b: MergeBlock, sac: Seq<Span>) -> bool {
    (b.details is CAdded || b.details is CDeleted || b.details is CChanged) ==> exists|k: int|
        0 <= k < sac.len() && !(#[trigger] sac[k]).equal && b.c_range == rng(
            sac[k].o_start as int,
            o_end(sac[k]),
        ) && b.a_range.start == sac[k].a_start
}

pub open spec fn all_c_blocks_from_spans(blocks: Seq<MergeBlock>, sac: Seq<Span>) -> bool {
    forall|k: int| 0 <= k < blocks.len() ==> c_block_from_span(#[trigger] blocks[k], sac)
}

/// Every equal span of a diff list has lines.
pub proof fn lemma_equal_spans_nonempty(ds: Seq<Diff>)
    ensures
        forall|j: int| 0 <= j < spans_of(ds).len() && (#[trigger] spans_of(ds)[j]).equal ==> spans_of(ds)[j].a_len > 0,
    decreases ds.len(),
{
    if ds.len() > 0 {
        let p = ds.drop_last();
        lemma_equal_spans_nonempty(p);
        let s0 = spans_of(p);
        let t = diff_spans(ds.last(), lines_first(p) as int, lines_second(p) as int);
        assert forall|j: int| 0 <= j < spans_of(ds).len() && (#[trigger] spans_of(ds)[j]).equal implies spans_of(ds)[j].a_len > 0 by {
            if j < s0.len() {
                assert(spans_of(ds)[j] == s0[j]);
            } else {
                assert(spans_of(ds)[j] == t[j - s0.len()]);
            }
        }
    }
}

pub open spec fn equal_spans_nonempty(sac: Seq<Span>) -> bool {
    forall|j: int| 0 <= j < sac.len() && (#[trigger] sac[j]).equal ==> sac[j].a_len > 0
}

proof fn lemma_push_c_block(acc: Seq<MergeBlock>, b: MergeBlock, sac: Seq<Span>)
    requires
        all_c_blocks_from_spans(acc, sac),
        c_block_from_span(b, sac),
    ensures
        all_c_blocks_from_spans(acc.push(b), sac),
{
    assert forall|k: int| 0 <= k < acc.push(b).len() implies acc.push(b)[k] == if k < acc.len() {
        acc[k]
    } else {
        b
    } by {}
}

proof fn lemma_c_only_block_from_span(sab: Seq<Span>, sac: Seq<Span>, ci: int)
    requires
        0 <= ci < sac.len(),
        !sac[ci].equal,
    ensures
        c_block_from_span(c_only_block(sac[ci], sab), sac),
{
    let b = c_only_block(sac[ci], sab);
    assert(b.c_range == rng(sac[ci].o_start as int, o_end(sac[ci])));
}

proof fn lemma_flush_c_cblocks(sab: Seq<Span>, sac: Seq<Span>, ci: int, limit: int, acc: Seq<MergeBlock>)
    requires
        all_c_blocks_from_spans(acc, sac),
    ensures
        all_c_blocks_from_spans(flush_c(sab, sac, ci, limit, acc).0, sac),
    decreases sac.len() - ci,
{
    if 0 <= ci < sac.len() && a_end(sac[ci]) <= limit {
        let acc2 = if sac[ci].equal {
            acc
        } else {
            acc.push(c_only_block(sac[ci], sab))
        };
        if !sac[ci].equal {
            lemma_c_only_block_from_span(sab, sac, ci);
            lemma_push_c_block(acc, c_only_block(sac[ci], sab), sac);
        }
        lemma_flush_c_cblocks(sab, sac, ci + 1, limit, acc2);
    }
}

proof fn lemma_flush_rest_cblocks(sab: Seq<Span>, sac: Seq<Span>, ci: int, acc: Seq<MergeBlock>)
    requires
        all_c_blocks_from_spans(acc, sac),
    ensures
        all_c_blocks_from_spans(flush_rest(sab, sac, ci, acc), sac),
    decreases sac.len() - ci,
{
    if 0 <= ci < sac.len() {
        let acc2 = if sac[ci].equal {
            acc
        } else {
            acc.push(c_only_block(sac[ci], sab))
        };
        if !sac[ci].equal {
            lemma_c_only_block_from_span(sab, sac, ci);
            lemma_push_c_block(acc, c_only_block(sac[ci], sab), sac);
        }
        lemma_flush_rest_cblocks(sab, sac, ci + 1, acc2);
    }
}

proof fn lemma_c_inserts_cblocks(sac: Seq<Span>, ci: int, a_cur: int, bp: int, acc: Seq<MergeBlock>)
    requires
        all_c_blocks_from_spans(acc, sac),
        equal_spans_nonempty(sac),
    ensures
        all_c_blocks_from_spans(c_inserts(sac, ci, a_cur, bp, acc).0, sac),
    decreases sac.len() - ci,
{
    if 0 <= ci < sac.len() && sac[ci].a_start == a_cur && sac[ci].a_len == 0 {
        let blk = MergeBlock {
            a_range: rng(a_cur, a_cur),
            b_range: rng(bp, bp),
            c_range: rng(sac[ci].o_start as int, o_end(sac[ci])),
            details: MergeDetails::CAdded,
            resolved: None,
        };
        assert(!sac[ci].equal);
        assert(c_block_from_span(blk, sac));
        lemma_push_c_block(acc, blk, sac);
        lemma_c_inserts_cblocks(sac, ci + 1, a_cur, bp, acc.push(blk));
    }
}

proof fn lemma_equal_loop_cblocks(
    sb: Span,
    a_stop: int,
    sac: Seq<Span>,
    ci: int,
    a_cur: int,
    acc: Seq<MergeBlock>,
)
    requires
        all_c_blocks_from_spans(acc, sac),
        equal_spans_nonempty(sac),
    ensures
        all_c_blocks_from_spans(equal_loop(sb, a_stop, sac, ci, a_cur, acc).0, sac),
    decreases (a_stop - a_cur) + (sac.len() - ci),
{
    let b_base = sb.o_start as int;
    let bp = b_base + (a_cur - sb.a_start);
    let (acc1, ci1) = c_inserts(sac, ci, a_cur, bp, acc);
    lemma_c_inserts_cblocks(sac, ci, a_cur, bp, acc);
    if a_cur < a_stop {
        let k = first_change(sac, ci1, a_cur, a_stop);
        if 0 <= k < sac.len() {
            lemma_first_change_is_change(sac, ci1, a_cur, a_stop);
            let sc = sac[k];
            let ub = unchanged_block(a_cur, sc.a_start as int, bp, other_pos(sac, a_cur));
            let acc2 = if a_cur < sc.a_start {
                acc1.push(ub)
            } else {
                acc1
            };
            if a_cur < sc.a_start {
                lemma_push_c_block(acc1, ub, sac);
            }
            let len = if sc.a_len < a_stop - sc.a_start {
                sc.a_len as int
            } else {
                a_stop - sc.a_start
            };
            let bp2 = b_base + (sc.a_start - sb.a_start);
            let cb = MergeBlock {
                a_range: rng(sc.a_start as int, sc.a_start + len),
                b_range: rng(bp2, bp2 + len),
                c_range: rng(sc.o_start as int, o_end(sc)),
                details: c_change_kind(sc.a_len as int, sc.o_len as int),
                resolved: None,
            };
            assert(c_block_from_span(cb, sac)) by {
                assert(!sac[k].equal);
            }
            let acc3 = acc2.push(cb);
            lemma_push_c_block(acc2, cb, sac);
            let a3 = sc.a_start + len;
            let ci3 = advance(sac, ci1, a3);
            let m = (a_stop - a3) + (sac.len() - ci3);
            if 0 <= m < (a_stop - a_cur) + (sac.len() - ci) {
                lemma_equal_loop_cblocks(sb, a_stop, sac, ci3, a3, acc3);
            }
        } else {
            lemma_push_c_block(acc1, unchanged_block(a_cur, a_stop, bp, other_pos(sac, a_cur)), sac);
        }
    }
}

proof fn lemma_threeway_loop_cblocks(
    sab: Seq<Span>,
    sac: Seq<Span>,
    lb: Seq<LineData>,
    lc: Seq<LineData>,
    i: int,
    ci: int,
    acc: Seq<MergeBlock>,
)
    requires
        all_c_blocks_from_spans(acc, sac),
        equal_spans_nonempty(sac),
    ensures
        all_c_blocks_from_spans(threeway_loop(sab, sac, lb, lc, i, ci, acc), sac),
    decreases sab.len() - i,
{
    if 0 <= i < sab.len() {
        let sb = sab[i];
        let (acc1, ci1) = flush_c(sab, sac, ci, sb.a_start as int, acc);
        lemma_flush_c_cblocks(sab, sac, ci, sb.a_start as int, acc);
        if sb.equal {
            let (acc2, ci2) = equal_loop(sb, a_end(sb), sac, ci1, sb.a_start as int, acc1);
            lemma_equal_loop_cblocks(sb, a_end(sb), sac, ci1, sb.a_start as int, acc1);
            lemma_threeway_loop_cblocks(sab, sac, lb, lc, i + 1, ci2, acc2);
        } else {
            let (blk, ci2) = changed_block(sb, sac, ci1, lb, lc);
            lemma_push_c_block(acc1, blk, sac);
            lemma_threeway_loop_cblocks(sab, sac, lb, lc, i + 1, ci2, acc1.push(blk));
        }
    } else {
        lemma_flush_rest_cblocks(sab, sac, ci, acc);
    }
}

/// In a three-way merge, every block of C's changes alone keeps all of the
/// lines that C wrote there: its C range is the whole C side of one of C's
/// changes, starting where that change starts in A.
pub proof fn law_threeway_c_blocks_keep_c_lines(
    diff_ab: Seq<Diff>,
    diff_ac: Seq<Diff>,
    lines_b: Seq<LineData>,
    lines_c: Seq<LineData>,
)
    ensures
        all_c_blocks_from_spans(
            threeway_blocks(spans_of(diff_ab), spans_of(diff_ac), lines_b, lines_c),
            spans_of(diff_ac),
        ),
{
    lemma_equal_spans_nonempty(diff_ac);
    lemma_threeway_loop_cblocks(spans_of(diff_ab), spans_of(diff_ac), lines_b, lines_c, 0, 0, Seq::empty());
}

} // verus!
