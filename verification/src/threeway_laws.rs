use vstd::prelude::*;

use crate::diff::{grouped, lines_first, lines_second, runs_match, Diff};
use crate::line_data::{all_texts, LineData};
use crate::merge_laws::{
    equal_spans_nonempty, lemma_equal_spans_nonempty, lemma_merge_output_concat,
    lemma_range_texts_concat, lemma_spans_match, spans_match,
};
use crate::merger::{
    a_end, advance, block_output, c_change_kind, c_inserts, c_only_block, diff_spans, equal_loop,
    first_change, flush_c, flush_rest, lemma_spans_of_wf, merge_output, o_end, other_pos,
    range_texts, rng, spans_of, spans_wf, threeway_blocks, threeway_loop, unchanged_block,
    MergeBlock, MergeDetails, Span,
};

verus! {

/// Consecutive spans take turns between equal runs and changes.
pub open spec fn alternating(s: Seq<Span>) -> bool {
    forall|k: int| 0 <= k < s.len() - 1 ==> (#[trigger] s[k]).equal != s[k + 1].equal
}

proof fn lemma_grouped_spans(ds: Seq<Diff>)
    requires
        grouped(ds),
    ensures
        spans_of(ds).len() == ds.len(),
        forall|k: int| 0 <= k < ds.len() ==> (#[trigger] spans_of(ds)[k]).equal == (ds[k].nof_equals > 0),
    decreases ds.len(),
{
    if ds.len() > 0 {
        let p = ds.drop_last();
        assert(grouped(p)) by {
            assert forall|k: int| 0 <= k < p.len() implies #[trigger] p[k] == ds[k] by {}
        }
        lemma_grouped_spans(p);
        let d = ds.last();
        assert(d == ds[ds.len() - 1]);
        let t = diff_spans(d, lines_first(p) as int, lines_second(p) as int);
        assert(t.len() == 1);
        assert(spans_of(ds) == spans_of(p) + t);
        assert forall|k: int| 0 <= k < ds.len() implies (#[trigger] spans_of(ds)[k]).equal == (
        ds[k].nof_equals > 0) by {
            if k < p.len() {
                assert(spans_of(ds)[k] == spans_of(p)[k]);
                assert(p[k] == ds[k]);
            } else {
                assert(spans_of(ds)[k] == t[0]);
            }
        }
    }
}

proof fn lemma_grouped_alternating(ds: Seq<Diff>)
    requires
        grouped(ds),
    ensures
        alternating(spans_of(ds)),
{
    lemma_grouped_spans(ds);
    let s = spans_of(ds);
    assert forall|k: int| 0 <= k < s.len() - 1 implies (#[trigger] s[k]).equal != s[k + 1].equal by {
        assert(s[k].equal == (ds[k].nof_equals > 0));
        assert(s[k + 1].equal == (ds[k + 1].nof_equals > 0));
    }
}

/// The lines of C up to line `p`.
pub open spec fn c_out(lc: Seq<LineData>, p: int) -> Seq<Seq<char>> {
    range_texts(lc, rng(0, p))
}

/// The line of C that belongs to line `a_cur` of A at span `ci`.
pub open spec fn cpos(sac: Seq<Span>, ci: int, a_cur: int, tc: int) -> int {
    if 0 <= ci < sac.len() {
        sac[ci].o_start + (a_cur - sac[ci].a_start)
    } else {
        tc
    }
}

/// Line `a_cur` of A lies at span `ci`: the span starts there, or it is an
/// equal run that holds it; past the last span `a_cur` is the end of A.
pub open spec fn at_pos(sac: Seq<Span>, ci: int, a_cur: int, n: int) -> bool {
    &&& 0 <= ci <= sac.len()
    &&& 0 <= a_cur <= n
    &&& ci < sac.len() ==> (sac[ci].a_start == a_cur || (sac[ci].equal && sac[ci].a_start < a_cur
        < a_end(sac[ci])))
    &&& ci == sac.len() ==> a_cur == n
}

/// The spans of C against A, with A's `n` lines and C's lines: well formed,
/// alternating, equal runs non-empty and pairing equal texts.
pub open spec fn walk_ok(sac: Seq<Span>, la: Seq<LineData>, lc: Seq<LineData>) -> bool {
    &&& spans_wf(sac, la.len() as int, lc.len() as int)
    &&& alternating(sac)
    &&& equal_spans_nonempty(sac)
    &&& spans_match(sac, la, lc)
}

proof fn lemma_push_output(acc: Seq<MergeBlock>, b: MergeBlock, la: Seq<LineData>, lb: Seq<LineData>, lc: Seq<LineData>)
    ensures
        merge_output(acc.push(b), la, lb, lc) == merge_output(acc, la, lb, lc) + block_output(b, la, lb, lc),
{
    assert(acc.push(b).drop_last() =~= acc);
}

/// A change span of C, output in full, moves the output to its end.
proof fn lemma_c_span_output(
    sac: Seq<Span>,
    ci: int,
    b: MergeBlock,
    acc: Seq<MergeBlock>,
    la: Seq<LineData>,
    lb: Seq<LineData>,
    lc: Seq<LineData>,
)
    requires
        walk_ok(sac, la, lc),
        0 <= ci < sac.len(),
        b.c_range == rng(sac[ci].o_start as int, o_end(sac[ci])),
        b.resolved is None,
        b.details == c_change_kind(sac[ci].a_len as int, sac[ci].o_len as int),
        merge_output(acc, la, lb, lc) == c_out(lc, sac[ci].o_start as int),
    ensures
        merge_output(acc.push(b), la, lb, lc) == c_out(lc, o_end(sac[ci])),
{
    lemma_push_output(acc, b, la, lb, lc);
    lemma_range_texts_concat(lc, 0, sac[ci].o_start as int, o_end(sac[ci]));
}

/// C's insertions at `a_cur` keep the walk in place and output C's lines.
#[verifier::spinoff_prover]
#[verifier::rlimit(40)]
proof fn lemma_c_inserts_walk(
    sac: Seq<Span>,
    ci: int,
    a_cur: int,
    bp: int,
    acc: Seq<MergeBlock>,
    la: Seq<LineData>,
    lb: Seq<LineData>,
    lc: Seq<LineData>,
)
    requires
        walk_ok(sac, la, lc),
        at_pos(sac, ci, a_cur, la.len() as int),
        merge_output(acc, la, lb, lc) == c_out(lc, cpos(sac, ci, a_cur, lc.len() as int)),
    ensures
        ({
            let (acc1, ci1) = c_inserts(sac, ci, a_cur, bp, acc);
            &&& at_pos(sac, ci1, a_cur, la.len() as int)
            &&& merge_output(acc1, la, lb, lc) == c_out(lc, cpos(sac, ci1, a_cur, lc.len() as int))
            &&& ci1 < sac.len() ==> !(sac[ci1].a_start == a_cur && sac[ci1].a_len == 0)
        }),
    decreases sac.len() - ci,
{
    if 0 <= ci < sac.len() && sac[ci].a_start == a_cur && sac[ci].a_len == 0 {
        let s = sac[ci];
        assert(!s.equal);
        let blk = MergeBlock {
            a_range: rng(a_cur, a_cur),
            b_range: rng(bp, bp),
            c_range: rng(s.o_start as int, o_end(s)),
            details: MergeDetails::CAdded,
            resolved: None,
        };
        lemma_c_span_output(sac, ci, blk, acc, la, lb, lc);
        if ci + 1 < sac.len() {
            assert(sac[ci + 1].a_start == a_end(s) && sac[ci + 1].o_start == o_end(s));
        } else {
            assert(s == sac.last());
        }
        lemma_c_inserts_walk(sac, ci + 1, a_cur, bp, acc.push(blk), la, lb, lc);
    }
}

/// C's spans that end by `a_cur`, flushed before a span of B, keep the walk
/// in place and output C's lines.
#[verifier::spinoff_prover]
#[verifier::rlimit(40)]
proof fn lemma_flush_c_walk(
    sab: Seq<Span>,
    sac: Seq<Span>,
    ci: int,
    a_cur: int,
    acc: Seq<MergeBlock>,
    la: Seq<LineData>,
    lb: Seq<LineData>,
    lc: Seq<LineData>,
)
    requires
        walk_ok(sac, la, lc),
        at_pos(sac, ci, a_cur, la.len() as int),
        merge_output(acc, la, lb, lc) == c_out(lc, cpos(sac, ci, a_cur, lc.len() as int)),
    ensures
        ({
            let (acc1, ci1) = flush_c(sab, sac, ci, a_cur, acc);
            &&& at_pos(sac, ci1, a_cur, la.len() as int)
            &&& merge_output(acc1, la, lb, lc) == c_out(lc, cpos(sac, ci1, a_cur, lc.len() as int))
        }),
    decreases sac.len() - ci,
{
    if 0 <= ci < sac.len() && a_end(sac[ci]) <= a_cur {
        let s = sac[ci];
        assert(s.a_start == a_cur && s.a_len == 0);
        assert(!s.equal);
        let blk = c_only_block(s, sab);
        lemma_c_span_output(sac, ci, blk, acc, la, lb, lc);
        if ci + 1 < sac.len() {
            assert(sac[ci + 1].a_start == a_end(s) && sac[ci + 1].o_start == o_end(s));
        } else {
            assert(s == sac.last());
        }
        lemma_flush_c_walk(sab, sac, ci + 1, a_cur, acc.push(blk), la, lb, lc);
    }
}

/// No span from `j` on starts before `n`, so none is a change there.
proof fn lemma_first_change_none(sac: Seq<Span>, j: int, a_cur: int, n: int)
    requires
        0 <= j,
        forall|m: int| j <= m < sac.len() ==> (#[trigger] sac[m]).a_start >= n,
    ensures
        first_change(sac, j, a_cur, n) == sac.len(),
    decreases sac.len() - j,
{
    if j < sac.len() {
        lemma_first_change_none(sac, j + 1, a_cur, n);
    }
}

/// An equal run of C holds the same texts as the matching lines of A from
/// any of its lines on.
#[verifier::spinoff_prover]
#[verifier::rlimit(40)]
proof fn lemma_equal_tail(sac: Seq<Span>, ci: int, a_cur: int, la: Seq<LineData>, lc: Seq<LineData>)
    requires
        walk_ok(sac, la, lc),
        0 <= ci < sac.len(),
        sac[ci].equal,
        sac[ci].a_start <= a_cur <= a_end(sac[ci]),
    ensures
        range_texts(la, rng(a_cur, a_end(sac[ci]))) == range_texts(
            lc,
            rng(cpos(sac, ci, a_cur, lc.len() as int), o_end(sac[ci])),
        ),
{
    let s = sac[ci];
    let off = a_cur - s.a_start;
    let whole_a = range_texts(la, rng(s.a_start as int, a_end(s)));
    let whole_c = range_texts(lc, rng(s.o_start as int, o_end(s)));
    assert(whole_a == whole_c);
    assert(a_end(s) <= la.len() && o_end(s) <= lc.len());
    assert(s.a_len == s.o_len);
    assert(whole_a.len() == s.a_len);
    assert(range_texts(la, rng(a_cur, a_end(s))) =~= whole_a.subrange(off, s.a_len as int));
    assert(range_texts(lc, rng(s.o_start + off, o_end(s))) =~= whole_c.subrange(off, s.o_len as int));
}

/// After the walk reaches the end of A, the spans left give the rest of C.
#[verifier::spinoff_prover]
#[verifier::rlimit(40)]
proof fn lemma_tail_walk(
    sab: Seq<Span>,
    sac: Seq<Span>,
    ci: int,
    acc: Seq<MergeBlock>,
    la: Seq<LineData>,
    lb: Seq<LineData>,
    lc: Seq<LineData>,
)
    requires
        walk_ok(sac, la, lc),
        0 <= ci <= sac.len(),
        ci < sac.len() ==> a_end(sac[ci]) == la.len(),
        merge_output(acc, la, lb, lc) == c_out(
            lc,
            if ci == sac.len() {
                lc.len() as int
            } else if sac[ci].equal {
                o_end(sac[ci])
            } else {
                sac[ci].o_start as int
            },
        ),
    ensures
        merge_output(flush_rest(sab, sac, ci, acc), la, lb, lc) == all_texts(lc),
    decreases sac.len() - ci,
{
    if ci < sac.len() {
        let s = sac[ci];
        let acc2 = if s.equal {
            acc
        } else {
            acc.push(c_only_block(s, sab))
        };
        if !s.equal {
            lemma_c_span_output(sac, ci, c_only_block(s, sab), acc, la, lb, lc);
        }
        if ci + 1 < sac.len() {
            let t = sac[ci + 1];
            assert(t.a_start == a_end(s) && t.o_start == o_end(s));
            assert(a_end(t) <= la.len());
            assert(t.equal != s.equal);
            if s.equal {
                assert(!t.equal);
            } else {
                assert(t.equal && t.a_len > 0);
                assert(false);
            }
        } else {
            assert(s == sac.last());
        }
        lemma_tail_walk(sab, sac, ci + 1, acc2, la, lb, lc);
    } else {
        assert(c_out(lc, lc.len() as int) =~= all_texts(lc));
    }
}

/// Walking B's single unchanged run over all of A, from line `a_cur` of A
/// at span `ci` of C, and then flushing the spans left, outputs the rest of
/// C after what is already output.
#[verifier::spinoff_prover]
#[verifier::rlimit(60)]
proof fn lemma_equal_walk(
    sab: Seq<Span>,
    sb: Span,
    sac: Seq<Span>,
    ci: int,
    a_cur: int,
    acc: Seq<MergeBlock>,
    la: Seq<LineData>,
    lb: Seq<LineData>,
    lc: Seq<LineData>,
)
    requires
        walk_ok(sac, la, lc),
        sb.equal,
        sb.a_start == 0,
        sb.o_start == 0,
        a_end(sb) == la.len(),
        at_pos(sac, ci, a_cur, la.len() as int),
        merge_output(acc, la, lb, lc) == c_out(lc, cpos(sac, ci, a_cur, lc.len() as int)),
    ensures
        ({
            let (acc2, ci2) = equal_loop(sb, a_end(sb), sac, ci, a_cur, acc);
            merge_output(flush_rest(sab, sac, ci2, acc2), la, lb, lc) == all_texts(lc)
        }),
    decreases (la.len() - a_cur) + (sac.len() - ci), 1int,
{
    let n = la.len() as int;
    let tc = lc.len() as int;
    let a_stop = a_end(sb);
    let bp = sb.o_start as int + (a_cur - sb.a_start);
    let (acc1, ci1) = c_inserts(sac, ci, a_cur, bp, acc);
    lemma_c_inserts_walk(sac, ci, a_cur, bp, acc, la, lb, lc);
    if a_cur >= a_stop {
        assert(a_cur == n);
        if ci1 < sac.len() {
            let s = sac[ci1];
            assert(s.a_start == n);
            assert(a_end(s) <= n);
            assert(false);
        }
        lemma_tail_walk(sab, sac, ci1, acc1, la, lb, lc);
    } else {
        assert(ci1 < sac.len());
        let s = sac[ci1];
        let k = first_change(sac, ci1, a_cur, a_stop);
        let cp = cpos(sac, ci1, a_cur, tc);
        if s.equal {
            assert(a_cur < a_end(s));
            lemma_equal_tail(sac, ci1, a_cur, la, lc);
            if ci1 + 1 < sac.len() {
                let t = sac[ci1 + 1];
                assert(!t.equal);
                assert(t.a_start == a_end(s) && t.o_start == o_end(s));
            }
            if a_end(s) == n {
                assert forall|m: int| ci1 + 1 <= m < sac.len() implies (#[trigger] sac[m]).a_start >= n by {
                    assert(a_end(sac[ci1]) <= sac[m].a_start);
                }
                lemma_first_change_none(sac, ci1 + 1, a_cur, a_stop);
                assert(k == sac.len());
                let ub = unchanged_block(a_cur, a_stop, bp, other_pos(sac, a_cur));
                assert(equal_loop(sb, a_stop, sac, ci, a_cur, acc) == (acc1.push(ub), ci1));
                lemma_push_output(acc1, ub, la, lb, lc);
                assert(block_output(ub, la, lb, lc) == range_texts(la, rng(a_cur, a_stop)));
                lemma_range_texts_concat(lc, 0, cp, o_end(s));
                lemma_tail_walk(sab, sac, ci1, acc1.push(ub), la, lb, lc);
            } else {
                assert(a_end(s) < n);
                assert(ci1 + 1 < sac.len()) by {
                    if ci1 + 1 >= sac.len() {
                        assert(s == sac.last());
                    }
                }
                let t = sac[ci1 + 1];
                assert(!crate::merger::starts_change(s, a_cur, a_stop));
                assert(first_change(sac, ci1, a_cur, a_stop) == first_change(sac, ci1 + 1, a_cur, a_stop));
                assert(crate::merger::starts_change(t, a_cur, a_stop));
                assert(k == ci1 + 1);
                let sc = sac[k];
                let ub = unchanged_block(a_cur, sc.a_start as int, bp, other_pos(sac, a_cur));
                let acc2 = acc1.push(ub);
                lemma_push_output(acc1, ub, la, lb, lc);
                assert(block_output(ub, la, lb, lc) == range_texts(la, rng(a_cur, a_end(s))));
                lemma_range_texts_concat(lc, 0, cp, o_end(s));
                assert(merge_output(acc2, la, lb, lc) == c_out(lc, sc.o_start as int));
                lemma_change_step(sab, sb, sac, ci, a_cur, acc, ci1, k, acc2, la, lb, lc);
            }
        } else {
            assert(s.a_start == a_cur);
            assert(s.a_len > 0);
            assert(crate::merger::starts_change(s, a_cur, a_stop));
            assert(k == ci1);
            assert(merge_output(acc1, la, lb, lc) == c_out(lc, s.o_start as int));
            lemma_change_step(sab, sb, sac, ci, a_cur, acc, ci1, k, acc1, la, lb, lc);
        }
    }
}

/// The step of the walk that outputs C's change at span `k` and goes on
/// after it.
#[verifier::spinoff_prover]
#[verifier::rlimit(60)]
proof fn lemma_change_step(
    sab: Seq<Span>,
    sb: Span,
    sac: Seq<Span>,
    ci: int,
    a_cur: int,
    acc: Seq<MergeBlock>,
    ci1: int,
    k: int,
    acc2: Seq<MergeBlock>,
    la: Seq<LineData>,
    lb: Seq<LineData>,
    lc: Seq<LineData>,
)
    requires
        walk_ok(sac, la, lc),
        sb.equal,
        sb.a_start == 0,
        sb.o_start == 0,
        a_end(sb) == la.len(),
        at_pos(sac, ci, a_cur, la.len() as int),
        a_cur < la.len(),
        ({
            let bp = sb.o_start as int + (a_cur - sb.a_start);
            c_inserts(sac, ci, a_cur, bp, acc).1 == ci1
        }),
        0 <= ci <= ci1 <= k < sac.len(),
        k == first_change(sac, ci1, a_cur, a_end(sb)),
        !sac[k].equal,
        a_cur <= sac[k].a_start,
        k == ci1 || (k == ci1 + 1 && sac[ci1].equal && a_cur < sac[k].a_start && a_end(sac[ci1]) == sac[k].a_start),
        k == ci1 ==> sac[k].a_start == a_cur,
        ({
            let bp = sb.o_start as int + (a_cur - sb.a_start);
            let (acc1, c1) = c_inserts(sac, ci, a_cur, bp, acc);
            acc2 == if a_cur < sac[k].a_start {
                acc1.push(unchanged_block(a_cur, sac[k].a_start as int, bp, other_pos(sac, a_cur)))
            } else {
                acc1
            }
        }),
        merge_output(acc2, la, lb, lc) == c_out(lc, sac[k].o_start as int),
    ensures
        ({
            let (accr, cir) = equal_loop(sb, a_end(sb), sac, ci, a_cur, acc);
            merge_output(flush_rest(sab, sac, cir, accr), la, lb, lc) == all_texts(lc)
        }),
    decreases (la.len() - a_cur) + (sac.len() - ci), 0int,
{
    let n = la.len() as int;
    let a_stop = a_end(sb);
    let sc = sac[k];
    let b_base = sb.o_start as int;
    assert(a_end(sc) <= n);
    let len = if sc.a_len < a_stop - sc.a_start {
        sc.a_len as int
    } else {
        a_stop - sc.a_start
    };
    assert(len == sc.a_len);
    let bp2 = b_base + (sc.a_start - sb.a_start);
    let cb = MergeBlock {
        a_range: rng(sc.a_start as int, sc.a_start + len),
        b_range: rng(bp2, bp2 + len),
        c_range: rng(sc.o_start as int, o_end(sc)),
        details: c_change_kind(sc.a_len as int, sc.o_len as int),
        resolved: None,
    };
    let acc3 = acc2.push(cb);
    lemma_c_span_output(sac, k, cb, acc2, la, lb, lc);
    let a3 = sc.a_start + len;
    assert(a3 == a_end(sc));
    // advancing passes exactly the spans up to `k`
    let ci3 = advance(sac, ci1, a3);
    if k == ci1 + 1 {
        assert(a_end(sac[ci1]) <= a3);
        assert(advance(sac, ci1, a3) == advance(sac, ci1 + 1, a3));
    }
    assert(advance(sac, k, a3) == advance(sac, k + 1, a3));
    if k + 1 < sac.len() {
        let t = sac[k + 1];
        assert(t.equal);
        assert(t.a_start == a_end(sc) && t.o_start == o_end(sc));
        assert(t.a_len > 0);
        assert(advance(sac, k + 1, a3) == k + 1);
    } else {
        assert(sc == sac.last());
        assert(a3 == n);
    }
    assert(ci3 == k + 1);
    assert(at_pos(sac, ci3, a3, n));
    assert(cpos(sac, ci3, a3, lc.len() as int) == o_end(sc)) by {
        if k + 1 < sac.len() {
            assert(sac[k + 1].o_start == o_end(sc));
        } else {
            assert(o_end(sc) == lc.len());
        }
    }
    let m = (a_stop - a3) + (sac.len() - ci3);
    assert(0 <= m < (a_stop - a_cur) + (sac.len() - ci));
    assert(equal_loop(sb, a_stop, sac, ci, a_cur, acc) == equal_loop(sb, a_stop, sac, ci3, a3, acc3));
    lemma_equal_walk(sab, sb, sac, ci3, a3, acc3, la, lb, lc);
}

/// A three-way merge in which B equals the base A (its diff is one run of
/// all of A's lines), with the automatic choices, outputs exactly the lines
/// of C, when the A-C diff is grouped (runs and changes take turns),
/// describes all lines of A and C, and pairs equal texts in its runs.
#[verifier::spinoff_prover]
#[verifier::rlimit(40)]
pub proof fn law_threeway_b_unchanged_gives_c(
    diff_ab: Seq<Diff>,
    diff_ac: Seq<Diff>,
    la: Seq<LineData>,
    lb: Seq<LineData>,
    lc: Seq<LineData>,
)
    requires
        la.len() > 0,
        diff_ab == seq![Diff { nof_equals: la.len() as usize, diff1: 0, diff2: 0 }],
        grouped(diff_ac),
        lines_first(diff_ac) == la.len(),
        lines_second(diff_ac) == lc.len(),
        la.len() <= usize::MAX,
        lc.len() <= usize::MAX,
        runs_match(diff_ac, all_texts(la), all_texts(lc)),
    ensures
        merge_output(threeway_blocks(spans_of(diff_ab), spans_of(diff_ac), lb, lc), la, lb, lc)
            == all_texts(lc),
{
    let n = la.len() as int;
    let sab = spans_of(diff_ab);
    let sac = spans_of(diff_ac);
    lemma_spans_of_wf(diff_ac);
    lemma_grouped_alternating(diff_ac);
    lemma_equal_spans_nonempty(diff_ac);
    lemma_spans_match(diff_ac, la, lc);
    assert(diff_ab.drop_last() =~= Seq::<Diff>::empty());
    let sb = Span { a_start: 0, a_len: la.len() as usize, o_start: 0, o_len: la.len() as usize, equal: true };
    assert(lines_first(diff_ab.drop_last()) == 0 && lines_second(diff_ab.drop_last()) == 0);
    assert(spans_of(diff_ab.drop_last()) =~= Seq::<Span>::empty());
    assert(diff_ab.last() == diff_ab[0]);
    assert(diff_spans(diff_ab.last(), 0, 0) =~= seq![sb]);
    assert(sab =~= seq![sb]);
    assert(walk_ok(sac, la, lc));
    let empty = Seq::<MergeBlock>::empty();
    assert(merge_output(empty, la, lb, lc) =~= Seq::<Seq<char>>::empty());
    assert(sac.len() > 0);
    assert(sac[0].a_start == 0 && sac[0].o_start == 0);
    assert(at_pos(sac, 0, 0, n));
    assert(c_out(lc, 0) =~= Seq::<Seq<char>>::empty());
    lemma_flush_c_walk(sab, sac, 0, 0, empty, la, lb, lc);
    let (acc1, ci1) = flush_c(sab, sac, 0, 0, empty);
    lemma_equal_walk(sab, sb, sac, ci1, 0, acc1, la, lb, lc);
    let (acc2, ci2) = equal_loop(sb, a_end(sb), sac, ci1, 0, acc1);
    assert(threeway_loop(sab, sac, lb, lc, 0, 0, empty) == threeway_loop(sab, sac, lb, lc, 1, ci2, acc2));
    assert(threeway_loop(sab, sac, lb, lc, 1, ci2, acc2) == flush_rest(sab, sac, ci2, acc2));
}

} // verus!
