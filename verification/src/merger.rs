use std::ops::Range;
use vstd::prelude::*;

use crate::diff::{lines_first, lines_second, lemma_lines_prefix, Diff, DiffList};
use crate::line_data::{lines_wf, LineData};

verus! {

/// The file whose lines a merge block takes.
#[derive(Debug, Clone, Copy, PartialEq, Eq, Structural)]
pub enum ResolvedChoice {
    A,
    B,
    C,
}

/// How the lines of a merge block changed from the base A to B and C.
#[derive(Debug, Clone, Copy, PartialEq, Eq, Structural)]
pub enum MergeDetails {
    NoChange,
    BChanged,
    CChanged,
    /// B and C changed the same lines differently: a conflict.
    BCChanged,
    /// B and C changed the same lines to the same text.
    BCChangedAndEqual,
    BDeleted,
    CDeleted,
    BCDeleted,
    BAdded,
    CAdded,
    /// B and C added different lines at the same place: a conflict.
    BCAdded,
    /// B and C added the same lines at the same place.
    BCAddedAndEqual,
}

impl MergeDetails {
    pub open spec fn conflicting(self) -> bool {
        self is BCChanged || self is BCAdded
    }

    /// The choice that resolves the block without the user, if there is one:
    /// the base where nothing changed, else the side that carries the change
    /// (B where both sides agree).
    pub open spec fn automatic(self) -> Option<ResolvedChoice> {
        match self {
            MergeDetails::NoChange => Some(ResolvedChoice::A),
            MergeDetails::BChanged | MergeDetails::BAdded | MergeDetails::BDeleted
            | MergeDetails::BCChangedAndEqual | MergeDetails::BCAddedAndEqual
            | MergeDetails::BCDeleted => Some(ResolvedChoice::B),
            MergeDetails::CChanged | MergeDetails::CAdded | MergeDetails::CDeleted => Some(
                ResolvedChoice::C,
            ),
            _ => None,
        }
    }

    pub fn is_conflict(&self) -> (r: bool)
        ensures
            r == self.conflicting(),
    {
        match self {
            MergeDetails::BCChanged | MergeDetails::BCAdded => true,
            _ => false,
        }
    }

    /// The choice for the cases that need no user decision.
    pub fn auto_choice(&self) -> (r: Option<ResolvedChoice>)
        ensures
            r == self.automatic(),
            r is None <==> self.conflicting(),
    {
        match self {
            MergeDetails::NoChange => Some(ResolvedChoice::A),
            MergeDetails::BChanged | MergeDetails::BAdded | MergeDetails::BDeleted
            | MergeDetails::BCChangedAndEqual | MergeDetails::BCAddedAndEqual
            | MergeDetails::BCDeleted => Some(ResolvedChoice::B),
            MergeDetails::CChanged | MergeDetails::CAdded | MergeDetails::CDeleted => Some(
                ResolvedChoice::C,
            ),
            _ => None,
        }
    }
}

/// One block of the merge view: a group of equal lines, or a changed or
/// conflicting group, with the line ranges it covers in A, B and C.
#[derive(Debug)]
pub struct MergeBlock {
    pub a_range: Range<usize>,
    pub b_range: Range<usize>,
    pub c_range: Range<usize>,
    pub details: MergeDetails,
    pub resolved: Option<ResolvedChoice>,
}

impl Clone for MergeBlock {
    fn clone(&self) -> (r: Self)
        ensures
            r == *self,
    {
        MergeBlock {
            a_range: self.a_range.start..self.a_range.end,
            b_range: self.b_range.start..self.b_range.end,
            c_range: self.c_range.start..self.c_range.end,
            details: self.details,
            resolved: self.resolved,
        }
    }
}

impl MergeBlock {
    pub open spec fn unresolved_conflict(self) -> bool {
        self.details.conflicting() && self.resolved is None
    }

    /// The file whose lines the block outputs: the user's choice, else the
    /// automatic one; none for an unresolved conflict.
    pub open spec fn choice(self) -> Option<ResolvedChoice> {
        match self.resolved {
            Some(c) => Some(c),
            None => self.details.automatic(),
        }
    }

    pub fn is_unresolved_conflict(&self) -> (r: bool)
        ensures
            r == self.unresolved_conflict(),
    {
        self.details.is_conflict() && self.resolved.is_none()
    }

    /// The block's output choice; `None` for an unresolved conflict.
    pub fn output_choice(&self) -> (r: Option<ResolvedChoice>)
        ensures
            r == self.choice(),
            r is None <==> self.unresolved_conflict(),
    {
        match self.resolved {
            Some(c) => Some(c),
            None => self.details.auto_choice(),
        }
    }
}

/// The range `s..e` of line indices.
pub open spec fn rng(s: int, e: int) -> Range<usize> {
    Range { start: s as usize, end: e as usize }
}

/// A run of lines of the base A matched with a run of another file O:
/// equal lines, or a change.
#[derive(Debug, Clone, Copy)]
pub struct Span {
    pub a_start: usize,
    pub a_len: usize,
    pub o_start: usize,
    pub o_len: usize,
    pub equal: bool,
}

pub open spec fn a_end(s: Span) -> int {
    s.a_start + s.a_len
}

pub open spec fn o_end(s: Span) -> int {
    s.o_start + s.o_len
}

/// The spans of one diff whose equal run starts at line `a` of A and line `o`
/// of the other file.
pub open spec fn diff_spans(d: Diff, a: int, o: int) -> Seq<Span> {
    let eq = if d.nof_equals > 0 {
        seq![
            Span {
                a_start: a as usize,
                a_len: d.nof_equals,
                o_start: o as usize,
                o_len: d.nof_equals,
                equal: true,
            },
        ]
    } else {
        Seq::empty()
    };
    let ch = if d.diff1 > 0 || d.diff2 > 0 {
        seq![
            Span {
                a_start: (a + d.nof_equals) as usize,
                a_len: d.diff1,
                o_start: (o + d.nof_equals) as usize,
                o_len: d.diff2,
                equal: false,
            },
        ]
    } else {
        Seq::empty()
    };
    eq + ch
}

/// The spans of a diff list, in order.
pub open spec fn spans_of(ds: Seq<Diff>) -> Seq<Span>
    decreases ds.len(),
{
    if ds.len() == 0 {
        Seq::empty()
    } else {
        spans_of(ds.drop_last()) + diff_spans(
            ds.last(),
            lines_first(ds.drop_last()) as int,
            lines_second(ds.drop_last()) as int,
        )
    }
}

/// The spans cover A's lines `0..ta` and O's lines `0..to` in order, without
/// gaps; equal spans are non-empty and of the same length on both sides.
pub open spec fn spans_wf(s: Seq<Span>, ta: int, to: int) -> bool {
    &&& ta <= usize::MAX
    &&& to <= usize::MAX
    &&& forall|k: int| 0 <= k < s.len() ==> a_end(#[trigger] s[k]) <= ta && o_end(s[k]) <= to
    &&& forall|k: int| 0 <= k < s.len() && (#[trigger] s[k]).equal ==> s[k].a_len == s[k].o_len && s[k].a_len > 0
    &&& forall|k: int| 0 <= k < s.len() && !(#[trigger] s[k]).equal ==> s[k].a_len > 0 || s[k].o_len > 0
    &&& forall|j: int, k: int| 0 <= j < k < s.len() ==> a_end(#[trigger] s[j]) <= (#[trigger] s[k]).a_start && o_end(s[j]) <= s[k].o_start
    &&& forall|k: int| 0 <= k < s.len() - 1 ==> (#[trigger] s[k + 1]).a_start == a_end(s[k]) && s[k + 1].o_start == o_end(s[k])
    &&& s.len() == 0 ==> ta == 0 && to == 0
    &&& s.len() > 0 ==> s[0].a_start == 0 && s[0].o_start == 0 && a_end(s.last()) == ta && o_end(s.last()) == to
}

/// The spans of a single diff are well formed between `a`, `o` and the ends
/// that the diff leads to.
proof fn lemma_diff_spans_wf(d: Diff, a: int, o: int)
    requires
        0 <= a,
        0 <= o,
        a + d.nof_equals + d.diff1 <= usize::MAX,
        o + d.nof_equals + d.diff2 <= usize::MAX,
    ensures
        ({
            let t = diff_spans(d, a, o);
            &&& t.len() <= 2
            &&& forall|k: int| 0 <= k < t.len() ==> a <= (#[trigger] t[k]).a_start && o <= t[k].o_start
            &&& forall|k: int| 0 <= k < t.len() ==> a_end(#[trigger] t[k]) <= a + d.nof_equals + d.diff1 && o_end(t[k]) <= o + d.nof_equals + d.diff2
            &&& forall|k: int| 0 <= k < t.len() && (#[trigger] t[k]).equal ==> t[k].a_len == t[k].o_len && t[k].a_len > 0
            &&& forall|k: int| 0 <= k < t.len() && !(#[trigger] t[k]).equal ==> t[k].a_len > 0 || t[k].o_len > 0
            &&& t.len() == 2 ==> t[1].a_start == a_end(t[0]) && t[1].o_start == o_end(t[0])
            &&& t.len() == 0 ==> d.nof_equals + d.diff1 == 0 && d.nof_equals + d.diff2 == 0
            &&& t.len() > 0 ==> t[0].a_start == a && t[0].o_start == o
                && a_end(t.last()) == a + d.nof_equals + d.diff1
                && o_end(t.last()) == o + d.nof_equals + d.diff2
        }),
{
}

pub proof fn lemma_spans_of_wf(ds: Seq<Diff>)
    requires
        lines_first(ds) <= usize::MAX,
        lines_second(ds) <= usize::MAX,
    ensures
        spans_wf(spans_of(ds), lines_first(ds) as int, lines_second(ds) as int),
    decreases ds.len(),
{
    if ds.len() > 0 {
        let p = ds.drop_last();
        lemma_spans_of_wf(p);
        let s0 = spans_of(p);
        let d = ds.last();
        let a = lines_first(p) as int;
        let o = lines_second(p) as int;
        let t = diff_spans(d, a, o);
        lemma_diff_spans_wf(d, a, o);
        let s = spans_of(ds);
        assert(s == s0 + t);
        let ta = lines_first(ds) as int;
        let to = lines_second(ds) as int;
        assert(ta == a + d.nof_equals + d.diff1);
        assert(to == o + d.nof_equals + d.diff2);
        assert forall|k: int| 0 <= k < s.len() implies a_end(#[trigger] s[k]) <= ta && o_end(s[k]) <= to by {
            if k < s0.len() {
                assert(s[k] == s0[k]);
            } else {
                assert(s[k] == t[k - s0.len()]);
            }
        }
        assert forall|k: int| 0 <= k < s.len() && (#[trigger] s[k]).equal implies s[k].a_len == s[k].o_len && s[k].a_len > 0 by {
            if k < s0.len() {
                assert(s[k] == s0[k]);
            } else {
                assert(s[k] == t[k - s0.len()]);
            }
        }
        assert forall|k: int| 0 <= k < s.len() && !(#[trigger] s[k]).equal implies s[k].a_len > 0 || s[k].o_len > 0 by {
            if k < s0.len() {
                assert(s[k] == s0[k]);
            } else {
                assert(s[k] == t[k - s0.len()]);
            }
        }
        assert forall|k: int| 0 <= k < s.len() - 1 implies (#[trigger] s[k + 1]).a_start == a_end(s[k]) && s[k + 1].o_start == o_end(s[k]) by {
            if k + 1 < s0.len() {
                assert(s[k + 1] == s0[k + 1]);
                assert(s[k] == s0[k]);
            } else if k + 1 == s0.len() {
                assert(s[k] == s0.last());
                assert(s[k + 1] == t[0]);
            } else {
                assert(s[k] == t[0]);
                assert(s[k + 1] == t[1]);
            }
        }
        assert forall|j: int, k: int| 0 <= j < k < s.len() implies a_end(#[trigger] s[j]) <= (#[trigger] s[k]).a_start && o_end(s[j]) <= s[k].o_start by {
            if k < s0.len() {
                assert(s[k] == s0[k]);
                assert(s[j] == s0[j]);
            } else if j < s0.len() {
                assert(s[j] == s0[j]);
                assert(s[k] == t[k - s0.len()]);
            } else {
                assert(s[j] == t[0]);
                assert(s[k] == t[1]);
            }
        }
        if s0.len() == 0 && t.len() > 0 {
            assert(s[0] == t[0]);
        } else if s0.len() > 0 {
            assert(s[0] == s0[0]);
        }
        if t.len() > 0 {
            assert(s.last() == t.last());
        } else {
            assert(s == s0);
        }
    }
}

/// The position in the other file that belongs to line `a_pos` of A: in an
/// equal span the matching line, in a changed span the start of the change,
/// past the last span the end of the other file.
pub open spec fn other_pos(s: Seq<Span>, a_pos: int) -> int {
    if exists|k: int| 0 <= k < s.len() && (#[trigger] s[k]).a_start <= a_pos < a_end(s[k]) {
        let k = choose|k: int| 0 <= k < s.len() && (#[trigger] s[k]).a_start <= a_pos < a_end(s[k]);
        if s[k].equal {
            s[k].o_start + (a_pos - s[k].a_start)
        } else {
            s[k].o_start as int
        }
    } else if s.len() == 0 {
        0
    } else {
        o_end(s.last())
    }
}

fn to_spans(diff: &DiffList) -> (spans: Vec<Span>)
    requires
        lines_first(diff.0@) <= usize::MAX,
        lines_second(diff.0@) <= usize::MAX,
    ensures
        spans@ == spans_of(diff.0@),
{
    let mut spans: Vec<Span> = Vec::new();
    let mut a: usize = 0;
    let mut o: usize = 0;
    let mut i: usize = 0;
    let ghost ds = diff.0@;
    while i < diff.0.len()
        invariant
            ds == diff.0@,
            i <= ds.len(),
            lines_first(ds) <= usize::MAX,
            lines_second(ds) <= usize::MAX,
            spans@ == spans_of(ds.take(i as int)),
            a == lines_first(ds.take(i as int)),
            o == lines_second(ds.take(i as int)),
        decreases ds.len() - i,
    {
        proof {
            lemma_lines_prefix(ds, i + 1);
            assert(ds.take(i + 1).drop_last() =~= ds.take(i as int));
        }
        let d = &diff.0[i];
        if d.nof_equals > 0 {
            spans.push(Span { a_start: a, a_len: d.nof_equals, o_start: o, o_len: d.nof_equals, equal: true });
            a += d.nof_equals;
            o += d.nof_equals;
        }
        if d.diff1 > 0 || d.diff2 > 0 {
            spans.push(Span { a_start: a, a_len: d.diff1, o_start: o, o_len: d.diff2, equal: false });
            a += d.diff1;
            o += d.diff2;
        }
        i += 1;
        proof {
            assert(spans@ =~= spans_of(ds.take(i as int)));
        }
    }
    proof {
        assert(ds.take(i as int) =~= ds);
    }
    spans
}

/// The position in the other file that belongs to line `a_pos` of A.
fn a_to_other(a_pos: usize, spans: &[Span], Ghost(ta): Ghost<int>, Ghost(to): Ghost<int>) -> (r: usize)
    requires
        spans_wf(spans@, ta, to),
    ensures
        r == other_pos(spans@, a_pos as int),
        r <= to,
{
    let mut a: usize = 0;
    let mut o: usize = 0;
    let mut i: usize = 0;
    while i < spans.len()
        invariant
            spans_wf(spans@, ta, to),
            i <= spans@.len(),
            i < spans@.len() ==> a == spans@[i as int].a_start && o == spans@[i as int].o_start,
            i == spans@.len() && i > 0 ==> o == o_end(spans@.last()),
            i == 0 ==> a == 0 && o == 0,
            forall|k: int| 0 <= k < i ==> a_end(#[trigger] spans@[k]) <= a_pos,
        decreases spans@.len() - i,
    {
        let s = &spans[i];
        let a_next = a + s.a_len;
        if a_pos < a_next {
            proof {
                let k = i as int;
                if k > 0 {
                    assert(spans@[(k - 1) + 1].a_start == a_end(spans@[k - 1]));
                    assert(a_end(spans@[k - 1]) <= a_pos);
                }
                assert(spans@[k].a_start <= a_pos < a_end(spans@[k]));
                let c = choose|c: int| 0 <= c < spans@.len() && (#[trigger] spans@[c]).a_start <= a_pos < a_end(spans@[c]);
                if c < k {
                    assert(a_end(spans@[c]) <= spans@[k].a_start);
                } else if c > k {
                    assert(a_end(spans@[k]) <= spans@[c].a_start);
                }
            }
            return if s.equal { o + (a_pos - a) } else { o };
        }
        a = a_next;
        o += s.o_len;
        i += 1;
    }
    proof {
        if exists|k: int| 0 <= k < spans@.len() && (#[trigger] spans@[k]).a_start <= a_pos < a_end(spans@[k]) {
            let k = choose|k: int| 0 <= k < spans@.len() && (#[trigger] spans@[k]).a_start <= a_pos < a_end(spans@[k]);
            assert(a_end(spans@[k]) <= a_pos);
        }
    }
    o
}


/// The kind of a block where only B changed the base: an addition, a
/// deletion or a change.
pub open spec fn b_change_kind(a_len: int, b_len: int) -> MergeDetails {
    if a_len == 0 {
        MergeDetails::BAdded
    } else if b_len == 0 {
        MergeDetails::BDeleted
    } else {
        MergeDetails::BChanged
    }
}

/// The kind of a block where only C changed the base.
pub open spec fn c_change_kind(a_len: int, c_len: int) -> MergeDetails {
    if a_len == 0 {
        MergeDetails::CAdded
    } else if c_len == 0 {
        MergeDetails::CDeleted
    } else {
        MergeDetails::CChanged
    }
}

fn classify_c_only(a_len: usize, c_len: usize) -> (r: MergeDetails)
    ensures
        r == c_change_kind(a_len as int, c_len as int),
{
    if a_len == 0 {
        MergeDetails::CAdded
    } else if c_len == 0 {
        MergeDetails::CDeleted
    } else {
        MergeDetails::CChanged
    }
}

/// The text of line `i`, if there is such a line.
pub open spec fn line_text_at(lines: Seq<LineData>, i: int) -> Option<Seq<char>> {
    if 0 <= i < lines.len() {
        Some(lines[i].text())
    } else {
        None
    }
}

/// The number of indices in a range.
pub open spec fn range_len(r: Range<usize>) -> int {
    if r.start < r.end {
        r.end - r.start
    } else {
        0
    }
}

/// Two line ranges have the same length and, line by line, the same text (or
/// both lie past the end of their files).
pub open spec fn ranges_text_equal(
    br: Range<usize>,
    lines_b: Seq<LineData>,
    cr: Range<usize>,
    lines_c: Seq<LineData>,
) -> bool {
    &&& range_len(br) == range_len(cr)
    &&& forall|k: int| 0 <= k < range_len(br) ==> #[trigger] texts_match_at(br, lines_b, cr, lines_c, k)
}

/// Line `k` of range `br` of B and line `k` of range `cr` of C have the same
/// text, or both lie past the end of their files.
pub open spec fn texts_match_at(
    br: Range<usize>,
    lines_b: Seq<LineData>,
    cr: Range<usize>,
    lines_c: Seq<LineData>,
    k: int,
) -> bool {
    line_text_at(lines_b, br.start + k) == line_text_at(lines_c, cr.start + k)
}

fn ranges_content_equal(
    br: &Range<usize>,
    lines_b: &[LineData],
    cr: &Range<usize>,
    lines_c: &[LineData],
) -> (r: bool)
    requires
        lines_wf(lines_b@),
        lines_wf(lines_c@),
    ensures
        r == ranges_text_equal(*br, lines_b@, *cr, lines_c@),
{
    let blen = if br.start < br.end { br.end - br.start } else { 0 };
    let clen = if cr.start < cr.end { cr.end - cr.start } else { 0 };
    if blen != clen {
        return false;
    }
    let mut k: usize = 0;
    while k < blen
        invariant
            lines_wf(lines_b@),
            lines_wf(lines_c@),
            blen == range_len(*br),
            clen == range_len(*cr),
            clen == blen,
            k <= blen,
            forall|j: int| 0 <= j < k ==> #[trigger] texts_match_at(*br, lines_b@, *cr, lines_c@, j),
        decreases blen - k,
    {
        let bi = br.start + k;
        let ci = cr.start + k;
        let tb = if bi < lines_b.len() {
            Some(lines_b[bi].get_line())
        } else {
            None
        };
        let tc = if ci < lines_c.len() {
            Some(lines_c[ci].get_line())
        } else {
            None
        };
        let same = match (tb, tc) {
            (Some(x), Some(y)) => str_eq(x, y),
            (None, None) => true,
            _ => false,
        };
        if !same {
            assert(!texts_match_at(*br, lines_b@, *cr, lines_c@, k as int));
            return false;
        }
        assert(texts_match_at(*br, lines_b@, *cr, lines_c@, k as int));
        k += 1;
    }
    true
}

/// Byte-wise equality of two strings.
fn str_eq(x: &str, y: &str) -> (r: bool)
    ensures
        r == (x@ == y@),
{
    let xb = x.as_bytes();
    let yb = y.as_bytes();
    proof {
        crate::line_data::lemma_utf8_injective(x@, y@);
    }
    if xb.len() != yb.len() {
        assert(xb@.len() != yb@.len());
        return false;
    }
    let mut i: usize = 0;
    while i < xb.len()
        invariant
            xb@ == crate::line_data::utf8_bytes(x@),
            yb@ == crate::line_data::utf8_bytes(y@),
            (xb@ == yb@) == (x@ == y@),
            xb@.len() == yb@.len(),
            i <= xb@.len(),
            forall|j: int| 0 <= j < i ==> xb@[j] == yb@[j],
        decreases xb@.len() - i,
    {
        if xb[i] != yb[i] {
            assert(xb@[i as int] != yb@[i as int]);
            assert(xb@ != yb@);
            return false;
        }
        i += 1;
    }
    proof {
        assert(xb@ =~= yb@);
    }
    true
}

/// The block for a change that only C made, placed in B at the position that
/// belongs to its start in A.
pub open spec fn c_only_block(sc: Span, spans_ab: Seq<Span>) -> MergeBlock {
    let bp = other_pos(spans_ab, sc.a_start as int);
    MergeBlock {
        a_range: rng(sc.a_start as int, a_end(sc)),
        b_range: rng(bp, bp + sc.a_len),
        c_range: rng(sc.o_start as int, o_end(sc)),
        details: c_change_kind(sc.a_len as int, sc.o_len as int),
        resolved: None,
    }
}

/// A block of unchanged lines `a_from..a_to` of A, starting at line `bp` of B
/// and `cp` of C.
pub open spec fn unchanged_block(a_from: int, a_to: int, bp: int, cp: int) -> MergeBlock {
    MergeBlock {
        a_range: rng(a_from, a_to),
        b_range: rng(bp, bp + (a_to - a_from)),
        c_range: rng(cp, cp + (a_to - a_from)),
        details: MergeDetails::NoChange,
        resolved: None,
    }
}

/// Emits the C-only blocks of the spans from `ci` on that end at or before
/// line `limit` of A; returns the blocks and the first span not taken.
pub open spec fn flush_c(
    spans_ab: Seq<Span>,
    spans_ac: Seq<Span>,
    ci: int,
    limit: int,
    acc: Seq<MergeBlock>,
) -> (Seq<MergeBlock>, int)
    decreases spans_ac.len() - ci,
{
    if 0 <= ci < spans_ac.len() && a_end(spans_ac[ci]) <= limit {
        let acc2 = if spans_ac[ci].equal {
            acc
        } else {
            acc.push(c_only_block(spans_ac[ci], spans_ab))
        };
        flush_c(spans_ab, spans_ac, ci + 1, limit, acc2)
    } else {
        (acc, ci)
    }
}

/// Emits the C-only blocks of all spans from `ci` on.
pub open spec fn flush_rest(
    spans_ab: Seq<Span>,
    spans_ac: Seq<Span>,
    ci: int,
    acc: Seq<MergeBlock>,
) -> Seq<MergeBlock>
    decreases spans_ac.len() - ci,
{
    if 0 <= ci < spans_ac.len() {
        let acc2 = if spans_ac[ci].equal {
            acc
        } else {
            acc.push(c_only_block(spans_ac[ci], spans_ab))
        };
        flush_rest(spans_ab, spans_ac, ci + 1, acc2)
    } else {
        acc
    }
}

/// Emits a block for each insertion of C at line `a_cur` of A, from span
/// `ci` on.
pub open spec fn c_inserts(
    spans_ac: Seq<Span>,
    ci: int,
    a_cur: int,
    bp: int,
    acc: Seq<MergeBlock>,
) -> (Seq<MergeBlock>, int)
    decreases spans_ac.len() - ci,
{
    if 0 <= ci < spans_ac.len() && spans_ac[ci].a_start == a_cur && spans_ac[ci].a_len == 0 {
        let blk = MergeBlock {
            a_range: rng(a_cur, a_cur),
            b_range: rng(bp, bp),
            c_range: rng(spans_ac[ci].o_start as int, o_end(spans_ac[ci])),
            details: MergeDetails::CAdded,
            resolved: None,
        };
        c_inserts(spans_ac, ci + 1, a_cur, bp, acc.push(blk))
    } else {
        (acc, ci)
    }
}

/// A change of C that starts in `a_cur..a_end`.
pub open spec fn starts_change(sc: Span, a_cur: int, a_end: int) -> bool {
    !sc.equal && a_cur <= sc.a_start < a_end
}

/// The first span from `k` on that is a change of C starting in
/// `a_cur..a_end`; the number of spans if there is none.
pub open spec fn first_change(spans_ac: Seq<Span>, k: int, a_cur: int, a_end: int) -> int
    decreases spans_ac.len() - k,
{
    if k < 0 || k >= spans_ac.len() {
        spans_ac.len() as int
    } else if starts_change(spans_ac[k], a_cur, a_end) {
        k
    } else {
        first_change(spans_ac, k + 1, a_cur, a_end)
    }
}

/// The first span from `ci` on that does not end at or before line `limit` of A.
pub open spec fn advance(spans_ac: Seq<Span>, ci: int, limit: int) -> int
    decreases spans_ac.len() - ci,
{
    if 0 <= ci < spans_ac.len() && a_end(spans_ac[ci]) <= limit {
        advance(spans_ac, ci + 1, limit)
    } else {
        ci
    }
}

/// The first span from `ci` on that does not lie inside A's lines before
/// `limit`: a span that ends by `limit` is passed unless it starts there
/// (an insertion of C right after the range, which the next span takes).
pub open spec fn advance_inside(spans_ac: Seq<Span>, ci: int, limit: int) -> int
    decreases spans_ac.len() - ci,
{
    if 0 <= ci < spans_ac.len() && a_end(spans_ac[ci]) <= limit && spans_ac[ci].a_start < limit {
        advance_inside(spans_ac, ci + 1, limit)
    } else {
        ci
    }
}

/// The blocks for a span that B leaves unchanged, from line `a_cur` of A on:
/// insertions of C, unchanged stretches and the changes of C inside it.
/// Returns the blocks and the next span of C.
pub open spec fn equal_loop(
    sb: Span,
    a_stop: int,
    spans_ac: Seq<Span>,
    ci: int,
    a_cur: int,
    acc: Seq<MergeBlock>,
) -> (Seq<MergeBlock>, int)
    decreases (a_stop - a_cur) + (spans_ac.len() - ci),
{
    let b_base = sb.o_start as int;
    let bp = b_base + (a_cur - sb.a_start);
    let (acc1, ci1) = c_inserts(spans_ac, ci, a_cur, bp, acc);
    if a_cur >= a_stop {
        (acc1, ci1)
    } else {
        let k = first_change(spans_ac, ci1, a_cur, a_stop);
        if 0 <= k < spans_ac.len() {
            let sc = spans_ac[k];
            let acc2 = if a_cur < sc.a_start {
                acc1.push(unchanged_block(a_cur, sc.a_start as int, bp, other_pos(spans_ac, a_cur)))
            } else {
                acc1
            };
            let len = if sc.a_len < a_stop - sc.a_start {
                sc.a_len as int
            } else {
                a_stop - sc.a_start
            };
            let bp2 = b_base + (sc.a_start - sb.a_start);
            let acc3 = acc2.push(
                MergeBlock {
                    a_range: rng(sc.a_start as int, sc.a_start + len),
                    b_range: rng(bp2, bp2 + len),
                    c_range: rng(sc.o_start as int, o_end(sc)),
                    details: c_change_kind(sc.a_len as int, sc.o_len as int),
                    resolved: None,
                },
            );
            let a3 = sc.a_start + len;
            let ci3 = advance(spans_ac, ci1, a3);
            let m = (a_stop - a3) + (spans_ac.len() - ci3);
            if 0 <= m < (a_stop - a_cur) + (spans_ac.len() - ci) {
                equal_loop(sb, a_stop, spans_ac, ci3, a3, acc3)
            } else {
                (acc3, ci3)
            }
        } else {
            (
                acc1.push(unchanged_block(a_cur, a_stop, bp, other_pos(spans_ac, a_cur))),
                ci1,
            )
        }
    }
}

/// Scans the spans of C from `k` on that start before line `a_stop` of A and
/// records whether any is a change, the start of the first change in C and
/// the end of the last.
pub open spec fn collect_c(
    spans_ac: Seq<Span>,
    k: int,
    a_stop: int,
    changed: bool,
    cs: int,
    ce: int,
) -> (bool, int, int)
    decreases spans_ac.len() - k,
{
    if 0 <= k < spans_ac.len() && spans_ac[k].a_start < a_stop {
        if !spans_ac[k].equal {
            collect_c(
                spans_ac,
                k + 1,
                a_stop,
                true,
                if changed {
                    cs
                } else {
                    spans_ac[k].o_start as int
                },
                o_end(spans_ac[k]),
            )
        } else {
            collect_c(spans_ac, k + 1, a_stop, changed, cs, ce)
        }
    } else {
        (changed, cs, ce)
    }
}

/// The block for a span that B changes, and the next span of C: a change of
/// B alone if C changes nothing there, else a change of both, which is a
/// conflict unless both give the same lines.
pub open spec fn changed_block(
    sb: Span,
    spans_ac: Seq<Span>,
    ci: int,
    lines_b: Seq<LineData>,
    lines_c: Seq<LineData>,
) -> (MergeBlock, int) {
    let a_stop = a_end(sb);
    let (changed, cs, ce) = collect_c(spans_ac, ci, a_stop, false, 0, 0);
    let ci2 = advance_inside(spans_ac, ci, a_stop);
    let b_range = rng(sb.o_start as int, o_end(sb));
    if !changed {
        let cp = other_pos(spans_ac, sb.a_start as int);
        (
            MergeBlock {
                a_range: rng(sb.a_start as int, a_stop),
                b_range,
                c_range: rng(cp, cp + sb.a_len),
                details: b_change_kind(sb.a_len as int, sb.o_len as int),
                resolved: None,
            },
            ci2,
        )
    } else {
        let c_range = rng(cs, ce);
        (
            MergeBlock {
                a_range: rng(sb.a_start as int, a_stop),
                b_range,
                c_range,
                details: if ranges_text_equal(b_range, lines_b, c_range, lines_c) {
                    MergeDetails::BCChangedAndEqual
                } else {
                    MergeDetails::BCChanged
                },
                resolved: None,
            },
            ci2,
        )
    }
}

/// The three-way blocks from span `i` of the A-B spans and span `ci` of the
/// A-C spans on.
pub open spec fn threeway_loop(
    spans_ab: Seq<Span>,
    spans_ac: Seq<Span>,
    lines_b: Seq<LineData>,
    lines_c: Seq<LineData>,
    i: int,
    ci: int,
    acc: Seq<MergeBlock>,
) -> Seq<MergeBlock>
    decreases spans_ab.len() - i,
{
    if 0 <= i < spans_ab.len() {
        let sb = spans_ab[i];
        let (acc1, ci1) = flush_c(spans_ab, spans_ac, ci, sb.a_start as int, acc);
        if sb.equal {
            let (acc2, ci2) = equal_loop(sb, a_end(sb), spans_ac, ci1, sb.a_start as int, acc1);
            threeway_loop(spans_ab, spans_ac, lines_b, lines_c, i + 1, ci2, acc2)
        } else {
            let (blk, ci2) = changed_block(sb, spans_ac, ci1, lines_b, lines_c);
            threeway_loop(spans_ab, spans_ac, lines_b, lines_c, i + 1, ci2, acc1.push(blk))
        }
    } else {
        flush_rest(spans_ab, spans_ac, ci, acc)
    }
}

/// The blocks of a three-way merge of the base A with B and C.
pub open spec fn threeway_blocks(
    spans_ab: Seq<Span>,
    spans_ac: Seq<Span>,
    lines_b: Seq<LineData>,
    lines_c: Seq<LineData>,
) -> Seq<MergeBlock> {
    threeway_loop(spans_ab, spans_ac, lines_b, lines_c, 0, 0, Seq::empty())
}


proof fn lemma_first_change(spans_ac: Seq<Span>, k: int, a_cur: int, a_end: int)
    requires
        0 <= k <= spans_ac.len(),
    ensures
        k <= first_change(spans_ac, k, a_cur, a_end) <= spans_ac.len(),
        first_change(spans_ac, k, a_cur, a_end) < spans_ac.len() ==> starts_change(
            spans_ac[first_change(spans_ac, k, a_cur, a_end)],
            a_cur,
            a_end,
        ),
    decreases spans_ac.len() - k,
{
    if k < spans_ac.len() && !starts_change(spans_ac[k], a_cur, a_end) {
        lemma_first_change(spans_ac, k + 1, a_cur, a_end);
    }
}

proof fn lemma_advance(spans_ac: Seq<Span>, ci: int, limit: int)
    requires
        0 <= ci <= spans_ac.len(),
    ensures
        ci <= advance(spans_ac, ci, limit) <= spans_ac.len(),
    decreases spans_ac.len() - ci,
{
    if ci < spans_ac.len() && a_end(spans_ac[ci]) <= limit {
        lemma_advance(spans_ac, ci + 1, limit);
    }
}

proof fn lemma_advance_inside(spans_ac: Seq<Span>, ci: int, limit: int)
    requires
        0 <= ci <= spans_ac.len(),
    ensures
        ci <= advance_inside(spans_ac, ci, limit) <= spans_ac.len(),
    decreases spans_ac.len() - ci,
{
    if ci < spans_ac.len() && a_end(spans_ac[ci]) <= limit && spans_ac[ci].a_start < limit {
        lemma_advance_inside(spans_ac, ci + 1, limit);
    }
}

/// Advancing past every span that ends by `limit` passes span `k` when all
/// spans from `ci` through `k` end by `limit`.
proof fn lemma_advance_past(spans_ac: Seq<Span>, ci: int, k: int, limit: int)
    requires
        0 <= ci <= k < spans_ac.len(),
        forall|j: int| ci <= j <= k ==> a_end(#[trigger] spans_ac[j]) <= limit,
    ensures
        advance(spans_ac, ci, limit) > k,
    decreases spans_ac.len() - ci,
{
    if ci < k {
        lemma_advance_past(spans_ac, ci + 1, k, limit);
    } else {
        lemma_advance(spans_ac, ci + 1, limit);
    }
}

fn c_only_block_of(sc: &Span, spans_ab: &[Span], Ghost(ta1): Ghost<int>, Ghost(tb): Ghost<int>, Ghost(ta2): Ghost<int>) -> (r: MergeBlock)
    requires
        spans_wf(spans_ab@, ta1, tb),
        a_end(*sc) <= ta2,
        o_end(*sc) <= usize::MAX,
        tb + ta2 <= usize::MAX,
    ensures
        r == c_only_block(*sc, spans_ab@),
{
    let bp = a_to_other(sc.a_start, spans_ab, Ghost(ta1), Ghost(tb));
    let details = classify_c_only(sc.a_len, sc.o_len);
    MergeBlock {
        a_range: sc.a_start..sc.a_start + sc.a_len,
        b_range: bp..bp + sc.a_len,
        c_range: sc.o_start..sc.o_start + sc.o_len,
        details,
        resolved: None,
    }
}

fn emit_inserts(
    spans_ac: &[Span],
    ci: &mut usize,
    a_cur: usize,
    bp: usize,
    blocks: &mut Vec<MergeBlock>,
    Ghost(ta2): Ghost<int>,
    Ghost(tc): Ghost<int>,
)
    requires
        spans_wf(spans_ac@, ta2, tc),
        *old(ci) <= spans_ac@.len(),
    ensures
        (final(blocks)@, *final(ci) as int) == c_inserts(
            spans_ac@,
            *old(ci) as int,
            a_cur as int,
            bp as int,
            old(blocks)@,
        ),
        *old(ci) <= *final(ci) <= spans_ac@.len(),
{
    let ghost ins = c_inserts(spans_ac@, *ci as int, a_cur as int, bp as int, blocks@);
    let ghost ci0 = *ci;
    while *ci < spans_ac.len() && spans_ac[*ci].a_start == a_cur && spans_ac[*ci].a_len == 0
        invariant
            spans_wf(spans_ac@, ta2, tc),
            ci0 <= *ci <= spans_ac@.len(),
            ins == c_inserts(spans_ac@, *ci as int, a_cur as int, bp as int, blocks@),
        decreases spans_ac@.len() - *ci,
    {
        let sc = &spans_ac[*ci];
        blocks.push(
            MergeBlock {
                a_range: a_cur..a_cur,
                b_range: bp..bp,
                c_range: sc.o_start..sc.o_start + sc.o_len,
                details: MergeDetails::CAdded,
                resolved: None,
            },
        );
        *ci += 1;
    }
}

fn find_change(spans_ac: &[Span], from: usize, a_cur: usize, a_stop: usize) -> (k: usize)
    requires
        from <= spans_ac@.len(),
    ensures
        k == first_change(spans_ac@, from as int, a_cur as int, a_stop as int),
        from <= k <= spans_ac@.len(),
        k < spans_ac@.len() ==> starts_change(spans_ac@[k as int], a_cur as int, a_stop as int),
{
    let mut k = from;
    while k < spans_ac.len() && !(!spans_ac[k].equal && spans_ac[k].a_start >= a_cur
        && spans_ac[k].a_start < a_stop)
        invariant
            from <= k <= spans_ac@.len(),
            first_change(spans_ac@, from as int, a_cur as int, a_stop as int) == first_change(
                spans_ac@,
                k as int,
                a_cur as int,
                a_stop as int,
            ),
        decreases spans_ac@.len() - k,
    {
        k += 1;
    }
    proof {
        lemma_first_change(spans_ac@, from as int, a_cur as int, a_stop as int);
    }
    k
}

fn advance_ci(spans_ac: &[Span], ci: &mut usize, limit: usize, Ghost(ta2): Ghost<int>, Ghost(tc): Ghost<int>)
    requires
        spans_wf(spans_ac@, ta2, tc),
        *old(ci) <= spans_ac@.len(),
    ensures
        *final(ci) as int == advance(spans_ac@, *old(ci) as int, limit as int),
        *old(ci) <= *final(ci) <= spans_ac@.len(),
{
    let ghost adv = advance(spans_ac@, *ci as int, limit as int);
    proof {
        lemma_advance(spans_ac@, *ci as int, limit as int);
    }
    while *ci < spans_ac.len() && spans_ac[*ci].a_start + spans_ac[*ci].a_len <= limit
        invariant
            spans_wf(spans_ac@, ta2, tc),
            *ci <= spans_ac@.len(),
            adv == advance(spans_ac@, *ci as int, limit as int),
        decreases spans_ac@.len() - *ci,
    {
        *ci += 1;
    }
}

fn advance_inside_ci(spans_ac: &[Span], ci: &mut usize, limit: usize, Ghost(ta2): Ghost<int>, Ghost(tc): Ghost<int>)
    requires
        spans_wf(spans_ac@, ta2, tc),
        *old(ci) <= spans_ac@.len(),
    ensures
        *final(ci) as int == advance_inside(spans_ac@, *old(ci) as int, limit as int),
        *old(ci) <= *final(ci) <= spans_ac@.len(),
{
    let ghost adv = advance_inside(spans_ac@, *ci as int, limit as int);
    proof {
        lemma_advance_inside(spans_ac@, *ci as int, limit as int);
    }
    while *ci < spans_ac.len() && spans_ac[*ci].a_start + spans_ac[*ci].a_len <= limit
        && spans_ac[*ci].a_start < limit
        invariant
            spans_wf(spans_ac@, ta2, tc),
            *ci <= spans_ac@.len(),
            adv == advance_inside(spans_ac@, *ci as int, limit as int),
        decreases spans_ac@.len() - *ci,
    {
        *ci += 1;
    }
}

/// The blocks for a span that B leaves unchanged: C's insertions and changes
/// inside it are split out, the rest is unchanged.
fn process_equal_span(
    sb: &Span,
    a_stop: usize,
    spans_ac: &[Span],
    ci: &mut usize,
    blocks: &mut Vec<MergeBlock>,
    Ghost(ta2): Ghost<int>,
    Ghost(tc): Ghost<int>,
)
    requires
        spans_wf(spans_ac@, ta2, tc),
        sb.equal,
        a_stop == a_end(*sb),
        sb.a_len == sb.o_len,
        o_end(*sb) <= usize::MAX,
        a_stop + tc <= usize::MAX,
        *old(ci) <= spans_ac@.len(),
    ensures
        (final(blocks)@, *final(ci) as int) == equal_loop(
            *sb,
            a_stop as int,
            spans_ac@,
            *old(ci) as int,
            sb.a_start as int,
            old(blocks)@,
        ),
        *final(ci) <= spans_ac@.len(),
{
    let ghost sac = spans_ac@;
    let ghost goal = equal_loop(*sb, a_stop as int, sac, *ci as int, sb.a_start as int, blocks@);
    let b_base = sb.o_start;
    let mut a_cur = sb.a_start;
    loop
        invariant_except_break
            goal == equal_loop(*sb, a_stop as int, sac, *ci as int, a_cur as int, blocks@),
        invariant
            sb.a_start <= a_cur <= a_stop,
            b_base == sb.o_start,
            sac == spans_ac@,
            spans_wf(sac, ta2, tc),
            sb.equal,
            a_stop == a_end(*sb),
            sb.a_len == sb.o_len,
            o_end(*sb) <= usize::MAX,
            a_stop + tc <= usize::MAX,
            *ci <= sac.len(),
        ensures
            goal == (blocks@, *ci as int),
        decreases (a_stop - a_cur) + (sac.len() - *ci),
    {
        let ghost ci_top = *ci as int;
        let ghost blocks_top = blocks@;
        let ghost a_top = a_cur as int;
        let bp = b_base + (a_cur - sb.a_start);
        emit_inserts(spans_ac, ci, a_cur, bp, blocks, Ghost(ta2), Ghost(tc));
        let ghost ci1 = *ci as int;
        let ghost acc1 = blocks@;
        if a_cur >= a_stop {
            break;
        }
        let k = find_change(spans_ac, *ci, a_cur, a_stop);
        if k < spans_ac.len() {
            let sc_a_start = spans_ac[k].a_start;
            if a_cur < sc_a_start {
                let len = sc_a_start - a_cur;
                let cp = a_to_other(a_cur, spans_ac, Ghost(ta2), Ghost(tc));
                blocks.push(
                    MergeBlock {
                        a_range: a_cur..a_cur + len,
                        b_range: bp..bp + len,
                        c_range: cp..cp + len,
                        details: MergeDetails::NoChange,
                        resolved: None,
                    },
                );
                a_cur = sc_a_start;
            }
            let sc = &spans_ac[k];
            let sc_a_len = if sc.a_len < a_stop - sc.a_start {
                sc.a_len
            } else {
                a_stop - sc.a_start
            };
            let bp2 = b_base + (sc.a_start - sb.a_start);
            let details = classify_c_only(sc.a_len, sc.o_len);
            blocks.push(
                MergeBlock {
                    a_range: sc.a_start..sc.a_start + sc_a_len,
                    b_range: bp2..bp2 + sc_a_len,
                    c_range: sc.o_start..sc.o_start + sc.o_len,
                    details,
                    resolved: None,
                },
            );
            a_cur = sc.a_start + sc_a_len;
            advance_ci(spans_ac, ci, a_cur, Ghost(ta2), Ghost(tc));
            proof {
                let kk = k as int;
                if sc.a_len < a_stop - sc.a_start {
                    assert forall|j: int| ci1 <= j <= kk implies a_end(#[trigger] sac[j]) <= a_cur by {
                        if j < kk {
                            assert(a_end(sac[j]) <= sac[kk].a_start);
                        }
                    }
                    lemma_advance_past(sac, ci1, kk, a_cur as int);
                }
                assert((a_stop - a_cur) + (sac.len() - *ci) < (a_stop - a_top) + (sac.len() - ci_top));
            }
        } else {
            let len = a_stop - a_cur;
            let cp = a_to_other(a_cur, spans_ac, Ghost(ta2), Ghost(tc));
            blocks.push(
                MergeBlock {
                    a_range: a_cur..a_stop,
                    b_range: bp..bp + len,
                    c_range: cp..cp + len,
                    details: MergeDetails::NoChange,
                    resolved: None,
                },
            );
            break;
        }
    }
}


/// The block for a span that B changes: a change of B alone if C changes
/// nothing there, else a change of both.
fn process_changed_span(
    sb: &Span,
    a_stop: usize,
    spans_ac: &[Span],
    ci: &mut usize,
    lines_b: &[LineData],
    lines_c: &[LineData],
    blocks: &mut Vec<MergeBlock>,
    Ghost(ta2): Ghost<int>,
    Ghost(tc): Ghost<int>,
)
    requires
        spans_wf(spans_ac@, ta2, tc),
        a_stop == a_end(*sb),
        o_end(*sb) <= usize::MAX,
        a_stop + tc <= usize::MAX,
        *old(ci) <= spans_ac@.len(),
        lines_wf(lines_b@),
        lines_wf(lines_c@),
    ensures
        final(blocks)@ == old(blocks)@.push(
            changed_block(*sb, spans_ac@, *old(ci) as int, lines_b@, lines_c@).0,
        ),
        *final(ci) as int == changed_block(*sb, spans_ac@, *old(ci) as int, lines_b@, lines_c@).1,
        *final(ci) <= spans_ac@.len(),
{
    let ghost sac = spans_ac@;
    let ghost ci0 = *ci as int;
    let ghost coll = collect_c(sac, ci0, a_stop as int, false, 0, 0);
    let mut c_changed = false;
    let mut c_o_start: usize = 0;
    let mut c_o_end: usize = 0;
    let mut k = *ci;
    while k < spans_ac.len() && spans_ac[k].a_start < a_stop
        invariant
            sac == spans_ac@,
            spans_wf(sac, ta2, tc),
            ci0 <= k <= sac.len(),
            coll == collect_c(sac, k as int, a_stop as int, c_changed, c_o_start as int, c_o_end as int),
            c_changed ==> c_o_start <= c_o_end <= tc,
            c_changed && k < sac.len() ==> c_o_end <= sac[k as int].o_start,
        decreases sac.len() - k,
    {
        let sc = &spans_ac[k];
        if !sc.equal {
            if !c_changed {
                c_o_start = sc.o_start;
            }
            c_o_end = sc.o_start + sc.o_len;
            c_changed = true;
        }
        proof {
            if k + 1 < sac.len() {
                assert(sac[(k as int) + 1].o_start == o_end(sac[k as int]));
            }
        }
        k += 1;
    }
    advance_inside_ci(spans_ac, ci, a_stop, Ghost(ta2), Ghost(tc));
    let b_range = sb.o_start..sb.o_start + sb.o_len;
    if !c_changed {
        let cp = a_to_other(sb.a_start, spans_ac, Ghost(ta2), Ghost(tc));
        let details = if sb.a_len == 0 {
            MergeDetails::BAdded
        } else if sb.o_len == 0 {
            MergeDetails::BDeleted
        } else {
            MergeDetails::BChanged
        };
        blocks.push(
            MergeBlock {
                a_range: sb.a_start..a_stop,
                b_range,
                c_range: cp..cp + sb.a_len,
                details,
                resolved: None,
            },
        );
    } else {
        let c_range = c_o_start..c_o_end;
        let details = if ranges_content_equal(&b_range, lines_b, &c_range, lines_c) {
            MergeDetails::BCChangedAndEqual
        } else {
            MergeDetails::BCChanged
        };
        blocks.push(
            MergeBlock {
                a_range: sb.a_start..a_stop,
                b_range,
                c_range,
                details,
                resolved: None,
            },
        );
    }
}

/// The blocks of a three-way merge, from the A-B and the A-C spans.
fn build_threeway_blocks(
    spans_ab: &[Span],
    spans_ac: &[Span],
    lines_b: &[LineData],
    lines_c: &[LineData],
    Ghost(ta1): Ghost<int>,
    Ghost(tb): Ghost<int>,
    Ghost(ta2): Ghost<int>,
    Ghost(tc): Ghost<int>,
) -> (blocks: Vec<MergeBlock>)
    requires
        spans_wf(spans_ab@, ta1, tb),
        spans_wf(spans_ac@, ta2, tc),
        ta1 + tc <= usize::MAX,
        ta2 + tb <= usize::MAX,
        lines_wf(lines_b@),
        lines_wf(lines_c@),
    ensures
        blocks@ == threeway_blocks(spans_ab@, spans_ac@, lines_b@, lines_c@),
{
    let ghost sab = spans_ab@;
    let ghost sac = spans_ac@;
    let ghost goal = threeway_blocks(sab, sac, lines_b@, lines_c@);
    let mut blocks: Vec<MergeBlock> = Vec::new();
    let mut ci: usize = 0;
    let mut i: usize = 0;
    while i < spans_ab.len()
        invariant
            sab == spans_ab@,
            sac == spans_ac@,
            spans_wf(sab, ta1, tb),
            spans_wf(sac, ta2, tc),
            ta1 + tc <= usize::MAX,
            ta2 + tb <= usize::MAX,
            lines_wf(lines_b@),
            lines_wf(lines_c@),
            i <= sab.len(),
            ci <= sac.len(),
            goal == threeway_loop(sab, sac, lines_b@, lines_c@, i as int, ci as int, blocks@),
        decreases sab.len() - i,
    {
        let sb = &spans_ab[i];
        let a_stop = sb.a_start + sb.a_len;
        let ghost fl = flush_c(sab, sac, ci as int, sb.a_start as int, blocks@);
        while ci < spans_ac.len() && spans_ac[ci].a_start + spans_ac[ci].a_len <= sb.a_start
            invariant
                sab == spans_ab@,
                sac == spans_ac@,
                spans_wf(sab, ta1, tb),
                spans_wf(sac, ta2, tc),
                ta2 + tb <= usize::MAX,
                ci <= sac.len(),
                fl == flush_c(sab, sac, ci as int, sb.a_start as int, blocks@),
            decreases sac.len() - ci,
        {
            let sc = &spans_ac[ci];
            if !sc.equal {
                let blk = c_only_block_of(sc, spans_ab, Ghost(ta1), Ghost(tb), Ghost(ta2));
                blocks.push(blk);
            }
            ci += 1;
        }
        if sb.equal {
            process_equal_span(sb, a_stop, spans_ac, &mut ci, &mut blocks, Ghost(ta2), Ghost(tc));
        } else {
            process_changed_span(
                sb,
                a_stop,
                spans_ac,
                &mut ci,
                lines_b,
                lines_c,
                &mut blocks,
                Ghost(ta2),
                Ghost(tc),
            );
        }
        i += 1;
    }
    let ghost fr = flush_rest(sab, sac, ci as int, blocks@);
    while ci < spans_ac.len()
        invariant
            sab == spans_ab@,
            sac == spans_ac@,
            spans_wf(sab, ta1, tb),
            spans_wf(sac, ta2, tc),
            ta2 + tb <= usize::MAX,
            ci <= sac.len(),
            fr == flush_rest(sab, sac, ci as int, blocks@),
        decreases sac.len() - ci,
    {
        let sc = &spans_ac[ci];
        if !sc.equal {
            let blk = c_only_block_of(sc, spans_ab, Ghost(ta1), Ghost(tb), Ghost(ta2));
            blocks.push(blk);
        }
        ci += 1;
    }
    blocks
}


/// The two-way blocks of one diff whose equal run starts at line `a` of A and
/// line `b` of B.
pub open spec fn twoway_diff_blocks(d: Diff, a: int, b: int) -> Seq<MergeBlock> {
    let eq = if d.nof_equals > 0 {
        seq![
            MergeBlock {
                a_range: rng(a, a + d.nof_equals),
                b_range: rng(b, b + d.nof_equals),
                c_range: rng(0, 0),
                details: MergeDetails::NoChange,
                resolved: None,
            },
        ]
    } else {
        Seq::empty()
    };
    let a1 = a + d.nof_equals;
    let b1 = b + d.nof_equals;
    let ch = if d.diff1 > 0 || d.diff2 > 0 {
        seq![
            MergeBlock {
                a_range: rng(a1, a1 + d.diff1),
                b_range: rng(b1, b1 + d.diff2),
                c_range: rng(0, 0),
                details: b_change_kind(d.diff1 as int, d.diff2 as int),
                resolved: None,
            },
        ]
    } else {
        Seq::empty()
    };
    eq + ch
}

/// The blocks of a two-way merge of A and B.
pub open spec fn twoway_blocks(ds: Seq<Diff>) -> Seq<MergeBlock>
    decreases ds.len(),
{
    if ds.len() == 0 {
        Seq::empty()
    } else {
        twoway_blocks(ds.drop_last()) + twoway_diff_blocks(
            ds.last(),
            lines_first(ds.drop_last()) as int,
            lines_second(ds.drop_last()) as int,
        )
    }
}

/// The number of blocks that are conflicts.
pub open spec fn conflicts_in(blocks: Seq<MergeBlock>) -> nat
    decreases blocks.len(),
{
    if blocks.len() == 0 {
        0
    } else {
        conflicts_in(blocks.drop_last()) + if blocks.last().details.conflicting() {
            1nat
        } else {
            0nat
        }
    }
}

/// The number of blocks that are unresolved conflicts.
pub open spec fn unresolved_in(blocks: Seq<MergeBlock>) -> nat
    decreases blocks.len(),
{
    if blocks.len() == 0 {
        0
    } else {
        unresolved_in(blocks.drop_last()) + if blocks.last().unresolved_conflict() {
            1nat
        } else {
            0nat
        }
    }
}

/// The texts of the lines of a range that exist.
pub open spec fn range_texts(lines: Seq<LineData>, r: Range<usize>) -> Seq<Seq<char>> {
    let hi = if r.end < lines.len() {
        r.end as int
    } else {
        lines.len() as int
    };
    if (r.start as int) < hi {
        Seq::new((hi - r.start) as nat, |k: int| lines[r.start + k].text())
    } else {
        Seq::empty()
    }
}

/// The output lines of one block: the chosen file's lines, or for an
/// unresolved conflict all sides between conflict markers.
pub open spec fn block_output(
    b: MergeBlock,
    lines_a: Seq<LineData>,
    lines_b: Seq<LineData>,
    lines_c: Seq<LineData>,
) -> Seq<Seq<char>> {
    match b.choice() {
        Some(ResolvedChoice::A) => range_texts(lines_a, b.a_range),
        Some(ResolvedChoice::B) => range_texts(lines_b, b.b_range),
        Some(ResolvedChoice::C) => range_texts(lines_c, b.c_range),
        None => seq!["<<<<<<< A (base)"@] + range_texts(lines_a, b.a_range) + seq![
            "||||||| B"@,
        ] + range_texts(lines_b, b.b_range) + (if b.c_range.start < b.c_range.end {
            seq!["======= C"@] + range_texts(lines_c, b.c_range)
        } else {
            Seq::empty()
        }) + seq![">>>>>>>"@],
    }
}

/// The output lines of a sequence of blocks.
pub open spec fn merge_output(
    blocks: Seq<MergeBlock>,
    lines_a: Seq<LineData>,
    lines_b: Seq<LineData>,
    lines_c: Seq<LineData>,
) -> Seq<Seq<char>>
    decreases blocks.len(),
{
    if blocks.len() == 0 {
        Seq::empty()
    } else {
        merge_output(blocks.drop_last(), lines_a, lines_b, lines_c) + block_output(
            blocks.last(),
            lines_a,
            lines_b,
            lines_c,
        )
    }
}

/// The merge of two or three files, as a sequence of blocks.
pub struct Merger {
    pub blocks: Vec<MergeBlock>,
}

impl Merger {
    /// Two-way merge of files A and B.
    pub fn from_twoway(diff_ab: &DiffList) -> (r: Self)
        requires
            lines_first(diff_ab.0@) <= usize::MAX,
            lines_second(diff_ab.0@) <= usize::MAX,
        ensures
            r.blocks@ == twoway_blocks(diff_ab.0@),
    {
        let ghost ds = diff_ab.0@;
        let mut blocks: Vec<MergeBlock> = Vec::new();
        let mut a: usize = 0;
        let mut b: usize = 0;
        let mut i: usize = 0;
        while i < diff_ab.0.len()
            invariant
                ds == diff_ab.0@,
                i <= ds.len(),
                lines_first(ds) <= usize::MAX,
                lines_second(ds) <= usize::MAX,
                blocks@ == twoway_blocks(ds.take(i as int)),
                a == lines_first(ds.take(i as int)),
                b == lines_second(ds.take(i as int)),
            decreases ds.len() - i,
        {
            proof {
                lemma_lines_prefix(ds, i + 1);
                assert(ds.take(i + 1).drop_last() =~= ds.take(i as int));
            }
            let d = &diff_ab.0[i];
            if d.nof_equals > 0 {
                blocks.push(
                    MergeBlock {
                        a_range: a..a + d.nof_equals,
                        b_range: b..b + d.nof_equals,
                        c_range: 0..0,
                        details: MergeDetails::NoChange,
                        resolved: None,
                    },
                );
                a += d.nof_equals;
                b += d.nof_equals;
            }
            if d.diff1 > 0 || d.diff2 > 0 {
                let details = if d.diff1 == 0 {
                    MergeDetails::BAdded
                } else if d.diff2 == 0 {
                    MergeDetails::BDeleted
                } else {
                    MergeDetails::BChanged
                };
                blocks.push(
                    MergeBlock {
                        a_range: a..a + d.diff1,
                        b_range: b..b + d.diff2,
                        c_range: 0..0,
                        details,
                        resolved: None,
                    },
                );
                a += d.diff1;
                b += d.diff2;
            }
            i += 1;
            proof {
                assert(blocks@ =~= twoway_blocks(ds.take(i as int)));
            }
        }
        proof {
            assert(ds.take(i as int) =~= ds);
        }
        Self { blocks }
    }

    /// Three-way merge of B and C against the base A.
    pub fn from_threeway(
        diff_ab: &DiffList,
        diff_ac: &DiffList,
        lines_b: &[LineData],
        lines_c: &[LineData],
    ) -> (r: Self)
        requires
            lines_first(diff_ab.0@) <= usize::MAX,
            lines_second(diff_ab.0@) <= usize::MAX,
            lines_first(diff_ac.0@) <= usize::MAX,
            lines_second(diff_ac.0@) <= usize::MAX,
            lines_first(diff_ab.0@) + lines_second(diff_ac.0@) <= usize::MAX,
            lines_first(diff_ac.0@) + lines_second(diff_ab.0@) <= usize::MAX,
            lines_wf(lines_b@),
            lines_wf(lines_c@),
        ensures
            r.blocks@ == threeway_blocks(
                spans_of(diff_ab.0@),
                spans_of(diff_ac.0@),
                lines_b@,
                lines_c@,
            ),
    {
        proof {
            lemma_spans_of_wf(diff_ab.0@);
            lemma_spans_of_wf(diff_ac.0@);
        }
        let spans_ab = to_spans(diff_ab);
        let spans_ac = to_spans(diff_ac);
        let blocks = build_threeway_blocks(
            spans_ab.as_slice(),
            spans_ac.as_slice(),
            lines_b,
            lines_c,
            Ghost(lines_first(diff_ab.0@) as int),
            Ghost(lines_second(diff_ab.0@) as int),
            Ghost(lines_first(diff_ac.0@) as int),
            Ghost(lines_second(diff_ac.0@) as int),
        );
        Self { blocks }
    }

    pub fn conflict_count(&self) -> (r: usize)
        ensures
            r == conflicts_in(self.blocks@),
    {
        let mut n: usize = 0;
        let mut i: usize = 0;
        while i < self.blocks.len()
            invariant
                i <= self.blocks@.len(),
                n == conflicts_in(self.blocks@.take(i as int)),
                n <= i,
            decreases self.blocks@.len() - i,
        {
            proof {
                assert(self.blocks@.take(i + 1).drop_last() =~= self.blocks@.take(i as int));
            }
            if self.blocks[i].details.is_conflict() {
                n += 1;
            }
            i += 1;
        }
        proof {
            assert(self.blocks@.take(i as int) =~= self.blocks@);
        }
        n
    }

    pub fn unresolved_count(&self) -> (r: usize)
        ensures
            r == unresolved_in(self.blocks@),
    {
        let mut n: usize = 0;
        let mut i: usize = 0;
        while i < self.blocks.len()
            invariant
                i <= self.blocks@.len(),
                n == unresolved_in(self.blocks@.take(i as int)),
                n <= i,
            decreases self.blocks@.len() - i,
        {
            proof {
                assert(self.blocks@.take(i + 1).drop_last() =~= self.blocks@.take(i as int));
            }
            if self.blocks[i].is_unresolved_conflict() {
                n += 1;
            }
            i += 1;
        }
        proof {
            assert(self.blocks@.take(i as int) =~= self.blocks@);
        }
        n
    }

    /// Records the user's choice for block `idx`; an index past the end
    /// changes nothing.
    pub fn resolve(&mut self, idx: usize, choice: ResolvedChoice)
        ensures
            idx < old(self).blocks@.len() ==> final(self).blocks@ == old(self).blocks@.update(
                idx as int,
                MergeBlock { resolved: Some(choice), ..old(self).blocks@[idx as int] },
            ),
            idx >= old(self).blocks@.len() ==> final(self).blocks@ == old(self).blocks@,
    {
        if idx < self.blocks.len() {
            let old_block = &self.blocks[idx];
            let nb = MergeBlock {
                a_range: old_block.a_range.start..old_block.a_range.end,
                b_range: old_block.b_range.start..old_block.b_range.end,
                c_range: old_block.c_range.start..old_block.c_range.end,
                details: old_block.details,
                resolved: Some(choice),
            };
            self.blocks.set(idx, nb);
        }
    }

    /// The first unresolved conflict at or after block `from`.
    pub fn next_conflict_after(&self, from: usize) -> (r: Option<usize>)
        ensures
            r matches Some(i) ==> from <= i < self.blocks@.len()
                && self.blocks@[i as int].unresolved_conflict()
                && forall|j: int| from <= j < i ==> !(#[trigger] self.blocks@[j]).unresolved_conflict(),
            r is None ==> forall|j: int| from <= j < self.blocks@.len() ==> !(#[trigger] self.blocks@[j]).unresolved_conflict(),
    {
        let mut i = from;
        while i < self.blocks.len()
            invariant
                from <= i,
                forall|j: int| from <= j < i && j < self.blocks@.len() ==> !(#[trigger] self.blocks@[j]).unresolved_conflict(),
            decreases self.blocks@.len() - i,
        {
            if self.blocks[i].is_unresolved_conflict() {
                return Some(i);
            }
            i += 1;
        }
        None
    }

    /// The last unresolved conflict before block `from`.
    pub fn prev_conflict_before(&self, from: usize) -> (r: Option<usize>)
        requires
            from <= self.blocks@.len(),
        ensures
            r matches Some(i) ==> i < from && self.blocks@[i as int].unresolved_conflict()
                && forall|j: int| i < j < from ==> !(#[trigger] self.blocks@[j]).unresolved_conflict(),
            r is None ==> forall|j: int| 0 <= j < from ==> !(#[trigger] self.blocks@[j]).unresolved_conflict(),
    {
        let mut i = from;
        while i > 0
            invariant
                i <= from,
                from <= self.blocks@.len(),
                forall|j: int| i <= j < from ==> !(#[trigger] self.blocks@[j]).unresolved_conflict(),
            decreases i,
        {
            i -= 1;
            if self.blocks[i].is_unresolved_conflict() {
                return Some(i);
            }
        }
        None
    }

    /// The merged lines. Each block gives the lines of its chosen file; an
    /// unresolved conflict gives A's, B's and (where C has lines there) C's
    /// lines between conflict markers.
    pub fn output(
        &self,
        lines_a: &[LineData],
        lines_b: &[LineData],
        lines_c: &[LineData],
    ) -> (out: Vec<String>)
        requires
            lines_wf(lines_a@),
            lines_wf(lines_b@),
            lines_wf(lines_c@),
        ensures
            texts_of(out@) == merge_output(self.blocks@, lines_a@, lines_b@, lines_c@),
    {
        let mut out: Vec<String> = Vec::new();
        let mut i: usize = 0;
        while i < self.blocks.len()
            invariant
                i <= self.blocks@.len(),
                lines_wf(lines_a@),
                lines_wf(lines_b@),
                lines_wf(lines_c@),
                texts_of(out@) == merge_output(self.blocks@.take(i as int), lines_a@, lines_b@, lines_c@),
            decreases self.blocks@.len() - i,
        {
            proof {
                assert(self.blocks@.take(i + 1).drop_last() =~= self.blocks@.take(i as int));
            }
            let block = &self.blocks[i];
            let ghost before = texts_of(out@);
            match block.output_choice() {
                Some(ResolvedChoice::A) => push_range(&mut out, lines_a, &block.a_range),
                Some(ResolvedChoice::B) => push_range(&mut out, lines_b, &block.b_range),
                Some(ResolvedChoice::C) => push_range(&mut out, lines_c, &block.c_range),
                None => {
                    push_text(&mut out, "<<<<<<< A (base)");
                    push_range(&mut out, lines_a, &block.a_range);
                    push_text(&mut out, "||||||| B");
                    push_range(&mut out, lines_b, &block.b_range);
                    if block.c_range.start < block.c_range.end {
                        push_text(&mut out, "======= C");
                        push_range(&mut out, lines_c, &block.c_range);
                    }
                    push_text(&mut out, ">>>>>>>");
                },
            }
            proof {
                assert(texts_of(out@) =~= before + block_output(*block, lines_a@, lines_b@, lines_c@));
            }
            i += 1;
        }
        proof {
            assert(self.blocks@.take(i as int) =~= self.blocks@);
        }
        out
    }
}

/// The texts of a sequence of strings.
pub open spec fn texts_of(v: Seq<String>) -> Seq<Seq<char>> {
    v.map_values(|s: String| s@)
}

fn push_text(out: &mut Vec<String>, s: &str)
    ensures
        texts_of(final(out)@) == texts_of(old(out)@).push(s@),
{
    out.push(s.to_owned());
    proof {
        assert(texts_of(final(out)@) =~= texts_of(old(out)@).push(s@));
    }
}

fn push_range(out: &mut Vec<String>, lines: &[LineData], r: &Range<usize>)
    requires
        lines_wf(lines@),
    ensures
        texts_of(final(out)@) == texts_of(old(out)@) + range_texts(lines@, *r),
{
    let ghost before = texts_of(out@);
    let mut i = r.start;
    proof {
        assert(range_texts(lines@, rng(r.start as int, r.start as int)) =~= Seq::<Seq<char>>::empty());
        assert(texts_of(out@) =~= before + range_texts(lines@, rng(r.start as int, r.start as int)));
    }
    while i < r.end
        invariant
            lines_wf(lines@),
            r.start <= i,
            i <= r.end || i == r.start,
            texts_of(out@) == before + range_texts(lines@, rng(r.start as int, i as int)),
        decreases r.end - i,
    {
        let ghost prev = texts_of(out@);
        if i < lines.len() {
            let t = lines[i].get_line();
            out.push(t.to_owned());
            proof {
                assert(range_texts(lines@, rng(r.start as int, i + 1)) =~= range_texts(
                    lines@,
                    rng(r.start as int, i as int),
                ).push(lines@[i as int].text()));
                assert(texts_of(out@) =~= prev.push(t@));
            }
        } else {
            proof {
                assert(range_texts(lines@, rng(r.start as int, i + 1)) =~= range_texts(
                    lines@,
                    rng(r.start as int, i as int),
                ));
            }
        }
        i += 1;
    }
    proof {
        if r.start < r.end {
            assert(rng(r.start as int, i as int) == *r);
        } else {
            assert(range_texts(lines@, *r) =~= Seq::<Seq<char>>::empty());
            assert(range_texts(lines@, rng(r.start as int, r.start as int)) =~= Seq::<Seq<char>>::empty());
        }
    }
}

} // verus!

pub use self::ResolvedChoice as Choice;
