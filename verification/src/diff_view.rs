use vstd::prelude::*;

use crate::diff::{lines_first, lemma_lines_prefix, lines_second, runs_match, Diff, DiffList};
use crate::line_data::{all_texts, lines_wf, LineData};
use crate::source_data::SourceData;
use crate::text_fmt::{push_spaced_decimal, push_str, spaced_decimal};

verus! {

/// How a row of the side-by-side comparison is marked.
#[derive(Debug, Clone, Copy, PartialEq, Eq, Structural)]
pub enum LineKind {
    Equal,
    OnlyA,
    OnlyB,
    OnlyC,
    Changed,
}

/// One row of the side-by-side comparison: the line of each file shown in
/// it, if any.
#[derive(Debug, Clone)]
pub struct DiffLine {
    pub line_a: Option<String>,
    pub line_b: Option<String>,
    pub line_c: Option<String>,
    pub kind: LineKind,
}

/// A row as texts.
pub type DiffLineView = (Option<Seq<char>>, Option<Seq<char>>, Option<Seq<char>>, LineKind);

impl DiffLine {
    pub open spec fn view_tuple(self) -> DiffLineView {
        (
            match self.line_a {
                Some(s) => Some(s@),
                None => None,
            },
            match self.line_b {
                Some(s) => Some(s@),
                None => None,
            },
            match self.line_c {
                Some(s) => Some(s@),
                None => None,
            },
            self.kind,
        )
    }
}

/// The text of line `i`, if the file has it.
pub open spec fn text_at(lines: Seq<LineData>, i: int) -> Option<Seq<char>> {
    if 0 <= i < lines.len() {
        Some(lines[i].text())
    } else {
        None
    }
}

/// The rows of one diff whose lines start at `ia` in A and `ib` in B: its
/// equal lines side by side, then the lines only in A, then those only in B.
pub open spec fn diff_rows(d: Diff, la: Seq<LineData>, lb: Seq<LineData>, ia: int, ib: int) -> Seq<DiffLineView> {
    Seq::new(d.nof_equals as nat, |k: int| (text_at(la, ia + k), text_at(lb, ib + k), None, LineKind::Equal))
        + Seq::new(d.diff1 as nat, |k: int| (text_at(la, ia + d.nof_equals + k), None, None, LineKind::OnlyA))
        + Seq::new(d.diff2 as nat, |k: int| (None, text_at(lb, ib + d.nof_equals + k), None, LineKind::OnlyB))
}

/// The rows of a sequence of diffs.
pub open spec fn rows_of(ds: Seq<Diff>, la: Seq<LineData>, lb: Seq<LineData>) -> Seq<DiffLineView>
    decreases ds.len(),
{
    if ds.len() == 0 {
        Seq::empty()
    } else {
        rows_of(ds.drop_last(), la, lb) + diff_rows(
            ds.last(),
            la,
            lb,
            lines_first(ds.drop_last()) as int,
            lines_second(ds.drop_last()) as int,
        )
    }
}

/// The lines of a source that may be absent.
pub open spec fn source_lines(s: Option<&SourceData>) -> Seq<LineData> {
    match s {
        Some(src) => src.lines@,
        None => Seq::empty(),
    }
}

/// The texts of a row sequence.
pub open spec fn row_views(v: Seq<DiffLine>) -> Seq<DiffLineView> {
    v.map_values(|r: DiffLine| r.view_tuple())
}

fn line_text(lines: &[LineData], i: usize) -> (r: Option<String>)
    requires
        lines_wf(lines@),
    ensures
        match r {
            Some(s) => text_at(lines@, i as int) == Some(s@),
            None => text_at(lines@, i as int) is None,
        },
{
    if i < lines.len() {
        Some(lines[i].get_line().to_owned())
    } else {
        None
    }
}

/// The rows of the side-by-side comparison of A and B.
pub fn build_diff_lines(
    a: Option<&SourceData>,
    b: Option<&SourceData>,
    c: Option<&SourceData>,
    diff_ab: &DiffList,
) -> (result: Vec<DiffLine>)
    requires
        lines_wf(source_lines(a)),
        lines_wf(source_lines(b)),
        lines_first(diff_ab.0@) <= usize::MAX,
        lines_second(diff_ab.0@) <= usize::MAX,
    ensures
        row_views(result@) == rows_of(diff_ab.0@, source_lines(a), source_lines(b)),
{
    let empty: Vec<LineData> = Vec::new();
    let lines_a: &[LineData] = match a {
        Some(s) => s.lines.as_slice(),
        None => empty.as_slice(),
    };
    let lines_b: &[LineData] = match b {
        Some(s) => s.lines.as_slice(),
        None => empty.as_slice(),
    };
    let ghost la = source_lines(a);
    let ghost lb = source_lines(b);
    proof {
        assert(lines_a@ =~= la);
        assert(lines_b@ =~= lb);
    }
    let ghost ds = diff_ab.0@;
    let mut result: Vec<DiffLine> = Vec::new();
    let mut idx_a: usize = 0;
    let mut idx_b: usize = 0;
    let mut i: usize = 0;
    while i < diff_ab.0.len()
        invariant
            ds == diff_ab.0@,
            lines_a@ == la,
            lines_b@ == lb,
            lines_wf(la),
            lines_wf(lb),
            i <= ds.len(),
            lines_first(ds) <= usize::MAX,
            lines_second(ds) <= usize::MAX,
            idx_a == lines_first(ds.take(i as int)),
            idx_b == lines_second(ds.take(i as int)),
            row_views(result@) == rows_of(ds.take(i as int), la, lb),
        decreases ds.len() - i,
    {
        proof {
            lemma_lines_prefix(ds, i + 1);
            assert(ds.take(i + 1).drop_last() =~= ds.take(i as int));
        }
        let d = &diff_ab.0[i];
        let ghost start = row_views(result@);
        let ghost a0 = idx_a as int;
        let ghost b0 = idx_b as int;
        let mut k: usize = 0;
        while k < d.nof_equals
            invariant
                lines_wf(la),
                lines_wf(lb),
                lines_a@ == la,
                lines_b@ == lb,
                k <= d.nof_equals,
                idx_a == a0 + k,
                idx_b == b0 + k,
                a0 + d.nof_equals + d.diff1 <= usize::MAX,
                b0 + d.nof_equals + d.diff2 <= usize::MAX,
                row_views(result@) == start + Seq::new(
                    k as nat,
                    |j: int| (text_at(la, a0 + j), text_at(lb, b0 + j), None, LineKind::Equal),
                ),
            decreases d.nof_equals - k,
        {
            let row = DiffLine {
                line_a: line_text(lines_a, idx_a),
                line_b: line_text(lines_b, idx_b),
                line_c: None,
                kind: LineKind::Equal,
            };
            let ghost prev = row_views(result@);
            proof {
                assert(row.view_tuple() == (text_at(la, a0 + k), text_at(lb, b0 + k), None::<Seq<char>>, LineKind::Equal));
            }
            let ghost rv = row.view_tuple();
            result.push(row);
            proof {
                assert(row_views(result@) =~= prev.push(rv));
            }
            idx_a += 1;
            idx_b += 1;
            k += 1;
            proof {
                assert(row_views(result@) =~= start + Seq::new(
                    k as nat,
                    |j: int| (text_at(la, a0 + j), text_at(lb, b0 + j), None, LineKind::Equal),
                ));
            }
        }
        let ghost s1 = row_views(result@);
        let mut k: usize = 0;
        while k < d.diff1
            invariant
                lines_wf(la),
                lines_a@ == la,
                k <= d.diff1,
                idx_a == a0 + d.nof_equals + k,
                a0 + d.nof_equals + d.diff1 <= usize::MAX,
                row_views(result@) == s1 + Seq::new(
                    k as nat,
                    |j: int| (text_at(la, a0 + d.nof_equals + j), None, None, LineKind::OnlyA),
                ),
            decreases d.diff1 - k,
        {
            let row = DiffLine {
                line_a: line_text(lines_a, idx_a),
                line_b: None,
                line_c: None,
                kind: LineKind::OnlyA,
            };
            let ghost prev = row_views(result@);
            proof {
                assert(row.view_tuple() == (text_at(la, a0 + d.nof_equals + k), None::<Seq<char>>, None::<Seq<char>>, LineKind::OnlyA));
            }
            let ghost rv = row.view_tuple();
            result.push(row);
            proof {
                assert(row_views(result@) =~= prev.push(rv));
            }
            idx_a += 1;
            k += 1;
            proof {
                assert(row_views(result@) =~= s1 + Seq::new(
                    k as nat,
                    |j: int| (text_at(la, a0 + d.nof_equals + j), None, None, LineKind::OnlyA),
                ));
            }
        }
        let ghost s2 = row_views(result@);
        let mut k: usize = 0;
        while k < d.diff2
            invariant
                lines_wf(lb),
                lines_b@ == lb,
                k <= d.diff2,
                idx_b == b0 + d.nof_equals + k,
                b0 + d.nof_equals + d.diff2 <= usize::MAX,
                row_views(result@) == s2 + Seq::new(
                    k as nat,
                    |j: int| (None, text_at(lb, b0 + d.nof_equals + j), None, LineKind::OnlyB),
                ),
            decreases d.diff2 - k,
        {
            let row = DiffLine {
                line_a: None,
                line_b: line_text(lines_b, idx_b),
                line_c: None,
                kind: LineKind::OnlyB,
            };
            let ghost prev = row_views(result@);
            proof {
                assert(row.view_tuple() == (None::<Seq<char>>, text_at(lb, b0 + d.nof_equals + k), None::<Seq<char>>, LineKind::OnlyB));
            }
            let ghost rv = row.view_tuple();
            result.push(row);
            proof {
                assert(row_views(result@) =~= prev.push(rv));
            }
            idx_b += 1;
            k += 1;
            proof {
                assert(row_views(result@) =~= s2 + Seq::new(
                    k as nat,
                    |j: int| (None, text_at(lb, b0 + d.nof_equals + j), None, LineKind::OnlyB),
                ));
            }
        }
        i += 1;
        proof {
            assert(row_views(result@) =~= rows_of(ds.take(i as int), la, lb));
        }
    }
    proof {
        assert(ds.take(i as int) =~= ds);
    }
    result
}

/// The lines of a source that may be absent.
pub open spec fn owned_lines(s: Option<SourceData>) -> Seq<LineData> {
    match s {
        Some(src) => src.lines@,
        None => Seq::empty(),
    }
}

/// The texts shown in the A cells of the rows (`a_side`) or in their B
/// cells, in order, leaving out empty cells.
pub open spec fn side_cells(rows: Seq<DiffLineView>, a_side: bool) -> Seq<Seq<char>>
    decreases rows.len(),
{
    if rows.len() == 0 {
        Seq::empty()
    } else {
        let cell = if a_side {
            rows.last().0
        } else {
            rows.last().1
        };
        side_cells(rows.drop_last(), a_side) + match cell {
            Some(t) => seq![t],
            None => Seq::empty(),
        }
    }
}

proof fn lemma_side_cells_concat(x: Seq<DiffLineView>, y: Seq<DiffLineView>, a_side: bool)
    ensures
        side_cells(x + y, a_side) == side_cells(x, a_side) + side_cells(y, a_side),
    decreases y.len(),
{
    if y.len() == 0 {
        assert(x + y =~= x);
    } else {
        lemma_side_cells_concat(x, y.drop_last(), a_side);
        assert((x + y).drop_last() =~= x + y.drop_last());
        assert((x + y).last() == y.last());
    }
}

/// The cells of `n` rows that show the lines `start..start + n` of a file
/// on one side show exactly those lines; rows whose cell on that side is
/// empty show nothing there.
proof fn lemma_run_cells(
    rows: Seq<DiffLineView>,
    lines: Seq<LineData>,
    start: int,
    a_side: bool,
    filled: bool,
)
    requires
        0 <= start,
        filled ==> start + rows.len() <= lines.len(),
        forall|k: int|
            0 <= k < rows.len() ==> (if a_side {
                (#[trigger] rows[k]).0
            } else {
                rows[k].1
            }) == if filled {
                text_at(lines, start + k)
            } else {
                None
            },
    ensures
        side_cells(rows, a_side) == if filled {
            all_texts(lines).subrange(start, start + rows.len())
        } else {
            Seq::empty()
        },
    decreases rows.len(),
{
    if rows.len() > 0 {
        let p = rows.drop_last();
        assert forall|k: int| 0 <= k < p.len() implies (if a_side {
            (#[trigger] p[k]).0
        } else {
            p[k].1
        }) == if filled {
            text_at(lines, start + k)
        } else {
            None
        } by {
            assert(p[k] == rows[k]);
        }
        lemma_run_cells(p, lines, start, a_side, filled);
        let k = rows.len() - 1;
        assert(rows.last() == rows[k]);
        if filled {
            assert(all_texts(lines).subrange(start, start + rows.len()) =~= all_texts(lines).subrange(
                start,
                start + k,
            ).push(lines[start + k].text()));
        }
    }
}

/// The rows of the side-by-side view show, in their A cells, the lines of A
/// in order, and in their B cells the lines of B in order: each line that
/// the diffs describe once, on its own side.
pub proof fn law_rows_show_each_file(ds: Seq<Diff>, la: Seq<LineData>, lb: Seq<LineData>)
    requires
        lines_first(ds) <= la.len(),
        lines_second(ds) <= lb.len(),
    ensures
        side_cells(rows_of(ds, la, lb), true) == all_texts(la).subrange(0, lines_first(ds) as int),
        side_cells(rows_of(ds, la, lb), false) == all_texts(lb).subrange(0, lines_second(ds) as int),
    decreases ds.len(),
{
    if ds.len() == 0 {
        assert(all_texts(la).subrange(0, 0) =~= Seq::<Seq<char>>::empty());
        assert(all_texts(lb).subrange(0, 0) =~= Seq::<Seq<char>>::empty());
    } else {
        let p = ds.drop_last();
        let d = ds.last();
        let ia = lines_first(p) as int;
        let ib = lines_second(p) as int;
        law_rows_show_each_file(p, la, lb);
        let eq = Seq::new(d.nof_equals as nat, |k: int| (text_at(la, ia + k), text_at(lb, ib + k), None, LineKind::Equal));
        let oa = Seq::new(d.diff1 as nat, |k: int| (text_at(la, ia + d.nof_equals + k), None, None, LineKind::OnlyA));
        let ob = Seq::new(d.diff2 as nat, |k: int| (None, text_at(lb, ib + d.nof_equals + k), None, LineKind::OnlyB));
        assert(diff_rows(d, la, lb, ia, ib) == eq + oa + ob);
        let r0 = rows_of(p, la, lb);
        assert(rows_of(ds, la, lb) == r0 + (eq + oa + ob));
        lemma_side_cells_concat(r0, eq + oa + ob, true);
        lemma_side_cells_concat(r0, eq + oa + ob, false);
        lemma_side_cells_concat(eq + oa, ob, true);
        lemma_side_cells_concat(eq + oa, ob, false);
        lemma_side_cells_concat(eq, oa, true);
        lemma_side_cells_concat(eq, oa, false);
        assert(eq + (oa + ob) =~= eq + oa + ob);
        lemma_run_cells(eq, la, ia, true, true);
        lemma_run_cells(eq, lb, ib, false, true);
        lemma_run_cells(oa, la, ia + d.nof_equals, true, true);
        lemma_run_cells(oa, lb, 0, false, false);
        lemma_run_cells(ob, la, 0, true, false);
        lemma_run_cells(ob, lb, ib + d.nof_equals, false, true);
        let ta = all_texts(la);
        let tb = all_texts(lb);
        assert(ta.subrange(0, ia) + ta.subrange(ia, ia + d.nof_equals) + ta.subrange(
            ia + d.nof_equals,
            ia + d.nof_equals + d.diff1,
        ) =~= ta.subrange(0, lines_first(ds) as int));
        assert(tb.subrange(0, ib) + tb.subrange(ib, ib + d.nof_equals) + tb.subrange(
            ib + d.nof_equals,
            ib + d.nof_equals + d.diff2,
        ) =~= tb.subrange(0, lines_second(ds) as int));
    }
}

/// Where the diffs' equal runs pair lines with the same text, every equal
/// row shows the same text in its A and its B cell.
pub proof fn law_equal_rows_agree(ds: Seq<Diff>, la: Seq<LineData>, lb: Seq<LineData>)
    requires
        lines_first(ds) <= la.len(),
        lines_second(ds) <= lb.len(),
        runs_match(ds, all_texts(la), all_texts(lb)),
    ensures
        forall|k: int|
            0 <= k < rows_of(ds, la, lb).len() && (#[trigger] rows_of(ds, la, lb)[k]).3 == LineKind::Equal
                ==> rows_of(ds, la, lb)[k].0 == rows_of(ds, la, lb)[k].1,
    decreases ds.len(),
{
    if ds.len() > 0 {
        let p = ds.drop_last();
        let d = ds.last();
        let ia = lines_first(p) as int;
        let ib = lines_second(p) as int;
        law_equal_rows_agree(p, la, lb);
        let r0 = rows_of(p, la, lb);
        let t = diff_rows(d, la, lb, ia, ib);
        let r = rows_of(ds, la, lb);
        assert(r == r0 + t);
        assert forall|k: int| 0 <= k < r.len() && (#[trigger] r[k]).3 == LineKind::Equal implies r[k].0 == r[k].1 by {
            if k < r0.len() {
                assert(r[k] == r0[k]);
            } else {
                let j = k - r0.len();
                assert(r[k] == t[j]);
                if j < d.nof_equals {
                    assert(all_texts(la)[ia + j] == all_texts(lb)[ib + j]);
                }
            }
        }
    }
}

/// Whether the comparison shows two files or three.
#[derive(Debug, Clone, Copy, PartialEq, Eq, Structural)]
pub enum ViewMode {
    TwoWay,
    ThreeWay,
}

/// The side-by-side comparison view: its rows, whether line numbers are
/// shown, and whether it shows two files or three.
pub struct DiffView {
    pub lines: Vec<DiffLine>,
    pub show_line_numbers: bool,
    pub mode: ViewMode,
}

impl DiffView {
    pub fn new() -> (r: Self)
        ensures
            r.lines@.len() == 0,
            r.show_line_numbers,
            r.mode == ViewMode::TwoWay,
    {
        Self { lines: Vec::new(), show_line_numbers: true, mode: ViewMode::TwoWay }
    }

    /// Shows the comparison of the given files: three-way when C is given,
    /// the rows of A against B.
    pub fn set_sources(
        &mut self,
        a: Option<SourceData>,
        b: Option<SourceData>,
        c: Option<SourceData>,
        diff_ab: DiffList,
        diff_ac: Option<DiffList>,
    )
        requires
            lines_wf(owned_lines(a)),
            lines_wf(owned_lines(b)),
            lines_first(diff_ab.0@) <= usize::MAX,
            lines_second(diff_ab.0@) <= usize::MAX,
        ensures
            final(self).mode == (if c is Some {
                ViewMode::ThreeWay
            } else {
                ViewMode::TwoWay
            }),
            row_views(final(self).lines@) == rows_of(diff_ab.0@, owned_lines(a), owned_lines(b)),
            final(self).show_line_numbers == old(self).show_line_numbers,
    {
        self.mode = if c.is_some() {
            ViewMode::ThreeWay
        } else {
            ViewMode::TwoWay
        };
        self.lines = build_diff_lines(a.as_ref(), b.as_ref(), c.as_ref(), &diff_ab);
    }
}

/// The label of a cell: the text, after the row number right-aligned in
/// four columns and a bar when line numbers are shown.
pub open spec fn cell_label(row: nat, text: Seq<char>, numbered: bool) -> Seq<char> {
    if numbered {
        spaced_decimal(row, 4) + " │ "@ + text
    } else {
        text
    }
}

/// The label of the cell of row `i` (counted from zero) with the given text.
pub fn row_label(i: usize, text: &str, numbered: bool) -> (r: String)
    requires
        i < usize::MAX,
    ensures
        r@ == cell_label((i + 1) as nat, text@, numbered),
{
    let mut s = String::new();
    if numbered {
        push_spaced_decimal(&mut s, (i + 1) as u64, 4);
        push_str(&mut s, " │ ");
        push_str(&mut s, text);
        proof {
            reveal_strlit(" │ ");
            assert(s@ =~= cell_label((i + 1) as nat, text@, numbered));
        }
    } else {
        push_str(&mut s, text);
        proof {
            assert(s@ =~= text@);
        }
    }
    s
}

/// Which cells of a row are highlighted: A's for a line only in A or
/// changed, B's for a line only in B or changed, C's for a line only in C.
pub fn highlight(kind: LineKind) -> (r: (bool, bool, bool))
    ensures
        r.0 == (kind == LineKind::OnlyA || kind == LineKind::Changed),
        r.1 == (kind == LineKind::OnlyB || kind == LineKind::Changed),
        r.2 == (kind == LineKind::OnlyC),
{
    match kind {
        LineKind::OnlyA => (true, false, false),
        LineKind::OnlyB => (false, true, false),
        LineKind::OnlyC => (false, false, true),
        LineKind::Changed => (true, true, false),
        LineKind::Equal => (false, false, false),
    }
}

} // verus!
