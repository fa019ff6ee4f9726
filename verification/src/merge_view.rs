use vstd::prelude::*;

use crate::diff::{Diff, DiffList};
use crate::diff_view::{cell_label, row_label};
use crate::text_fmt::{decimal, padded_decimal, push_decimal, push_str};

verus! {

/// Where a line of the merge result comes from.
#[derive(Debug, Clone, PartialEq, Eq)]
pub enum LineSource {
    A,
    B,
    C,
    Conflict,
    Resolved(String),
}

/// One line of the merge result.
#[derive(Debug, Clone)]
pub struct MergeLine {
    pub content: String,
    pub source: LineSource,
}

/// The merge result view: its lines, the number of conflicts and the
/// conflict the user is at.
pub struct MergeView {
    lines: Vec<MergeLine>,
    conflict_count: usize,
    current_conflict: usize,
}

/// The text of the marker line for a conflict of `d1` lines of A against
/// `d2` lines of B.
pub open spec fn conflict_text(d1: nat, d2: nat) -> Seq<char> {
    "<<<<<<< (충돌: A "@ + decimal(d1) + "줄, B "@ + decimal(d2) + "줄)"@
}

/// The merge result lines of one diff: a line from A for each equal line,
/// then a conflict marker if both sides changed, else a line from B for each
/// line that only B has.
pub open spec fn merge_rows(d: Diff) -> Seq<(Seq<char>, LineSource)> {
    Seq::new(d.nof_equals as nat, |k: int| (Seq::<char>::empty(), LineSource::A)) + if d.diff1 > 0
        && d.diff2 > 0 {
        seq![(conflict_text(d.diff1 as nat, d.diff2 as nat), LineSource::Conflict)]
    } else if d.diff2 > 0 {
        Seq::new(d.diff2 as nat, |k: int| (Seq::<char>::empty(), LineSource::B))
    } else {
        Seq::empty()
    }
}

/// The merge result lines of a sequence of diffs.
pub open spec fn merge_rows_of(ds: Seq<Diff>) -> Seq<(Seq<char>, LineSource)>
    decreases ds.len(),
{
    if ds.len() == 0 {
        Seq::empty()
    } else {
        merge_rows_of(ds.drop_last()) + merge_rows(ds.last())
    }
}

/// The number of diffs where both sides changed lines.
pub open spec fn both_changed_count(ds: Seq<Diff>) -> nat
    decreases ds.len(),
{
    if ds.len() == 0 {
        0
    } else {
        both_changed_count(ds.drop_last()) + if ds.last().diff1 > 0 && ds.last().diff2 > 0 {
            1nat
        } else {
            0nat
        }
    }
}

/// The texts and sources of merge result lines.
pub open spec fn line_views(v: Seq<MergeLine>) -> Seq<(Seq<char>, LineSource)> {
    v.map_values(|l: MergeLine| (l.content@, l.source))
}

impl MergeView {
    pub closed spec fn rows(&self) -> Seq<(Seq<char>, LineSource)> {
        line_views(self.lines@)
    }

    pub closed spec fn conflicts(&self) -> nat {
        self.conflict_count as nat
    }

    pub closed spec fn current(&self) -> nat {
        self.current_conflict as nat
    }

    pub fn new() -> (r: Self)
        ensures
            r.rows() == Seq::<(Seq<char>, LineSource)>::empty(),
            r.conflicts() == 0,
            r.current() == 0,
    {
        let r = Self { lines: Vec::new(), conflict_count: 0, current_conflict: 0 };
        proof {
            assert(r.rows() =~= Seq::<(Seq<char>, LineSource)>::empty());
        }
        r
    }

    /// Fills the view from the diff of A and B: equal lines come from A, a
    /// change of both sides is one conflict line, lines only in B come from B.
    pub fn set_diff(&mut self, diff_ab: DiffList, _diff_ac: Option<DiffList>)
        ensures
            final(self).rows() == merge_rows_of(diff_ab.0@),
            final(self).conflicts() == both_changed_count(diff_ab.0@),
            final(self).current() == old(self).current(),
    {
        self.lines = Vec::new();
        self.conflict_count = 0;
        let ghost ds = diff_ab.0@;
        proof {
            assert(line_views(self.lines@) =~= merge_rows_of(ds.take(0)));
        }
        let mut i: usize = 0;
        while i < diff_ab.0.len()
            invariant
                ds == diff_ab.0@,
                i <= ds.len(),
                line_views(self.lines@) == merge_rows_of(ds.take(i as int)),
                self.conflict_count == both_changed_count(ds.take(i as int)),
                self.conflict_count <= i,
                self.current_conflict == old(self).current_conflict,
            decreases ds.len() - i,
        {
            proof {
                assert(ds.take(i + 1).drop_last() =~= ds.take(i as int));
            }
            let d = &diff_ab.0[i];
            let ghost start = line_views(self.lines@);
            let mut k: usize = 0;
            while k < d.nof_equals
                invariant
                    k <= d.nof_equals,
                    self.conflict_count == both_changed_count(ds.take(i as int)),
                    self.conflict_count <= i,
                    self.current_conflict == old(self).current_conflict,
                    line_views(self.lines@) == start + Seq::new(
                        k as nat,
                        |j: int| (Seq::<char>::empty(), LineSource::A),
                    ),
                decreases d.nof_equals - k,
            {
                let line = MergeLine { content: String::new(), source: LineSource::A };
                let ghost prev = line_views(self.lines@);
                proof {
                    assert(line.content@ == Seq::<char>::empty());
                }
                self.lines.push(line);
                proof {
                    assert(line_views(self.lines@) =~= prev.push((Seq::<char>::empty(), LineSource::A)));
                }
                k += 1;
                proof {
                    assert(line_views(self.lines@) =~= start + Seq::new(
                        k as nat,
                        |j: int| (Seq::<char>::empty(), LineSource::A),
                    ));
                }
            }
            let ghost s1 = line_views(self.lines@);
            if d.diff1 > 0 && d.diff2 > 0 {
                let mut text = String::new();
                push_str(&mut text, "<<<<<<< (충돌: A ");
                push_decimal(&mut text, d.diff1 as u64, 0);
                push_str(&mut text, "줄, B ");
                push_decimal(&mut text, d.diff2 as u64, 0);
                push_str(&mut text, "줄)");
                proof {
                    assert(padded_decimal(d.diff1 as nat, 0) == decimal(d.diff1 as nat));
                    assert(padded_decimal(d.diff2 as nat, 0) == decimal(d.diff2 as nat));
                    assert(text@ =~= conflict_text(d.diff1 as nat, d.diff2 as nat));
                }
                let ghost tv = text@;
                let ghost prev = line_views(self.lines@);
                self.lines.push(MergeLine { content: text, source: LineSource::Conflict });
                proof {
                    assert(line_views(self.lines@) =~= prev.push((tv, LineSource::Conflict)));
                }
                self.conflict_count += 1;
                proof {
                    assert(line_views(self.lines@) =~= s1.push(
                        (conflict_text(d.diff1 as nat, d.diff2 as nat), LineSource::Conflict),
                    ));
                }
            } else if d.diff2 > 0 {
                let mut k: usize = 0;
                while k < d.diff2
                    invariant
                        k <= d.diff2,
                        self.conflict_count == both_changed_count(ds.take(i as int)),
                        self.conflict_count <= i,
                        self.current_conflict == old(self).current_conflict,
                        line_views(self.lines@) == s1 + Seq::new(
                            k as nat,
                            |j: int| (Seq::<char>::empty(), LineSource::B),
                        ),
                    decreases d.diff2 - k,
                {
                    let line = MergeLine { content: String::new(), source: LineSource::B };
                    let ghost prev = line_views(self.lines@);
                    proof {
                        assert(line.content@ == Seq::<char>::empty());
                    }
                    self.lines.push(line);
                    proof {
                        assert(line_views(self.lines@) =~= prev.push((Seq::<char>::empty(), LineSource::B)));
                    }
                    k += 1;
                    proof {
                        assert(line_views(self.lines@) =~= s1 + Seq::new(
                            k as nat,
                            |j: int| (Seq::<char>::empty(), LineSource::B),
                        ));
                    }
                }
            }
            i += 1;
            proof {
                assert(line_views(self.lines@) =~= merge_rows_of(ds.take(i as int)));
            }
        }
        proof {
            assert(ds.take(i as int) =~= ds);
        }
    }

    /// Steps back to the previous conflict (the toolbar's "previous" button).
    pub fn select_prev_conflict(&mut self)
        ensures
            final(self).current() == if old(self).current() > 0 {
                old(self).current() - 1
            } else {
                0
            },
            final(self).rows() == old(self).rows(),
            final(self).conflicts() == old(self).conflicts(),
    {
        if self.current_conflict > 0 {
            self.current_conflict -= 1;
        }
    }

    /// Steps on to the next conflict (the toolbar's "next" button), up to the
    /// number of conflicts.
    pub fn select_next_conflict(&mut self)
        ensures
            final(self).current() == if old(self).current() < old(self).conflicts() {
                old(self).current() + 1
            } else {
                old(self).current()
            },
            final(self).rows() == old(self).rows(),
            final(self).conflicts() == old(self).conflicts(),
    {
        if self.current_conflict < self.conflict_count {
            self.current_conflict += 1;
        }
    }

    /// Resolving the current conflict from a source is not implemented: the
    /// view stays as it is.
    pub fn resolve_current(&mut self, _source: LineSource)
        ensures
            final(self).rows() == old(self).rows(),
            final(self).conflicts() == old(self).conflicts(),
            final(self).current() == old(self).current(),
    {
    }

    pub fn conflict_count(&self) -> (r: usize)
        ensures
            r == self.conflicts(),
    {
        self.conflict_count
    }

    pub fn current_conflict(&self) -> (r: usize)
        ensures
            r == self.current(),
    {
        self.current_conflict
    }

    /// The lines of the merge result.
    pub fn lines(&self) -> (r: &Vec<MergeLine>)
        ensures
            line_views(r@) == self.rows(),
    {
        &self.lines
    }
}

/// The mark in front of a merge result line that tells where it comes from.
pub open spec fn source_mark(s: LineSource) -> Seq<char> {
    match s {
        LineSource::Conflict => "!! "@,
        LineSource::Resolved(_) => "✓  "@,
        LineSource::B => "B  "@,
        LineSource::A => "A  "@,
        LineSource::C => "C  "@,
    }
}

fn mark_of(s: &LineSource) -> (r: &'static str)
    ensures
        r@ == source_mark(*s),
{
    let r = match s {
        LineSource::Conflict => "!! ",
        LineSource::Resolved(_) => "✓  ",
        LineSource::B => "B  ",
        LineSource::A => "A  ",
        LineSource::C => "C  ",
    };
    proof {
        reveal_strlit("!! ");
        reveal_strlit("✓  ");
        reveal_strlit("B  ");
        reveal_strlit("A  ");
        reveal_strlit("C  ");
    }
    r
}

/// The text shown for line `i` (counted from zero) of the merge result: its
/// number right-aligned in four columns, a bar, the mark of its source and
/// its content.
pub fn merge_line_label(i: usize, line: &MergeLine) -> (r: String)
    requires
        i < usize::MAX,
    ensures
        r@ == cell_label((i + 1) as nat, source_mark(line.source) + line.content@, true),
{
    let mut text = String::new();
    push_str(&mut text, mark_of(&line.source));
    push_str(&mut text, line.content.as_str());
    row_label(i, text.as_str(), true)
}

} // verus!
