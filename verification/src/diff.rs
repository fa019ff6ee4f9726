use vstd::prelude::*;

use crate::line_data::{all_texts, lines_wf, LineData};

verus! {

/// Selects one of the input files (A is the base file, B the second, C the
/// third) or none of them (`NoSource`).
#[derive(Debug, Clone, Copy, PartialEq, Eq, Structural)]
pub enum SrcSelector {
    NoSource,
    A,
    B,
    C,
}

impl SrcSelector {
    /// The selector that follows this one, cycling NoSource, A, B, C, NoSource.
    pub open spec fn successor(self) -> SrcSelector {
        match self {
            SrcSelector::NoSource => SrcSelector::A,
            SrcSelector::A => SrcSelector::B,
            SrcSelector::B => SrcSelector::C,
            SrcSelector::C => SrcSelector::NoSource,
        }
    }

    pub fn next(self) -> (r: Self)
        ensures
            r == self.successor(),
    {
        match self {
            SrcSelector::NoSource => SrcSelector::A,
            SrcSelector::A => SrcSelector::B,
            SrcSelector::B => SrcSelector::C,
            SrcSelector::C => SrcSelector::NoSource,
        }
    }
}

/// One unit of a diff between two files: `nof_equals` lines that are the same
/// in both, followed by `diff1` lines only in the first and `diff2` lines only
/// in the second.
#[derive(Debug, Clone, PartialEq, Eq, Structural)]
pub struct Diff {
    pub nof_equals: usize,
    pub diff1: usize,
    pub diff2: usize,
}

impl Diff {
    /// The result of absorbing an equal run of fewer than four lines into the
    /// changed lines that follow it.
    pub open spec fn refined(self) -> Diff {
        if self.nof_equals < 4 && (self.diff1 > 0 || self.diff2 > 0) {
            Diff {
                nof_equals: 0,
                diff1: (self.diff1 + self.nof_equals) as usize,
                diff2: (self.diff2 + self.nof_equals) as usize,
            }
        } else {
            self
        }
    }

    pub fn new(nof_equals: usize, diff1: usize, diff2: usize) -> (r: Self)
        ensures
            r == (Diff { nof_equals, diff1, diff2 }),
    {
        Self { nof_equals, diff1, diff2 }
    }

    pub fn is_empty(&self) -> (r: bool)
        ensures
            r == (self.nof_equals == 0 && self.diff1 == 0 && self.diff2 == 0),
    {
        self.nof_equals == 0 && self.diff1 == 0 && self.diff2 == 0
    }

    /// Absorbs a short equal run (fewer than four lines) into the diff, so that
    /// it counts as changed on both sides.
    pub fn refine(&mut self)
        requires
            old(self).nof_equals < 4 && (old(self).diff1 > 0 || old(self).diff2 > 0) ==> {
                &&& old(self).diff1 + old(self).nof_equals <= usize::MAX
                &&& old(self).diff2 + old(self).nof_equals <= usize::MAX
            },
        ensures
            *final(self) == old(self).refined(),
            final(self).nof_equals + final(self).diff1 == old(self).nof_equals + old(self).diff1,
            final(self).nof_equals + final(self).diff2 == old(self).nof_equals + old(self).diff2,
    {
        if self.nof_equals < 4 && (self.diff1 > 0 || self.diff2 > 0) {
            self.diff1 += self.nof_equals;
            self.diff2 += self.nof_equals;
            self.nof_equals = 0;
        }
    }
}

/// Refining a refined diff changes nothing.
pub proof fn law_refine_idempotent(d: Diff)
    requires
        d.nof_equals < 4 && (d.diff1 > 0 || d.diff2 > 0) ==> {
            &&& d.diff1 + d.nof_equals <= usize::MAX
            &&& d.diff2 + d.nof_equals <= usize::MAX
        },
    ensures
        d.refined().refined() == d.refined(),
{
}

/// The number of lines of the first file that a sequence of diffs describes.
pub open spec fn lines_first(ds: Seq<Diff>) -> nat
    decreases ds.len(),
{
    if ds.len() == 0 {
        0
    } else {
        (lines_first(ds.drop_last()) + ds.last().nof_equals + ds.last().diff1) as nat
    }
}

/// The number of lines of the second file that a sequence of diffs describes.
pub open spec fn lines_second(ds: Seq<Diff>) -> nat
    decreases ds.len(),
{
    if ds.len() == 0 {
        0
    } else {
        (lines_second(ds.drop_last()) + ds.last().nof_equals + ds.last().diff2) as nat
    }
}

/// A prefix of a diff sequence describes no more lines than the whole.
pub proof fn lemma_lines_prefix(ds: Seq<Diff>, i: int)
    requires
        0 <= i <= ds.len(),
    ensures
        lines_first(ds.take(i)) <= lines_first(ds),
        lines_second(ds.take(i)) <= lines_second(ds),
    decreases ds.len() - i,
{
    if i < ds.len() {
        lemma_lines_prefix(ds, i + 1);
        assert(ds.take(i + 1).drop_last() =~= ds.take(i));
    } else {
        assert(ds.take(i) =~= ds);
    }
}

/// The whole diff of two files.
#[derive(Debug, Clone, Default)]
pub struct DiffList(pub Vec<Diff>);

impl DiffList {
    pub fn is_empty(&self) -> (r: bool)
        ensures
            r == (self.0@.len() == 0),
    {
        self.0.is_empty()
    }

    /// Iterates over the diffs in order.
    /// The numbers of lines of the first and of the second file that the
    /// diffs describe, when both fit in a `usize`.
    pub fn line_totals(&self) -> (r: Option<(usize, usize)>)
        ensures
            r is Some <==> (lines_first(self.0@) <= usize::MAX && lines_second(self.0@)
                <= usize::MAX),
            r matches Some(t) ==> t.0 == lines_first(self.0@) && t.1 == lines_second(self.0@),
    {
        let mut f: usize = 0;
        let mut s: usize = 0;
        let mut f_ok = true;
        let mut s_ok = true;
        let mut i: usize = 0;
        while i < self.0.len()
            invariant
                i <= self.0@.len(),
                f_ok ==> f == lines_first(self.0@.take(i as int)),
                !f_ok ==> lines_first(self.0@.take(i as int)) > usize::MAX,
                s_ok ==> s == lines_second(self.0@.take(i as int)),
                !s_ok ==> lines_second(self.0@.take(i as int)) > usize::MAX,
            decreases self.0@.len() - i,
        {
            proof {
                assert(self.0@.take(i + 1).drop_last() =~= self.0@.take(i as int));
            }
            let d = &self.0[i];
            if f_ok {
                match f.checked_add(d.nof_equals) {
                    Some(x) => match x.checked_add(d.diff1) {
                        Some(y) => f = y,
                        None => f_ok = false,
                    },
                    None => f_ok = false,
                }
            }
            if s_ok {
                match s.checked_add(d.nof_equals) {
                    Some(x) => match x.checked_add(d.diff2) {
                        Some(y) => s = y,
                        None => s_ok = false,
                    },
                    None => s_ok = false,
                }
            }
            i += 1;
        }
        proof {
            assert(self.0@.take(i as int) =~= self.0@);
        }
        if f_ok && s_ok {
            Some((f, s))
        } else {
            None
        }
    }

    pub fn iter(&self) -> (it: std::slice::Iter<'_, Diff>)
        ensures
            vstd::std_specs::slice::into_iter_elts(it) == self.0@,
    {
        proof {
            broadcast use vstd::std_specs::slice::axiom_spec_slice_iter;
        }
        let it = self.0.iter();
        proof {
            assert(vstd::std_specs::iter::IteratorSpec::remaining(&it).unref() =~= self.0@);
        }
        it
    }
}

/// How one line fares in a line-by-line comparison of two files: the same in
/// both, only in the first (deleted), or only in the second (inserted).
#[derive(Debug, Clone, Copy, PartialEq, Eq, Structural)]
pub enum LineChange {
    Equal,
    Delete,
    Insert,
}

/// The line-by-line changes that the `similar` crate's text diff reports
/// for two sequences of lines (first file, second file), in order.
pub uninterp spec fn similar_line_changes(old: Seq<Seq<char>>, new: Seq<Seq<char>>) -> Seq<LineChange>;

/// The texts of a sequence of string slices.
pub open spec fn str_texts(v: Seq<&str>) -> Seq<Seq<char>> {
    v.map_values(|s: &str| s@)
}

/// Each equal change pairs lines with the same text: the line of the first
/// file that it stands for (the number of equal and deleted changes before
/// it) and the line of the second (the number of equal and inserted ones).
pub open spec fn equal_changes_match(tags: Seq<LineChange>, ta: Seq<Seq<char>>, tb: Seq<Seq<char>>) -> bool {
    forall|k: int|
        0 <= k < tags.len() && (#[trigger] tags[k]) is Equal ==> ta[first_count(tags.take(k)) as int]
            == tb[second_count(tags.take(k)) as int]
}

/// Calls `similar::TextDiff::from_slices` on the two line sequences and
/// lists the tag of every change that `iter_all_changes` yields. The result
/// is taken to be `similar_line_changes` of the two sequences of line texts.
/// Beyond that it states that the changes account for every old line once,
/// in order (equal or deleted), and every new line once (equal or inserted);
/// that an equal change pairs an old and a new line with the same text (the
/// diff reports a line as equal only where the two compare equal); and that
/// two equal sequences give only equal lines (the Myers diff that the default
/// configuration runs strips their common prefix, which is all of them).
/// Which changes the algorithm picks for unequal sequences is not stated.
#[verifier::external_body]
fn line_changes(old: &[&str], new: &[&str]) -> (r: Vec<LineChange>)
    ensures
        r@ == similar_line_changes(str_texts(old@), str_texts(new@)),
        first_count(r@) == old@.len(),
        second_count(r@) == new@.len(),
        equal_changes_match(r@, str_texts(old@), str_texts(new@)),
        str_texts(old@) == str_texts(new@) ==> forall|k: int|
            0 <= k < r@.len() ==> (#[trigger] r@[k]) is Equal,
{
    let diff = similar::TextDiff::from_slices(old, new);
    diff.iter_all_changes().map(|c| match c.tag() {
        similar::ChangeTag::Equal => LineChange::Equal,
        similar::ChangeTag::Delete => LineChange::Delete,
        similar::ChangeTag::Insert => LineChange::Insert,
    }).collect()
}

/// Groups a sequence of line changes, from a running state, into diffs:
/// each maximal run of equal lines becomes one diff with only `nof_equals`,
/// each maximal run of deleted and inserted lines one diff with only `diff1`
/// and `diff2`.
pub open spec fn group_changes(
    tags: Seq<LineChange>,
    eq: nat,
    del: nat,
    ins: nat,
    acc: Seq<Diff>,
) -> Seq<Diff>
    decreases tags.len(),
{
    if tags.len() == 0 {
        if eq > 0 || del > 0 || ins > 0 {
            acc.push(Diff { nof_equals: eq as usize, diff1: del as usize, diff2: ins as usize })
        } else {
            acc
        }
    } else {
        let rest = tags.drop_first();
        match tags[0] {
            LineChange::Equal => if del > 0 || ins > 0 {
                group_changes(
                    rest,
                    eq + 1,
                    0,
                    0,
                    acc.push(Diff { nof_equals: 0, diff1: del as usize, diff2: ins as usize }),
                )
            } else {
                group_changes(rest, eq + 1, del, ins, acc)
            },
            LineChange::Delete => if eq > 0 {
                group_changes(
                    rest,
                    0,
                    del + 1,
                    ins,
                    acc.push(Diff { nof_equals: eq as usize, diff1: 0, diff2: 0 }),
                )
            } else {
                group_changes(rest, eq, del + 1, ins, acc)
            },
            LineChange::Insert => if eq > 0 {
                group_changes(
                    rest,
                    0,
                    del,
                    ins + 1,
                    acc.push(Diff { nof_equals: eq as usize, diff1: 0, diff2: 0 }),
                )
            } else {
                group_changes(rest, eq, del, ins + 1, acc)
            },
        }
    }
}

/// The diffs of a sequence of line changes.
pub open spec fn changes_to_diffs(tags: Seq<LineChange>) -> Seq<Diff> {
    group_changes(tags, 0, 0, 0, Seq::empty())
}

/// The number of lines of the first file among the changes (equal or deleted).
pub open spec fn first_count(tags: Seq<LineChange>) -> nat
    decreases tags.len(),
{
    if tags.len() == 0 {
        0
    } else {
        first_count(tags.drop_first()) + if tags[0] is Insert {
            0nat
        } else {
            1nat
        }
    }
}

/// The number of lines of the second file among the changes (equal or inserted).
pub open spec fn second_count(tags: Seq<LineChange>) -> nat
    decreases tags.len(),
{
    if tags.len() == 0 {
        0
    } else {
        second_count(tags.drop_first()) + if tags[0] is Delete {
            0nat
        } else {
            1nat
        }
    }
}

proof fn lemma_group_totals(tags: Seq<LineChange>, eq: nat, del: nat, ins: nat, acc: Seq<Diff>)
    requires
        eq + del + ins + tags.len() <= usize::MAX,
    ensures
        lines_first(group_changes(tags, eq, del, ins, acc)) == lines_first(acc) + eq + del + first_count(tags),
        lines_second(group_changes(tags, eq, del, ins, acc)) == lines_second(acc) + eq + ins + second_count(tags),
    decreases tags.len(),
{
    if tags.len() == 0 {
        if eq > 0 || del > 0 || ins > 0 {
            let d = Diff { nof_equals: eq as usize, diff1: del as usize, diff2: ins as usize };
            assert(acc.push(d).drop_last() =~= acc);
        }
    } else {
        let rest = tags.drop_first();
        match tags[0] {
            LineChange::Equal => if del > 0 || ins > 0 {
                let d = Diff { nof_equals: 0, diff1: del as usize, diff2: ins as usize };
                assert(acc.push(d).drop_last() =~= acc);
                lemma_group_totals(rest, eq + 1, 0, 0, acc.push(d));
            } else {
                lemma_group_totals(rest, eq + 1, del, ins, acc);
            },
            LineChange::Delete => if eq > 0 {
                let d = Diff { nof_equals: eq as usize, diff1: 0, diff2: 0 };
                assert(acc.push(d).drop_last() =~= acc);
                lemma_group_totals(rest, 0, del + 1, ins, acc.push(d));
            } else {
                lemma_group_totals(rest, eq, del + 1, ins, acc);
            },
            LineChange::Insert => if eq > 0 {
                let d = Diff { nof_equals: eq as usize, diff1: 0, diff2: 0 };
                assert(acc.push(d).drop_last() =~= acc);
                lemma_group_totals(rest, 0, del, ins + 1, acc.push(d));
            } else {
                lemma_group_totals(rest, eq, del, ins + 1, acc);
            },
        }
    }
}

/// Grouping a run of equal lines, from a state with no pending changes,
/// onto diffs that change nothing gives diffs that change nothing.
proof fn lemma_group_equal_only(tags: Seq<LineChange>, eq: nat, acc: Seq<Diff>)
    requires
        forall|k: int| 0 <= k < tags.len() ==> (#[trigger] tags[k]) is Equal,
        forall|k: int| 0 <= k < acc.len() ==> (#[trigger] acc[k]).diff1 == 0 && acc[k].diff2 == 0,
    ensures
        forall|k: int|
            0 <= k < group_changes(tags, eq, 0, 0, acc).len() ==> (#[trigger] group_changes(
                tags,
                eq,
                0,
                0,
                acc,
            )[k]).diff1 == 0 && group_changes(tags, eq, 0, 0, acc)[k].diff2 == 0,
    decreases tags.len(),
{
    if tags.len() == 0 {
        if eq > 0 {
            let d = Diff { nof_equals: eq as usize, diff1: 0, diff2: 0 };
            assert forall|k: int| 0 <= k < acc.push(d).len() implies (#[trigger] acc.push(d)[k]).diff1
                == 0 && acc.push(d)[k].diff2 == 0 by {
                if k < acc.len() {
                    assert(acc.push(d)[k] == acc[k]);
                }
            }
            assert(group_changes(tags, eq, 0, 0, acc) == acc.push(d));
        } else {
            assert(group_changes(tags, eq, 0, 0, acc) == acc);
        }
    } else {
        let rest = tags.drop_first();
        assert forall|k: int| 0 <= k < rest.len() implies (#[trigger] rest[k]) is Equal by {
            assert(rest[k] == tags[k + 1]);
        }
        assert(tags[0] is Equal);
        assert(group_changes(tags, eq, 0, 0, acc) == group_changes(rest, eq + 1, 0, 0, acc));
        lemma_group_equal_only(rest, eq + 1, acc);
    }
}

/// Every equal run of the diffs pairs lines with the same text: line `j` of
/// the run of a diff, counted in each file from where the diffs before it
/// end, has the same text in the first file and in the second.
pub open spec fn runs_match(ds: Seq<Diff>, ta: Seq<Seq<char>>, tb: Seq<Seq<char>>) -> bool
    decreases ds.len(),
{
    if ds.len() == 0 {
        true
    } else {
        &&& runs_match(ds.drop_last(), ta, tb)
        &&& forall|j: int|
            0 <= j < ds.last().nof_equals ==> #[trigger] ta[lines_first(ds.drop_last()) + j]
                == tb[lines_second(ds.drop_last()) + j]
    }
}

/// Each diff is either a run of equal lines or a change, and runs and
/// changes take turns: the shape of a diff list grouped from line changes.
pub open spec fn grouped(ds: Seq<Diff>) -> bool {
    &&& forall|k: int|
        0 <= k < ds.len() ==> ((#[trigger] ds[k]).nof_equals > 0) != (ds[k].diff1 > 0 || ds[k].diff2
            > 0)
    &&& forall|k: int|
        0 <= k < ds.len() - 1 ==> ((#[trigger] ds[k]).nof_equals > 0) != (ds[k + 1].nof_equals > 0)
}

proof fn lemma_push_grouped(acc: Seq<Diff>, d: Diff)
    requires
        grouped(acc),
        (d.nof_equals > 0) != (d.diff1 > 0 || d.diff2 > 0),
        acc.len() > 0 ==> (acc.last().nof_equals > 0) != (d.nof_equals > 0),
    ensures
        grouped(acc.push(d)),
{
    let r = acc.push(d);
    assert forall|k: int| 0 <= k < r.len() implies ((#[trigger] r[k]).nof_equals > 0) != (r[k].diff1 > 0
        || r[k].diff2 > 0) by {
        if k < acc.len() {
            assert(r[k] == acc[k]);
        }
    }
    assert forall|k: int| 0 <= k < r.len() - 1 implies ((#[trigger] r[k]).nof_equals > 0) != (r[k
        + 1].nof_equals > 0) by {
        assert(r[k] == acc[k]);
        if k + 1 < acc.len() {
            assert(r[k + 1] == acc[k + 1]);
        } else {
            assert(acc.last() == acc[k]);
        }
    }
}

/// Grouping line changes gives diffs each of which is a run of equal lines
/// or a change, runs and changes taking turns.
proof fn lemma_group_grouped(tags: Seq<LineChange>, eq: nat, del: nat, ins: nat, acc: Seq<Diff>)
    requires
        eq + del + ins + tags.len() <= usize::MAX,
        grouped(acc),
        eq > 0 ==> del == 0 && ins == 0,
        acc.len() > 0 ==> eq > 0 || del > 0 || ins > 0,
        acc.len() > 0 && eq > 0 ==> acc.last().nof_equals == 0,
        acc.len() > 0 && (del > 0 || ins > 0) ==> acc.last().nof_equals > 0,
    ensures
        grouped(group_changes(tags, eq, del, ins, acc)),
    decreases tags.len(),
{
    if tags.len() == 0 {
        if eq > 0 || del > 0 || ins > 0 {
            lemma_push_grouped(acc, Diff { nof_equals: eq as usize, diff1: del as usize, diff2: ins as usize });
        }
    } else {
        let rest = tags.drop_first();
        match tags[0] {
            LineChange::Equal => if del > 0 || ins > 0 {
                let d = Diff { nof_equals: 0, diff1: del as usize, diff2: ins as usize };
                lemma_push_grouped(acc, d);
                lemma_group_grouped(rest, eq + 1, 0, 0, acc.push(d));
            } else {
                lemma_group_grouped(rest, eq + 1, del, ins, acc);
            },
            LineChange::Delete => if eq > 0 {
                let d = Diff { nof_equals: eq as usize, diff1: 0, diff2: 0 };
                lemma_push_grouped(acc, d);
                lemma_group_grouped(rest, 0, del + 1, ins, acc.push(d));
            } else {
                lemma_group_grouped(rest, eq, del + 1, ins, acc);
            },
            LineChange::Insert => if eq > 0 {
                let d = Diff { nof_equals: eq as usize, diff1: 0, diff2: 0 };
                lemma_push_grouped(acc, d);
                lemma_group_grouped(rest, 0, del, ins + 1, acc.push(d));
            } else {
                lemma_group_grouped(rest, eq, del, ins + 1, acc);
            },
        }
    }
}

/// Counting from one change on: a change ahead of the first `k` changes of
/// the rest moves the line positions by what it stands for.
proof fn lemma_count_shift(tags: Seq<LineChange>, k: int)
    requires
        0 <= k < tags.len(),
    ensures
        first_count(tags.take(k + 1)) == first_count(tags.drop_first().take(k)) + if tags[0] is Insert {
            0nat
        } else {
            1nat
        },
        second_count(tags.take(k + 1)) == second_count(tags.drop_first().take(k)) + if tags[0] is Delete {
            0nat
        } else {
            1nat
        },
{
    let t = tags.take(k + 1);
    assert(t.drop_first() =~= tags.drop_first().take(k));
    assert(t[0] == tags[0]);
}

/// Grouping changes whose equal changes pair equal lines, from a state whose
/// diffs and pending equal run pair equal lines, gives diffs whose equal
/// runs pair equal lines.
proof fn lemma_group_match(
    tags: Seq<LineChange>,
    eq: nat,
    del: nat,
    ins: nat,
    acc: Seq<Diff>,
    ta: Seq<Seq<char>>,
    tb: Seq<Seq<char>>,
)
    requires
        eq + del + ins + tags.len() <= usize::MAX,
        eq > 0 ==> del == 0 && ins == 0,
        runs_match(acc, ta, tb),
        forall|j: int| 0 <= j < eq ==> #[trigger] ta[(lines_first(acc) + j) as int] == tb[(lines_second(acc) + j) as int],
        forall|k: int|
            0 <= k < tags.len() && (#[trigger] tags[k]) is Equal ==> ta[(lines_first(acc) + eq + del
                + first_count(tags.take(k))) as int] == tb[(lines_second(acc) + eq + ins + second_count(
                tags.take(k),
            )) as int],
    ensures
        runs_match(group_changes(tags, eq, del, ins, acc), ta, tb),
    decreases tags.len(),
{
    if tags.len() == 0 {
        if eq > 0 || del > 0 || ins > 0 {
            let d = Diff { nof_equals: eq as usize, diff1: del as usize, diff2: ins as usize };
            assert(acc.push(d).drop_last() =~= acc);
        }
    } else {
        let rest = tags.drop_first();
        let fa = lines_first(acc);
        let sa = lines_second(acc);
        assert(tags.take(0) =~= Seq::<LineChange>::empty());
        assert forall|k: int| 0 <= k < rest.len() implies #[trigger] rest[k] == tags[k + 1] by {}
        match tags[0] {
            LineChange::Equal => {
                assert(ta[(fa + eq + del) as int] == tb[(sa + eq + ins) as int]);
                if del > 0 || ins > 0 {
                    let d = Diff { nof_equals: 0, diff1: del as usize, diff2: ins as usize };
                    let acc2 = acc.push(d);
                    assert(acc2.drop_last() =~= acc);
                    assert forall|k: int| 0 <= k < rest.len() && (#[trigger] rest[k]) is Equal implies ta[(
                        lines_first(acc2) + 1 + 0 + first_count(rest.take(k))) as int] == tb[(lines_second(acc2)
                        + 1 + 0 + second_count(rest.take(k))) as int] by {
                        lemma_count_shift(tags, k);
                        assert(tags[k + 1] is Equal);
                    }
                    lemma_group_match(rest, 1, 0, 0, acc2, ta, tb);
                } else {
                    assert forall|j: int| 0 <= j < eq + 1 implies #[trigger] ta[(fa + j) as int] == tb[(sa + j) as int] by {
                        if j < eq {
                            assert(ta[(fa + j) as int] == tb[(sa + j) as int]);
                        }
                    }
                    assert forall|k: int| 0 <= k < rest.len() && (#[trigger] rest[k]) is Equal implies ta[(
                        fa + (eq + 1) + del + first_count(rest.take(k))) as int] == tb[(sa + (eq + 1) + ins
                        + second_count(rest.take(k))) as int] by {
                        lemma_count_shift(tags, k);
                        assert(tags[k + 1] is Equal);
                    }
                    lemma_group_match(rest, eq + 1, del, ins, acc, ta, tb);
                }
            },
            LineChange::Delete => {
                if eq > 0 {
                    let d = Diff { nof_equals: eq as usize, diff1: 0, diff2: 0 };
                    let acc2 = acc.push(d);
                    assert(acc2.drop_last() =~= acc);
                    assert forall|j: int| 0 <= j < acc2.last().nof_equals implies #[trigger] ta[(
                        lines_first(acc2.drop_last()) + j) as int] == tb[(lines_second(acc2.drop_last()) + j) as int] by {
                        assert(ta[(fa + j) as int] == tb[(sa + j) as int]);
                    }
                    assert forall|k: int| 0 <= k < rest.len() && (#[trigger] rest[k]) is Equal implies ta[(
                        lines_first(acc2) + 0 + 1 + first_count(rest.take(k))) as int] == tb[(lines_second(acc2)
                        + 0 + ins + second_count(rest.take(k))) as int] by {
                        lemma_count_shift(tags, k);
                        assert(tags[k + 1] is Equal);
                    }
                    lemma_group_match(rest, 0, 1, ins, acc2, ta, tb);
                } else {
                    assert forall|k: int| 0 <= k < rest.len() && (#[trigger] rest[k]) is Equal implies ta[(
                        fa + eq + (del + 1) + first_count(rest.take(k))) as int] == tb[(sa + eq + ins
                        + second_count(rest.take(k))) as int] by {
                        lemma_count_shift(tags, k);
                        assert(tags[k + 1] is Equal);
                    }
                    lemma_group_match(rest, eq, del + 1, ins, acc, ta, tb);
                }
            },
            LineChange::Insert => {
                if eq > 0 {
                    let d = Diff { nof_equals: eq as usize, diff1: 0, diff2: 0 };
                    let acc2 = acc.push(d);
                    assert(acc2.drop_last() =~= acc);
                    assert forall|j: int| 0 <= j < acc2.last().nof_equals implies #[trigger] ta[(
                        lines_first(acc2.drop_last()) + j) as int] == tb[(lines_second(acc2.drop_last()) + j) as int] by {
                        assert(ta[(fa + j) as int] == tb[(sa + j) as int]);
                    }
                    assert forall|k: int| 0 <= k < rest.len() && (#[trigger] rest[k]) is Equal implies ta[(
                        lines_first(acc2) + 0 + del + first_count(rest.take(k))) as int] == tb[(lines_second(acc2)
                        + 0 + 1 + second_count(rest.take(k))) as int] by {
                        lemma_count_shift(tags, k);
                        assert(tags[k + 1] is Equal);
                    }
                    lemma_group_match(rest, 0, del, 1, acc2, ta, tb);
                } else {
                    assert forall|k: int| 0 <= k < rest.len() && (#[trigger] rest[k]) is Equal implies ta[(
                        fa + eq + del + first_count(rest.take(k))) as int] == tb[(sa + eq + (ins + 1)
                        + second_count(rest.take(k))) as int] by {
                        lemma_count_shift(tags, k);
                        assert(tags[k + 1] is Equal);
                    }
                    lemma_group_match(rest, eq, del, ins + 1, acc, ta, tb);
                }
            },
        }
    }
}

/// Diffs that change no line and whose equal runs pair equal lines describe
/// the same number of lines in both files, all pairwise equal.
proof fn lemma_unchanged_prefix(ds: Seq<Diff>, ta: Seq<Seq<char>>, tb: Seq<Seq<char>>)
    requires
        runs_match(ds, ta, tb),
        forall|k: int| 0 <= k < ds.len() ==> (#[trigger] ds[k]).diff1 == 0 && ds[k].diff2 == 0,
    ensures
        lines_first(ds) == lines_second(ds),
        forall|p: int| 0 <= p < lines_first(ds) ==> #[trigger] ta[p] == tb[p],
    decreases ds.len(),
{
    if ds.len() > 0 {
        let q = ds.drop_last();
        assert forall|k: int| 0 <= k < q.len() implies (#[trigger] q[k]).diff1 == 0 && q[k].diff2 == 0 by {
            assert(q[k] == ds[k]);
        }
        lemma_unchanged_prefix(q, ta, tb);
        assert(ds.last() == ds[ds.len() - 1]);
        assert forall|p: int| 0 <= p < lines_first(ds) implies #[trigger] ta[p] == tb[p] by {
            if p >= lines_first(q) {
                let j = p - lines_first(q);
                assert(ta[lines_first(q) + j] == tb[lines_second(q) + j]);
            }
        }
    }
}

/// Diffs that change no line, describe all lines of both files and pair
/// equal lines in their equal runs belong to two equal files.
proof fn lemma_unchanged_runs_equal(ds: Seq<Diff>, ta: Seq<Seq<char>>, tb: Seq<Seq<char>>)
    requires
        runs_match(ds, ta, tb),
        lines_first(ds) == ta.len(),
        lines_second(ds) == tb.len(),
        !(exists|k: int| 0 <= k < ds.len() && ((#[trigger] ds[k]).diff1 > 0 || ds[k].diff2 > 0)),
    ensures
        ta == tb,
{
    assert forall|k: int| 0 <= k < ds.len() implies (#[trigger] ds[k]).diff1 == 0 && ds[k].diff2 == 0 by {
        if ds[k].diff1 > 0 || ds[k].diff2 > 0 {
            assert(exists|k: int| 0 <= k < ds.len() && ((#[trigger] ds[k]).diff1 > 0 || ds[k].diff2 > 0));
        }
    }
    lemma_unchanged_prefix(ds, ta, tb);
    assert(ta =~= tb);
}

/// The diffs grouped from a sequence of line changes describe as many lines
/// of the first file as the changes hold equal or deleted lines, and as many
/// of the second as they hold equal or inserted lines.
pub proof fn law_grouping_keeps_line_counts(tags: Seq<LineChange>)
    requires
        tags.len() <= usize::MAX,
    ensures
        lines_first(changes_to_diffs(tags)) == first_count(tags),
        lines_second(changes_to_diffs(tags)) == second_count(tags),
{
    lemma_group_totals(tags, 0, 0, 0, Seq::empty());
}

impl DiffList {
    /// The diff of two files, computed line by line with the `similar`
    /// crate and grouped into runs of equal and changed lines.
    pub fn from_lines(lines_a: &[LineData], lines_b: &[LineData]) -> (r: Self)
        requires
            lines_wf(lines_a@),
            lines_wf(lines_b@),
        ensures
            r.0@ == changes_to_diffs(similar_line_changes(all_texts(lines_a@), all_texts(lines_b@))),
            lines_first(r.0@) == lines_a@.len(),
            lines_second(r.0@) == lines_b@.len(),
            all_texts(lines_a@) == all_texts(lines_b@) ==> forall|k: int|
                0 <= k < r.0@.len() ==> (#[trigger] r.0@[k]).diff1 == 0 && r.0@[k].diff2 == 0,
            runs_match(r.0@, all_texts(lines_a@), all_texts(lines_b@)),
            grouped(r.0@),
            all_texts(lines_a@) != all_texts(lines_b@) ==> exists|k: int|
                0 <= k < r.0@.len() && ((#[trigger] r.0@[k]).diff1 > 0 || r.0@[k].diff2 > 0),
    {
        let text_a = line_texts(lines_a);
        let text_b = line_texts(lines_b);
        let changes = line_changes(text_a.as_slice(), text_b.as_slice());
        let n = changes.len();
        proof {
            law_grouping_keeps_line_counts(changes@);
            assert(str_texts(text_a@).len() == text_a@.len());
            assert(all_texts(lines_a@).len() == lines_a@.len());
            assert(str_texts(text_b@).len() == text_b@.len());
            assert(all_texts(lines_b@).len() == lines_b@.len());
            if all_texts(lines_a@) == all_texts(lines_b@) {
                lemma_group_equal_only(changes@, 0, Seq::empty());
            }
            let ta = all_texts(lines_a@);
            let tb = all_texts(lines_b@);
            lemma_group_match(changes@, 0, 0, 0, Seq::empty(), ta, tb);
            lemma_group_grouped(changes@, 0, 0, 0, Seq::empty());
            let ds = changes_to_diffs(changes@);
            if !(exists|k: int| 0 <= k < ds.len() && ((#[trigger] ds[k]).diff1 > 0 || ds[k].diff2 > 0)) {
                lemma_unchanged_runs_equal(ds, ta, tb);
            }
        }
        DiffList::from_changes(&changes)
    }

    /// Groups a sequence of line changes into diffs.
    pub fn from_changes(changes: &Vec<LineChange>) -> (r: Self)
        ensures
            r.0@ == changes_to_diffs(changes@),
    {
        let ghost tags = changes@;
        let mut result: Vec<Diff> = Vec::new();
        let mut nof_eq: usize = 0;
        let mut del: usize = 0;
        let mut ins: usize = 0;
        let mut i: usize = 0;
        proof {
            assert(tags.skip(0) =~= tags);
        }
        while i < changes.len()
            invariant
                tags == changes@,
                i <= tags.len(),
                nof_eq + del + ins <= i,
                changes_to_diffs(tags) == group_changes(
                    tags.skip(i as int),
                    nof_eq as nat,
                    del as nat,
                    ins as nat,
                    result@,
                ),
            decreases tags.len() - i,
        {
            proof {
                assert(tags.skip(i as int).drop_first() =~= tags.skip(i + 1));
                assert(tags.skip(i as int)[0] == tags[i as int]);
            }
            match changes[i] {
                LineChange::Equal => {
                    if del > 0 || ins > 0 {
                        result.push(Diff::new(0, del, ins));
                        del = 0;
                        ins = 0;
                    }
                    nof_eq += 1;
                },
                LineChange::Delete => {
                    if nof_eq > 0 {
                        result.push(Diff::new(nof_eq, 0, 0));
                        nof_eq = 0;
                    }
                    del += 1;
                },
                LineChange::Insert => {
                    if nof_eq > 0 {
                        result.push(Diff::new(nof_eq, 0, 0));
                        nof_eq = 0;
                    }
                    ins += 1;
                },
            }
            i += 1;
        }
        proof {
            assert(tags.skip(i as int) =~= Seq::<LineChange>::empty());
        }
        if nof_eq > 0 || del > 0 || ins > 0 {
            result.push(Diff::new(nof_eq, del, ins));
        }
        DiffList(result)
    }
}

/// The texts of the lines, as slices of their buffers.
fn line_texts(lines: &[LineData]) -> (r: Vec<&str>)
    requires
        lines_wf(lines@),
    ensures
        str_texts(r@) == all_texts(lines@),
{
    let mut r: Vec<&str> = Vec::new();
    let mut i: usize = 0;
    while i < lines.len()
        invariant
            lines_wf(lines@),
            i <= lines@.len(),
            r@.len() == i,
            forall|k: int| 0 <= k < i ==> (#[trigger] r@[k])@ == lines@[k].text(),
        decreases lines@.len() - i,
    {
        r.push(lines[i].get_line());
        i += 1;
    }
    proof {
        assert(str_texts(r@) =~= all_texts(lines@));
    }
    r
}

/// A range of lines: a start index and a length.
#[derive(Debug, Clone, Copy, PartialEq, Eq, Structural)]
pub struct DiffRange {
    pub start: usize,
    pub len: usize,
}

impl DiffRange {
    pub fn new(start: usize, len: usize) -> (r: Self)
        ensures
            r == (DiffRange { start, len }),
    {
        Self { start, len }
    }

    /// The index just past the range.
    pub fn end(&self) -> (r: usize)
        requires
            self.start + self.len <= usize::MAX,
        ensures
            r == self.start + self.len,
    {
        self.start + self.len
    }
}

} // verus!
