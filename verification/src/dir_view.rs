use vstd::prelude::*;

use crate::dir_diff::{join_bytes, join_path, joined_components, DirDiff, DirDiffEntry, EntryMeta, EntryStatus, FileTime};
use crate::path_order::{compare_paths, lemma_path_order, path_lt};
use crate::source_data::{lossy_utf8, utf8_lossy};
use crate::text_fmt::{padded_decimal, push_decimal, push_str};

verus! {

/// A request to open the file diff of a clicked entry.
#[derive(Debug, Clone)]
pub struct OpenFileRequest {
    pub path_a: String,
    pub path_b: String,
    pub path_c: Option<String>,
}

/// The column the directory view is sorted by.
#[derive(Debug, Clone, Copy, PartialEq, Eq, Structural)]
pub enum SortKey {
    Path,
    Status,
    SizeA,
    SizeB,
}

/// The directory comparison view: the comparison shown, whether equal
/// entries are shown, the path filter, a pending open request and the sort
/// order.
pub struct DirView {
    pub dir_diff: Option<DirDiff>,
    pub show_equal: bool,
    pub filter: String,
    pub open_request: Option<OpenFileRequest>,
    pub sort_by: SortKey,
    pub sort_asc: bool,
}

impl DirView {
    pub fn new() -> (r: Self)
        ensures
            r.dir_diff is None,
            !r.show_equal,
            r.filter@ == Seq::<char>::empty(),
            r.open_request is None,
            r.sort_by == SortKey::Path,
            r.sort_asc,
    {
        Self {
            dir_diff: None,
            show_equal: false,
            filter: String::new(),
            open_request: None,
            sort_by: SortKey::Path,
            sort_asc: true,
        }
    }

    /// Shows a new comparison and drops any pending open request.
    pub fn set_diff(&mut self, diff: DirDiff)
        ensures
            final(self).dir_diff == Some(diff),
            final(self).open_request is None,
            final(self).show_equal == old(self).show_equal,
            final(self).filter == old(self).filter,
            final(self).sort_by == old(self).sort_by,
            final(self).sort_asc == old(self).sort_asc,
    {
        self.dir_diff = Some(diff);
        self.open_request = None;
    }

    /// A click on the header of column `key`: the same column again flips
    /// the direction, another column becomes the sort column, ascending.
    pub fn click_sort(&mut self, key: SortKey)
        ensures
            final(self).sort_by == key,
            final(self).sort_asc == if old(self).sort_by == key {
                !old(self).sort_asc
            } else {
                true
            },
            final(self).dir_diff == old(self).dir_diff,
            final(self).show_equal == old(self).show_equal,
            final(self).filter == old(self).filter,
            final(self).open_request == old(self).open_request,
    {
        if self.sort_by == key {
            self.sort_asc = !self.sort_asc;
        } else {
            self.sort_by = key;
            self.sort_asc = true;
        }
    }
}

/// The date and time of a number of seconds since the Unix epoch, in the
/// proleptic Gregorian calendar: year, month, day, hour and minute. The
/// year is cut to 32 bits.
pub open spec fn civil_from_secs(secs: u64) -> (u32, u32, u32, u32, u32) {
    let days = secs / 86400;
    let time_of_day = secs % 86400;
    let h = time_of_day / 3600;
    let mi = (time_of_day % 3600) / 60;
    let z = days + 719468;
    let era = z / 146097;
    let doe = z % 146097;
    let yoe = (doe - doe / 1460 + doe / 36524 - doe / 146096) / 365;
    let y = yoe + era * 400;
    let doy = doe - (365 * yoe + yoe / 4 - yoe / 100);
    let mp = (5 * doy + 2) / 153;
    let d = doy - (153 * mp + 2) / 5 + 1;
    let mo = (if mp < 10 {
        mp + 3
    } else {
        mp - 9
    }) as u32;
    let yy = (if mo <= 2 {
        y + 1
    } else {
        y
    }) as u32;
    (yy, mo, d as u32, h as u32, mi as u32)
}

proof fn lemma_day_of_era(doe: u32)
    requires
        doe <= 146096,
    ensures
        ({
            let yoe = (doe - doe / 1460 + doe / 36524 - doe / 146096) / 365;
            &&& yoe <= 399
            &&& 365 * yoe + yoe / 4 - yoe / 100 <= doe
            &&& doe - (365 * yoe + yoe / 4 - yoe / 100) <= 365
        }),
{
    assert({
        let yoe = (doe - doe / 1460 + doe / 36524 - doe / 146096) / 365;
        &&& yoe <= 399
        &&& 365 * yoe + yoe / 4 - yoe / 100 <= doe
        &&& doe - (365 * yoe + yoe / 4 - yoe / 100) <= 365
    }) by (bit_vector)
        requires
            doe <= 146096,
    ;
}

proof fn lemma_day_of_year(doy: u32)
    requires
        doy <= 365,
    ensures
        ({
            let mp = (5 * doy + 2) / 153;
            &&& mp <= 11
            &&& (153 * mp + 2) / 5 <= doy
            &&& doy - (153 * mp + 2) / 5 + 1 <= 31
        }),
{
    assert({
        let mp = (5 * doy + 2) / 153;
        &&& mp <= 11
        &&& (153 * mp + 2) / 5 <= doy
        &&& doy - (153 * mp + 2) / 5 + 1 <= 31
    }) by (bit_vector)
        requires
            doy <= 365,
    ;
}

/// The calendar date and time of a number of seconds since the Unix epoch.
pub fn epoch_to_ymd(secs: u64) -> (r: (u32, u32, u32, u32, u32))
    ensures
        r == civil_from_secs(secs),
        1 <= r.1 <= 12,
        1 <= r.2 <= 31,
        r.3 < 24,
        r.4 < 60,
{
    let secs_per_day = 86400u64;
    let days = secs / secs_per_day;
    let time_of_day = secs % secs_per_day;
    let h = (time_of_day / 3600) as u32;
    let mi = ((time_of_day % 3600) / 60) as u32;
    let z = days + 719468;
    let era = z / 146097;
    let doe = z % 146097;
    proof {
        lemma_day_of_era(doe as u32);
    }
    let yoe = (doe - doe / 1460 + doe / 36524 - doe / 146096) / 365;
    let y = yoe + era * 400;
    let doy = doe - (365 * yoe + yoe / 4 - yoe / 100);
    proof {
        lemma_day_of_year(doy as u32);
    }
    let mp = (5 * doy + 2) / 153;
    let d = (doy - (153 * mp + 2) / 5 + 1) as u32;
    let mo = (if mp < 10 {
        mp + 3
    } else {
        mp - 9
    }) as u32;
    let y = (if mo <= 2 {
        y + 1
    } else {
        y
    }) as u32;
    (y, mo, d, h, mi)
}

/// The text `YYYY-MM-DD HH:MM` of a date and time.
pub open spec fn time_text(c: (u32, u32, u32, u32, u32)) -> Seq<char> {
    padded_decimal(c.0 as nat, 4) + "-"@ + padded_decimal(c.1 as nat, 2) + "-"@ + padded_decimal(
        c.2 as nat,
        2,
    ) + " "@ + padded_decimal(c.3 as nat, 2) + ":"@ + padded_decimal(c.4 as nat, 2)
}

/// A modification time as `YYYY-MM-DD HH:MM`; a time before the epoch shows
/// as the epoch.
pub fn fmt_time(t: FileTime) -> (r: String)
    ensures
        r@ == time_text(
            civil_from_secs(
                if t.before_epoch {
                    0
                } else {
                    t.secs
                },
            ),
        ),
{
    let secs = if t.before_epoch {
        0
    } else {
        t.secs
    };
    let (y, mo, d, h, mi) = epoch_to_ymd(secs);
    let mut s = String::new();
    push_decimal(&mut s, y as u64, 4);
    push_str(&mut s, "-");
    push_decimal(&mut s, mo as u64, 2);
    push_str(&mut s, "-");
    push_decimal(&mut s, d as u64, 2);
    push_str(&mut s, " ");
    push_decimal(&mut s, h as u64, 2);
    push_str(&mut s, ":");
    push_decimal(&mut s, mi as u64, 2);
    proof {
        assert(s@ =~= time_text(civil_from_secs(secs)));
    }
    s
}


/// The text that `str::to_lowercase` makes of a string.
pub uninterp spec fn lowercase(s: Seq<char>) -> Seq<char>;

/// Calls `str::to_lowercase`. Which characters it maps to which is not
/// stated here, only that the result is a function of the string.
#[verifier::external_body]
fn lowercase_str(s: &str) -> (r: String)
    ensures
        r@ == lowercase(s@),
{
    s.to_lowercase()
}

/// `needle` occurs in `hay` as a run of consecutive characters.
pub open spec fn has_infix(hay: Seq<char>, needle: Seq<char>) -> bool {
    exists|i: int| 0 <= i <= hay.len() - needle.len() && #[trigger] hay.subrange(i, i + needle.len()) == needle
}

/// The characters of a string, in order.
pub fn chars_of(s: &str) -> (r: Vec<char>)
    ensures
        r@ == s@,
{
    let n = s.unicode_len();
    let mut v: Vec<char> = Vec::new();
    let mut i: usize = 0;
    while i < n
        invariant
            n == s@.len(),
            i <= n,
            v@ == s@.subrange(0, i as int),
        decreases n - i,
    {
        let c = s.get_char(i);
        v.push(c);
        i += 1;
        proof {
            assert(v@ =~= s@.subrange(0, i as int));
        }
    }
    proof {
        assert(v@ =~= s@);
    }
    v
}

/// Whether `needle` occurs in `hay` as a run of consecutive characters.
pub fn contains_chars(hay: &Vec<char>, needle: &Vec<char>) -> (r: bool)
    ensures
        r == has_infix(hay@, needle@),
{
    let hl = hay.len();
    let nl = needle.len();
    if nl > hl {
        return false;
    }
    let mut i: usize = 0;
    while i <= hl - nl
        invariant
            hl == hay@.len(),
            nl == needle@.len(),
            nl <= hl,
            i <= hl - nl + 1,
            forall|p: int| 0 <= p < i ==> #[trigger] hay@.subrange(p, p + nl) != needle@,
        decreases hl - i,
    {
        let mut j: usize = 0;
        let mut same = true;
        while j < nl
            invariant
                hl == hay@.len(),
                nl == needle@.len(),
                i + nl <= hl,
                j <= nl,
                same == (forall|q: int| 0 <= q < j ==> hay@[i + q] == needle@[q]),
            decreases nl - j,
        {
            if hay[i + j] != needle[j] {
                same = false;
            }
            j += 1;
        }
        if same {
            proof {
                assert(hay@.subrange(i as int, i + nl) =~= needle@);
            }
            return true;
        }
        proof {
            let q = choose|q: int| 0 <= q < nl && hay@[i + q] != needle@[q];
            assert(hay@.subrange(i as int, i + nl)[q] == hay@[i + q]);
        }
        i += 1;
    }
    false
}

/// The place of a status in the status column's order, the alphabetical
/// order of the status names.
pub open spec fn status_rank(s: EntryStatus) -> int {
    match s {
        EntryStatus::BModified => 0,
        EntryStatus::BothModified => 1,
        EntryStatus::CModified => 2,
        EntryStatus::Conflict => 3,
        EntryStatus::Equal => 4,
        EntryStatus::Modified => 5,
        EntryStatus::OnlyInA => 6,
        EntryStatus::OnlyInB => 7,
        EntryStatus::OnlyInC => 8,
    }
}

fn rank_of(s: &EntryStatus) -> (r: u8)
    ensures
        r == status_rank(*s),
{
    match s {
        EntryStatus::BModified => 0,
        EntryStatus::BothModified => 1,
        EntryStatus::CModified => 2,
        EntryStatus::Conflict => 3,
        EntryStatus::Equal => 4,
        EntryStatus::Modified => 5,
        EntryStatus::OnlyInA => 6,
        EntryStatus::OnlyInB => 7,
        EntryStatus::OnlyInC => 8,
    }
}

/// The size of an entry on one side, zero where that side lacks it.
pub open spec fn size_or_zero(m: Option<EntryMeta>) -> u64 {
    match m {
        Some(m) => m.size,
        None => 0,
    }
}

fn size_of(m: &Option<EntryMeta>) -> (r: u64)
    ensures
        r == size_or_zero(*m),
{
    match m {
        Some(m) => m.size,
        None => 0,
    }
}

/// Entry `a` has a smaller key than entry `b` in the column `key`.
pub open spec fn key_lt(key: SortKey, a: DirDiffEntry, b: DirDiffEntry) -> bool {
    match key {
        SortKey::Path => path_lt(a.rel_path@, b.rel_path@),
        SortKey::Status => status_rank(a.status) < status_rank(b.status),
        SortKey::SizeA => size_or_zero(a.meta_a) < size_or_zero(b.meta_a),
        SortKey::SizeB => size_or_zero(a.meta_b) < size_or_zero(b.meta_b),
    }
}

fn key_less(key: SortKey, a: &DirDiffEntry, b: &DirDiffEntry) -> (r: bool)
    ensures
        r == key_lt(key, *a, *b),
{
    match key {
        SortKey::Path => compare_paths(&a.rel_path, &b.rel_path) < 0,
        SortKey::Status => rank_of(&a.status) < rank_of(&b.status),
        SortKey::SizeA => size_of(&a.meta_a) < size_of(&b.meta_a),
        SortKey::SizeB => size_of(&a.meta_b) < size_of(&b.meta_b),
    }
}

/// In ascending order entry `i` comes before entry `j`: by the key, and
/// entries with equal keys in the order in which they stand.
pub open spec fn sorts_before(key: SortKey, es: Seq<DirDiffEntry>, i: int, j: int) -> bool {
    key_lt(key, es[i], es[j]) || (!key_lt(key, es[j], es[i]) && i < j)
}

/// The list shows an entry: equal entries only when asked to, and with a
/// filter only entries whose path, lower-cased, holds the lower-cased filter.
pub open spec fn entry_shown(e: DirDiffEntry, show_equal: bool, filter: Seq<char>) -> bool {
    &&& (show_equal || !(e.status is Equal))
    &&& (filter.len() == 0 || has_infix(
        lowercase(lossy_utf8(joined_components(e.rel_path@))),
        lowercase(filter),
    ))
}

/// `r` lists, as indices into `es`, each shown entry once, in ascending
/// order or, if not `asc`, in descending order.
pub open spec fn lists_shown(
    es: Seq<DirDiffEntry>,
    show_equal: bool,
    filter: Seq<char>,
    key: SortKey,
    asc: bool,
    r: Seq<usize>,
) -> bool {
    &&& r.no_duplicates()
    &&& forall|k: int| 0 <= k < r.len() ==> #[trigger] r[k] < es.len()
    &&& forall|i: int|
        0 <= i < es.len() ==> (r.contains(i as usize) <==> entry_shown(
            #[trigger] es[i],
            show_equal,
            filter,
        ))
    &&& forall|p: int, q: int|
        0 <= p < q < r.len() ==> if asc {
            sorts_before(key, es, #[trigger] r[p] as int, #[trigger] r[q] as int)
        } else {
            sorts_before(key, es, r[q] as int, r[p] as int)
        }
}

proof fn lemma_key_order(key: SortKey, a: DirDiffEntry, b: DirDiffEntry, c: DirDiffEntry)
    ensures
        !key_lt(key, a, a),
        key_lt(key, a, b) ==> !key_lt(key, b, a),
        key_lt(key, a, b) && key_lt(key, b, c) ==> key_lt(key, a, c),
        key_lt(key, a, b) && !key_lt(key, c, b) ==> key_lt(key, a, c),
        !key_lt(key, b, a) && key_lt(key, b, c) ==> key_lt(key, a, c),
        !key_lt(key, a, b) && !key_lt(key, b, a) && !key_lt(key, b, c) && !key_lt(key, c, b)
            ==> !key_lt(key, a, c) && !key_lt(key, c, a),
{
    match key {
        SortKey::Path => {
            lemma_path_order(a.rel_path@, b.rel_path@, c.rel_path@);
            lemma_path_order(a.rel_path@, c.rel_path@, b.rel_path@);
            lemma_path_order(b.rel_path@, a.rel_path@, c.rel_path@);
            lemma_path_order(b.rel_path@, c.rel_path@, a.rel_path@);
            lemma_path_order(c.rel_path@, a.rel_path@, b.rel_path@);
            lemma_path_order(c.rel_path@, b.rel_path@, a.rel_path@);
        },
        _ => {},
    }
}

/// `sorts_before` orders distinct places strictly and totally.
proof fn lemma_sorts_before(key: SortKey, es: Seq<DirDiffEntry>, i: int, j: int, k: int)
    ensures
        !sorts_before(key, es, i, i),
        i != j ==> sorts_before(key, es, i, j) || sorts_before(key, es, j, i),
        sorts_before(key, es, i, j) ==> !sorts_before(key, es, j, i),
        sorts_before(key, es, i, j) && sorts_before(key, es, j, k) ==> sorts_before(key, es, i, k),
{
    lemma_key_order(key, es[i], es[j], es[k]);
    lemma_key_order(key, es[j], es[i], es[k]);
    lemma_key_order(key, es[i], es[k], es[j]);
}

/// Whether an entry is shown, with the lower-cased filter given as characters.
fn shown(e: &DirDiffEntry, show_equal: bool, filter: &str, low_filter: &Vec<char>) -> (r: bool)
    requires
        low_filter@ == lowercase(filter@),
    ensures
        r == entry_shown(*e, show_equal, filter@),
{
    if !show_equal && e.status == EntryStatus::Equal {
        return false;
    }
    if filter.is_empty() {
        return true;
    }
    let empty: Vec<u8> = Vec::new();
    let joined = join_bytes(empty.as_slice(), &e.rel_path);
    proof {
        assert(Seq::<u8>::empty() + Seq::<u8>::empty() + joined_components(e.rel_path@)
            =~= joined_components(e.rel_path@));
    }
    let text = utf8_lossy(joined.as_slice());
    let low = lowercase_str(text.as_str());
    let chars = chars_of(low.as_str());
    contains_chars(&chars, low_filter)
}

/// The shown entries of `es`, in ascending order of `key`.
fn sorted_shown(es: &Vec<DirDiffEntry>, show_equal: bool, filter: &str, key: SortKey) -> (r: Vec<
    usize,
>)
    ensures
        lists_shown(es@, show_equal, filter@, key, true, r@),
{
    let low = lowercase_str(filter);
    let low_filter = chars_of(low.as_str());
    let mut v: Vec<usize> = Vec::new();
    let mut i: usize = 0;
    while i < es.len()
        invariant
            i <= es@.len(),
            low_filter@ == lowercase(filter@),
            v@.no_duplicates(),
            forall|k: int| 0 <= k < v@.len() ==> #[trigger] v@[k] < i,
            forall|j: int|
                0 <= j < i ==> (v@.contains(j as usize) <==> entry_shown(
                    #[trigger] es@[j],
                    show_equal,
                    filter@,
                )),
            forall|p: int, q: int|
                0 <= p < q < v@.len() ==> sorts_before(
                    key,
                    es@,
                    #[trigger] v@[p] as int,
                    #[trigger] v@[q] as int,
                ),
        decreases es@.len() - i,
    {
        if shown(&es[i], show_equal, filter, &low_filter) {
            let mut p: usize = 0;
            while p < v.len() && !key_less(key, &es[i], &es[v[p]])
                invariant
                    i < es@.len(),
                    p <= v@.len(),
                    forall|k: int| 0 <= k < v@.len() ==> #[trigger] v@[k] < i,
                    forall|q: int|
                        0 <= q < p ==> !sorts_before(key, es@, i as int, #[trigger] v@[q] as int),
                decreases v@.len() - p,
            {
                p += 1;
            }
            let ghost old_v = v@;
            proof {
                lemma_place_sorted(key, es@, old_v, p as int, i as int);
            }
            v.insert(p, i);
        }
        i += 1;
    }
    v
}

/// Putting a new index `x`, greater than all of `v`, in at the place `p` of
/// a sorted list, where the entries before `p` come before `x` and the entry
/// at `p` does not, keeps the list sorted and free of repeats.
proof fn lemma_place_sorted(key: SortKey, es: Seq<DirDiffEntry>, v: Seq<usize>, p: int, x: int)
    requires
        0 <= p <= v.len(),
        0 <= x < es.len(),
        x <= usize::MAX,
        v.no_duplicates(),
        forall|k: int| 0 <= k < v.len() ==> #[trigger] v[k] < x,
        forall|q: int| 0 <= q < p ==> !sorts_before(key, es, x, #[trigger] v[q] as int),
        p < v.len() ==> key_lt(key, es[x], es[v[p] as int]),
        forall|a: int, b: int|
            0 <= a < b < v.len() ==> sorts_before(key, es, #[trigger] v[a] as int, #[trigger] v[b] as int),
    ensures
        ({
            let w = v.insert(p, x as usize);
            &&& w.no_duplicates()
            &&& forall|k: int| 0 <= k < w.len() ==> #[trigger] w[k] <= x
            &&& forall|j: usize| w.contains(j) <==> (v.contains(j) || j == x)
            &&& forall|a: int, b: int|
                0 <= a < b < w.len() ==> sorts_before(key, es, #[trigger] w[a] as int, #[trigger] w[b] as int)
        }),
{
    let w = v.insert(p, x as usize);
    v.insert_ensures(p, x as usize);
    assert forall|k: int| 0 <= k < w.len() implies #[trigger] w[k] <= x by {
        if k > p {
            assert(w[k] == v[k - 1]);
        }
    }
    assert forall|j: usize| w.contains(j) <==> (v.contains(j) || j == x) by {
        if w.contains(j) {
            let k = choose|k: int| 0 <= k < w.len() && w[k] == j;
            if k < p {
                assert(v[k] == j);
            } else if k > p {
                assert(v[k - 1] == j);
            }
        }
        if v.contains(j) {
            let k = choose|k: int| 0 <= k < v.len() && v[k] == j;
            if k < p {
                assert(w[k] == j);
            } else {
                assert(w[k + 1] == j);
            }
        }
        if j == x {
            assert(w[p] == j);
        }
    }
    assert forall|a: int, b: int| 0 <= a < b < w.len() implies w[a] != w[b] by {
        if a == p {
            assert(w[b] == v[b - 1]);
        } else if b == p {
            assert(w[a] == v[a]);
        } else {
            let va = if a < p { a } else { a - 1 };
            let vb = if b < p { b } else { b - 1 };
            assert(w[a] == v[va]);
            assert(w[b] == v[vb]);
        }
    }
    assert forall|a: int, b: int| 0 <= a < b < w.len() implies sorts_before(
        key,
        es,
        #[trigger] w[a] as int,
        #[trigger] w[b] as int,
    ) by {
        if a == p {
            assert(w[b] == v[b - 1]);
            if b - 1 == p {
                assert(sorts_before(key, es, x, v[p] as int));
            } else {
                assert(sorts_before(key, es, x, v[p] as int));
                assert(sorts_before(key, es, v[p] as int, v[b - 1] as int));
                lemma_sorts_before(key, es, x, v[p] as int, v[b - 1] as int);
            }
        } else if b == p {
            assert(w[a] == v[a]);
            assert(!sorts_before(key, es, x, v[a] as int));
            lemma_sorts_before(key, es, v[a] as int, x, x);
        } else {
            let va = if a < p { a } else { a - 1 };
            let vb = if b < p { b } else { b - 1 };
            assert(w[a] == v[va]);
            assert(w[b] == v[vb]);
        }
    }
}

/// The shown entries of `es` in the order of `key`, descending if not `asc`.
pub fn shown_entries(
    es: &Vec<DirDiffEntry>,
    show_equal: bool,
    filter: &str,
    key: SortKey,
    asc: bool,
) -> (r: Vec<usize>)
    ensures
        lists_shown(es@, show_equal, filter@, key, asc, r@),
{
    let v = sorted_shown(es, show_equal, filter, key);
    if asc {
        return v;
    }
    let mut r: Vec<usize> = Vec::new();
    let mut k: usize = v.len();
    while k > 0
        invariant
            k <= v@.len(),
            r@ == v@.subrange(k as int, v@.len() as int).reverse(),
        decreases k,
    {
        k -= 1;
        r.push(v[k]);
        proof {
            assert(r@ =~= v@.subrange(k as int, v@.len() as int).reverse());
        }
    }
    proof {
        assert(v@.subrange(0, v@.len() as int) =~= v@);
        let n = v@.len() as int;
        assert forall|p: int| 0 <= p < r@.len() implies #[trigger] r@[p] == v@[n - 1 - p] by {}
        assert forall|a: int, b: int| 0 <= a < b < r@.len() implies r@[a] != r@[b] by {
            assert(r@[a] == v@[n - 1 - a]);
            assert(r@[b] == v@[n - 1 - b]);
        }
        assert forall|j: usize| r@.contains(j) <==> v@.contains(j) by {
            if r@.contains(j) {
                let p = choose|p: int| 0 <= p < r@.len() && r@[p] == j;
                assert(v@[n - 1 - p] == j);
            }
            if v@.contains(j) {
                let p = choose|p: int| 0 <= p < v@.len() && v@[p] == j;
                assert(r@[n - 1 - p] == j);
            }
        }
        assert forall|a: int, b: int| 0 <= a < b < r@.len() implies sorts_before(
            key,
            es@,
            #[trigger] r@[b] as int,
            #[trigger] r@[a] as int,
        ) by {
            assert(r@[a] == v@[n - 1 - a]);
            assert(r@[b] == v@[n - 1 - b]);
        }
        assert forall|k: int| 0 <= k < r@.len() implies #[trigger] r@[k] < es@.len() by {
            assert(r@[k] == v@[n - 1 - k]);
        }
    }
    r
}

impl DirView {
    /// The entries that the list shows, as indices into the comparison's
    /// entries, in the order shown; none without a comparison.
    pub fn visible_entries(&self) -> (r: Vec<usize>)
        ensures
            match self.dir_diff {
                None => r@.len() == 0,
                Some(d) => lists_shown(
                    d.entries@,
                    self.show_equal,
                    self.filter@,
                    self.sort_by,
                    self.sort_asc,
                    r@,
                ),
            },
    {
        match &self.dir_diff {
            None => Vec::new(),
            Some(d) => shown_entries(
                &d.entries,
                self.show_equal,
                self.filter.as_str(),
                self.sort_by,
                self.sort_asc,
            ),
        }
    }
}

/// The text of an entry's path on one side: the base joined with the
/// relative path, read as UTF-8 with invalid bytes replaced, or nothing
/// where that side lacks the entry.
pub open spec fn side_text(base: Seq<u8>, e: DirDiffEntry, present: bool) -> Seq<char> {
    if present {
        lossy_utf8(join_path(base, e.rel_path@))
    } else {
        Seq::empty()
    }
}

/// `req` asks for the file comparison of entry `e` of `d`.
pub open spec fn requests_entry(d: DirDiff, e: DirDiffEntry, req: OpenFileRequest) -> bool {
    &&& req.path_a@ == side_text(d.base_a@, e, e.meta_a is Some)
    &&& req.path_b@ == side_text(d.base_b@, e, e.meta_b is Some)
    &&& match d.base_c {
        Some(bc) => if e.meta_c is Some {
            req.path_c matches Some(pc) && pc@ == lossy_utf8(join_path(bc@, e.rel_path@))
        } else {
            req.path_c is None
        },
        None => req.path_c is None,
    }
}

fn side_path(base: &[u8], e: &DirDiffEntry, present: bool) -> (r: String)
    ensures
        r@ == side_text(base@, *e, present),
{
    if present {
        let p = join_bytes(base, &e.rel_path);
        utf8_lossy(p.as_slice())
    } else {
        String::new()
    }
}

/// The request to open the file comparison of entry `i` of `d`; a
/// directory asks for nothing.
pub fn open_request_for(d: &DirDiff, i: usize) -> (r: Option<OpenFileRequest>)
    requires
        i < d.entries@.len(),
    ensures
        r is Some <==> !d.entries@[i as int].is_dir,
        r matches Some(req) ==> requests_entry(*d, d.entries@[i as int], req),
{
    let e = &d.entries[i];
    if e.is_dir {
        return None;
    }
    let path_a = side_path(d.base_a.as_slice(), e, e.meta_a.is_some());
    let path_b = side_path(d.base_b.as_slice(), e, e.meta_b.is_some());
    let path_c = match &d.base_c {
        Some(bc) => if e.meta_c.is_some() {
            Some(side_path(bc.as_slice(), e, true))
        } else {
            None
        },
        None => None,
    };
    Some(OpenFileRequest { path_a, path_b, path_c })
}

impl DirView {
    /// A click on entry `i` of the comparison: a file asks for its file
    /// comparison, a directory, or an entry that is not there, for nothing.
    pub fn click_entry(&mut self, i: usize)
        ensures
            final(self).open_request is Some <==> (old(self).dir_diff matches Some(d) && i
                < d.entries@.len() && !d.entries@[i as int].is_dir),
            final(self).open_request matches Some(req) ==> (old(self).dir_diff matches Some(d)
                && requests_entry(d, d.entries@[i as int], req)),
            final(self).dir_diff == old(self).dir_diff,
            final(self).show_equal == old(self).show_equal,
            final(self).filter == old(self).filter,
            final(self).sort_by == old(self).sort_by,
            final(self).sort_asc == old(self).sort_asc,
    {
        let req = match &self.dir_diff {
            Some(d) => if i < d.entries.len() {
                open_request_for(d, i)
            } else {
                None
            },
            None => None,
        };
        self.open_request = req;
    }
}

/// The arrow after a column header: up or down on the sort column as the
/// order is ascending or not, nothing on the others.
pub open spec fn header_arrow(key: SortKey, sort_by: SortKey, asc: bool) -> Seq<char> {
    if key == sort_by {
        if asc {
            " ▲"@
        } else {
            " ▼"@
        }
    } else {
        ""@
    }
}

/// The text of the header of column `key`: its label and arrow.
pub fn header_text(label: &str, key: SortKey, sort_by: SortKey, asc: bool) -> (r: String)
    ensures
        r@ == label@ + header_arrow(key, sort_by, asc),
{
    let arrow = if key == sort_by {
        if asc {
            " ▲"
        } else {
            " ▼"
        }
    } else {
        ""
    };
    let mut s = String::new();
    push_str(&mut s, label);
    push_str(&mut s, arrow);
    proof {
        reveal_strlit(" ▲");
        reveal_strlit(" ▼");
        reveal_strlit("");
        assert(s@ =~= label@ + header_arrow(key, sort_by, asc));
    }
    s
}

} // verus!
