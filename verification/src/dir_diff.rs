use vstd::prelude::*;

use crate::path_order::{compare_paths, lemma_path_order, path_lt, RelPath};

verus! {

/// A file's modification time: the time since the Unix epoch, or before it.
#[derive(Debug, Clone, Copy, PartialEq, Eq, Structural)]
pub struct FileTime {
    pub before_epoch: bool,
    pub secs: u64,
    pub nanos: u32,
}

/// The file system metadata of one entry.
#[derive(Debug, Clone, Copy)]
pub struct EntryMeta {
    pub size: u64,
    pub modified: Option<FileTime>,
    pub is_dir: bool,
}

/// One entry of a directory listing.
#[derive(Debug, Clone)]
pub struct ListedEntry {
    pub rel_path: RelPath,
    pub meta: EntryMeta,
}

/// The entries found under a directory, by relative path, each path once,
/// in path order.
#[derive(Debug)]
pub struct DirListing {
    entries: Vec<ListedEntry>,
}

/// The keys of a listing are strictly increasing.
pub open spec fn sorted_keys(l: Seq<(Seq<Seq<u8>>, EntryMeta)>) -> bool {
    forall|i: int, j: int| 0 <= i < j < l.len() ==> path_lt(#[trigger] l[i].0, #[trigger] l[j].0)
}

/// The listing holds the path.
pub open spec fn has_key(l: Seq<(Seq<Seq<u8>>, EntryMeta)>, k: Seq<Seq<u8>>) -> bool {
    exists|i: int| 0 <= i < l.len() && (#[trigger] l[i]).0 == k
}

/// The metadata that a listing holds for a path, if it holds the path.
pub open spec fn lookup(l: Seq<(Seq<Seq<u8>>, EntryMeta)>, k: Seq<Seq<u8>>) -> Option<EntryMeta> {
    if exists|i: int| 0 <= i < l.len() && (#[trigger] l[i]).0 == k {
        Some(l[choose|i: int| 0 <= i < l.len() && (#[trigger] l[i]).0 == k].1)
    } else {
        None
    }
}

pub proof fn lemma_lookup_at(l: Seq<(Seq<Seq<u8>>, EntryMeta)>, j: int)
    requires
        sorted_keys(l),
        0 <= j < l.len(),
    ensures
        lookup(l, l[j].0) == Some(l[j].1),
{
    let i = choose|i: int| 0 <= i < l.len() && (#[trigger] l[i]).0 == l[j].0;
    lemma_path_order(l[j].0, l[j].0, l[j].0);
    if i < j {
        assert(path_lt(l[i].0, l[j].0));
    } else if i > j {
        assert(path_lt(l[j].0, l[i].0));
    }
}

/// Putting `(key, meta)` in at its place in a sorted listing (or over the
/// entry with the same key) keeps it sorted, makes `key` map to `meta` and
/// leaves every other key as it was.
proof fn lemma_insert_sorted(
    l: Seq<(Seq<Seq<u8>>, EntryMeta)>,
    i: int,
    key: Seq<Seq<u8>>,
    meta: EntryMeta,
    found: bool,
    nl: Seq<(Seq<Seq<u8>>, EntryMeta)>,
)
    requires
        nl == if found {
            l.update(i, (key, meta))
        } else {
            l.insert(i, (key, meta))
        },
        sorted_keys(l),
        0 <= i <= l.len(),
        forall|j: int| 0 <= j < i ==> path_lt(l[j].0, key),
        i < l.len() ==> !path_lt(l[i].0, key),
        found <==> (i < l.len() && l[i].0 == key),
    ensures
        sorted_keys(nl),
        forall|k: Seq<Seq<u8>>| #[trigger] lookup(nl, k) == if k == key {
            Some(meta)
        } else {
            lookup(l, k)
        },
        forall|k: Seq<Seq<u8>>| #[trigger] has_key(nl, k) <==> (k == key || has_key(l, k)),
{
    if !found && i < l.len() {
        lemma_path_order(l[i].0, key, l[i].0);
    }
    assert forall|a: int, b: int| 0 <= a < b < nl.len() implies path_lt(#[trigger] nl[a].0, #[trigger] nl[b].0) by {
        if found {
            if a == i {
                assert(l[a].0 == key);
            }
            if b == i {
                assert(l[b].0 == key);
            }
        } else {
            if a < i && b < i {
            } else if a < i && b == i {
            } else if a < i {
                lemma_path_order(l[a].0, key, l[b - 1].0);
                if i < b - 1 {
                    lemma_path_order(key, l[i].0, l[b - 1].0);
                }
            } else if a == i {
                if i < b - 1 {
                    lemma_path_order(key, l[i].0, l[b - 1].0);
                }
            } else {
            }
        }
    }
    assert forall|k: Seq<Seq<u8>>| #[trigger] has_key(nl, k) <==> (k == key || has_key(l, k)) by {
        if exists|j: int| 0 <= j < nl.len() && (#[trigger] nl[j]).0 == k {
            let j = choose|j: int| 0 <= j < nl.len() && (#[trigger] nl[j]).0 == k;
            if k != key {
                if found {
                    assert(l[j].0 == k);
                } else if j < i {
                    assert(l[j].0 == k);
                } else {
                    assert(l[j - 1].0 == k);
                }
            }
        }
        if k == key {
            assert(nl[i].0 == k);
        } else if exists|j: int| 0 <= j < l.len() && (#[trigger] l[j]).0 == k {
            let j = choose|j: int| 0 <= j < l.len() && (#[trigger] l[j]).0 == k;
            if found || j < i {
                assert(nl[j].0 == k);
            } else {
                assert(nl[j + 1].0 == k);
            }
        }
    }
    assert forall|k: Seq<Seq<u8>>| #[trigger] lookup(nl, k) == if k == key {
        Some(meta)
    } else {
        lookup(l, k)
    } by {
        if k == key {
            assert(nl[i] == (key, meta));
            lemma_lookup_at(nl, i);
        } else if exists|j: int| 0 <= j < l.len() && (#[trigger] l[j]).0 == k {
            let j = choose|j: int| 0 <= j < l.len() && (#[trigger] l[j]).0 == k;
            lemma_lookup_at(l, j);
            if found || j < i {
                assert(nl[j] == l[j]);
                lemma_lookup_at(nl, j);
            } else {
                assert(nl[j + 1] == l[j]);
                lemma_lookup_at(nl, j + 1);
            }
        } else {
            assert(!exists|j: int| 0 <= j < nl.len() && (#[trigger] nl[j]).0 == k);
        }
    }
}

impl View for DirListing {
    type V = Seq<(Seq<Seq<u8>>, EntryMeta)>;

    closed spec fn view(&self) -> Seq<(Seq<Seq<u8>>, EntryMeta)> {
        self.entries@.map_values(|e: ListedEntry| (e.rel_path@, e.meta))
    }
}

impl DirListing {
    #[verifier::type_invariant]
    spec fn inv(self) -> bool {
        sorted_keys(self@)
    }

    pub fn new() -> (r: Self)
        ensures
            r@ == Seq::<(Seq<Seq<u8>>, EntryMeta)>::empty(),
    {
        let r = DirListing { entries: Vec::new() };
        proof {
            assert(r@ =~= Seq::<(Seq<Seq<u8>>, EntryMeta)>::empty());
        }
        r
    }

    pub fn len(&self) -> (r: usize)
        ensures
            r == self@.len(),
    {
        self.entries.len()
    }

    /// The path and metadata of entry `i`.
    pub fn get(&self, i: usize) -> (r: &ListedEntry)
        requires
            i < self@.len(),
        ensures
            (r.rel_path@, r.meta) == self@[i as int],
    {
        &self.entries[i]
    }

    /// Records an entry; an entry already listed under the same path is
    /// replaced.
    pub fn insert(&mut self, rel_path: RelPath, meta: EntryMeta)
        ensures
            sorted_keys(final(self)@),
            forall|k: Seq<Seq<u8>>| #[trigger] lookup(final(self)@, k) == if k == rel_path@ {
                Some(meta)
            } else {
                lookup(old(self)@, k)
            },
            forall|k: Seq<Seq<u8>>| #[trigger] has_key(final(self)@, k) <==> (k == rel_path@ || has_key(old(self)@, k)),
    {
        proof {
            use_type_invariant(&*self);
        }
        let ghost old_view = self@;
        let mut v: Vec<ListedEntry> = Vec::new();
        std::mem::swap(&mut v, &mut self.entries);
        proof {
            assert(v@.map_values(|e: ListedEntry| (e.rel_path@, e.meta)) == old_view);
        }
        let mut i: usize = 0;
        while i < v.len() && compare_paths(&v[i].rel_path, &rel_path) < 0
            invariant
                i <= v@.len(),
                v@.map_values(|e: ListedEntry| (e.rel_path@, e.meta)) == old_view,
                forall|j: int| 0 <= j < i ==> path_lt(old_view[j].0, rel_path@),
            decreases v@.len() - i,
        {
            i += 1;
        }
        let ghost key = rel_path@;
        let ghost pair = (rel_path@, meta);
        let entry = ListedEntry { rel_path, meta };
        let found = i < v.len() && compare_paths(&v[i].rel_path, &entry.rel_path) == 0;
        if found {
            v.set(i, entry);
        } else {
            v.insert(i, entry);
        }
        let ghost nv = v@.map_values(|e: ListedEntry| (e.rel_path@, e.meta));
        proof {
            let ii = i as int;
            if found {
                assert(nv =~= old_view.update(ii, pair));
            } else {
                assert(nv =~= old_view.insert(ii, pair));
            }
            lemma_insert_sorted(old_view, ii, key, meta, found, nv);
        }
        self.entries = v;
        proof {
            assert(self@ =~= nv);
        }
    }
}


/// A path with the metadata of the three sides where they have it.
pub type JoinedView = (Seq<Seq<u8>>, Option<EntryMeta>, Option<EntryMeta>, Option<EntryMeta>);

/// A path found on at least one side of a comparison, with each side's
/// metadata for it.
#[derive(Debug, Clone)]
pub struct JoinedEntry {
    pub rel_path: RelPath,
    pub meta_a: Option<EntryMeta>,
    pub meta_b: Option<EntryMeta>,
    pub meta_c: Option<EntryMeta>,
}

impl JoinedEntry {
    pub open spec fn view_tuple(self) -> JoinedView {
        (self.rel_path@, self.meta_a, self.meta_b, self.meta_c)
    }
}

/// Some joined entry has path `k`.
pub open spec fn joined_has(r: Seq<JoinedView>, k: Seq<Seq<u8>>) -> bool {
    exists|i: int| 0 <= i < r.len() && (#[trigger] r[i]).0 == k
}

/// The joined entries are in path order, each path once, each with the
/// metadata that the listings hold for it, and each on at least one side.
pub open spec fn entries_ok(
    r: Seq<JoinedView>,
    a: Seq<(Seq<Seq<u8>>, EntryMeta)>,
    b: Seq<(Seq<Seq<u8>>, EntryMeta)>,
    c: Seq<(Seq<Seq<u8>>, EntryMeta)>,
) -> bool {
    &&& forall|i: int, j: int| 0 <= i < j < r.len() ==> path_lt(#[trigger] r[i].0, #[trigger] r[j].0)
    &&& forall|i: int| 0 <= i < r.len() ==> {
        &&& (#[trigger] r[i]).1 == lookup(a, r[i].0)
        &&& r[i].2 == lookup(b, r[i].0)
        &&& r[i].3 == lookup(c, r[i].0)
        &&& r[i].1 is Some || r[i].2 is Some || r[i].3 is Some
    }
}

/// The joined entries hold exactly the paths of the three listings.
pub open spec fn joins(
    r: Seq<JoinedView>,
    a: Seq<(Seq<Seq<u8>>, EntryMeta)>,
    b: Seq<(Seq<Seq<u8>>, EntryMeta)>,
    c: Seq<(Seq<Seq<u8>>, EntryMeta)>,
) -> bool {
    &&& entries_ok(r, a, b, c)
    &&& forall|k: Seq<Seq<u8>>| #[trigger] joined_has(r, k) <==> (has_key(a, k) || has_key(b, k) || has_key(c, k))
}

/// Joining has consumed the first `ix` entries of listing `x`.
pub open spec fn cursor_ok(x: Seq<(Seq<Seq<u8>>, EntryMeta)>, ix: int, r: Seq<JoinedView>) -> bool {
    &&& 0 <= ix <= x.len()
    &&& r.len() == 0 ==> ix == 0
    &&& r.len() > 0 && ix < x.len() ==> path_lt(r.last().0, x[ix].0)
    &&& r.len() > 0 && ix > 0 ==> (x[ix - 1].0 == r.last().0 || path_lt(x[ix - 1].0, r.last().0))
    &&& forall|j: int| 0 <= j < ix ==> #[trigger] joined_has(r, x[j].0)
}

proof fn lemma_cursor_step(
    x: Seq<(Seq<Seq<u8>>, EntryMeta)>,
    ix: int,
    r: Seq<JoinedView>,
    e: JoinedView,
    taken: bool,
)
    requires
        sorted_keys(x),
        cursor_ok(x, ix, r),
        r.len() > 0 ==> path_lt(r.last().0, e.0),
        ix < x.len() ==> (x[ix].0 == e.0 || path_lt(e.0, x[ix].0)),
        taken <==> (ix < x.len() && x[ix].0 == e.0),
    ensures
        cursor_ok(x, if taken { ix + 1 } else { ix }, r.push(e)),
        lookup(x, e.0) == if taken {
            Some(x[ix].1)
        } else {
            None
        },
{
    let r2 = r.push(e);
    let ix2 = if taken { ix + 1 } else { ix };
    assert(r2.last() == e);
    if taken {
        lemma_lookup_at(x, ix);
        if ix + 1 < x.len() {
            assert(path_lt(x[ix].0, x[ix + 1].0));
        }
    } else {
        assert forall|j: int| 0 <= j < x.len() implies (#[trigger] x[j]).0 != e.0 by {
            lemma_path_order(x[j].0, e.0, x[j].0);
            if j < ix {
                if r.len() > 0 {
                    lemma_path_order(x[j].0, x[ix - 1].0, r.last().0);
                    lemma_path_order(x[j].0, r.last().0, e.0);
                    if j < ix - 1 {
                        assert(path_lt(x[j].0, x[ix - 1].0));
                    }
                }
            } else {
                lemma_path_order(e.0, x[ix].0, x[j].0);
                if j > ix {
                    assert(path_lt(x[ix].0, x[j].0));
                }
            }
        }
    }
    if r.len() > 0 && ix > 0 && !taken {
        lemma_path_order(x[ix - 1].0, r.last().0, e.0);
    }
    assert forall|j: int| 0 <= j < ix2 implies #[trigger] joined_has(r2, x[j].0) by {
        if j < ix {
            assert(joined_has(r, x[j].0));
            let i = choose|i: int| 0 <= i < r.len() && (#[trigger] r[i]).0 == x[j].0;
            assert(r2[i] == r[i]);
        } else {
            assert(r2[r.len() as int] == e);
        }
    }
}

/// The paths of two or three directory listings, joined in path order.
#[derive(Debug)]
pub struct Joined {
    entries: Vec<JoinedEntry>,
}

impl View for Joined {
    type V = Seq<JoinedView>;

    closed spec fn view(&self) -> Seq<JoinedView> {
        self.entries@.map_values(|e: JoinedEntry| e.view_tuple())
    }
}

impl Joined {
    #[verifier::type_invariant]
    spec fn inv(self) -> bool {
        forall|i: int| 0 <= i < self@.len() ==> (#[trigger] self@[i]).1 is Some || self@[i].2 is Some
            || self@[i].3 is Some
    }

    /// Joins the listings of A and B.
    pub fn twoway(a: &DirListing, b: &DirListing) -> (r: Self)
        ensures
            joins(r@, a@, b@, Seq::empty()),
    {
        let c = DirListing::new();
        Self::threeway(a, b, &c)
    }

    /// Joins the listings of A, B and C.
    pub fn threeway(a: &DirListing, b: &DirListing, c: &DirListing) -> (r: Self)
        ensures
            joins(r@, a@, b@, c@),
    {
        proof {
            use_type_invariant(a);
            use_type_invariant(b);
            use_type_invariant(c);
        }
        let mut out: Vec<JoinedEntry> = Vec::new();
        let mut ia: usize = 0;
        let mut ib: usize = 0;
        let mut ic: usize = 0;
        let la = a.len();
        let lb = b.len();
        let lc = c.len();
        while ia < la || ib < lb || ic < lc
            invariant
                la == a@.len(),
                lb == b@.len(),
                lc == c@.len(),
                sorted_keys(a@),
                sorted_keys(b@),
                sorted_keys(c@),
                cursor_ok(a@, ia as int, out@.map_values(|e: JoinedEntry| e.view_tuple())),
                cursor_ok(b@, ib as int, out@.map_values(|e: JoinedEntry| e.view_tuple())),
                cursor_ok(c@, ic as int, out@.map_values(|e: JoinedEntry| e.view_tuple())),
                entries_ok(out@.map_values(|e: JoinedEntry| e.view_tuple()), a@, b@, c@),
            decreases (la - ia) + (lb - ib) + (lc - ic),
        {
            let ghost r = out@.map_values(|e: JoinedEntry| e.view_tuple());
            let mut best: &RelPath = if ia < la {
                &a.get(ia).rel_path
            } else if ib < lb {
                &b.get(ib).rel_path
            } else {
                &c.get(ic).rel_path
            };
            if ib < lb && compare_paths(&b.get(ib).rel_path, best) < 0 {
                best = &b.get(ib).rel_path;
            }
            if ic < lc && compare_paths(&c.get(ic).rel_path, best) < 0 {
                best = &c.get(ic).rel_path;
            }
            let key = best.clone();
            proof {
                let ha = a@[ia as int].0;
                let hb = b@[ib as int].0;
                let hc = c@[ic as int].0;
                lemma_path_order(ha, hb, hc);
                lemma_path_order(ha, hc, hb);
                lemma_path_order(hb, ha, hc);
                lemma_path_order(hb, hc, ha);
                lemma_path_order(hc, ha, hb);
                lemma_path_order(hc, hb, ha);
                lemma_path_order(ha, ha, ha);
                lemma_path_order(hb, hb, hb);
                lemma_path_order(hc, hc, hc);
                lemma_path_order(ha, hb, ha);
                lemma_path_order(ha, hc, ha);
                lemma_path_order(hb, hc, hb);
            }
            let ta = ia < la && compare_paths(&a.get(ia).rel_path, &key) == 0;
            let tb = ib < lb && compare_paths(&b.get(ib).rel_path, &key) == 0;
            let tc = ic < lc && compare_paths(&c.get(ic).rel_path, &key) == 0;
            let ghost old_ia = ia as int;
            let ghost old_ib = ib as int;
            let ghost old_ic = ic as int;
            proof {
                let k = key@;
                assert(ia < la ==> (a@[ia as int].0 == k || path_lt(k, a@[ia as int].0)));
                assert(ib < lb ==> (b@[ib as int].0 == k || path_lt(k, b@[ib as int].0)));
                assert(ic < lc ==> (c@[ic as int].0 == k || path_lt(k, c@[ic as int].0)));
                assert(ta || tb || tc);
            }
            let ma = if ta {
                let m = a.get(ia).meta;
                ia += 1;
                Some(m)
            } else {
                None
            };
            let mb = if tb {
                let m = b.get(ib).meta;
                ib += 1;
                Some(m)
            } else {
                None
            };
            let mc = if tc {
                let m = c.get(ic).meta;
                ic += 1;
                Some(m)
            } else {
                None
            };
            let ghost e: JoinedView = (key@, ma, mb, mc);
            out.push(JoinedEntry { rel_path: key, meta_a: ma, meta_b: mb, meta_c: mc });
            proof {
                let r2 = out@.map_values(|e: JoinedEntry| e.view_tuple());
                assert(r2 =~= r.push(e));
                if r.len() > 0 {
                    if old_ia < la {
                        assert(path_lt(r.last().0, a@[old_ia].0));
                    } else if old_ib < lb {
                        assert(path_lt(r.last().0, b@[old_ib].0));
                    } else {
                        assert(path_lt(r.last().0, c@[old_ic].0));
                    }
                    assert(path_lt(r.last().0, e.0));
                }
                lemma_cursor_step(a@, old_ia, r, e, ta);
                lemma_cursor_step(b@, old_ib, r, e, tb);
                lemma_cursor_step(c@, old_ic, r, e, tc);
                assert forall|i: int, j: int| 0 <= i < j < r2.len() implies path_lt(#[trigger] r2[i].0, #[trigger] r2[j].0) by {
                    if j == r.len() {
                        if i < r.len() - 1 {
                            assert(path_lt(r[i].0, r[r.len() - 1].0));
                            lemma_path_order(r[i].0, r.last().0, e.0);
                        }
                    }
                }
                assert forall|i: int| 0 <= i < r2.len() implies {
                    &&& (#[trigger] r2[i]).1 == lookup(a@, r2[i].0)
                    &&& r2[i].2 == lookup(b@, r2[i].0)
                    &&& r2[i].3 == lookup(c@, r2[i].0)
                    &&& r2[i].1 is Some || r2[i].2 is Some || r2[i].3 is Some
                } by {
                    if i < r.len() {
                        assert(r2[i] == r[i]);
                    }
                }
            }
        }
        proof {
            let r = out@.map_values(|e: JoinedEntry| e.view_tuple());
            assert forall|k: Seq<Seq<u8>>| #[trigger] joined_has(r, k) <==> (has_key(a@, k) || has_key(b@, k) || has_key(c@, k)) by {
                if joined_has(r, k) {
                    let i = choose|i: int| 0 <= i < r.len() && (#[trigger] r[i]).0 == k;
                    assert(r[i].1 == lookup(a@, k));
                    assert(r[i].2 == lookup(b@, k));
                    assert(r[i].3 == lookup(c@, k));
                }
                if has_key(a@, k) {
                    let j = choose|j: int| 0 <= j < a@.len() && (#[trigger] a@[j]).0 == k;
                    assert(joined_has(r, a@[j].0));
                }
                if has_key(b@, k) {
                    let j = choose|j: int| 0 <= j < b@.len() && (#[trigger] b@[j]).0 == k;
                    assert(joined_has(r, b@[j].0));
                }
                if has_key(c@, k) {
                    let j = choose|j: int| 0 <= j < c@.len() && (#[trigger] c@[j]).0 == k;
                    assert(joined_has(r, c@[j].0));
                }
            }
        }
        Joined { entries: out }
    }
}


impl Joined {
    pub fn len(&self) -> (r: usize)
        ensures
            r == self@.len(),
    {
        self.entries.len()
    }

    /// The joined entry `i`.
    pub fn get(&self, i: usize) -> (r: &JoinedEntry)
        requires
            i < self@.len(),
        ensures
            r.view_tuple() == self@[i as int],
    {
        &self.entries[i]
    }

    /// Whether a two-way comparison needs the contents of entry `i` in A and
    /// B compared byte by byte.
    pub fn needs_bytes_twoway(&self, i: usize) -> (r: bool)
        requires
            i < self@.len(),
        ensures
            r == (pair_needs_bytes(self@[i as int].1, self@[i as int].2) && !first_dir(
                self@[i as int].1,
                self@[i as int].2,
                None,
            )),
    {
        let e = &self.entries[i];
        let none: Option<EntryMeta> = None;
        let d = dir_of(&e.meta_a, &e.meta_b, &none);
        let n = opt_needs_bytes(&e.meta_a, &e.meta_b);
        proof {
            assert(e.view_tuple() == self@[i as int]);
        }
        !d && n
    }

    /// Whether a three-way comparison needs the contents of entry `i`
    /// compared byte by byte between A and B, A and C, and B and C.
    pub fn needs_bytes_threeway(&self, i: usize) -> (r: (bool, bool, bool))
        requires
            i < self@.len(),
        ensures
            r.0 == pair_needs_bytes(self@[i as int].1, self@[i as int].2),
            r.1 == pair_needs_bytes(self@[i as int].1, self@[i as int].3),
            r.2 == pair_needs_bytes(self@[i as int].2, self@[i as int].3),
    {
        let e = &self.entries[i];
        (
            opt_needs_bytes(&e.meta_a, &e.meta_b),
            opt_needs_bytes(&e.meta_a, &e.meta_c),
            opt_needs_bytes(&e.meta_b, &e.meta_c),
        )
    }
}

/// How an entry compares across the directories.
#[derive(Debug, Clone, Copy, PartialEq, Eq, Structural)]
pub enum EntryStatus {
    Equal,
    OnlyInA,
    OnlyInB,
    OnlyInC,
    /// Two-way: A differs from B.
    Modified,
    /// Three-way: B differs from A, C equals A.
    BModified,
    /// Three-way: C differs from A, B equals A.
    CModified,
    /// Three-way: B and C both differ from A but equal each other.
    BothModified,
    /// Three-way: A, B and C all differ.
    Conflict,
}

impl EntryStatus {
    /// A short symbol for the status.
    pub fn symbol(&self) -> (r: &'static str)
        ensures
            r@ == match self {
                EntryStatus::Equal => "  ="@,
                EntryStatus::OnlyInA => "← A"@,
                EntryStatus::OnlyInB => "B →"@,
                EntryStatus::OnlyInC => "C ↓"@,
                EntryStatus::Modified => " ≠ "@,
                EntryStatus::BModified => " B~"@,
                EntryStatus::CModified => " C~"@,
                EntryStatus::BothModified => "BC~"@,
                EntryStatus::Conflict => " !! "@,
            },
    {
        match self {
            EntryStatus::Equal => "  =",
            EntryStatus::OnlyInA => "← A",
            EntryStatus::OnlyInB => "B →",
            EntryStatus::OnlyInC => "C ↓",
            EntryStatus::Modified => " ≠ ",
            EntryStatus::BModified => " B~",
            EntryStatus::CModified => " C~",
            EntryStatus::BothModified => "BC~",
            EntryStatus::Conflict => " !! ",
        }
    }

    pub fn is_changed(&self) -> (r: bool)
        ensures
            r == !(*self is Equal),
    {
        !matches!(self, EntryStatus::Equal)
    }

    pub fn is_conflict(&self) -> (r: bool)
        ensures
            r == (*self is Conflict),
    {
        matches!(self, EntryStatus::Conflict)
    }
}

/// Two entries have the same content: two directories always do; entries of
/// different sizes never do; entries with the same size and the same known
/// modification time are taken to; otherwise their bytes decide.
pub open spec fn content_same(a: EntryMeta, b: EntryMeta, bytes_same: bool) -> bool {
    if a.is_dir && b.is_dir {
        true
    } else if a.size != b.size {
        false
    } else if a.modified is Some && b.modified is Some && a.modified == b.modified {
        true
    } else {
        bytes_same
    }
}

/// Whether deciding `content_same` needs the bytes.
pub open spec fn needs_bytes(a: EntryMeta, b: EntryMeta) -> bool {
    !(a.is_dir && b.is_dir) && a.size == b.size && !(a.modified is Some && b.modified is Some
        && a.modified == b.modified)
}

/// Both sides have the entry and its bytes decide whether they are the same.
pub open spec fn pair_needs_bytes(x: Option<EntryMeta>, y: Option<EntryMeta>) -> bool {
    match (x, y) {
        (Some(a), Some(b)) => needs_bytes(a, b),
        _ => false,
    }
}

/// Both sides have the entry with the same content.
pub open spec fn pair_same(x: Option<EntryMeta>, y: Option<EntryMeta>, bytes_same: bool) -> bool {
    match (x, y) {
        (Some(a), Some(b)) => content_same(a, b, bytes_same),
        _ => false,
    }
}

/// Whether the entry is a directory, as the first side that has it says.
pub open spec fn first_dir(ma: Option<EntryMeta>, mb: Option<EntryMeta>, mc: Option<EntryMeta>) -> bool {
    match (ma, mb, mc) {
        (Some(a), _, _) => a.is_dir,
        (None, Some(b), _) => b.is_dir,
        (None, None, Some(c)) => c.is_dir,
        (None, None, None) => false,
    }
}

/// The status of an entry in a two-way comparison.
pub open spec fn twoway_status(
    ma: Option<EntryMeta>,
    mb: Option<EntryMeta>,
    is_dir: bool,
    same_ab: bool,
) -> EntryStatus {
    match (ma, mb) {
        (Some(_), None) => EntryStatus::OnlyInA,
        (None, Some(_)) => EntryStatus::OnlyInB,
        _ => if is_dir || same_ab {
            EntryStatus::Equal
        } else {
            EntryStatus::Modified
        },
    }
}

/// The status of an entry in a three-way comparison.
pub open spec fn threeway_status(
    ma: Option<EntryMeta>,
    mb: Option<EntryMeta>,
    mc: Option<EntryMeta>,
    is_dir: bool,
    ab: bool,
    ac: bool,
    bc: bool,
) -> EntryStatus {
    match (ma is Some, mb is Some, mc is Some) {
        (true, false, false) => EntryStatus::OnlyInA,
        (false, true, false) => EntryStatus::OnlyInB,
        (false, false, true) => EntryStatus::OnlyInC,
        (true, true, false) => if ab {
            EntryStatus::Equal
        } else {
            EntryStatus::Modified
        },
        (true, false, true) => if ac {
            EntryStatus::Equal
        } else {
            EntryStatus::CModified
        },
        (false, true, true) => if bc {
            EntryStatus::OnlyInB
        } else {
            EntryStatus::Conflict
        },
        _ => if is_dir || (ab && ac) {
            EntryStatus::Equal
        } else if ab && !ac {
            EntryStatus::CModified
        } else if !ab && ac {
            EntryStatus::BModified
        } else if bc {
            EntryStatus::BothModified
        } else {
            EntryStatus::Conflict
        },
    }
}

/// Whether two entries have the same content, given whether their bytes are
/// the same (which is only consulted when size and time do not decide).
pub fn content_equal(a: &EntryMeta, b: &EntryMeta, bytes_same: bool) -> (r: bool)
    ensures
        r == content_same(*a, *b, bytes_same),
{
    if a.is_dir && b.is_dir {
        return true;
    }
    if a.size != b.size {
        return false;
    }
    if let (Some(ta), Some(tb)) = (a.modified, b.modified) {
        if ta == tb {
            return true;
        }
    }
    bytes_same
}

/// Whether two files hold the same bytes.
pub fn bytes_equal(x: &[u8], y: &[u8]) -> (r: bool)
    ensures
        r == (x@ == y@),
{
    if x.len() != y.len() {
        return false;
    }
    let mut i: usize = 0;
    while i < x.len()
        invariant
            x@.len() == y@.len(),
            i <= x@.len(),
            forall|j: int| 0 <= j < i ==> x@[j] == y@[j],
        decreases x@.len() - i,
    {
        if x[i] != y[i] {
            assert(x@[i as int] != y@[i as int]);
            return false;
        }
        i += 1;
    }
    assert(x@ =~= y@);
    true
}

fn opt_needs_bytes(x: &Option<EntryMeta>, y: &Option<EntryMeta>) -> (r: bool)
    ensures
        r == pair_needs_bytes(*x, *y),
{
    match (x, y) {
        (Some(a), Some(b)) => {
            let same_time = match (a.modified, b.modified) {
                (Some(ta), Some(tb)) => ta == tb,
                _ => false,
            };
            !(a.is_dir && b.is_dir) && a.size == b.size && !same_time
        },
        _ => false,
    }
}

fn opt_same(x: &Option<EntryMeta>, y: &Option<EntryMeta>, bytes_same: bool) -> (r: bool)
    ensures
        r == pair_same(*x, *y, bytes_same),
{
    match (x, y) {
        (Some(a), Some(b)) => content_equal(a, b, bytes_same),
        _ => false,
    }
}

fn dir_of(ma: &Option<EntryMeta>, mb: &Option<EntryMeta>, mc: &Option<EntryMeta>) -> (r: bool)
    ensures
        r == first_dir(*ma, *mb, *mc),
{
    match (ma, mb, mc) {
        (Some(a), _, _) => a.is_dir,
        (None, Some(b), _) => b.is_dir,
        (None, None, Some(c)) => c.is_dir,
        (None, None, None) => false,
    }
}

/// One entry of a directory comparison.
#[derive(Debug, Clone)]
pub struct DirDiffEntry {
    pub rel_path: RelPath,
    pub status: EntryStatus,
    pub meta_a: Option<EntryMeta>,
    pub meta_b: Option<EntryMeta>,
    pub meta_c: Option<EntryMeta>,
    pub is_dir: bool,
}

/// The bytes of relative path components joined by `/`.
pub open spec fn joined_components(cs: Seq<Seq<u8>>) -> Seq<u8>
    decreases cs.len(),
{
    if cs.len() == 0 {
        Seq::empty()
    } else if cs.len() == 1 {
        cs[0]
    } else {
        joined_components(cs.drop_last()) + seq![47u8] + cs.last()
    }
}

/// A base path with a relative path appended, as `PathBuf::push` does on
/// Unix: a `/` goes between them unless the base is empty or ends in one.
pub open spec fn join_path(base: Seq<u8>, rel: Seq<Seq<u8>>) -> Seq<u8> {
    base + (if base.len() > 0 && base.last() != 47u8 {
        seq![47u8]
    } else {
        Seq::empty()
    }) + joined_components(rel)
}

pub(crate) fn join_bytes(base: &[u8], rel: &RelPath) -> (r: Vec<u8>)
    ensures
        r@ == join_path(base@, rel@),
{
    let mut out: Vec<u8> = Vec::new();
    let mut i: usize = 0;
    while i < base.len()
        invariant
            i <= base@.len(),
            out@ == base@.take(i as int),
        decreases base@.len() - i,
    {
        out.push(base[i]);
        i += 1;
        proof {
            assert(out@ =~= base@.take(i as int));
        }
    }
    proof {
        assert(base@.take(i as int) =~= base@);
    }
    if base.len() > 0 && base[base.len() - 1] != 47u8 {
        out.push(47u8);
    }
    let ghost head = out@;
    proof {
        assert(head == base@ + (if base@.len() > 0 && base@.last() != 47u8 {
            seq![47u8]
        } else {
            Seq::<u8>::empty()
        })) by {
            if base@.len() > 0 && base@.last() != 47u8 {
                assert(head =~= base@ + seq![47u8]);
            } else {
                assert(head =~= base@ + Seq::<u8>::empty());
            }
        }
    }
    let cs = &rel.components;
    let mut k: usize = 0;
    proof {
        assert(rel@.take(0) =~= Seq::<Seq<u8>>::empty());
        assert(out@ =~= head + joined_components(rel@.take(0)));
    }
    while k < cs.len()
        invariant
            cs@.len() == rel@.len(),
            forall|j: int| 0 <= j < cs@.len() ==> (#[trigger] cs@[j])@ == rel@[j],
            k <= cs@.len(),
            out@ == head + joined_components(rel@.take(k as int)),
        decreases cs@.len() - k,
    {
        let ghost before = out@;
        if k > 0 {
            out.push(47u8);
        }
        let c = &cs[k];
        let mut j: usize = 0;
        let ghost mid = out@;
        while j < c.len()
            invariant
                j <= c@.len(),
                out@ == mid + c@.take(j as int),
            decreases c@.len() - j,
        {
            out.push(c[j]);
            j += 1;
            proof {
                assert(out@ =~= mid + c@.take(j as int));
            }
        }
        proof {
            assert(c@.take(j as int) =~= c@);
            assert(c@ == rel@[k as int]);
            let t = rel@.take(k + 1);
            assert(t.drop_last() =~= rel@.take(k as int));
            assert(t.last() == rel@[k as int]);
            if k == 0 {
                assert(t.len() == 1);
                assert(out@ =~= head + joined_components(t));
            } else {
                assert(out@ =~= head + joined_components(t));
            }
        }
        k += 1;
    }
    proof {
        assert(rel@.take(k as int) =~= rel@);
    }
    out
}

impl DirDiffEntry {
    /// The entry's path under A's base directory, if A has the entry.
    pub fn abs_path_a(&self, base: &[u8]) -> (r: Option<Vec<u8>>)
        ensures
            r is Some <==> self.meta_a is Some,
            r matches Some(p) ==> p@ == join_path(base@, self.rel_path@),
    {
        match self.meta_a {
            Some(_) => Some(join_bytes(base, &self.rel_path)),
            None => None,
        }
    }

    /// The entry's path under B's base directory, if B has the entry.
    pub fn abs_path_b(&self, base: &[u8]) -> (r: Option<Vec<u8>>)
        ensures
            r is Some <==> self.meta_b is Some,
            r matches Some(p) ==> p@ == join_path(base@, self.rel_path@),
    {
        match self.meta_b {
            Some(_) => Some(join_bytes(base, &self.rel_path)),
            None => None,
        }
    }

    /// The entry's path under C's base directory, if C has the entry.
    pub fn abs_path_c(&self, base: &[u8]) -> (r: Option<Vec<u8>>)
        ensures
            r is Some <==> self.meta_c is Some,
            r matches Some(p) ==> p@ == join_path(base@, self.rel_path@),
    {
        match self.meta_c {
            Some(_) => Some(join_bytes(base, &self.rel_path)),
            None => None,
        }
    }
}

/// The number of entries whose status is not `Equal`.
pub open spec fn changed_in(es: Seq<DirDiffEntry>) -> nat
    decreases es.len(),
{
    if es.len() == 0 {
        0
    } else {
        changed_in(es.drop_last()) + if es.last().status is Equal {
            0nat
        } else {
            1nat
        }
    }
}

/// The number of entries whose status is `Conflict`.
pub open spec fn conflicts_among(es: Seq<DirDiffEntry>) -> nat
    decreases es.len(),
{
    if es.len() == 0 {
        0
    } else {
        conflicts_among(es.drop_last()) + if es.last().status is Conflict {
            1nat
        } else {
            0nat
        }
    }
}

/// Entries none of which is a conflict count no conflicts.
proof fn lemma_no_conflicts(es: Seq<DirDiffEntry>)
    requires
        forall|k: int| 0 <= k < es.len() ==> !((#[trigger] es[k]).status is Conflict),
    ensures
        conflicts_among(es) == 0,
    decreases es.len(),
{
    if es.len() > 0 {
        let p = es.drop_last();
        assert forall|k: int| 0 <= k < p.len() implies !((#[trigger] p[k]).status is Conflict) by {
            assert(p[k] == es[k]);
        }
        lemma_no_conflicts(p);
        assert(es.last() == es[es.len() - 1]);
    }
}

/// The result of comparing two or three directories.
pub struct DirDiff {
    pub entries: Vec<DirDiffEntry>,
    pub base_a: Vec<u8>,
    pub base_b: Vec<u8>,
    pub base_c: Option<Vec<u8>>,
}

impl DirDiff {
    /// Compares the directories A and B from their joined listings. For each
    /// entry `i` that `needs_bytes_twoway` reports, `same_ab[i]` says whether
    /// the files in A and B hold the same bytes; elsewhere it is not read.
    pub fn compare_twoway(
        base_a: Vec<u8>,
        base_b: Vec<u8>,
        joined: &Joined,
        same_ab: &[bool],
    ) -> (r: Self)
        requires
            same_ab@.len() == joined@.len(),
        ensures
            r.base_a == base_a,
            r.base_b == base_b,
            r.base_c is None,
            r.entries@.len() == joined@.len(),
            conflicts_among(r.entries@) == 0,
            forall|i: int| 0 <= i < joined@.len() ==> {
                let j = joined@[i];
                let e = #[trigger] r.entries@[i];
                &&& e.rel_path@ == j.0
                &&& e.meta_a == j.1
                &&& e.meta_b == j.2
                &&& e.meta_c is None
                &&& e.is_dir == first_dir(j.1, j.2, None)
                &&& e.status == twoway_status(j.1, j.2, e.is_dir, pair_same(j.1, j.2, same_ab@[i]))
            },
    {
        let mut entries: Vec<DirDiffEntry> = Vec::new();
        let mut i: usize = 0;
        while i < joined.len()
            invariant
                same_ab@.len() == joined@.len(),
                i <= joined@.len(),
                entries@.len() == i,
                forall|k: int| 0 <= k < i ==> {
                    let j = joined@[k];
                    let e = #[trigger] entries@[k];
                    &&& e.rel_path@ == j.0
                    &&& e.meta_a == j.1
                    &&& e.meta_b == j.2
                    &&& e.meta_c is None
                    &&& e.is_dir == first_dir(j.1, j.2, None)
                    &&& e.status == twoway_status(j.1, j.2, e.is_dir, pair_same(j.1, j.2, same_ab@[k]))
                },
            decreases joined@.len() - i,
        {
            let je = joined.get(i);
            let is_dir = dir_of(&je.meta_a, &je.meta_b, &None);
            let status = match (&je.meta_a, &je.meta_b) {
                (Some(_), None) => EntryStatus::OnlyInA,
                (None, Some(_)) => EntryStatus::OnlyInB,
                _ => {
                    if is_dir || opt_same(&je.meta_a, &je.meta_b, same_ab[i]) {
                        EntryStatus::Equal
                    } else {
                        EntryStatus::Modified
                    }
                },
            };
            entries.push(
                DirDiffEntry {
                    rel_path: je.rel_path.clone(),
                    status,
                    meta_a: je.meta_a,
                    meta_b: je.meta_b,
                    meta_c: None,
                    is_dir,
                },
            );
            i += 1;
        }
        proof {
            assert forall|k: int| 0 <= k < entries@.len() implies !((#[trigger] entries@[k]).status is Conflict) by {
                let j = joined@[k];
                assert(entries@[k].status == twoway_status(
                    j.1,
                    j.2,
                    entries@[k].is_dir,
                    pair_same(j.1, j.2, same_ab@[k]),
                ));
            }
            lemma_no_conflicts(entries@);
        }
        DirDiff { entries, base_a, base_b, base_c: None }
    }

    /// Compares the directories A, B and C from their joined listings. For
    /// each entry `i`, `same_ab[i]`, `same_ac[i]` and `same_bc[i]` say whether
    /// the two files hold the same bytes, where `needs_bytes_threeway`
    /// reports that this decides; elsewhere they are not read.
    pub fn compare_threeway(
        base_a: Vec<u8>,
        base_b: Vec<u8>,
        base_c: Vec<u8>,
        joined: &Joined,
        same_ab: &[bool],
        same_ac: &[bool],
        same_bc: &[bool],
    ) -> (r: Self)
        requires
            same_ab@.len() == joined@.len(),
            same_ac@.len() == joined@.len(),
            same_bc@.len() == joined@.len(),
        ensures
            r.base_a == base_a,
            r.base_b == base_b,
            r.base_c == Some(base_c),
            r.entries@.len() == joined@.len(),
            forall|i: int| 0 <= i < joined@.len() ==> {
                let j = joined@[i];
                let e = #[trigger] r.entries@[i];
                &&& e.rel_path@ == j.0
                &&& e.meta_a == j.1
                &&& e.meta_b == j.2
                &&& e.meta_c == j.3
                &&& e.is_dir == first_dir(j.1, j.2, j.3)
                &&& e.status == threeway_status(
                    j.1,
                    j.2,
                    j.3,
                    e.is_dir,
                    pair_same(j.1, j.2, same_ab@[i]),
                    pair_same(j.1, j.3, same_ac@[i]),
                    pair_same(j.2, j.3, same_bc@[i]),
                )
            },
    {
        proof {
            use_type_invariant(joined);
        }
        let mut entries: Vec<DirDiffEntry> = Vec::new();
        let mut i: usize = 0;
        while i < joined.len()
            invariant
                same_ab@.len() == joined@.len(),
                same_ac@.len() == joined@.len(),
                same_bc@.len() == joined@.len(),
                i <= joined@.len(),
                entries@.len() == i,
                forall|k: int| 0 <= k < i ==> {
                    let j = joined@[k];
                    let e = #[trigger] entries@[k];
                    &&& e.rel_path@ == j.0
                    &&& e.meta_a == j.1
                    &&& e.meta_b == j.2
                    &&& e.meta_c == j.3
                    &&& e.is_dir == first_dir(j.1, j.2, j.3)
                    &&& e.status == threeway_status(
                        j.1,
                        j.2,
                        j.3,
                        e.is_dir,
                        pair_same(j.1, j.2, same_ab@[k]),
                        pair_same(j.1, j.3, same_ac@[k]),
                        pair_same(j.2, j.3, same_bc@[k]),
                    )
                },
            decreases joined@.len() - i,
        {
            let je = joined.get(i);
            let is_dir = dir_of(&je.meta_a, &je.meta_b, &je.meta_c);
            let ab = opt_same(&je.meta_a, &je.meta_b, same_ab[i]);
            let ac = opt_same(&je.meta_a, &je.meta_c, same_ac[i]);
            let bc = opt_same(&je.meta_b, &je.meta_c, same_bc[i]);
            let status = match (je.meta_a.is_some(), je.meta_b.is_some(), je.meta_c.is_some()) {
                (true, false, false) => EntryStatus::OnlyInA,
                (false, true, false) => EntryStatus::OnlyInB,
                (false, false, true) => EntryStatus::OnlyInC,
                (true, true, false) => if ab {
                    EntryStatus::Equal
                } else {
                    EntryStatus::Modified
                },
                (true, false, true) => if ac {
                    EntryStatus::Equal
                } else {
                    EntryStatus::CModified
                },
                (false, true, true) => if bc {
                    EntryStatus::OnlyInB
                } else {
                    EntryStatus::Conflict
                },
                _ => {
                    if is_dir || (ab && ac) {
                        EntryStatus::Equal
                    } else if ab && !ac {
                        EntryStatus::CModified
                    } else if !ab && ac {
                        EntryStatus::BModified
                    } else if bc {
                        EntryStatus::BothModified
                    } else {
                        EntryStatus::Conflict
                    }
                },
            };
            entries.push(
                DirDiffEntry {
                    rel_path: je.rel_path.clone(),
                    status,
                    meta_a: je.meta_a,
                    meta_b: je.meta_b,
                    meta_c: je.meta_c,
                    is_dir,
                },
            );
            i += 1;
        }
        DirDiff { entries, base_a, base_b, base_c: Some(base_c) }
    }

    pub fn changed_count(&self) -> (r: usize)
        ensures
            r == changed_in(self.entries@),
    {
        let mut n: usize = 0;
        let mut i: usize = 0;
        while i < self.entries.len()
            invariant
                i <= self.entries@.len(),
                n == changed_in(self.entries@.take(i as int)),
                n <= i,
            decreases self.entries@.len() - i,
        {
            proof {
                assert(self.entries@.take(i + 1).drop_last() =~= self.entries@.take(i as int));
            }
            if self.entries[i].status.is_changed() {
                n += 1;
            }
            i += 1;
        }
        proof {
            assert(self.entries@.take(i as int) =~= self.entries@);
        }
        n
    }

    pub fn conflict_count(&self) -> (r: usize)
        ensures
            r == conflicts_among(self.entries@),
    {
        let mut n: usize = 0;
        let mut i: usize = 0;
        while i < self.entries.len()
            invariant
                i <= self.entries@.len(),
                n == conflicts_among(self.entries@.take(i as int)),
                n <= i,
            decreases self.entries@.len() - i,
        {
            proof {
                assert(self.entries@.take(i + 1).drop_last() =~= self.entries@.take(i as int));
            }
            if self.entries[i].status.is_conflict() {
                n += 1;
            }
            i += 1;
        }
        proof {
            assert(self.entries@.take(i as int) =~= self.entries@);
        }
        n
    }

    pub fn is_threeway(&self) -> (r: bool)
        ensures
            r == self.base_c is Some,
    {
        self.base_c.is_some()
    }
}


/// Every entry of the listing is a directory or has a known modification time.
pub open spec fn times_known(l: Seq<(Seq<Seq<u8>>, EntryMeta)>) -> bool {
    forall|i: int| 0 <= i < l.len() ==> (#[trigger] l[i]).1.is_dir || l[i].1.modified is Some
}

/// A directory compared with an identical copy of itself is equal
/// everywhere, two-way and three-way, whatever the byte comparisons say,
/// when every entry is a directory or has a known modification time.
pub proof fn law_identical_listings_equal(
    l: Seq<(Seq<Seq<u8>>, EntryMeta)>,
    r2: Seq<JoinedView>,
    r3: Seq<JoinedView>,
    same_ab: bool,
    same_ac: bool,
    same_bc: bool,
)
    requires
        sorted_keys(l),
        times_known(l),
        joins(r2, l, l, Seq::empty()),
        joins(r3, l, l, l),
    ensures
        forall|i: int| 0 <= i < r2.len() ==> twoway_status(
            (#[trigger] r2[i]).1,
            r2[i].2,
            first_dir(r2[i].1, r2[i].2, None),
            pair_same(r2[i].1, r2[i].2, same_ab),
        ) is Equal,
        forall|i: int| 0 <= i < r3.len() ==> threeway_status(
            (#[trigger] r3[i]).1,
            r3[i].2,
            r3[i].3,
            first_dir(r3[i].1, r3[i].2, r3[i].3),
            pair_same(r3[i].1, r3[i].2, same_ab),
            pair_same(r3[i].1, r3[i].3, same_ac),
            pair_same(r3[i].2, r3[i].3, same_bc),
        ) is Equal,
{
    assert forall|i: int| 0 <= i < r2.len() implies twoway_status(
        (#[trigger] r2[i]).1,
        r2[i].2,
        first_dir(r2[i].1, r2[i].2, None),
        pair_same(r2[i].1, r2[i].2, same_ab),
    ) is Equal by {
        let k = r2[i].0;
        if lookup(l, k) is None {
            assert(!has_key(Seq::<(Seq<Seq<u8>>, EntryMeta)>::empty(), k));
        } else {
            let j = choose|j: int| 0 <= j < l.len() && (#[trigger] l[j]).0 == k;
            lemma_lookup_at(l, j);
        }
    }
    assert forall|i: int| 0 <= i < r3.len() implies threeway_status(
        (#[trigger] r3[i]).1,
        r3[i].2,
        r3[i].3,
        first_dir(r3[i].1, r3[i].2, r3[i].3),
        pair_same(r3[i].1, r3[i].2, same_ab),
        pair_same(r3[i].1, r3[i].3, same_ac),
        pair_same(r3[i].2, r3[i].3, same_bc),
    ) is Equal by {
        let k = r3[i].0;
        if lookup(l, k) is Some {
            let j = choose|j: int| 0 <= j < l.len() && (#[trigger] l[j]).0 == k;
            lemma_lookup_at(l, j);
        }
    }
}

/// With C lacking an entry that A and B both have, the three-way status is
/// the two-way status of A against B (for a directory in A, when B's entry
/// is a directory too): Equal when their contents are the same, else
/// Modified.
pub proof fn law_threeway_without_c_is_twoway(
    a: EntryMeta,
    b: EntryMeta,
    same_ab: bool,
    same_ac: bool,
    same_bc: bool,
)
    requires
        a.is_dir ==> b.is_dir,
    ensures
        ({
            let ma = Some(a);
            let mb = Some(b);
            let d = first_dir(ma, mb, None);
            &&& threeway_status(
                ma,
                mb,
                None,
                d,
                pair_same(ma, mb, same_ab),
                pair_same(ma, None, same_ac),
                pair_same(mb, None, same_bc),
            ) == twoway_status(ma, mb, first_dir(ma, mb, None), pair_same(ma, mb, same_ab))
            &&& content_same(a, b, same_ab) ==> threeway_status(
                ma,
                mb,
                None,
                d,
                pair_same(ma, mb, same_ab),
                pair_same(ma, None, same_ac),
                pair_same(mb, None, same_bc),
            ) == EntryStatus::Equal
            &&& !content_same(a, b, same_ab) ==> threeway_status(
                ma,
                mb,
                None,
                d,
                pair_same(ma, mb, same_ab),
                pair_same(ma, None, same_ac),
                pair_same(mb, None, same_bc),
            ) == EntryStatus::Modified
        }),
{
}

} // verus!
