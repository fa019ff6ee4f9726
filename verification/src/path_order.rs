use vstd::prelude::*;

verus! {

/// A path relative to a compared directory, as its components (the bytes of
/// each file or directory name, without separators).
#[derive(Debug)]
pub struct RelPath {
    pub components: Vec<Vec<u8>>,
}

impl View for RelPath {
    type V = Seq<Seq<u8>>;

    open spec fn view(&self) -> Seq<Seq<u8>> {
        self.components@.map_values(|c: Vec<u8>| c@)
    }
}

impl Clone for RelPath {
    fn clone(&self) -> (r: Self)
        ensures
            r@ == self@,
    {
        let mut components: Vec<Vec<u8>> = Vec::new();
        let mut i: usize = 0;
        while i < self.components.len()
            invariant
                i <= self.components@.len(),
                components@.len() == i,
                forall|k: int| 0 <= k < i ==> (#[trigger] components@[k])@ == self.components@[k]@,
            decreases self.components@.len() - i,
        {
            components.push(copy_bytes(&self.components[i]));
            i += 1;
        }
        let r = RelPath { components };
        proof {
            assert(r@ =~= self@);
        }
        r
    }
}

/// A copy of a byte vector.
pub fn copy_bytes(v: &Vec<u8>) -> (r: Vec<u8>)
    ensures
        r@ == v@,
{
    let mut r: Vec<u8> = Vec::new();
    let mut i: usize = 0;
    while i < v.len()
        invariant
            i <= v@.len(),
            r@ == v@.take(i as int),
        decreases v@.len() - i,
    {
        r.push(v[i]);
        i += 1;
        proof {
            assert(r@ =~= v@.take(i as int));
        }
    }
    proof {
        assert(v@.take(i as int) =~= v@);
    }
    r
}

/// Lexicographic order of byte strings: a proper prefix comes first.
pub open spec fn bytes_lt(a: Seq<u8>, b: Seq<u8>) -> bool
    decreases a.len(),
{
    if a.len() == 0 {
        b.len() > 0
    } else if b.len() == 0 {
        false
    } else if a[0] != b[0] {
        a[0] < b[0]
    } else {
        bytes_lt(a.drop_first(), b.drop_first())
    }
}

/// The order of relative paths: component by component, each compared as
/// bytes; a path comes before every longer path that it begins.
pub open spec fn path_lt(a: Seq<Seq<u8>>, b: Seq<Seq<u8>>) -> bool
    decreases a.len(),
{
    if a.len() == 0 {
        b.len() > 0
    } else if b.len() == 0 {
        false
    } else if a[0] != b[0] {
        bytes_lt(a[0], b[0])
    } else {
        path_lt(a.drop_first(), b.drop_first())
    }
}

pub proof fn lemma_bytes_order(a: Seq<u8>, b: Seq<u8>, c: Seq<u8>)
    ensures
        !bytes_lt(a, a),
        bytes_lt(a, b) ==> !bytes_lt(b, a),
        a != b ==> bytes_lt(a, b) || bytes_lt(b, a),
        bytes_lt(a, b) && bytes_lt(b, c) ==> bytes_lt(a, c),
    decreases a.len(),
{
    if a.len() > 0 && b.len() > 0 && c.len() > 0 {
        lemma_bytes_order(a.drop_first(), b.drop_first(), c.drop_first());
    } else if a.len() > 0 && b.len() > 0 {
        lemma_bytes_order(a.drop_first(), b.drop_first(), a.drop_first());
    } else if a.len() > 0 {
        lemma_bytes_order(a.drop_first(), a.drop_first(), a.drop_first());
    }
    if a.len() > 0 && b.len() > 0 && a[0] == b[0] && a != b {
        assert(a.drop_first() != b.drop_first()) by {
            if a.drop_first() == b.drop_first() {
                assert(a =~= seq![a[0]] + a.drop_first());
                assert(b =~= seq![b[0]] + b.drop_first());
            }
        }
    }
    if a.len() == 0 && b.len() == 0 {
        assert(a =~= b);
    }
}

pub proof fn lemma_path_order(a: Seq<Seq<u8>>, b: Seq<Seq<u8>>, c: Seq<Seq<u8>>)
    ensures
        !path_lt(a, a),
        path_lt(a, b) ==> !path_lt(b, a),
        a != b ==> path_lt(a, b) || path_lt(b, a),
        path_lt(a, b) && path_lt(b, c) ==> path_lt(a, c),
    decreases a.len(),
{
    if a.len() > 0 {
        lemma_bytes_order(a[0], a[0], a[0]);
    }
    if a.len() > 0 && b.len() > 0 {
        lemma_bytes_order(a[0], b[0], a[0]);
    }
    if a.len() > 0 && b.len() > 0 && c.len() > 0 {
        lemma_bytes_order(a[0], b[0], c[0]);
        lemma_path_order(a.drop_first(), b.drop_first(), c.drop_first());
    } else if a.len() > 0 && b.len() > 0 {
        lemma_path_order(a.drop_first(), b.drop_first(), a.drop_first());
    } else if a.len() > 0 {
        lemma_path_order(a.drop_first(), a.drop_first(), a.drop_first());
    }
    if a.len() > 0 && b.len() > 0 && a[0] == b[0] && a != b {
        assert(a.drop_first() != b.drop_first()) by {
            if a.drop_first() == b.drop_first() {
                assert(a =~= seq![a[0]] + a.drop_first());
                assert(b =~= seq![b[0]] + b.drop_first());
            }
        }
    }
    if a.len() == 0 && b.len() == 0 {
        assert(a =~= b);
    }
}

/// Compares two byte strings: `-1`, `0` or `1` as the first is before, equal
/// to or after the second.
pub fn compare_bytes(a: &[u8], b: &[u8]) -> (r: i8)
    ensures
        r == 0 <==> a@ == b@,
        r < 0 <==> bytes_lt(a@, b@),
        r > 0 <==> bytes_lt(b@, a@),
{
    proof {
        lemma_bytes_order(a@, b@, a@);
    }
    let mut i: usize = 0;
    proof {
        assert(a@.skip(0) =~= a@);
        assert(b@.skip(0) =~= b@);
        assert(a@.take(0) =~= b@.take(0));
    }
    while i < a.len() && i < b.len()
        invariant
            i <= a@.len(),
            i <= b@.len(),
            a@.take(i as int) == b@.take(i as int),
            bytes_lt(a@, b@) == bytes_lt(a@.skip(i as int), b@.skip(i as int)),
            bytes_lt(b@, a@) == bytes_lt(b@.skip(i as int), a@.skip(i as int)),
        decreases a@.len() - i,
    {
        proof {
            assert(a@.skip(i as int).drop_first() =~= a@.skip(i + 1));
            assert(b@.skip(i as int).drop_first() =~= b@.skip(i + 1));
        }
        if a[i] != b[i] {
            proof {
                assert(a@ != b@) by {
                    assert(a@[i as int] != b@[i as int]);
                }
            }
            return if a[i] < b[i] { -1 } else { 1 };
        }
        i += 1;
        proof {
            assert(a@.take(i as int) =~= b@.take(i as int)) by {
                assert(a@.take(i - 1) == b@.take(i - 1));
            }
        }
    }
    if a.len() == b.len() {
        proof {
            assert(a@ =~= a@.take(i as int));
            assert(b@ =~= b@.take(i as int));
        }
        0
    } else if a.len() < b.len() {
        proof {
            assert(a@.len() != b@.len());
            assert(a@.skip(i as int).len() == 0);
            assert(b@.skip(i as int).len() > 0);
        }
        -1
    } else {
        proof {
            assert(a@.len() != b@.len());
            assert(a@.skip(i as int).len() > 0);
            assert(b@.skip(i as int).len() == 0);
        }
        1
    }
}


/// Compares two relative paths: `-1`, `0` or `1` as the first is before,
/// equal to or after the second.
pub fn compare_paths(a: &RelPath, b: &RelPath) -> (r: i8)
    ensures
        r == 0 <==> a@ == b@,
        r < 0 <==> path_lt(a@, b@),
        r > 0 <==> path_lt(b@, a@),
{
    proof {
        lemma_path_order(a@, b@, a@);
        assert(a@.skip(0) =~= a@);
        assert(b@.skip(0) =~= b@);
        assert(a@.take(0) =~= b@.take(0));
    }
    let ac = &a.components;
    let bc = &b.components;
    let mut i: usize = 0;
    while i < ac.len() && i < bc.len()
        invariant
            ac@.len() == a@.len(),
            bc@.len() == b@.len(),
            forall|k: int| 0 <= k < ac@.len() ==> (#[trigger] ac@[k])@ == a@[k],
            forall|k: int| 0 <= k < bc@.len() ==> (#[trigger] bc@[k])@ == b@[k],
            i <= a@.len(),
            i <= b@.len(),
            a@.take(i as int) == b@.take(i as int),
            path_lt(a@, b@) == path_lt(a@.skip(i as int), b@.skip(i as int)),
            path_lt(b@, a@) == path_lt(b@.skip(i as int), a@.skip(i as int)),
        decreases a@.len() - i,
    {
        proof {
            assert(a@.skip(i as int).drop_first() =~= a@.skip(i + 1));
            assert(b@.skip(i as int).drop_first() =~= b@.skip(i + 1));
            assert(ac@[i as int]@ == a@[i as int]);
            assert(bc@[i as int]@ == b@[i as int]);
        }
        let c = compare_bytes(ac[i].as_slice(), bc[i].as_slice());
        if c != 0 {
            proof {
                assert(a@ != b@) by {
                    assert(a@[i as int] != b@[i as int]);
                }
            }
            return c;
        }
        i += 1;
        proof {
            assert(a@.take(i as int) =~= b@.take(i as int)) by {
                assert(a@.take(i - 1) == b@.take(i - 1));
            }
        }
    }
    if ac.len() == bc.len() {
        proof {
            assert(a@ =~= a@.take(i as int));
            assert(b@ =~= b@.take(i as int));
        }
        0
    } else if ac.len() < bc.len() {
        proof {
            assert(a@.len() != b@.len());
            assert(a@.skip(i as int).len() == 0);
            assert(b@.skip(i as int).len() > 0);
        }
        -1
    } else {
        proof {
            assert(a@.len() != b@.len());
            assert(a@.skip(i as int).len() > 0);
            assert(b@.skip(i as int).len() == 0);
        }
        1
    }
}

} // verus!
