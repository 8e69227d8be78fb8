//! Absolute paths as raw bytes: validity, the parent of a path, and joining
//! a directory with a child name. The ancestor chain of the column stack is
//! defined through `parent_of`.

use vstd::prelude::*;
use crate::entry::bytes_eq;

verus! {

/// The byte of the ASCII path separator.
pub open spec fn sep() -> u8 {
    47u8
}

/// A well-formed absolute path: starts at the root, no empty components, no
/// trailing separator except on the root itself.
pub open spec fn valid_path(p: Seq<u8>) -> bool {
    &&& p.len() >= 1
    &&& p[0] == sep()
    &&& (p.len() == 1 || p[p.len() - 1] != sep())
    &&& forall|i: int| 0 < i < p.len() ==> !(p[i - 1] == sep() && #[trigger] p[i] == sep())
}

/// The root path.
pub open spec fn root_path() -> Seq<u8> {
    seq![sep()]
}

/// A well-formed entry name: non-empty and free of separators.
pub open spec fn valid_name(n: Seq<u8>) -> bool {
    n.len() > 0 && forall|i: int| 0 <= i < n.len() ==> n[i] != sep()
}

/// The index of the last separator in the path.
pub open spec fn last_sep(p: Seq<u8>) -> int
    decreases p.len(),
{
    if p.len() == 0 {
        -1
    } else if p[p.len() - 1] == sep() {
        p.len() - 1
    } else {
        last_sep(p.drop_last())
    }
}

/// The parent of a path: everything before the last separator, or the root
/// when the last separator is the leading one.
pub open spec fn parent_of(p: Seq<u8>) -> Seq<u8> {
    let i = last_sep(p);
    if i <= 0 {
        root_path()
    } else {
        p.take(i)
    }
}

/// A child path: the directory, a separator, the name.
pub open spec fn child_of(dir: Seq<u8>, name: Seq<u8>) -> Seq<u8> {
    if dir == root_path() {
        seq![sep()] + name
    } else {
        dir + seq![sep()] + name
    }
}

/// The last separator is where the scan from the end stops.
proof fn lemma_last_sep_at(p: Seq<u8>, m: int)
    requires
        0 <= m < p.len(),
        p[m] == sep(),
        forall|k: int| m < k < p.len() ==> p[k] != sep(),
    ensures
        last_sep(p) == m,
    decreases p.len(),
{
    if m == p.len() - 1 {
    } else {
        assert(p[p.len() - 1] != sep());
        lemma_last_sep_at(p.drop_last(), m);
    }
}

/// The root is its own fixed point under `parent_of`, and every other valid
/// path has a strictly shorter, valid parent.
pub proof fn lemma_parent_shorter(p: Seq<u8>)
    requires
        valid_path(p),
        p.len() > 1,
    ensures
        valid_path(parent_of(p)),
        parent_of(p).len() < p.len(),
{
    let m = last_sep(p);
    lemma_last_sep_exists(p);
    assert(0 <= m < p.len() && p[m] == sep());
    assert(m < p.len() - 1 || p[p.len() - 1] != sep());
    assert(m != p.len() - 1);
    if m > 0 {
        let q = p.take(m);
        assert(q[0] == p[0]);
        assert(q.len() >= 1);
        assert(p[m - 1] != sep());
        assert(q[q.len() - 1] != sep() || q.len() == 1);
        assert(valid_path(q)) by {
            assert(forall|i: int| 0 < i < q.len() ==> !(q[i - 1] == sep() && #[trigger] q[i] == sep()));
        }
    }
}

/// A valid path contains a separator, and the scan finds one.
proof fn lemma_last_sep_exists(p: Seq<u8>)
    requires
        p.len() >= 1,
        p[0] == sep(),
    ensures
        0 <= last_sep(p) < p.len(),
        p[last_sep(p)] == sep(),
        forall|k: int| last_sep(p) < k < p.len() ==> p[k] != sep(),
    decreases p.len(),
{
    if p[p.len() - 1] == sep() {
    } else {
        lemma_last_sep_exists(p.drop_last());
        assert forall|k: int| last_sep(p) < k < p.len() implies p[k] != sep() by {
            if k < p.len() - 1 {
                assert(p.drop_last()[k] != sep());
            }
        }
    }
}

/// The parent of a joined child path is the directory it was joined under.
pub proof fn lemma_child_parent(dir: Seq<u8>, name: Seq<u8>)
    requires
        valid_path(dir),
        valid_name(name),
    ensures
        valid_path(child_of(dir, name)),
        parent_of(child_of(dir, name)) == dir,
        child_of(dir, name).len() > 1,
{
    let c = child_of(dir, name);
    if dir == root_path() {
        assert(c.len() == 1 + name.len());
        assert(c[0] == sep());
        assert(forall|k: int| 0 < k < c.len() ==> c[k] == name[k - 1]);
        lemma_last_sep_at(c, 0);
        assert(parent_of(c) == root_path());
        assert(valid_path(c));
    } else {
        let m = dir.len() as int;
        assert(c.len() == dir.len() + 1 + name.len());
        assert(forall|k: int| 0 <= k < m ==> c[k] == dir[k]);
        assert(c[m] == sep());
        assert(forall|k: int| m < k < c.len() ==> c[k] == name[k - m - 1]);
        lemma_last_sep_at(c, m);
        assert(m > 0);
        assert(parent_of(c) == c.take(m));
        assert(c.take(m) =~= dir);
        assert(valid_path(c)) by {
            assert(dir.len() > 1 || dir =~= root_path());
            assert(dir[m - 1] != sep());
            assert(forall|i: int| 0 < i < c.len() ==> !(c[i - 1] == sep() && #[trigger] c[i] == sep()));
        }
    }
}

/// Whether the path is the root.
pub fn is_root(p: &Vec<u8>) -> (r: bool)
    requires
        valid_path(p@),
    ensures
        r == (p@ == root_path()),
{
    let r = p.len() == 1;
    proof {
        if r {
            assert(p@ =~= root_path());
        } else {
            assert(p@.len() != root_path().len());
        }
    }
    r
}

/// The parent of a non-root valid path.
pub fn parent_path(p: &Vec<u8>) -> (r: Vec<u8>)
    requires
        valid_path(p@),
        p@.len() > 1,
    ensures
        r@ == parent_of(p@),
        valid_path(r@),
        r@.len() < p@.len(),
{
    proof {
        lemma_last_sep_exists(p@);
        lemma_parent_shorter(p@);
    }
    let mut j: usize = p.len() - 1;
    while j > 0 && p[j] != 47u8
        invariant
            0 <= j < p@.len(),
            forall|k: int| j < k < p@.len() ==> p@[k] != sep(),
        decreases j,
    {
        j = j - 1;
    }
    proof {
        if j > 0 || p@[0] == sep() {
            if p@[j as int] == sep() {
                lemma_last_sep_at(p@, j as int);
            }
        }
        assert(p@[j as int] == sep()) by {
            if p@[j as int] != sep() {
                assert(j == 0);
                assert(p@[0] == sep());
            }
        }
        lemma_last_sep_at(p@, j as int);
        assert(last_sep(p@) == j as int);
    }
    if j == 0 {
        let mut r: Vec<u8> = Vec::new();
        r.push(47u8);
        proof {
            assert(r@ =~= root_path());
        }
        r
    } else {
        let mut r: Vec<u8> = Vec::new();
        let mut k: usize = 0;
        while k < j
            invariant
                k <= j,
                j < p@.len(),
                r@ == p@.take(k as int),
            decreases j - k,
        {
            r.push(p[k]);
            assert(p@.take(k as int).push(p@[k as int]) =~= p@.take(k + 1));
            k = k + 1;
        }
        r
    }
}

/// Whether the bytes form a well-formed absolute path.
pub fn path_ok(p: &Vec<u8>) -> (r: bool)
    ensures
        r == valid_path(p@),
{
    if p.len() == 0 {
        return false;
    }
    if p[0] != 47u8 {
        return false;
    }
    if p.len() > 1 && p[p.len() - 1] == 47u8 {
        return false;
    }
    let mut i: usize = 1;
    while i < p.len()
        invariant
            1 <= i <= p@.len(),
            forall|k: int| 0 < k < i ==> !(p@[k - 1] == sep() && #[trigger] p@[k] == sep()),
        decreases p.len() - i,
    {
        if p[i - 1] == 47u8 && p[i] == 47u8 {
            return false;
        }
        i = i + 1;
    }
    true
}

/// Whether the bytes form a well-formed entry name.
pub fn name_ok(n: &Vec<u8>) -> (r: bool)
    ensures
        r == valid_name(n@),
{
    if n.len() == 0 {
        return false;
    }
    let mut i: usize = 0;
    while i < n.len()
        invariant
            i <= n@.len(),
            forall|k: int| 0 <= k < i ==> n@[k] != sep(),
        decreases n.len() - i,
    {
        if n[i] == 47u8 {
            return false;
        }
        i = i + 1;
    }
    true
}

/// Join a directory with a child name.
pub fn child_path(dir: &Vec<u8>, name: &Vec<u8>) -> (r: Vec<u8>)
    requires
        valid_path(dir@),
        valid_name(name@),
    ensures
        r@ == child_of(dir@, name@),
        valid_path(r@),
        parent_of(r@) == dir@,
{
    proof {
        lemma_child_parent(dir@, name@);
    }
    let mut r: Vec<u8> = Vec::new();
    if dir.len() > 1 {
        let mut k: usize = 0;
        while k < dir.len()
            invariant
                k <= dir@.len(),
                r@ == dir@.take(k as int),
            decreases dir.len() - k,
        {
            r.push(dir[k]);
            assert(dir@.take(k as int).push(dir@[k as int]) =~= dir@.take(k + 1));
            k = k + 1;
        }
        proof {
            assert(r@ =~= dir@);
        }
    }
    r.push(47u8);
    let mut k: usize = 0;
    let ghost base = r@;
    while k < name.len()
        invariant
            k <= name@.len(),
            r@ == base + name@.take(k as int),
        decreases name.len() - k,
    {
        r.push(name[k]);
        assert((base + name@.take(k as int)).push(name@[k as int]) =~= base + name@.take(k + 1));
        k = k + 1;
    }
    proof {
        assert(name@.take(name@.len() as int) =~= name@);
        if dir@.len() == 1 {
            assert(dir@ =~= root_path());
        }
        if dir@ == root_path() {
            assert(r@ =~= seq![sep()] + name@);
        } else {
            assert(dir@.len() > 1);
            assert(r@ =~= dir@ + seq![sep()] + name@);
        }
    }
    r
}

/// Byte equality of two paths.
pub fn same_path(a: &Vec<u8>, b: &Vec<u8>) -> (r: bool)
    ensures
        r == (a@ == b@),
{
    bytes_eq(a, b)
}

} // verus!
