//! Directory-block ordering over filesystem paths, with binary search.
//!
//! A path is an ordered sequence of byte-string components. Two total orders
//! are defined: the plain component-wise order, and the directory-block
//! order, which compares the pair (parent directory, final component) so
//! that all direct children of a directory stand together and siblings are
//! ordered among themselves by final component. Binary search over a
//! sequence sorted by the directory-block order returns the leftmost or
//! rightmost insertion point for a path.

use vstd::prelude::*;

verus! {

/// A filesystem path as an ordered sequence of byte-string components.
pub struct TreePath {
    /// The path's components, from outermost directory to final name.
    pub components: Vec<Vec<u8>>,
}

impl View for TreePath {
    type V = Seq<Seq<u8>>;

    open spec fn view(&self) -> Seq<Seq<u8>> {
        self.components.deep_view()
    }
}

impl TreePath {
    /// A path made of the given components.
    pub fn new(components: Vec<Vec<u8>>) -> (r: TreePath)
        ensures
            r@ == components.deep_view(),
    {
        TreePath { components }
    }
}

/// Strict lexicographic order on byte strings: a proper prefix sorts first,
/// otherwise the first differing byte decides.
pub open spec fn bytes_lt(a: Seq<u8>, b: Seq<u8>) -> bool
    decreases a.len(),
{
    if b.len() == 0 {
        false
    } else if a.len() == 0 {
        true
    } else if a[0] < b[0] {
        true
    } else if b[0] < a[0] {
        false
    } else {
        bytes_lt(a.drop_first(), b.drop_first())
    }
}

proof fn lemma_bytes_lt_irrefl(a: Seq<u8>)
    ensures
        !bytes_lt(a, a),
    decreases a.len(),
{
    if a.len() > 0 {
        lemma_bytes_lt_irrefl(a.drop_first());
    }
}

proof fn lemma_bytes_lt_connected(a: Seq<u8>, b: Seq<u8>)
    requires
        !bytes_lt(a, b),
        !bytes_lt(b, a),
    ensures
        a == b,
    decreases a.len(),
{
    if b.len() == 0 {
        assert(a.len() == 0);
        assert(a =~= b);
    } else {
        assert(a.len() > 0);
        assert(a[0] == b[0]);
        lemma_bytes_lt_connected(a.drop_first(), b.drop_first());
        assert(a =~= b) by {
            assert(a.len() == b.len());
            assert(forall|k: int| 1 <= k < a.len() ==> a[k] == a.drop_first()[k - 1]
                && b[k] == b.drop_first()[k - 1]);
        }
    }
}

proof fn lemma_bytes_lt_trans(a: Seq<u8>, b: Seq<u8>, c: Seq<u8>)
    requires
        bytes_lt(a, b),
        bytes_lt(b, c),
    ensures
        bytes_lt(a, c),
    decreases a.len(),
{
    if a.len() == 0 {
        assert(c.len() > 0);
    } else {
        assert(b.len() > 0);
        assert(c.len() > 0);
        if a[0] == b[0] && b[0] == c[0] {
            lemma_bytes_lt_trans(a.drop_first(), b.drop_first(), c.drop_first());
        }
    }
}

/// When the bytes before index `i` agree and `i` is the first place the two
/// strings can differ, the order is decided at `i`.
proof fn lemma_bytes_lt_from_diff(a: Seq<u8>, b: Seq<u8>, i: int)
    requires
        0 <= i <= a.len(),
        i <= b.len(),
        forall|k: int| 0 <= k < i ==> a[k] == b[k],
        i == a.len() || i == b.len() || a[i] != b[i],
    ensures
        bytes_lt(a, b) <==> (i == a.len() && i < b.len()) || (i < a.len() && i < b.len()
            && a[i] < b[i]),
    decreases i,
{
    if i == 0 {
    } else {
        assert(a.len() > 0 && b.len() > 0);
        assert(a[0] == b[0]);
        assert(forall|k: int| 0 <= k < i - 1 ==> a.drop_first()[k] == a[k + 1]
            && b.drop_first()[k] == b[k + 1]);
        if i < a.len() && i < b.len() {
            assert(a.drop_first()[i - 1] == a[i]);
            assert(b.drop_first()[i - 1] == b[i]);
        }
        lemma_bytes_lt_from_diff(a.drop_first(), b.drop_first(), i - 1);
    }
}

/// Three-way comparison of byte strings under `bytes_lt`.
fn bytes_cmp(a: &Vec<u8>, b: &Vec<u8>) -> (r: i8)
    ensures
        (r == -1i8) <==> bytes_lt(a@, b@),
        (r == 1i8) <==> bytes_lt(b@, a@),
        (r == 0i8) <==> (a@ == b@),
        r == -1i8 || r == 0i8 || r == 1i8,
{
    let na = a.len();
    let nb = b.len();
    let mut i: usize = 0;
    while i < na && i < nb
        invariant
            na == a@.len(),
            nb == b@.len(),
            i <= na,
            i <= nb,
            forall|k: int| 0 <= k < i ==> a@[k] == b@[k],
        decreases na - i,
    {
        let x = a[i];
        let y = b[i];
        if x < y {
            proof {
                lemma_bytes_lt_from_diff(a@, b@, i as int);
                lemma_bytes_lt_from_diff(b@, a@, i as int);
            }
            return -1;
        }
        if y < x {
            proof {
                lemma_bytes_lt_from_diff(a@, b@, i as int);
                lemma_bytes_lt_from_diff(b@, a@, i as int);
            }
            return 1;
        }
        i += 1;
    }
    proof {
        lemma_bytes_lt_from_diff(a@, b@, i as int);
        lemma_bytes_lt_from_diff(b@, a@, i as int);
    }
    if na == nb {
        proof {
            assert(a@ =~= b@);
        }
        0
    } else if na < nb {
        -1
    } else {
        1
    }
}

/// Strict component-wise lexicographic order on component sequences: the
/// first differing component decides by `bytes_lt`, and a proper prefix
/// (the shorter path) sorts first.
pub open spec fn dirs_lt(a: Seq<Seq<u8>>, b: Seq<Seq<u8>>) -> bool
    decreases a.len(),
{
    if b.len() == 0 {
        false
    } else if a.len() == 0 {
        true
    } else if a[0] == b[0] {
        dirs_lt(a.drop_first(), b.drop_first())
    } else {
        bytes_lt(a[0], b[0])
    }
}

proof fn lemma_dirs_lt_irrefl(a: Seq<Seq<u8>>)
    ensures
        !dirs_lt(a, a),
    decreases a.len(),
{
    if a.len() > 0 {
        lemma_dirs_lt_irrefl(a.drop_first());
    }
}

proof fn lemma_dirs_lt_connected(a: Seq<Seq<u8>>, b: Seq<Seq<u8>>)
    requires
        !dirs_lt(a, b),
        !dirs_lt(b, a),
    ensures
        a == b,
    decreases a.len(),
{
    if b.len() == 0 {
        assert(a.len() == 0);
        assert(a =~= b);
    } else {
        assert(a.len() > 0);
        if a[0] != b[0] {
            lemma_bytes_lt_connected(a[0], b[0]);
            assert(false);
        }
        lemma_dirs_lt_connected(a.drop_first(), b.drop_first());
        assert(a =~= b) by {
            assert(a.drop_first().len() == b.drop_first().len());
            assert(a.len() == b.len());
            assert(forall|k: int| 1 <= k < a.len() ==> a[k] == a.drop_first()[k - 1]
                && b[k] == b.drop_first()[k - 1]);
        }
    }
}

proof fn lemma_dirs_lt_trans(a: Seq<Seq<u8>>, b: Seq<Seq<u8>>, c: Seq<Seq<u8>>)
    requires
        dirs_lt(a, b),
        dirs_lt(b, c),
    ensures
        dirs_lt(a, c),
    decreases a.len(),
{
    if a.len() == 0 {
        assert(c.len() > 0);
    } else {
        assert(b.len() > 0);
        assert(c.len() > 0);
        if a[0] == b[0] && b[0] == c[0] {
            lemma_dirs_lt_trans(a.drop_first(), b.drop_first(), c.drop_first());
        } else if a[0] == b[0] {
            assert(dirs_lt(a, c) == bytes_lt(a[0], c[0]));
        } else if b[0] == c[0] {
            assert(dirs_lt(a, c) == bytes_lt(a[0], c[0]));
        } else {
            lemma_bytes_lt_trans(a[0], b[0], c[0]);
            if a[0] == c[0] {
                lemma_bytes_lt_irrefl(a[0]);
                lemma_bytes_lt_trans(a[0], b[0], a[0]);
                assert(false);
            }
        }
    }
}

/// When the components before index `i` agree and `i` is the first place
/// the two sequences can differ, the order is decided at `i`.
proof fn lemma_dirs_lt_from_diff(a: Seq<Seq<u8>>, b: Seq<Seq<u8>>, i: int)
    requires
        0 <= i <= a.len(),
        i <= b.len(),
        forall|k: int| 0 <= k < i ==> a[k] == b[k],
        i == a.len() || i == b.len() || a[i] != b[i],
    ensures
        dirs_lt(a, b) <==> (i == a.len() && i < b.len()) || (i < a.len() && i < b.len()
            && bytes_lt(a[i], b[i])),
    decreases i,
{
    if i == 0 {
    } else {
        assert(a.len() > 0 && b.len() > 0);
        assert(a[0] == b[0]);
        assert(forall|k: int| 0 <= k < i - 1 ==> a.drop_first()[k] == a[k + 1]
            && b.drop_first()[k] == b[k + 1]);
        if i < a.len() && i < b.len() {
            assert(a.drop_first()[i - 1] == a[i]);
            assert(b.drop_first()[i - 1] == b[i]);
        }
        lemma_dirs_lt_from_diff(a.drop_first(), b.drop_first(), i - 1);
    }
}

/// Three-way comparison of the first `alen` components of `a` against the
/// first `blen` components of `b` under `dirs_lt`.
fn dirs_cmp_prefix(a: &Vec<Vec<u8>>, alen: usize, b: &Vec<Vec<u8>>, blen: usize) -> (r: i8)
    requires
        alen <= a@.len(),
        blen <= b@.len(),
    ensures
        (r == -1i8) <==> dirs_lt(a.deep_view().take(alen as int), b.deep_view().take(blen as int)),
        (r == 1i8) <==> dirs_lt(b.deep_view().take(blen as int), a.deep_view().take(alen as int)),
        (r == 0i8) <==> (a.deep_view().take(alen as int) == b.deep_view().take(blen as int)),
        r == -1i8 || r == 0i8 || r == 1i8,
{
    let ghost ga = a.deep_view().take(alen as int);
    let ghost gb = b.deep_view().take(blen as int);
    let mut i: usize = 0;
    while i < alen && i < blen
        invariant
            alen <= a@.len(),
            blen <= b@.len(),
            ga == a.deep_view().take(alen as int),
            gb == b.deep_view().take(blen as int),
            ga.len() == alen,
            gb.len() == blen,
            i <= alen,
            i <= blen,
            forall|k: int| 0 <= k < i ==> ga[k] == gb[k],
        decreases alen - i,
    {
        let c = bytes_cmp(&a[i], &b[i]);
        proof {
            assert(a@[i as int].deep_view() =~= a@[i as int]@);
            assert(b@[i as int].deep_view() =~= b@[i as int]@);
            assert(ga[i as int] == a@[i as int]@);
            assert(gb[i as int] == b@[i as int]@);
        }
        if c != 0 {
            proof {
                lemma_dirs_lt_from_diff(ga, gb, i as int);
                lemma_dirs_lt_from_diff(gb, ga, i as int);
                if ga == gb {
                    assert(ga[i as int] == gb[i as int]);
                    assert(false);
                }
            }
            return c;
        }
        i += 1;
    }
    proof {
        lemma_dirs_lt_from_diff(ga, gb, i as int);
        lemma_dirs_lt_from_diff(gb, ga, i as int);
    }
    if alen == blen {
        proof {
            assert(ga =~= gb);
        }
        0
    } else if alen < blen {
        proof {
            if ga == gb {
                assert(ga.len() == gb.len());
                assert(false);
            }
        }
        -1
    } else {
        proof {
            if ga == gb {
                assert(ga.len() == gb.len());
                assert(false);
            }
        }
        1
    }
}

/// Whether `path1` sorts strictly before `path2` when paths are compared
/// component by component, a shorter path first. This is the plain prefix
/// order over path components, distinct from the directory-block order.
pub fn lt_by_dirs(path1: &TreePath, path2: &TreePath) -> (r: bool)
    ensures
        r == dirs_lt(path1@, path2@),
{
    let n1 = path1.components.len();
    let n2 = path2.components.len();
    let c = dirs_cmp_prefix(&path1.components, n1, &path2.components, n2);
    proof {
        assert(path1.components.deep_view().take(n1 as int) =~= path1@);
        assert(path2.components.deep_view().take(n2 as int) =~= path2@);
    }
    c == -1
}

/// Strict directory-block order on paths: compare the pair
/// (parent directory, final component), the parent under `dirs_lt` and the
/// final component under `bytes_lt`. An empty path sorts before every
/// non-empty path. This groups all direct children of one directory
/// together, ordered among themselves by final component.
pub open spec fn dirblock_lt(a: Seq<Seq<u8>>, b: Seq<Seq<u8>>) -> bool {
    if b.len() == 0 {
        false
    } else if a.len() == 0 {
        true
    } else if a.drop_last() == b.drop_last() {
        bytes_lt(a.last(), b.last())
    } else {
        dirs_lt(a.drop_last(), b.drop_last())
    }
}

/// The directory-block order is connected: two paths neither of which
/// sorts before the other are equal.
pub proof fn lemma_dirblock_lt_connected(a: Seq<Seq<u8>>, b: Seq<Seq<u8>>)
    requires
        !dirblock_lt(a, b),
        !dirblock_lt(b, a),
    ensures
        a == b,
{
    if b.len() == 0 {
        assert(a.len() == 0);
        assert(a =~= b);
    } else {
        assert(a.len() > 0);
        if a.drop_last() != b.drop_last() {
            lemma_dirs_lt_connected(a.drop_last(), b.drop_last());
            assert(false);
        }
        lemma_bytes_lt_connected(a.last(), b.last());
        assert(a =~= b) by {
            assert(a.drop_last().len() == b.drop_last().len());
            assert(a.len() == b.len());
            assert(forall|k: int| 0 <= k < a.len() - 1 ==> a[k] == a.drop_last()[k]
                && b[k] == b.drop_last()[k]);
            assert(a[a.len() - 1] == a.last());
            assert(b[b.len() - 1] == b.last());
        }
    }
}

/// The directory-block order is transitive.
pub proof fn lemma_dirblock_lt_trans(a: Seq<Seq<u8>>, b: Seq<Seq<u8>>, c: Seq<Seq<u8>>)
    requires
        dirblock_lt(a, b),
        dirblock_lt(b, c),
    ensures
        dirblock_lt(a, c),
{
    assert(b.len() > 0);
    assert(c.len() > 0);
    if a.len() > 0 {
        let pa = a.drop_last();
        let pb = b.drop_last();
        let pc = c.drop_last();
        if pa == pb && pb == pc {
            lemma_bytes_lt_trans(a.last(), b.last(), c.last());
        } else if pa == pb {
            assert(dirblock_lt(a, c) == dirs_lt(pa, pc));
        } else if pb == pc {
            assert(dirblock_lt(a, c) == dirs_lt(pa, pc));
        } else {
            lemma_dirs_lt_trans(pa, pb, pc);
            if pa == pc {
                lemma_dirs_lt_trans(pa, pb, pa);
                lemma_dirs_lt_irrefl(pa);
                assert(false);
            }
        }
    }
}

/// From `x <= y` (under the order) and `y < z`, conclude `x < z`.
proof fn lemma_dirblock_le_lt_trans(x: Seq<Seq<u8>>, y: Seq<Seq<u8>>, z: Seq<Seq<u8>>)
    requires
        !dirblock_lt(y, x),
        dirblock_lt(y, z),
    ensures
        dirblock_lt(x, z),
{
    if dirblock_lt(x, y) {
        lemma_dirblock_lt_trans(x, y, z);
    } else {
        lemma_dirblock_lt_connected(x, y);
    }
}

/// From `x < y` and `y <= z` (under the order), conclude `x < z`.
proof fn lemma_dirblock_lt_le_trans(x: Seq<Seq<u8>>, y: Seq<Seq<u8>>, z: Seq<Seq<u8>>)
    requires
        dirblock_lt(x, y),
        !dirblock_lt(z, y),
    ensures
        dirblock_lt(x, z),
{
    if dirblock_lt(y, z) {
        lemma_dirblock_lt_trans(x, y, z);
    } else {
        lemma_dirblock_lt_connected(y, z);
    }
}

/// Whether `path1` sorts strictly before `path2` in directory-block order.
pub fn lt_path_by_dirblock(path1: &TreePath, path2: &TreePath) -> (r: bool)
    ensures
        r == dirblock_lt(path1@, path2@),
{
    let n1 = path1.components.len();
    let n2 = path2.components.len();
    if n2 == 0 {
        return false;
    }
    if n1 == 0 {
        return true;
    }
    proof {
        assert(path1.components.deep_view().take(n1 - 1) =~= path1@.drop_last());
        assert(path2.components.deep_view().take(n2 - 1) =~= path2@.drop_last());
    }
    let c = dirs_cmp_prefix(&path1.components, n1 - 1, &path2.components, n2 - 1);
    if c == 0 {
        let last_cmp = bytes_cmp(&path1.components[n1 - 1], &path2.components[n2 - 1]);
        proof {
            assert(path1.components@[n1 - 1].deep_view() =~= path1.components@[n1 - 1]@);
            assert(path2.components@[n2 - 1].deep_view() =~= path2.components@[n2 - 1]@);
            assert(path1@.last() == path1.components@[n1 - 1]@);
            assert(path2@.last() == path2.components@[n2 - 1]@);
        }
        last_cmp == -1
    } else {
        c == -1
    }
}

/// Whether a sequence of paths is sorted by the directory-block order
/// (non-decreasing: no later path sorts strictly before an earlier one).
pub open spec fn sorted_by_dirblock(paths: Seq<TreePath>) -> bool {
    forall|i: int, j: int| 0 <= i < j < paths.len()
        ==> !dirblock_lt(#[trigger] paths[j]@, #[trigger] paths[i]@)
}

/// The leftmost insertion point for `path` in `paths` under the
/// directory-block order: the smallest index whose entry does not sort
/// strictly before `path`. On an empty sequence the result is zero, for
/// any path.
pub fn bisect_path_left(paths: &Vec<TreePath>, path: &TreePath) -> (r: usize)
    requires
        sorted_by_dirblock(paths@),
    ensures
        r <= paths@.len(),
        forall|j: int| 0 <= j < r ==> dirblock_lt(#[trigger] paths@[j]@, path@),
        forall|j: int| r <= j < paths@.len() ==> !dirblock_lt(#[trigger] paths@[j]@, path@),
        paths@.len() == 0 ==> r == 0,
{
    let mut lo: usize = 0;
    let mut hi: usize = paths.len();
    while lo < hi
        invariant
            sorted_by_dirblock(paths@),
            lo <= hi <= paths@.len(),
            forall|j: int| 0 <= j < lo ==> dirblock_lt(#[trigger] paths@[j]@, path@),
            forall|j: int| hi <= j < paths@.len() ==> !dirblock_lt(#[trigger] paths@[j]@, path@),
        decreases hi - lo,
    {
        let mid = lo + (hi - lo) / 2;
        if lt_path_by_dirblock(&paths[mid], path) {
            proof {
                assert forall|j: int| 0 <= j < mid + 1 implies
                    dirblock_lt(#[trigger] paths@[j]@, path@) by {
                    if j < mid {
                        assert(!dirblock_lt(paths@[mid as int]@, paths@[j]@));
                        lemma_dirblock_le_lt_trans(paths@[j]@, paths@[mid as int]@, path@);
                    }
                }
            }
            lo = mid + 1;
        } else {
            proof {
                assert forall|j: int| mid <= j < paths@.len() implies
                    !dirblock_lt(#[trigger] paths@[j]@, path@) by {
                    if j > mid {
                        assert(!dirblock_lt(paths@[j]@, paths@[mid as int]@));
                        if dirblock_lt(paths@[j]@, path@) {
                            lemma_dirblock_le_lt_trans(paths@[mid as int]@, paths@[j]@, path@);
                            assert(false);
                        }
                    }
                }
            }
            hi = mid;
        }
    }
    lo
}

/// The rightmost insertion point for `path` in `paths` under the
/// directory-block order: the smallest index whose entry sorts strictly
/// after `path`, which stands after every entry equal to `path`. On an
/// empty sequence the result is zero, for any path.
pub fn bisect_path_right(paths: &Vec<TreePath>, path: &TreePath) -> (r: usize)
    requires
        sorted_by_dirblock(paths@),
    ensures
        r <= paths@.len(),
        forall|j: int| 0 <= j < r ==> !dirblock_lt(path@, #[trigger] paths@[j]@),
        forall|j: int| r <= j < paths@.len() ==> dirblock_lt(path@, #[trigger] paths@[j]@),
        paths@.len() == 0 ==> r == 0,
{
    let mut lo: usize = 0;
    let mut hi: usize = paths.len();
    while lo < hi
        invariant
            sorted_by_dirblock(paths@),
            lo <= hi <= paths@.len(),
            forall|j: int| 0 <= j < lo ==> !dirblock_lt(path@, #[trigger] paths@[j]@),
            forall|j: int| hi <= j < paths@.len() ==> dirblock_lt(path@, #[trigger] paths@[j]@),
        decreases hi - lo,
    {
        let mid = lo + (hi - lo) / 2;
        if lt_path_by_dirblock(path, &paths[mid]) {
            proof {
                assert forall|j: int| mid <= j < paths@.len() implies
                    dirblock_lt(path@, #[trigger] paths@[j]@) by {
                    if j > mid {
                        assert(!dirblock_lt(paths@[j]@, paths@[mid as int]@));
                        lemma_dirblock_lt_le_trans(path@, paths@[mid as int]@, paths@[j]@);
                    }
                }
            }
            hi = mid;
        } else {
            proof {
                assert forall|j: int| 0 <= j < mid + 1 implies
                    !dirblock_lt(path@, #[trigger] paths@[j]@) by {
                    if j < mid {
                        assert(!dirblock_lt(paths@[mid as int]@, paths@[j]@));
                        if dirblock_lt(path@, paths@[j]@) {
                            lemma_dirblock_lt_le_trans(path@, paths@[j]@, paths@[mid as int]@);
                            assert(false);
                        }
                    }
                }
            }
            lo = mid + 1;
        }
    }
    lo
}

} // verus!
