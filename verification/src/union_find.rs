//! An array-backed disjoint-set forest in which every link points to a smaller index,
//! so the representative of a set is its smallest member.

use vstd::prelude::*;

verus! {

/// Every element's parent is the element itself or a smaller element.
pub open spec fn links_down(parent: Seq<usize>) -> bool {
    forall|i: int| 0 <= i < parent.len() ==> #[trigger] parent[i] <= i
}

/// The element reached from `x` by following parent links until one points to itself.
pub open spec fn root_of(parent: Seq<usize>, x: int) -> int
    decreases x,
{
    if 0 <= x < parent.len() && parent[x] < x {
        root_of(parent, parent[x] as int)
    } else {
        x
    }
}

/// The representative of the set that holds an element with old representative `re`, once
/// the sets with representatives `rx` and `ry` have been merged: the smaller of the two
/// stands for both.
pub open spec fn merged_root(rx: int, ry: int, re: int) -> int {
    if re == rx || re == ry {
        if rx <= ry {
            rx
        } else {
            ry
        }
    } else {
        re
    }
}

/// A root is no larger than the element it is reached from, and is its own parent.
pub proof fn lemma_root_of(parent: Seq<usize>, x: int)
    requires
        links_down(parent),
        0 <= x < parent.len(),
    ensures
        0 <= root_of(parent, x) <= x,
        parent[root_of(parent, x)] == root_of(parent, x),
        root_of(parent, root_of(parent, x)) == root_of(parent, x),
    decreases x,
{
    if parent[x] < x {
        lemma_root_of(parent, parent[x] as int);
    }
}

/// Pointing `x` straight at its root changes no element's root.
proof fn lemma_compress(parent: Seq<usize>, x: int, y: int)
    requires
        links_down(parent),
        0 <= x < parent.len(),
        0 <= y < parent.len(),
    ensures
        root_of(parent.update(x, root_of(parent, x) as usize), y) == root_of(parent, y),
    decreases y,
{
    let r = root_of(parent, x);
    lemma_root_of(parent, x);
    let q = parent.update(x, r as usize);
    if y == x {
        if r < x {
            lemma_compress(parent, x, r);
        } else {
            assert(q =~= parent);
        }
    } else if parent[y] < y {
        lemma_compress(parent, x, parent[y] as int);
    }
}

/// Hanging the root `hi` below the smaller root `lo` moves exactly the elements of
/// `hi`'s set to `lo`.
proof fn lemma_link(parent: Seq<usize>, lo: int, hi: int, y: int)
    requires
        links_down(parent),
        0 <= lo < hi < parent.len(),
        parent[lo] == lo,
        parent[hi] == hi,
        0 <= y < parent.len(),
    ensures
        root_of(parent.update(hi, lo as usize), y) == merged_root(lo, hi, root_of(parent, y)),
    decreases y,
{
    let q = parent.update(hi, lo as usize);
    lemma_root_of(parent, y);
    if y == hi {
        assert(root_of(q, lo) == lo);
    } else if parent[y] < y {
        lemma_link(parent, lo, hi, parent[y] as int);
    }
}

/// A partition of `0..len` into disjoint sets, each named by its smallest member.
pub struct UnionFind {
    parent: Vec<usize>,
}

impl UnionFind {
    /// The parent link of every element.
    pub closed spec fn parents(&self) -> Seq<usize> {
        self.parent@
    }

    /// The number of elements.
    pub open spec fn size(&self) -> nat {
        self.parents().len()
    }

    /// The structure's invariant: links only point downwards.
    pub open spec fn wf(&self) -> bool {
        links_down(self.parents())
    }

    /// The representative of the set that holds `x`.
    pub open spec fn root(&self, x: int) -> int {
        root_of(self.parents(), x)
    }

    /// `size` singleton sets.
    pub fn new(size: usize) -> (uf: Self)
        ensures
            uf.wf(),
            uf.size() == size,
            forall|e: int| 0 <= e < size ==> #[trigger] uf.root(e) == e,
    {
        let mut parent: Vec<usize> = Vec::new();
        let mut i: usize = 0;
        while i < size
            invariant
                i <= size,
                parent@.len() == i,
                forall|e: int| 0 <= e < i ==> #[trigger] parent@[e] == e,
            decreases size - i,
        {
            parent.push(i);
            i += 1;
        }
        UnionFind { parent }
    }

    /// The number of elements.
    pub fn len(&self) -> (n: usize)
        ensures
            n == self.size(),
    {
        self.parent.len()
    }

    /// Returns the representative of `x`'s set and shortens the links on the way to
    /// it. No element changes its set.
    pub fn find(&mut self, x: usize) -> (r: usize)
        requires
            old(self).wf(),
            x < old(self).size(),
        ensures
            final(self).wf(),
            final(self).size() == old(self).size(),
            r == old(self).root(x as int),
            r <= x,
            final(self).root(r as int) == r,
            forall|e: int|
                #![trigger final(self).root(e)]
                0 <= e < old(self).size() ==> final(self).root(e) == old(self).root(e),
    {
        let mut r: usize = x;
        while self.parent[r] != r
            invariant
                self.parent@ == old(self).parent@,
                links_down(self.parent@),
                r <= x < self.parent@.len(),
                root_of(self.parent@, r as int) == root_of(self.parent@, x as int),
            decreases r,
        {
            r = self.parent[r];
        }
        let mut cur: usize = x;
        while cur != r
            invariant
                links_down(self.parent@),
                self.parent@.len() == old(self).parent@.len(),
                r <= cur <= x < self.parent@.len(),
                self.parent@[r as int] == r,
                root_of(self.parent@, cur as int) == r,
                r == root_of(old(self).parent@, x as int),
                forall|e: int|
                    0 <= e < self.parent@.len() ==> #[trigger] root_of(self.parent@, e) == root_of(
                        old(self).parent@,
                        e,
                    ),
            decreases cur,
        {
            let next = self.parent[cur];
            proof {
                let p = self.parent@;
                assert forall|e: int| 0 <= e < p.len() implies #[trigger] root_of(
                    p.update(cur as int, r),
                    e,
                ) == root_of(p, e) by {
                    lemma_compress(p, cur as int, e);
                }
                lemma_root_of(p, next as int);
            }
            self.parent.set(cur, r);
            cur = next;
        }
        r
    }

    /// Merges the sets of `x` and `y`. The smaller of the two representatives stands
    /// for the merged set; every other set keeps its representative.
    pub fn union(&mut self, x: usize, y: usize)
        requires
            old(self).wf(),
            x < old(self).size(),
            y < old(self).size(),
        ensures
            final(self).wf(),
            final(self).size() == old(self).size(),
            forall|e: int|
                0 <= e < old(self).size() ==> #[trigger] final(self).root(e) == merged_root(
                    old(self).root(x as int),
                    old(self).root(y as int),
                    old(self).root(e),
                ),
    {
        let x_root = self.find(x);
        let y_root = self.find(y);
        if x_root != y_root {
            let (lo, hi) = if x_root < y_root {
                (x_root, y_root)
            } else {
                (y_root, x_root)
            };
            proof {
                let p = self.parent@;
                assert(self.root(x_root as int) == x_root);
                assert(self.root(y_root as int) == y_root);
                lemma_root_of(p, x_root as int);
                lemma_root_of(p, y_root as int);
                assert forall|e: int| 0 <= e < p.len() implies #[trigger] root_of(
                    p.update(hi as int, lo),
                    e,
                ) == merged_root(
                    old(self).root(x as int),
                    old(self).root(y as int),
                    old(self).root(e),
                ) by {
                    lemma_link(p, lo as int, hi as int, e);
                    assert(self.root(e) == root_of(p, e));
                }
            }
            self.parent.set(hi, lo);
        }
    }

    /// A representative is no larger than the element, and represents itself.
    pub proof fn lemma_root(&self, x: int)
        requires
            self.wf(),
            0 <= x < self.size(),
        ensures
            0 <= self.root(x) <= x,
            self.root(self.root(x)) == self.root(x),
    {
        lemma_root_of(self.parents(), x);
    }
}

} // verus!
