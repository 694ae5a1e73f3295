//! Region labeling: a raster scan that gives every pixel a provisional label and
//! records which labels meet, followed by a pass that replaces every label by the
//! representative of its set.

use vstd::arithmetic::div_mod::lemma_small_mod;
use vstd::prelude::*;
use crate::counting::{lemma_occurrences_bound, lemma_occurrences_push, occurrences};
use crate::pixel::{Pixel, PixelGrid};
use crate::regions::{
    connected, is_labeling, lemma_connected_class, lemma_connected_refl, lemma_connected_step,
    lemma_connected_sym, lemma_connected_trans, lemma_linked_sym, linked, respects_links,
};
use crate::union_find::{merged_root, UnionFind};

verus! {

/// The regions of a grid: a label for every pixel and the pixel count of every label.
/// The count of label `l` stands at `sizes[l - 1]`; a label that no pixel carries has
/// the count 0.
#[derive(Debug)]
pub struct Labeling {
    pub labels: Vec<usize>,
    pub sizes: Vec<usize>,
}

impl Labeling {
    /// The labels name the regions of the grid with colours `colors` and width `w`, and
    /// the sizes count the pixels of every label.
    pub open spec fn describes(&self, colors: Seq<Pixel>, w: int) -> bool {
        &&& is_labeling(colors, w, self.labels@)
        &&& self.sizes@.len() == colors.len()
        &&& forall|r: int|
            0 <= r < self.sizes@.len() ==> #[trigger] self.sizes@[r] == label_count(
                self.labels@,
                r,
            )
    }
}

/// The number of pixels that carry the label `r + 1`.
pub open spec fn label_count(labels: Seq<usize>, r: int) -> nat {
    occurrences(labels, (r + 1) as usize)
}

/// The set that the provisional label of pixel `i` belongs to.
spec fn class_of(uf: UnionFind, provisional: Seq<usize>, i: int) -> int {
    uf.root(provisional[i] - 1)
}

/// Pixels whose provisional labels are in one set lie in one region.
spec fn sound(colors: Seq<Pixel>, w: int, uf: UnionFind, provisional: Seq<usize>) -> bool {
    forall|i: int, j: int|
        0 <= i < provisional.len() && 0 <= j < provisional.len() && class_of(uf, provisional, i)
            == class_of(uf, provisional, j) ==> #[trigger] connected(colors, w, i, j)
}

/// Linked pixels have provisional labels of one set.
spec fn complete(colors: Seq<Pixel>, w: int, uf: UnionFind, provisional: Seq<usize>) -> bool {
    forall|i: int, j: int|
        0 <= i < provisional.len() && 0 <= j < provisional.len() && #[trigger] linked(
            colors,
            w,
            i,
            j,
        ) ==> class_of(uf, provisional, i) == class_of(uf, provisional, j)
}

/// The provisional labels are among the first `count`, and the labels not yet handed
/// out are alone in their sets.
spec fn labels_in_use(uf: UnionFind, provisional: Seq<usize>, count: int) -> bool {
    &&& uf.wf()
    &&& 0 <= count <= provisional.len() <= uf.size()
    &&& forall|i: int| 0 <= i < provisional.len() ==> 1 <= #[trigger] provisional[i] <= count
    &&& forall|e: int| count <= e < uf.size() ==> #[trigger] uf.root(e) == e
}

/// A pixel without a linked neighbour before it starts a region with a label of its own.
proof fn lemma_fresh_label(
    colors: Seq<Pixel>,
    w: int,
    uf: UnionFind,
    provisional: Seq<usize>,
    count: int,
    label: usize,
)
    requires
        sound(colors, w, uf, provisional),
        complete(colors, w, uf, provisional),
        labels_in_use(uf, provisional, count),
        uf.size() == colors.len(),
        provisional.len() < colors.len(),
        label == count + 1,
        forall|q: int|
            0 <= q < provisional.len() ==> !linked(colors, w, q, provisional.len() as int),
    ensures
        sound(colors, w, uf, provisional.push(label)),
        complete(colors, w, uf, provisional.push(label)),
        labels_in_use(uf, provisional.push(label), count + 1),
{
    let idx = provisional.len() as int;
    let next = provisional.push(label);
    assert forall|i: int, j: int|
        0 <= i < next.len() && 0 <= j < next.len() && class_of(uf, next, i) == class_of(
            uf,
            next,
            j,
        ) implies #[trigger] connected(colors, w, i, j) by {
        if i < idx && j < idx {
            assert(class_of(uf, provisional, i) == class_of(uf, provisional, j));
        } else if i == idx && j == idx {
            lemma_connected_refl(colors, w, idx);
        } else if i < idx {
            uf.lemma_root(provisional[i] - 1);
        } else {
            uf.lemma_root(provisional[j] - 1);
        }
    }
    assert forall|i: int, j: int|
        0 <= i < next.len() && 0 <= j < next.len() && #[trigger] linked(
            colors,
            w,
            i,
            j,
        ) implies class_of(uf, next, i) == class_of(uf, next, j) by {
        if i < idx && j < idx {
            assert(class_of(uf, provisional, i) == class_of(uf, provisional, j));
        } else if i < idx {
            assert(!linked(colors, w, i, idx));
        } else if j < idx {
            lemma_linked_sym(colors, w, i, j);
            assert(!linked(colors, w, j, idx));
        }
    }
}

/// A pixel with a linked neighbour before it joins that neighbour's set, provided all
/// its linked neighbours before it are in that set.
proof fn lemma_join_label(
    colors: Seq<Pixel>,
    w: int,
    uf: UnionFind,
    provisional: Seq<usize>,
    count: int,
    p: int,
    label: usize,
)
    requires
        sound(colors, w, uf, provisional),
        complete(colors, w, uf, provisional),
        labels_in_use(uf, provisional, count),
        uf.size() == colors.len(),
        provisional.len() < colors.len(),
        0 <= p < provisional.len(),
        1 <= label <= count,
        linked(colors, w, p, provisional.len() as int),
        forall|q: int|
            0 <= q < provisional.len() && linked(colors, w, q, provisional.len() as int)
                ==> class_of(uf, provisional, q) == uf.root(label - 1),
    ensures
        sound(colors, w, uf, provisional.push(label)),
        complete(colors, w, uf, provisional.push(label)),
        labels_in_use(uf, provisional.push(label), count),
{
    let idx = provisional.len() as int;
    let next = provisional.push(label);
    lemma_connected_step(colors, w, p, idx);
    lemma_connected_sym(colors, w, p, idx);
    assert(class_of(uf, next, idx) == class_of(uf, provisional, p));
    assert forall|i: int, j: int|
        0 <= i < next.len() && 0 <= j < next.len() && class_of(uf, next, i) == class_of(
            uf,
            next,
            j,
        ) implies #[trigger] connected(colors, w, i, j) by {
        if i < idx && j < idx {
            assert(class_of(uf, provisional, i) == class_of(uf, provisional, j));
        } else if i == idx && j == idx {
            lemma_connected_refl(colors, w, idx);
        } else if i < idx {
            assert(class_of(uf, provisional, i) == class_of(uf, provisional, p));
            assert(connected(colors, w, i, p));
            lemma_connected_trans(colors, w, i, p, idx);
        } else {
            assert(class_of(uf, provisional, p) == class_of(uf, provisional, j));
            assert(connected(colors, w, p, j));
            lemma_connected_trans(colors, w, idx, p, j);
        }
    }
    assert forall|i: int, j: int|
        0 <= i < next.len() && 0 <= j < next.len() && #[trigger] linked(
            colors,
            w,
            i,
            j,
        ) implies class_of(uf, next, i) == class_of(uf, next, j) by {
        if i < idx && j < idx {
            assert(class_of(uf, provisional, i) == class_of(uf, provisional, j));
        } else if i < idx {
            assert(class_of(uf, provisional, i) == uf.root(label - 1));
        } else if j < idx {
            lemma_linked_sym(colors, w, i, j);
            assert(class_of(uf, provisional, j) == uf.root(label - 1));
        }
    }
}

/// Merging the sets of two pixels that lie in one region keeps the bookkeeping right.
proof fn lemma_merge_labels(
    colors: Seq<Pixel>,
    w: int,
    before: UnionFind,
    after: UnionFind,
    provisional: Seq<usize>,
    count: int,
    p: int,
    q: int,
)
    requires
        sound(colors, w, before, provisional),
        complete(colors, w, before, provisional),
        labels_in_use(before, provisional, count),
        0 <= p < provisional.len(),
        0 <= q < provisional.len(),
        connected(colors, w, p, q),
        after.wf(),
        after.size() == before.size(),
        forall|e: int|
            0 <= e < before.size() ==> #[trigger] after.root(e) == merged_root(
                class_of(before, provisional, p),
                class_of(before, provisional, q),
                before.root(e),
            ),
    ensures
        sound(colors, w, after, provisional),
        complete(colors, w, after, provisional),
        labels_in_use(after, provisional, count),
        class_of(after, provisional, p) == class_of(after, provisional, q),
{
    let rp = class_of(before, provisional, p);
    let rq = class_of(before, provisional, q);
    before.lemma_root(provisional[p] - 1);
    before.lemma_root(provisional[q] - 1);
    lemma_connected_sym(colors, w, p, q);
    assert forall|i: int, j: int|
        0 <= i < provisional.len() && 0 <= j < provisional.len() && class_of(
            after,
            provisional,
            i,
        ) == class_of(after, provisional, j) implies #[trigger] connected(colors, w, i, j) by {
        let ci = class_of(before, provisional, i);
        let cj = class_of(before, provisional, j);
        if ci != cj {
            if ci == rp {
                assert(connected(colors, w, i, p));
                assert(connected(colors, w, q, j));
                lemma_connected_trans(colors, w, i, p, q);
                lemma_connected_trans(colors, w, i, q, j);
            } else {
                assert(connected(colors, w, i, q));
                assert(connected(colors, w, p, j));
                lemma_connected_trans(colors, w, i, q, p);
                lemma_connected_trans(colors, w, i, p, j);
            }
        }
    }
    assert forall|i: int, j: int|
        0 <= i < provisional.len() && 0 <= j < provisional.len() && #[trigger] linked(
            colors,
            w,
            i,
            j,
        ) implies class_of(after, provisional, i) == class_of(after, provisional, j) by {
        assert(class_of(before, provisional, i) == class_of(before, provisional, j));
    }
}

/// Partitions the grid into its regions. Two pixels get the same label exactly when a
/// path of edge-sharing pixels of one colour joins them; every label is at least 1; and
/// `sizes` holds the number of pixels of every label.
pub fn label_regions(grid: &PixelGrid) -> (out: Labeling)
    requires
        grid.wf(),
    ensures
        out.describes(grid.pixels@, grid.width as int),
{
    let n = grid.pixels.len();
    let w = grid.width as usize;
    let ghost colors = grid.pixels@;
    let ghost wi = grid.width as int;
    assert(n > 0 ==> wi > 0) by (nonlinear_arith)
        requires
            n == grid.width * grid.height,
            wi == grid.width,
    ;
    let mut provisional: Vec<usize> = Vec::new();
    let mut uf = UnionFind::new(n);
    let mut count: usize = 0;
    let mut idx: usize = 0;
    while idx < n
        invariant
            colors == grid.pixels@,
            n == colors.len(),
            w == wi,
            n > 0 ==> wi > 0,
            idx <= n,
            provisional@.len() == idx,
            uf.size() == n,
            labels_in_use(uf, provisional@, count as int),
            sound(colors, wi, uf, provisional@),
            complete(colors, wi, uf, provisional@),
        decreases n - idx,
    {
        proof {
            lemma_small_mod(0, w as nat);
        }
        let color = grid.pixels[idx];
        let left = idx % w != 0 && grid.pixels[idx - 1] == color;
        let up = idx >= w && grid.pixels[idx - w] == color;
        if left && up {
            let a = provisional[idx - 1];
            let b = provisional[idx - w];
            let ghost before = uf;
            uf.union(a - 1, b - 1);
            let label = if a <= b {
                a
            } else {
                b
            };
            proof {
                let p = idx as int - 1;
                let q = idx as int - wi;
                lemma_connected_step(colors, wi, p, idx as int);
                lemma_linked_sym(colors, wi, q, idx as int);
                lemma_connected_step(colors, wi, idx as int, q);
                lemma_connected_trans(colors, wi, p, idx as int, q);
                lemma_merge_labels(colors, wi, before, uf, provisional@, count as int, p, q);
                lemma_join_label(colors, wi, uf, provisional@, count as int, p, label);
            }
            provisional.push(label);
        } else if left {
            let label = provisional[idx - 1];
            proof {
                lemma_join_label(
                    colors,
                    wi,
                    uf,
                    provisional@,
                    count as int,
                    idx as int - 1,
                    label,
                );
            }
            provisional.push(label);
        } else if up {
            let label = provisional[idx - w];
            proof {
                lemma_join_label(
                    colors,
                    wi,
                    uf,
                    provisional@,
                    count as int,
                    idx as int - wi,
                    label,
                );
            }
            provisional.push(label);
        } else {
            proof {
                lemma_fresh_label(
                    colors,
                    wi,
                    uf,
                    provisional@,
                    count as int,
                    (count + 1) as usize,
                );
            }
            count += 1;
            provisional.push(count);
        }
        idx += 1;
    }
    let ghost first_pass = uf;
    let mut labels: Vec<usize> = Vec::new();
    let mut sizes: Vec<usize> = Vec::new();
    let mut k: usize = 0;
    while k < n
        invariant
            k <= n,
            sizes@.len() == k,
            forall|r: int| 0 <= r < k ==> #[trigger] sizes@[r] == 0,
        decreases n - k,
    {
        sizes.push(0);
        k += 1;
    }
    idx = 0;
    while idx < n
        invariant
            n == colors.len(),
            idx <= n,
            provisional@.len() == n,
            labels_in_use(first_pass, provisional@, count as int),
            uf.wf(),
            uf.size() == n,
            first_pass.size() == n,
            forall|e: int| 0 <= e < n ==> #[trigger] uf.root(e) == first_pass.root(e),
            labels@.len() == idx,
            forall|i: int|
                0 <= i < idx ==> #[trigger] labels@[i] == class_of(first_pass, provisional@, i) + 1,
            sizes@.len() == n,
            forall|r: int| 0 <= r < n ==> #[trigger] sizes@[r] == label_count(labels@, r),
        decreases n - idx,
    {
        let root = uf.find(provisional[idx] - 1);
        proof {
            assert forall|r: int| 0 <= r < n implies #[trigger] label_count(
                labels@.push((root + 1) as usize),
                r,
            ) == label_count(labels@, r) + if r == root {
                1nat
            } else {
                0nat
            } by {
                lemma_occurrences_push(labels@, (root + 1) as usize, (r + 1) as usize);
            }
            lemma_occurrences_bound(labels@, (root + 1) as usize);
        }
        labels.push(root + 1);
        sizes.set(root, sizes[root] + 1);
        idx += 1;
    }
    proof {
        let class = Seq::new(n as nat, |i: int| class_of(first_pass, provisional@, i));
        assert(respects_links(colors, wi, class)) by {
            assert forall|i: int, j: int| #[trigger] linked(colors, wi, i, j) implies class[i]
                == class[j] by {
                assert(class_of(first_pass, provisional@, i) == class_of(
                    first_pass,
                    provisional@,
                    j,
                ));
            }
        }
        assert forall|i: int, j: int| 0 <= i < n && 0 <= j < n implies (#[trigger] connected(
            colors,
            wi,
            i,
            j,
        ) <==> labels@[i] == labels@[j]) by {
            if connected(colors, wi, i, j) {
                lemma_connected_class(colors, wi, class, i, j);
            }
        }
        assert forall|i: int| 0 <= i < n implies 1 <= #[trigger] labels@[i] <= n by {
            first_pass.lemma_root(provisional@[i] - 1);
        }
    }
    Labeling { labels, sizes }
}

} // verus!
