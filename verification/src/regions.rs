//! Regions of a pixel grid: maximal sets of pixels of one colour that hang together
//! through shared edges. Pixels are named by their row-major index, and a grid is given
//! by its colours and its width.

use vstd::arithmetic::div_mod::{
    lemma_fundamental_div_mod, lemma_fundamental_div_mod_converse, lemma_mod_pos_bound,
    lemma_small_mod,
};
use vstd::prelude::*;
use crate::counting::occurrences;
use crate::pixel::Pixel;

verus! {

/// Pixel `i` has a neighbour to its left: it does not start a row.
pub open spec fn has_left(w: int, i: int) -> bool {
    i % w != 0
}

/// Pixel `i` has a neighbour to its right: the next pixel exists and starts no row.
pub open spec fn has_right(w: int, n: int, i: int) -> bool {
    i + 1 < n && (i + 1) % w != 0
}

/// Pixel `i` has a neighbour above: it is not in the first row.
pub open spec fn has_up(w: int, i: int) -> bool {
    i >= w
}

/// Pixel `i` has a neighbour below.
pub open spec fn has_down(w: int, n: int, i: int) -> bool {
    i + w < n
}

/// Pixels `i` and `j` of a grid of `n` pixels in rows of `w` share an edge. Pixels that
/// only touch at a corner are not adjacent.
pub open spec fn adjacent(w: int, n: int, i: int, j: int) -> bool {
    &&& w > 0
    &&& 0 <= i < n
    &&& 0 <= j < n
    &&& {
        ||| (j == i - 1 && has_left(w, i))
        ||| (j == i + 1 && has_right(w, n, i))
        ||| (j == i - w && has_up(w, i))
        ||| (j == i + w && has_down(w, n, i))
    }
}

/// Pixels `i` and `j` share an edge and a colour.
pub open spec fn linked(colors: Seq<Pixel>, w: int, i: int, j: int) -> bool {
    adjacent(w, colors.len() as int, i, j) && colors[i] == colors[j]
}

/// The step of `path` that leaves position `k` joins two linked pixels.
pub open spec fn link_at(colors: Seq<Pixel>, w: int, path: Seq<int>, k: int) -> bool {
    linked(colors, w, path[k], path[k + 1])
}

/// `path` walks through the grid from pixel to linked pixel.
pub open spec fn is_path(colors: Seq<Pixel>, w: int, path: Seq<int>) -> bool {
    &&& path.len() > 0
    &&& 0 <= path[0] < colors.len()
    &&& forall|k: int| 0 <= k < path.len() - 1 ==> #[trigger] link_at(colors, w, path, k)
}

/// Pixels `i` and `j` lie in the same region: a path of edge-sharing pixels of one
/// colour leads from one to the other.
pub open spec fn connected(colors: Seq<Pixel>, w: int, i: int, j: int) -> bool {
    exists|path: Seq<int>| #[trigger]
        is_path(colors, w, path) && path[0] == i && path.last() == j
}

/// The number of pixels among the first `upto` that lie in the region of pixel `i`.
pub open spec fn region_size_upto(colors: Seq<Pixel>, w: int, i: int, upto: int) -> nat
    decreases upto,
{
    if upto <= 0 {
        0
    } else {
        region_size_upto(colors, w, i, upto - 1) + if connected(colors, w, i, upto - 1) {
            1nat
        } else {
            0nat
        }
    }
}

/// The number of pixels in the region of pixel `i`.
pub open spec fn region_size(colors: Seq<Pixel>, w: int, i: int) -> nat {
    region_size_upto(colors, w, i, colors.len() as int)
}

/// `labels` names the regions of the grid: every pixel has a label between 1 and the
/// number of pixels, and two pixels have the same label exactly when they lie in the
/// same region.
pub open spec fn is_labeling(colors: Seq<Pixel>, w: int, labels: Seq<usize>) -> bool {
    &&& labels.len() == colors.len()
    &&& forall|i: int| 0 <= i < labels.len() ==> 1 <= #[trigger] labels[i] <= labels.len()
    &&& forall|i: int, j: int|
        0 <= i < labels.len() && 0 <= j < labels.len() ==> (#[trigger] connected(colors, w, i, j)
            <==> labels[i] == labels[j])
}

/// `class` gives linked pixels the same value.
pub open spec fn respects_links<T>(colors: Seq<Pixel>, w: int, class: Seq<T>) -> bool {
    &&& class.len() == colors.len()
    &&& forall|i: int, j: int| #[trigger] linked(colors, w, i, j) ==> class[i] == class[j]
}

/// Sharing an edge and a colour is mutual.
pub proof fn lemma_linked_sym(colors: Seq<Pixel>, w: int, i: int, j: int)
    requires
        linked(colors, w, i, j),
    ensures
        linked(colors, w, j, i),
{
}

/// Every pixel on a path is a pixel of the grid.
pub proof fn lemma_path_in_grid(colors: Seq<Pixel>, w: int, path: Seq<int>, k: int)
    requires
        is_path(colors, w, path),
        0 <= k < path.len(),
    ensures
        0 <= path[k] < colors.len(),
{
    if k > 0 {
        assert(link_at(colors, w, path, k - 1));
    }
}

/// Whatever linked pixels share, all pixels of a path share.
pub proof fn lemma_path_class<T>(colors: Seq<Pixel>, w: int, class: Seq<T>, path: Seq<int>, k: int)
    requires
        respects_links(colors, w, class),
        is_path(colors, w, path),
        0 <= k < path.len(),
    ensures
        class[path[k]] == class[path[0]],
    decreases k,
{
    if k > 0 {
        lemma_path_class(colors, w, class, path, k - 1);
        assert(link_at(colors, w, path, k - 1));
    }
}

/// Every pixel is in its own region.
pub proof fn lemma_connected_refl(colors: Seq<Pixel>, w: int, i: int)
    requires
        0 <= i < colors.len(),
    ensures
        connected(colors, w, i, i),
{
    let path = seq![i];
    assert(is_path(colors, w, path) && path[0] == i && path.last() == i);
}

/// Linked pixels are in the same region.
pub proof fn lemma_connected_step(colors: Seq<Pixel>, w: int, i: int, j: int)
    requires
        linked(colors, w, i, j),
    ensures
        connected(colors, w, i, j),
{
    let path = seq![i, j];
    assert forall|k: int| 0 <= k < path.len() - 1 implies #[trigger] link_at(
        colors,
        w,
        path,
        k,
    ) by {
        assert(k == 0);
    }
    assert(is_path(colors, w, path) && path[0] == i && path.last() == j);
}

/// Lying in the same region is mutual.
pub proof fn lemma_connected_sym(colors: Seq<Pixel>, w: int, i: int, j: int)
    requires
        connected(colors, w, i, j),
    ensures
        connected(colors, w, j, i),
{
    let path = choose|path: Seq<int>| #[trigger]
        is_path(colors, w, path) && path[0] == i && path.last() == j;
    let len = path.len() as int;
    let back = Seq::new(path.len(), |k: int| path[len - 1 - k]);
    lemma_path_in_grid(colors, w, path, len - 1);
    assert forall|k: int| 0 <= k < back.len() - 1 implies #[trigger] link_at(
        colors,
        w,
        back,
        k,
    ) by {
        let m = len - 2 - k;
        assert(link_at(colors, w, path, m));
        lemma_linked_sym(colors, w, path[m], path[m + 1]);
    }
    assert(is_path(colors, w, back) && back[0] == j && back.last() == i);
}

/// Two pixels that share a region with a third share a region with each other.
pub proof fn lemma_connected_trans(colors: Seq<Pixel>, w: int, i: int, j: int, k: int)
    requires
        connected(colors, w, i, j),
        connected(colors, w, j, k),
    ensures
        connected(colors, w, i, k),
{
    let first = choose|path: Seq<int>| #[trigger]
        is_path(colors, w, path) && path[0] == i && path.last() == j;
    let second = choose|path: Seq<int>| #[trigger]
        is_path(colors, w, path) && path[0] == j && path.last() == k;
    let cut = first.len() - 1;
    let path = first.drop_last() + second;
    assert forall|t: int| 0 <= t < path.len() - 1 implies #[trigger] link_at(
        colors,
        w,
        path,
        t,
    ) by {
        if t < cut {
            assert(link_at(colors, w, first, t));
        } else {
            assert(link_at(colors, w, second, t - cut));
        }
    }
    assert(is_path(colors, w, path) && path[0] == i && path.last() == k);
}

/// Pixels of one region are pixels of the grid and have one colour.
pub proof fn lemma_connected_color(colors: Seq<Pixel>, w: int, i: int, j: int)
    requires
        connected(colors, w, i, j),
    ensures
        0 <= i < colors.len(),
        0 <= j < colors.len(),
        colors[i] == colors[j],
{
    let path = choose|path: Seq<int>| #[trigger]
        is_path(colors, w, path) && path[0] == i && path.last() == j;
    lemma_path_in_grid(colors, w, path, path.len() - 1);
    lemma_path_class(colors, w, colors, path, path.len() - 1);
}

/// Whatever linked pixels share, all pixels of a region share.
pub proof fn lemma_connected_class<T>(colors: Seq<Pixel>, w: int, class: Seq<T>, i: int, j: int)
    requires
        respects_links(colors, w, class),
        connected(colors, w, i, j),
    ensures
        class[i] == class[j],
{
    let path = choose|path: Seq<int>| #[trigger]
        is_path(colors, w, path) && path[0] == i && path.last() == j;
    lemma_path_class(colors, w, class, path, path.len() - 1);
}

/// Pixels that touch only at a corner are not adjacent.
pub proof fn lemma_corners_not_adjacent(w: int, n: int, i: int)
    requires
        w > 0,
        0 <= i < n,
    ensures
        has_right(w, n, i) ==> !adjacent(w, n, i, i + w + 1),
        has_left(w, i) ==> !adjacent(w, n, i, i + w - 1),
        has_right(w, n, i) ==> !adjacent(w, n, i, i - w + 1),
        has_left(w, i) ==> !adjacent(w, n, i, i - w - 1),
{
    lemma_mod_adds_one(w, i);
}

/// Stepping to the next index either moves one column to the right or wraps to column 0.
proof fn lemma_mod_adds_one(w: int, i: int)
    requires
        w > 0,
        0 <= i,
    ensures
        (i + 1) % w == if i % w == w - 1 {
            0
        } else {
            i % w + 1
        },
{
    let q = i / w;
    let r = i % w;
    lemma_fundamental_div_mod(i, w);
    lemma_mod_pos_bound(i, w);
    if r == w - 1 {
        assert(i + 1 == (q + 1) * w + 0) by (nonlinear_arith)
            requires
                i == w * q + r,
                r == w - 1,
        ;
        lemma_fundamental_div_mod_converse(i + 1, w, q + 1, 0);
    } else {
        assert(i + 1 == q * w + (r + 1)) by (nonlinear_arith)
            requires
                i == w * q + r,
        ;
        lemma_fundamental_div_mod_converse(i + 1, w, q, r + 1);
    }
}

/// In a grid of one colour every pixel is in the region of the first pixel.
pub proof fn lemma_uniform_connected(colors: Seq<Pixel>, w: int, i: int)
    requires
        w > 0,
        0 <= i < colors.len(),
        forall|k: int| 0 <= k < colors.len() ==> #[trigger] colors[k] == colors[0],
    ensures
        connected(colors, w, i, 0),
    decreases i,
{
    if i == 0 {
        lemma_connected_refl(colors, w, 0);
    } else if has_left(w, i) {
        lemma_uniform_connected(colors, w, i - 1);
        lemma_connected_step(colors, w, i, i - 1);
        lemma_connected_trans(colors, w, i, i - 1, 0);
    } else {
        if i < w {
            lemma_small_mod(i as nat, w as nat);
        }
        lemma_uniform_connected(colors, w, i - w);
        lemma_connected_step(colors, w, i, i - w);
        lemma_connected_trans(colors, w, i, i - w, 0);
    }
}

/// A grid of one colour is one region, which holds all pixels.
pub proof fn lemma_uniform_grid_is_one_region(colors: Seq<Pixel>, w: int)
    requires
        w > 0,
        forall|k: int| 0 <= k < colors.len() ==> #[trigger] colors[k] == colors[0],
    ensures
        forall|i: int, j: int|
            0 <= i < colors.len() && 0 <= j < colors.len() ==> #[trigger] connected(
                colors,
                w,
                i,
                j,
            ),
        forall|i: int|
            0 <= i < colors.len() ==> #[trigger] region_size(colors, w, i) == colors.len(),
{
    assert forall|i: int, j: int|
        0 <= i < colors.len() && 0 <= j < colors.len() implies #[trigger] connected(
        colors,
        w,
        i,
        j,
    ) by {
        lemma_uniform_connected(colors, w, i);
        lemma_uniform_connected(colors, w, j);
        lemma_connected_sym(colors, w, j, 0);
        lemma_connected_trans(colors, w, i, 0, j);
    }
    assert forall|i: int| 0 <= i < colors.len() implies #[trigger] region_size(colors, w, i)
        == colors.len() by {
        lemma_full_region_size(colors, w, i, colors.len() as int);
    }
}

/// A region that holds each of the first `upto` pixels holds `upto` of them.
proof fn lemma_full_region_size(colors: Seq<Pixel>, w: int, i: int, upto: int)
    requires
        0 <= upto <= colors.len(),
        forall|j: int| 0 <= j < upto ==> #[trigger] connected(colors, w, i, j),
    ensures
        region_size_upto(colors, w, i, upto) == upto,
    decreases upto,
{
    if upto > 0 {
        lemma_full_region_size(colors, w, i, upto - 1);
    }
}

/// Under a labeling, the pixels that carry the label of pixel `i` are the pixels of
/// its region.
pub proof fn lemma_label_count(colors: Seq<Pixel>, w: int, labels: Seq<usize>, i: int, upto: int)
    requires
        is_labeling(colors, w, labels),
        0 <= i < colors.len(),
        0 <= upto <= colors.len(),
    ensures
        occurrences(labels.take(upto), labels[i]) == region_size_upto(colors, w, i, upto),
    decreases upto,
{
    if upto > 0 {
        lemma_label_count(colors, w, labels, i, upto - 1);
        assert(labels.take(upto).drop_last() =~= labels.take(upto - 1));
    }
}

/// Any two labelings of one grid cut it into the same regions, of the same sizes,
/// whatever numbers they give them.
pub proof fn lemma_labelings_agree(colors: Seq<Pixel>, w: int, a: Seq<usize>, b: Seq<usize>)
    requires
        is_labeling(colors, w, a),
        is_labeling(colors, w, b),
    ensures
        forall|i: int, j: int|
            #![trigger a[i], b[j]]
            0 <= i < colors.len() && 0 <= j < colors.len() ==> (a[i] == a[j] <==> b[i] == b[j]),
        forall|i: int|
            0 <= i < colors.len() ==> occurrences(a, #[trigger] a[i]) == occurrences(b, b[i]),
{
    assert forall|i: int, j: int|
        #![trigger a[i], b[j]]
        0 <= i < colors.len() && 0 <= j < colors.len() implies (a[i] == a[j] <==> b[i]
        == b[j]) by {
        assert(connected(colors, w, i, j) <==> a[i] == a[j]);
    }
    assert forall|i: int| 0 <= i < colors.len() implies occurrences(a, #[trigger] a[i])
        == occurrences(b, b[i]) by {
        lemma_label_count(colors, w, a, i, colors.len() as int);
        lemma_label_count(colors, w, b, i, colors.len() as int);
        assert(a.take(colors.len() as int) =~= a);
        assert(b.take(colors.len() as int) =~= b);
    }
}

} // verus!
