//! Region labeling by flood fill: a raster scan that, at every pixel without a label,
//! hands out a fresh label and spreads it breadth-first over the pixel's region.

use vstd::arithmetic::div_mod::lemma_small_mod;
use vstd::prelude::*;
use crate::counting::{
    lemma_occurrences_absent, lemma_occurrences_bound, lemma_occurrences_update,
};
use crate::labeler::{label_count, Labeling};
use crate::pixel::{Pixel, PixelGrid};
use crate::regions::{
    adjacent, connected, has_left, has_right, has_up, lemma_connected_class,
    lemma_connected_refl, lemma_connected_step, lemma_connected_sym, lemma_connected_trans,
    lemma_linked_sym, linked, respects_links,
};

verus! {

/// The labels handed out so far, the first `count`, each name a whole region: pixels
/// with the same label are in one region, and a labeled pixel's linked neighbours carry
/// its label. The label 0 marks the pixels not reached yet.
spec fn flooded(colors: Seq<Pixel>, w: int, labels: Seq<usize>, count: int) -> bool {
    &&& labels.len() == colors.len()
    &&& forall|i: int| 0 <= i < labels.len() ==> #[trigger] labels[i] <= count
    &&& forall|i: int, j: int|
        0 <= i < labels.len() && 0 <= j < labels.len() && labels[i] != 0 && labels[i] == labels[j]
            ==> #[trigger] connected(colors, w, i, j)
    &&& forall|i: int, j: int|
        0 <= i < labels.len() && labels[i] != 0 && #[trigger] linked(colors, w, i, j) ==> labels[j]
            == labels[i]
}

/// Pixel `i` stands in the queue.
spec fn in_queue(queue: Seq<usize>, i: int) -> bool {
    exists|q: int| 0 <= q < queue.len() && #[trigger] queue[q] == i
}

/// The state of a flood that spreads `label` from pixel `s`, where `before` holds the
/// labels from before the flood. The queue holds the pixels that carry `label`; those
/// before `head` have handed it to all their linked neighbours.
spec fn flooding(
    colors: Seq<Pixel>,
    w: int,
    before: Seq<usize>,
    labels: Seq<usize>,
    queue: Seq<usize>,
    head: int,
    label: usize,
    s: int,
) -> bool {
    &&& labels.len() == colors.len()
    &&& before.len() == colors.len()
    &&& colors.len() <= usize::MAX
    &&& 0 <= head <= queue.len()
    &&& queue.len() > 0
    &&& queue[0] == s
    &&& label >= 1
    &&& forall|i: int| 0 <= i < before.len() ==> #[trigger] before[i] < label
    &&& forall|i: int|
        0 <= i < labels.len() ==> (#[trigger] labels[i] == before[i] || (labels[i] == label
            && before[i] == 0 && connected(colors, w, s, i) && in_queue(queue, i)))
    &&& forall|q: int|
        0 <= q < queue.len() ==> (#[trigger] queue[q]) < labels.len() && labels[queue[q] as int]
            == label
    &&& forall|q: int, j: int|
        0 <= q < head && #[trigger] linked(colors, w, queue[q] as int, j) ==> labels[j] == label
    &&& queue.len() == label_count(labels, label - 1)
    &&& forall|r: int|
        0 <= r < labels.len() && r + 1 != label ==> #[trigger] label_count(labels, r)
            == label_count(before, r)
}

/// A flood starts with its first pixel labeled and queued.
proof fn lemma_flood_start(colors: Seq<Pixel>, w: int, before: Seq<usize>, label: usize, s: usize)
    requires
        flooded(colors, w, before, label - 1),
        label >= 1,
        colors.len() <= usize::MAX,
        0 <= s < colors.len(),
        before[s as int] == 0,
    ensures
        flooding(colors, w, before, before.update(s as int, label), seq![s], 0, label, s as int),
{
    let labels = before.update(s as int, label);
    let queue = seq![s];
    lemma_connected_refl(colors, w, s as int);
    assert(queue[0] == s);
    assert(in_queue(queue, s as int));
    assert(queue.len() == label_count(labels, label - 1)) by {
        lemma_occurrences_absent(before, label);
        lemma_occurrences_update(before, s as int, label, label);
    }
    assert forall|r: int| 0 <= r < labels.len() && r + 1 != label implies #[trigger] label_count(
        labels,
        r,
    ) == label_count(before, r) by {
        lemma_occurrences_update(before, s as int, label, (r + 1) as usize);
    }
}

/// A pixel without a label that is linked to the pixel at the head of the queue takes
/// the label and joins the queue.
proof fn lemma_flood_mark(
    colors: Seq<Pixel>,
    w: int,
    before: Seq<usize>,
    labels: Seq<usize>,
    queue: Seq<usize>,
    head: int,
    label: usize,
    s: int,
    j: usize,
)
    requires
        flooding(colors, w, before, labels, queue, head, label, s),
        head < queue.len(),
        linked(colors, w, queue[head] as int, j as int),
        labels[j as int] == 0,
    ensures
        flooding(colors, w, before, labels.update(j as int, label), queue.push(j), head, label, s),
{
    let i = queue[head] as int;
    let marked = labels.update(j as int, label);
    let longer = queue.push(j);
    assert(labels[i] == label);
    assert(connected(colors, w, s, j as int)) by {
        lemma_connected_step(colors, w, i, j as int);
        lemma_connected_trans(colors, w, s, i, j as int);
    }
    assert forall|x: int| 0 <= x < marked.len() implies (#[trigger] marked[x] == before[x] || (
    marked[x] == label && before[x] == 0 && connected(colors, w, s, x) && in_queue(longer, x))) by {
        if x == j {
            assert(longer[queue.len() as int] == j);
        } else if labels[x] != before[x] {
            let q = choose|q: int| 0 <= q < queue.len() && #[trigger] queue[q] == x;
            assert(longer[q] == x);
        }
    }
    assert forall|q: int| 0 <= q < longer.len() implies (#[trigger] longer[q]) < marked.len()
        && marked[longer[q] as int] == label by {
        if q < queue.len() {
            assert(longer[q] == queue[q]);
        }
    }
    assert forall|q: int, k: int|
        0 <= q < head && #[trigger] linked(colors, w, longer[q] as int, k) implies marked[k]
        == label by {
        assert(longer[q] == queue[q]);
        assert(linked(colors, w, queue[q] as int, k));
    }
    assert(longer.len() == label_count(marked, label - 1)) by {
        lemma_occurrences_update(labels, j as int, label, label);
    }
    assert forall|r: int| 0 <= r < marked.len() && r + 1 != label implies #[trigger] label_count(
        marked,
        r,
    ) == label_count(before, r) by {
        lemma_occurrences_update(labels, j as int, label, (r + 1) as usize);
        assert(label_count(labels, r) == label_count(before, r));
    }
}

/// A pixel with a label that is linked to a pixel in the queue carries the label of the
/// flood: it cannot belong to an earlier region, which would hold the queued pixel too.
proof fn lemma_flood_seen(
    colors: Seq<Pixel>,
    w: int,
    before: Seq<usize>,
    labels: Seq<usize>,
    queue: Seq<usize>,
    head: int,
    label: usize,
    s: int,
    j: int,
)
    requires
        flooded(colors, w, before, label - 1),
        flooding(colors, w, before, labels, queue, head, label, s),
        head < queue.len(),
        linked(colors, w, queue[head] as int, j),
        labels[j] != 0,
    ensures
        labels[j] == label,
{
    let i = queue[head] as int;
    assert(labels[i] == label);
    if labels[j] != label {
        assert(labels[j] == before[j]);
        lemma_linked_sym(colors, w, i, j);
        assert(before[i] == before[j]);
    }
}

/// Once all linked neighbours of the pixel at the head of the queue carry the label,
/// the head moves on.
proof fn lemma_flood_step(
    colors: Seq<Pixel>,
    w: int,
    before: Seq<usize>,
    labels: Seq<usize>,
    queue: Seq<usize>,
    head: int,
    label: usize,
    s: int,
)
    requires
        flooding(colors, w, before, labels, queue, head, label, s),
        head < queue.len(),
        forall|j: int| #[trigger] linked(colors, w, queue[head] as int, j) ==> labels[j] == label,
    ensures
        flooding(colors, w, before, labels, queue, head + 1, label, s),
{
    assert forall|q: int, j: int|
        0 <= q < head + 1 && #[trigger] linked(colors, w, queue[q] as int, j) implies labels[j]
        == label by {
        if q == head {
            assert(linked(colors, w, queue[head] as int, j));
        }
    }
}

/// When the queue is used up, the label names the whole region of the first pixel.
proof fn lemma_flood_done(
    colors: Seq<Pixel>,
    w: int,
    before: Seq<usize>,
    labels: Seq<usize>,
    queue: Seq<usize>,
    label: usize,
    s: int,
)
    requires
        flooded(colors, w, before, label - 1),
        flooding(colors, w, before, labels, queue, queue.len() as int, label, s),
    ensures
        flooded(colors, w, labels, label as int),
{
    assert forall|i: int| 0 <= i < labels.len() implies #[trigger] labels[i] <= label by {
        assert(before[i] < label);
    }
    assert forall|i: int, j: int|
        0 <= i < labels.len() && 0 <= j < labels.len() && labels[i] != 0 && labels[i]
            == labels[j] implies #[trigger] connected(colors, w, i, j) by {
        assert(before[i] < label && before[j] < label);
        if labels[i] == label {
            lemma_connected_sym(colors, w, s, i);
            lemma_connected_trans(colors, w, i, s, j);
        } else {
            assert(before[i] == before[j]);
        }
    }
    assert forall|i: int, j: int|
        0 <= i < labels.len() && labels[i] != 0 && #[trigger] linked(
            colors,
            w,
            i,
            j,
        ) implies labels[j] == labels[i] by {
        assert(before[i] < label && before[j] < label);
        if labels[i] == label {
            let q = choose|q: int| 0 <= q < queue.len() && #[trigger] queue[q] == i;
            assert(linked(colors, w, queue[q] as int, j));
        } else {
            assert(before[j] == before[i]);
        }
    }
}

/// Hands the label of the flood to pixel `j`, a neighbour of the pixel `i` at the head
/// of the queue, if `j` has the colour of `i` and no label yet.
fn visit(
    grid: &PixelGrid,
    labels: &mut Vec<usize>,
    queue: &mut Vec<usize>,
    i: usize,
    j: usize,
    label: usize,
    Ghost(before): Ghost<Seq<usize>>,
    Ghost(head): Ghost<int>,
    Ghost(s): Ghost<int>,
)
    requires
        flooded(grid.pixels@, grid.width as int, before, label - 1),
        flooding(
            grid.pixels@,
            grid.width as int,
            before,
            old(labels)@,
            old(queue)@,
            head,
            label,
            s,
        ),
        head < old(queue)@.len(),
        old(queue)@[head] == i,
        adjacent(grid.width as int, grid.pixels@.len() as int, i as int, j as int),
    ensures
        flooding(
            grid.pixels@,
            grid.width as int,
            before,
            final(labels)@,
            final(queue)@,
            head,
            label,
            s,
        ),
        head < final(queue)@.len(),
        final(queue)@[head] == i,
        linked(grid.pixels@, grid.width as int, i as int, j as int) ==> final(labels)@[j as int]
            == label,
        forall|x: int|
            #![trigger final(labels)@[x]]
            0 <= x < old(labels)@.len() && old(labels)@[x] == label ==> final(labels)@[x] == label,
{
    if labels[j] == 0 && grid.pixels[j] == grid.pixels[i] {
        proof {
            lemma_flood_mark(
                grid.pixels@,
                grid.width as int,
                before,
                labels@,
                queue@,
                head,
                label,
                s,
                j,
            );
        }
        labels.set(j, label);
        queue.push(j);
    } else {
        proof {
            if linked(grid.pixels@, grid.width as int, i as int, j as int) {
                lemma_flood_seen(
                    grid.pixels@,
                    grid.width as int,
                    before,
                    labels@,
                    queue@,
                    head,
                    label,
                    s,
                    j as int,
                );
            }
        }
    }
}

/// Spreads `label` from pixel `start`, which has no label yet, over its region, and
/// returns the number of pixels that took it.
fn flood(grid: &PixelGrid, labels: &mut Vec<usize>, start: usize, label: usize) -> (size: usize)
    requires
        grid.wf(),
        grid.width > 0,
        flooded(grid.pixels@, grid.width as int, old(labels)@, label - 1),
        label >= 1,
        start < grid.pixels@.len(),
        old(labels)@[start as int] == 0,
    ensures
        flooded(grid.pixels@, grid.width as int, final(labels)@, label as int),
        final(labels)@[start as int] == label,
        size == label_count(final(labels)@, label - 1),
        forall|i: int|
            0 <= i < old(labels)@.len() && old(labels)@[i] != 0 ==> #[trigger] final(labels)@[i]
                == old(labels)@[i],
        forall|r: int|
            0 <= r < old(labels)@.len() && r + 1 != label ==> #[trigger] label_count(
                final(labels)@,
                r,
            ) == label_count(old(labels)@, r),
{
    let n = grid.pixels.len();
    let w = grid.width as usize;
    let ghost colors = grid.pixels@;
    let ghost wi = grid.width as int;
    let ghost before = labels@;
    let ghost s = start as int;
    proof {
        lemma_flood_start(colors, wi, before, label, start);
    }
    labels.set(start, label);
    let mut queue: Vec<usize> = Vec::new();
    queue.push(start);
    let mut head: usize = 0;
    while head < queue.len()
        invariant
            colors == grid.pixels@,
            n == colors.len(),
            w == wi,
            wi == grid.width,
            wi > 0,
            flooded(colors, wi, before, label - 1),
            flooding(colors, wi, before, labels@, queue@, head as int, label, s),
            head <= n,
        decreases n - head,
    {
        let i = queue[head];
        proof {
            lemma_small_mod(0, w as nat);
        }
        let ghost at = i as int;
        if i % w != 0 {
            visit(
                grid,
                labels,
                &mut queue,
                i,
                i - 1,
                label,
                Ghost(before),
                Ghost(head as int),
                Ghost(s),
            );
        }
        let ghost left_done = labels@;
        if i + 1 < n && (i + 1) % w != 0 {
            visit(
                grid,
                labels,
                &mut queue,
                i,
                i + 1,
                label,
                Ghost(before),
                Ghost(head as int),
                Ghost(s),
            );
        }
        let ghost right_done = labels@;
        if i >= w {
            visit(
                grid,
                labels,
                &mut queue,
                i,
                i - w,
                label,
                Ghost(before),
                Ghost(head as int),
                Ghost(s),
            );
        }
        let ghost up_done = labels@;
        if n - i > w {
            visit(
                grid,
                labels,
                &mut queue,
                i,
                i + w,
                label,
                Ghost(before),
                Ghost(head as int),
                Ghost(s),
            );
        }
        proof {
            assert forall|j: int| #[trigger] linked(colors, wi, at, j) implies labels@[j]
                == label by {
                if j == at - 1 && has_left(wi, at) {
                    assert(left_done[j] == label);
                    assert(right_done[j] == label);
                    assert(up_done[j] == label);
                } else if j == at + 1 && has_right(wi, n as int, at) {
                    assert(right_done[j] == label);
                    assert(up_done[j] == label);
                } else if j == at - wi && has_up(wi, at) {
                    assert(up_done[j] == label);
                }
            }
            lemma_flood_step(colors, wi, before, labels@, queue@, head as int, label, s);
            lemma_occurrences_bound(labels@, label);
        }
        head += 1;
    }
    proof {
        lemma_flood_done(colors, wi, before, labels@, queue@, label, s);
    }
    queue.len()
}

/// Partitions the grid into its regions by flood fill. Two pixels get the same label
/// exactly when a path of edge-sharing pixels of one colour joins them; every label is
/// at least 1; and `sizes` holds the number of pixels of every label.
pub fn flood_fill_regions(grid: &PixelGrid) -> (out: Labeling)
    requires
        grid.wf(),
    ensures
        out.describes(grid.pixels@, grid.width as int),
{
    let n = grid.pixels.len();
    let ghost colors = grid.pixels@;
    let ghost wi = grid.width as int;
    assert(n > 0 ==> wi > 0) by (nonlinear_arith)
        requires
            n == grid.width * grid.height,
            wi == grid.width,
    ;
    let mut labels: Vec<usize> = Vec::new();
    let mut sizes: Vec<usize> = Vec::new();
    let mut k: usize = 0;
    while k < n
        invariant
            k <= n,
            labels@.len() == k,
            sizes@.len() == k,
            forall|i: int| 0 <= i < k ==> #[trigger] labels@[i] == 0,
            forall|r: int| 0 <= r < k ==> #[trigger] sizes@[r] == 0,
        decreases n - k,
    {
        labels.push(0);
        sizes.push(0);
        k += 1;
    }
    proof {
        assert forall|r: int| 0 <= r < n implies #[trigger] sizes@[r] == label_count(
            labels@,
            r,
        ) by {
            lemma_occurrences_absent(labels@, (r + 1) as usize);
        }
    }
    let mut count: usize = 0;
    let mut start: usize = 0;
    while start < n
        invariant
            colors == grid.pixels@,
            n == colors.len(),
            wi == grid.width,
            n > 0 ==> wi > 0,
            grid.wf(),
            count <= start <= n,
            flooded(colors, wi, labels@, count as int),
            forall|i: int| 0 <= i < start ==> #[trigger] labels@[i] != 0,
            sizes@.len() == n,
            forall|r: int| 0 <= r < n ==> #[trigger] sizes@[r] == label_count(labels@, r),
        decreases n - start,
    {
        if labels[start] == 0 {
            count += 1;
            let size = flood(grid, &mut labels, start, count);
            sizes.set(count - 1, size);
        }
        start += 1;
    }
    proof {
        assert(respects_links(colors, wi, labels@));
        assert forall|i: int, j: int| 0 <= i < n && 0 <= j < n implies (#[trigger] connected(
            colors,
            wi,
            i,
            j,
        ) <==> labels@[i] == labels@[j]) by {
            if connected(colors, wi, i, j) {
                lemma_connected_class(colors, wi, labels@, i, j);
            }
        }
    }
    Labeling { labels, sizes }
}

} // verus!
