//! Consolidation of small regions: every region with fewer pixels than the threshold
//! takes the colour that its border sees most often.
//!
//! The pixels of a region are visited in raster order, and each looks at its left,
//! right, upper and lower neighbour, in this order. Every neighbour that lies in another
//! region casts one vote for its own colour, alpha included. The colour with the most
//! votes wins; among colours with equally many votes, the one that was voted for first
//! wins. A region that nothing borders on is left as it is. All votes are taken on the
//! grid as it was before any region was repainted, and one pass is made: a small region
//! that takes the colour of another small region may be small afterwards too.

use vstd::arithmetic::div_mod::lemma_small_mod;
use vstd::prelude::*;
use crate::counting::{
    lemma_occurrences_bound, lemma_occurrences_positive, lemma_occurrences_push,
    lemma_occurrences_witness, occurrences,
};
use crate::labeler::{label_count, Labeling};
use crate::pixel::{Pixel, PixelGrid};
use crate::regions::{
    connected, has_down, has_left, has_right, has_up, is_labeling, lemma_label_count,
    lemma_uniform_grid_is_one_region, region_size,
};

verus! {

/// The vote that pixel `j` receives from pixel `k`, where `present` says whether `k` is
/// the neighbour of `j` in the direction at hand: the colour of `k` if `k` lies in
/// another region, and nothing otherwise.
pub open spec fn vote(colors: Seq<Pixel>, w: int, j: int, k: int, present: bool) -> Seq<Pixel> {
    if present && !connected(colors, w, j, k) {
        seq![colors[k]]
    } else {
        Seq::empty()
    }
}

/// The votes that pixel `j` receives from its left, right, upper and lower neighbour.
pub open spec fn border_votes(colors: Seq<Pixel>, w: int, j: int) -> Seq<Pixel> {
    let n = colors.len() as int;
    vote(colors, w, j, j - 1, has_left(w, j)) + vote(colors, w, j, j + 1, has_right(w, n, j))
        + vote(colors, w, j, j - w, has_up(w, j)) + vote(colors, w, j, j + w, has_down(w, n, j))
}

/// The votes that the region of pixel `i` receives through its pixels among the first
/// `upto`.
pub open spec fn region_votes_upto(colors: Seq<Pixel>, w: int, i: int, upto: int) -> Seq<Pixel>
    decreases upto,
{
    if upto <= 0 {
        Seq::empty()
    } else {
        region_votes_upto(colors, w, i, upto - 1) + if connected(colors, w, i, upto - 1) {
            border_votes(colors, w, upto - 1)
        } else {
            Seq::empty()
        }
    }
}

/// All votes that the region of pixel `i` receives, in the order in which they are cast.
pub open spec fn region_votes(colors: Seq<Pixel>, w: int, i: int) -> Seq<Pixel> {
    region_votes_upto(colors, w, i, colors.len() as int)
}

/// The vote at position `p` is the first vote for the winning colour: no colour has
/// more votes than this one, and every colour voted for earlier has fewer.
pub open spec fn is_majority_at(votes: Seq<Pixel>, p: int) -> bool {
    &&& 0 <= p < votes.len()
    &&& forall|q: int|
        0 <= q < votes.len() ==> occurrences(votes, #[trigger] votes[q]) <= occurrences(
            votes,
            votes[p],
        )
    &&& forall|q: int|
        0 <= q < p ==> occurrences(votes, #[trigger] votes[q]) < occurrences(votes, votes[p])
}

/// The winning colour of a sequence of votes, if there is any vote.
pub open spec fn majority(votes: Seq<Pixel>) -> Option<Pixel> {
    if exists|p: int| is_majority_at(votes, p) {
        Some(votes[choose|p: int| is_majority_at(votes, p)])
    } else {
        None
    }
}

/// The colour of pixel `i` after consolidation with the given threshold.
pub open spec fn consolidated_at(colors: Seq<Pixel>, w: int, threshold: int, i: int) -> Pixel {
    if region_size(colors, w, i) < threshold {
        match majority(region_votes(colors, w, i)) {
            Some(color) => color,
            None => colors[i],
        }
    } else {
        colors[i]
    }
}

/// The grid after consolidation with the given threshold.
pub open spec fn consolidated(colors: Seq<Pixel>, w: int, threshold: int) -> Seq<Pixel> {
    Seq::new(colors.len(), |i: int| consolidated_at(colors, w, threshold, i))
}

/// There is one winning colour at most: the first vote for it is determined.
pub proof fn lemma_majority_unique(votes: Seq<Pixel>, p: int)
    requires
        is_majority_at(votes, p),
    ensures
        majority(votes) == Some(votes[p]),
{
    let chosen = choose|q: int| is_majority_at(votes, q);
    assert(occurrences(votes, votes[chosen]) <= occurrences(votes, votes[p]));
    assert(occurrences(votes, votes[p]) <= occurrences(votes, votes[chosen]));
}

/// Among the first `upto` votes, some vote is for a colour that none of them beats and
/// that every earlier one falls short of.
proof fn lemma_leading_vote(votes: Seq<Pixel>, upto: int) -> (p: int)
    requires
        0 < upto <= votes.len(),
    ensures
        0 <= p < upto,
        forall|q: int|
            0 <= q < upto ==> occurrences(votes, #[trigger] votes[q]) <= occurrences(
                votes,
                votes[p],
            ),
        forall|q: int|
            0 <= q < p ==> occurrences(votes, #[trigger] votes[q]) < occurrences(votes, votes[p]),
    decreases upto,
{
    if upto == 1 {
        0
    } else {
        let p = lemma_leading_vote(votes, upto - 1);
        if occurrences(votes, votes[upto - 1]) > occurrences(votes, votes[p]) {
            upto - 1
        } else {
            p
        }
    }
}

/// Where there is a vote, there is a winning colour.
pub proof fn lemma_majority_exists(votes: Seq<Pixel>)
    requires
        votes.len() > 0,
    ensures
        majority(votes) is Some,
{
    let p = lemma_leading_vote(votes, votes.len() as int);
    assert(is_majority_at(votes, p));
}

/// Without votes there is no winning colour.
pub proof fn lemma_majority_of_none(votes: Seq<Pixel>)
    requires
        votes.len() == 0,
    ensures
        majority(votes) == None::<Pixel>,
{
}

/// Every vote is the colour of a pixel of the grid.
pub proof fn lemma_votes_are_colors(colors: Seq<Pixel>, w: int, i: int, upto: int, p: int) -> (k:
    int)
    requires
        w > 0,
        0 <= upto <= colors.len(),
        0 <= p < region_votes_upto(colors, w, i, upto).len(),
    ensures
        0 <= k < colors.len(),
        colors[k] == region_votes_upto(colors, w, i, upto)[p],
    decreases upto,
{
    let before = region_votes_upto(colors, w, i, upto - 1);
    if p < before.len() {
        lemma_votes_are_colors(colors, w, i, upto - 1, p)
    } else {
        let j = upto - 1;
        let n = colors.len() as int;
        lemma_small_mod(0, w as nat);
        let left = vote(colors, w, j, j - 1, has_left(w, j));
        let right = vote(colors, w, j, j + 1, has_right(w, n, j));
        let up = vote(colors, w, j, j - w, has_up(w, j));
        let q = p - before.len();
        if q < left.len() {
            j - 1
        } else if q < left.len() + right.len() {
            j + 1
        } else if q < left.len() + right.len() + up.len() {
            j - w
        } else {
            j + w
        }
    }
}

/// Consolidation invents no colour: every pixel ends with the colour, alpha included,
/// that some pixel had before.
pub proof fn lemma_consolidated_from_colors(colors: Seq<Pixel>, w: int, threshold: int, i: int)
    -> (k: int)
    requires
        w > 0,
        0 <= i < colors.len(),
    ensures
        0 <= k < colors.len(),
        consolidated_at(colors, w, threshold, i) == colors[k],
{
    let votes = region_votes(colors, w, i);
    if region_size(colors, w, i) < threshold && majority(votes).is_some() {
        let p = choose|p: int| is_majority_at(votes, p);
        lemma_votes_are_colors(colors, w, i, colors.len() as int, p)
    } else {
        i
    }
}

/// A region that holds every pixel of the grid receives no vote.
proof fn lemma_no_votes(colors: Seq<Pixel>, w: int, i: int, upto: int)
    requires
        w > 0,
        0 <= upto <= colors.len(),
        forall|j: int, k: int|
            0 <= j < colors.len() && 0 <= k < colors.len() ==> #[trigger] connected(
                colors,
                w,
                j,
                k,
            ),
    ensures
        region_votes_upto(colors, w, i, upto).len() == 0,
    decreases upto,
{
    if upto > 0 {
        lemma_no_votes(colors, w, i, upto - 1);
        lemma_small_mod(0, w as nat);
    }
}

/// A grid of one colour is left as it is, whatever the threshold: its one region has
/// no border to take a colour from.
pub proof fn lemma_uniform_grid_unchanged(colors: Seq<Pixel>, w: int, threshold: int)
    requires
        w > 0,
        forall|k: int| 0 <= k < colors.len() ==> #[trigger] colors[k] == colors[0],
    ensures
        forall|i: int|
            0 <= i < colors.len() ==> (#[trigger] region_votes(colors, w, i)).len() == 0,
        consolidated(colors, w, threshold) == colors,
{
    lemma_uniform_grid_is_one_region(colors, w);
    assert forall|i: int| 0 <= i < colors.len() implies (#[trigger] region_votes(
        colors,
        w,
        i,
    )).len() == 0 by {
        lemma_no_votes(colors, w, i, colors.len() as int);
    }
    assert forall|i: int| 0 <= i < colors.len() implies #[trigger] consolidated_at(
        colors,
        w,
        threshold,
        i,
    ) == colors[i] by {
        lemma_majority_of_none(region_votes(colors, w, i));
    }
    assert(consolidated(colors, w, threshold) =~= colors);
}

/// The vote that pixel `j` receives from pixel `k`, read off the labels.
spec fn vote_by_label(colors: Seq<Pixel>, labels: Seq<usize>, j: int, k: int, present: bool)
    -> Seq<Pixel> {
    if present && labels[k] != labels[j] {
        seq![colors[k]]
    } else {
        Seq::empty()
    }
}

/// The votes that pixel `j` receives, read off the labels.
spec fn border_votes_by_label(colors: Seq<Pixel>, w: int, labels: Seq<usize>, j: int) -> Seq<
    Pixel,
> {
    let n = colors.len() as int;
    vote_by_label(colors, labels, j, j - 1, has_left(w, j)) + vote_by_label(
        colors,
        labels,
        j,
        j + 1,
        has_right(w, n, j),
    ) + vote_by_label(colors, labels, j, j - w, has_up(w, j)) + vote_by_label(
        colors,
        labels,
        j,
        j + w,
        has_down(w, n, j),
    )
}

/// The votes that the pixels with the given label receive, among the first `upto`.
spec fn label_votes_upto(colors: Seq<Pixel>, w: int, labels: Seq<usize>, label: usize, upto: int)
    -> Seq<Pixel>
    decreases upto,
{
    if upto <= 0 {
        Seq::empty()
    } else {
        label_votes_upto(colors, w, labels, label, upto - 1) + if labels[upto - 1] == label {
            border_votes_by_label(colors, w, labels, upto - 1)
        } else {
            Seq::empty()
        }
    }
}

/// Under a labeling, the votes read off the labels are the votes of the region.
proof fn lemma_label_votes(colors: Seq<Pixel>, w: int, labels: Seq<usize>, i: int, upto: int)
    requires
        w > 0,
        is_labeling(colors, w, labels),
        0 <= i < colors.len(),
        0 <= upto <= colors.len(),
    ensures
        label_votes_upto(colors, w, labels, labels[i], upto) == region_votes_upto(
            colors,
            w,
            i,
            upto,
        ),
    decreases upto,
{
    if upto > 0 {
        lemma_label_votes(colors, w, labels, i, upto - 1);
        let j = upto - 1;
        let n = colors.len() as int;
        lemma_small_mod(0, w as nat);
        assert(connected(colors, w, i, j) <==> labels[i] == labels[j]);
        assert(has_left(w, j) ==> (connected(colors, w, j, j - 1) <==> labels[j] == labels[j - 1]));
        assert(has_right(w, n, j) ==> (connected(colors, w, j, j + 1) <==> labels[j] == labels[j
            + 1]));
        assert(has_up(w, j) ==> (connected(colors, w, j, j - w) <==> labels[j] == labels[j - w]));
        assert(has_down(w, n, j) ==> (connected(colors, w, j, j + w) <==> labels[j] == labels[j
            + w]));
    }
}

/// One colour and the number of votes cast for it.
#[derive(Clone, Copy)]
struct Tally {
    color: Pixel,
    count: u128,
}

/// The position of the first vote for `color`.
spec fn first_position(votes: Seq<Pixel>, color: Pixel) -> int
    decreases votes.len(),
{
    if votes.len() == 0 {
        0
    } else if occurrences(votes.drop_last(), color) > 0 {
        first_position(votes.drop_last(), color)
    } else {
        votes.len() - 1
    }
}

/// Every entry holds the number of votes for its colour, which is not 0.
spec fn counted(table: Seq<Tally>, votes: Seq<Pixel>) -> bool {
    forall|k: int|
        0 <= k < table.len() ==> (#[trigger] table[k]).count >= 1 && table[k].count == occurrences(
            votes,
            table[k].color,
        )
}

/// The table has an entry for `color`.
spec fn listed(table: Seq<Tally>, color: Pixel) -> bool {
    exists|k: int| 0 <= k < table.len() && (#[trigger] table[k]).color == color
}

/// The table has an entry for every colour voted for.
spec fn covering(table: Seq<Tally>, votes: Seq<Pixel>) -> bool {
    forall|q: int| 0 <= q < votes.len() ==> listed(table, #[trigger] votes[q])
}

/// The position of the first vote for the colour of entry `k`.
spec fn rank(table: Seq<Tally>, votes: Seq<Pixel>, k: int) -> int {
    first_position(votes, table[k].color)
}

/// The entries stand in the order in which their colours were first voted for.
spec fn ordered(table: Seq<Tally>, votes: Seq<Pixel>) -> bool {
    forall|k1: int, k2: int|
        0 <= k1 < k2 < table.len() ==> #[trigger] rank(table, votes, k1) < #[trigger] rank(
            table,
            votes,
            k2,
        )
}

/// The table is the tally of the votes.
#[verifier::opaque]
spec fn tallies(table: Seq<Tally>, votes: Seq<Pixel>) -> bool {
    counted(table, votes) && covering(table, votes) && ordered(table, votes)
}

/// The first vote for a colour is a vote for it, and no earlier vote is.
proof fn lemma_first_position(votes: Seq<Pixel>, color: Pixel)
    requires
        occurrences(votes, color) >= 1,
    ensures
        0 <= first_position(votes, color) < votes.len(),
        votes[first_position(votes, color)] == color,
        forall|q: int| 0 <= q < first_position(votes, color) ==> votes[q] != color,
    decreases votes.len(),
{
    let front = votes.drop_last();
    if occurrences(front, color) > 0 {
        lemma_first_position(front, color);
        assert forall|q: int| 0 <= q < first_position(front, color) implies votes[q] != color by {
            assert(front[q] == votes[q]);
        }
    } else {
        assert forall|q: int| 0 <= q < votes.len() - 1 implies votes[q] != color by {
            if votes[q] == color {
                lemma_occurrences_positive(front, q);
            }
        }
    }
}

/// A further vote moves no colour's first vote.
proof fn lemma_first_position_push(votes: Seq<Pixel>, vote: Pixel, color: Pixel)
    ensures
        first_position(votes.push(vote), color) == if occurrences(votes, color) > 0 {
            first_position(votes, color)
        } else {
            votes.len() as int
        },
{
    assert(votes.push(vote).drop_last() =~= votes);
}

/// A vote for the colour of entry `k` raises that entry by one.
proof fn lemma_tally_seen(table: Seq<Tally>, votes: Seq<Pixel>, k: int, entry: Tally)
    requires
        tallies(table, votes),
        0 <= k < table.len(),
        entry.color == table[k].color,
        entry.count == table[k].count + 1,
    ensures
        tallies(table.update(k, entry), votes.push(entry.color)),
{
    reveal(tallies);
    let color = entry.color;
    let next = table.update(k, entry);
    let more = votes.push(color);
    assert forall|m: int| 0 <= m < next.len() implies (#[trigger] next[m]).count >= 1
        && next[m].count == occurrences(more, next[m].color) by {
        lemma_occurrences_push(votes, color, next[m].color);
        assert(table[m].count >= 1);
        if m != k && table[m].color == color {
            assert(rank(table, votes, m) == rank(table, votes, k));
        }
    }
    assert forall|q: int| 0 <= q < more.len() implies listed(next, #[trigger] more[q]) by {
        if q < votes.len() {
            assert(listed(table, votes[q]));
            let m = choose|m: int| 0 <= m < table.len() && (#[trigger] table[m]).color == votes[q];
            assert(next[m].color == more[q]);
        } else {
            assert(next[k].color == more[q]);
        }
    }
    assert forall|k1: int, k2: int| 0 <= k1 < k2 < next.len() implies #[trigger] rank(
        next,
        more,
        k1,
    ) < #[trigger] rank(next, more, k2) by {
        lemma_first_position_push(votes, color, next[k1].color);
        lemma_first_position_push(votes, color, next[k2].color);
        assert(table[k1].count >= 1 && table[k2].count >= 1);
        assert(rank(table, votes, k1) < rank(table, votes, k2));
    }
}

/// A vote for a colour without an entry adds an entry at the end.
proof fn lemma_tally_new(table: Seq<Tally>, votes: Seq<Pixel>, entry: Tally)
    requires
        tallies(table, votes),
        forall|m: int| 0 <= m < table.len() ==> (#[trigger] table[m]).color != entry.color,
        entry.count == 1,
    ensures
        tallies(table.push(entry), votes.push(entry.color)),
{
    reveal(tallies);
    let color = entry.color;
    let next = table.push(entry);
    let more = votes.push(color);
    if occurrences(votes, color) >= 1 {
        let p = lemma_occurrences_witness(votes, color);
        assert(listed(table, votes[p]));
    }
    assert forall|m: int| 0 <= m < next.len() implies (#[trigger] next[m]).count >= 1
        && next[m].count == occurrences(more, next[m].color) by {
        lemma_occurrences_push(votes, color, next[m].color);
        if m < table.len() {
            assert(table[m].count >= 1);
        }
    }
    assert forall|q: int| 0 <= q < more.len() implies listed(next, #[trigger] more[q]) by {
        if q < votes.len() {
            assert(listed(table, votes[q]));
            let m = choose|m: int| 0 <= m < table.len() && (#[trigger] table[m]).color == votes[q];
            assert(next[m].color == more[q]);
        } else {
            assert(next[table.len() as int].color == more[q]);
        }
    }
    assert forall|k1: int, k2: int| 0 <= k1 < k2 < next.len() implies #[trigger] rank(
        next,
        more,
        k1,
    ) < #[trigger] rank(next, more, k2) by {
        lemma_first_position_push(votes, color, next[k1].color);
        lemma_first_position_push(votes, color, next[k2].color);
        assert(table[k1].count >= 1);
        lemma_first_position(votes, table[k1].color);
        if k2 < table.len() {
            assert(table[k2].count >= 1);
            assert(rank(table, votes, k1) < rank(table, votes, k2));
        }
    }
}

/// The first entry with the highest count holds the winning colour.
proof fn lemma_leader_is_majority(table: Seq<Tally>, votes: Seq<Pixel>, best: int)
    requires
        tallies(table, votes),
        0 <= best < table.len(),
        forall|m: int| 0 <= m < table.len() ==> (#[trigger] table[m]).count <= table[best].count,
        forall|m: int| 0 <= m < best ==> (#[trigger] table[m]).count < table[best].count,
    ensures
        majority(votes) == Some(table[best].color),
{
    reveal(tallies);
    let color = table[best].color;
    let p = first_position(votes, color);
    assert(table[best].count >= 1);
    lemma_first_position(votes, color);
    assert forall|q: int| 0 <= q < votes.len() implies occurrences(votes, #[trigger] votes[q])
        <= occurrences(votes, votes[p]) by {
        assert(listed(table, votes[q]));
        let m = choose|m: int| 0 <= m < table.len() && (#[trigger] table[m]).color == votes[q];
        assert(table[m].count <= table[best].count);
    }
    assert forall|q: int| 0 <= q < p implies occurrences(votes, #[trigger] votes[q]) < occurrences(
        votes,
        votes[p],
    ) by {
        assert(listed(table, votes[q]));
        let m = choose|m: int| 0 <= m < table.len() && (#[trigger] table[m]).color == votes[q];
        lemma_occurrences_positive(votes, q);
        lemma_first_position(votes, votes[q]);
        assert(rank(table, votes, m) <= q);
        assert(rank(table, votes, best) == p);
        if m > best {
            assert(rank(table, votes, best) < rank(table, votes, m));
        }
        assert(m < best);
        assert(table[m].count < table[best].count);
    }
    lemma_majority_unique(votes, p);
}

/// Counts one more vote for `color`.
fn add_vote(table: &mut Vec<Tally>, color: Pixel, Ghost(votes): Ghost<Seq<Pixel>>)
    requires
        tallies(old(table)@, votes),
        votes.len() < u128::MAX,
    ensures
        tallies(final(table)@, votes.push(color)),
{
    let mut k: usize = 0;
    while k < table.len()
        invariant
            table@ == old(table)@,
            tallies(table@, votes),
            votes.len() < u128::MAX,
            k <= table@.len(),
            forall|m: int| 0 <= m < k ==> (#[trigger] table@[m]).color != color,
        decreases table@.len() - k,
    {
        if table[k].color == color {
            proof {
                reveal(tallies);
                lemma_occurrences_bound(votes, color);
                assert(table@[k as int].count == occurrences(votes, color));
            }
            let entry = Tally { color, count: table[k].count + 1 };
            proof {
                lemma_tally_seen(table@, votes, k as int, entry);
            }
            table.set(k, entry);
            return ;
        }
        k += 1;
    }
    let entry = Tally { color, count: 1 };
    proof {
        lemma_tally_new(table@, votes, entry);
    }
    table.push(entry);
}

/// Counts the vote of pixel `k`, a neighbour of a pixel with the given label, unless
/// `k` has that label too.
fn count_neighbour(
    table: &mut Vec<Tally>,
    grid: &PixelGrid,
    labels: &Vec<usize>,
    label: usize,
    k: usize,
    Ghost(votes): Ghost<Seq<Pixel>>,
) -> (more: Ghost<Seq<Pixel>>)
    requires
        tallies(old(table)@, votes),
        votes.len() < u128::MAX,
        k < grid.pixels@.len(),
        labels@.len() == grid.pixels@.len(),
    ensures
        tallies(final(table)@, more@),
        more@ == votes + if labels@[k as int] != label {
            seq![grid.pixels@[k as int]]
        } else {
            Seq::empty()
        },
{
    if labels[k] != label {
        add_vote(table, grid.pixels[k], Ghost(votes));
        assert(votes.push(grid.pixels@[k as int]) =~= votes + seq![grid.pixels@[k as int]]);
        Ghost(votes.push(grid.pixels@[k as int]))
    } else {
        assert(votes =~= votes + Seq::<Pixel>::empty());
        Ghost(votes)
    }
}

/// The winning colour among the votes that the pixels with the given label receive.
fn label_majority(grid: &PixelGrid, labels: &Vec<usize>, label: usize) -> (winner: Option<Pixel>)
    requires
        grid.wf(),
        labels@.len() == grid.pixels@.len(),
    ensures
        winner == majority(
            label_votes_upto(
                grid.pixels@,
                grid.width as int,
                labels@,
                label,
                grid.pixels@.len() as int,
            ),
        ),
{
    let n = grid.pixels.len();
    let w = grid.width as usize;
    let ghost colors = grid.pixels@;
    let ghost wi = grid.width as int;
    assert(n > 0 ==> wi > 0) by (nonlinear_arith)
        requires
            n == grid.width * grid.height,
            wi == grid.width,
    ;
    let mut table: Vec<Tally> = Vec::new();
    let ghost mut votes: Seq<Pixel> = Seq::empty();
    let mut idx: usize = 0;
    assert(tallies(table@, votes)) by {
        reveal(tallies);
    }
    while idx < n
        invariant
            colors == grid.pixels@,
            n == colors.len(),
            labels@.len() == n,
            w == wi,
            n > 0 ==> wi > 0,
            idx <= n,
            tallies(table@, votes),
            votes.len() <= 4 * idx,
            votes == label_votes_upto(colors, wi, labels@, label, idx as int),
        decreases n - idx,
    {
        if labels[idx] == label {
            let ghost start = votes;
            let ghost at = idx as int;
            let ghost left = vote_by_label(colors, labels@, at, at - 1, has_left(wi, at));
            let ghost right = vote_by_label(
                colors,
                labels@,
                at,
                at + 1,
                has_right(wi, n as int, at),
            );
            let ghost up = vote_by_label(colors, labels@, at, at - wi, has_up(wi, at));
            let ghost down = vote_by_label(
                colors,
                labels@,
                at,
                at + wi,
                has_down(wi, n as int, at),
            );
            proof {
                lemma_small_mod(0, w as nat);
            }
            if idx % w != 0 {
                let more = count_neighbour(&mut table, grid, labels, label, idx - 1, Ghost(votes));
                proof {
                    votes = more@;
                }
            }
            assert(votes =~= start + left);
            if idx + 1 < n && (idx + 1) % w != 0 {
                let more = count_neighbour(&mut table, grid, labels, label, idx + 1, Ghost(votes));
                proof {
                    votes = more@;
                }
            }
            assert(votes =~= start + left + right);
            if idx >= w {
                let more = count_neighbour(&mut table, grid, labels, label, idx - w, Ghost(votes));
                proof {
                    votes = more@;
                }
            }
            assert(votes =~= start + left + right + up);
            if n - idx > w {
                let more = count_neighbour(&mut table, grid, labels, label, idx + w, Ghost(votes));
                proof {
                    votes = more@;
                }
            }
            assert(votes =~= start + (left + right + up + down));
        }
        idx += 1;
    }
    if table.len() == 0 {
        proof {
            reveal(tallies);
            if votes.len() > 0 {
                assert(listed(table@, votes[0]));
            }
        }
        return None;
    }
    let mut best: usize = 0;
    let mut k: usize = 1;
    while k < table.len()
        invariant
            0 <= best < k <= table@.len(),
            forall|m: int|
                0 <= m < k ==> (#[trigger] table@[m]).count <= table@[best as int].count,
            forall|m: int|
                0 <= m < best ==> (#[trigger] table@[m]).count < table@[best as int].count,
        decreases table@.len() - k,
    {
        if table[k].count > table[best].count {
            best = k;
        }
        k += 1;
    }
    proof {
        lemma_leader_is_majority(table@, votes, best as int);
    }
    Some(table[best].color)
}

/// Gives `color` to every pixel with the given label.
fn repaint(pixels: &mut Vec<Pixel>, labels: &Vec<usize>, label: usize, color: Pixel)
    requires
        old(pixels)@.len() == labels@.len(),
    ensures
        final(pixels)@.len() == old(pixels)@.len(),
        forall|i: int|
            0 <= i < labels@.len() ==> #[trigger] final(pixels)@[i] == if labels@[i] == label {
                color
            } else {
                old(pixels)@[i]
            },
{
    let n = labels.len();
    let mut idx: usize = 0;
    while idx < n
        invariant
            n == labels@.len(),
            idx <= n,
            pixels@.len() == n,
            forall|i: int|
                0 <= i < n ==> #[trigger] pixels@[i] == if i < idx && labels@[i] == label {
                    color
                } else {
                    old(pixels)@[i]
                },
        decreases n - idx,
    {
        if labels[idx] == label {
            pixels.set(idx, color);
        }
        idx += 1;
    }
}

/// Repaints every region that has fewer than `threshold` pixels with the colour that
/// wins the vote along its border, alpha included. A region without votes, and every
/// region of `threshold` pixels or more, stays as it is. The votes of all regions are
/// taken on `grid`, so no region's colour depends on the repainting of another.
pub fn consolidate(grid: &PixelGrid, labeling: &Labeling, threshold: usize) -> (out: PixelGrid)
    requires
        grid.wf(),
        labeling.describes(grid.pixels@, grid.width as int),
    ensures
        out.wf(),
        out.width == grid.width,
        out.height == grid.height,
        out.pixels@ == consolidated(grid.pixels@, grid.width as int, threshold as int),
{
    let n = grid.pixels.len();
    let ghost colors = grid.pixels@;
    let ghost wi = grid.width as int;
    let ghost labels = labeling.labels@;
    assert(n > 0 ==> wi > 0) by (nonlinear_arith)
        requires
            n == grid.width * grid.height,
            wi == grid.width,
    ;
    let mut pixels: Vec<Pixel> = Vec::new();
    let mut idx: usize = 0;
    while idx < n
        invariant
            n == grid.pixels@.len(),
            idx <= n,
            pixels@ == grid.pixels@.take(idx as int),
        decreases n - idx,
    {
        pixels.push(grid.pixels[idx]);
        assert(grid.pixels@.take(idx + 1) =~= grid.pixels@.take(idx as int).push(
            grid.pixels@[idx as int],
        ));
        idx += 1;
    }
    assert(pixels@ =~= colors);
    let mut r: usize = 0;
    while r < n
        invariant
            colors == grid.pixels@,
            labels == labeling.labels@,
            n == colors.len(),
            wi == grid.width,
            n > 0 ==> wi > 0,
            grid.wf(),
            labeling.describes(colors, wi),
            r <= n,
            pixels@.len() == n,
            forall|i: int|
                0 <= i < n ==> #[trigger] pixels@[i] == if labels[i] <= r {
                    consolidated_at(colors, wi, threshold as int, i)
                } else {
                    colors[i]
                },
        decreases n - r,
    {
        let label = r + 1;
        let size = labeling.sizes[r];
        let ghost before = pixels@;
        let mut winner: Option<Pixel> = None;
        if 0 < size && size < threshold {
            winner = label_majority(grid, &labeling.labels, label);
            if let Some(color) = winner {
                repaint(&mut pixels, &labeling.labels, label, color);
            }
        }
        proof {
            assert forall|i: int| 0 <= i < n implies #[trigger] pixels@[i] == if labels[i] <= r
                + 1 {
                consolidated_at(colors, wi, threshold as int, i)
            } else {
                colors[i]
            } by {
                assert(before[i] == if labels[i] <= r {
                    consolidated_at(colors, wi, threshold as int, i)
                } else {
                    colors[i]
                });
                if labels[i] == label {
                    lemma_occurrences_positive(labels, i);
                    lemma_label_count(colors, wi, labels, i, n as int);
                    assert(labels.take(n as int) =~= labels);
                    assert(labeling.sizes@[r as int] == label_count(labels, r as int));
                    lemma_label_votes(colors, wi, labels, i, n as int);
                }
            }
        }
        r += 1;
    }
    assert(pixels@ =~= consolidated(colors, wi, threshold as int));
    PixelGrid { width: grid.width, height: grid.height, pixels }
}

} // verus!
