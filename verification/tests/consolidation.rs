use color_reducer::consolidator::consolidate;
use color_reducer::labeler::label_regions;
use color_reducer::reducer::remove_small_regions;
use color_reducer::{Pixel, PixelGrid};

const A: Pixel = Pixel { r: 255, g: 0, b: 0, a: 255 };
const B: Pixel = Pixel { r: 0, g: 0, b: 255, a: 255 };
const C: Pixel = Pixel { r: 0, g: 255, b: 0, a: 255 };
const D: Pixel = Pixel { r: 9, g: 9, b: 9, a: 255 };

fn grid(width: u32, rows: &[&[Pixel]]) -> PixelGrid {
    let mut pixels = Vec::new();
    for row in rows {
        assert_eq!(row.len(), width as usize);
        pixels.extend_from_slice(row);
    }
    PixelGrid::new(width, rows.len() as u32, pixels).unwrap()
}

fn flat(rows: &[&[Pixel]]) -> Vec<Pixel> {
    rows.iter().flat_map(|row| row.iter().copied()).collect()
}

#[test]
fn a_lone_pixel_takes_the_colour_around_it() {
    let g = grid(3, &[&[A, A, A], &[A, B, A], &[A, A, A]]);
    let out = remove_small_regions(&g, 2);
    assert_eq!(out.width, 3);
    assert_eq!(out.height, 3);
    assert_eq!(out.pixels, vec![A; 9]);
}

#[test]
fn a_region_of_threshold_size_stays() {
    let g = grid(3, &[&[A, A, A], &[A, B, B], &[A, A, A]]);
    assert_eq!(remove_small_regions(&g, 2).pixels, g.pixels);
    assert_eq!(remove_small_regions(&g, 3).pixels, vec![A; 9]);
}

#[test]
fn threshold_zero_and_one_change_nothing() {
    let g = grid(3, &[&[A, B, A], &[B, C, B], &[A, B, A]]);
    assert_eq!(remove_small_regions(&g, 0).pixels, g.pixels);
    assert_eq!(remove_small_regions(&g, 1).pixels, g.pixels);
}

#[test]
fn the_most_frequent_border_colour_wins() {
    // The middle pixel sees B once (left) and C three times. The lone C above it and
    // the one below it see A twice and the middle pixel once.
    let g = grid(
        5,
        &[
            &[A, A, C, A, A],
            &[B, B, D, C, C],
            &[A, A, C, A, A],
        ],
    );
    let out = remove_small_regions(&g, 2);
    let mut expected = g.pixels.clone();
    expected[7] = C;
    expected[2] = A;
    expected[12] = A;
    assert_eq!(out.pixels, expected);
}

#[test]
fn of_equally_frequent_colours_the_first_voted_wins() {
    // The middle pixel looks left, right, up, down: B, C, C, B.
    let g = grid(
        6,
        &[
            &[C, C, C, C, C, C],
            &[B, B, D, C, C, C],
            &[B, B, B, B, B, B],
        ],
    );
    let out = remove_small_regions(&g, 2);
    let mut expected = g.pixels.clone();
    expected[8] = B;
    assert_eq!(out.pixels, expected);

    // Mirrored: C, B, C, B.
    let g = grid(
        6,
        &[
            &[C, C, C, C, C, C],
            &[C, C, C, D, B, B],
            &[B, B, B, B, B, B],
        ],
    );
    let out = remove_small_regions(&g, 2);
    let mut expected = g.pixels.clone();
    expected[9] = C;
    assert_eq!(out.pixels, expected);
}

#[test]
fn votes_are_taken_in_raster_order_over_the_region() {
    // The region D D votes: first pixel left B, up C, down A; second pixel right A,
    // up C, down A. A has three votes, C two, B one.
    let g = grid(
        4,
        &[
            &[C, C, C, C],
            &[B, D, D, A],
            &[A, A, A, A],
        ],
    );
    let out = remove_small_regions(&g, 3);
    let mut expected = g.pixels.clone();
    expected[5] = A;
    expected[6] = A;
    // The lone B looks right, up and down and sees D, C and A once each: D first.
    expected[4] = D;
    assert_eq!(out.pixels, expected);
}

#[test]
fn a_neighbour_counts_once_for_every_pixel_that_touches_it() {
    // The L-shaped region D touches the single C pixel twice and two different B
    // pixels once each; the votes are B, C, C, B, ...: what else borders is A.
    let g = grid(
        4,
        &[
            &[A, A, A, A],
            &[A, D, C, A],
            &[A, D, D, A],
            &[A, A, A, A],
        ],
    );
    let out = remove_small_regions(&g, 4);
    // D: votes from (1,1): left A, right C, up A; (1,2): left A, down A;
    // (2,2): right A, up C, down A. A wins with six votes.
    let mut expected = vec![A; 16];
    // C is a region of one pixel: left D, right A, up A, down D. D and A tie with
    // two votes each, and D was voted for first.
    expected[6] = D;
    assert_eq!(out.pixels, expected);
}

#[test]
fn the_donor_alpha_is_taken_too() {
    let donor = Pixel { r: 255, g: 0, b: 0, a: 40 };
    let small = Pixel { r: 0, g: 0, b: 255, a: 200 };
    let g = grid(3, &[&[donor, donor, donor], &[donor, small, donor], &[donor, donor, donor]]);
    let out = remove_small_regions(&g, 5);
    assert_eq!(out.pixels, vec![donor; 9]);
}

#[test]
fn three_by_three_block_takes_the_surrounding_colour() {
    let first = Pixel { r: 255, g: 0, b: 0, a: 200 };
    let second = Pixel { r: 0, g: 0, b: 255, a: 77 };
    let mut pixels = vec![first; 81];
    for y in 3..6 {
        for x in 3..6 {
            pixels[y * 9 + x] = second;
        }
    }
    let g = PixelGrid::new(9, 9, pixels).unwrap();
    let labeling = label_regions(&g);
    assert_eq!(labeling.sizes[labeling.labels[40] - 1], 9);
    assert_eq!(labeling.sizes[labeling.labels[0] - 1], 72);
    let out = consolidate(&g, &labeling, 10);
    assert_eq!(out.pixels, vec![first; 81]);
    let kept = consolidate(&g, &labeling, 9);
    assert_eq!(kept.pixels, g.pixels);
}

#[test]
fn a_uniform_grid_has_nothing_to_vote_and_stays() {
    let g = grid(4, &[&[C, C, C, C], &[C, C, C, C], &[C, C, C, C]]);
    let labeling = label_regions(&g);
    assert_eq!(labeling.sizes[labeling.labels[0] - 1], 12);
    let out = consolidate(&g, &labeling, 1000);
    assert_eq!(out.pixels, g.pixels);
    assert_eq!(out.width, 4);
    assert_eq!(out.height, 3);
}

#[test]
fn only_one_pass_is_made() {
    // B borders the large region A and the lone C; C borders B alone. B looks left
    // first and takes A. C can only take the colour that B had, so a region of one
    // pixel is left over: a second pass would be needed to remove it.
    let g = grid(7, &[&[A, A, A, A, A, B, C]]);
    let out = remove_small_regions(&g, 2);
    assert_eq!(out.pixels, vec![A, A, A, A, A, A, B]);
    let again = remove_small_regions(&out, 2);
    assert_eq!(again.pixels, vec![A; 7]);
}

#[test]
fn small_regions_vote_with_their_colours_before_the_pass() {
    // Both lone pixels are small. Each takes what the other was.
    let g = grid(2, &[&[B, C]]);
    let out = remove_small_regions(&g, 5);
    assert_eq!(out.pixels, vec![C, B]);
}

#[test]
fn regions_of_one_colour_are_told_apart() {
    // Two regions of colour B, one small and one large.
    let g = grid(
        5,
        &[
            &[B, A, A, A, A],
            &[A, A, B, B, B],
            &[A, A, B, B, B],
        ],
    );
    let out = remove_small_regions(&g, 3);
    let mut expected = g.pixels.clone();
    expected[0] = A;
    assert_eq!(out.pixels, expected);
}

#[test]
fn every_colour_after_consolidation_was_there_before() {
    let rows: [&[Pixel]; 4] = [
        &[A, B, C, D, A],
        &[B, B, C, A, A],
        &[C, D, D, A, B],
        &[A, A, C, B, B],
    ];
    let g = grid(5, &rows);
    let before = flat(&rows);
    for threshold in 0..8 {
        let out = remove_small_regions(&g, threshold);
        assert_eq!(out.pixels.len(), before.len());
        for p in &out.pixels {
            assert!(before.contains(p));
        }
    }
}

#[test]
fn empty_grid_consolidates_to_itself() {
    let g = PixelGrid::new(3, 0, Vec::new()).unwrap();
    let out = remove_small_regions(&g, 10);
    assert_eq!(out.width, 3);
    assert_eq!(out.height, 0);
    assert!(out.pixels.is_empty());
}
