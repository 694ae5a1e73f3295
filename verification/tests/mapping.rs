use color_reducer::mapper::{first_minimum, map_colors, map_pixel, nearest_color};
use color_reducer::{Pixel, PixelGrid};

fn px(r: u8, g: u8, b: u8, a: u8) -> Pixel {
    Pixel { r, g, b, a }
}

#[test]
fn first_minimum_takes_the_smallest_key() {
    assert_eq!(first_minimum(&vec![9, 4, 7]), 1);
    assert_eq!(first_minimum(&vec![3]), 0);
    assert_eq!(first_minimum(&vec![8, 7, 6, 5]), 3);
}

#[test]
fn first_minimum_takes_the_first_of_equal_keys() {
    assert_eq!(first_minimum(&vec![5, 3, 3, 7, 3]), 1);
    assert_eq!(first_minimum(&vec![0, 0]), 0);
    assert_eq!(first_minimum(&vec![u32::MAX, u32::MAX, u32::MAX]), 0);
}

#[test]
fn nearest_color_takes_the_entry_with_the_first_smallest_key() {
    let palette = vec![[1, 2, 3], [4, 5, 6], [7, 8, 9]];
    let pixel = px(100, 100, 100, 42);
    assert_eq!(nearest_color(pixel, &palette, &vec![10, 2, 2]), px(4, 5, 6, 42));
    assert_eq!(nearest_color(pixel, &palette, &vec![10, 20, 5]), px(7, 8, 9, 42));
    assert_eq!(nearest_color(pixel, &palette, &vec![1, 1, 1]), px(1, 2, 3, 42));
}

#[test]
fn nearest_color_with_empty_palette_returns_the_pixel() {
    let pixel = px(9, 8, 7, 6);
    assert_eq!(nearest_color(pixel, &Vec::new(), &Vec::new()), pixel);
}

#[test]
fn map_pixel_with_empty_palette_returns_the_pixel() {
    let pixel = px(9, 8, 7, 6);
    assert_eq!(map_pixel(pixel, &Vec::new()), pixel);
}

#[test]
fn palette_colours_map_to_themselves() {
    let palette = vec![[255, 0, 0], [0, 255, 0], [0, 0, 255], [0, 0, 0], [255, 255, 255]];
    for entry in &palette {
        let pixel = px(entry[0], entry[1], entry[2], 17);
        assert_eq!(map_pixel(pixel, &palette), pixel);
    }
}

#[test]
fn map_pixel_takes_the_nearest_entry_and_keeps_alpha() {
    let palette = vec![[255, 0, 0], [0, 0, 255]];
    assert_eq!(map_pixel(px(250, 10, 10, 3), &palette), px(255, 0, 0, 3));
    assert_eq!(map_pixel(px(10, 10, 200, 250), &palette), px(0, 0, 255, 250));
    assert_eq!(map_pixel(px(10, 10, 200, 0), &palette), px(0, 0, 255, 0));
}

#[test]
fn map_pixel_measures_in_lab_and_not_in_rgb() {
    // In RGB this grey is nearer to black (122 against 133 on every channel); its
    // lightness L* is a little above 51, so in L*a*b* it is nearer to white.
    let palette = vec![[0, 0, 0], [255, 255, 255]];
    assert_eq!(map_pixel(px(122, 122, 122, 255), &palette), px(255, 255, 255, 255));
    assert_eq!(map_pixel(px(100, 100, 100, 255), &palette), px(0, 0, 0, 255));
}

#[test]
fn map_pixel_with_duplicate_entries() {
    let palette = vec![[0, 0, 0], [200, 200, 200], [200, 200, 200]];
    assert_eq!(map_pixel(px(190, 190, 190, 1), &palette), px(200, 200, 200, 1));
}

#[test]
fn map_pixel_with_one_entry_always_gives_it() {
    let palette = vec![[12, 34, 56]];
    assert_eq!(map_pixel(px(255, 255, 255, 9), &palette), px(12, 34, 56, 9));
    assert_eq!(map_pixel(px(0, 0, 0, 8), &palette), px(12, 34, 56, 8));
}

#[test]
fn map_colors_maps_every_pixel_in_place() {
    let palette = vec![[255, 0, 0], [0, 0, 255]];
    let pixels = vec![
        px(255, 0, 0, 1),
        px(0, 0, 255, 2),
        px(240, 20, 20, 3),
        px(20, 20, 240, 4),
        px(0, 0, 255, 5),
        px(255, 0, 0, 6),
    ];
    let grid = PixelGrid::new(3, 2, pixels).unwrap();
    let out = map_colors(&grid, &palette);
    assert_eq!(out.width, 3);
    assert_eq!(out.height, 2);
    assert_eq!(
        out.pixels,
        vec![
            px(255, 0, 0, 1),
            px(0, 0, 255, 2),
            px(255, 0, 0, 3),
            px(0, 0, 255, 4),
            px(0, 0, 255, 5),
            px(255, 0, 0, 6),
        ]
    );
}

#[test]
fn map_colors_on_an_empty_grid() {
    let grid = PixelGrid::new(0, 5, Vec::new()).unwrap();
    let out = map_colors(&grid, &vec![[1, 2, 3]]);
    assert_eq!(out.width, 0);
    assert_eq!(out.height, 5);
    assert!(out.pixels.is_empty());
}

#[test]
fn grid_needs_width_times_height_pixels() {
    assert!(PixelGrid::new(2, 2, vec![px(0, 0, 0, 0); 4]).is_some());
    assert!(PixelGrid::new(2, 2, vec![px(0, 0, 0, 0); 3]).is_none());
    assert!(PixelGrid::new(2, 2, vec![px(0, 0, 0, 0); 5]).is_none());
    assert!(PixelGrid::new(0, 0, Vec::new()).is_some());
    assert!(PixelGrid::new(u32::MAX, u32::MAX, Vec::new()).is_none());
}

#[test]
fn pixel_at_reads_row_major() {
    let pixels: Vec<Pixel> = (0..6).map(|i| px(i, 0, 0, 0)).collect();
    let grid = PixelGrid::new(3, 2, pixels).unwrap();
    assert_eq!(grid.pixel_at(0, 0).r, 0);
    assert_eq!(grid.pixel_at(2, 0).r, 2);
    assert_eq!(grid.pixel_at(0, 1).r, 3);
    assert_eq!(grid.pixel_at(2, 1).r, 5);
}
