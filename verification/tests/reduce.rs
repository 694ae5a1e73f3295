use color_reducer::{ColorReducer, Pixel, PixelGrid, ReduceError};
use image::{DynamicImage, GrayImage, Luma, Rgb, RgbImage, Rgba, RgbaImage};

fn rgba_image(width: u32, height: u32, pixel: [u8; 4]) -> RgbaImage {
    RgbaImage::from_pixel(width, height, Rgba(pixel))
}

#[test]
fn empty_palette_is_an_error() {
    let reducer = ColorReducer::new(Vec::new(), 10);
    for (w, h) in [(0u32, 0u32), (1, 1), (3, 2), (16, 16)] {
        let img = DynamicImage::ImageRgba8(rgba_image(w, h, [1, 2, 3, 4]));
        assert_eq!(reducer.reduce(&img).err(), Some(ReduceError::EmptyPalette));
        let grid = PixelGrid::new(w, h, vec![Pixel { r: 1, g: 2, b: 3, a: 4 }; (w * h) as usize])
            .unwrap();
        assert_eq!(reducer.reduce_grid(&grid).err(), Some(ReduceError::EmptyPalette));
    }
}

#[test]
fn empty_palette_error_in_words() {
    assert_eq!(ReduceError::EmptyPalette.message(), "Palette is empty");
}

#[test]
fn output_has_the_dimensions_of_the_input() {
    let reducer = ColorReducer::new(vec![[0, 0, 0], [255, 255, 255]], 4);
    for (w, h) in [(0u32, 0u32), (0, 3), (1, 1), (1, 7), (7, 1), (5, 4), (13, 11)] {
        let img = DynamicImage::ImageRgba8(RgbaImage::from_fn(w, h, |x, y| {
            Rgba([(x * 40) as u8, (y * 50) as u8, ((x + y) * 30) as u8, 255])
        }));
        let out = reducer.reduce(&img).unwrap();
        assert_eq!(out.width(), w);
        assert_eq!(out.height(), h);
        assert_eq!(out.to_rgba8().pixels().count(), (w * h) as usize);
    }
}

#[test]
fn output_colours_are_palette_colours() {
    let palette = vec![[255, 0, 0], [0, 255, 0], [0, 0, 255], [40, 40, 40]];
    let img = DynamicImage::ImageRgba8(RgbaImage::from_fn(17, 13, |x, y| {
        Rgba([(x * 15) as u8, (y * 19) as u8, ((x * y) % 256) as u8, (x + y) as u8])
    }));
    for threshold in [0usize, 1, 3, 10, 1000] {
        let out = ColorReducer::new(palette.clone(), threshold).reduce(&img).unwrap().to_rgba8();
        for p in out.pixels() {
            assert!(palette.contains(&[p[0], p[1], p[2]]));
        }
    }
}

#[test]
fn three_by_three_noise_is_replaced_alpha_included() {
    let first = [200, 30, 30];
    let second = [20, 20, 220];
    let mut buffer = rgba_image(12, 10, [200, 30, 30, 180]);
    for y in 4..7 {
        for x in 5..8 {
            buffer.put_pixel(x, y, Rgba([20, 20, 220, 90]));
        }
    }
    let img = DynamicImage::ImageRgba8(buffer);
    let out = ColorReducer::new(vec![first, second], 10).reduce(&img).unwrap().to_rgba8();
    for p in out.pixels() {
        assert_eq!(*p, Rgba([200, 30, 30, 180]));
    }
    let kept = ColorReducer::new(vec![first, second], 9).reduce(&img).unwrap().to_rgba8();
    assert_eq!(kept, img.to_rgba8());
}

#[test]
fn uniform_image_is_left_as_mapped() {
    let img = DynamicImage::ImageRgba8(rgba_image(6, 5, [250, 5, 5, 33]));
    let reducer = ColorReducer::new(vec![[255, 0, 0], [0, 0, 255]], 31);
    let out = reducer.reduce(&img).unwrap().to_rgba8();
    assert_eq!(out, rgba_image(6, 5, [255, 0, 0, 33]));
}

#[test]
fn only_one_pass_is_made_over_an_image() {
    let a = [255, 0, 0, 255];
    let b = [0, 0, 255, 255];
    let c = [0, 255, 0, 255];
    let row = [a, a, a, a, a, b, c];
    let img = DynamicImage::ImageRgba8(RgbaImage::from_fn(7, 1, |x, _| Rgba(row[x as usize])));
    let reducer = ColorReducer::new(vec![[255, 0, 0], [0, 0, 255], [0, 255, 0]], 2);
    let out = reducer.reduce(&img).unwrap();
    let expected = [a, a, a, a, a, a, b];
    let got: Vec<[u8; 4]> = out.to_rgba8().pixels().map(|p| p.0).collect();
    assert_eq!(got, expected);
    let again = reducer.reduce(&out).unwrap();
    let got: Vec<[u8; 4]> = again.to_rgba8().pixels().map(|p| p.0).collect();
    assert_eq!(got, [a; 7]);
}

#[test]
fn pixels_are_mapped_before_regions_are_formed() {
    // Two shades that map to one palette colour form one region.
    let img = DynamicImage::ImageRgba8(RgbaImage::from_fn(4, 1, |x, _| {
        if x < 2 {
            Rgba([250, 0, 0, 255])
        } else if x == 2 {
            Rgba([240, 10, 10, 255])
        } else {
            Rgba([0, 0, 250, 255])
        }
    }));
    let reducer = ColorReducer::new(vec![[255, 0, 0], [0, 0, 255]], 2);
    let got: Vec<[u8; 4]> =
        reducer.reduce(&img).unwrap().to_rgba8().pixels().map(|p| p.0).collect();
    assert_eq!(got, [[255, 0, 0, 255]; 4]);
}

#[test]
fn images_without_alpha_are_read_as_opaque() {
    let img = DynamicImage::ImageRgb8(RgbImage::from_fn(3, 2, |x, _| {
        if x == 0 {
            Rgb([10, 10, 10])
        } else {
            Rgb([240, 240, 240])
        }
    }));
    let reducer = ColorReducer::new(vec![[0, 0, 0], [255, 255, 255]], 1);
    let out = reducer.reduce(&img).unwrap();
    assert!(matches!(out, DynamicImage::ImageRgba8(_)));
    let got: Vec<[u8; 4]> = out.to_rgba8().pixels().map(|p| p.0).collect();
    let k = [0, 0, 0, 255];
    let w = [255, 255, 255, 255];
    assert_eq!(got, [k, w, w, k, w, w]);
}

#[test]
fn grey_images_are_read_as_rgba() {
    let img = DynamicImage::ImageLuma8(GrayImage::from_fn(2, 2, |x, y| {
        if x == 0 {
            Luma([y as u8])
        } else {
            Luma([255 - y as u8])
        }
    }));
    let reducer = ColorReducer::new(vec![[0, 0, 0], [255, 255, 255]], 0);
    let got: Vec<[u8; 4]> =
        reducer.reduce(&img).unwrap().to_rgba8().pixels().map(|p| p.0).collect();
    let k = [0, 0, 0, 255];
    let w = [255, 255, 255, 255];
    assert_eq!(got, [k, w, k, w]);
}

#[test]
fn image_rows_are_kept_in_order() {
    let palette = vec![[255, 0, 0], [0, 255, 0], [0, 0, 255]];
    let img = DynamicImage::ImageRgba8(RgbaImage::from_fn(3, 3, |x, y| {
        let mut p = [0, 0, 0, (10 * y + x) as u8];
        p[((x + y) % 3) as usize] = 255;
        Rgba(p)
    }));
    let out = ColorReducer::new(palette, 0).reduce(&img).unwrap().to_rgba8();
    assert_eq!(out, img.to_rgba8());
    assert_eq!(out.get_pixel(2, 1), &Rgba([255, 0, 0, 12]));
    assert_eq!(out.get_pixel(1, 2), &Rgba([255, 0, 0, 21]));
    assert_eq!(out.get_pixel(0, 2), &Rgba([0, 0, 255, 20]));
}

#[test]
fn reduce_and_reduce_grid_agree() {
    let palette = vec![[255, 0, 0], [0, 255, 0], [0, 0, 255], [255, 255, 255]];
    let buffer = RgbaImage::from_fn(9, 7, |x, y| {
        Rgba([(x * 31 % 256) as u8, (y * 47 % 256) as u8, ((x + 2 * y) * 23 % 256) as u8, 255])
    });
    let pixels: Vec<Pixel> =
        buffer.pixels().map(|p| Pixel { r: p[0], g: p[1], b: p[2], a: p[3] }).collect();
    let grid = PixelGrid::new(9, 7, pixels).unwrap();
    let reducer = ColorReducer::new(palette, 4);
    let from_grid = reducer.reduce_grid(&grid).unwrap();
    let from_image = reducer.reduce(&DynamicImage::ImageRgba8(buffer)).unwrap().to_rgba8();
    let got: Vec<Pixel> =
        from_image.pixels().map(|p| Pixel { r: p[0], g: p[1], b: p[2], a: p[3] }).collect();
    assert_eq!(from_grid.pixels, got);
    assert_eq!(from_grid.width, 9);
    assert_eq!(from_grid.height, 7);
}
