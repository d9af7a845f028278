use meter_reader::raster::GrayImage;
use meter_reader::sobel::{magnitude_of, sobel};

#[test]
fn roots_are_rounded_down_and_capped() {
    assert_eq!(magnitude_of(0), 0);
    assert_eq!(magnitude_of(1), 1);
    assert_eq!(magnitude_of(3), 1);
    assert_eq!(magnitude_of(4), 2);
    assert_eq!(magnitude_of(8), 2);
    assert_eq!(magnitude_of(9), 3);
    assert_eq!(magnitude_of(64515), 253);
    assert_eq!(magnitude_of(64516), 254);
    assert_eq!(magnitude_of(65024), 254);
    assert_eq!(magnitude_of(65025), 255);
    assert_eq!(magnitude_of(65026), 255);
    assert_eq!(magnitude_of(2_080_800), 255);
    assert_eq!(magnitude_of(u32::MAX), 255);
}

#[test]
fn roots_agree_with_floating_point() {
    for square in 0..70_000u32 {
        let expected = (square as f32).sqrt().min(255.0) as u8;
        assert_eq!(magnitude_of(square), expected, "{}", square);
    }
}

#[test]
fn small_pictures_stay_as_they_are() {
    for (w, h) in [(0u32, 0u32), (2, 5), (5, 2), (1, 1), (2, 2)] {
        let pixels: Vec<u8> = (0..w * h).map(|i| (i * 17) as u8).collect();
        let img = GrayImage::from_raw(w, h, pixels.clone()).unwrap();
        let out = sobel(&img);
        assert_eq!((out.width(), out.height()), (w, h));
        assert_eq!(out.into_raw(), pixels);
    }
}

#[test]
fn a_flat_picture_has_no_edges() {
    let img = GrayImage::from_raw(5, 4, vec![77; 20]).unwrap();
    let out = sobel(&img);
    assert_eq!((out.width(), out.height()), (3, 2));
    assert_eq!(out.into_raw(), vec![0; 6]);
}

#[test]
fn a_vertical_edge() {
    // Left two columns dark, right two columns a little brighter.
    let img = GrayImage::from_raw(4, 3, vec![0, 0, 10, 10, 0, 0, 10, 10, 0, 0, 10, 10]).unwrap();
    let out = sobel(&img);
    assert_eq!((out.width(), out.height()), (2, 1));
    // gx = 4 * 10 on both positions, gy = 0.
    assert_eq!(out.into_raw(), vec![40, 40]);
}

#[test]
fn a_strong_edge_is_capped() {
    let img = GrayImage::from_raw(3, 3, vec![0, 0, 255, 0, 0, 255, 0, 0, 255]).unwrap();
    assert_eq!(sobel(&img).into_raw(), vec![255]);
}

#[test]
fn a_slanted_edge_is_rounded_down() {
    // gx = 3 + 0 + 0, gy = -3 - 2 + 0: the length of (3, -5) is 5.83.
    let img = GrayImage::from_raw(3, 3, vec![0, 1, 3, 0, 0, 0, 0, 0, 0]).unwrap();
    assert_eq!(sobel(&img).into_raw(), vec![5]);
}

#[test]
fn edges_agree_with_the_floating_point_formula() {
    let (w, h) = (9u32, 7u32);
    let mut state = 12345u32;
    let mut pixels = Vec::new();
    for _ in 0..w * h {
        state = state.wrapping_mul(1664525).wrapping_add(1013904223);
        pixels.push((state >> 24) as u8);
    }
    let img = GrayImage::from_raw(w, h, pixels).unwrap();
    let out = sobel(&img);
    assert_eq!((out.width(), out.height()), (w - 2, h - 2));
    for y in 0..h - 2 {
        for x in 0..w - 2 {
            let p = |dx: u32, dy: u32| img.get_pixel(x + dx, y + dy) as i32;
            let gx = (p(2, 0) - p(0, 0)) + 2 * (p(2, 1) - p(0, 1)) + (p(2, 2) - p(0, 2));
            let gy = (p(0, 2) - p(0, 0)) + 2 * (p(1, 2) - p(1, 0)) + (p(2, 2) - p(2, 0));
            let mag = ((gx * gx + gy * gy) as f32).sqrt().min(255.0);
            assert_eq!(out.get_pixel(x, y), mag as u8);
        }
    }
}
