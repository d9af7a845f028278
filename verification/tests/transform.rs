use meter_reader::image_op::ImageOp;
use meter_reader::raster::GrayImage;
use meter_reader::transform::{apply_op, apply_ops, OpError};

fn sample() -> GrayImage {
    GrayImage::from_raw(3, 2, vec![1, 2, 3, 4, 5, 6]).unwrap()
}

#[test]
fn rotate90_turns_clockwise() {
    let out = apply_op(&sample(), ImageOp::Rotate90).unwrap();
    assert_eq!((out.width(), out.height()), (2, 3));
    assert_eq!(out.into_raw(), vec![4, 1, 5, 2, 6, 3]);
}

#[test]
fn rotate180_reverses_the_rows() {
    let out = apply_op(&sample(), ImageOp::Rotate180).unwrap();
    assert_eq!((out.width(), out.height()), (3, 2));
    assert_eq!(out.into_raw(), vec![6, 5, 4, 3, 2, 1]);
}

#[test]
fn flip_horizontal_mirrors_each_row() {
    let out = apply_op(&sample(), ImageOp::FlipHorizontal).unwrap();
    assert_eq!((out.width(), out.height()), (3, 2));
    assert_eq!(out.into_raw(), vec![3, 2, 1, 6, 5, 4]);
}

#[test]
fn flip_vertical_exchanges_the_rows() {
    let out = apply_op(&sample(), ImageOp::FlipVertical).unwrap();
    assert_eq!((out.width(), out.height()), (3, 2));
    assert_eq!(out.into_raw(), vec![4, 5, 6, 1, 2, 3]);
}

#[test]
fn crop_cuts_out_a_window() {
    let out = apply_op(&sample(), ImageOp::Crop { x: 1, y: 0, w: 2, h: 2 }).unwrap();
    assert_eq!((out.width(), out.height()), (2, 2));
    assert_eq!(out.into_raw(), vec![2, 3, 5, 6]);
}

#[test]
fn crop_of_nothing_is_empty() {
    let out = apply_op(&sample(), ImageOp::Crop { x: 3, y: 2, w: 0, h: 0 }).unwrap();
    assert_eq!((out.width(), out.height()), (0, 0));
    assert_eq!(out.into_raw(), Vec::<u8>::new());
}

#[test]
fn crop_beyond_the_picture_is_refused() {
    let picture = GrayImage::from_raw(640, 480, vec![0; 640 * 480]).unwrap();
    let out = apply_op(&picture, ImageOp::Crop { x: 0, y: 0, w: 1000, h: 1000 });
    assert_eq!(out.err(), Some(OpError::CropOutOfBounds { width: 640, height: 480 }));
}

#[test]
fn a_crop_from_the_command_line_beyond_the_picture_is_refused() {
    let op: ImageOp = "crop:0:0:1000:1000".parse().unwrap();
    let mut picture = GrayImage::from_raw(640, 480, vec![7; 640 * 480]).unwrap();
    assert_eq!(
        apply_ops(&mut picture, &[op]),
        Err(OpError::CropOutOfBounds { width: 640, height: 480 })
    );
    assert_eq!((picture.width(), picture.height()), (640, 480));
}

#[test]
fn a_crop_up_to_the_edge_is_applied() {
    let mut picture = GrayImage::from_raw(640, 480, vec![7; 640 * 480]).unwrap();
    let op: ImageOp = "crop:140:80:500:400".parse().unwrap();
    assert_eq!(apply_ops(&mut picture, &[op]), Ok(()));
    assert_eq!((picture.width(), picture.height()), (500, 400));
}

#[test]
fn turning_four_times_brings_the_picture_back() {
    let mut picture = sample();
    assert_eq!(apply_ops(&mut picture, &[ImageOp::Rotate90; 4]), Ok(()));
    assert_eq!(picture.into_raw(), sample().into_raw());
}

#[test]
fn two_quarter_turns_are_a_half_turn() {
    let mut twice = sample();
    assert_eq!(apply_ops(&mut twice, &[ImageOp::Rotate90, ImageOp::Rotate90]), Ok(()));
    let half = apply_op(&sample(), ImageOp::Rotate180).unwrap();
    assert_eq!(twice.into_raw(), half.into_raw());
}

#[test]
fn mirroring_both_ways_is_a_half_turn() {
    let mut both = sample();
    let ops = [ImageOp::FlipHorizontal, ImageOp::FlipVertical];
    assert_eq!(apply_ops(&mut both, &ops), Ok(()));
    let half = apply_op(&sample(), ImageOp::Rotate180).unwrap();
    assert_eq!(both.into_raw(), half.into_raw());
}

#[test]
fn crop_with_a_sum_beyond_32_bits_is_refused() {
    let out = apply_op(&sample(), ImageOp::Crop { x: u32::MAX, y: 0, w: 2, h: 1 });
    assert_eq!(out.err(), Some(OpError::CropOutOfBounds { width: 3, height: 2 }));
}

#[test]
fn operations_apply_in_order() {
    let mut picture = sample();
    let ops = [ImageOp::Rotate90, ImageOp::Crop { x: 0, y: 1, w: 2, h: 2 }, ImageOp::FlipHorizontal];
    assert_eq!(apply_ops(&mut picture, &ops), Ok(()));
    assert_eq!((picture.width(), picture.height()), (2, 2));
    assert_eq!(picture.into_raw(), vec![2, 5, 3, 6]);
}

#[test]
fn a_failing_operation_keeps_what_was_done_before() {
    let mut picture = sample();
    let ops = [ImageOp::Rotate180, ImageOp::Crop { x: 2, y: 0, w: 2, h: 1 }, ImageOp::Rotate90];
    assert_eq!(
        apply_ops(&mut picture, &ops),
        Err(OpError::CropOutOfBounds { width: 3, height: 2 })
    );
    assert_eq!(picture.into_raw(), vec![6, 5, 4, 3, 2, 1]);
}

#[test]
fn no_operation_changes_nothing() {
    let mut picture = sample();
    assert_eq!(apply_ops(&mut picture, &[]), Ok(()));
    assert_eq!(picture.into_raw(), vec![1, 2, 3, 4, 5, 6]);
}

fn scrambled(width: u32, height: u32, seed: u32) -> GrayImage {
    let mut state = seed;
    let mut pixels = Vec::new();
    for _ in 0..width * height {
        state = state.wrapping_mul(1664525).wrapping_add(1013904223);
        pixels.push((state >> 24) as u8);
    }
    GrayImage::from_raw(width, height, pixels).unwrap()
}

#[test]
fn every_pixel_of_a_quarter_turn_comes_from_its_place() {
    for (w, h) in [(1u32, 1u32), (5, 3), (3, 5), (1, 7), (7, 1)] {
        let img = scrambled(w, h, w * 31 + h);
        let out = apply_op(&img, ImageOp::Rotate90).unwrap();
        assert_eq!((out.width(), out.height()), (h, w));
        for y in 0..w {
            for x in 0..h {
                assert_eq!(out.get_pixel(x, y), img.get_pixel(y, h - 1 - x));
            }
        }
    }
}

#[test]
fn every_pixel_of_a_half_turn_comes_from_its_place() {
    for (w, h) in [(1u32, 1u32), (5, 3), (3, 5)] {
        let img = scrambled(w, h, w * 37 + h);
        let out = apply_op(&img, ImageOp::Rotate180).unwrap();
        assert_eq!((out.width(), out.height()), (w, h));
        for y in 0..h {
            for x in 0..w {
                assert_eq!(out.get_pixel(x, y), img.get_pixel(w - 1 - x, h - 1 - y));
            }
        }
    }
}

#[test]
fn every_pixel_of_a_mirror_image_comes_from_its_place() {
    for (w, h) in [(1u32, 1u32), (5, 3), (3, 5)] {
        let img = scrambled(w, h, w * 41 + h);
        let across = apply_op(&img, ImageOp::FlipHorizontal).unwrap();
        let down = apply_op(&img, ImageOp::FlipVertical).unwrap();
        assert_eq!((across.width(), across.height()), (w, h));
        assert_eq!((down.width(), down.height()), (w, h));
        for y in 0..h {
            for x in 0..w {
                assert_eq!(across.get_pixel(x, y), img.get_pixel(w - 1 - x, y));
                assert_eq!(down.get_pixel(x, y), img.get_pixel(x, h - 1 - y));
            }
        }
    }
}

#[test]
fn every_pixel_of_a_crop_comes_from_its_place() {
    let img = scrambled(9, 7, 5);
    for (x0, y0, w, h) in [(0u32, 0u32, 9u32, 7u32), (2, 1, 4, 5), (8, 6, 1, 1), (3, 0, 6, 2)] {
        let out = apply_op(&img, ImageOp::Crop { x: x0, y: y0, w, h }).unwrap();
        assert_eq!((out.width(), out.height()), (w, h));
        for j in 0..h {
            for i in 0..w {
                assert_eq!(out.get_pixel(i, j), img.get_pixel(x0 + i, y0 + j));
            }
        }
    }
}

#[test]
fn pictures_without_pixels_can_be_turned() {
    let flat = GrayImage::from_raw(0, 4, vec![]).unwrap();
    let out = apply_op(&flat, ImageOp::Rotate90).unwrap();
    assert_eq!((out.width(), out.height()), (4, 0));
    let out = apply_op(&flat, ImageOp::FlipHorizontal).unwrap();
    assert_eq!((out.width(), out.height()), (0, 4));
}
