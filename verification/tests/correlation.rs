use meter_reader::correlation::{
    canvas, column_score, energy_of, needle_stats, placement_count, NeedleStats, PaddedSize,
};
use meter_reader::integral::IntegralTables;
use meter_reader::locator::SCORE_ONE;
use meter_reader::raster::GrayImage;

#[test]
fn a_one_pixel_needle_on_a_row_of_three() {
    let haystack = GrayImage::from_raw(3, 1, vec![10, 20, 30]).unwrap();
    let needle = GrayImage::from_raw(1, 1, vec![1]).unwrap();
    let size = PaddedSize::new(3, 1, 1, 1).unwrap();
    assert_eq!(size, PaddedSize { width: 4, height: 2 });
    assert_eq!(canvas(&haystack, size), vec![10, 20, 30, 0, 0, 0, 0, 0]);
    assert_eq!(canvas(&needle, size), vec![1, 0, 0, 0, 0, 0, 0, 0]);

    // One pixel has no spread, and neither has any window of one pixel.
    let stats = needle_stats(&needle).unwrap();
    assert_eq!(energy_of(stats.pixel_count, stats.sum, stats.sum_sq), 0);
    let tables = IntegralTables::new(&haystack).unwrap();
    for x in 0..3 {
        assert_eq!(tables.window_energy(x, 0, 1, 1), 0);
    }

    // Two columns count, and no row: every column score is that of an empty column.
    let columns = placement_count(haystack.width(), needle.width());
    let rows = placement_count(haystack.height(), needle.height());
    assert_eq!((columns, rows), (2, 0));
    let scores: Vec<u32> = (0..columns).map(|_| column_score(&vec![])).collect();
    assert_eq!(scores, vec![0, 0]);
}

#[test]
fn the_canvas_is_the_sum_of_both_sizes() {
    assert_eq!(PaddedSize::new(640, 480, 30, 50), Some(PaddedSize { width: 670, height: 530 }));
    assert_eq!(PaddedSize::new(0, 0, 0, 0), Some(PaddedSize { width: 0, height: 0 }));
    let size = PaddedSize::new(640, 480, 30, 50).unwrap();
    assert_eq!(size.len(), 670 * 530);
    assert_eq!(size.index(0, 0), 0);
    assert_eq!(size.index(669, 0), 669);
    assert_eq!(size.index(0, 1), 670);
    assert_eq!(size.index(669, 529), 670 * 530 - 1);
}

#[test]
fn a_canvas_too_large_to_count_is_refused() {
    let largest = PaddedSize::new(u32::MAX, u32::MAX, u32::MAX, u32::MAX);
    if usize::BITS > 66 {
        assert!(largest.is_some());
    } else {
        assert_eq!(largest, None);
    }
}

#[test]
fn the_picture_sits_in_the_top_left_corner() {
    let picture = GrayImage::from_raw(2, 2, vec![1, 2, 3, 4]).unwrap();
    let cells = canvas(&picture, PaddedSize { width: 3, height: 3 });
    assert_eq!(cells, vec![1, 2, 0, 3, 4, 0, 0, 0, 0]);
}

#[test]
fn what_does_not_fit_the_canvas_is_left_out() {
    let picture = GrayImage::from_raw(3, 2, vec![1, 2, 3, 4, 5, 6]).unwrap();
    assert_eq!(canvas(&picture, PaddedSize { width: 2, height: 3 }), vec![1, 2, 4, 5, 0, 0]);
    assert_eq!(canvas(&picture, PaddedSize { width: 0, height: 5 }), Vec::<u8>::new());
}

#[test]
fn placements_leave_the_last_full_overlap_out() {
    assert_eq!(placement_count(6, 2), 4);
    assert_eq!(placement_count(3, 1), 2);
    assert_eq!(placement_count(5, 5), 0);
    assert_eq!(placement_count(5, 6), 0);
    assert_eq!(placement_count(0, 0), 0);
    assert_eq!(placement_count(u32::MAX, 0), u32::MAX as usize);
}

#[test]
fn energy_is_count_times_squares_less_square_of_sum() {
    // 5, 9: mean 7, squared distances 4 + 4, times 2.
    assert_eq!(energy_of(2, 14, 106), 16);
    assert_eq!(energy_of(0, 0, 0), 0);
    assert_eq!(energy_of(4, 40, 400), 0);
    assert_eq!(energy_of(1, 255, 65025), 0);
    // Sums that belong to no numbers count as nothing.
    assert_eq!(energy_of(1, 10, 1), 0);
    assert_eq!(
        energy_of(u64::MAX, 0, u64::MAX),
        (u64::MAX as u128) * (u64::MAX as u128)
    );
}

#[test]
fn statistics_of_a_block() {
    let needle = GrayImage::from_raw(2, 3, vec![5, 5, 9, 9, 5, 5]).unwrap();
    assert_eq!(
        needle_stats(&needle),
        Some(NeedleStats { width: 2, height: 3, pixel_count: 6, sum: 38, sum_sq: 262 })
    );
    // 6 * 262 - 38 * 38
    assert_eq!(energy_of(6, 38, 262), 128);
}

#[test]
fn a_window_like_the_needle_has_its_energy() {
    // The block stands at x = 2 in a picture that is dark elsewhere.
    let haystack = GrayImage::from_raw(
        6,
        3,
        vec![0, 0, 5, 5, 0, 0, 0, 0, 9, 9, 0, 0, 0, 0, 5, 5, 0, 0],
    )
    .unwrap();
    let tables = IntegralTables::new(&haystack).unwrap();
    assert_eq!(tables.window_energy(2, 0, 2, 3), 128);
    assert_eq!(tables.window_energy(0, 0, 2, 3), 0);
    assert_eq!(tables.window_energy(1, 0, 2, 3), 6 * 131 - 19 * 19);
    assert_eq!(placement_count(haystack.width(), 2), 4);
}

#[test]
fn window_energy_is_never_cut_off() {
    let mut state = 99u32;
    let mut pixels = Vec::new();
    for _ in 0..8 * 6 {
        state = state.wrapping_mul(1664525).wrapping_add(1013904223);
        pixels.push((state >> 24) as u8);
    }
    let img = GrayImage::from_raw(8, 6, pixels).unwrap();
    let tables = IntegralTables::new(&img).unwrap();
    for y in 0..6usize {
        for x in 0..8usize {
            for h in 0..=(6 - y) {
                for w in 0..=(8 - x) {
                    let (sum, sum_sq) = tables.get_window_stats(x, y, w, h);
                    let n = (w * h) as i128;
                    let exact = n * sum_sq as i128 - (sum as i128) * (sum as i128);
                    assert!(exact >= 0);
                    assert_eq!(tables.window_energy(x, y, w, h), exact as u128);
                }
            }
        }
    }
}

#[test]
fn a_column_score_is_its_strongest_score() {
    assert_eq!(column_score(&vec![]), 0);
    assert_eq!(column_score(&vec![-5, -1_000_000]), 0);
    assert_eq!(column_score(&vec![100, 900_000, 899_999]), 900_000);
    assert_eq!(column_score(&vec![0, 0, 0]), 0);
    assert_eq!(column_score(&vec![-3, 7, -9]), 7);
    assert_eq!(column_score(&vec![1_000_000]), SCORE_ONE);
}

#[test]
fn a_column_score_is_at_most_a_perfect_match() {
    assert_eq!(column_score(&vec![1_000_001, 5]), SCORE_ONE);
    assert_eq!(column_score(&vec![5, i32::MAX]), SCORE_ONE);
    assert_eq!(column_score(&vec![i32::MIN]), 0);
}
