use simple_clustering::error::ScError;
use simple_clustering::{
    calculate_grid_interval, distance_lab, distance_s, distance_xy, div_ceil, filled_after,
    floor_div, get_in_bounds, get_mut_in_bounds, holds_pixels, holds_rgb, index_in_bounds,
    try_filled, validate, Lab, Superpixel,
};

#[test]
fn div_ceil_rounds_up() {
    assert_eq!(div_ceil(7, 2), 4);
    assert_eq!(div_ceil(8, 2), 4);
    assert_eq!(div_ceil(0, 5), 0);
    assert_eq!(div_ceil(1, 5), 1);
    assert_eq!(div_ceil(u32::MAX, 1), u32::MAX);
}

#[test]
fn grid_interval_is_root_of_pixels_per_superpixel() {
    assert_eq!(calculate_grid_interval(10, 10, 4), 5);
    assert_eq!(calculate_grid_interval(100, 50, 7), 26);
    assert_eq!(calculate_grid_interval(1, 3, 1), 1);
    assert_eq!(calculate_grid_interval(4, 4, 1), 4);
    assert_eq!(calculate_grid_interval(3, 5, 1), 3);
    assert_eq!(calculate_grid_interval(2, 2, 100), 0);
    assert_eq!(calculate_grid_interval(u32::MAX, u32::MAX, 1), u64::from(u32::MAX));
}

#[test]
fn color_distance_is_sum_of_squares() {
    let a = Lab { l: 100, a: -50, b: 20 };
    let b = Lab { l: 400, a: 50, b: -20 };
    assert_eq!(distance_lab(a, b), 101_600);
    assert_eq!(distance_lab(b, a), 101_600);
    assert_eq!(distance_lab(a, a), 0);
    let low = Lab { l: i16::MIN, a: i16::MIN, b: i16::MIN };
    let high = Lab { l: i16::MAX, a: i16::MAX, b: i16::MAX };
    assert_eq!(distance_lab(low, high), 3 * 65_535 * 65_535);
}

#[test]
fn spatial_distance_is_sum_of_squares() {
    assert_eq!(distance_xy((1, 2), (4, 6)), 25);
    assert_eq!(distance_xy((4, 6), (1, 2)), 25);
    assert_eq!(distance_xy((7, 7), (7, 7)), 0);
    assert_eq!(
        distance_xy((0, 0), (u32::MAX, u32::MAX)),
        2 * u128::from(u32::MAX) * u128::from(u32::MAX)
    );
}

#[test]
fn joint_distance_weighs_space_by_compactness() {
    // 5 * 5 * 101600 + (100 * 10)^2 * 25
    assert_eq!(distance_s(10, 5, 101_600, 25), 27_540_000);
    // a larger m makes the spatial term count for more
    assert_eq!(distance_s(20, 5, 101_600, 25), 2_540_000 + 4_000_000 * 25);
    assert_eq!(distance_s(1, 1, 0, 0), 0);
    assert_eq!(distance_s(1, 2, 3, 0), 12);
    assert_eq!(distance_s(1, 2, 0, 3), 30_000);
}

#[test]
fn floor_div_rounds_down() {
    assert_eq!(floor_div(7, 2), 3);
    assert_eq!(floor_div(-7, 2), -4);
    assert_eq!(floor_div(-8, 2), -4);
    assert_eq!(floor_div(-1, 3), -1);
    assert_eq!(floor_div(0, 3), 0);
}

#[test]
fn index_in_bounds_checks_column_and_buffer() {
    assert_eq!(index_in_bounds(3, 0, 0, 9), Some(0));
    assert_eq!(index_in_bounds(3, 2, 1, 9), Some(5));
    assert_eq!(index_in_bounds(3, 2, 2, 9), Some(8));
    assert_eq!(index_in_bounds(3, 3, 0, 9), None);
    assert_eq!(index_in_bounds(3, -1, 0, 9), None);
    assert_eq!(index_in_bounds(3, 0, -1, 9), None);
    assert_eq!(index_in_bounds(3, 0, 3, 9), None);
    assert_eq!(index_in_bounds(0, 0, 0, 9), None);
    assert_eq!(index_in_bounds(i64::MAX, 5, i64::MAX, 9), None);
}

#[test]
fn get_in_bounds_reads_the_pixel() {
    let image = vec![10, 11, 12, 13, 14, 15];
    assert_eq!(get_in_bounds(3, 2, 1, 1, &image), Some(&14));
    assert_eq!(get_in_bounds(3, 2, 0, 0, &image), Some(&10));
    assert_eq!(get_in_bounds(3, 2, 3, 0, &image), None);
    assert_eq!(get_in_bounds(3, 2, 0, 2, &image), None);
    assert_eq!(get_in_bounds(3, 2, -1, 1, &image), None);
}

#[test]
fn get_mut_in_bounds_writes_the_pixel() {
    let mut image = vec![10, 11, 12, 13, 14, 15];
    *get_mut_in_bounds(3, 2, 2, 1, &mut image).unwrap() = 99;
    assert_eq!(image, vec![10, 11, 12, 13, 14, 99]);
    assert!(get_mut_in_bounds(3, 2, 3, 1, &mut image).is_none());
    assert!(get_mut_in_bounds(3, 2, 0, -1, &mut image).is_none());
    assert_eq!(image, vec![10, 11, 12, 13, 14, 99]);
}

#[test]
fn try_filled_repeats_the_value() {
    assert_eq!(try_filled(7u8, 4).unwrap(), vec![7, 7, 7, 7]);
    assert_eq!(try_filled(7u8, 0).unwrap(), Vec::<u8>::new());
}

#[test]
fn filled_after_fills_or_hands_the_error_on() {
    assert_eq!(filled_after(Ok(()), Vec::new(), 3u8, 2).unwrap(), vec![3, 3]);
    let mut huge: Vec<u64> = Vec::new();
    let failed = huge.try_reserve(usize::MAX).unwrap_err();
    assert_eq!(filled_after(Err(failed.clone()), Vec::new(), 3u8, 2), Err(failed));
}

#[test]
fn holds_pixels_wants_one_entry_per_pixel() {
    assert!(holds_pixels(2, 3, 6));
    assert!(!holds_pixels(2, 3, 5));
    assert!(!holds_pixels(2, 3, 7));
    assert!(holds_pixels(0, 3, 0));
    assert!(!holds_pixels(u32::MAX, u32::MAX, 1));
}

#[test]
fn holds_rgb_wants_three_bytes_per_pixel() {
    assert!(holds_rgb(1, 3, 9));
    assert!(!holds_rgb(1, 3, 10));
    assert!(!holds_rgb(1, 3, 11));
    assert!(!holds_rgb(1, 3, 8));
    assert!(holds_rgb(0, 3, 0));
}

#[test]
fn validate_rejects_zero_superpixels() {
    assert!(matches!(validate(0, 4, 4), Err(ScError::ZeroSuperpixelCount)));
    // the count is looked at before the dimensions
    assert!(matches!(validate(0, 0, 4), Err(ScError::ZeroSuperpixelCount)));
}

#[test]
fn validate_rejects_empty_image() {
    assert!(matches!(validate(1, 0, 4), Err(ScError::InvalidImageDimension)));
    assert!(matches!(validate(1, 4, 0), Err(ScError::InvalidImageDimension)));
    assert!(matches!(validate(1, 0, 0), Err(ScError::InvalidImageDimension)));
}

#[test]
fn validate_rejects_too_many_superpixels() {
    assert!(matches!(validate(16, 4, 4), Err(ScError::InvalidSuperpixelCount)));
    assert!(matches!(validate(17, 4, 4), Err(ScError::InvalidSuperpixelCount)));
    assert!(matches!(validate(u32::MAX, 4, 4), Err(ScError::InvalidSuperpixelCount)));
}

#[test]
fn validate_gives_the_grid_interval() {
    assert_eq!(validate(15, 4, 4).unwrap(), 1);
    assert_eq!(validate(4, 10, 10).unwrap(), 5);
    assert_eq!(validate(1, 3, 8).unwrap(), 4);
    assert_eq!(validate(1, u32::MAX, u32::MAX).unwrap(), u32::MAX);
}

#[test]
fn defaults_are_zero() {
    assert_eq!(Lab::default(), Lab { l: 0, a: 0, b: 0 });
    let superpixel: Superpixel<Lab> = Superpixel::default();
    assert_eq!(superpixel.data, Lab { l: 0, a: 0, b: 0 });
    assert_eq!((superpixel.x, superpixel.y), (0, 0));
}

#[test]
fn compactness_shifts_the_choice_towards_the_nearer_centre() {
    // one centre is nearer in colour, the other nearer in position
    let alike = |m: u8| distance_s(m, 10, 40_000, 90);
    let near = |m: u8| distance_s(m, 10, 90_000, 10);
    assert_eq!(alike(1), 4_000_000 + 900_000);
    assert_eq!(near(1), 9_000_000 + 100_000);
    // with a low compactness the colour decides, with a high one the
    // position, and the choice turns only once on the way up
    assert!(alike(1) < near(1));
    assert!(near(20) < alike(20));
    let turn = (1..=20u8).find(|&m| near(m) <= alike(m)).unwrap();
    for m in 1..=20u8 {
        assert_eq!(near(m) <= alike(m), m >= turn);
    }
}
