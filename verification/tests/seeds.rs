use simple_clustering::error::{ScError, SeedErrorKind};
use simple_clustering::seed::{init_seeds, perturb, place_seeds};
use simple_clustering::{Lab, Superpixel};

fn positions<T>(seeds: &[Superpixel<T>]) -> Vec<(u32, u32)> {
    seeds.iter().map(|s| (s.x, s.y)).collect()
}

fn tone(l: i16) -> Lab {
    Lab { l, a: 0, b: 0 }
}

#[test]
fn seeds_form_an_even_grid() {
    let image: Vec<usize> = (0..100).collect();
    let mut seeds = Vec::new();
    init_seeds(10, 10, 5, 4, &image, &mut seeds).unwrap();
    assert_eq!(positions(&seeds), vec![(2, 2), (7, 2), (2, 7), (7, 7)]);
    let data: Vec<usize> = seeds.iter().map(|s| s.data).collect();
    assert_eq!(data, vec![22, 27, 72, 77]);
}

#[test]
fn seeds_spread_over_the_pixels_left_over() {
    let image: Vec<usize> = (0..77).collect();
    let mut seeds = Vec::new();
    init_seeds(11, 7, 3, 6, &image, &mut seeds).unwrap();
    assert_eq!(positions(&seeds), vec![(1, 1), (4, 1), (8, 1), (1, 4), (4, 4), (8, 4)]);
    let data: Vec<usize> = seeds.iter().map(|s| s.data).collect();
    assert_eq!(data, vec![12, 15, 19, 45, 48, 52]);
}

#[test]
fn seed_counts_are_lowered_to_at_most_k() {
    let image: Vec<usize> = (0..100).collect();
    let mut seeds = Vec::new();
    init_seeds(10, 10, 2, 10, &image, &mut seeds).unwrap();
    assert_eq!(
        positions(&seeds),
        vec![(1, 1), (4, 1), (7, 1), (1, 4), (4, 4), (7, 4), (1, 7), (4, 7), (7, 7)]
    );
}

#[test]
fn a_single_column_gets_a_seed() {
    let image: Vec<usize> = (0..3).collect();
    let mut seeds = vec![Superpixel { data: 9usize, x: 9, y: 9 }];
    init_seeds(1, 3, 1, 1, &image, &mut seeds).unwrap();
    assert_eq!(positions(&seeds), vec![(0, 0)]);
    assert_eq!(seeds[0].data, 0);
}

#[test]
fn the_first_seed_sits_half_an_interval_from_the_origin() {
    let image: Vec<usize> = (0..9).collect();
    let mut seeds = Vec::new();
    init_seeds(3, 3, 4, 1, &image, &mut seeds).unwrap();
    assert_eq!(positions(&seeds), vec![(2, 2)]);
    assert_eq!(seeds[0].data, 8);
    // the interval is wider than the image, but half of it lies inside
    let image: Vec<usize> = (0..24).collect();
    init_seeds(3, 8, 4, 1, &image, &mut seeds).unwrap();
    assert_eq!(positions(&seeds), vec![(2, 2)]);
    init_seeds(3, 8, 4, 2, &image, &mut seeds).unwrap();
    assert_eq!(positions(&seeds), vec![(2, 2), (2, 6)]);
    let image: Vec<usize> = (0..18).collect();
    init_seeds(3, 6, 4, 1, &image, &mut seeds).unwrap();
    assert_eq!(positions(&seeds), vec![(2, 2)]);
    assert_eq!(seeds[0].data, 8);
}

#[test]
fn an_interval_whose_half_lies_beyond_an_axis_is_cut_to_the_axis() {
    // half of 6 lies beyond a width of 2 or 3: the width is the interval
    let image: Vec<usize> = (0..24).collect();
    let mut seeds = Vec::new();
    init_seeds(2, 12, 6, 2, &image, &mut seeds).unwrap();
    assert_eq!(positions(&seeds), vec![(1, 3), (1, 9)]);
    let image: Vec<usize> = (0..36).collect();
    init_seeds(3, 12, 6, 2, &image, &mut seeds).unwrap();
    assert_eq!(positions(&seeds), vec![(1, 3), (1, 9)]);
    // along a width of 4 half of 6 lies inside
    let image: Vec<usize> = (0..48).collect();
    init_seeds(4, 12, 6, 2, &image, &mut seeds).unwrap();
    assert_eq!(positions(&seeds), vec![(3, 3), (3, 9)]);
}

#[test]
fn no_more_seeds_than_asked_for() {
    let image: Vec<usize> = (0..48).collect();
    let mut seeds = Vec::new();
    init_seeds(4, 12, 6, 1, &image, &mut seeds).unwrap();
    assert_eq!(positions(&seeds), vec![(3, 3)]);
    // a long row: seven intervals fit, three seeds were asked for
    let image: Vec<usize> = (0..70).collect();
    init_seeds(70, 1, 10, 3, &image, &mut seeds).unwrap();
    assert_eq!(positions(&seeds), vec![(5, 0), (28, 0), (51, 0)]);
    for k in 1..30 {
        let image: Vec<usize> = (0..35 * 20).collect();
        init_seeds(35, 20, 3, k, &image, &mut seeds).unwrap();
        assert!(!seeds.is_empty());
        assert!(seeds.len() <= k as usize);
    }
}

#[test]
fn an_image_without_pixels_gets_no_seed() {
    let image: Vec<usize> = Vec::new();
    let mut seeds = vec![Superpixel { data: 9usize, x: 9, y: 9 }];
    init_seeds(0, 3, 1, 1, &image, &mut seeds).unwrap();
    assert!(seeds.is_empty());
    init_seeds(3, 0, 2, 4, &image, &mut seeds).unwrap();
    assert!(seeds.is_empty());
}

#[test]
fn seeds_beyond_a_short_buffer_are_skipped() {
    let image: Vec<usize> = (0..40).collect();
    let mut seeds = Vec::new();
    init_seeds(10, 10, 5, 4, &image, &mut seeds).unwrap();
    assert_eq!(positions(&seeds), vec![(2, 2), (7, 2)]);
}

#[test]
fn single_seed_for_a_small_square() {
    let image: Vec<usize> = (0..16).collect();
    let mut seeds = Vec::new();
    init_seeds(4, 4, 4, 1, &image, &mut seeds).unwrap();
    assert_eq!(positions(&seeds), vec![(2, 2)]);
    assert_eq!(seeds[0].data, 10);
}

#[test]
fn place_seeds_fills_the_grid_given() {
    let image: Vec<usize> = (0..100).collect();
    let mut seeds = Vec::new();
    place_seeds(Ok(()), 10, 10, 5, 2, 1, &image, &mut seeds).unwrap();
    // one row of two seeds
    assert_eq!(positions(&seeds), vec![(2, 2), (7, 2)]);
}

#[test]
fn place_seeds_hands_the_reservation_error_on() {
    let image: Vec<usize> = (0..100).collect();
    let mut seeds = Vec::new();
    let mut huge: Vec<u64> = Vec::new();
    let failed = huge.try_reserve(usize::MAX).unwrap_err();
    let r = place_seeds(Err(failed), 10, 10, 5, 2, 2, &image, &mut seeds);
    assert!(matches!(r, Err(ScError::Reserve(_))));
    assert!(seeds.is_empty());
}

#[test]
fn perturb_keeps_a_seed_at_its_flattest_spot() {
    let image = vec![tone(10); 9];
    let mut seed = Superpixel { data: tone(10), x: 1, y: 1 };
    perturb(&mut seed, 3, 3, &image).unwrap();
    assert_eq!((seed.x, seed.y), (1, 1));
    assert_eq!(seed.data, tone(10));
}

#[test]
fn perturb_moves_a_seed_off_the_border() {
    let image = vec![tone(10); 9];
    let mut seed = Superpixel { data: tone(10), x: 0, y: 0 };
    perturb(&mut seed, 3, 3, &image).unwrap();
    assert_eq!((seed.x, seed.y), (1, 1));
}

#[test]
fn perturb_takes_the_first_of_equal_gradients() {
    let image = vec![tone(0); 9];
    let mut seed = Superpixel { data: tone(0), x: 1, y: 1 };
    perturb(&mut seed, 3, 3, &image).unwrap();
    assert_eq!((seed.x, seed.y), (0, 0));
}

#[test]
fn perturb_takes_the_colour_of_the_new_spot() {
    // 5 x 5 image, flat but for one bright pixel at (2, 1): around that
    // pixel left equals right and above equals below, so its gradient
    // is 0, the first such spot in the neighbourhood of (1, 1)
    let mut image = vec![tone(100); 25];
    image[7] = tone(900);
    let mut seed = Superpixel { data: tone(100), x: 1, y: 1 };
    perturb(&mut seed, 5, 5, &image).unwrap();
    assert_eq!((seed.x, seed.y), (2, 1));
    assert_eq!(seed.data, tone(900));
}

#[test]
fn perturb_leaves_a_seed_outside_the_image() {
    let image = vec![tone(10); 9];
    let mut seed = Superpixel { data: tone(3), x: 7, y: 7 };
    perturb(&mut seed, 3, 3, &image).unwrap();
    assert_eq!((seed.x, seed.y), (7, 7));
    assert_eq!(seed.data, tone(3));
}

#[test]
fn seed_error_kinds_have_messages() {
    assert_eq!(
        SeedErrorKind::InvalidImageIndex.message(),
        "Invalid image index for seed initialization"
    );
    assert_eq!(SeedErrorKind::InvalidTotalSeeds.message(), "Total number of seeds too large");
    assert_eq!(
        SeedErrorKind::PerturbConversion.message(),
        "Could not convert integer in seed perturbation"
    );
}
