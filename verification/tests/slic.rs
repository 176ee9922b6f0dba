use simple_clustering::error::ScError;
use simple_clustering::seed::initial_clusters;
use simple_clustering::slic::{
    accumulate, assign, enforce_connectivity, recenter, relabel_components, run_rounds, slic,
    slic_with, SlicInfo, SlicUpdate, INFINITE_DISTANCE, UNLABELED,
};
use simple_clustering::{Lab, LabSum, Superpixel};

fn tone(l: i16) -> Lab {
    Lab { l, a: 0, b: 0 }
}

fn center(l: i16, x: u32, y: u32) -> Superpixel<Lab> {
    Superpixel { data: tone(l), x, y }
}

fn fresh_info(len: usize) -> SlicInfo<u128, usize> {
    let mut info = SlicInfo::new();
    info.distances = vec![INFINITE_DISTANCE; len];
    info.labels = vec![0; len];
    info
}

fn row_image() -> Vec<Lab> {
    vec![tone(0), tone(100), tone(200), tone(300)]
}

#[test]
fn slic_info_starts_empty() {
    let info: SlicInfo<u128, usize> = SlicInfo::new();
    assert!(info.distances.is_empty());
    assert!(info.labels.is_empty());
    let info: SlicInfo<u128, usize> = SlicInfo::default();
    assert!(info.distances.is_empty());
    assert!(info.labels.is_empty());
}

#[test]
fn slic_update_starts_at_zero() {
    let update = SlicUpdate::new();
    assert_eq!(update.data, LabSum { l: 0, a: 0, b: 0 });
    assert_eq!((update.x, update.y, update.count), (0, 0, 0));
    let update = SlicUpdate::default();
    assert_eq!((update.x, update.y, update.count), (0, 0, 0));
}

#[test]
fn assign_gives_each_pixel_the_nearest_center_in_reach() {
    let image = row_image();
    let clusters = vec![center(0, 0, 0), center(300, 3, 0)];
    let mut info = fresh_info(4);
    assign(&clusters, 1, 2, 4, 1, &image, &mut info);
    assert_eq!(info.labels, vec![0, 0, 1, 1]);
    // s * s * colour distance + (100 * m)^2 * spatial distance
    assert_eq!(info.distances, vec![0, 4 * 10_000 + 10_000, 4 * 10_000 + 10_000, 0]);
}

#[test]
fn assign_leaves_pixels_outside_every_window() {
    let image = row_image();
    let clusters = vec![center(0, 0, 0)];
    let mut info = fresh_info(4);
    assign(&clusters, 1, 1, 4, 1, &image, &mut info);
    assert_eq!(info.labels, vec![0, 0, 0, 0]);
    assert_eq!(info.distances, vec![0, INFINITE_DISTANCE, INFINITE_DISTANCE, INFINITE_DISTANCE]);
}

#[test]
fn assign_keeps_the_earlier_center_on_a_tie() {
    let image = vec![tone(0), tone(0), tone(0)];
    let clusters = vec![center(0, 0, 0), center(0, 2, 0)];
    let mut info = fresh_info(3);
    assign(&clusters, 1, 2, 3, 1, &image, &mut info);
    assert_eq!(info.labels, vec![0, 0, 1]);
    assert_eq!(info.distances, vec![0, 10_000, 0]);
}

#[test]
fn assign_never_raises_a_distance() {
    let image = row_image();
    let clusters = vec![center(0, 0, 0), center(300, 3, 0)];
    let mut info = fresh_info(4);
    info.distances = vec![5, 60_000, 40_000, INFINITE_DISTANCE];
    info.labels = vec![7, 7, 7, 7];
    let before = info.distances.clone();
    assign(&clusters, 1, 2, 4, 1, &image, &mut info);
    assert_eq!(info.distances, vec![0, 50_000, 40_000, 0]);
    assert_eq!(info.labels, vec![0, 0, 7, 1]);
    for (after, before) in info.distances.iter().zip(before.iter()) {
        assert!(after <= before);
    }
}

#[test]
fn accumulate_sums_colours_and_positions_by_label() {
    let image = row_image();
    let labels = vec![0, 0, 1, 1];
    let mut updates = vec![SlicUpdate::new(), SlicUpdate::new()];
    accumulate(4, 1, &image, &labels, &mut updates);
    assert_eq!(updates[0].data, LabSum { l: 100, a: 0, b: 0 });
    assert_eq!((updates[0].x, updates[0].y, updates[0].count), (1, 0, 2));
    assert_eq!(updates[1].data, LabSum { l: 500, a: 0, b: 0 });
    assert_eq!((updates[1].x, updates[1].y, updates[1].count), (5, 0, 2));
}

#[test]
fn accumulate_passes_over_labels_without_sums() {
    let image = row_image();
    let labels = vec![0, 3, 1, 9];
    let mut updates = vec![SlicUpdate::new(), SlicUpdate::new()];
    accumulate(4, 1, &image, &labels, &mut updates);
    assert_eq!((updates[0].data.l, updates[0].count), (0, 1));
    assert_eq!((updates[1].data.l, updates[1].x, updates[1].count), (200, 2, 1));
}

#[test]
fn recenter_moves_to_the_mean_rounded_down() {
    let mut clusters = vec![center(0, 0, 0), center(300, 3, 0), center(77, 9, 9)];
    let mut updates = vec![
        SlicUpdate { data: LabSum { l: 100, a: -7, b: 7 }, x: 1, y: 3, count: 2 },
        SlicUpdate { data: LabSum { l: 500, a: 0, b: 0 }, x: 5, y: 0, count: 2 },
        SlicUpdate::new(),
    ];
    recenter(&mut clusters, &mut updates);
    assert_eq!(clusters[0].data, Lab { l: 50, a: -4, b: 3 });
    assert_eq!((clusters[0].x, clusters[0].y), (0, 1));
    assert_eq!(clusters[1].data, tone(250));
    assert_eq!((clusters[1].x, clusters[1].y), (2, 0));
    // a superpixel without pixels stays as it is
    assert_eq!(clusters[2].data, tone(77));
    assert_eq!((clusters[2].x, clusters[2].y), (9, 9));
    for update in &updates {
        assert_eq!(update.data, LabSum { l: 0, a: 0, b: 0 });
        assert_eq!((update.x, update.y, update.count), (0, 0, 0));
    }
}

#[test]
fn one_round_assigns_and_recenters() {
    let image = row_image();
    let mut clusters = vec![center(0, 0, 0), center(300, 3, 0)];
    let mut info = fresh_info(4);
    let mut updates = vec![SlicUpdate::new(), SlicUpdate::new()];
    run_rounds(1, 1, 2, 4, 1, &image, &mut clusters, &mut info, &mut updates);
    assert_eq!(info.labels, vec![0, 0, 1, 1]);
    assert_eq!(clusters[0].data, tone(50));
    assert_eq!((clusters[0].x, clusters[0].y), (0, 0));
    assert_eq!(clusters[1].data, tone(250));
    assert_eq!((clusters[1].x, clusters[1].y), (2, 0));
}

#[test]
fn no_round_changes_nothing() {
    let image = row_image();
    let mut clusters = vec![center(0, 0, 0), center(300, 3, 0)];
    let mut info = fresh_info(4);
    let mut updates = vec![SlicUpdate::new(), SlicUpdate::new()];
    run_rounds(0, 1, 2, 4, 1, &image, &mut clusters, &mut info, &mut updates);
    assert_eq!(info.labels, vec![0, 0, 0, 0]);
    assert_eq!(info.distances, vec![INFINITE_DISTANCE; 4]);
    assert_eq!((clusters[1].x, clusters[1].data), (3, tone(300)));
}

#[test]
fn distances_are_kept_between_rounds() {
    // after the first round the centres have moved; a pixel changes
    // hands in the second round only for a strictly lower distance
    let image = row_image();
    let mut clusters = vec![center(0, 0, 0), center(300, 3, 0)];
    let mut info = fresh_info(4);
    let mut updates = vec![SlicUpdate::new(), SlicUpdate::new()];
    run_rounds(2, 1, 2, 4, 1, &image, &mut clusters, &mut info, &mut updates);
    // second round, centre 0 at (0, 0) with l = 50: pixel 0 had 0, pixel 1
    // now at 4 * 2500 + 10000 = 20000 < 50000
    // centre 1 at (2, 0) with l = 250: pixel 2 at 4 * 2500 = 10000 < 50000,
    // pixel 3 had 0; pixel 1 at 4 * 22500 + 10000 = 100000
    assert_eq!(info.labels, vec![0, 0, 1, 1]);
    assert_eq!(info.distances, vec![0, 20_000, 10_000, 0]);
}

#[test]
fn initial_clusters_are_perturbed_seeds() {
    let image = vec![tone(10); 16];
    let clusters = initial_clusters(4, 4, 4, 1, &image).unwrap();
    assert_eq!(clusters.len(), 1);
    // the seed at (2, 2) moves to the first flat spot around it
    assert_eq!((clusters[0].x, clusters[0].y), (1, 1));
    assert_eq!(clusters[0].data, tone(10));
}

#[test]
fn connectivity_gives_components_labels_in_row_order() {
    let mut labels = vec![
        5, 5, 9, 9, //
        5, 5, 9, 9, //
        5, 5, 9, 9, //
        5, 5, 9, 9,
    ];
    enforce_connectivity(4, 4, 4, &mut labels).unwrap();
    assert_eq!(labels, vec![0, 0, 1, 1, 0, 0, 1, 1, 0, 0, 1, 1, 0, 0, 1, 1]);
}

#[test]
fn connectivity_splits_a_label_that_is_not_connected() {
    let mut labels = vec![4, 8, 4];
    enforce_connectivity(3, 1, 1, &mut labels).unwrap();
    assert_eq!(labels, vec![0, 1, 2]);
}

#[test]
fn connectivity_merges_a_small_fragment_into_its_neighbour() {
    let mut labels = vec![7; 16];
    labels[15] = 2;
    enforce_connectivity(4, 4, 4, &mut labels).unwrap();
    assert_eq!(labels, vec![0; 16]);
}

#[test]
fn connectivity_keeps_a_fragment_above_the_threshold() {
    // s = 4 gives the threshold 4: five pixels are kept, four are not
    let mut labels = vec![
        7, 7, 7, 7, //
        7, 7, 7, 7, //
        7, 7, 7, 2, //
        2, 2, 2, 2,
    ];
    enforce_connectivity(4, 4, 4, &mut labels).unwrap();
    assert_eq!(labels, vec![0, 0, 0, 0, 0, 0, 0, 0, 0, 0, 0, 1, 1, 1, 1, 1]);
    let mut labels = vec![
        7, 7, 7, 7, //
        7, 7, 7, 7, //
        7, 7, 7, 7, //
        2, 2, 2, 2,
    ];
    enforce_connectivity(4, 4, 4, &mut labels).unwrap();
    assert_eq!(labels, vec![0; 16]);
}

#[test]
fn connectivity_takes_the_neighbour_seen_last() {
    // the fragment of two pixels in the lower row is searched out from
    // (1, 1), where the component 0 lies to the west and to the north,
    // and then from (2, 1), where the component 0 lies to the north and
    // the component 1 to the east: that one is seen last
    let mut labels = vec![
        1, 1, 1, 2, 2, //
        1, 9, 9, 2, 2,
    ];
    // s = 3 gives the threshold 2
    enforce_connectivity(5, 2, 3, &mut labels).unwrap();
    assert_eq!(labels, vec![0, 0, 0, 1, 1, 0, 1, 1, 1, 1]);
}

#[test]
fn connectivity_sees_no_neighbour_that_has_no_label_yet() {
    let mut labels = vec![
        3, 3, 3, 3, 3, 3, 3, 3, //
        4, 9, 9, 5, 5, 5, 5, 5,
    ];
    enforce_connectivity(8, 2, 3, &mut labels).unwrap();
    assert_eq!(labels, vec![0, 0, 0, 0, 0, 0, 0, 0, 0, 0, 0, 1, 1, 1, 1, 1]);
}

#[test]
fn connectivity_leaves_no_pixel_without_a_label() {
    let mut labels = vec![1, 2, 3, 4, 5, 6, 7, 8, 9];
    enforce_connectivity(3, 3, 2, &mut labels).unwrap();
    // threshold 1: every pixel is a fragment and takes a neighbour's label
    assert!(labels.iter().all(|&l| l != UNLABELED));
    assert_eq!(labels, vec![0; 9]);
}

#[test]
fn connectivity_counts_labels_up_from_zero() {
    let mut labels = vec![
        9, 9, 4, 4, //
        9, 9, 4, 4, //
        7, 7, 7, 7, //
        7, 7, 7, 7,
    ];
    // threshold 1
    enforce_connectivity(4, 4, 2, &mut labels).unwrap();
    assert_eq!(labels, vec![0, 0, 1, 1, 0, 0, 1, 1, 2, 2, 2, 2, 2, 2, 2, 2]);
    let regions = 1 + *labels.iter().max().unwrap();
    assert!(regions <= labels.len());
    assert!((0..regions).all(|region| labels.contains(&region)));
}

#[test]
fn relabel_components_works_in_the_room_given() {
    let prior = vec![4, 8, 4];
    let mut new_labels = vec![UNLABELED; 3];
    let mut queue = Vec::new();
    relabel_components(3, 1, 1, &prior, &mut new_labels, &mut queue);
    assert_eq!(new_labels, vec![0, 1, 2]);
}

#[test]
fn slic_single_column_single_superpixel() {
    let image = vec![tone(0), tone(5300), tone(10000)];
    let labels = slic(1, 10, 1, 3, None, &image).unwrap();
    assert_eq!(labels, vec![0, 0, 0]);
}

#[test]
fn slic_one_superpixel_gives_one_label() {
    let image: Vec<Lab> = (0..16).map(|i| tone(i * 500)).collect();
    let labels = slic(1, 10, 4, 4, None, &image).unwrap();
    assert_eq!(labels, vec![0; 16]);
}

#[test]
fn slic_two_halves() {
    // 8 x 4 image: left half dark, right half bright
    let mut image = Vec::new();
    for _y in 0..4 {
        for x in 0..8 {
            image.push(if x < 4 { tone(1000) } else { tone(9000) });
        }
    }
    let labels = slic(2, 1, 8, 4, Some(10), &image).unwrap();
    let expected: Vec<usize> = (0..32).map(|i| if i % 8 < 4 { 0 } else { 1 }).collect();
    assert_eq!(labels, expected);
}

#[test]
fn slic_is_deterministic() {
    let image: Vec<Lab> =
        (0..60).map(|i| Lab { l: (i * 37 % 100) * 100, a: (i * 11 % 50) * 10, b: -(i % 7) * 100 }).collect();
    let first = slic(5, 10, 10, 6, Some(3), &image).unwrap();
    let second = slic(5, 10, 10, 6, Some(3), &image).unwrap();
    assert_eq!(first.len(), 60);
    assert_eq!(first, second);
}

#[test]
fn slic_clamps_compactness() {
    let image: Vec<Lab> =
        (0..60).map(|i| Lab { l: (i * 37 % 100) * 100, a: (i * 11 % 50) * 10, b: -(i % 7) * 100 }).collect();
    assert_eq!(slic(5, 0, 10, 6, None, &image).unwrap(), slic(5, 1, 10, 6, None, &image).unwrap());
    assert_eq!(slic(5, 200, 10, 6, None, &image).unwrap(), slic(5, 20, 10, 6, None, &image).unwrap());
    assert_eq!(slic(5, 10, 10, 6, None, &image).unwrap(), slic(5, 10, 10, 6, Some(10), &image).unwrap());
}

#[test]
fn slic_rejects_zero_superpixels() {
    let image = vec![tone(0); 4];
    assert!(matches!(slic(0, 10, 2, 2, None, &image), Err(ScError::ZeroSuperpixelCount)));
    assert!(matches!(slic(0, 10, 0, 2, None, &image), Err(ScError::ZeroSuperpixelCount)));
}

#[test]
fn slic_rejects_empty_image() {
    let image: Vec<Lab> = Vec::new();
    assert!(matches!(slic(1, 10, 0, 2, None, &image), Err(ScError::InvalidImageDimension)));
    assert!(matches!(slic(1, 10, 2, 0, None, &image), Err(ScError::InvalidImageDimension)));
}

#[test]
fn slic_rejects_too_many_superpixels() {
    let image = vec![tone(0); 4];
    assert!(matches!(slic(4, 10, 2, 2, None, &image), Err(ScError::InvalidSuperpixelCount)));
    assert!(matches!(slic(5, 10, 2, 2, None, &image), Err(ScError::InvalidSuperpixelCount)));
}

#[test]
fn slic_rejects_mismatched_image() {
    let image = vec![tone(0); 5];
    assert!(matches!(slic(1, 10, 2, 2, None, &image), Err(ScError::MismatchedSlicBuffer)));
    let image = vec![tone(0); 3];
    assert!(matches!(slic(1, 10, 2, 2, None, &image), Err(ScError::MismatchedSlicBuffer)));
    // the other checks come first
    assert!(matches!(slic(9, 10, 2, 2, None, &image), Err(ScError::InvalidSuperpixelCount)));
}

#[test]
fn slic_with_works_in_the_room_given() {
    let image = row_image();
    let mut clusters = vec![center(0, 0, 0), center(300, 3, 0)];
    let mut info = fresh_info(4);
    let mut updates = vec![SlicUpdate::new(), SlicUpdate::new()];
    let mut labels = vec![UNLABELED; 4];
    let mut queue = Vec::new();
    slic_with(
        2,
        1,
        1,
        4,
        1,
        &image,
        &mut clusters,
        &mut info,
        &mut updates,
        &mut labels,
        &mut queue,
    );
    // with the grid interval 1 the first centre reaches its own pixel
    // only, the second the pixel to its left as well: in the first round
    // it takes the pixels 2 and 3 and moves to the pixel 2, in the second
    // round it takes the pixel 1, which no centre had reached before
    assert_eq!(info.labels, vec![0, 1, 1, 1]);
    assert_eq!(info.distances, vec![0, 22_500 + 10_000, 2_500, 0]);
    assert_eq!(labels, vec![0, 1, 1, 1]);
}

#[test]
fn slic_one_superpixel_asked_for_gives_one_label() {
    let image = vec![tone(1000); 48];
    assert_eq!(slic(1, 10, 4, 12, None, &image).unwrap(), vec![0; 48]);
    let mut image = vec![tone(1000); 24];
    for pixel in image.iter_mut().skip(12) {
        *pixel = tone(9000);
    }
    assert_eq!(slic(1, 10, 3, 8, None, &image).unwrap(), vec![0; 24]);
}

#[test]
fn connectivity_rejects_labels_that_do_not_fit_the_image() {
    let mut labels = vec![7; 15];
    let r = enforce_connectivity(4, 4, 4, &mut labels);
    assert!(matches!(r, Err(ScError::MismatchedSlicBuffer)));
    assert_eq!(labels, vec![7; 15]);
    let mut labels = vec![7; 17];
    let r = enforce_connectivity(4, 4, 4, &mut labels);
    assert!(matches!(r, Err(ScError::MismatchedSlicBuffer)));
    assert_eq!(labels, vec![7; 17]);
}

#[test]
fn connectivity_keeps_no_label_for_a_fragment() {
    // threshold 2: the components of 1, 2 and 3 pixels in the top row
    // and the single pixel in the corner are fragments or not
    let mut labels = vec![
        5, 6, 6, 7, 7, 7, //
        9, 9, 9, 9, 9, 4,
    ];
    enforce_connectivity(6, 2, 3, &mut labels).unwrap();
    // the first two are fragments before any label was kept and get 0;
    // the three pixels keep the label 0, the row of five the label 1,
    // and the last pixel takes the label seen last, to its north
    assert_eq!(labels, vec![0, 0, 0, 0, 0, 0, 1, 1, 1, 1, 1, 0]);
    for label in 0..2 {
        assert!(labels.iter().filter(|&&l| l == label).count() > 2);
    }
}

#[test]
fn connectivity_tells_large_components_apart_and_lends_fragments_a_label() {
    // threshold 2: two components of the label 1, of nine and of four
    // pixels, a component of four pixels between them, and one pixel in
    // the corner
    let prior = vec![
        1, 1, 1, 2, 1, 1, //
        1, 1, 1, 2, 1, 1, //
        1, 1, 1, 2, 2, 3,
    ];
    let mut labels = prior.clone();
    enforce_connectivity(6, 3, 3, &mut labels).unwrap();
    assert_eq!(
        labels,
        vec![
            0, 0, 0, 1, 2, 2, //
            0, 0, 0, 1, 2, 2, //
            0, 0, 0, 1, 1, 2,
        ]
    );
    // the two components that had the label 1 do not share a label
    assert_ne!(labels[0], labels[4]);
    // the corner has the label of the pixel to its north, which belonged
    // to another component
    assert_ne!(prior[17], prior[11]);
    assert_eq!(labels[17], labels[11]);
}

#[test]
fn a_fragment_at_the_first_pixel_has_no_neighbour_to_borrow_from() {
    // threshold 2: the first pixel is a component of its own and is
    // searched out before any other pixel has a label
    let mut labels = vec![
        7, 1, 1, 1, //
        1, 1, 1, 1,
    ];
    enforce_connectivity(4, 2, 3, &mut labels).unwrap();
    assert_eq!(labels, vec![0; 8]);
}
