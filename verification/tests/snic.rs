use simple_clustering::error::ScError;
use simple_clustering::queue::{SnicElement, SnicQueue};
use simple_clustering::snic::{enforce_connectivity, grow, snic, snic_with, SnicUpdate};
use simple_clustering::{Lab, LabSum, Superpixel};

fn tone(l: i16) -> Lab {
    Lab { l, a: 0, b: 0 }
}

fn halves() -> Vec<Lab> {
    let mut image = Vec::new();
    for _y in 0..4 {
        for x in 0..8 {
            image.push(if x < 4 { tone(1000) } else { tone(9000) });
        }
    }
    image
}

#[test]
fn snic_update_starts_at_zero() {
    let update = SnicUpdate::new();
    assert_eq!(update.accum, LabSum { l: 0, a: 0, b: 0 });
    assert_eq!((update.x, update.y, update.count), (0, 0, 0));
    let update = SnicUpdate::default();
    assert_eq!((update.x, update.y, update.count), (0, 0, 0));
}

#[test]
fn snic_two_halves() {
    let labels = snic(2, 1, 8, 4, &halves()).unwrap();
    let expected: Vec<usize> = (0..32).map(|i| if i % 8 < 4 { 1 } else { 2 }).collect();
    assert_eq!(labels, expected);
}

#[test]
fn snic_labels_start_at_one_and_cover_the_image() {
    let image: Vec<Lab> =
        (0..60).map(|i| Lab { l: (i * 37 % 100) * 100, a: (i * 11 % 50) * 10, b: -(i % 7) * 100 }).collect();
    let labels = snic(5, 10, 10, 6, &image).unwrap();
    assert_eq!(labels.len(), 60);
    // the grid interval is 3, which gives two seeds per row and one row
    assert!(labels.iter().all(|&l| l == 1 || l == 2));
    assert!(labels.contains(&1));
    assert!(labels.contains(&2));
}

#[test]
fn snic_leaves_no_pixel_alone() {
    let image: Vec<Lab> =
        (0..60).map(|i| Lab { l: (i * 37 % 100) * 100, a: (i * 11 % 50) * 10, b: -(i % 7) * 100 }).collect();
    let labels = snic(5, 10, 10, 6, &image).unwrap();
    for y in 0..6usize {
        for x in 0..10usize {
            let own = labels[y * 10 + x];
            let mut twin = false;
            if x > 0 {
                twin |= labels[y * 10 + x - 1] == own;
            }
            if y > 0 {
                twin |= labels[(y - 1) * 10 + x] == own;
            }
            if x < 9 {
                twin |= labels[y * 10 + x + 1] == own;
            }
            if y < 5 {
                twin |= labels[(y + 1) * 10 + x] == own;
            }
            assert!(twin);
        }
    }
}

#[test]
fn snic_is_deterministic() {
    let image: Vec<Lab> =
        (0..60).map(|i| Lab { l: (i * 37 % 100) * 100, a: (i * 11 % 50) * 10, b: -(i % 7) * 100 }).collect();
    assert_eq!(snic(5, 10, 10, 6, &image).unwrap(), snic(5, 10, 10, 6, &image).unwrap());
}

#[test]
fn snic_clamps_compactness() {
    let image: Vec<Lab> =
        (0..60).map(|i| Lab { l: (i * 37 % 100) * 100, a: (i * 11 % 50) * 10, b: -(i % 7) * 100 }).collect();
    assert_eq!(snic(5, 0, 10, 6, &image).unwrap(), snic(5, 1, 10, 6, &image).unwrap());
    assert_eq!(snic(5, 99, 10, 6, &image).unwrap(), snic(5, 20, 10, 6, &image).unwrap());
}

#[test]
fn snic_one_superpixel_gives_one_label() {
    let image: Vec<Lab> = (0..16).map(|i| tone(i * 500)).collect();
    let labels = snic(1, 10, 4, 4, &image).unwrap();
    assert_eq!(labels, vec![1; 16]);
}

#[test]
fn snic_single_column_single_superpixel() {
    let image = vec![tone(0), tone(5300), tone(10000)];
    let labels = snic(1, 10, 1, 3, &image).unwrap();
    assert_eq!(labels, vec![1, 1, 1]);
}

#[test]
fn snic_thin_images_are_covered() {
    let image: Vec<Lab> = (0..10).map(|i| tone(i * 1000)).collect();
    assert_eq!(snic(1, 10, 2, 5, &image).unwrap(), vec![1; 10]);
    assert_eq!(snic(1, 10, 5, 2, &image).unwrap(), vec![1; 10]);
    assert_eq!(snic(1, 10, 1, 10, &image).unwrap(), vec![1; 10]);
    assert_eq!(snic(1, 10, 10, 1, &image).unwrap(), vec![1; 10]);
    let labels = snic(3, 10, 1, 10, &image).unwrap();
    assert!(labels.iter().all(|&l| (1..=3).contains(&l)));
}

#[test]
fn snic_one_superpixel_asked_for_gives_one() {
    let mut image = vec![tone(1000); 24];
    for pixel in image.iter_mut().skip(12) {
        *pixel = tone(9000);
    }
    assert_eq!(snic(1, 10, 3, 8, &image).unwrap(), vec![1; 24]);
    let image = vec![tone(1000); 48];
    assert_eq!(snic(1, 10, 4, 12, &image).unwrap(), vec![1; 48]);
}

#[test]
fn snic_rejects_zero_superpixels() {
    let image = vec![tone(0); 4];
    assert!(matches!(snic(0, 10, 2, 2, &image), Err(ScError::ZeroSuperpixelCount)));
}

#[test]
fn snic_rejects_empty_image() {
    let image: Vec<Lab> = Vec::new();
    assert!(matches!(snic(1, 10, 0, 2, &image), Err(ScError::InvalidImageDimension)));
    assert!(matches!(snic(1, 10, 2, 0, &image), Err(ScError::InvalidImageDimension)));
}

#[test]
fn snic_rejects_too_many_superpixels() {
    let image = vec![tone(0); 4];
    assert!(matches!(snic(4, 10, 2, 2, &image), Err(ScError::InvalidSuperpixelCount)));
}

#[test]
fn snic_rejects_mismatched_image() {
    let image = vec![tone(0); 5];
    assert!(matches!(snic(1, 10, 2, 2, &image), Err(ScError::MismatchedSnicBuffer)));
}

#[test]
fn grow_floods_from_the_seeds() {
    // a row of five pixels, dark on the left and bright on the right,
    // with one seed at each end
    let image = vec![tone(0), tone(0), tone(0), tone(9000), tone(9000)];
    let mut clusters =
        vec![Superpixel { data: tone(0), x: 0, y: 0 }, Superpixel { data: tone(9000), x: 4, y: 0 }];
    let mut updates = vec![SnicUpdate::new(), SnicUpdate::new()];
    let mut queue = SnicQueue::new();
    queue.push(SnicElement { distance: 0, k: 1, x: 0, y: 0 });
    queue.push(SnicElement { distance: 0, k: 2, x: 4, y: 0 });
    let mut labels = vec![0; 5];
    grow(10, 2, 5, 1, &image, &mut clusters, &mut updates, &mut queue, &mut labels);
    assert_eq!(labels, vec![1, 1, 1, 2, 2]);
    assert!(queue.is_empty());
    assert_eq!((updates[0].accum.l, updates[0].x, updates[0].count), (0, 3, 3));
    assert_eq!((updates[1].accum.l, updates[1].x, updates[1].count), (18000, 7, 2));
    assert_eq!((clusters[0].x, clusters[0].data), (1, tone(0)));
    assert_eq!((clusters[1].x, clusters[1].data), (3, tone(9000)));
}

#[test]
fn spot_fix_takes_the_first_neighbour() {
    let mut labels = vec![
        1, 1, 1, //
        3, 2, 4, //
        5, 5, 5,
    ];
    enforce_connectivity(3, 3, &mut labels);
    // (0, 1) has no neighbour to the west: it takes the label to the
    // north; (1, 1) then has one to the west; (2, 1) takes the one to
    // the west
    assert_eq!(labels, vec![1, 1, 1, 1, 1, 1, 5, 5, 5]);
}

#[test]
fn spot_fix_leaves_pixels_with_a_twin() {
    let mut labels = vec![
        1, 1, 2, //
        3, 3, 2, //
        4, 4, 4,
    ];
    enforce_connectivity(3, 3, &mut labels);
    assert_eq!(labels, vec![1, 1, 2, 3, 3, 2, 4, 4, 4]);
}

#[test]
fn spot_fix_goes_east_where_nothing_lies_west_or_north() {
    let mut labels = vec![1, 2];
    enforce_connectivity(2, 1, &mut labels);
    assert_eq!(labels, vec![2, 2]);
    let mut labels = vec![1, 2];
    enforce_connectivity(1, 2, &mut labels);
    assert_eq!(labels, vec![2, 2]);
}

#[test]
fn spot_fix_leaves_a_single_pixel() {
    let mut labels = vec![5];
    enforce_connectivity(1, 1, &mut labels);
    assert_eq!(labels, vec![5]);
}

#[test]
fn snic_with_works_in_the_room_given() {
    let image = vec![tone(0), tone(0), tone(0), tone(9000), tone(9000)];
    let mut clusters =
        vec![Superpixel { data: tone(0), x: 0, y: 0 }, Superpixel { data: tone(9000), x: 4, y: 0 }];
    let mut updates = vec![SnicUpdate::new(), SnicUpdate::new()];
    let mut queue = SnicQueue::new();
    let mut labels = vec![0; 5];
    snic_with(10, 2, 5, 1, &image, &mut clusters, &mut updates, &mut queue, &mut labels);
    assert_eq!(labels, vec![1, 1, 1, 2, 2]);
    assert!(queue.is_empty());
}

#[test]
fn snic_with_no_centre_leaves_every_pixel_without_a_label() {
    let image = vec![tone(0), tone(100)];
    let mut clusters = Vec::new();
    let mut updates = Vec::new();
    let mut queue = SnicQueue::new();
    let mut labels = vec![0; 2];
    snic_with(10, 1, 2, 1, &image, &mut clusters, &mut updates, &mut queue, &mut labels);
    assert_eq!(labels, vec![0, 0]);
}

#[test]
fn spot_fix_takes_up_the_pixels_that_are_held() {
    // five labels of an image of three by three pixels
    let mut labels = vec![1, 2, 1, 1, 1];
    enforce_connectivity(3, 3, &mut labels);
    assert_eq!(labels, vec![1, 1, 1, 1, 1]);
    let mut labels: Vec<usize> = Vec::new();
    enforce_connectivity(3, 3, &mut labels);
    assert!(labels.is_empty());
}
