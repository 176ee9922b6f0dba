use simple_clustering::image::count_colors;
use simple_clustering::{slic, snic, Lab};

const WIDTH: usize = 64;
const HEIGHT: usize = 48;

// A picture of four flat quarters with a little noise on top.
fn picture() -> Vec<Lab> {
    let mut state: u32 = 12345;
    let mut image = Vec::with_capacity(WIDTH * HEIGHT);
    for y in 0..HEIGHT {
        for x in 0..WIDTH {
            state = state.wrapping_mul(1_103_515_245).wrapping_add(12_345);
            let noise = ((state >> 16) % 200) as i16 - 100;
            let (l, a, b) = match (x < WIDTH / 2, y < HEIGHT / 2) {
                (true, true) => (2000, -3000, 1000),
                (false, true) => (8000, 4000, -2000),
                (true, false) => (5000, 0, 6000),
                (false, false) => (9500, -500, -6000),
            };
            image.push(Lab { l: l + noise, a: a + noise, b: b - noise });
        }
    }
    image
}

fn has_twin(labels: &[usize], x: usize, y: usize) -> bool {
    let own = labels[y * WIDTH + x];
    (x > 0 && labels[y * WIDTH + x - 1] == own)
        || (y > 0 && labels[(y - 1) * WIDTH + x] == own)
        || (x + 1 < WIDTH && labels[y * WIDTH + x + 1] == own)
        || (y + 1 < HEIGHT && labels[(y + 1) * WIDTH + x] == own)
}

#[test]
fn snic_on_a_noisy_picture() {
    let image = picture();
    let labels = snic(20, 10, WIDTH as u32, HEIGHT as u32, &image).unwrap();
    assert_eq!(labels.len(), WIDTH * HEIGHT);
    // the grid interval is 12: five seeds by four
    assert!(labels.iter().all(|&l| (1..=20).contains(&l)));
    assert_eq!(count_colors(&labels), 20);
    for y in 0..HEIGHT {
        for x in 0..WIDTH {
            assert!(has_twin(&labels, x, y));
        }
    }
    assert_eq!(labels, snic(20, 10, WIDTH as u32, HEIGHT as u32, &image).unwrap());
}

#[test]
fn slic_on_a_noisy_picture() {
    let image = picture();
    let labels = slic(20, 10, WIDTH as u32, HEIGHT as u32, None, &image).unwrap();
    assert_eq!(labels.len(), WIDTH * HEIGHT);
    let regions = 1 + *labels.iter().max().unwrap();
    assert!(regions <= WIDTH * HEIGHT);
    assert_eq!(count_colors(&labels), regions);
    // no region is smaller than a quarter of the grid interval squared
    for region in 0..regions {
        assert!(labels.iter().filter(|&&l| l == region).count() > 12 * 12 / 4);
    }
    assert_eq!(labels, slic(20, 10, WIDTH as u32, HEIGHT as u32, Some(10), &image).unwrap());
}

#[test]
fn the_quarters_of_a_flat_picture_are_told_apart() {
    let mut image = Vec::with_capacity(WIDTH * HEIGHT);
    for y in 0..HEIGHT {
        for x in 0..WIDTH {
            let l = match (x < WIDTH / 2, y < HEIGHT / 2) {
                (true, true) => 1000,
                (false, true) => 4000,
                (true, false) => 7000,
                (false, false) => 10000,
            };
            image.push(Lab { l, a: 0, b: 0 });
        }
    }
    // five superpixels asked for give the grid interval 24 and with it
    // two seeds by two, one in every quarter
    for labels in [
        snic(5, 1, WIDTH as u32, HEIGHT as u32, &image).unwrap(),
        slic(5, 1, WIDTH as u32, HEIGHT as u32, None, &image).unwrap(),
    ] {
        let corners =
            [labels[0], labels[WIDTH - 1], labels[(HEIGHT - 1) * WIDTH], labels[HEIGHT * WIDTH - 1]];
        for y in 0..HEIGHT {
            for x in 0..WIDTH {
                let quarter = usize::from(x >= WIDTH / 2) + 2 * usize::from(y >= HEIGHT / 2);
                assert_eq!(labels[y * WIDTH + x], corners[quarter]);
            }
        }
        assert_eq!(count_colors(&labels), 4);
    }
}
