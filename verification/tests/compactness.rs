use simple_clustering::{slic, snic, Lab};

const WIDTH: usize = 60;
const HEIGHT: usize = 40;

// Lightness rises from left to right, a little faster in lower rows.
fn gradient() -> Vec<Lab> {
    let mut image = Vec::with_capacity(WIDTH * HEIGHT);
    for y in 0..HEIGHT {
        for x in 0..WIDTH {
            image.push(Lab { l: (x * (140 + y)) as i16, a: 0, b: 0 });
        }
    }
    image
}

// Mean squared distance of the pixels from the centre of their region,
// in position (`.0`) and in lightness (`.1`).
fn spread(labels: &[usize], image: &[Lab]) -> (f64, f64) {
    let regions = 1 + *labels.iter().max().unwrap();
    let mut sums = vec![(0.0f64, 0.0f64, 0.0f64, 0.0f64); regions];
    for (i, &label) in labels.iter().enumerate() {
        let sum = &mut sums[label];
        sum.0 += (i % WIDTH) as f64;
        sum.1 += (i / WIDTH) as f64;
        sum.2 += f64::from(image[i].l);
        sum.3 += 1.0;
    }
    let mut position = 0.0;
    let mut lightness = 0.0;
    for (i, &label) in labels.iter().enumerate() {
        let sum = sums[label];
        let dx = (i % WIDTH) as f64 - sum.0 / sum.3;
        let dy = (i / WIDTH) as f64 - sum.1 / sum.3;
        let dl = f64::from(image[i].l) - sum.2 / sum.3;
        position += dx * dx + dy * dy;
        lightness += dl * dl;
    }
    (position / labels.len() as f64, lightness / labels.len() as f64)
}

#[test]
fn higher_compactness_trades_colour_for_shape_in_snic() {
    let image = gradient();
    let loose = spread(&snic(24, 1, WIDTH as u32, HEIGHT as u32, &image).unwrap(), &image);
    let tight = spread(&snic(24, 20, WIDTH as u32, HEIGHT as u32, &image).unwrap(), &image);
    assert!(tight.0 < loose.0);
    assert!(tight.1 > loose.1);
}

#[test]
fn higher_compactness_trades_colour_for_shape_in_slic() {
    let image = gradient();
    let loose = spread(&slic(24, 1, WIDTH as u32, HEIGHT as u32, None, &image).unwrap(), &image);
    let tight = spread(&slic(24, 20, WIDTH as u32, HEIGHT as u32, None, &image).unwrap(), &image);
    assert!(tight.0 < loose.0);
    assert!(tight.1 > loose.1);
}
