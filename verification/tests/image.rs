use simple_clustering::error::ScError;
use fxhash::FxHashMap;
use simple_clustering::image::{
    count_colors, draw_contours, fill_segments, holds_mean_buffer, segment_contours,
};

#[test]
fn count_colors_counts_each_label_once() {
    assert_eq!(count_colors(&[1, 2, 2, 3, 1]), 3);
    assert_eq!(count_colors(&[7, 7, 7]), 1);
    assert_eq!(count_colors(&[]), 0);
    assert_eq!(count_colors(&[0, usize::MAX]), 2);
}

#[test]
fn contours_follow_the_border_between_two_labels() {
    let labels = vec![
        0, 1, 1, //
        0, 1, 1, //
        0, 1, 1,
    ];
    let mut output = vec![9u8; 27];
    segment_contours(&mut output, 3, 3, &labels, [255, 0, 7]).unwrap();
    let mut expected = vec![9u8; 27];
    for pixel in [0usize, 3, 6] {
        expected[3 * pixel] = 255;
        expected[3 * pixel + 1] = 0;
        expected[3 * pixel + 2] = 7;
    }
    assert_eq!(output, expected);
}

#[test]
fn contours_leave_a_uniform_image_alone() {
    let labels = vec![4; 12];
    let mut output: Vec<u8> = (0..36).collect();
    segment_contours(&mut output, 4, 3, &labels, [1, 2, 3]).unwrap();
    assert_eq!(output, (0..36).collect::<Vec<u8>>());
}

#[test]
fn contours_need_two_neighbours_of_another_label() {
    // the single pixel of another label in the corner has three such
    // neighbours; each of them has one only, the corner, and that one
    // is painted by then
    let labels = vec![
        5, 1, 1, //
        1, 1, 1,
    ];
    let mut output = vec![0u8; 18];
    segment_contours(&mut output, 3, 2, &labels, [8, 8, 8]).unwrap();
    let mut expected = vec![0u8; 18];
    expected[0] = 8;
    expected[1] = 8;
    expected[2] = 8;
    assert_eq!(output, expected);
}

#[test]
fn contours_stop_where_the_labels_end() {
    let labels = vec![0, 1];
    let mut output = vec![9u8; 27];
    let r = segment_contours(&mut output, 3, 3, &labels, [255, 0, 0]);
    assert!(matches!(r, Err(ScError::General("Labels exhausted"))));
    // both pixels were taken up; neither has two neighbours of another label
    assert_eq!(output, vec![9u8; 27]);
}

#[test]
fn contours_stop_where_the_output_ends() {
    let labels = vec![
        0, 1, 1, //
        0, 1, 1, //
        0, 1, 1,
    ];
    let mut output = vec![9u8; 4];
    let r = segment_contours(&mut output, 3, 3, &labels, [255, 0, 0]);
    assert!(matches!(r, Err(ScError::General("Chunks exhausted"))));
    // the first pixel was taken up and painted
    assert_eq!(output, vec![255, 0, 0, 9]);
}

#[test]
fn contours_of_an_empty_image() {
    let labels: Vec<usize> = Vec::new();
    let mut output: Vec<u8> = Vec::new();
    segment_contours(&mut output, 0, 0, &labels, [1, 1, 1]).unwrap();
    segment_contours(&mut output, 0, 5, &labels, [1, 1, 1]).unwrap();
    assert!(output.is_empty());
}

fn colors(entries: &[(usize, [u8; 3])]) -> FxHashMap<usize, [u8; 3]> {
    let mut map = FxHashMap::default();
    for &(label, color) in entries {
        map.insert(label, color);
    }
    map
}

#[test]
fn segments_are_filled_with_their_colours() {
    let map = colors(&[(0, [10, 20, 30]), (1, [40, 50, 60])]);
    let mut output = vec![0u8; 12];
    fill_segments(&mut output, &[0, 1, 1, 0], &map);
    assert_eq!(output, vec![10, 20, 30, 40, 50, 60, 40, 50, 60, 10, 20, 30]);
}

#[test]
fn labels_without_a_colour_paint_no_pixel() {
    let map = colors(&[(1, [40, 50, 60])]);
    let mut output = vec![7u8; 9];
    fill_segments(&mut output, &[0, 1, 5, 1], &map);
    // the two labels with a colour paint the first two pixels
    assert_eq!(output, vec![40, 50, 60, 40, 50, 60, 7, 7, 7]);
}

#[test]
fn filling_stops_where_the_output_ends() {
    let map = colors(&[(3, [1, 2, 3])]);
    let mut output = vec![9u8; 5];
    fill_segments(&mut output, &[3, 3, 3], &map);
    assert_eq!(output, vec![1, 2, 3, 9, 9]);
    let mut output: Vec<u8> = Vec::new();
    fill_segments(&mut output, &[3], &map);
    assert!(output.is_empty());
}

#[test]
fn contours_are_drawn_with_the_marks_given() {
    let labels = vec![
        0, 1, 1, //
        0, 1, 1, //
        0, 1, 1,
    ];
    let mut output = vec![9u8; 27];
    let mut segment = vec![false; 9];
    draw_contours(&mut output, 3, 3, &labels, [1, 2, 3], &mut segment).unwrap();
    assert_eq!(segment, vec![true, false, false, true, false, false, true, false, false]);
    assert_eq!(&output[..6], &[1, 2, 3, 9, 9, 9]);
}

#[test]
fn mean_buffer_wants_three_bytes_per_pixel() {
    assert!(holds_mean_buffer(12, 4));
    assert!(!holds_mean_buffer(11, 4));
    assert!(!holds_mean_buffer(13, 4));
    assert!(holds_mean_buffer(0, 0));
    assert!(!holds_mean_buffer(0, usize::MAX));
}
