use simple_clustering::args::Opt;
use simple_clustering::error::ScError;
use simple_clustering::utils::{
    append_decimal, append_two_digits, filename_for, generate_filename, same_ignoring_case,
    Algorithm,
};

fn options(input: &str) -> Opt {
    Opt {
        input: input.to_string(),
        output: None,
        k: 1000,
        m: 10,
        iter: 10,
        no_mean: false,
        algorithm: Algorithm::Snic,
        verbose: false,
        format: "png".to_string(),
        benchmark: false,
        segments: false,
        segment_color: "000".to_string(),
    }
}

#[test]
fn algorithm_names() {
    assert_eq!(Algorithm::Snic.name(), "snic");
    assert_eq!(Algorithm::Slic.name(), "slic");
}

#[test]
fn algorithm_is_parsed_in_any_case() {
    assert_eq!(Algorithm::parse("snic").unwrap(), Algorithm::Snic);
    assert_eq!(Algorithm::parse("SNIC").unwrap(), Algorithm::Snic);
    assert_eq!(Algorithm::parse("sLiC").unwrap(), Algorithm::Slic);
    assert_eq!("Slic".parse::<Algorithm>().unwrap(), Algorithm::Slic);
}

#[test]
fn unknown_algorithm_is_an_error() {
    assert!(matches!(Algorithm::parse("slick"), Err(ScError::General("Invalid algorithm"))));
    assert!(matches!(Algorithm::parse(""), Err(ScError::General("Invalid algorithm"))));
    assert!(matches!(Algorithm::parse("sni"), Err(ScError::General("Invalid algorithm"))));
    assert!(matches!("snïc".parse::<Algorithm>(), Err(ScError::General("Invalid algorithm"))));
}

#[test]
fn comparison_ignores_ascii_case_only() {
    assert!(same_ignoring_case("JPEG", "jpeg"));
    assert!(same_ignoring_case("jPg", "JpG"));
    assert!(!same_ignoring_case("jpg", "jpeg"));
    assert!(!same_ignoring_case("jp@", "jp`"));
    assert!(!same_ignoring_case("[", "{"));
    assert!(same_ignoring_case("", ""));
}

#[test]
fn decimal_digits() {
    let mut text = String::from("k=");
    append_decimal(&mut text, 0);
    assert_eq!(text, "k=0");
    let mut text = String::new();
    append_decimal(&mut text, 1000);
    assert_eq!(text, "1000");
    let mut text = String::new();
    append_decimal(&mut text, u32::MAX);
    assert_eq!(text, "4294967295");
}

#[test]
fn compactness_has_at_least_two_digits() {
    let mut text = String::new();
    append_two_digits(&mut text, 5);
    assert_eq!(text, "05");
    let mut text = String::new();
    append_two_digits(&mut text, 0);
    assert_eq!(text, "00");
    let mut text = String::new();
    append_two_digits(&mut text, 10);
    assert_eq!(text, "10");
    let mut text = String::new();
    append_two_digits(&mut text, 255);
    assert_eq!(text, "255");
}

#[test]
fn filename_shows_the_parameters() {
    let opt = options("photos/cat.png");
    assert_eq!(generate_filename(&opt).unwrap(), "cat-snic-1000-10-mean.png");
    assert_eq!(filename_for("cat", &opt), "cat-snic-1000-10-mean.png");
}

#[test]
fn filename_marks_unchanged_colours_and_segments() {
    let mut opt = options("cat.jpeg");
    opt.algorithm = Algorithm::Slic;
    opt.k = 200;
    opt.m = 5;
    opt.no_mean = true;
    opt.segments = true;
    opt.format = "JPEG".to_string();
    assert_eq!(generate_filename(&opt).unwrap(), "cat-slic-200-05-orig-segments.jpg");
    opt.format = "Jpg".to_string();
    opt.no_mean = false;
    assert_eq!(generate_filename(&opt).unwrap(), "cat-slic-200-05-mean-segments.jpg");
}

#[test]
fn filename_keeps_another_format_as_it_is() {
    let mut opt = options("dir.d/archive.tar.gz");
    opt.format = "PNG".to_string();
    assert_eq!(generate_filename(&opt).unwrap(), "archive.tar-snic-1000-10-mean.PNG");
}

#[test]
fn filename_needs_a_stem() {
    let opt = options("");
    assert!(matches!(generate_filename(&opt), Err(ScError::General("No file stem"))));
    let opt = options("..");
    assert!(matches!(generate_filename(&opt), Err(ScError::General("No file stem"))));
}
