use simple_clustering::error::{ScError, SeedErrorKind};

#[test]
fn errors_have_messages() {
    assert_eq!(ScError::InvalidImageDimension.message(), "Image dimension cannot be 0");
    assert_eq!(ScError::ZeroSuperpixelCount.message(), "Number of superpixels cannot be 0");
    assert_eq!(
        ScError::InvalidSuperpixelCount.message(),
        "Number of superpixels greater than or equal to pixels in image"
    );
    assert_eq!(ScError::ZeroGridInterval.message(), "Grid interval cannot be 0");
    assert_eq!(ScError::InvalidGridInterval.message(), "Grid interval larger than u32");
    assert_eq!(
        ScError::MismatchedSlicBuffer.message(),
        "SLIC buffer length does not equal image dimensions"
    );
    assert_eq!(
        ScError::MismatchedSnicBuffer.message(),
        "SNIC buffer length does not equal image dimensions"
    );
    assert_eq!(ScError::NanDistance.message(), "NaN encountered during SNIC");
    assert_eq!(ScError::General("something else").message(), "something else");
}

#[test]
fn seed_errors_show_their_kind() {
    assert_eq!(
        ScError::SeedError(SeedErrorKind::InvalidTotalSeeds).message(),
        "Total number of seeds too large"
    );
    assert_eq!(
        ScError::SeedError(SeedErrorKind::PerturbConversion).message(),
        "Could not convert integer in seed perturbation"
    );
}

#[test]
fn reservation_errors_show_what_the_allocator_says() {
    let mut huge: Vec<u64> = Vec::new();
    let failed = huge.try_reserve(usize::MAX).unwrap_err();
    let expected = failed.to_string();
    let e = ScError::from(failed);
    assert!(matches!(e, ScError::Reserve(_)));
    assert!(!expected.is_empty());
    assert_eq!(e.message(), expected);
    assert_eq!(e.clone().message(), expected);
}

#[test]
fn text_becomes_a_general_error() {
    let e = ScError::from("out of luck");
    assert!(matches!(e, ScError::General("out of luck")));
}
