//! Error types of the clustering functions.
use std::collections::TryReserveError;
use vstd::prelude::*;

verus! {

/// Error of a superpixel calculation.
#[derive(Clone, Debug)]
pub enum ScError {
    /// The image `width` and/or `height` is equal to `0`.
    InvalidImageDimension,
    /// The number of superpixels to find is equal to `0`.
    ZeroSuperpixelCount,
    /// The number of superpixels to find is greater than or equal to the
    /// number of pixels in the image.
    InvalidSuperpixelCount,
    /// The calculated grid interval is equal to `0`.
    ZeroGridInterval,
    /// The calculated grid interval is too large.
    InvalidGridInterval,
    /// The SLIC image buffer length does not match the dimensions.
    MismatchedSlicBuffer,
    /// The SNIC image buffer length does not match the dimensions.
    MismatchedSnicBuffer,
    /// A distance calculated during SNIC was not a number.
    NanDistance,
    /// An error occurred while initializing or perturbing superpixel seeds.
    SeedError(SeedErrorKind),
    /// Space could not be reserved for a collection required in the
    /// superpixel calculation.
    Reserve(TryReserveError),
    /// A general error occurred.
    General(&'static str),
}

/// Errors that can occur while initializing the superpixel seeds.
#[derive(Clone, Copy, Debug, PartialEq, Eq, Structural)]
pub enum SeedErrorKind {
    /// Index out of bounds for seed initialization.
    InvalidImageIndex,
    /// The total number of seeds is too large to be stored in a vector.
    InvalidTotalSeeds,
    /// An integer conversion failed while perturbing superpixel seeds.
    PerturbConversion,
}

impl SeedErrorKind {
    /// The text that describes this error.
    pub open spec fn message_spec(self) -> Seq<char> {
        match self {
            SeedErrorKind::InvalidImageIndex => "Invalid image index for seed initialization"@,
            SeedErrorKind::InvalidTotalSeeds => "Total number of seeds too large"@,
            SeedErrorKind::PerturbConversion => "Could not convert integer in seed perturbation"@,
        }
    }

    /// The text that describes this error.
    pub fn message(&self) -> (text: String)
        ensures
            text@ == self.message_spec(),
    {
        match self {
            SeedErrorKind::InvalidImageIndex => "Invalid image index for seed initialization".to_owned(),
            SeedErrorKind::InvalidTotalSeeds => "Total number of seeds too large".to_owned(),
            SeedErrorKind::PerturbConversion => "Could not convert integer in seed perturbation".to_owned(),
        }
    }
}

impl ScError {
    /// The text that describes this error, for every variant whose text
    /// is fixed by the library.
    pub open spec fn message_spec(self) -> Seq<char>
        recommends
            !(self is Reserve),
    {
        match self {
            ScError::InvalidImageDimension => "Image dimension cannot be 0"@,
            ScError::ZeroSuperpixelCount => "Number of superpixels cannot be 0"@,
            ScError::InvalidSuperpixelCount => "Number of superpixels greater than or equal to pixels in image"@,
            ScError::ZeroGridInterval => "Grid interval cannot be 0"@,
            ScError::InvalidGridInterval => "Grid interval larger than u32"@,
            ScError::MismatchedSlicBuffer => "SLIC buffer length does not equal image dimensions"@,
            ScError::MismatchedSnicBuffer => "SNIC buffer length does not equal image dimensions"@,
            ScError::NanDistance => "NaN encountered during SNIC"@,
            ScError::SeedError(kind) => kind.message_spec(),
            ScError::Reserve(_) => Seq::empty(),
            ScError::General(text) => text@,
        }
    }

    /// The text that describes this error.  For a failed reservation the
    /// text is the one that the allocator's error prints.
    pub fn message(&self) -> (text: String)
        ensures
            !(self is Reserve) ==> text@ == self.message_spec(),
    {
        match self {
            ScError::InvalidImageDimension => "Image dimension cannot be 0".to_owned(),
            ScError::ZeroSuperpixelCount => "Number of superpixels cannot be 0".to_owned(),
            ScError::InvalidSuperpixelCount => "Number of superpixels greater than or equal to pixels in image".to_owned(),
            ScError::ZeroGridInterval => "Grid interval cannot be 0".to_owned(),
            ScError::InvalidGridInterval => "Grid interval larger than u32".to_owned(),
            ScError::MismatchedSlicBuffer => "SLIC buffer length does not equal image dimensions".to_owned(),
            ScError::MismatchedSnicBuffer => "SNIC buffer length does not equal image dimensions".to_owned(),
            ScError::NanDistance => "NaN encountered during SNIC".to_owned(),
            ScError::SeedError(kind) => kind.message(),
            ScError::Reserve(e) => e.to_string(),
            ScError::General(text) => (*text).to_owned(),
        }
    }
}

impl From<TryReserveError> for ScError {
    fn from(error: TryReserveError) -> (e: Self) {
        Self::Reserve(error)
    }
}

impl vstd::std_specs::convert::FromSpecImpl<TryReserveError> for ScError {
    open spec fn obeys_from_spec() -> bool {
        true
    }

    open spec fn from_spec(error: TryReserveError) -> Self {
        Self::Reserve(error)
    }
}

impl From<&'static str> for ScError {
    fn from(error: &'static str) -> (e: Self) {
        Self::General(error)
    }
}

impl vstd::std_specs::convert::FromSpecImpl<&'static str> for ScError {
    open spec fn obeys_from_spec() -> bool {
        true
    }

    open spec fn from_spec(error: &'static str) -> Self {
        Self::General(error)
    }
}

/// `Clone` of std's `TryReserveError`.  Nothing is claimed of the copy.
pub assume_specification[ <TryReserveError as Clone>::clone ](e: &TryReserveError) -> TryReserveError;

} // verus!
