//! The options of a clustering run.
use crate::utils::Algorithm;
use vstd::prelude::*;

verus! {

/// What a run of the clustering program was asked to do.
#[derive(Debug)]
pub struct Opt {
    /// Input file.
    pub input: String,
    /// Output file, defaults to PNG image output.
    pub output: Option<String>,
    /// Number of superpixel segments to find.
    pub k: u32,
    /// Compactness of superpixels, `m` parameter. Range of 1 to 20.
    pub m: u8,
    /// Number of iterations to run (SLIC).
    pub iter: u8,
    /// Disable saving an output image with mean superpixel segment colors.
    pub no_mean: bool,
    /// Segmentation algorithm used, such as SNIC or SLIC.
    pub algorithm: Algorithm,
    /// Print the number of segments found and time taken.
    pub verbose: bool,
    /// Save as a JPG or PNG file.
    pub format: String,
    /// Development flag for testing speeds of calculation.
    pub benchmark: bool,
    /// Save an image with segmented superpixel contours.
    pub segments: bool,
    /// Specify the hexadecimal RGB color for segment contours.
    pub segment_color: String,
}

} // verus!
