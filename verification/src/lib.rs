//! Superpixel segmentation of images by clustering.
//!
//! Two algorithms are provided: simple linear iterative clustering
//! ([`slic`]) and simple non-iterative clustering ([`snic`]).  Both
//! take a row-major grid of CIE L\*a\*b\* samples in fixed point and
//! return one region label per pixel.
//!
//! ## Usage
//!
//! ```
//! use simple_clustering::{snic, Lab};
//!
//! let (width, height) = (1, 3);
//! let image = [
//!     Lab { l: 0, a: 0, b: 0 },
//!     Lab { l: 5339, a: 0, b: 0 },
//!     Lab { l: 10000, a: 0, b: 0 },
//! ];
//! let (k, m) = (1, 10);
//! let labels = snic(k, m, width, height, &image).unwrap();
//! assert_eq!(labels.len(), 3);
//! ```
//!
//! The labels can be counted with [`image::count_colors`], and contours
//! can be drawn around the segments with [`image::segment_contours`].
//!
//! All arithmetic is on whole numbers: a colour channel counts
//! hundredths of a unit (see [`LAB_SCALE`]), and distances are scaled
//! so that no fraction is left.
use std::collections::TryReserveError;
use vstd::prelude::*;

pub mod args;
pub mod error;
pub mod fragments;
pub mod grid;
pub mod image;
pub mod metric;
pub mod queue;
pub mod seed;
pub mod slic;
pub mod snic;
pub mod utils;

pub use crate::grid::{
    count_of, flat_index, get_in_bounds, get_mut_in_bounds, in_bounds, index_in_bounds,
    lemma_count_of_at_least, lemma_count_of_bounds, lemma_count_of_kept, lemma_count_of_update,
    lemma_flat_index, lemma_flat_index_injective, lemma_grid_connected, lemma_in_bounds_row,
    lemma_in_image, lemma_pixel_of_index, spreads,
};
pub use crate::metric::{
    center_distance, distance_lab, distance_lab_spec, distance_s, distance_s_spec, distance_xy,
    distance_xy_spec, floor_div, lemma_center_distance_bound, lemma_compactness_keeps_alike,
    lemma_compactness_keeps_nearer, lemma_distance_lab_bound, lemma_mean_in_range,
    lemma_quotient_in_range, LabSum, Sums,
};
pub use crate::slic::slic;
pub use crate::snic::snic;

verus! {

use crate::error::ScError;

/// Number of fixed-point steps in one unit of a colour channel.
pub const LAB_SCALE: u64 = 100;

/// A colour sample in the CIE L\*a\*b\* space, in fixed point: every
/// channel counts hundredths of a unit.
#[derive(Clone, Copy, Debug, PartialEq, Eq, Structural)]
pub struct Lab {
    /// Lightness.
    pub l: i16,
    /// Green-red axis.
    pub a: i16,
    /// Blue-yellow axis.
    pub b: i16,
}

impl Lab {
    /// The colour whose channels are all `0`.
    pub open spec fn zero() -> Lab {
        Lab { l: 0, a: 0, b: 0 }
    }
}

impl Default for Lab {
    fn default() -> (c: Lab)
        ensures
            c == Lab::zero(),
    {
        Lab { l: 0, a: 0, b: 0 }
    }
}

/// A superpixel's colour, X-coordinate and Y-coordinate in an image.
#[derive(Clone, Copy, Debug)]
pub struct Superpixel<T> {
    /// Superpixel colour.
    pub data: T,
    /// X-position coordinate.
    pub x: u32,
    /// Y-position coordinate.
    pub y: u32,
}

impl<T: Default> Default for Superpixel<T> {
    fn default() -> (superpixel: Self)
        ensures
            superpixel.x == 0,
            superpixel.y == 0,
    {
        Self { data: T::default(), x: 0, y: 0 }
    }
}

/// Quotient of `lhs` by `rhs`, rounded towards positive infinity.
pub open spec fn div_ceil_spec(lhs: int, rhs: int) -> int
    recommends
        rhs > 0,
{
    if lhs % rhs > 0 {
        lhs / rhs + 1
    } else {
        lhs / rhs
    }
}

/// Quotient of `lhs` by `rhs`, rounded towards positive infinity.
pub fn div_ceil(lhs: u32, rhs: u32) -> (q: u32)
    requires
        rhs > 0,
    ensures
        q == div_ceil_spec(lhs as int, rhs as int),
{
    let d: u32 = lhs / rhs;
    let r: u32 = lhs % rhs;
    if r > 0 {
        assert(d < u32::MAX) by (nonlinear_arith)
            requires
                d == lhs as int / rhs as int,
                r == lhs as int % rhs as int,
                r > 0,
                rhs > 0,
                lhs <= u32::MAX,
        {
            assert(lhs as int == rhs as int * (lhs as int / rhs as int) + lhs as int % rhs as int);
        }
        d + 1
    } else {
        d
    }
}

/// Integer square root: the largest `r` with `r * r <= n`.
pub open spec fn sqrt_floor(n: nat) -> nat
    decreases n,
{
    if n == 0 {
        0
    } else {
        let r = sqrt_floor((n - 1) as nat);
        if (r + 1) * (r + 1) <= n {
            r + 1
        } else {
            r
        }
    }
}

/// `sqrt_floor(n)` is the one number whose square is at most `n` while
/// the square of its successor is greater.
pub proof fn lemma_sqrt_floor(n: nat)
    ensures
        sqrt_floor(n) * sqrt_floor(n) <= n < (sqrt_floor(n) + 1) * (sqrt_floor(n) + 1),
    decreases n,
{
    if n > 0 {
        lemma_sqrt_floor((n - 1) as nat);
        let r = sqrt_floor((n - 1) as nat);
        let q = sqrt_floor(n);
        if (r + 1) * (r + 1) <= n {
            assert(q == r + 1);
            assert(q * q <= n < (q + 1) * (q + 1)) by (nonlinear_arith)
                requires
                    q == r + 1,
                    (r + 1) * (r + 1) <= n,
                    n - 1 < (r + 1) * (r + 1),
            ;
        } else {
            assert(q == r);
        }
    } else {
        assert(sqrt_floor(0) == 0);
        assert(0 * 0 <= 0 < (0 + 1) * (0 + 1)) by (nonlinear_arith);
    }
}

/// Any `r` whose square is at most `n`, while the square of its
/// successor is greater, is `sqrt_floor(n)`.
pub proof fn lemma_sqrt_floor_unique(n: nat, r: nat)
    requires
        r * r <= n < (r + 1) * (r + 1),
    ensures
        r == sqrt_floor(n),
{
    lemma_sqrt_floor(n);
    let q = sqrt_floor(n);
    if r < q {
        assert((r + 1) * (r + 1) <= q * q) by (nonlinear_arith)
            requires
                r + 1 <= q,
        ;
    } else if q < r {
        assert((q + 1) * (q + 1) <= r * r) by (nonlinear_arith)
            requires
                q + 1 <= r,
        ;
    }
}

/// The grid interval `S`: the side length of a square that holds the
/// `width * height / k` pixels of one superpixel, rounded down.
pub open spec fn grid_interval_spec(width: nat, height: nat, k: nat) -> nat
    recommends
        k > 0,
{
    sqrt_floor(width * height / k)
}

/// Calculate the superpixel side length, `S`.
///
/// `S * S` is the approximate size of each superpixel in pixels: `S`
/// is the square root of `N / K`, rounded down, where `N` is the
/// number of pixels and `K` the number of desired superpixels.
pub fn calculate_grid_interval(width: u32, height: u32, superpixels: u32) -> (s: u64)
    requires
        superpixels > 0,
    ensures
        s == grid_interval_spec(width as nat, height as nat, superpixels as nat),
{
    assert(width as u64 * height as u64 <= 0xffff_fffe_0000_0001) by (nonlinear_arith)
        requires
            width <= 0xffff_ffff,
            height <= 0xffff_ffff,
    ;
    let n: u64 = (width as u64) * (height as u64) / (superpixels as u64);
    let mut lo: u64 = 0;
    let mut hi: u64 = 0x1_0000_0000;
    assert(n < hi * hi) by (nonlinear_arith)
        requires
            n <= 0xffff_fffe_0000_0001,
            hi == 0x1_0000_0000,
    ;
    while hi - lo > 1
        invariant
            lo < hi <= 0x1_0000_0000,
            lo * lo <= n < hi * hi,
        decreases hi - lo,
    {
        let mid: u64 = lo + (hi - lo) / 2;
        assert(mid * mid <= 0xffff_ffff * 0xffff_ffff) by (nonlinear_arith)
            requires
                mid <= 0xffff_ffff,
        ;
        if mid * mid <= n {
            lo = mid;
        } else {
            hi = mid;
        }
    }
    proof {
        lemma_sqrt_floor_unique(n as nat, lo as nat);
    }
    lo
}

/// The error that the count of superpixels and the dimensions of the
/// image give, if any.  The checks are made in this order: `k` is `0`;
/// a dimension is `0`; `k` is not below the number of pixels; the grid
/// interval does not fit 32 bits; the grid interval is `0`.
pub open spec fn parameter_error(k: u32, width: u32, height: u32) -> Option<ScError> {
    if k == 0 {
        Some(ScError::ZeroSuperpixelCount)
    } else if width == 0 || height == 0 {
        Some(ScError::InvalidImageDimension)
    } else if k >= width * height {
        Some(ScError::InvalidSuperpixelCount)
    } else if grid_interval_spec(width as nat, height as nat, k as nat) > u32::MAX {
        Some(ScError::InvalidGridInterval)
    } else if grid_interval_spec(width as nat, height as nat, k as nat) == 0 {
        Some(ScError::ZeroGridInterval)
    } else {
        None
    }
}

/// Which arguments are rejected, and how: no superpixel at all; else an
/// image without pixels; else as many superpixels as pixels or more.
pub proof fn lemma_rejected_inputs(k: u32, width: u32, height: u32)
    ensures
        k == 0 ==> parameter_error(k, width, height) == Some(ScError::ZeroSuperpixelCount),
        k != 0 && (width == 0 || height == 0) ==> parameter_error(k, width, height) == Some(
            ScError::InvalidImageDimension,
        ),
        k != 0 && width != 0 && height != 0 && k >= width * height ==> parameter_error(
            k,
            width,
            height,
        ) == Some(ScError::InvalidSuperpixelCount),
        0 < k < width * height ==> parameter_error(k, width, height) is None,
{
    if 0 < k < width * height {
        lemma_grid_interval_fits(k, width, height);
        assert(width != 0 && height != 0) by (nonlinear_arith)
            requires
                0 < width * height,
        ;
    }
}

/// Whether a buffer of `len` entries holds one entry for each of the
/// `width * height` pixels of an image.
pub fn holds_pixels(width: u32, height: u32, len: usize) -> (b: bool)
    ensures
        b == (len == width * height),
{
    assert(width as u128 * height as u128 <= 0xffff_ffff * 0xffff_ffff) by (nonlinear_arith)
        requires
            width <= 0xffff_ffff,
            height <= 0xffff_ffff,
    ;
    len as u128 == (width as u128) * (height as u128)
}

/// Whether a buffer of `len` bytes holds three bytes for each of the
/// `width * height` pixels of an image.
pub fn holds_rgb(width: u32, height: u32, len: usize) -> (b: bool)
    ensures
        b == (len == width * height * 3),
{
    assert(width as u128 * height as u128 <= 0xffff_ffff * 0xffff_ffff) by (nonlinear_arith)
        requires
            width <= 0xffff_ffff,
            height <= 0xffff_ffff,
    ;
    len as u128 == (width as u128) * (height as u128) * 3
}

/// Check the count of superpixels and the dimensions of the image, and
/// calculate the grid interval.
pub fn validate(k: u32, width: u32, height: u32) -> (r: Result<u32, ScError>)
    ensures
        match r {
            Ok(s) => parameter_error(k, width, height) is None && s > 0 && s == grid_interval_spec(
                width as nat,
                height as nat,
                k as nat,
            ),
            Err(e) => parameter_error(k, width, height) == Some(e),
        },
{
    if k == 0 {
        return Err(ScError::ZeroSuperpixelCount);
    }
    if width == 0 || height == 0 {
        return Err(ScError::InvalidImageDimension);
    }
    assert(width as u64 * height as u64 <= 0xffff_fffe_0000_0001) by (nonlinear_arith)
        requires
            width <= 0xffff_ffff,
            height <= 0xffff_ffff,
    ;
    if k as u64 >= (width as u64) * (height as u64) {
        return Err(ScError::InvalidSuperpixelCount);
    }
    let s: u64 = calculate_grid_interval(width, height, k);
    if s > u32::MAX as u64 {
        return Err(ScError::InvalidGridInterval);
    }
    if s == 0 {
        return Err(ScError::ZeroGridInterval);
    }
    Ok(s as u32)
}

/// With at least one superpixel asked for, fewer than there are
/// pixels, the grid interval is neither `0` nor too large: the two
/// errors for it never occur.
pub proof fn lemma_grid_interval_fits(k: u32, width: u32, height: u32)
    requires
        0 < k < width * height,
    ensures
        0 < grid_interval_spec(width as nat, height as nat, k as nat) <= u32::MAX,
        !(parameter_error(k, width, height) matches Some(ScError::ZeroGridInterval)),
        !(parameter_error(k, width, height) matches Some(ScError::InvalidGridInterval)),
{
    let n = (width as nat) * (height as nat) / (k as nat);
    let r = sqrt_floor(n);
    lemma_sqrt_floor(n);
    assert(width * height <= 0xffff_ffff * 0xffff_ffff) by (nonlinear_arith)
        requires
            width <= 0xffff_ffff,
            height <= 0xffff_ffff,
    ;
    assert(1 <= n <= 0xffff_ffff * 0xffff_ffff) by (nonlinear_arith)
        requires
            n == (width * height) / (k as int),
            0 < k < width * height,
            width * height <= 0xffff_ffff * 0xffff_ffff,
    ;
    if r == 0 {
        assert((r + 1) * (r + 1) == 1) by (nonlinear_arith)
            requires
                r == 0,
        ;
    }
    if r > 0xffff_ffff {
        assert(r * r > 0xffff_ffff * 0xffff_ffff) by (nonlinear_arith)
            requires
                r > 0xffff_ffff,
        ;
    }
}

/// A vector of `len` copies of `value`, or the allocator's error if it
/// grants no room for them.
pub fn try_filled<T: Copy>(value: T, len: usize) -> (r: Result<Vec<T>, TryReserveError>)
    ensures
        r matches Ok(v) ==> v@ == Seq::new(len as nat, |i: int| value),
{
    let mut v: Vec<T> = Vec::new();
    let reserved = v.try_reserve(len);
    filled_after(reserved, v, value, len)
}

/// Fill the empty vector `v` with `len` copies of `value` once room for
/// them was asked for: a failed reservation is handed on, after a
/// granted one the vector is filled.
pub fn filled_after<T: Copy>(
    reserved: Result<(), TryReserveError>,
    v: Vec<T>,
    value: T,
    len: usize,
) -> (r: Result<Vec<T>, TryReserveError>)
    requires
        v@.len() == 0,
    ensures
        match reserved {
            Ok(()) => r matches Ok(filled) && filled@ == Seq::new(len as nat, |i: int| value),
            Err(e) => r == Err::<Vec<T>, TryReserveError>(e),
        },
{
    match reserved {
        Err(e) => {
            return Err(e);
        },
        Ok(()) => {},
    }
    let mut v = v;
    let mut i: usize = 0;
    assert(v@ =~= Seq::new(0, |j: int| value));
    while i < len
        invariant
            i <= len,
            v@ == Seq::new(i as nat, |j: int| value),
        decreases len - i,
    {
        v.push(value);
        i += 1;
        assert(v@ =~= Seq::new(i as nat, |j: int| value));
    }
    Ok(v)
}

/// The compactness that the algorithms work with: `m`, held between
/// `1` and `20`.
pub open spec fn clamp_compactness(m: u8) -> u8 {
    if m < 1 {
        1
    } else if m > 20 {
        20
    } else {
        m
    }
}

/// The error that the arguments of a clustering give, if any: those of
/// `parameter_error`, then `mismatch` for an image whose length is not
/// `width * height`.
pub open spec fn input_error(k: u32, width: u32, height: u32, len: nat, mismatch: ScError) -> Option<
    ScError,
> {
    match parameter_error(k, width, height) {
        Some(e) => Some(e),
        None => if len != width * height {
            Some(mismatch)
        } else {
            None
        },
    }
}

} // verus!
