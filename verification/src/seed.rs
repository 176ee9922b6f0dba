//! Functions for initializing superpixel seeds.
use crate::error::{ScError, SeedErrorKind};
use crate::{
    distance_lab, distance_lab_spec, div_ceil, div_ceil_spec, flat_index, get_in_bounds, in_bounds,
    lemma_distance_lab_bound, lemma_flat_index, lemma_in_bounds_row, Lab, Superpixel,
};
use std::collections::TryReserveError;
use vstd::arithmetic::div_mod::lemma_fundamental_div_mod_converse;
use vstd::prelude::*;

verus! {

/// The interval between seeds along an axis of `extent` pixels: `s`,
/// unless half of `s` already lies beyond the axis; then the interval
/// is the axis itself.
pub open spec fn axis_interval(s: int, extent: int) -> int {
    if 0 < extent <= s / 2 {
        extent
    } else {
        s
    }
}

/// Whether `count` seeds with `interval` pixels between them fit an
/// axis of `extent` pixels: the axis holds all the intervals, or there
/// is one seed and half an interval lies on the axis.
pub open spec fn fits_axis(count: int, interval: int, extent: int) -> bool {
    &&& 1 <= count
    &&& 1 <= interval
    &&& count * interval <= extent || (count == 1 && interval / 2 < extent)
}

/// Number of seeds along an axis of `extent` pixels before any
/// lowering: as many whole intervals as fit, and at least one.
pub open spec fn axis_count(s: int, extent: int) -> int
    recommends
        s > 0,
{
    if extent / axis_interval(s, extent) < 1 {
        1
    } else {
        extent / axis_interval(s, extent)
    }
}

/// The count that is lower by one, but not below `1`.
pub open spec fn lowered(count: int) -> int {
    if count > 1 {
        count - 1
    } else {
        1
    }
}

/// Seed counts per row and per column after they were lowered, both by
/// one at a time and neither below `1`, until their product is at most
/// `k` or both are `1`.
pub open spec fn reduce_counts(x_seeds: int, y_seeds: int, k: int) -> (int, int)
    decreases x_seeds + y_seeds,
{
    if x_seeds >= 1 && y_seeds >= 1 && (x_seeds > 1 || y_seeds > 1) && x_seeds * y_seeds > k {
        reduce_counts(lowered(x_seeds), lowered(y_seeds), k)
    } else {
        (x_seeds, y_seeds)
    }
}

/// Number of seeds per row (`.0`) and per column (`.1`): as many whole
/// intervals as fit, at least one, lowered until at most `k` seeds
/// remain.
pub open spec fn seed_counts(width: int, height: int, s: int, k: int) -> (int, int)
    recommends
        s > 0,
{
    reduce_counts(axis_count(s, width), axis_count(s, height), k)
}

/// Number of grid positions.
pub open spec fn seed_total(width: int, height: int, s: int, k: int) -> int
    recommends
        s > 0,
{
    seed_counts(width, height, s, k).0 * seed_counts(width, height, s, k).1
}

/// Coordinate of the seed number `index` of `count` along an axis of
/// `extent` pixels with `interval` pixels between seeds: `index`
/// intervals, half an interval, and the share of the pixels left over
/// by the `count` intervals, each rounded down.
pub open spec fn seed_coordinate(index: int, count: int, interval: int, extent: int) -> int
    recommends
        count > 0,
        interval > 0,
{
    index * interval + interval / 2 + index * (extent - count * interval) / count
}

/// The seeds among the first `n` grid positions, rows first.  A
/// position outside the image or the buffer gives no seed.
pub open spec fn seeds_upto<T>(
    n: int,
    x_seeds: int,
    y_seeds: int,
    width: int,
    height: int,
    s: int,
    image: Seq<T>,
) -> Seq<Superpixel<T>>
    decreases n,
{
    if n <= 0 {
        Seq::empty()
    } else {
        let prev = seeds_upto(n - 1, x_seeds, y_seeds, width, height, s, image);
        let x = seed_coordinate((n - 1) % x_seeds, x_seeds, axis_interval(s, width), width);
        let y = seed_coordinate((n - 1) / x_seeds, y_seeds, axis_interval(s, height), height);
        if 0 <= x < width && 0 <= y < height && y * width + x < image.len() {
            prev.push(Superpixel { data: image[y * width + x], x: x as u32, y: y as u32 })
        } else {
            prev
        }
    }
}

/// The seeds that `init_seeds` lays out.
pub open spec fn seeds_spec<T>(width: int, height: int, s: int, k: int, image: Seq<T>) -> Seq<
    Superpixel<T>,
>
    recommends
        s > 0,
{
    let (x_seeds, y_seeds) = seed_counts(width, height, s, k);
    seeds_upto(x_seeds * y_seeds, x_seeds, y_seeds, width, height, s, image)
}

/// Every seed lies inside the image and carries the colour found there.
pub proof fn lemma_seeds_upto_in_image<T>(
    n: int,
    x_seeds: int,
    y_seeds: int,
    width: int,
    height: int,
    s: int,
    image: Seq<T>,
)
    requires
        width <= u32::MAX,
        height <= u32::MAX,
    ensures
        seeds_upto(n, x_seeds, y_seeds, width, height, s, image).len() <= if n < 0 {
            0
        } else {
            n
        },
        forall|i: int|
            0 <= i < seeds_upto(n, x_seeds, y_seeds, width, height, s, image).len() ==> {
                let seed = #[trigger] seeds_upto(n, x_seeds, y_seeds, width, height, s, image)[i];
                &&& seed.x < width
                &&& seed.y < height
                &&& seed.y * width + seed.x < image.len()
                &&& seed.data == image[seed.y * width + seed.x]
            },
    decreases n,
{
    if n > 0 {
        lemma_seeds_upto_in_image(n - 1, x_seeds, y_seeds, width, height, s, image);
        let prev = seeds_upto(n - 1, x_seeds, y_seeds, width, height, s, image);
        let all = seeds_upto(n, x_seeds, y_seeds, width, height, s, image);
        assert forall|i: int| 0 <= i < all.len() implies {
            let seed = #[trigger] all[i];
            &&& seed.x < width
            &&& seed.y < height
            &&& seed.y * width + seed.x < image.len()
            &&& seed.data == image[seed.y * width + seed.x]
        } by {
            if i < prev.len() {
                assert(all[i] == prev[i]);
            } else {
                assert(all == prev.push(all[i]));
            }
        }
    }
}

/// Lowering the counts leaves each between `1` and what it was, and
/// their product at most `k` unless both are `1`.
pub proof fn lemma_reduce_counts(x_seeds: int, y_seeds: int, k: int)
    requires
        1 <= x_seeds,
        1 <= y_seeds,
    ensures
        1 <= reduce_counts(x_seeds, y_seeds, k).0 <= x_seeds,
        1 <= reduce_counts(x_seeds, y_seeds, k).1 <= y_seeds,
        reduce_counts(x_seeds, y_seeds, k).0 * reduce_counts(x_seeds, y_seeds, k).1 <= k || (
        reduce_counts(x_seeds, y_seeds, k).0 == 1 && reduce_counts(x_seeds, y_seeds, k).1 == 1),
    decreases x_seeds + y_seeds,
{
    if (x_seeds > 1 || y_seeds > 1) && x_seeds * y_seeds > k {
        lemma_reduce_counts(lowered(x_seeds), lowered(y_seeds), k);
    }
}

/// The seeds along an axis before any lowering: at least one, and on
/// an axis that has a pixel they fit the axis.
pub proof fn lemma_axis_count(s: int, extent: int)
    requires
        s > 0,
        0 <= extent,
    ensures
        1 <= axis_count(s, extent),
        1 <= axis_interval(s, extent),
        extent >= 1 ==> fits_axis(axis_count(s, extent), axis_interval(s, extent), extent),
{
    let interval = axis_interval(s, extent);
    assert(0 <= (extent / interval) * interval <= extent) by (nonlinear_arith)
        requires
            interval > 0,
            0 <= extent,
    ;
    if extent >= interval {
        assert(extent / interval >= 1) by (nonlinear_arith)
            requires
                1 <= interval <= extent,
        ;
    } else {
        assert(extent / interval == 0) by (nonlinear_arith)
            requires
                0 <= extent < interval,
        ;
    }
}

/// Fewer seeds fit an axis that more seeds fit.
pub proof fn lemma_fits_lowered(count: int, start: int, interval: int, extent: int)
    requires
        fits_axis(start, interval, extent),
        1 <= count <= start,
    ensures
        fits_axis(count, interval, extent),
{
    if start * interval <= extent {
        assert(count * interval <= extent) by (nonlinear_arith)
            requires
                1 <= count <= start,
                start * interval <= extent,
                1 <= interval,
        ;
    }
}

/// The number of grid positions is at least `1`, and at most `k`
/// unless `k` is `0`.
pub proof fn lemma_seed_total_fits(width: int, height: int, s: int, k: int)
    requires
        0 <= width,
        0 <= height,
        s > 0,
    ensures
        1 <= seed_total(width, height, s, k),
        seed_total(width, height, s, k) <= k || seed_total(width, height, s, k) == 1,
{
    lemma_axis_count(s, width);
    lemma_axis_count(s, height);
    lemma_reduce_counts(axis_count(s, width), axis_count(s, height), k);
    let (x_seeds, y_seeds) = seed_counts(width, height, s, k);
    assert(1 <= x_seeds * y_seeds) by (nonlinear_arith)
        requires
            1 <= x_seeds,
            1 <= y_seeds,
    ;
    if x_seeds == 1 && y_seeds == 1 {
        assert(x_seeds * y_seeds == 1) by (nonlinear_arith)
            requires
                x_seeds == 1,
                y_seeds == 1,
        ;
    }
}

/// Every one of the seeds that fit an axis lies on the axis.
pub proof fn lemma_seed_on_axis(index: int, count: int, interval: int, extent: int)
    requires
        0 <= index < count,
        fits_axis(count, interval, extent),
    ensures
        0 <= seed_coordinate(index, count, interval, extent) < extent,
{
    assert(0 <= interval / 2 <= interval - 1) by (nonlinear_arith)
        requires
            1 <= interval,
    ;
    if count * interval <= extent {
        let spare = extent - count * interval;
        let share = index * spare / count;
        assert(0 <= share <= spare) by (nonlinear_arith)
            requires
                share == index * spare / count,
                0 <= index < count,
                0 <= spare,
        ;
        assert(0 <= index * interval <= (count - 1) * interval && (count - 1) * interval == count
            * interval - interval) by (nonlinear_arith)
            requires
                0 <= index < count,
                1 <= interval,
        ;
    } else {
        assert(index * interval == 0 && index * (extent - count * interval) / count == 0)
            by (nonlinear_arith)
            requires
                index == 0,
                count == 1,
        ;
    }
}

/// In an image whose axes the seeds fit, every grid position gives a
/// seed.
pub proof fn lemma_seeds_all_placed<T>(
    n: int,
    x_seeds: int,
    y_seeds: int,
    width: int,
    height: int,
    s: int,
    image: Seq<T>,
)
    requires
        s > 0,
        fits_axis(x_seeds, axis_interval(s, width), width),
        fits_axis(y_seeds, axis_interval(s, height), height),
        image.len() == width * height,
        0 <= n <= x_seeds * y_seeds,
    ensures
        seeds_upto(n, x_seeds, y_seeds, width, height, s, image).len() == n,
    decreases n,
{
    if n > 0 {
        lemma_seeds_all_placed(n - 1, x_seeds, y_seeds, width, height, s, image);
        let xdx = (n - 1) % x_seeds;
        let ydx = (n - 1) / x_seeds;
        assert(0 <= xdx < x_seeds && 0 <= ydx < y_seeds) by (nonlinear_arith)
            requires
                xdx == (n - 1) % x_seeds,
                ydx == (n - 1) / x_seeds,
                0 <= n - 1 < x_seeds * y_seeds,
                1 <= x_seeds,
        {
            assert(n - 1 == x_seeds * ((n - 1) / x_seeds) + (n - 1) % x_seeds);
        }
        lemma_seed_on_axis(xdx, x_seeds, axis_interval(s, width), width);
        lemma_seed_on_axis(ydx, y_seeds, axis_interval(s, height), height);
        lemma_flat_index(
            width,
            height,
            seed_coordinate(xdx, x_seeds, axis_interval(s, width), width),
            seed_coordinate(ydx, y_seeds, axis_interval(s, height), height),
        );
    }
}

/// The seed of the first grid position, once it is placed, stays the
/// first seed.
pub proof fn lemma_first_seed_stays<T>(
    n: int,
    x_seeds: int,
    y_seeds: int,
    width: int,
    height: int,
    s: int,
    image: Seq<T>,
)
    requires
        1 <= n,
        seeds_upto(1, x_seeds, y_seeds, width, height, s, image).len() == 1,
    ensures
        seeds_upto(n, x_seeds, y_seeds, width, height, s, image).len() >= 1,
        seeds_upto(n, x_seeds, y_seeds, width, height, s, image)[0] == seeds_upto(
            1,
            x_seeds,
            y_seeds,
            width,
            height,
            s,
            image,
        )[0],
    decreases n,
{
    if n > 1 {
        lemma_first_seed_stays(n - 1, x_seeds, y_seeds, width, height, s, image);
    }
}

/// Where half the interval lies on both axes, the first seed sits half
/// an interval from the origin on both, and carries the colour found
/// there.
pub proof fn lemma_first_seed<T>(width: int, height: int, s: int, k: int, image: Seq<T>)
    requires
        s > 0,
        s / 2 < width <= u32::MAX,
        s / 2 < height <= u32::MAX,
        image.len() == width * height,
    ensures
        seeds_spec(width, height, s, k, image).len() >= 1,
        seeds_spec(width, height, s, k, image)[0] == (Superpixel {
            data: image[(s / 2) * width + s / 2],
            x: (s / 2) as u32,
            y: (s / 2) as u32,
        }),
{
    lemma_axis_count(s, width);
    lemma_axis_count(s, height);
    lemma_reduce_counts(axis_count(s, width), axis_count(s, height), k);
    let (x_seeds, y_seeds) = seed_counts(width, height, s, k);
    let half = s / 2;
    assert(0 <= half) by (nonlinear_arith)
        requires
            s > 0,
            half == s / 2,
    ;
    assert(0int % x_seeds == 0 && 0int / x_seeds == 0 && 0int / y_seeds == 0) by (nonlinear_arith)
        requires
            x_seeds >= 1,
            y_seeds >= 1,
    ;
    assert(0int * s == 0 && 0int * (width - x_seeds * s) == 0 && 0int * (height - y_seeds * s)
        == 0) by (nonlinear_arith);
    assert(seed_coordinate(0, x_seeds, axis_interval(s, width), width) == half);
    assert(seed_coordinate(0, y_seeds, axis_interval(s, height), height) == half);
    lemma_flat_index(width, height, half, half);
    assert(seeds_upto(0, x_seeds, y_seeds, width, height, s, image).len() == 0);
    let first = seeds_upto(1, x_seeds, y_seeds, width, height, s, image);
    assert(first.len() == 1);
    assert(first[0] == (Superpixel {
        data: image[half * width + half],
        x: half as u32,
        y: half as u32,
    }));
    assert(x_seeds * y_seeds >= 1) by (nonlinear_arith)
        requires
            x_seeds >= 1,
            y_seeds >= 1,
    ;
    lemma_first_seed_stays(x_seeds * y_seeds, x_seeds, y_seeds, width, height, s, image);
}

/// In an image that has a pixel there is at least one seed, and with at
/// least one superpixel asked for there are no more seeds than that.
pub proof fn lemma_seed_count<T>(width: int, height: int, s: int, k: int, image: Seq<T>)
    requires
        1 <= width,
        1 <= height,
        s > 0,
        1 <= k,
        image.len() == width * height,
    ensures
        1 <= seeds_spec(width, height, s, k, image).len() <= k,
{
    lemma_axis_count(s, width);
    lemma_axis_count(s, height);
    lemma_reduce_counts(axis_count(s, width), axis_count(s, height), k);
    lemma_seed_total_fits(width, height, s, k);
    let (x_seeds, y_seeds) = seed_counts(width, height, s, k);
    lemma_fits_lowered(x_seeds, axis_count(s, width), axis_interval(s, width), width);
    lemma_fits_lowered(y_seeds, axis_count(s, height), axis_interval(s, height), height);
    lemma_seeds_all_placed(x_seeds * y_seeds, x_seeds, y_seeds, width, height, s, image);
}

/// Initialize the superpixel seed centers.
///
/// The seeds approximate an even grid with `s` pixels between
/// neighbours, the first of them half an interval from the origin.
/// Only where half of `s` lies beyond an axis is the axis itself taken
/// for the interval.  In an image that has a pixel there is at least
/// one seed, and there are at most `k` of them unless `k` is `0`.  On
/// failure `seeds` is left empty.
pub fn init_seeds<T: Copy>(
    width: u32,
    height: u32,
    s: u32,
    k: u32,
    image: &[T],
    seeds: &mut Vec<Superpixel<T>>,
) -> (r: Result<(), ScError>)
    requires
        s > 0,
    ensures
        match r {
            Ok(()) => {
                &&& seed_total(width as int, height as int, s as int, k as int) <= usize::MAX
                &&& final(seeds)@ == seeds_spec(
                    width as int,
                    height as int,
                    s as int,
                    k as int,
                    image@,
                )
                &&& width >= 1 && height >= 1 && k >= 1 && image@.len() == width * height ==> 1
                    <= final(seeds)@.len() <= k
                &&& s / 2 < width && s / 2 < height && image@.len() == width * height
                    ==> final(seeds)@.len() >= 1 && final(seeds)@[0] == (Superpixel {
                    data: image@[(s / 2) * width + s / 2],
                    x: s / 2,
                    y: s / 2,
                })
            },
            Err(e) => final(seeds)@.len() == 0 && if seed_total(
                width as int,
                height as int,
                s as int,
                k as int,
            ) > usize::MAX {
                e == ScError::SeedError(SeedErrorKind::InvalidTotalSeeds)
            } else {
                e is Reserve
            },
        },
{
    seeds.clear();
    let mut x_seeds: u32 = first_count(s, width);
    let mut y_seeds: u32 = first_count(s, height);

    // If the seed count is larger than k, reduce until it is not, but
    // keep one seed at least along each axis
    let ghost x_start = x_seeds as int;
    let ghost y_start = y_seeds as int;
    loop
        invariant
            1 <= x_seeds <= x_start,
            1 <= y_seeds <= y_start,
            reduce_counts(x_seeds as int, y_seeds as int, k as int) == reduce_counts(
                x_start,
                y_start,
                k as int,
            ),
        ensures
            1 <= x_seeds <= x_start,
            1 <= y_seeds <= y_start,
            (x_seeds as int, y_seeds as int) == reduce_counts(x_start, y_start, k as int),
        decreases x_seeds + y_seeds,
    {
        assert(x_seeds as u64 * y_seeds as u64 <= 0xffff_ffff * 0xffff_ffff) by (nonlinear_arith)
            requires
                x_seeds <= 0xffff_ffff,
                y_seeds <= 0xffff_ffff,
        ;
        if (x_seeds > 1 || y_seeds > 1) && (x_seeds as u64) * (y_seeds as u64) > k as u64 {
            if x_seeds > 1 {
                x_seeds -= 1;
            }
            if y_seeds > 1 {
                y_seeds -= 1;
            }
        } else {
            break ;
        }
    }
    proof {
        lemma_axis_count(s as int, width as int);
        lemma_axis_count(s as int, height as int);
        if width >= 1 {
            lemma_fits_lowered(
                x_seeds as int,
                x_start,
                axis_interval(s as int, width as int),
                width as int,
            );
        }
        if height >= 1 {
            lemma_fits_lowered(
                y_seeds as int,
                y_start,
                axis_interval(s as int, height as int),
                height as int,
            );
        }
        if width >= 1 && height >= 1 && k >= 1 && image@.len() == width * height {
            lemma_seed_count(width as int, height as int, s as int, k as int, image@);
        }
        if s / 2 < width && s / 2 < height && image@.len() == width * height {
            lemma_first_seed(width as int, height as int, s as int, k as int, image@);
        }
    }
    assert(x_seeds as u64 * y_seeds as u64 <= 0xffff_ffff * 0xffff_ffff) by (nonlinear_arith)
        requires
            x_seeds <= 0xffff_ffff,
            y_seeds <= 0xffff_ffff,
    ;
    let total: u64 = (x_seeds as u64) * (y_seeds as u64);
    if total > usize::MAX as u64 {
        return Err(ScError::SeedError(SeedErrorKind::InvalidTotalSeeds));
    }
    let reserved = seeds.try_reserve(total as usize);
    place_seeds(reserved, width, height, s, x_seeds, y_seeds, image, seeds)
}

/// The interval between seeds along an axis of `extent` pixels.
fn interval(s: u32, extent: u32) -> (r: u32)
    requires
        s > 0,
    ensures
        r == axis_interval(s as int, extent as int),
        r > 0,
{
    if 0 < extent && extent <= s / 2 {
        extent
    } else {
        s
    }
}

/// Number of seeds along an axis of `extent` pixels before any
/// lowering.
fn first_count(s: u32, extent: u32) -> (count: u32)
    requires
        s > 0,
    ensures
        count == axis_count(s as int, extent as int),
{
    let step: u32 = interval(s, extent);
    let mut count: u32 = div_ceil(extent, step);

    // The count might be too high due to the rounding up
    proof {
        lemma_count_overshoot(extent as int, step as int);
    }
    if (step as u64) * (count as u64) > extent as u64 {
        count -= 1;
    }
    // Edge case for an axis without a pixel
    if count == 0 {
        count = 1;
    }
    count
}

/// Rounding up and then taking one off where `s` times the count
/// overshoots `extent` gives the count rounded down.
proof fn lemma_count_overshoot(extent: int, s: int)
    requires
        extent >= 0,
        s > 0,
    ensures
        s * div_ceil_spec(extent, s) > extent ==> div_ceil_spec(extent, s) - 1 == extent / s,
        s * div_ceil_spec(extent, s) <= extent ==> div_ceil_spec(extent, s) == extent / s,
        0 <= s * div_ceil_spec(extent, s) <= extent + s,
{
    assert(extent == s * (extent / s) + extent % s && 0 <= extent % s < s) by (nonlinear_arith)
        requires
            s > 0,
    ;
    assert(s * (extent / s + 1) == s * (extent / s) + s) by (nonlinear_arith);
    assert(extent / s >= 0) by (nonlinear_arith)
        requires
            extent >= 0,
            s > 0,
    ;
}

/// Coordinate of one seed along an axis, or `None` where it does not
/// fit the coordinate type (such a position lies outside any image).
fn axis_coordinate(index: u32, count: u32, s: u32, extent: u32) -> (r: Option<u32>)
    requires
        s > 0,
        index < count,
        count == 1 || count as int * s as int <= extent as int,
    ensures
        r == if seed_coordinate(index as int, count as int, s as int, extent as int) <= u32::MAX {
            Some(seed_coordinate(index as int, count as int, s as int, extent as int) as u32)
        } else {
            None
        },
        seed_coordinate(index as int, count as int, s as int, extent as int) >= 0,
{
    let half_s: u32 = s / 2;
    assert(count as u64 * s as u64 <= 0xffff_ffff * 0xffff_ffff) by (nonlinear_arith)
        requires
            count <= 0xffff_ffff,
            s <= 0xffff_ffff,
    ;
    let covered: u64 = (count as u64) * (s as u64);
    let correction: u64 = if covered <= extent as u64 {
        let spare: u64 = extent as u64 - covered;
        assert(index as u64 * spare <= 0xffff_ffff * 0xffff_ffff) by (nonlinear_arith)
            requires
                index <= 0xffff_ffff,
                spare <= 0xffff_ffff,
        ;
        assert(index as int * (extent as int - count as int * s as int) == index as u64 * spare);
        (index as u64) * spare / (count as u64)
    } else {
        assert(index == 0);
        assert(index as int * (extent as int - count as int * s as int) == 0) by (nonlinear_arith)
            requires
                index == 0,
        ;
        0
    };
    assert(index as u64 * s as u64 <= 0xffff_ffff * 0xffff_ffff) by (nonlinear_arith)
        requires
            index <= 0xffff_ffff,
            s <= 0xffff_ffff,
    ;
    assert(correction <= 0xffff_ffff * 0xffff_ffff);
    let position: u128 = (index as u128) * (s as u128) + half_s as u128 + correction as u128;
    if position <= u32::MAX as u128 {
        Some(position as u32)
    } else {
        None
    }
}

/// Fill `seeds` with the grid of seeds once room for them was asked for.
/// A failed reservation is handed on as the error; after a granted one
/// every seed of the grid is placed.
pub fn place_seeds<T: Copy>(
    reserved: Result<(), TryReserveError>,
    width: u32,
    height: u32,
    s: u32,
    x_seeds: u32,
    y_seeds: u32,
    image: &[T],
    seeds: &mut Vec<Superpixel<T>>,
) -> (r: Result<(), ScError>)
    requires
        s > 0,
        x_seeds > 0,
        y_seeds > 0,
        x_seeds == 1 || x_seeds as int * axis_interval(s as int, width as int) <= width as int,
        y_seeds == 1 || y_seeds as int * axis_interval(s as int, height as int) <= height as int,
        old(seeds)@.len() == 0,
    ensures
        match reserved {
            Ok(()) => r is Ok && final(seeds)@ == seeds_upto(
                x_seeds as int * y_seeds as int,
                x_seeds as int,
                y_seeds as int,
                width as int,
                height as int,
                s as int,
                image@,
            ),
            Err(e) => r == Err::<(), ScError>(ScError::Reserve(e)) && final(seeds)@.len() == 0,
        },
{
    match reserved {
        Err(e) => {
            return Err(ScError::Reserve(e));
        },
        Ok(()) => {},
    }
    let sx: u32 = interval(s, width);
    let sy: u32 = interval(s, height);
    let mut ydx: u32 = 0;
    assert(seeds@ =~= seeds_upto(
        0,
        x_seeds as int,
        y_seeds as int,
        width as int,
        height as int,
        s as int,
        image@,
    ));
    while ydx < y_seeds
        invariant
            s > 0,
            x_seeds > 0,
            y_seeds > 0,
            sx == axis_interval(s as int, width as int),
            sy == axis_interval(s as int, height as int),
            sx > 0,
            sy > 0,
            x_seeds == 1 || x_seeds as int * sx as int <= width as int,
            y_seeds == 1 || y_seeds as int * sy as int <= height as int,
            ydx <= y_seeds,
            seeds@ == seeds_upto(
                ydx as int * x_seeds as int,
                x_seeds as int,
                y_seeds as int,
                width as int,
                height as int,
                s as int,
                image@,
            ),
        decreases y_seeds - ydx,
    {
        let y = axis_coordinate(ydx, y_seeds, sy, height);
        let mut xdx: u32 = 0;
        while xdx < x_seeds
            invariant
                s > 0,
                x_seeds > 0,
                y_seeds > 0,
                sx == axis_interval(s as int, width as int),
                sy == axis_interval(s as int, height as int),
                sx > 0,
                x_seeds == 1 || x_seeds as int * sx as int <= width as int,
                ydx < y_seeds,
                xdx <= x_seeds,
                y == if seed_coordinate(ydx as int, y_seeds as int, sy as int, height as int)
                    <= u32::MAX {
                    Some(
                        seed_coordinate(ydx as int, y_seeds as int, sy as int, height as int) as u32,
                    )
                } else {
                    None
                },
                seed_coordinate(ydx as int, y_seeds as int, sy as int, height as int) >= 0,
                seeds@ == seeds_upto(
                    ydx as int * x_seeds as int + xdx as int,
                    x_seeds as int,
                    y_seeds as int,
                    width as int,
                    height as int,
                    s as int,
                    image@,
                ),
            decreases x_seeds - xdx,
        {
            let x = axis_coordinate(xdx, x_seeds, sx, width);
            proof {
                let n = ydx as int * x_seeds as int + xdx as int;
                lemma_fundamental_div_mod_converse(n, x_seeds as int, ydx as int, xdx as int);
            }
            match (x, y) {
                (Some(x), Some(y)) => {
                    if x < width && y < height {
                        assert(y as u64 * width as u64 <= 0xffff_ffff * 0xffff_ffff)
                            by (nonlinear_arith)
                            requires
                                y <= 0xffff_ffff,
                                width <= 0xffff_ffff,
                        ;
                        let i: u64 = (y as u64) * (width as u64) + (x as u64);
                        if i < image.len() as u64 {
                            seeds.push(Superpixel { data: image[i as usize], x, y });
                        }
                    }
                },
                _ => {},
            }
            xdx += 1;
        }
        assert((ydx + 1) as int * x_seeds as int == ydx as int * x_seeds as int + x_seeds as int)
            by (nonlinear_arith);
        ydx += 1;
    }
    assert(y_seeds as int * x_seeds as int == x_seeds as int * y_seeds as int)
        by (nonlinear_arith);
    Ok(())
}

/// The colour at `(x, y)`, or the zero colour outside the image.
pub open spec fn color_at(width: int, x: int, y: int, image: Seq<Lab>) -> Lab {
    if in_bounds(width, x, y, image.len() as int) {
        image[flat_index(width, x, y)]
    } else {
        Lab::zero()
    }
}

/// The gradient estimate at `(x, y)`: the distance between the colours
/// to the right and to the left plus that between the colours below
/// and above.
pub open spec fn gradient_spec(width: int, x: int, y: int, image: Seq<Lab>) -> int {
    distance_lab_spec(color_at(width, x + 1, y, image), color_at(width, x - 1, y, image))
        + distance_lab_spec(color_at(width, x, y + 1, image), color_at(width, x, y - 1, image))
}

/// Column offset of the candidate number `j` of a 3x3 neighbourhood
/// that is walked row by row.
pub open spec fn candidate_dx(j: int) -> int {
    j % 3 - 1
}

/// Row offset of the candidate number `j`.
pub open spec fn candidate_dy(j: int) -> int {
    j / 3 - 1
}

/// Whether the candidate number `j` around `(x, y)` lies in the image.
pub open spec fn candidate_in_image(j: int, width: int, x: int, y: int, image: Seq<Lab>) -> bool {
    in_bounds(width, x + candidate_dx(j), y + candidate_dy(j), image.len() as int)
}

/// The gradient at the candidate number `j` around `(x, y)`.
pub open spec fn candidate_gradient(j: int, width: int, x: int, y: int, image: Seq<Lab>) -> int {
    gradient_spec(width, x + candidate_dx(j), y + candidate_dy(j), image)
}

/// Among the first `n` candidates around `(x, y)`, the number of the one
/// with the lowest gradient, the earliest of them where several share
/// it; `None` if none of them lies in the image.
pub open spec fn best_candidate(n: int, width: int, x: int, y: int, image: Seq<Lab>) -> Option<int>
    decreases n,
{
    if n <= 0 {
        None
    } else {
        let j = n - 1;
        match best_candidate(j, width, x, y, image) {
            None => if candidate_in_image(j, width, x, y, image) {
                Some(j)
            } else {
                None
            },
            Some(b) => if candidate_in_image(j, width, x, y, image) && candidate_gradient(
                j,
                width,
                x,
                y,
                image,
            ) < candidate_gradient(b, width, x, y, image) {
                Some(j)
            } else {
                Some(b)
            },
        }
    }
}

/// The candidate that `best_candidate` names lies in the image, no
/// candidate in the image has a lower gradient, and none before it has
/// the same.  Where it names none, no candidate lies in the image.
pub proof fn lemma_best_candidate(n: int, width: int, x: int, y: int, image: Seq<Lab>)
    ensures
        match best_candidate(n, width, x, y, image) {
            None => forall|j: int| 0 <= j < n ==> !candidate_in_image(j, width, x, y, image),
            Some(b) => {
                &&& 0 <= b < n
                &&& candidate_in_image(b, width, x, y, image)
                &&& forall|j: int|
                    0 <= j < n && candidate_in_image(j, width, x, y, image)
                        ==> candidate_gradient(b, width, x, y, image) <= #[trigger] candidate_gradient(
                        j,
                        width,
                        x,
                        y,
                        image,
                    )
                &&& forall|j: int|
                    0 <= j < b && candidate_in_image(j, width, x, y, image)
                        ==> candidate_gradient(b, width, x, y, image) < #[trigger] candidate_gradient(
                        j,
                        width,
                        x,
                        y,
                        image,
                    )
            },
        },
    decreases n,
{
    if n > 0 {
        lemma_best_candidate(n - 1, width, x, y, image);
    }
}

/// The seed after perturbation, given the candidate that won.
pub open spec fn perturbed(seed: Superpixel<Lab>, width: int, image: Seq<Lab>) -> Superpixel<Lab> {
    match best_candidate(9, width, seed.x as int, seed.y as int, image) {
        None => seed,
        Some(j) => {
            let x = seed.x + candidate_dx(j);
            let y = seed.y + candidate_dy(j);
            Superpixel { data: image[flat_index(width, x, y)], x: x as u32, y: y as u32 }
        },
    }
}

/// Whether the candidate that wins around `seed` has coordinates that
/// the seed can hold.
pub open spec fn perturb_fits(seed: Superpixel<Lab>, width: int, image: Seq<Lab>) -> bool {
    match best_candidate(9, width, seed.x as int, seed.y as int, image) {
        None => true,
        Some(j) => seed.x + candidate_dx(j) <= u32::MAX && seed.y + candidate_dy(j) <= u32::MAX,
    }
}

/// The colour at `(x, y)`, or the zero colour outside the image.
fn color_or_zero(width: i64, height: i64, x: i64, y: i64, image: &[Lab]) -> (c: Lab)
    ensures
        c == color_at(width as int, x as int, y as int, image@),
{
    match get_in_bounds(width, height, x, y, image) {
        Some(color) => *color,
        None => Lab::default(),
    }
}

/// The gradient estimate at `(x, y)`.
fn gradient(width: i64, height: i64, x: i64, y: i64, image: &[Lab]) -> (g: u64)
    requires
        -1 <= x <= u32::MAX + 1,
        -1 <= y <= u32::MAX + 1,
    ensures
        g == gradient_spec(width as int, x as int, y as int, image@),
{
    let a = color_or_zero(width, height, x + 1, y, image);
    let b = color_or_zero(width, height, x - 1, y, image);
    let c = color_or_zero(width, height, x, y + 1, image);
    let d = color_or_zero(width, height, x, y - 1, image);
    let horizontal: u64 = distance_lab(a, b);
    let vertical: u64 = distance_lab(c, d);
    proof {
        lemma_distance_lab_bound(a, b);
        lemma_distance_lab_bound(c, d);
    }
    horizontal + vertical
}

/// Find the lowest gradient in a 3x3 neighborhood for a seed.
///
/// This step minimizes the chance that a noisy pixel is chosen as a
/// seed.  The seed moves to the position of the lowest gradient in its
/// neighbourhood, the first in row order where several share it, and
/// takes the colour found there.  Where that position does not fit the
/// seed's coordinates the seed stays as it is and the error says so.
pub fn perturb(seed: &mut Superpixel<Lab>, width: i64, height: i64, image: &[Lab]) -> (r: Result<
    (),
    ScError,
>)
    ensures
        perturb_fits(*old(seed), width as int, image@) ==> r is Ok && *final(seed) == perturbed(
            *old(seed),
            width as int,
            image@,
        ),
        !perturb_fits(*old(seed), width as int, image@) ==> r == Err::<(), ScError>(
            ScError::SeedError(SeedErrorKind::PerturbConversion),
        ) && *final(seed) == *old(seed),
{
    let sp_x: i64 = seed.x as i64;
    let sp_y: i64 = seed.y as i64;
    let mut best: Option<(u64, Lab, i64, i64)> = None;
    let ghost mut best_j: Option<int> = None;
    let mut j: i64 = 0;
    while j < 9
        invariant
            0 <= j <= 9,
            sp_x == seed.x,
            sp_y == seed.y,
            *seed == *old(seed),
            best_j == best_candidate(j as int, width as int, sp_x as int, sp_y as int, image@),
            best is Some <==> best_j is Some,
            best matches Some(found) ==> {
                let b = best_j.unwrap();
                &&& 0 <= b < j
                &&& candidate_in_image(b, width as int, sp_x as int, sp_y as int, image@)
                &&& found.0 == candidate_gradient(b, width as int, sp_x as int, sp_y as int, image@)
                &&& found.2 == sp_x + candidate_dx(b)
                &&& found.3 == sp_y + candidate_dy(b)
                &&& found.1 == image@[flat_index(width as int, found.2 as int, found.3 as int)]
            },
        decreases 9 - j,
    {
        let x: i64 = sp_x + (j % 3 - 1);
        let y: i64 = sp_y + (j / 3 - 1);
        match get_in_bounds(width, height, x, y, image) {
            Some(color) => {
                let g: u64 = gradient(width, height, x, y, image);
                let better: bool = match best {
                    None => true,
                    Some(found) => g < found.0,
                };
                if better {
                    best = Some((g, *color, x, y));
                    proof {
                        best_j = Some(j as int);
                    }
                }
            },
            None => {},
        }
        j += 1;
    }
    match best {
        None => Ok(()),
        Some(found) => {
            if found.2 <= u32::MAX as i64 && found.3 <= u32::MAX as i64 {
                seed.data = found.1;
                seed.x = found.2 as u32;
                seed.y = found.3 as u32;
                Ok(())
            } else {
                Err(ScError::SeedError(SeedErrorKind::PerturbConversion))
            }
        },
    }
}

/// The seeds of the grid, each moved to the lowest gradient in its
/// neighbourhood.
pub open spec fn initial_centers(width: int, height: int, s: int, k: int, image: Seq<Lab>) -> Seq<
    Superpixel<Lab>,
> {
    let seeds = seeds_spec(width, height, s, k, image);
    Seq::new(seeds.len(), |i: int| perturbed(seeds[i], width, image))
}

/// In an image of `width * height` pixels the lowest gradient around a
/// seed lies at a position that the seed can hold.
pub proof fn lemma_perturb_fits(seed: Superpixel<Lab>, width: u32, height: u32, image: Seq<Lab>)
    requires
        image.len() == width as int * height as int,
    ensures
        perturb_fits(seed, width as int, image),
{
    lemma_best_candidate(9, width as int, seed.x as int, seed.y as int, image);
    match best_candidate(9, width as int, seed.x as int, seed.y as int, image) {
        Some(j) => {
            assert(candidate_in_image(j, width as int, seed.x as int, seed.y as int, image));
            lemma_in_bounds_row(
                width as int,
                height as int,
                seed.x + candidate_dx(j),
                seed.y + candidate_dy(j),
            );
        },
        None => {},
    }
}

/// Every initial centre lies inside the image.
pub proof fn lemma_initial_centers_in_image(
    width: u32,
    height: u32,
    s: int,
    k: int,
    image: Seq<Lab>,
)
    requires
        image.len() == width as int * height as int,
    ensures
        forall|i: int|
            0 <= i < initial_centers(width as int, height as int, s, k, image).len() ==> (
            #[trigger] initial_centers(width as int, height as int, s, k, image)[i]).x < width
                && initial_centers(width as int, height as int, s, k, image)[i].y < height,
{
    let centers = initial_centers(width as int, height as int, s, k, image);
    let (x_seeds, y_seeds) = seed_counts(width as int, height as int, s, k);
    let seeds = seeds_spec(width as int, height as int, s, k, image);
    lemma_seeds_upto_in_image(
        x_seeds * y_seeds,
        x_seeds,
        y_seeds,
        width as int,
        height as int,
        s,
        image,
    );
    assert forall|i: int| 0 <= i < centers.len() implies (#[trigger] centers[i]).x < width
        && centers[i].y < height by {
        let seed = seeds[i];
        lemma_best_candidate(9, width as int, seed.x as int, seed.y as int, image);
        match best_candidate(9, width as int, seed.x as int, seed.y as int, image) {
            Some(j) => {
                assert(candidate_in_image(j, width as int, seed.x as int, seed.y as int, image));
                lemma_in_bounds_row(
                    width as int,
                    height as int,
                    seed.x + candidate_dx(j),
                    seed.y + candidate_dy(j),
                );
            },
            None => {},
        }
    }
}

/// Lay out the seeds and move each to the lowest gradient in its
/// neighbourhood.
pub fn initial_clusters(width: u32, height: u32, s: u32, k: u32, image: &[Lab]) -> (r: Result<
    Vec<Superpixel<Lab>>,
    ScError,
>)
    requires
        s > 0,
        image@.len() == width as int * height as int,
    ensures
        match r {
            Ok(clusters) => clusters@ == initial_centers(
                width as int,
                height as int,
                s as int,
                k as int,
                image@,
            ),
            Err(e) => if seed_total(width as int, height as int, s as int, k as int)
                > usize::MAX {
                e == ScError::SeedError(SeedErrorKind::InvalidTotalSeeds)
            } else {
                e is Reserve
            },
        },
{
    let mut clusters: Vec<Superpixel<Lab>> = Vec::new();
    match init_seeds(width, height, s, k, image, &mut clusters) {
        Ok(()) => {},
        Err(e) => {
            return Err(e);
        },
    }
    let ghost seeds = clusters@;
    let mut i: usize = 0;
    while i < clusters.len()
        invariant
            i <= clusters@.len(),
            clusters@.len() == seeds.len(),
            image@.len() == width as int * height as int,
            forall|j: int| 0 <= j < i ==> #[trigger] clusters@[j] == perturbed(seeds[j], width as int, image@),
            forall|j: int| i <= j < seeds.len() ==> #[trigger] clusters@[j] == seeds[j],
        decreases clusters@.len() - i,
    {
        let mut seed: Superpixel<Lab> = clusters[i];
        proof {
            lemma_perturb_fits(seed, width, height, image@);
        }
        match perturb(&mut seed, width as i64, height as i64, image) {
            Ok(()) => {},
            Err(e) => {
                return Err(e);
            },
        }
        clusters[i] = seed;
        i += 1;
    }
    assert(clusters@ =~= initial_centers(width as int, height as int, s as int, k as int, image@));
    Ok(clusters)
}

} // verus!
