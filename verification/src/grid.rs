//! The grid of pixels: flat indices, access that checks its bounds, and
//! what holds of positions next to each other.
use vstd::arithmetic::div_mod::{lemma_fundamental_div_mod, lemma_fundamental_div_mod_converse};
use vstd::prelude::*;

verus! {

/// Whether the pixel `(x, y)` of a row-major grid with rows of `width`
/// entries lies inside a buffer of `len` entries.
pub open spec fn in_bounds(width: int, x: int, y: int, len: int) -> bool {
    0 <= x < width && 0 <= y && y * width + x < len
}

/// Flat index of the pixel `(x, y)` in a row-major grid with rows of
/// `width` entries.
pub open spec fn flat_index(width: int, x: int, y: int) -> int {
    y * width + x
}

/// Flat index of `(x, y)` when it lies inside a buffer of `len` entries.
pub fn index_in_bounds(width: i64, x: i64, y: i64, len: usize) -> (r: Option<usize>)
    ensures
        r == if in_bounds(width as int, x as int, y as int, len as int) {
            Some(flat_index(width as int, x as int, y as int) as usize)
        } else {
            None
        },
{
    if 0 <= x && x < width && 0 <= y {
        assert(y as int * width as int >= 0) by (nonlinear_arith)
            requires
                y >= 0,
                width > 0,
        ;
        match (y as u64).checked_mul(width as u64) {
            Some(row) => match row.checked_add(x as u64) {
                Some(i) => if i < len as u64 {
                    Some(i as usize)
                } else {
                    None
                },
                None => None,
            },
            None => None,
        }
    } else {
        None
    }
}

/// The entry of `image` at `(x, y)`, if that position lies inside it.
pub fn get_in_bounds<'a, T>(width: i64, _height: i64, x: i64, y: i64, image: &'a [T]) -> (r:
    Option<&'a T>)
    ensures
        r == if in_bounds(width as int, x as int, y as int, image@.len() as int) {
            Some(&image@[flat_index(width as int, x as int, y as int)])
        } else {
            None
        },
{
    match index_in_bounds(width, x, y, image.len()) {
        Some(i) => Some(&image[i]),
        None => None,
    }
}

/// Mutable access to the entry of `image` at `(x, y)`, if that position
/// lies inside it.
pub fn get_mut_in_bounds<'a, T>(
    width: i64,
    _height: i64,
    x: i64,
    y: i64,
    image: &'a mut [T],
) -> (r: Option<&'a mut T>)
    ensures
        in_bounds(width as int, x as int, y as int, old(image)@.len() as int) ==> r is Some
            && *r.unwrap() == old(image)@[flat_index(width as int, x as int, y as int)]
            && final(image)@ == old(image)@.update(
            flat_index(width as int, x as int, y as int),
            *final(r.unwrap()),
        ),
        !in_bounds(width as int, x as int, y as int, old(image)@.len() as int) ==> r is None
            && final(image)@ == old(image)@,
{
    match index_in_bounds(width, x, y, image.len()) {
        Some(i) => Some(&mut image[i]),
        None => None,
    }
}

/// The flat index of a pixel inside the image is below the number of
/// pixels, and gives back the pixel's coordinates.
pub proof fn lemma_flat_index(width: int, height: int, x: int, y: int)
    requires
        0 <= x < width,
        0 <= y < height,
    ensures
        0 <= y * width + x < width * height,
        (y * width + x) % width == x,
        (y * width + x) / width == y,
{
    assert(0 <= y * width && (y + 1) * width <= height * width && (y + 1) * width == y * width
        + width && height * width == width * height) by (nonlinear_arith)
        requires
            0 <= y < height,
            0 < width,
    ;
    lemma_fundamental_div_mod_converse(y * width + x, width, y, x);
}

/// The coordinates of the pixel with the flat index `i` lie inside the
/// image.
pub proof fn lemma_pixel_of_index(width: int, height: int, i: int)
    requires
        0 <= i < width * height,
        0 < width,
    ensures
        0 <= i % width < width,
        0 <= i / width < height,
        i == (i / width) * width + i % width,
{
    lemma_fundamental_div_mod(i, width);
    assert(0 <= i % width < width) by (nonlinear_arith)
        requires
            0 < width,
    ;
    let q = i / width;
    let r = i % width;
    assert(0 <= q < height) by (nonlinear_arith)
        requires
            i == width * q + r,
            0 <= r < width,
            0 <= i < width * height,
    ;
    assert(width * q == q * width) by (nonlinear_arith);
}

/// A position lies in an image of `width * height` pixels exactly if its
/// column is below `width` and its row below `height`.
pub proof fn lemma_in_image(width: int, height: int, x: int, y: int)
    requires
        0 <= height,
    ensures
        in_bounds(width, x, y, width * height) <==> 0 <= x < width && 0 <= y < height,
        in_bounds(width, x, y, width * height) ==> 0 <= flat_index(width, x, y) < width * height,
{
    if in_bounds(width, x, y, width * height) {
        lemma_in_bounds_row(width, height, x, y);
    }
    if 0 <= x < width && 0 <= y < height {
        lemma_flat_index(width, height, x, y);
    }
}

/// A position inside a grid of `width * height` entries has a row
/// below `height`.
pub proof fn lemma_in_bounds_row(width: int, height: int, x: int, y: int)
    requires
        0 <= height,
        in_bounds(width, x, y, width * height),
    ensures
        0 <= y < height,
        0 <= y * width + x < width * height,
{
    assert(y < height) by (nonlinear_arith)
        requires
            0 <= x < width,
            0 <= y,
            y * width + x < width * height,
    ;
    assert(0 <= y * width) by (nonlinear_arith)
        requires
            0 <= y,
            0 < width,
    ;
}

/// Two pixels of an image with one flat index are one pixel.
pub proof fn lemma_flat_index_injective(
    width: int,
    height: int,
    x1: int,
    y1: int,
    x2: int,
    y2: int,
)
    requires
        0 <= x1 < width,
        0 <= y1 < height,
        0 <= x2 < width,
        0 <= y2 < height,
        flat_index(width, x1, y1) == flat_index(width, x2, y2),
    ensures
        x1 == x2,
        y1 == y2,
{
    lemma_flat_index(width, height, x1, y1);
    lemma_flat_index(width, height, x2, y2);
}

/// Whether whatever holds at a pixel of the grid holds at each of its
/// four neighbours in the grid as well.
pub open spec fn spreads(p: spec_fn(int, int) -> bool, width: int, height: int) -> bool {
    forall|x: int, y: int|
        0 <= x < width && 0 <= y < height && #[trigger] p(x, y) ==> {
            &&& x >= 1 ==> p(x - 1, y)
            &&& y >= 1 ==> p(x, y - 1)
            &&& x + 1 < width ==> p(x + 1, y)
            &&& y + 1 < height ==> p(x, y + 1)
        }
}

/// A grid is connected: what holds at one pixel, and passes from every
/// pixel to its neighbours, holds at every pixel.
pub proof fn lemma_grid_connected(
    p: spec_fn(int, int) -> bool,
    width: int,
    height: int,
    x0: int,
    y0: int,
    x: int,
    y: int,
)
    requires
        spreads(p, width, height),
        0 <= x0 < width,
        0 <= y0 < height,
        0 <= x < width,
        0 <= y < height,
        p(x0, y0),
    ensures
        p(x, y),
    decreases
            (if x >= x0 {
                x - x0
            } else {
                x0 - x
            }) + (if y >= y0 {
                y - y0
            } else {
                y0 - y
            }),
{
    if x > x0 {
        lemma_grid_connected(p, width, height, x0, y0, x - 1, y);
        assert(p(x - 1, y));
    } else if x < x0 {
        lemma_grid_connected(p, width, height, x0, y0, x + 1, y);
        assert(p(x + 1, y));
    } else if y > y0 {
        lemma_grid_connected(p, width, height, x0, y0, x, y - 1);
        assert(p(x, y - 1));
    } else if y < y0 {
        lemma_grid_connected(p, width, height, x0, y0, x, y + 1);
        assert(p(x, y + 1));
    }
}

/// How many of the first `n` entries of `labels` are `value`.
pub open spec fn count_of(labels: Seq<usize>, value: usize, n: int) -> int
    decreases n,
{
    if n <= 0 {
        0
    } else {
        count_of(labels, value, n - 1) + if labels[n - 1] == value {
            1int
        } else {
            0int
        }
    }
}

/// A count lies between `0` and the number of entries counted over.
pub proof fn lemma_count_of_bounds(labels: Seq<usize>, value: usize, n: int)
    ensures
        0 <= count_of(labels, value, n),
        n >= 0 ==> count_of(labels, value, n) <= n,
    decreases n,
{
    if n > 0 {
        lemma_count_of_bounds(labels, value, n - 1);
    }
}

/// Replacing one entry that is `value` by another value lowers the
/// count of `value` by one.
pub proof fn lemma_count_of_update(labels: Seq<usize>, value: usize, n: int, i: int, v: usize)
    requires
        0 <= i < labels.len(),
        n <= labels.len(),
        labels[i] == value,
        v != value,
    ensures
        count_of(labels.update(i, v), value, n) == count_of(labels, value, n) - if i < n {
            1int
        } else {
            0int
        },
    decreases n,
{
    if n > 0 {
        lemma_count_of_update(labels, value, n - 1, i, v);
    }
}

/// Where every entry that is `value` stays `value`, the count of
/// `value` does not fall.
pub proof fn lemma_count_of_kept(before: Seq<usize>, after: Seq<usize>, value: usize, n: int)
    requires
        n <= before.len(),
        before.len() == after.len(),
        forall|i: int| 0 <= i < n && before[i] == value ==> #[trigger] after[i] == value,
    ensures
        count_of(before, value, n) <= count_of(after, value, n),
    decreases n,
{
    if n > 0 {
        lemma_count_of_kept(before, after, value, n - 1);
    }
}

/// Entries that are `value` at places that are all different count for
/// as many as there are places.
pub proof fn lemma_count_of_at_least(labels: Seq<usize>, value: usize, places: Seq<int>)
    requires
        forall|j: int|
            0 <= j < places.len() ==> 0 <= #[trigger] places[j] < labels.len()
                && labels[places[j]] == value,
        forall|i: int, j: int|
            0 <= i < j < places.len() ==> #[trigger] places[i] != #[trigger] places[j],
    ensures
        count_of(labels, value, labels.len() as int) >= places.len(),
    decreases places.len(),
{
    lemma_count_of_bounds(labels, value, labels.len() as int);
    if places.len() > 0 {
        let last = places[places.len() - 1];
        let other: usize = if value == 0 {
            1
        } else {
            0
        };
        let rest = places.drop_last();
        let cleared = labels.update(last, other);
        assert forall|j: int| 0 <= j < rest.len() implies 0 <= #[trigger] rest[j] < cleared.len()
            && cleared[rest[j]] == value by {
            assert(rest[j] == places[j]);
            assert(places[j] != places[places.len() - 1]);
        }
        assert forall|i: int, j: int| 0 <= i < j < rest.len() implies #[trigger] rest[i]
            != #[trigger] rest[j] by {
            assert(rest[i] == places[i] && rest[j] == places[j]);
        }
        lemma_count_of_at_least(cleared, value, rest);
        lemma_count_of_update(labels, value, labels.len() as int, last, other);
    }
}

} // verus!
