//! Functions for interacting with image labels and manipulating images.
use crate::error::ScError;
use crate::{flat_index, get_in_bounds, in_bounds, try_filled};
use fxhash::{FxHashMap, FxHashSet};
use vstd::arithmetic::div_mod::lemma_fundamental_div_mod_converse;
use vstd::prelude::*;

verus! {

/// The hasher of the `fxhash` crate, of which nothing is looked into.
#[verifier::external_type_specification]
#[verifier::external_body]
pub struct ExFxHasher(fxhash::FxHasher);

/// The builder that std makes of a hasher with a default value.
#[verifier::external_type_specification]
#[verifier::external_body]
#[verifier::reject_recursive_types(H)]
pub struct ExBuildHasherDefault<H>(std::hash::BuildHasherDefault<H>);

/// The labels that a hash set of the `fxhash` crate holds.
pub uninterp spec fn label_set(set: FxHashSet<usize>) -> Set<usize>;

/// `FxHashSet::default()`: a set that holds nothing.
#[verifier::external_body]
fn new_label_set() -> (set: FxHashSet<usize>)
    ensures
        label_set(set) == Set::<usize>::empty(),
{
    FxHashSet::default()
}

/// `HashSet::insert` on a set of the `fxhash` crate: afterwards the set
/// holds `label` besides what it held.
#[verifier::external_body]
fn insert_label(set: &mut FxHashSet<usize>, label: usize)
    ensures
        label_set(*final(set)) == label_set(*old(set)).insert(label),
{
    let _ = set.insert(label);
}

/// `HashSet::len` on a set of the `fxhash` crate: the number of labels
/// that the set holds.
#[verifier::external_body]
fn label_set_len(set: &FxHashSet<usize>) -> (n: usize)
    ensures
        n == label_set(*set).len(),
{
    set.len()
}

/// Count the number of unique labels in a slice of superpixel labels.
pub fn count_colors(labels: &[usize]) -> (n: usize)
    ensures
        n == labels@.to_set().len(),
{
    let mut set: FxHashSet<usize> = new_label_set();
    let mut i: usize = 0;
    while i < labels.len()
        invariant
            i <= labels@.len(),
            label_set(set) == labels@.subrange(0, i as int).to_set(),
        decreases labels@.len() - i,
    {
        insert_label(&mut set, labels[i]);
        proof {
            let before = labels@.subrange(0, i as int);
            let after = labels@.subrange(0, i + 1);
            assert(after =~= before.push(labels@[i as int]));
            assert(after.to_set() =~= before.to_set().insert(labels@[i as int])) by {
                assert forall|v: usize| after.to_set().contains(v) implies before.to_set().insert(
                    labels@[i as int],
                ).contains(v) by {
                    let j = choose|j: int| 0 <= j < after.len() && after[j] == v;
                    if j < i {
                        assert(before[j] == v);
                    }
                }
                assert forall|v: usize|
                    before.to_set().insert(labels@[i as int]).contains(
                        v,
                    ) implies after.to_set().contains(v) by {
                    if v == labels@[i as int] {
                        assert(after[i as int] == v);
                    } else {
                        let j = choose|j: int| 0 <= j < before.len() && before[j] == v;
                        assert(after[j] == v);
                    }
                }
            }
        }
        i += 1;
    }
    assert(labels@.subrange(0, i as int) =~= labels@);
    label_set_len(&set)
}

/// Whether a buffer of `output_len` bytes holds three bytes for each
/// of the `image_len` pixels of an image.
pub fn holds_mean_buffer(output_len: usize, image_len: usize) -> (b: bool)
    ensures
        b == (output_len == 3 * image_len),
{
    match image_len.checked_mul(3) {
        Some(needed) => output_len == needed,
        None => false,
    }
}

/// The colours that a hash map of the `fxhash` crate holds for labels.
pub uninterp spec fn color_map(map: FxHashMap<usize, [u8; 3]>) -> Map<usize, [u8; 3]>;

/// `HashMap::get` on a map of the `fxhash` crate: the colour that the
/// map holds for `label`, if it holds one.
#[verifier::external_body]
fn segment_color(map: &FxHashMap<usize, [u8; 3]>, label: usize) -> (color: Option<[u8; 3]>)
    ensures
        color == if color_map(*map).contains_key(label) {
            Some(color_map(*map)[label])
        } else {
            None
        },
{
    map.get(&label).copied()
}

/// The image and the number of pixels painted after the first `n`
/// labels were taken up: every label that has a colour paints the next
/// pixel of `output`, as long as there is one.
pub open spec fn filled_upto(
    output: Seq<u8>,
    labels: Seq<usize>,
    colors: Map<usize, [u8; 3]>,
    n: int,
) -> (Seq<u8>, int)
    decreases n,
{
    if n <= 0 {
        (output, 0)
    } else {
        let before = filled_upto(output, labels, colors, n - 1);
        if before.1 < output.len() / 3 && colors.contains_key(labels[n - 1]) {
            (painted(before.0, before.1, colors[labels[n - 1]]@), before.1 + 1)
        } else {
            before
        }
    }
}

/// Modify `output` to contain an RGB image of superpixel segments
/// filled with the colours that `colors` holds for their labels.
///
/// The pixels of `output` are painted in their order, one for every
/// label that has a colour.
pub fn fill_segments(output: &mut [u8], labels: &[usize], colors: &FxHashMap<usize, [u8; 3]>)
    ensures
        final(output)@ == filled_upto(
            old(output)@,
            labels@,
            color_map(*colors),
            labels@.len() as int,
        ).0,
{
    let ghost start = output@;
    let chunks: usize = output.len() / 3;
    let mut used: usize = 0;
    let mut i: usize = 0;
    while i < labels.len()
        invariant
            i <= labels@.len(),
            start.len() <= usize::MAX,
            output@.len() == start.len(),
            chunks == start.len() / 3,
            used <= chunks,
            (output@, used as int) == filled_upto(start, labels@, color_map(*colors), i as int),
        decreases labels@.len() - i,
    {
        if used < chunks {
            match segment_color(colors, labels[i]) {
                Some(color) => {
                    output[3 * used] = color[0];
                    output[3 * used + 1] = color[1];
                    output[3 * used + 2] = color[2];
                    used += 1;
                },
                None => {},
            }
        }
        i += 1;
    }
}

/// The drawing of contours, part of the way through.
pub struct Contours {
    /// The image, three bytes for every pixel.
    pub output: Seq<u8>,
    /// For every pixel, whether it was painted as a part of a contour.
    pub segment: Seq<bool>,
}

/// The drawing with the given parts.
pub open spec fn contours(output: Seq<u8>, segment: Seq<bool>) -> Contours {
    Contours { output, segment }
}

/// `1` if the pixel `(x, y)` lies in the image, is no part of a contour
/// and has another label than `label`; `0` otherwise.
pub open spec fn border_weight(
    labels: Seq<usize>,
    segment: Seq<bool>,
    width: int,
    x: int,
    y: int,
    label: usize,
) -> int {
    if in_bounds(width, x, y, segment.len() as int) && !segment[flat_index(width, x, y)] && !(
    in_bounds(width, x, y, labels.len() as int) && labels[flat_index(width, x, y)] == label) {
        1
    } else {
        0
    }
}

/// How many of the eight neighbours of `(x, y)` are no part of a contour
/// and have another label than the pixel with the label `label`.
pub open spec fn border_count(
    labels: Seq<usize>,
    segment: Seq<bool>,
    width: int,
    x: int,
    y: int,
    label: usize,
) -> int {
    border_weight(labels, segment, width, x - 1, y, label) + border_weight(
        labels,
        segment,
        width,
        x - 1,
        y - 1,
        label,
    ) + border_weight(labels, segment, width, x, y - 1, label) + border_weight(
        labels,
        segment,
        width,
        x + 1,
        y - 1,
        label,
    ) + border_weight(labels, segment, width, x + 1, y, label) + border_weight(
        labels,
        segment,
        width,
        x + 1,
        y + 1,
        label,
    ) + border_weight(labels, segment, width, x, y + 1, label) + border_weight(
        labels,
        segment,
        width,
        x - 1,
        y + 1,
        label,
    )
}

/// `output` with the three bytes of the pixel number `p` set to `color`.
pub open spec fn painted(output: Seq<u8>, p: int, color: Seq<u8>) -> Seq<u8> {
    output.update(3 * p, color[0]).update(3 * p + 1, color[1]).update(3 * p + 2, color[2])
}

/// Take up the pixel number `p`: it becomes a part of a contour, and is
/// painted, if at least two of its neighbours count for `border_count`.
pub open spec fn contour_pixel(
    st: Contours,
    labels: Seq<usize>,
    width: int,
    color: Seq<u8>,
    p: int,
) -> Contours {
    if border_count(labels, st.segment, width, p % width, p / width, labels[p]) >= 2 {
        Contours { output: painted(st.output, p, color), segment: st.segment.update(p, true) }
    } else {
        st
    }
}

/// The drawing after the first `n` pixels, in row order, were taken up.
pub open spec fn contours_upto(
    output: Seq<u8>,
    labels: Seq<usize>,
    width: int,
    color: Seq<u8>,
    n: int,
) -> Contours
    decreases n,
{
    if n <= 0 {
        Contours { output, segment: Seq::new(labels.len(), |i: int| false) }
    } else {
        contour_pixel(contours_upto(output, labels, width, color, n - 1), labels, width, color, n - 1)
    }
}

/// Whether the pixel `(x, y)` counts as border for a pixel with the
/// label `label`.
fn is_border(
    labels: &[usize],
    segment: &Vec<bool>,
    width: u32,
    height: u32,
    x: i64,
    y: i64,
    label: usize,
) -> (r: u8)
    ensures
        r == border_weight(labels@, segment@, width as int, x as int, y as int, label),
{
    let mark = get_in_bounds(width as i64, height as i64, x, y, segment.as_slice());
    let other = get_in_bounds(width as i64, height as i64, x, y, labels);
    match mark {
        Some(marked) => {
            if *marked {
                0
            } else {
                match other {
                    Some(found) => if *found == label {
                        0
                    } else {
                        1
                    },
                    None => 1,
                }
            }
        },
        None => 0,
    }
}

/// Whether `output` is what drawing the contours leaves of `before`
/// when it ends with `r`: the pixels are taken up row by row; where
/// `labels` or `before` is too short for `width * height` pixels, the
/// pixels that both hold are taken up before the error is returned.
pub open spec fn contours_drawn(
    r: Result<(), ScError>,
    before: Seq<u8>,
    output: Seq<u8>,
    width: u32,
    height: u32,
    labels: Seq<usize>,
    color: Seq<u8>,
) -> bool {
    let chunks = before.len() / 3;
    match r {
        Ok(()) => {
            &&& width * height <= labels.len()
            &&& width * height <= chunks
            &&& output == contours_upto(before, labels, width as int, color, width * height).output
        },
        Err(ScError::General(text)) => {
            if labels.len() <= chunks {
                &&& labels.len() < width * height
                &&& text@ == "Labels exhausted"@
                &&& output == contours_upto(
                    before,
                    labels,
                    width as int,
                    color,
                    labels.len() as int,
                ).output
            } else {
                &&& chunks < width * height
                &&& text@ == "Chunks exhausted"@
                &&& output == contours_upto(before, labels, width as int, color, chunks as int).output
            }
        },
        Err(_) => false,
    }
}

/// Modify `output` to contain an RGB image with colored contours based
/// on superpixel labels.
///
/// The pixels are taken up row by row.  A pixel is painted with
/// `segment_color` if at least two of its eight neighbours have another
/// label and were not painted themselves.  Where `labels` or `output`
/// is too short for `width * height` pixels, the pixels that both hold
/// are taken up before the error is returned.  If the allocator grants
/// no room to work in, `output` stays as it is.
pub fn segment_contours(
    output: &mut [u8],
    width: u32,
    height: u32,
    labels: &[usize],
    segment_color: [u8; 3],
) -> (r: Result<(), ScError>)
    ensures
        final(output)@.len() == old(output)@.len(),
        match r {
            Err(ScError::Reserve(_)) => final(output)@ == old(output)@,
            _ => contours_drawn(
                r,
                old(output)@,
                final(output)@,
                width,
                height,
                labels@,
                segment_color@,
            ),
        },
{
    let mut segment: Vec<bool> = match try_filled(false, labels.len()) {
        Ok(v) => v,
        Err(e) => {
            return Err(ScError::Reserve(e));
        },
    };
    draw_contours(output, width, height, labels, segment_color, &mut segment)
}

/// Draw the contours with `segment` as the room for the marks of the
/// pixels painted.
pub fn draw_contours(
    output: &mut [u8],
    width: u32,
    height: u32,
    labels: &[usize],
    segment_color: [u8; 3],
    segment: &mut Vec<bool>,
) -> (r: Result<(), ScError>)
    requires
        old(segment)@ == Seq::new(labels@.len(), |i: int| false),
    ensures
        final(output)@.len() == old(output)@.len(),
        contours_drawn(
            r,
            old(output)@,
            final(output)@,
            width,
            height,
            labels@,
            segment_color@,
        ),
{
    let ghost start = output@;
    let ghost w = width as int;
    let chunks: usize = output.len() / 3;
    let total: usize = labels.len();
    let mut p: usize = 0;
    let mut y: u32 = 0;
    assert(0 * w == 0) by (nonlinear_arith);
    while y < height
        invariant
            w == width,
            start == old(output)@,
            start.len() <= usize::MAX,
            output@.len() == start.len(),
            chunks == start.len() / 3,
            total == labels@.len(),
            segment@.len() == labels@.len(),
            y <= height,
            p == y * w,
            p <= total,
            p <= chunks,
            contours(output@, segment@) == contours_upto(start, labels@, w, segment_color@, p as int),
        decreases height - y,
    {
        let mut x: u32 = 0;
        while x < width
            invariant
                w == width,
                start == old(output)@,
                start.len() <= usize::MAX,
                output@.len() == start.len(),
                chunks == start.len() / 3,
                total == labels@.len(),
                segment@.len() == labels@.len(),
                y < height,
                x <= width,
                p == y * w + x,
                p <= total,
                p <= chunks,
                contours(output@, segment@) == contours_upto(
                    start,
                    labels@,
                    w,
                    segment_color@,
                    p as int,
                ),
            decreases width - x,
        {
            if p >= total {
                assert(p < width * height) by (nonlinear_arith)
                    requires
                        p == y * w + x,
                        x < w,
                        y < height,
                        w == width,
                ;
                return Err(ScError::General("Labels exhausted"));
            }
            if p >= chunks {
                assert(p < width * height) by (nonlinear_arith)
                    requires
                        p == y * w + x,
                        x < w,
                        y < height,
                        w == width,
                ;
                return Err(ScError::General("Chunks exhausted"));
            }
            proof {
                lemma_fundamental_div_mod_converse(p as int, w, y as int, x as int);
            }
            let label: usize = labels[p];
            let xi: i64 = x as i64;
            let yi: i64 = y as i64;
            let count: u8 = is_border(labels, &segment, width, height, xi - 1, yi, label)
                + is_border(labels, &segment, width, height, xi - 1, yi - 1, label) + is_border(
                labels,
                &segment,
                width,
                height,
                xi,
                yi - 1,
                label,
            ) + is_border(labels, &segment, width, height, xi + 1, yi - 1, label) + is_border(
                labels,
                &segment,
                width,
                height,
                xi + 1,
                yi,
                label,
            ) + is_border(labels, &segment, width, height, xi + 1, yi + 1, label) + is_border(
                labels,
                &segment,
                width,
                height,
                xi,
                yi + 1,
                label,
            ) + is_border(labels, &segment, width, height, xi - 1, yi + 1, label);
            if count >= 2 {
                output[3 * p] = segment_color[0];
                output[3 * p + 1] = segment_color[1];
                output[3 * p + 2] = segment_color[2];
                segment[p] = true;
            }
            p += 1;
            x += 1;
        }
        assert((y + 1) * w == y * w + w) by (nonlinear_arith);
        y += 1;
    }
    assert(height as int * w == width * height) by (nonlinear_arith)
        requires
            w == width,
    ;
    Ok(())
}

} // verus!
