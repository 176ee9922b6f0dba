//! Simple linear iterative clustering.
use crate::error::ScError;
use crate::fragments::{
    chained, foreign, fragment_law, has_foreign, ledger_ok, ledger_with, lemma_fragment_law,
    lemma_ledger_step, lemma_pop_step_chained, lemma_whole_pair, next_to, witnessed, Ledger,
};
use crate::seed::{initial_centers, initial_clusters, lemma_seed_count, lemma_seed_total_fits};
use crate::{
    center_distance, clamp_compactness, count_of, distance_lab, distance_s, distance_xy, flat_index,
    floor_div, grid_interval_spec, holds_pixels, in_bounds, index_in_bounds, input_error,
    lemma_center_distance_bound, lemma_count_of_at_least, lemma_count_of_bounds,
    lemma_count_of_kept, lemma_count_of_update, lemma_flat_index, lemma_flat_index_injective,
    lemma_grid_connected, lemma_in_bounds_row, lemma_in_image, lemma_mean_in_range,
    lemma_pixel_of_index, spreads, try_filled, validate, Lab, LabSum, Sums, Superpixel,
};
use vstd::prelude::*;

verus! {

/// The distance that a pixel holds before any centre was compared
/// with it; every distance to a centre is lower.
pub const INFINITE_DISTANCE: u128 = 0xffff_ffff_ffff_ffff_ffff_ffff_ffff_ffff;

/// Information for tracking image pixels' nearest superpixel cluster
/// and distance to that cluster during SLIC.
#[derive(Debug, Clone)]
pub struct SlicInfo<T, U> {
    /// Vector of nearest superpixel distances.
    pub distances: Vec<T>,
    /// Vector of nearest superpixel labels.
    pub labels: Vec<U>,
}

impl<T, U> SlicInfo<T, U> {
    /// Create a [`SlicInfo`] that tracks no pixel yet.
    #[must_use]
    pub fn new() -> (info: Self)
        ensures
            info.distances@.len() == 0,
            info.labels@.len() == 0,
    {
        Self { distances: Vec::new(), labels: Vec::new() }
    }
}

impl<T, U> Default for SlicInfo<T, U> {
    fn default() -> (info: Self)
        ensures
            info.distances@.len() == 0,
            info.labels@.len() == 0,
    {
        Self { distances: Vec::new(), labels: Vec::new() }
    }
}

/// First coordinate of the window that a centre at `c` searches.
pub open spec fn window_start(c: int, s: int) -> int {
    if c >= s {
        c - s
    } else {
        0
    }
}

/// End (exclusive) of the window that a centre at `c` searches along
/// an axis of `extent` pixels.
pub open spec fn window_end(c: int, s: int, extent: int) -> int {
    if c + s < extent {
        c + s
    } else {
        extent
    }
}

/// Whether the pixel `(x, y)` lies in the window of `2s` by `2s` pixels
/// around `center`, clipped to the image.
pub open spec fn in_window(
    center: Superpixel<Lab>,
    s: int,
    width: int,
    height: int,
    x: int,
    y: int,
) -> bool {
    &&& window_start(center.x as int, s) <= x < window_end(center.x as int, s, width)
    &&& window_start(center.y as int, s) <= y < window_end(center.y as int, s, height)
}

/// Distance and label of the pixel with the flat index `i` once the
/// first `n` centres were compared with it.  The pixel starts from the
/// distance and label it held before; a centre takes it over if the
/// pixel lies in the centre's window and is strictly nearer to it.
pub open spec fn nearest(
    centers: Seq<Superpixel<Lab>>,
    n: int,
    m: int,
    s: int,
    width: int,
    height: int,
    image: Seq<Lab>,
    distances: Seq<u128>,
    labels: Seq<usize>,
    i: int,
) -> (u128, usize)
    decreases n,
{
    if n <= 0 {
        (distances[i], labels[i])
    } else {
        let prev = nearest(centers, n - 1, m, s, width, height, image, distances, labels, i);
        let center = centers[n - 1];
        let d = center_distance(center, m, s, i % width, i / width, image[i]);
        if in_window(center, s, width, height, i % width, i / width) && d < prev.0 {
            (d as u128, (n - 1) as usize)
        } else {
            prev
        }
    }
}

/// Comparing more centres with a pixel never raises the distance it
/// holds, and the label it holds is the one it had or that of one of
/// the centres.
pub proof fn lemma_nearest_bounds(
    centers: Seq<Superpixel<Lab>>,
    n: int,
    m: int,
    s: int,
    width: int,
    height: int,
    image: Seq<Lab>,
    distances: Seq<u128>,
    labels: Seq<usize>,
    i: int,
)
    requires
        n <= usize::MAX,
    ensures
        nearest(centers, n, m, s, width, height, image, distances, labels, i).0 <= distances[i],
        nearest(centers, n, m, s, width, height, image, distances, labels, i).1 == labels[i] || 0
            <= nearest(centers, n, m, s, width, height, image, distances, labels, i).1 < n,
    decreases n,
{
    if n > 0 {
        lemma_nearest_bounds(centers, n - 1, m, s, width, height, image, distances, labels, i);
        let prev = nearest(centers, n - 1, m, s, width, height, image, distances, labels, i);
        let d = center_distance(centers[n - 1], m, s, i % width, i / width, image[i]);
        if d < prev.0 {
            assert(d as u128 == d) by {
                lemma_center_distance_bound(centers[n - 1], m, s, i % width, i / width, image[i]);
            }
        }
    }
}

/// Whether the assignment pass of one centre, which walks the centre's
/// window row by row and has reached the column `col` of the row `row`,
/// has already compared the centre with the pixel `(x, y)`.
pub open spec fn compared(
    center: Superpixel<Lab>,
    s: int,
    width: int,
    height: int,
    row: int,
    col: int,
    x: int,
    y: int,
) -> bool {
    in_window(center, s, width, height, x, y) && (y < row || (y == row && x < col))
}

/// Compare every centre with the pixels of its window and let each
/// pixel keep the nearest centre seen so far.
///
/// Afterwards every pixel holds the distance and label that `nearest`
/// gives for all of `clusters`; no stored distance has grown.
pub fn assign(
    clusters: &Vec<Superpixel<Lab>>,
    m: u8,
    s: u32,
    width: u32,
    height: u32,
    image: &[Lab],
    info: &mut SlicInfo<u128, usize>,
)
    requires
        image@.len() == width as int * height as int,
        old(info).distances@.len() == image@.len(),
        old(info).labels@.len() == image@.len(),
    ensures
        final(info).distances@.len() == image@.len(),
        final(info).labels@.len() == image@.len(),
        forall|i: int|
            0 <= i < image@.len() ==> (#[trigger] final(info).distances@[i], final(info).labels@[i]) == nearest(
                clusters@,
                clusters@.len() as int,
                m as int,
                s as int,
                width as int,
                height as int,
                image@,
                old(info).distances@,
                old(info).labels@,
                i,
            ),
        forall|i: int|
            0 <= i < image@.len() ==> #[trigger] final(info).distances@[i] <= old(info).distances@[i],
{
    let ghost start_d = info.distances@;
    let ghost start_l = info.labels@;
    let ghost w = width as int;
    let ghost h = height as int;
    let _ = image.len();
    let mut ci: usize = 0;
    while ci < clusters.len()
        invariant
            ci <= clusters.len(),
            w == width,
            h == height,
            image@.len() == w * h,
            image@.len() <= usize::MAX,
            info.distances@.len() == image@.len(),
            info.labels@.len() == image@.len(),
            forall|i: int|
                0 <= i < image@.len() ==> (#[trigger] info.distances@[i], info.labels@[i])
                    == nearest(
                    clusters@,
                    ci as int,
                    m as int,
                    s as int,
                    w,
                    h,
                    image@,
                    start_d,
                    start_l,
                    i,
                ),
        decreases clusters.len() - ci,
    {
        let center: Superpixel<Lab> = clusters[ci];
        let y0: u32 = if center.y >= s {
            center.y - s
        } else {
            0
        };
        let x0: u32 = if center.x >= s {
            center.x - s
        } else {
            0
        };
        let y1: u32 = if (center.y as u64) + (s as u64) < height as u64 {
            center.y + s
        } else {
            height
        };
        let x1: u32 = if (center.x as u64) + (s as u64) < width as u64 {
            center.x + s
        } else {
            width
        };
        let mut y: u32 = y0;
        while y < y1
            invariant
                ci < clusters.len(),
                center == clusters@[ci as int],
                w == width,
                h == height,
                image@.len() == w * h,
                image@.len() <= usize::MAX,
                info.distances@.len() == image@.len(),
                info.labels@.len() == image@.len(),
                y0 == window_start(center.y as int, s as int),
                x0 == window_start(center.x as int, s as int),
                y1 == window_end(center.y as int, s as int, h),
                x1 == window_end(center.x as int, s as int, w),
                y0 <= y,
                y <= y1 || y1 < y0,
                forall|i: int|
                    0 <= i < image@.len() ==> (#[trigger] info.distances@[i], info.labels@[i])
                        == nearest(
                        clusters@,
                        if compared(center, s as int, w, h, y as int, x0 as int, i % w, i / w) {
                            ci + 1
                        } else {
                            ci as int
                        },
                        m as int,
                        s as int,
                        w,
                        h,
                        image@,
                        start_d,
                        start_l,
                        i,
                    ),
            decreases y1 - y,
        {
            let mut x: u32 = x0;
            while x < x1
                invariant
                    ci < clusters.len(),
                    center == clusters@[ci as int],
                    w == width,
                    h == height,
                    image@.len() == w * h,
                    image@.len() <= usize::MAX,
                    info.distances@.len() == image@.len(),
                    info.labels@.len() == image@.len(),
                    y0 == window_start(center.y as int, s as int),
                    x0 == window_start(center.x as int, s as int),
                    y1 == window_end(center.y as int, s as int, h),
                    x1 == window_end(center.x as int, s as int, w),
                    y0 <= y < y1,
                    x0 <= x,
                    x <= x1 || x1 < x0,
                    forall|i: int|
                        0 <= i < image@.len() ==> (#[trigger] info.distances@[i], info.labels@[i])
                            == nearest(
                            clusters@,
                            if compared(center, s as int, w, h, y as int, x as int, i % w, i / w) {
                                ci + 1
                            } else {
                                ci as int
                            },
                            m as int,
                            s as int,
                            w,
                            h,
                            image@,
                            start_d,
                            start_l,
                            i,
                        ),
                decreases x1 - x,
            {
                proof {
                    lemma_flat_index(w, h, x as int, y as int);
                }
                let idx: usize = ((y as u64) * (width as u64) + (x as u64)) as usize;
                let color: Lab = image[idx];
                let distance: u128 = distance_s(
                    m,
                    s,
                    distance_lab(color, center.data),
                    distance_xy((x, y), (center.x, center.y)),
                );
                let ghost before_d = info.distances@;
                let ghost before_l = info.labels@;
                if distance < info.distances[idx] {
                    info.distances[idx] = distance;
                    info.labels[idx] = ci;
                }
                proof {
                    assert forall|i: int| 0 <= i < image@.len() implies (
                        #[trigger] info.distances@[i],
                        info.labels@[i],
                    ) == nearest(
                        clusters@,
                        if compared(center, s as int, w, h, y as int, x + 1, i % w, i / w) {
                            ci + 1
                        } else {
                            ci as int
                        },
                        m as int,
                        s as int,
                        w,
                        h,
                        image@,
                        start_d,
                        start_l,
                        i,
                    ) by {
                        lemma_pixel_of_index(w, h, i);
                        assert((before_d[i], before_l[i]) == nearest(
                            clusters@,
                            if compared(center, s as int, w, h, y as int, x as int, i % w, i / w) {
                                ci + 1
                            } else {
                                ci as int
                            },
                            m as int,
                            s as int,
                            w,
                            h,
                            image@,
                            start_d,
                            start_l,
                            i,
                        ));
                        if i != idx {
                            assert(!(i % w == x && i / w == y));
                        }
                    }
                }
                x += 1;
            }
            proof {
                assert forall|i: int| 0 <= i < image@.len() implies (
                    #[trigger] info.distances@[i],
                    info.labels@[i],
                ) == nearest(
                    clusters@,
                    if compared(center, s as int, w, h, y + 1, x0 as int, i % w, i / w) {
                        ci + 1
                    } else {
                        ci as int
                    },
                    m as int,
                    s as int,
                    w,
                    h,
                    image@,
                    start_d,
                    start_l,
                    i,
                ) by {
                    assert(compared(center, s as int, w, h, y as int, x as int, i % w, i / w)
                        == compared(center, s as int, w, h, y + 1, x0 as int, i % w, i / w));
                }
            }
            y += 1;
        }
        proof {
            assert forall|i: int| 0 <= i < image@.len() implies (
                #[trigger] info.distances@[i],
                info.labels@[i],
            ) == nearest(
                clusters@,
                ci + 1,
                m as int,
                s as int,
                w,
                h,
                image@,
                start_d,
                start_l,
                i,
            ) by {
                assert(compared(center, s as int, w, h, y as int, x0 as int, i % w, i / w)
                    == in_window(center, s as int, w, h, i % w, i / w));
            }
        }
        ci += 1;
    }
    proof {
        assert forall|i: int| 0 <= i < image@.len() implies #[trigger] info.distances@[i]
            <= start_d[i] by {
            lemma_nearest_bounds(
                clusters@,
                clusters@.len() as int,
                m as int,
                s as int,
                w,
                h,
                image@,
                start_d,
                start_l,
                i,
            );
            assert((info.distances@[i], info.labels@[i]).0 == info.distances@[i]);
        }
    }
}

/// Struct used for accumulating and calculating superpixel clusters in
/// SLIC.
#[derive(Debug, Clone, Copy)]
pub struct SlicUpdate<T> {
    /// Colour data.
    pub data: T,
    /// X-coordinate.
    pub x: u128,
    /// Y-coordinate.
    pub y: u128,
    /// Total elements in the cluster.
    pub count: u64,
}

impl View for SlicUpdate<LabSum> {
    type V = Sums;

    open spec fn view(&self) -> Sums {
        Sums {
            l: self.data.l as int,
            a: self.data.a as int,
            b: self.data.b as int,
            x: self.x as int,
            y: self.y as int,
            count: self.count as int,
        }
    }
}

impl SlicUpdate<LabSum> {
    /// Create a [`SlicUpdate`] that has gathered no pixel.
    #[must_use]
    pub fn new() -> (update: Self)
        ensures
            update@ == Sums::zero(),
    {
        Self { data: LabSum::default(), x: 0, y: 0, count: 0 }
    }
}

impl Default for SlicUpdate<LabSum> {
    fn default() -> (update: Self)
        ensures
            update@ == Sums::zero(),
    {
        Self { data: LabSum::default(), x: 0, y: 0, count: 0 }
    }
}

/// The sums over those of the first `n` pixels that carry the label
/// `c`.
pub open spec fn cluster_sums(
    labels: Seq<usize>,
    image: Seq<Lab>,
    width: int,
    c: int,
    n: int,
) -> Sums
    decreases n,
{
    if n <= 0 {
        Sums::zero()
    } else {
        let prev = cluster_sums(labels, image, width, c, n - 1);
        if labels[n - 1] == c {
            prev.with(image[n - 1], (n - 1) % width, (n - 1) / width)
        } else {
            prev
        }
    }
}

/// The sums over pixels of an image are bounded by the number of the
/// pixels.
pub proof fn lemma_cluster_sums_bounded(
    labels: Seq<usize>,
    image: Seq<Lab>,
    width: int,
    height: int,
    c: int,
    n: int,
)
    requires
        0 < width <= u32::MAX,
        0 <= height <= u32::MAX,
        0 <= n <= width * height,
    ensures
        cluster_sums(labels, image, width, c, n).bounded(n),
    decreases n,
{
    if n > 0 {
        lemma_cluster_sums_bounded(labels, image, width, height, c, n - 1);
        lemma_pixel_of_index(width, height, n - 1);
    }
}

/// The centre of a superpixel after an update: the mean of its pixels,
/// or the centre as it was if it has no pixel.
pub open spec fn recentered(center: Superpixel<Lab>, sums: Sums) -> Superpixel<Lab> {
    if sums.count == 0 {
        center
    } else {
        sums.mean()
    }
}

/// Add every pixel's colour and position to the sums kept for its
/// label.  A label for which no sums are kept is passed over.
pub fn accumulate(
    width: u32,
    height: u32,
    image: &[Lab],
    labels: &Vec<usize>,
    updates: &mut Vec<SlicUpdate<LabSum>>,
)
    requires
        image@.len() == width as int * height as int,
        labels@.len() == image@.len(),
        forall|c: int| 0 <= c < old(updates)@.len() ==> (#[trigger] old(updates)@[c])@ == Sums::zero(),
    ensures
        final(updates)@.len() == old(updates)@.len(),
        forall|c: int|
            0 <= c < final(updates)@.len() ==> (#[trigger] final(updates)@[c])@ == cluster_sums(
                labels@,
                image@,
                width as int,
                c,
                image@.len() as int,
            ),
{
    let ghost w = width as int;
    let ghost h = height as int;
    let n: usize = image.len();
    let mut y: u32 = 0;
    assert(0 * w == 0) by (nonlinear_arith);
    while y < height
        invariant
            w == width,
            h == height,
            n == image@.len(),
            image@.len() == w * h,
            labels@.len() == image@.len(),
            updates@.len() == old(updates)@.len(),
            y <= height,
            forall|c: int|
                0 <= c < updates@.len() ==> (#[trigger] updates@[c])@ == cluster_sums(
                    labels@,
                    image@,
                    w,
                    c,
                    y * w,
                ),
        decreases height - y,
    {
        let mut x: u32 = 0;
        while x < width
            invariant
                w == width,
                h == height,
                n == image@.len(),
                image@.len() == w * h,
                labels@.len() == image@.len(),
                updates@.len() == old(updates)@.len(),
                y < height,
                x <= width,
                forall|c: int|
                    0 <= c < updates@.len() ==> (#[trigger] updates@[c])@ == cluster_sums(
                        labels@,
                        image@,
                        w,
                        c,
                        y * w + x,
                    ),
            decreases width - x,
        {
            proof {
                lemma_flat_index(w, h, x as int, y as int);
            }
            let idx: usize = ((y as u64) * (width as u64) + (x as u64)) as usize;
            let color: Lab = image[idx];
            let index: usize = labels[idx];
            if index < updates.len() {
                let mut update: SlicUpdate<LabSum> = updates[index];
                proof {
                    lemma_cluster_sums_bounded(labels@, image@, w, h, index as int, idx as int);
                    let sums = update@;
                    assert(sums.bounded(idx as int));
                    assert(sums.count * 32768 <= 0xffff_ffff_ffff_ffff * 32768
                        && sums.count * 0xffff_ffff <= 0xffff_ffff_ffff_ffff * 0xffff_ffff)
                        by (nonlinear_arith)
                        requires
                            0 <= sums.count <= 0xffff_ffff_ffff_ffff,
                    ;
                }
                update.data.l = update.data.l + color.l as i128;
                update.data.a = update.data.a + color.a as i128;
                update.data.b = update.data.b + color.b as i128;
                update.x = update.x + x as u128;
                update.y = update.y + y as u128;
                update.count = update.count + 1;
                updates[index] = update;
            }
            x += 1;
        }
        assert((y + 1) * w == y * w + w) by (nonlinear_arith);
        y += 1;
    }
    assert(height as int * w == w * h) by (nonlinear_arith)
        requires
            h == height,
    ;
}

/// Move every superpixel that has gathered pixels to their mean colour
/// and mean position, and clear all sums.
pub fn recenter(clusters: &mut Vec<Superpixel<Lab>>, updates: &mut Vec<SlicUpdate<LabSum>>)
    requires
        old(updates)@.len() == old(clusters)@.len(),
        forall|c: int|
            0 <= c < old(updates)@.len() ==> (#[trigger] old(updates)@[c])@.bounded(
                usize::MAX as int,
            ),
    ensures
        final(clusters)@.len() == old(clusters)@.len(),
        final(updates)@.len() == old(updates)@.len(),
        forall|c: int|
            0 <= c < final(clusters)@.len() ==> #[trigger] final(clusters)@[c] == recentered(
                old(clusters)@[c],
                old(updates)@[c]@,
            ),
        forall|c: int|
            0 <= c < final(updates)@.len() ==> (#[trigger] final(updates)@[c])@ == Sums::zero(),
{
    let mut c: usize = 0;
    while c < updates.len()
        invariant
            c <= updates@.len(),
            clusters@.len() == old(clusters)@.len(),
            updates@.len() == old(updates)@.len(),
            updates@.len() == clusters@.len(),
            forall|j: int|
                0 <= j < c ==> #[trigger] clusters@[j] == recentered(
                    old(clusters)@[j],
                    old(updates)@[j]@,
                ),
            forall|j: int| c <= j < clusters@.len() ==> #[trigger] clusters@[j] == old(clusters)@[j],
            forall|j: int| 0 <= j < c ==> (#[trigger] updates@[j])@ == Sums::zero(),
            forall|j: int| c <= j < updates@.len() ==> #[trigger] updates@[j] == old(updates)@[j],
            forall|j: int|
                0 <= j < old(updates)@.len() ==> (#[trigger] old(updates)@[j])@.bounded(
                    usize::MAX as int,
                ),
        decreases updates@.len() - c,
    {
        let update: SlicUpdate<LabSum> = updates[c];
        if update.count != 0 {
            proof {
                assert(update == old(updates)@[c as int]);
                lemma_mean_in_range(update@, usize::MAX as int);
            }
            let l: i128 = floor_div(update.data.l, update.count);
            let a: i128 = floor_div(update.data.a, update.count);
            let b: i128 = floor_div(update.data.b, update.count);
            let x: u128 = update.x / (update.count as u128);
            let y: u128 = update.y / (update.count as u128);
            clusters[c] = Superpixel {
                data: Lab { l: l as i16, a: a as i16, b: b as i16 },
                x: x as u32,
                y: y as u32,
            };
        }
        updates[c] = SlicUpdate::new();
        c += 1;
    }
}

/// The label of a pixel that no component has taken in yet.
pub const UNLABELED: usize = usize::MAX;

/// The search for one connected component, part of the way through.
pub struct Expansion {
    /// The new labels.
    pub labels: Seq<usize>,
    /// The pixels found to belong to the component, in the order in
    /// which they were found.
    pub queue: Seq<(u32, u32)>,
    /// How many pixels of the queue have had their neighbours looked at.
    pub head: int,
    /// The label of the neighbouring component seen last.
    pub adjacent: usize,
}

/// The search with the given parts.
pub open spec fn expansion(
    labels: Seq<usize>,
    queue: Seq<(u32, u32)>,
    head: int,
    adjacent: usize,
) -> Expansion {
    Expansion { labels, queue, head, adjacent }
}

/// Look at the neighbour `(x, y)` of a pixel of the component that had
/// the label `old_label` and gets the label `fresh`.  A neighbour with
/// the same old label and no new one joins the component.  A neighbour
/// of another component that has its new label is remembered as the
/// neighbouring component seen last.
pub open spec fn visit_spec(
    prior: Seq<usize>,
    width: int,
    st: Expansion,
    old_label: usize,
    fresh: usize,
    x: int,
    y: int,
) -> Expansion {
    if !in_bounds(width, x, y, prior.len() as int) {
        st
    } else {
        let i = flat_index(width, x, y);
        if prior[i] == old_label {
            if st.labels[i] == UNLABELED {
                Expansion {
                    labels: st.labels.update(i, fresh),
                    queue: st.queue.push((x as u32, y as u32)),
                    ..st
                }
            } else {
                st
            }
        } else if st.labels[i] != UNLABELED {
            Expansion { adjacent: st.labels[i], ..st }
        } else {
            st
        }
    }
}

/// Look at the neighbours of the next pixel of the queue: west, north,
/// east, south.
pub open spec fn pop_step(
    prior: Seq<usize>,
    width: int,
    st: Expansion,
    old_label: usize,
    fresh: usize,
) -> Expansion {
    if st.head >= st.queue.len() {
        st
    } else {
        let x = st.queue[st.head].0 as int;
        let y = st.queue[st.head].1 as int;
        let west = visit_spec(prior, width, st, old_label, fresh, x - 1, y);
        let north = visit_spec(prior, width, west, old_label, fresh, x, y - 1);
        let east = visit_spec(prior, width, north, old_label, fresh, x + 1, y);
        let south = visit_spec(prior, width, east, old_label, fresh, x, y + 1);
        Expansion { head: st.head + 1, ..south }
    }
}

/// The search after `n` pixels of the queue were taken up.
pub open spec fn expand_steps(
    prior: Seq<usize>,
    width: int,
    st: Expansion,
    old_label: usize,
    fresh: usize,
    n: nat,
) -> Expansion
    decreases n,
{
    if n == 0 {
        st
    } else {
        pop_step(prior, width, expand_steps(prior, width, st, old_label, fresh, (n - 1) as nat), old_label, fresh)
    }
}

/// The search once the queue is used up.
pub open spec fn expanded(
    prior: Seq<usize>,
    width: int,
    st: Expansion,
    old_label: usize,
    fresh: usize,
) -> Expansion {
    expand_steps(
        prior,
        width,
        st,
        old_label,
        fresh,
        choose|n: nat| #[trigger]
            expand_steps(prior, width, st, old_label, fresh, n).head >= expand_steps(
                prior,
                width,
                st,
                old_label,
                fresh,
                n,
            ).queue.len(),
    )
}

/// Once the queue is used up, further steps change nothing.
pub proof fn lemma_expand_stable(
    prior: Seq<usize>,
    width: int,
    st: Expansion,
    old_label: usize,
    fresh: usize,
    a: nat,
    b: nat,
)
    requires
        a <= b,
        expand_steps(prior, width, st, old_label, fresh, a).head >= expand_steps(
            prior,
            width,
            st,
            old_label,
            fresh,
            a,
        ).queue.len(),
    ensures
        expand_steps(prior, width, st, old_label, fresh, b) == expand_steps(
            prior,
            width,
            st,
            old_label,
            fresh,
            a,
        ),
    decreases b,
{
    if a < b {
        lemma_expand_stable(prior, width, st, old_label, fresh, a, (b - 1) as nat);
    }
}

/// If the queue is used up after `t` steps, the search ends in the
/// state reached then.
pub proof fn lemma_expanded(
    prior: Seq<usize>,
    width: int,
    st: Expansion,
    old_label: usize,
    fresh: usize,
    t: nat,
)
    requires
        expand_steps(prior, width, st, old_label, fresh, t).head >= expand_steps(
            prior,
            width,
            st,
            old_label,
            fresh,
            t,
        ).queue.len(),
    ensures
        expanded(prior, width, st, old_label, fresh) == expand_steps(
            prior,
            width,
            st,
            old_label,
            fresh,
            t,
        ),
{
    let n = choose|n: nat| #[trigger]
        expand_steps(prior, width, st, old_label, fresh, n).head >= expand_steps(
            prior,
            width,
            st,
            old_label,
            fresh,
            n,
        ).queue.len();
    if n <= t {
        lemma_expand_stable(prior, width, st, old_label, fresh, n, t);
    } else {
        lemma_expand_stable(prior, width, st, old_label, fresh, t, n);
    }
}

/// `labels` after the first `n` pixels of `queue` were given the label
/// `value`.
pub open spec fn filled(
    labels: Seq<usize>,
    width: int,
    queue: Seq<(u32, u32)>,
    value: usize,
    n: int,
) -> Seq<usize>
    decreases n,
{
    if n <= 0 {
        labels
    } else {
        filled(labels, width, queue, value, n - 1).update(
            flat_index(width, queue[n - 1].0 as int, queue[n - 1].1 as int),
            value,
        )
    }
}

/// The relabelling of an image, part of the way through.
pub struct Relabeling {
    /// The new labels.
    pub labels: Seq<usize>,
    /// The label that the next component to keep one of its own gets.
    pub next: usize,
    /// The label of the neighbouring component seen last.
    pub adjacent: usize,
}

/// The relabelling with the given parts.
pub open spec fn relabeling(labels: Seq<usize>, next: usize, adjacent: usize) -> Relabeling {
    Relabeling { labels, next, adjacent }
}

/// Take up the pixel with the flat index `p`.  If it has no new label
/// yet, its component is searched out.  A component of at most
/// `threshold` pixels takes the label of the neighbouring component
/// seen last; a larger one keeps the next label of its own.
pub open spec fn relabel_pixel(
    prior: Seq<usize>,
    width: int,
    threshold: int,
    st: Relabeling,
    p: int,
) -> Relabeling {
    if st.labels[p] != UNLABELED {
        st
    } else {
        let start = Expansion {
            labels: st.labels.update(p, st.next),
            queue: seq![((p % width) as u32, (p / width) as u32)],
            head: 0,
            adjacent: st.adjacent,
        };
        let end = expanded(prior, width, start, prior[p], st.next);
        if end.queue.len() <= threshold {
            Relabeling {
                labels: filled(end.labels, width, end.queue, end.adjacent, end.queue.len() as int),
                next: st.next,
                adjacent: end.adjacent,
            }
        } else {
            Relabeling { labels: end.labels, next: (st.next + 1) as usize, adjacent: end.adjacent }
        }
    }
}

/// The relabelling after the first `n` pixels, in row order, were
/// taken up.
pub open spec fn relabel_upto(prior: Seq<usize>, width: int, threshold: int, n: int) -> Relabeling
    decreases n,
{
    if n <= 0 {
        Relabeling { labels: Seq::new(prior.len(), |i: int| UNLABELED), next: 0, adjacent: 0 }
    } else {
        relabel_pixel(prior, width, threshold, relabel_upto(prior, width, threshold, n - 1), n - 1)
    }
}

/// The number of components that connectivity enforcement lets keep a
/// label of their own.
pub open spec fn kept_regions(width: int, s: int, labels: Seq<usize>) -> usize {
    relabel_upto(labels, width, s * s / 4, labels.len() as int).next
}

/// Whether every label below `kept` is carried by more than `threshold`
/// of the pixels: no fragment has kept a label of its own.
pub open spec fn well_filled(labels: Seq<usize>, kept: usize, threshold: int) -> bool {
    forall|label: usize|
        label < kept ==> #[trigger] count_of(labels, label, labels.len() as int) > threshold
}

/// The number below which all labels lie while `next` is the label
/// that the next component to keep one of its own gets: `next`, but at
/// least `1`, as fragments found before any component was kept have
/// the label `0`.
pub open spec fn label_bound(next: usize) -> usize {
    if next == 0 {
        1
    } else {
        next
    }
}

/// The number of regions that connectivity enforcement leaves: the
/// labels it gives are the numbers below it.
pub open spec fn region_count(width: int, s: int, labels: Seq<usize>) -> int {
    label_bound(relabel_upto(labels, width, s * s / 4, labels.len() as int).next) as int
}

/// The labels that connectivity enforcement gives: every connected
/// component of pixels with one label gets a label of its own, counted
/// up from `0` in row order, unless it has at most `s * s / 4` pixels:
/// then it takes the label of a neighbouring component.
pub open spec fn connected_labels(width: int, s: int, labels: Seq<usize>) -> Seq<usize> {
    relabel_upto(labels, width, s * s / 4, labels.len() as int).labels
}

/// The flat index of the pixel number `j` of `queue`.
pub open spec fn queue_index(queue: Seq<(u32, u32)>, width: int, j: int) -> int {
    flat_index(width, queue[j].0 as int, queue[j].1 as int)
}

/// Whether a label differs from the one in `base` only where `base`
/// has none, on a pixel of the queue with the old label `old_label`
/// and the new label `fresh`.
pub open spec fn changes_marked(
    prior: Seq<usize>,
    base: Seq<usize>,
    labels: Seq<usize>,
    queue: Seq<(u32, u32)>,
    width: int,
    old_label: usize,
    fresh: usize,
) -> bool {
    forall|i: int|
        0 <= i < prior.len() && #[trigger] labels[i] != base[i] ==> base[i] == UNLABELED
            && labels[i] == fresh && prior[i] == old_label && in_queue(queue, width, i)
}

/// Whether the pixel number `j` of the queue lies in the image, had the
/// label `old_label`, had no label in `base` and has the label `fresh`.
pub open spec fn queue_marked_at(
    prior: Seq<usize>,
    base: Seq<usize>,
    labels: Seq<usize>,
    queue: Seq<(u32, u32)>,
    width: int,
    height: int,
    old_label: usize,
    fresh: usize,
    j: int,
) -> bool {
    &&& queue[j].0 < width
    &&& queue[j].1 < height
    &&& prior[queue_index(queue, width, j)] == old_label
    &&& base[queue_index(queue, width, j)] == UNLABELED
    &&& labels[queue_index(queue, width, j)] == fresh
}

/// Whether `queue_marked_at` holds of every pixel of the queue.
pub open spec fn queue_marked(
    prior: Seq<usize>,
    base: Seq<usize>,
    labels: Seq<usize>,
    queue: Seq<(u32, u32)>,
    width: int,
    height: int,
    old_label: usize,
    fresh: usize,
) -> bool {
    forall|j: int|
        0 <= j < queue.len() ==> #[trigger] queue_marked_at(
            prior,
            base,
            labels,
            queue,
            width,
            height,
            old_label,
            fresh,
            j,
        )
}

/// What holds of the search for a component that began with the new
/// labels `base`: `changes_marked` and `queue_marked`.
pub open spec fn marks(
    prior: Seq<usize>,
    base: Seq<usize>,
    labels: Seq<usize>,
    queue: Seq<(u32, u32)>,
    width: int,
    height: int,
    old_label: usize,
    fresh: usize,
) -> bool {
    &&& prior.len() == width * height
    &&& 0 <= height
    &&& base.len() == prior.len()
    &&& labels.len() == prior.len()
    &&& fresh != UNLABELED
    &&& changes_marked(prior, base, labels, queue, width, old_label, fresh)
    &&& queue_marked(prior, base, labels, queue, width, height, old_label, fresh)
}

/// Whether the pixel with the flat index `i` stands in `queue`.
pub open spec fn in_queue(queue: Seq<(u32, u32)>, width: int, i: int) -> bool {
    exists|j: int| 0 <= j < queue.len() && #[trigger] queue_index(queue, width, j) == i
}

/// Whether the pixel `(x, y)`, if it lies in the image and had the
/// label `old_label`, has a new label.
pub open spec fn claimed(
    prior: Seq<usize>,
    labels: Seq<usize>,
    width: int,
    x: int,
    y: int,
    old_label: usize,
) -> bool {
    in_bounds(width, x, y, prior.len() as int) && prior[flat_index(width, x, y)] == old_label
        ==> labels[flat_index(width, x, y)] != UNLABELED
}

/// Whether all four neighbours of `(x, y)` are `claimed`.
pub open spec fn surrounded(
    prior: Seq<usize>,
    labels: Seq<usize>,
    width: int,
    x: int,
    y: int,
    old_label: usize,
) -> bool {
    &&& claimed(prior, labels, width, x - 1, y, old_label)
    &&& claimed(prior, labels, width, x, y - 1, old_label)
    &&& claimed(prior, labels, width, x + 1, y, old_label)
    &&& claimed(prior, labels, width, x, y + 1, old_label)
}

/// Whether each of the first `head` pixels of the queue is
/// `surrounded`.
pub open spec fn closed(
    prior: Seq<usize>,
    labels: Seq<usize>,
    queue: Seq<(u32, u32)>,
    head: int,
    width: int,
    old_label: usize,
) -> bool {
    forall|j: int|
        0 <= j < head ==> surrounded(
            prior,
            labels,
            width,
            (#[trigger] queue[j]).0 as int,
            queue[j].1 as int,
            old_label,
        )
}

/// Looking at a neighbour keeps what `marks` says, takes no label
/// away, keeps the queue's pixels, and leaves the neighbour `claimed`.
pub proof fn lemma_visit(
    prior: Seq<usize>,
    base: Seq<usize>,
    st: Expansion,
    width: int,
    height: int,
    old_label: usize,
    fresh: usize,
    x: int,
    y: int,
)
    requires
        marks(prior, base, st.labels, st.queue, width, height, old_label, fresh),
        width <= u32::MAX,
        height <= u32::MAX,
    ensures
        marks(
            prior,
            base,
            visit_spec(prior, width, st, old_label, fresh, x, y).labels,
            visit_spec(prior, width, st, old_label, fresh, x, y).queue,
            width,
            height,
            old_label,
            fresh,
        ),
        visit_spec(prior, width, st, old_label, fresh, x, y).head == st.head,
        visit_spec(prior, width, st, old_label, fresh, x, y).queue.len() >= st.queue.len(),
        forall|j: int|
            0 <= j < st.queue.len() ==> #[trigger] visit_spec(
                prior,
                width,
                st,
                old_label,
                fresh,
                x,
                y,
            ).queue[j] == st.queue[j],
        forall|i: int|
            0 <= i < prior.len() && st.labels[i] != UNLABELED ==> #[trigger] visit_spec(
                prior,
                width,
                st,
                old_label,
                fresh,
                x,
                y,
            ).labels[i] != UNLABELED,
        claimed(
            prior,
            visit_spec(prior, width, st, old_label, fresh, x, y).labels,
            width,
            x,
            y,
            old_label,
        ),
{
    let after = visit_spec(prior, width, st, old_label, fresh, x, y);
    if in_bounds(width, x, y, prior.len() as int) {
        lemma_in_image(width, height, x, y);
        let i = flat_index(width, x, y);
        if prior[i] == old_label && st.labels[i] == UNLABELED {
            let last = st.queue.len() as int;
            assert(after.queue[last] == (x as u32, y as u32));
            assert(queue_index(after.queue, width, last) == i);
            assert(in_queue(after.queue, width, i));
            assert forall|p: int|
                0 <= p < prior.len() && #[trigger] after.labels[p] != base[p] implies base[p]
                == UNLABELED && after.labels[p] == fresh && prior[p] == old_label && in_queue(
                after.queue,
                width,
                p,
            ) by {
                if p == i {
                    assert(st.labels[i] == base[i]);
                } else {
                    assert(st.labels[p] != base[p]);
                    assert(in_queue(st.queue, width, p));
                    let j = choose|j: int|
                        0 <= j < st.queue.len() && #[trigger] queue_index(st.queue, width, j) == p;
                    assert(after.queue[j] == st.queue[j]);
                    assert(queue_index(after.queue, width, j) == p);
                }
            }
            assert(changes_marked(prior, base, after.labels, after.queue, width, old_label, fresh));
            assert forall|j: int| 0 <= j < after.queue.len() implies #[trigger] queue_marked_at(
                prior,
                base,
                after.labels,
                after.queue,
                width,
                height,
                old_label,
                fresh,
                j,
            ) by {
                if j < last {
                    assert(queue_marked_at(
                        prior,
                        base,
                        st.labels,
                        st.queue,
                        width,
                        height,
                        old_label,
                        fresh,
                        j,
                    ));
                    assert(after.queue[j] == st.queue[j]);
                    assert(queue_index(st.queue, width, j) == queue_index(after.queue, width, j));
                    lemma_flat_index(width, height, st.queue[j].0 as int, st.queue[j].1 as int);
                } else {
                    assert(st.labels[i] == base[i]);
                }
            }
            assert(queue_marked(
                prior,
                base,
                after.labels,
                after.queue,
                width,
                height,
                old_label,
                fresh,
            ));
        } else {
            assert(after.labels == st.labels);
            assert(after.queue == st.queue);
        }
    } else {
        assert(after.labels == st.labels);
        assert(after.queue == st.queue);
    }
}

/// A pixel that is `claimed` stays so while no label is taken away.
pub proof fn lemma_claimed_kept(
    prior: Seq<usize>,
    before: Seq<usize>,
    after: Seq<usize>,
    width: int,
    height: int,
    x: int,
    y: int,
    old_label: usize,
)
    requires
        prior.len() == width * height,
        0 <= height,
        claimed(prior, before, width, x, y, old_label),
        forall|i: int| 0 <= i < prior.len() && before[i] != UNLABELED ==> #[trigger] after[i] != UNLABELED,
    ensures
        claimed(prior, after, width, x, y, old_label),
{
    if in_bounds(width, x, y, prior.len() as int) {
        lemma_in_image(width, height, x, y);
    }
}

/// Whether every label in `labels` is below `bound`.
pub open spec fn below(labels: Seq<usize>, bound: int) -> bool {
    forall|i: int| 0 <= i < labels.len() && #[trigger] labels[i] != UNLABELED ==> labels[i] < bound
}

/// The neighbouring component seen last has a label that was there
/// before the search began.
pub proof fn lemma_visit_below(
    prior: Seq<usize>,
    base: Seq<usize>,
    st: Expansion,
    width: int,
    height: int,
    old_label: usize,
    fresh: usize,
    x: int,
    y: int,
    bound: int,
)
    requires
        marks(prior, base, st.labels, st.queue, width, height, old_label, fresh),
        below(base, bound),
        st.adjacent < bound,
    ensures
        visit_spec(prior, width, st, old_label, fresh, x, y).adjacent < bound,
{
    if in_bounds(width, x, y, prior.len() as int) {
        lemma_in_image(width, height, x, y);
        let i = flat_index(width, x, y);
        if prior[i] != old_label && st.labels[i] != UNLABELED {
            assert(st.labels[i] == base[i]);
        }
    }
}

/// Whether no pixel stands in `queue` twice.
pub open spec fn distinct(queue: Seq<(u32, u32)>, width: int) -> bool {
    forall|i: int, j: int|
        0 <= i < j < queue.len() ==> #[trigger] queue_index(queue, width, i)
            != #[trigger] queue_index(queue, width, j)
}

/// Looking at a neighbour puts no pixel into the queue twice.
pub proof fn lemma_visit_distinct(
    prior: Seq<usize>,
    base: Seq<usize>,
    st: Expansion,
    width: int,
    height: int,
    old_label: usize,
    fresh: usize,
    x: int,
    y: int,
)
    requires
        marks(prior, base, st.labels, st.queue, width, height, old_label, fresh),
        distinct(st.queue, width),
        width <= u32::MAX,
        height <= u32::MAX,
    ensures
        distinct(visit_spec(prior, width, st, old_label, fresh, x, y).queue, width),
{
    let after = visit_spec(prior, width, st, old_label, fresh, x, y);
    if in_bounds(width, x, y, prior.len() as int) {
        lemma_in_image(width, height, x, y);
        let i = flat_index(width, x, y);
        if prior[i] == old_label && st.labels[i] == UNLABELED {
            let last = st.queue.len() as int;
            assert(after.queue[last] == (x as u32, y as u32));
            assert forall|a: int, b: int| 0 <= a < b < after.queue.len() implies #[trigger] queue_index(
                after.queue,
                width,
                a,
            ) != #[trigger] queue_index(after.queue, width, b) by {
                assert(after.queue[a] == st.queue[a]);
                assert(queue_index(after.queue, width, a) == queue_index(st.queue, width, a));
                if b < last {
                    assert(after.queue[b] == st.queue[b]);
                    assert(queue_index(after.queue, width, b) == queue_index(st.queue, width, b));
                } else {
                    assert(queue_marked_at(
                        prior,
                        base,
                        st.labels,
                        st.queue,
                        width,
                        height,
                        old_label,
                        fresh,
                        a,
                    ));
                }
            }
        }
    }
}

/// Looking at the neighbours of the next pixel of the queue keeps what
/// `marks` and `closed` say.
pub proof fn lemma_pop_step(
    prior: Seq<usize>,
    base: Seq<usize>,
    st: Expansion,
    width: int,
    height: int,
    old_label: usize,
    fresh: usize,
    bound: int,
)
    requires
        marks(prior, base, st.labels, st.queue, width, height, old_label, fresh),
        closed(prior, st.labels, st.queue, st.head, width, old_label),
        0 <= st.head < st.queue.len(),
        width <= u32::MAX,
        height <= u32::MAX,
        below(base, bound),
        st.adjacent < bound,
        distinct(st.queue, width),
    ensures
        pop_step(prior, width, st, old_label, fresh).adjacent < bound,
        distinct(pop_step(prior, width, st, old_label, fresh).queue, width),
        marks(
            prior,
            base,
            pop_step(prior, width, st, old_label, fresh).labels,
            pop_step(prior, width, st, old_label, fresh).queue,
            width,
            height,
            old_label,
            fresh,
        ),
        closed(
            prior,
            pop_step(prior, width, st, old_label, fresh).labels,
            pop_step(prior, width, st, old_label, fresh).queue,
            st.head + 1,
            width,
            old_label,
        ),
        forall|i: int|
            0 <= i < prior.len() && st.labels[i] != UNLABELED ==> #[trigger] pop_step(
                prior,
                width,
                st,
                old_label,
                fresh,
            ).labels[i] != UNLABELED,
        st.adjacent != UNLABELED ==> pop_step(prior, width, st, old_label, fresh).adjacent
            != UNLABELED,
{
    let x = st.queue[st.head].0 as int;
    let y = st.queue[st.head].1 as int;
    let west = visit_spec(prior, width, st, old_label, fresh, x - 1, y);
    let north = visit_spec(prior, width, west, old_label, fresh, x, y - 1);
    let east = visit_spec(prior, width, north, old_label, fresh, x + 1, y);
    let south = visit_spec(prior, width, east, old_label, fresh, x, y + 1);
    lemma_visit(prior, base, st, width, height, old_label, fresh, x - 1, y);
    lemma_visit_below(prior, base, st, width, height, old_label, fresh, x - 1, y, bound);
    lemma_visit_distinct(prior, base, st, width, height, old_label, fresh, x - 1, y);
    lemma_visit(prior, base, west, width, height, old_label, fresh, x, y - 1);
    lemma_visit_below(prior, base, west, width, height, old_label, fresh, x, y - 1, bound);
    lemma_visit_distinct(prior, base, west, width, height, old_label, fresh, x, y - 1);
    lemma_visit(prior, base, north, width, height, old_label, fresh, x + 1, y);
    lemma_visit_below(prior, base, north, width, height, old_label, fresh, x + 1, y, bound);
    lemma_visit_distinct(prior, base, north, width, height, old_label, fresh, x + 1, y);
    lemma_visit(prior, base, east, width, height, old_label, fresh, x, y + 1);
    lemma_visit_below(prior, base, east, width, height, old_label, fresh, x, y + 1, bound);
    lemma_visit_distinct(prior, base, east, width, height, old_label, fresh, x, y + 1);
    let after = pop_step(prior, width, st, old_label, fresh);
    assert(after.labels == south.labels && after.queue == south.queue);
    assert forall|i: int| 0 <= i < prior.len() && north.labels[i] != UNLABELED implies #[trigger] south.labels[i]
        != UNLABELED by {
        assert(east.labels[i] != UNLABELED);
    }
    assert forall|i: int| 0 <= i < prior.len() && west.labels[i] != UNLABELED implies #[trigger] south.labels[i]
        != UNLABELED by {
        assert(north.labels[i] != UNLABELED);
        assert(east.labels[i] != UNLABELED);
    }
    assert forall|i: int| 0 <= i < prior.len() && st.labels[i] != UNLABELED implies #[trigger] south.labels[i]
        != UNLABELED by {
        assert(west.labels[i] != UNLABELED);
        assert(north.labels[i] != UNLABELED);
        assert(east.labels[i] != UNLABELED);
    }
    assert forall|j: int| 0 <= j < st.head + 1 implies surrounded(
        prior,
        south.labels,
        width,
        (#[trigger] south.queue[j]).0 as int,
        south.queue[j].1 as int,
        old_label,
    ) by {
        assert(west.queue[j] == st.queue[j]);
        assert(north.queue[j] == west.queue[j]);
        assert(east.queue[j] == north.queue[j]);
        assert(south.queue[j] == east.queue[j]);
        let qx = st.queue[j].0 as int;
        let qy = st.queue[j].1 as int;
        if j < st.head {
            assert(surrounded(prior, st.labels, width, qx, qy, old_label));
            lemma_claimed_kept(prior, st.labels, south.labels, width, height, qx - 1, qy, old_label);
            lemma_claimed_kept(prior, st.labels, south.labels, width, height, qx, qy - 1, old_label);
            lemma_claimed_kept(prior, st.labels, south.labels, width, height, qx + 1, qy, old_label);
            lemma_claimed_kept(prior, st.labels, south.labels, width, height, qx, qy + 1, old_label);
        } else {
            lemma_claimed_kept(prior, west.labels, south.labels, width, height, x - 1, y, old_label);
            lemma_claimed_kept(prior, north.labels, south.labels, width, height, x, y - 1, old_label);
            lemma_claimed_kept(prior, east.labels, south.labels, width, height, x + 1, y, old_label);
        }
    }
}

/// Whether two pixels that had one label have one new label.
pub open spec fn linked(prior: Seq<usize>, labels: Seq<usize>, i: int, j: int) -> bool {
    prior[i] == prior[j] ==> labels[i] == labels[j]
}

/// Whether the pixel `(x, y)` is `linked` with its neighbours to the
/// east and to the south.
pub open spec fn whole_at(
    prior: Seq<usize>,
    labels: Seq<usize>,
    width: int,
    height: int,
    x: int,
    y: int,
) -> bool {
    &&& x + 1 < width ==> linked(
        prior,
        labels,
        flat_index(width, x, y),
        flat_index(width, x + 1, y),
    )
    &&& y + 1 < height ==> linked(
        prior,
        labels,
        flat_index(width, x, y),
        flat_index(width, x, y + 1),
    )
}

/// Whether any two pixels next to each other that had one label have
/// one new label: no component is split.
pub open spec fn whole(prior: Seq<usize>, labels: Seq<usize>, width: int, height: int) -> bool {
    forall|x: int, y: int|
        0 <= x < width && 0 <= y < height ==> #[trigger] whole_at(prior, labels, width, height, x, y)
}

/// Whether `after` holds the labels once the component that was
/// searched out has got the label `value`: the pixels of the queue have
/// that label, every other pixel has the label it had.
pub open spec fn settled(st: Expansion, width: int, value: usize, after: Seq<usize>) -> bool {
    &&& after.len() == st.labels.len()
    &&& forall|j: int|
        0 <= j < st.queue.len() ==> after[#[trigger] queue_index(st.queue, width, j)] == value
    &&& forall|i: int|
        0 <= i < after.len() && !in_queue(st.queue, width, i) ==> #[trigger] after[i]
            == st.labels[i]
}

/// One pair of neighbours after a component was searched out and got
/// its label.
proof fn lemma_pair_linked(
    prior: Seq<usize>,
    base: Seq<usize>,
    st: Expansion,
    after: Seq<usize>,
    width: int,
    height: int,
    old_label: usize,
    fresh: usize,
    value: usize,
    x1: int,
    y1: int,
    x2: int,
    y2: int,
)
    requires
        marks(prior, base, st.labels, st.queue, width, height, old_label, fresh),
        closed(prior, st.labels, st.queue, st.queue.len() as int, width, old_label),
        settled(st, width, value, after),
        0 <= x1 < width,
        0 <= y1 < height,
        0 <= x2 < width,
        0 <= y2 < height,
        (x2 == x1 + 1 && y2 == y1) || (x2 == x1 && y2 == y1 + 1),
        linked(prior, base, flat_index(width, x1, y1), flat_index(width, x2, y2)),
    ensures
        linked(prior, after, flat_index(width, x1, y1), flat_index(width, x2, y2)),
{
    let a = flat_index(width, x1, y1);
    let b = flat_index(width, x2, y2);
    lemma_flat_index(width, height, x1, y1);
    lemma_flat_index(width, height, x2, y2);
    lemma_in_image(width, height, x1, y1);
    lemma_in_image(width, height, x2, y2);
    if prior[a] == prior[b] {
        let changed_a = st.labels[a] != base[a];
        let changed_b = st.labels[b] != base[b];
        if changed_a {
            assert(in_queue(st.queue, width, a));
            let j = choose|j: int|
                0 <= j < st.queue.len() && #[trigger] queue_index(st.queue, width, j) == a;
            assert(queue_marked_at(
                prior,
                base,
                st.labels,
                st.queue,
                width,
                height,
                old_label,
                fresh,
                j,
            ));
            assert(after[queue_index(st.queue, width, j)] == value);
            lemma_flat_index_injective(
                width,
                height,
                st.queue[j].0 as int,
                st.queue[j].1 as int,
                x1,
                y1,
            );
            assert(surrounded(
                prior,
                st.labels,
                width,
                st.queue[j].0 as int,
                st.queue[j].1 as int,
                old_label,
            ));
            assert(claimed(prior, st.labels, width, x2, y2, old_label));
        } else {
            if in_queue(st.queue, width, a) {
                let j = choose|j: int|
                    0 <= j < st.queue.len() && #[trigger] queue_index(st.queue, width, j) == a;
                assert(queue_marked_at(
                    prior,
                    base,
                    st.labels,
                    st.queue,
                    width,
                    height,
                    old_label,
                    fresh,
                    j,
                ));
            }
            assert(after[a] == st.labels[a]);
        }
        if changed_b {
            assert(in_queue(st.queue, width, b));
            let j = choose|j: int|
                0 <= j < st.queue.len() && #[trigger] queue_index(st.queue, width, j) == b;
            assert(queue_marked_at(
                prior,
                base,
                st.labels,
                st.queue,
                width,
                height,
                old_label,
                fresh,
                j,
            ));
            assert(after[queue_index(st.queue, width, j)] == value);
            lemma_flat_index_injective(
                width,
                height,
                st.queue[j].0 as int,
                st.queue[j].1 as int,
                x2,
                y2,
            );
            assert(surrounded(
                prior,
                st.labels,
                width,
                st.queue[j].0 as int,
                st.queue[j].1 as int,
                old_label,
            ));
            assert(claimed(prior, st.labels, width, x1, y1, old_label));
        } else {
            if in_queue(st.queue, width, b) {
                let j = choose|j: int|
                    0 <= j < st.queue.len() && #[trigger] queue_index(st.queue, width, j) == b;
                assert(queue_marked_at(
                    prior,
                    base,
                    st.labels,
                    st.queue,
                    width,
                    height,
                    old_label,
                    fresh,
                    j,
                ));
            }
            assert(after[b] == st.labels[b]);
        }
    }
}

/// Once a component was searched out and got its label, no component
/// is split if none was before.
pub proof fn lemma_component_whole(
    prior: Seq<usize>,
    base: Seq<usize>,
    st: Expansion,
    after: Seq<usize>,
    width: int,
    height: int,
    old_label: usize,
    fresh: usize,
    value: usize,
)
    requires
        whole(prior, base, width, height),
        marks(prior, base, st.labels, st.queue, width, height, old_label, fresh),
        closed(prior, st.labels, st.queue, st.queue.len() as int, width, old_label),
        settled(st, width, value, after),
    ensures
        whole(prior, after, width, height),
{
    assert forall|x: int, y: int| 0 <= x < width && 0 <= y < height implies #[trigger] whole_at(
        prior,
        after,
        width,
        height,
        x,
        y,
    ) by {
        assert(whole_at(prior, base, width, height, x, y));
        if x + 1 < width {
            lemma_pair_linked(
                prior,
                base,
                st,
                after,
                width,
                height,
                old_label,
                fresh,
                value,
                x,
                y,
                x + 1,
                y,
            );
        }
        if y + 1 < height {
            lemma_pair_linked(
                prior,
                base,
                st,
                after,
                width,
                height,
                old_label,
                fresh,
                value,
                x,
                y,
                x,
                y + 1,
            );
        }
    }
}

/// What `filled` does: the pixels of the queue get the label, every
/// other pixel keeps its own.
pub proof fn lemma_filled(
    labels: Seq<usize>,
    width: int,
    height: int,
    queue: Seq<(u32, u32)>,
    value: usize,
    n: int,
)
    requires
        0 <= n <= queue.len(),
        labels.len() == width * height,
        forall|j: int| 0 <= j < queue.len() ==> (#[trigger] queue[j]).0 < width && queue[j].1 < height,
    ensures
        filled(labels, width, queue, value, n).len() == labels.len(),
        forall|j: int|
            0 <= j < n ==> filled(labels, width, queue, value, n)[#[trigger] queue_index(
                queue,
                width,
                j,
            )] == value,
        forall|i: int|
            0 <= i < labels.len() && !in_queue(queue.subrange(0, n), width, i) ==> #[trigger] filled(
                labels,
                width,
                queue,
                value,
                n,
            )[i] == labels[i],
    decreases n,
{
    if n > 0 {
        lemma_filled(labels, width, height, queue, value, n - 1);
        let before = filled(labels, width, queue, value, n - 1);
        let after = filled(labels, width, queue, value, n);
        assert(queue[n - 1].0 < width);
        lemma_flat_index(width, height, queue[n - 1].0 as int, queue[n - 1].1 as int);
        assert(flat_index(width, queue[n - 1].0 as int, queue[n - 1].1 as int) == queue_index(
            queue,
            width,
            n - 1,
        ));
        assert forall|j: int| 0 <= j < n implies after[#[trigger] queue_index(queue, width, j)]
            == value by {
            assert(queue[j].0 < width);
            lemma_flat_index(width, height, queue[j].0 as int, queue[j].1 as int);
            if j < n - 1 {
                assert(before[queue_index(queue, width, j)] == value);
            }
        }
        assert forall|i: int|
            0 <= i < labels.len() && !in_queue(queue.subrange(0, n), width, i) implies #[trigger] after[i]
            == labels[i] by {
            assert(queue_index(queue.subrange(0, n), width, n - 1) == queue_index(queue, width, n - 1));
            if in_queue(queue.subrange(0, n - 1), width, i) {
                let j = choose|j: int|
                    0 <= j < n - 1 && #[trigger] queue_index(queue.subrange(0, n - 1), width, j)
                        == i;
                assert(queue_index(queue.subrange(0, n), width, j) == i);
            }
            assert(before[i] == labels[i]);
        }
    }
}

/// Where no component is split, an image that had one label only has
/// one label only.
pub proof fn lemma_uniform_stays_uniform(
    prior: Seq<usize>,
    labels: Seq<usize>,
    width: int,
    height: int,
)
    requires
        0 <= height,
        prior.len() == width * height,
        labels.len() == prior.len(),
        whole(prior, labels, width, height),
        forall|i: int, j: int| 0 <= i < prior.len() && 0 <= j < prior.len() ==> prior[i] == prior[j],
    ensures
        forall|i: int, j: int|
            0 <= i < labels.len() && 0 <= j < labels.len() ==> labels[i] == labels[j],
{
    if labels.len() > 0 {
        assert(0 < width && 0 < height) by (nonlinear_arith)
            requires
                width * height > 0,
                0 <= height,
        ;
        let first = labels[0];
        let p = |x: int, y: int| labels[flat_index(width, x, y)] == first;
        assert forall|x: int, y: int| 0 <= x < width && 0 <= y < height && #[trigger] p(x, y) implies {
            &&& x >= 1 ==> p(x - 1, y)
            &&& y >= 1 ==> p(x, y - 1)
            &&& x + 1 < width ==> p(x + 1, y)
            &&& y + 1 < height ==> p(x, y + 1)
        } by {
            lemma_flat_index(width, height, x, y);
            assert(whole_at(prior, labels, width, height, x, y));
            if x >= 1 {
                lemma_flat_index(width, height, x - 1, y);
                assert(whole_at(prior, labels, width, height, x - 1, y));
            }
            if y >= 1 {
                lemma_flat_index(width, height, x, y - 1);
                assert(whole_at(prior, labels, width, height, x, y - 1));
            }
            if x + 1 < width {
                lemma_flat_index(width, height, x + 1, y);
            }
            if y + 1 < height {
                lemma_flat_index(width, height, x, y + 1);
            }
        }
        assert(spreads(p, width, height));
        assert(flat_index(width, 0, 0) == 0) by (nonlinear_arith);
        assert(p(0, 0));
        assert forall|i: int| 0 <= i < labels.len() implies labels[i] == first by {
            lemma_pixel_of_index(width, height, i);
            lemma_grid_connected(p, width, height, 0, 0, i % width, i / width);
            assert(p(i % width, i / width));
            assert(flat_index(width, i % width, i / width) == i);
        }
    }
}

/// Look at one neighbour of a pixel of the component being searched.
fn visit(
    width: u32,
    height: u32,
    prior: &[usize],
    old_label: usize,
    fresh: usize,
    x: i64,
    y: i64,
    new_labels: &mut Vec<usize>,
    queue: &mut Vec<(u32, u32)>,
    adjacent: &mut usize,
)
    requires
        prior@.len() == width as int * height as int,
        old(new_labels)@.len() == prior@.len(),
        fresh != UNLABELED,
    ensures
        final(new_labels)@.len() == prior@.len(),
        expansion(final(new_labels)@, final(queue)@, 0, *final(adjacent)) == visit_spec(
            prior@,
            width as int,
            expansion(old(new_labels)@, old(queue)@, 0, *old(adjacent)),
            old_label,
            fresh,
            x as int,
            y as int,
        ),
        4 * count_of(final(new_labels)@, UNLABELED, prior@.len() as int) + final(queue)@.len() <= 4
            * count_of(old(new_labels)@, UNLABELED, prior@.len() as int) + old(queue)@.len(),
        final(queue)@.len() >= old(queue)@.len(),
        forall|j: int| 0 <= j < old(queue)@.len() ==> final(queue)@[j] == old(queue)@[j],
        forall|j: int|
            old(queue)@.len() <= j < final(queue)@.len() ==> (#[trigger] final(queue)@[j]).0 < width
                && final(queue)@[j].1 < height,
{
    match index_in_bounds(width as i64, x, y, prior.len()) {
        Some(i) => {
            if prior[i] == old_label {
                if new_labels[i] == UNLABELED {
                    proof {
                        lemma_in_bounds_row(width as int, height as int, x as int, y as int);
                        lemma_count_of_update(
                            new_labels@,
                            UNLABELED,
                            prior@.len() as int,
                            i as int,
                            fresh,
                        );
                    }
                    new_labels[i] = fresh;
                    queue.push((x as u32, y as u32));
                }
            } else if new_labels[i] != UNLABELED {
                *adjacent = new_labels[i];
            }
        },
        None => {},
    }
}

/// Search out the component of the pixel that stands alone in `queue`.
fn expand(
    width: u32,
    height: u32,
    prior: &[usize],
    old_label: usize,
    fresh: usize,
    new_labels: &mut Vec<usize>,
    queue: &mut Vec<(u32, u32)>,
    adjacent: &mut usize,
    Ghost(base): Ghost<Seq<usize>>,
    Ghost(bound): Ghost<int>,
)
    requires
        prior@.len() == width as int * height as int,
        old(new_labels)@.len() == prior@.len(),
        fresh != UNLABELED,
        old(queue)@.len() == 1,
        old(queue)@[0].0 < width,
        old(queue)@[0].1 < height,
        marks(
            prior@,
            base,
            old(new_labels)@,
            old(queue)@,
            width as int,
            height as int,
            old_label,
            fresh,
        ),
        *old(adjacent) != UNLABELED,
        below(base, bound),
        *old(adjacent) < bound,
    ensures
        *final(adjacent) != UNLABELED,
        *final(adjacent) < bound,
        distinct(final(queue)@, width as int),
        chained(final(queue)@),
        final(queue)@[0] == old(queue)@[0],
        has_foreign(prior@, base, width as int, height as int, old(queue)@[0], old_label)
            ==> witnessed(
            prior@,
            base,
            final(queue)@,
            width as int,
            height as int,
            old_label,
            *final(adjacent),
        ),
        forall|i: int|
            0 <= i < prior@.len() && old(new_labels)@[i] != UNLABELED ==> #[trigger] final(new_labels)@[i] != UNLABELED,
        marks(
            prior@,
            base,
            final(new_labels)@,
            final(queue)@,
            width as int,
            height as int,
            old_label,
            fresh,
        ),
        closed(
            prior@,
            final(new_labels)@,
            final(queue)@,
            final(queue)@.len() as int,
            width as int,
            old_label,
        ),
        final(new_labels)@.len() == prior@.len(),
        expansion(
            final(new_labels)@,
            final(queue)@,
            final(queue)@.len() as int,
            *final(adjacent),
        ) == expanded(
            prior@,
            width as int,
            expansion(old(new_labels)@, old(queue)@, 0, *old(adjacent)),
            old_label,
            fresh,
        ),
        final(queue)@.len() >= 1,
        forall|j: int|
            0 <= j < final(queue)@.len() ==> (#[trigger] final(queue)@[j]).0 < width && final(queue)@[j].1 < height,
{
    let ghost start = Expansion {
        labels: new_labels@,
        queue: queue@,
        head: 0,
        adjacent: *adjacent,
    };
    let ghost mut steps: nat = 0;
    let ghost n = prior@.len() as int;
    let mut head: usize = 0;
    while head < queue.len()
        invariant
            prior@.len() == width as int * height as int,
            n == prior@.len(),
            new_labels@.len() == prior@.len(),
            fresh != UNLABELED,
            head <= queue@.len(),
            queue@.len() >= 1,
            *adjacent != UNLABELED,
            below(base, bound),
            *adjacent < bound,
            distinct(queue@, width as int),
            chained(queue@),
            queue@[0] == start.queue[0],
            head >= 1 && has_foreign(
                prior@,
                base,
                width as int,
                height as int,
                start.queue[0],
                old_label,
            ) ==> witnessed(
                prior@,
                base,
                queue@,
                width as int,
                height as int,
                old_label,
                *adjacent,
            ),
            forall|i: int|
                0 <= i < prior@.len() && start.labels[i] != UNLABELED ==> #[trigger] new_labels@[i]
                    != UNLABELED,
            marks(prior@, base, new_labels@, queue@, width as int, height as int, old_label, fresh),
            closed(prior@, new_labels@, queue@, head as int, width as int, old_label),
            forall|j: int|
                0 <= j < queue@.len() ==> (#[trigger] queue@[j]).0 < width && queue@[j].1 < height,
            expansion(new_labels@, queue@, head as int, *adjacent) == expand_steps(
                prior@,
                width as int,
                start,
                old_label,
                fresh,
                steps,
            ),
        decreases 4 * count_of(new_labels@, UNLABELED, n) + queue@.len() - head,
    {
        let (x, y): (u32, u32) = queue[head];
        let ghost before = Expansion {
            labels: new_labels@,
            queue: queue@,
            head: head as int,
            adjacent: *adjacent,
        };
        visit(width, height, prior, old_label, fresh, x as i64 - 1, y as i64, new_labels, queue, adjacent);
        visit(width, height, prior, old_label, fresh, x as i64, y as i64 - 1, new_labels, queue, adjacent);
        visit(width, height, prior, old_label, fresh, x as i64 + 1, y as i64, new_labels, queue, adjacent);
        visit(width, height, prior, old_label, fresh, x as i64, y as i64 + 1, new_labels, queue, adjacent);
        head += 1;
        proof {
            steps = steps + 1;
            let west = visit_spec(prior@, width as int, before, old_label, fresh, x - 1, y as int);
            let north = visit_spec(prior@, width as int, west, old_label, fresh, x as int, y - 1);
            let east = visit_spec(prior@, width as int, north, old_label, fresh, x + 1, y as int);
            let south = visit_spec(prior@, width as int, east, old_label, fresh, x as int, y + 1);
            assert(visit_spec(
                prior@,
                width as int,
                Expansion { head: 0, ..before },
                old_label,
                fresh,
                x - 1,
                y as int,
            ) == Expansion { head: 0, ..west });
            assert(visit_spec(
                prior@,
                width as int,
                Expansion { head: 0, ..west },
                old_label,
                fresh,
                x as int,
                y - 1,
            ) == Expansion { head: 0, ..north });
            assert(visit_spec(
                prior@,
                width as int,
                Expansion { head: 0, ..north },
                old_label,
                fresh,
                x + 1,
                y as int,
            ) == Expansion { head: 0, ..east });
            assert(visit_spec(
                prior@,
                width as int,
                Expansion { head: 0, ..east },
                old_label,
                fresh,
                x as int,
                y + 1,
            ) == Expansion { head: 0, ..south });
            assert(Expansion {
                labels: new_labels@,
                queue: queue@,
                head: head as int,
                adjacent: *adjacent,
            } == pop_step(prior@, width as int, before, old_label, fresh));
            lemma_pop_step(
                prior@,
                base,
                before,
                width as int,
                height as int,
                old_label,
                fresh,
                bound,
            );
            lemma_pop_step_chained(
                prior@,
                base,
                before,
                width as int,
                height as int,
                old_label,
                fresh,
            );
            assert forall|i: int|
                0 <= i < prior@.len() && start.labels[i] != UNLABELED implies #[trigger] new_labels@[i]
                != UNLABELED by {
                assert(before.labels[i] != UNLABELED);
            }
            lemma_count_of_bounds(new_labels@, UNLABELED, n);
        }
    }
    proof {
        lemma_expanded(prior@, width as int, start, old_label, fresh, steps);
    }
}

/// Give the first `queue.len()` pixels of `queue` the label `value`.
fn fill(width: u32, height: u32, queue: &Vec<(u32, u32)>, value: usize, new_labels: &mut Vec<usize>)
    requires
        old(new_labels)@.len() == width as int * height as int,
        forall|j: int|
            0 <= j < queue@.len() ==> (#[trigger] queue@[j]).0 < width && queue@[j].1 < height,
    ensures
        final(new_labels)@ == filled(
            old(new_labels)@,
            width as int,
            queue@,
            value,
            queue@.len() as int,
        ),
        final(new_labels)@.len() == old(new_labels)@.len(),
{
    let total: usize = new_labels.len();
    let mut j: usize = 0;
    while j < queue.len()
        invariant
            j <= queue@.len(),
            new_labels@.len() == total,
            new_labels@.len() == width as int * height as int,
            new_labels@.len() == old(new_labels)@.len(),
            forall|j: int|
                0 <= j < queue@.len() ==> (#[trigger] queue@[j]).0 < width && queue@[j].1 < height,
            new_labels@ == filled(old(new_labels)@, width as int, queue@, value, j as int),
        decreases queue@.len() - j,
    {
        let pixel: (u32, u32) = queue[j];
        let x: u32 = pixel.0;
        let y: u32 = pixel.1;
        proof {
            assert(queue@[j as int].0 < width && queue@[j as int].1 < height);
            lemma_flat_index(width as int, height as int, x as int, y as int);
        }
        let i: usize = ((y as u64) * (width as u64) + (x as u64)) as usize;
        new_labels[i] = value;
        j += 1;
    }
}

/// Relabel every connected component of `prior`, with `new_labels`
/// and `queue` as the room to work in.
pub fn relabel_components(
    width: u32,
    height: u32,
    s: u32,
    prior: &[usize],
    new_labels: &mut Vec<usize>,
    queue: &mut Vec<(u32, u32)>,
)
    requires
        prior@.len() == width as int * height as int,
        old(new_labels)@ == Seq::new(prior@.len(), |i: int| UNLABELED),
    ensures
        final(new_labels)@ == connected_labels(width as int, s as int, prior@),
        final(new_labels)@.len() == prior@.len(),
        whole(prior@, final(new_labels)@, width as int, height as int),
        forall|i: int|
            0 <= i < prior@.len() ==> #[trigger] final(new_labels)@[i] < region_count(
                width as int,
                s as int,
                prior@,
            ) <= prior@.len(),
        well_filled(
            final(new_labels)@,
            kept_regions(width as int, s as int, prior@),
            s as int * s as int / 4,
        ),
        fragment_law(
            prior@,
            final(new_labels)@,
            width as int,
            height as int,
            s as int * s as int / 4,
        ),
{
    let ghost w = width as int;
    let ghost h = height as int;
    assert(s * s <= 0xffff_ffff * 0xffff_ffff) by (nonlinear_arith)
        requires
            s <= 0xffff_ffff,
    ;
    let threshold: u64 = (s as u64) * (s as u64) / 4;
    let total: usize = prior.len();
    let mut adjacent: usize = 0;
    let mut next: usize = 0;
    let mut y: u32 = 0;
    let ghost mut ledger = Ledger {
        found: Seq::new(prior@.len(), |i: int| Seq::<(u32, u32)>::empty()),
        root: Seq::new(prior@.len(), |i: int| 0int),
    };
    assert(0 * w == 0) by (nonlinear_arith);
    assert(0 <= h && 0 <= threshold);
    assert forall|px: int, py: int| 0 <= px < w && 0 <= py < h implies #[trigger] whole_at(
        prior@,
        new_labels@,
        w,
        h,
        px,
        py,
    ) by {
        lemma_flat_index(w, h, px, py);
        if px + 1 < w {
            lemma_flat_index(w, h, px + 1, py);
        }
        if py + 1 < h {
            lemma_flat_index(w, h, px, py + 1);
        }
    }
    while y < height
        invariant
            w == width,
            h == height,
            total == prior@.len(),
            prior@.len() == w * h,
            new_labels@.len() == prior@.len(),
            threshold == s as int * s as int / 4,
            y <= height,
            next <= y * w,
            0 <= y * w <= w * h,
            whole(prior@, new_labels@, w, h),
            adjacent != UNLABELED,
            adjacent < label_bound(next),
            below(new_labels@, label_bound(next) as int),
            well_filled(new_labels@, next, threshold as int),
            ledger_ok(prior@, new_labels@, next, ledger, w, h, threshold as int),
            forall|i: int| 0 <= i < y * w ==> #[trigger] new_labels@[i] != UNLABELED,
            relabeling(new_labels@, next, adjacent) == relabel_upto(
                prior@,
                w,
                threshold as int,
                y * w,
            ),
        decreases height - y,
    {
        let mut x: u32 = 0;
        while x < width
            invariant
                w == width,
                h == height,
                total == prior@.len(),
                prior@.len() == w * h,
                new_labels@.len() == prior@.len(),
                threshold == s as int * s as int / 4,
                y < height,
                x <= width,
                next <= y * w + x,
                whole(prior@, new_labels@, w, h),
                adjacent != UNLABELED,
                adjacent < label_bound(next),
                below(new_labels@, label_bound(next) as int),
                well_filled(new_labels@, next, threshold as int),
                ledger_ok(prior@, new_labels@, next, ledger, w, h, threshold as int),
                forall|i: int| 0 <= i < y * w + x ==> #[trigger] new_labels@[i] != UNLABELED,
                relabeling(new_labels@, next, adjacent) == relabel_upto(
                    prior@,
                    w,
                    threshold as int,
                    y * w + x,
                ),
            decreases width - x,
        {
            proof {
                lemma_flat_index(w, h, x as int, y as int);
            }
            let idx: usize = ((y as u64) * (width as u64) + (x as u64)) as usize;
            if new_labels[idx] == UNLABELED {
                let old_label: usize = prior[idx];
                let ghost base = new_labels@;
                new_labels[idx] = next;
                queue.clear();
                queue.push((x, y));
                proof {
                    assert(queue@ =~= seq![((idx as int % w) as u32, (idx as int / w) as u32)]);
                    assert(queue_index(queue@, w, 0) == idx);
                    assert(in_queue(queue@, w, idx as int));
                    assert(queue_marked_at(
                        prior@,
                        base,
                        new_labels@,
                        queue@,
                        w,
                        h,
                        old_label,
                        next,
                        0,
                    ));
                    if idx != 0 {
                        let t = if x > 0 {
                            ((x - 1) as u32, y)
                        } else {
                            (x, (y - 1) as u32)
                        };
                        if x == 0 {
                            assert(y > 0 && (y - 1) * w + x < y * w + x) by (nonlinear_arith)
                                requires
                                    idx == y * w + x,
                                    idx != 0,
                                    x == 0,
                                    0 <= y,
                                    0 < w,
                            ;
                        }
                        lemma_flat_index(w, h, t.0 as int, t.1 as int);
                        assert(base[flat_index(w, t.0 as int, t.1 as int)] != UNLABELED);
                        assert(next_to((x, y), t));
                        if prior@[flat_index(w, t.0 as int, t.1 as int)] == old_label {
                            lemma_whole_pair(prior@, base, w, h, (x, y), t);
                        }
                        assert(foreign(prior@, base, w, h, t, old_label));
                        assert(has_foreign(prior@, base, w, h, (x, y), old_label));
                    }
                }
                expand(
                    width,
                    height,
                    prior,
                    old_label,
                    next,
                    new_labels,
                    queue,
                    &mut adjacent,
                    Ghost(base),
                    Ghost(label_bound(next) as int),
                );
                let ghost found = expansion(new_labels@, queue@, queue@.len() as int, adjacent);
                if queue.len() as u64 <= threshold {
                    fill(width, height, queue, adjacent, new_labels);
                    proof {
                        lemma_filled(found.labels, w, h, queue@, adjacent, queue@.len() as int);
                        assert(queue@.subrange(0, queue@.len() as int) =~= queue@);
                        assert forall|i: int| 0 <= i < y * w + x + 1 implies #[trigger] new_labels@[i]
                            != UNLABELED by {
                            if !in_queue(queue@, w, i) {
                                assert(new_labels@[i] == found.labels[i]);
                            } else {
                                let j = choose|j: int|
                                    0 <= j < queue@.len() && #[trigger] queue_index(queue@, w, j)
                                        == i;
                            }
                        }
                        lemma_component_whole(
                            prior@,
                            base,
                            found,
                            new_labels@,
                            w,
                            h,
                            old_label,
                            next,
                            adjacent,
                        );
                        lemma_ledger_step(
                            prior@,
                            base,
                            new_labels@,
                            next,
                            next,
                            ledger,
                            found,
                            w,
                            h,
                            threshold as int,
                            idx as int,
                            adjacent,
                        );
                        ledger = ledger_with(ledger, found.queue, w, idx as int);
                        assert forall|i: int|
                            0 <= i < new_labels@.len() && #[trigger] new_labels@[i]
                                != UNLABELED implies new_labels@[i] < label_bound(next) by {
                            if !in_queue(queue@, w, i) {
                                assert(new_labels@[i] == found.labels[i]);
                                assert(found.labels[i] == base[i]);
                            } else {
                                let j = choose|j: int|
                                    0 <= j < queue@.len() && #[trigger] queue_index(queue@, w, j)
                                        == i;
                            }
                        }
                        assert forall|label: usize| label < next implies #[trigger] count_of(
                            new_labels@,
                            label,
                            new_labels@.len() as int,
                        ) > threshold by {
                            assert(count_of(base, label, base.len() as int) > threshold);
                            assert forall|i: int|
                                0 <= i < base.len() && base[i] == label implies #[trigger] new_labels@[i]
                                == label by {
                                if in_queue(queue@, w, i) {
                                    let j = choose|j: int|
                                        0 <= j < queue@.len() && #[trigger] queue_index(
                                            queue@,
                                            w,
                                            j,
                                        ) == i;
                                    assert(queue_marked_at(
                                        prior@,
                                        base,
                                        found.labels,
                                        found.queue,
                                        w,
                                        h,
                                        old_label,
                                        next,
                                        j,
                                    ));
                                }
                                assert(new_labels@[i] == found.labels[i]);
                                assert(found.labels[i] == base[i]);
                            }
                            lemma_count_of_kept(base, new_labels@, label, base.len() as int);
                        }
                    }
                } else {
                    proof {
                        assert forall|j: int| 0 <= j < found.queue.len() implies new_labels@[#[trigger] queue_index(
                            found.queue,
                            w,
                            j,
                        )] == next by {
                            assert(queue_marked_at(
                                prior@,
                                base,
                                found.labels,
                                found.queue,
                                w,
                                h,
                                old_label,
                                next,
                                j,
                            ));
                        }
                        lemma_component_whole(
                            prior@,
                            base,
                            found,
                            new_labels@,
                            w,
                            h,
                            old_label,
                            next,
                            next,
                        );
                        lemma_ledger_step(
                            prior@,
                            base,
                            new_labels@,
                            next,
                            (next + 1) as usize,
                            ledger,
                            found,
                            w,
                            h,
                            threshold as int,
                            idx as int,
                            next,
                        );
                        ledger = ledger_with(ledger, found.queue, w, idx as int);
                        assert forall|i: int|
                            0 <= i < new_labels@.len() && #[trigger] new_labels@[i]
                                != UNLABELED implies new_labels@[i] < next + 1 by {
                            assert(new_labels@[i] == next || new_labels@[i] == base[i]);
                        }
                        assert forall|label: usize| label < next + 1 implies #[trigger] count_of(
                            new_labels@,
                            label,
                            new_labels@.len() as int,
                        ) > threshold by {
                            if label < next {
                                assert(count_of(base, label, base.len() as int) > threshold);
                                assert forall|i: int|
                                    0 <= i < base.len() && base[i] == label implies #[trigger] new_labels@[i]
                                    == label by {
                                    assert(new_labels@[i] == base[i]);
                                }
                                lemma_count_of_kept(base, new_labels@, label, base.len() as int);
                            } else {
                                let places = Seq::new(
                                    queue@.len(),
                                    |j: int| queue_index(queue@, w, j),
                                );
                                assert forall|j: int| 0 <= j < places.len() implies 0
                                    <= #[trigger] places[j] < new_labels@.len()
                                    && new_labels@[places[j]] == label by {
                                    assert(queue_marked_at(
                                        prior@,
                                        base,
                                        found.labels,
                                        found.queue,
                                        w,
                                        h,
                                        old_label,
                                        next,
                                        j,
                                    ));
                                    lemma_flat_index(
                                        w,
                                        h,
                                        queue@[j].0 as int,
                                        queue@[j].1 as int,
                                    );
                                }
                                assert forall|i: int, j: int|
                                    0 <= i < j < places.len() implies #[trigger] places[i]
                                    != #[trigger] places[j] by {
                                    assert(queue_index(queue@, w, i) != queue_index(queue@, w, j));
                                }
                                lemma_count_of_at_least(new_labels@, label, places);
                            }
                        }
                    }
                    next = next + 1;
                }
            }
            x += 1;
        }
        assert((y + 1) * w == y * w + w && (y + 1) * w <= w * h) by (nonlinear_arith)
            requires
                y < h,
                w >= 0,
        ;
        y += 1;
    }
    assert(height as int * w == w * h) by (nonlinear_arith)
        requires
            h == height,
    ;
    proof {
        lemma_fragment_law(prior@, new_labels@, next, ledger, w, h, threshold as int);
    }
}

/// Relabel disjoint parts of a superpixel.
///
/// Every connected component of pixels with one label gets a label of
/// its own, counted up from `0` in row order.  A component of at most
/// `s * s / 4` pixels gets none: it takes the label of the neighbouring
/// component seen last while it was searched out.  Either way no
/// component is split: pixels next to each other that had one label
/// have one label afterwards.  No fragment keeps a label of its own:
/// every label below `kept_regions` is carried by more than `s * s / 4`
/// pixels.  `fragment_law` says the same of the components one by one:
/// no two of more than `s * s / 4` pixels share a label, and a smaller
/// one that does not hold the first pixel of the image has the label of
/// a pixel next to it that belonged to another component.
///
/// Labels that do not number `width * height` are an error.  On that
/// error, and if the allocator grants no room to work in, the labels
/// stay as they are.
pub fn enforce_connectivity(width: u32, height: u32, s: u32, labels: &mut [usize]) -> (r: Result<
    (),
    ScError,
>)
    ensures
        match r {
            Ok(()) => old(labels)@.len() == width * height && final(labels)@ == connected_labels(
                width as int,
                s as int,
                old(labels)@,
            ),
            Err(e) => final(labels)@ == old(labels)@ && if old(labels)@.len() != width * height {
                e == ScError::MismatchedSlicBuffer
            } else {
                e is Reserve
            },
        },
        final(labels)@.len() == old(labels)@.len(),
        whole(old(labels)@, final(labels)@, width as int, height as int),
        r is Ok ==> forall|i: int|
            0 <= i < final(labels)@.len() ==> #[trigger] final(labels)@[i] < region_count(
                width as int,
                s as int,
                old(labels)@,
            ) <= final(labels)@.len(),
        r is Ok ==> well_filled(
            final(labels)@,
            kept_regions(width as int, s as int, old(labels)@),
            s as int * s as int / 4,
        ),
        r is Ok ==> fragment_law(
            old(labels)@,
            final(labels)@,
            width as int,
            height as int,
            s as int * s as int / 4,
        ),
{
    let total: usize = labels.len();
    if !holds_pixels(width, height, total) {
        return Err(ScError::MismatchedSlicBuffer);
    }
    let mut new_labels: Vec<usize> = match try_filled(UNLABELED, total) {
        Ok(v) => v,
        Err(e) => {
            return Err(ScError::Reserve(e));
        },
    };
    let mut queue: Vec<(u32, u32)> = Vec::new();
    match queue.try_reserve(total) {
        Ok(()) => {},
        Err(e) => {
            return Err(ScError::Reserve(e));
        },
    }
    relabel_components(width, height, s, labels, &mut new_labels, &mut queue);
    let mut i: usize = 0;
    while i < total
        invariant
            i <= total,
            total == new_labels@.len(),
            labels@.len() == total,
            forall|j: int| 0 <= j < i ==> #[trigger] labels@[j] == new_labels@[j],
        decreases total - i,
    {
        labels[i] = new_labels[i];
        i += 1;
    }
    assert(labels@ =~= new_labels@);
    Ok(())
}

/// The centres and what every pixel holds, between two rounds of SLIC.
pub struct SlicState {
    /// The superpixel centres.
    pub centers: Seq<Superpixel<Lab>>,
    /// The distance of every pixel from the nearest centre seen so far.
    pub distances: Seq<u128>,
    /// The label of every pixel.
    pub labels: Seq<usize>,
}

/// The state with the given parts.
pub open spec fn slic_state(
    centers: Seq<Superpixel<Lab>>,
    distances: Seq<u128>,
    labels: Seq<usize>,
) -> SlicState {
    SlicState { centers, distances, labels }
}

/// One round of SLIC: every pixel goes to the nearest centre whose
/// window holds it, if that centre is nearer than what the pixel held;
/// then every centre moves to the mean of its pixels.
pub open spec fn slic_round(
    st: SlicState,
    m: int,
    s: int,
    width: int,
    height: int,
    image: Seq<Lab>,
) -> SlicState {
    let distances = Seq::new(
        image.len(),
        |i: int|
            nearest(
                st.centers,
                st.centers.len() as int,
                m,
                s,
                width,
                height,
                image,
                st.distances,
                st.labels,
                i,
            ).0,
    );
    let labels = Seq::new(
        image.len(),
        |i: int|
            nearest(
                st.centers,
                st.centers.len() as int,
                m,
                s,
                width,
                height,
                image,
                st.distances,
                st.labels,
                i,
            ).1,
    );
    let centers = Seq::new(
        st.centers.len(),
        |c: int|
            recentered(st.centers[c], cluster_sums(labels, image, width, c, image.len() as int)),
    );
    SlicState { centers, distances, labels }
}

/// The state after `n` rounds.
pub open spec fn slic_rounds(
    st: SlicState,
    n: nat,
    m: int,
    s: int,
    width: int,
    height: int,
    image: Seq<Lab>,
) -> SlicState
    decreases n,
{
    if n == 0 {
        st
    } else {
        slic_round(
            slic_rounds(st, (n - 1) as nat, m, s, width, height, image),
            m,
            s,
            width,
            height,
            image,
        )
    }
}

/// The state in which SLIC starts: the initial centres, every pixel
/// infinitely far from any centre and labelled `0`.
pub open spec fn slic_start(width: int, height: int, s: int, k: int, image: Seq<Lab>) -> SlicState {
    SlicState {
        centers: initial_centers(width, height, s, k, image),
        distances: Seq::new(image.len(), |i: int| INFINITE_DISTANCE),
        labels: Seq::new(image.len(), |i: int| 0usize),
    }
}

/// The number of rounds: `10` unless another number is given.
pub open spec fn round_count(iter: Option<u8>) -> nat {
    match iter {
        Some(n) => n as nat,
        None => 10,
    }
}

/// The labels that SLIC leaves before connectivity is enforced.
pub open spec fn slic_clusters(
    k: u32,
    m: u8,
    width: u32,
    height: u32,
    iter: Option<u8>,
    image: Seq<Lab>,
) -> Seq<usize> {
    let s = grid_interval_spec(width as nat, height as nat, k as nat) as int;
    slic_rounds(
        slic_start(width as int, height as int, s, k as int, image),
        round_count(iter),
        clamp_compactness(m) as int,
        s,
        width as int,
        height as int,
        image,
    ).labels
}

/// The labels that SLIC gives.
pub open spec fn slic_labels(
    k: u32,
    m: u8,
    width: u32,
    height: u32,
    iter: Option<u8>,
    image: Seq<Lab>,
) -> Seq<usize> {
    connected_labels(
        width as int,
        grid_interval_spec(width as nat, height as nat, k as nat) as int,
        slic_clusters(k, m, width, height, iter, image),
    )
}

/// Whether `labels` is what SLIC returns for the arguments given.
pub open spec fn is_slic_result(
    k: u32,
    m: u8,
    width: u32,
    height: u32,
    iter: Option<u8>,
    image: Seq<Lab>,
    labels: Seq<usize>,
) -> bool {
    input_error(k, width, height, image.len(), ScError::MismatchedSlicBuffer) is None && labels
        == slic_labels(k, m, width, height, iter, image)
}

/// SLIC is deterministic: whatever it returns for one input is one and
/// the same sequence of labels.
pub proof fn lemma_slic_deterministic(
    k: u32,
    m: u8,
    width: u32,
    height: u32,
    iter: Option<u8>,
    image: Seq<Lab>,
    first: Seq<usize>,
    second: Seq<usize>,
)
    requires
        is_slic_result(k, m, width, height, iter, image, first),
        is_slic_result(k, m, width, height, iter, image, second),
    ensures
        first == second,
{
}

/// Run the rounds of SLIC on the centres and the pixel information
/// given, with `updates` as the room for the sums.
pub fn run_rounds(
    rounds: u8,
    m: u8,
    s: u32,
    width: u32,
    height: u32,
    image: &[Lab],
    clusters: &mut Vec<Superpixel<Lab>>,
    info: &mut SlicInfo<u128, usize>,
    updates: &mut Vec<SlicUpdate<LabSum>>,
)
    requires
        0 < width,
        image@.len() == width as int * height as int,
        old(info).distances@.len() == image@.len(),
        old(info).labels@.len() == image@.len(),
        old(updates)@.len() == old(clusters)@.len(),
        forall|c: int| 0 <= c < old(updates)@.len() ==> (#[trigger] old(updates)@[c])@ == Sums::zero(),
    ensures
        slic_state(final(clusters)@, final(info).distances@, final(info).labels@) == slic_rounds(
            slic_state(old(clusters)@, old(info).distances@, old(info).labels@),
            rounds as nat,
            m as int,
            s as int,
            width as int,
            height as int,
            image@,
        ),
        final(info).labels@.len() == image@.len(),
        final(clusters)@.len() == old(clusters)@.len(),
        (forall|i: int| 0 <= i < image@.len() ==> #[trigger] old(info).labels@[i] == 0)
            ==> forall|i: int|
            0 <= i < image@.len() ==> #[trigger] final(info).labels@[i] == 0 || final(info).labels@[i]
                < old(clusters)@.len(),

{
    let ghost start = slic_state(clusters@, info.distances@, info.labels@);
    let ghost blank = forall|i: int| 0 <= i < image@.len() ==> #[trigger] start.labels[i] == 0;
    let total: usize = image.len();
    let _ = clusters.len();
    assert(start.labels == info.labels@);
    let mut round: u8 = 0;
    while round < rounds
        invariant
            round <= rounds,
            0 < width,
            total == image@.len(),
            image@.len() == width as int * height as int,
            info.distances@.len() == image@.len(),
            info.labels@.len() == image@.len(),
            updates@.len() == clusters@.len(),
            clusters@.len() == start.centers.len(),
            forall|c: int| 0 <= c < updates@.len() ==> (#[trigger] updates@[c])@ == Sums::zero(),
            clusters@.len() <= usize::MAX,
            blank == (forall|i: int| 0 <= i < image@.len() ==> #[trigger] start.labels[i] == 0),
            blank ==> forall|i: int|
                0 <= i < image@.len() ==> #[trigger] info.labels@[i] == 0 || info.labels@[i]
                    < clusters@.len(),
            slic_state(clusters@, info.distances@, info.labels@) == slic_rounds(
                start,
                round as nat,
                m as int,
                s as int,
                width as int,
                height as int,
                image@,
            ),
        decreases rounds - round,
    {
        let ghost before = slic_state(clusters@, info.distances@, info.labels@);
        assign(clusters, m, s, width, height, image, info);
        proof {
            if blank {
                assert forall|i: int| 0 <= i < image@.len() implies #[trigger] info.labels@[i] == 0
                    || info.labels@[i] < clusters@.len() by {
                    lemma_nearest_bounds(
                        before.centers,
                        before.centers.len() as int,
                        m as int,
                        s as int,
                        width as int,
                        height as int,
                        image@,
                        before.distances,
                        before.labels,
                        i,
                    );
                    assert((info.distances@[i], info.labels@[i]).1 == info.labels@[i]);
                    assert(before.labels[i] == 0 || before.labels[i] < clusters@.len());
                }
            }
        }
        accumulate(width, height, image, &info.labels, updates);
        proof {
            assert forall|c: int| 0 <= c < updates@.len() implies (#[trigger] updates@[c])@.bounded(
                usize::MAX as int,
            ) by {
                lemma_cluster_sums_bounded(
                    info.labels@,
                    image@,
                    width as int,
                    height as int,
                    c,
                    image@.len() as int,
                );
            }
        }
        recenter(clusters, updates);
        proof {
            let after = slic_round(before, m as int, s as int, width as int, height as int, image@);
            assert(info.distances@ =~= after.distances) by {
                assert forall|i: int| 0 <= i < image@.len() implies info.distances@[i]
                    == after.distances[i] by {
                    assert((info.distances@[i], info.labels@[i]).0 == after.distances[i]);
                }
            }
            assert(info.labels@ =~= after.labels) by {
                assert forall|i: int| 0 <= i < image@.len() implies info.labels@[i]
                    == after.labels[i] by {
                    assert((info.distances@[i], info.labels@[i]).1 == after.labels[i]);
                }
            }
            assert(clusters@ =~= after.centers);
        }
        round += 1;
    }
}

/// Run SLIC in the room given: `rounds` rounds from the centres and the
/// pixel information given, then the relabelling of the connected
/// components into `new_labels`.
///
/// No label is `region_count` or more.  With one centre at most, and
/// every pixel labelled `0` at the start, all pixels get one label.
pub fn slic_with(
    rounds: u8,
    m: u8,
    s: u32,
    width: u32,
    height: u32,
    image: &[Lab],
    clusters: &mut Vec<Superpixel<Lab>>,
    info: &mut SlicInfo<u128, usize>,
    updates: &mut Vec<SlicUpdate<LabSum>>,
    new_labels: &mut Vec<usize>,
    queue: &mut Vec<(u32, u32)>,
)
    requires
        0 < width,
        image@.len() == width as int * height as int,
        old(info).distances@.len() == image@.len(),
        old(info).labels@.len() == image@.len(),
        old(updates)@.len() == old(clusters)@.len(),
        forall|c: int| 0 <= c < old(updates)@.len() ==> (#[trigger] old(updates)@[c])@ == Sums::zero(),
        old(new_labels)@ == Seq::new(image@.len(), |i: int| UNLABELED),
    ensures
        final(new_labels)@ == connected_labels(
            width as int,
            s as int,
            slic_rounds(
                slic_state(old(clusters)@, old(info).distances@, old(info).labels@),
                rounds as nat,
                m as int,
                s as int,
                width as int,
                height as int,
                image@,
            ).labels,
        ),
        final(new_labels)@.len() == image@.len(),
        forall|i: int|
            0 <= i < image@.len() ==> #[trigger] final(new_labels)@[i] < region_count(
                width as int,
                s as int,
                slic_rounds(
                    slic_state(old(clusters)@, old(info).distances@, old(info).labels@),
                    rounds as nat,
                    m as int,
                    s as int,
                    width as int,
                    height as int,
                    image@,
                ).labels,
            ) <= image@.len(),
        well_filled(
            final(new_labels)@,
            kept_regions(
                width as int,
                s as int,
                slic_rounds(
                    slic_state(old(clusters)@, old(info).distances@, old(info).labels@),
                    rounds as nat,
                    m as int,
                    s as int,
                    width as int,
                    height as int,
                    image@,
                ).labels,
            ),
            s as int * s as int / 4,
        ),
        fragment_law(
            slic_rounds(
                slic_state(old(clusters)@, old(info).distances@, old(info).labels@),
                rounds as nat,
                m as int,
                s as int,
                width as int,
                height as int,
                image@,
            ).labels,
            final(new_labels)@,
            width as int,
            height as int,
            s as int * s as int / 4,
        ),
        old(clusters)@.len() <= 1 && (forall|i: int|
            0 <= i < image@.len() ==> #[trigger] old(info).labels@[i] == 0) ==> forall|
            i: int,
            j: int,
        |
            0 <= i < image@.len() && 0 <= j < image@.len() ==> final(new_labels)@[i] == final(new_labels)@[j],
{
    let ghost centers = clusters@;
    let ghost blank = forall|i: int| 0 <= i < image@.len() ==> #[trigger] info.labels@[i] == 0;
    run_rounds(rounds, m, s, width, height, image, clusters, info, updates);
    let ghost clustered = info.labels@;
    relabel_components(width, height, s, info.labels.as_slice(), new_labels, queue);
    proof {
        if centers.len() <= 1 && blank {
            assert forall|i: int, j: int|
                0 <= i < clustered.len() && 0 <= j < clustered.len() implies clustered[i]
                == clustered[j] by {
                assert(clustered[i] == 0 || clustered[i] < centers.len());
                assert(clustered[j] == 0 || clustered[j] < centers.len());
            }
            lemma_uniform_stays_uniform(clustered, new_labels@, width as int, height as int);
        }
    }
}

/// Calculate SLIC.
///
/// `iter` will default to `10` if `None` is supplied.
///
/// `k` must not be `0` and must be below the number of pixels.
/// `m` is clamped to be between `1` and `20`.
/// `width` and `height` must not be `0`, and `image` must hold `width *
/// height` colours, row by row.
///
/// The result holds one label for every pixel, below `region_count`;
/// every label that a component kept for its own is carried by more
/// than a quarter of the grid interval squared of the pixels, and
/// `fragment_law` holds between the labels after the last round and the
/// result.  There is
/// at least one initial centre and there are at most `k`; with `k` at
/// `1` all pixels get one label.  An error is the one that
/// `input_error` names; with arguments that it accepts, the only error
/// left is that of an allocator that grants no room.
///
/// ## Reference
///
/// *Achanta, R., Shaji, A., Smith, K., Lucchi, A., Fua, P., & Susstrunk,
/// S. SLIC Superpixels. EPFL Technical Report no. 149300, June 2010.*
pub fn slic(k: u32, m: u8, width: u32, height: u32, iter: Option<u8>, image: &[Lab]) -> (r: Result<
    Vec<usize>,
    ScError,
>)
    ensures
        match r {
            Ok(labels) => is_slic_result(k, m, width, height, iter, image@, labels@) && labels@.len()
                == width * height && (forall|i: int|
                0 <= i < labels@.len() ==> #[trigger] labels@[i] < region_count(
                    width as int,
                    grid_interval_spec(width as nat, height as nat, k as nat) as int,
                    slic_clusters(k, m, width, height, iter, image@),
                ) <= labels@.len()) && well_filled(
                labels@,
                kept_regions(
                    width as int,
                    grid_interval_spec(width as nat, height as nat, k as nat) as int,
                    slic_clusters(k, m, width, height, iter, image@),
                ),
                grid_interval_spec(width as nat, height as nat, k as nat) as int
                    * grid_interval_spec(width as nat, height as nat, k as nat) as int / 4,
            ) && fragment_law(
                slic_clusters(k, m, width, height, iter, image@),
                labels@,
                width as int,
                height as int,
                grid_interval_spec(width as nat, height as nat, k as nat) as int
                    * grid_interval_spec(width as nat, height as nat, k as nat) as int / 4,
            ) && (1 <= initial_centers(
                width as int,
                height as int,
                grid_interval_spec(width as nat, height as nat, k as nat) as int,
                k as int,
                image@,
            ).len() <= k) && (k == 1 ==> forall|i: int, j: int|
                0 <= i < labels@.len() && 0 <= j < labels@.len() ==> labels@[i] == labels@[j]),
            Err(e) => match input_error(
                k,
                width,
                height,
                image@.len(),
                ScError::MismatchedSlicBuffer,
            ) {
                Some(expected) => e == expected,
                None => e is Reserve,
            },
        },
{
    // Validate input parameters
    let m: u8 = if m < 1 {
        1
    } else if m > 20 {
        20
    } else {
        m
    };
    let rounds: u8 = match iter {
        Some(n) => n,
        None => 10,
    };
    let s: u32 = match validate(k, width, height) {
        Ok(s) => s,
        Err(e) => {
            return Err(e);
        },
    };
    if !holds_pixels(width, height, image.len()) {
        return Err(ScError::MismatchedSlicBuffer);
    }
    // Init seeds and shuffle them to a hopefully non-noisy pixel

    let mut clusters: Vec<Superpixel<Lab>> = match initial_clusters(width, height, s, k, image) {
        Ok(clusters) => clusters,
        Err(e) => {
            proof {
                lemma_seed_total_fits(width as int, height as int, s as int, k as int);
            }
            return Err(e);
        },
    };

    proof {
        lemma_seed_count(width as int, height as int, s as int, k as int, image@);
    }

    // Bookkeeping for tracking pixel clusters and updating cluster centers
    let mut info: SlicInfo<u128, usize> = SlicInfo::new();
    info.distances = match try_filled(INFINITE_DISTANCE, image.len()) {
        Ok(v) => v,
        Err(e) => {
            return Err(ScError::Reserve(e));
        },
    };
    info.labels = match try_filled(0usize, image.len()) {
        Ok(v) => v,
        Err(e) => {
            return Err(ScError::Reserve(e));
        },
    };
    let mut updates: Vec<SlicUpdate<LabSum>> = match try_filled(SlicUpdate::new(), clusters.len()) {
        Ok(v) => v,
        Err(e) => {
            return Err(ScError::Reserve(e));
        },
    };

    // Room for relabelling the connected components
    let mut labels: Vec<usize> = match try_filled(UNLABELED, image.len()) {
        Ok(v) => v,
        Err(e) => {
            return Err(ScError::Reserve(e));
        },
    };
    let mut queue: Vec<(u32, u32)> = Vec::new();
    match queue.try_reserve(image.len()) {
        Ok(()) => {},
        Err(e) => {
            return Err(ScError::Reserve(e));
        },
    }
    slic_with(
        rounds,
        m,
        s,
        width,
        height,
        image,
        &mut clusters,
        &mut info,
        &mut updates,
        &mut labels,
        &mut queue,
    );
    Ok(labels)
}

} // verus!
