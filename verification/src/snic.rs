//! Simple non-iterative clustering.
use crate::error::ScError;
use crate::queue::{lemma_minimum_unique, min_element, SnicElement, SnicQueue};
use crate::seed::{
    initial_centers, initial_clusters, lemma_initial_centers_in_image, lemma_seed_count,
    lemma_seed_total_fits,
};
use crate::{
    center_distance, clamp_compactness, count_of, distance_lab, distance_s, distance_xy, flat_index,
    floor_div, get_in_bounds, grid_interval_spec, holds_pixels, in_bounds, index_in_bounds,
    input_error, lemma_count_of_bounds, lemma_count_of_update, lemma_flat_index,
    lemma_flat_index_injective, lemma_grid_connected, lemma_in_bounds_row, lemma_in_image,
    lemma_mean_in_range, lemma_pixel_of_index, spreads, try_filled, validate, Lab, LabSum, Sums,
    Superpixel,
};
use vstd::arithmetic::div_mod::lemma_fundamental_div_mod_converse;
use vstd::multiset::Multiset;
use vstd::prelude::*;

verus! {

broadcast use vstd::multiset::group_multiset_axioms;

/// Struct used for accumulating and calculating superpixel clusters in
/// SNIC.
#[derive(Debug, Clone, Copy)]
pub struct SnicUpdate<T> {
    /// Accumulated colour data, divide by count for the mean colour.
    pub accum: T,
    /// X-coordinate.
    pub x: u128,
    /// Y-coordinate.
    pub y: u128,
    /// Total elements in the cluster.
    pub count: u64,
}

impl View for SnicUpdate<LabSum> {
    type V = Sums;

    open spec fn view(&self) -> Sums {
        Sums {
            l: self.accum.l as int,
            a: self.accum.a as int,
            b: self.accum.b as int,
            x: self.x as int,
            y: self.y as int,
            count: self.count as int,
        }
    }
}

impl SnicUpdate<LabSum> {
    /// Create a [`SnicUpdate`] that has gathered no pixel.
    #[must_use]
    pub fn new() -> (update: Self)
        ensures
            update@ == Sums::zero(),
    {
        Self { accum: LabSum::default(), x: 0, y: 0, count: 0 }
    }
}

impl Default for SnicUpdate<LabSum> {
    fn default() -> (update: Self)
        ensures
            update@ == Sums::zero(),
    {
        Self { accum: LabSum::default(), x: 0, y: 0, count: 0 }
    }
}

/// The growth of the superpixels, part of the way through.
pub struct SnicState {
    /// The label of every pixel; `0` for a pixel that has none yet.
    pub labels: Seq<usize>,
    /// What the superpixel with the label `k` has gathered, at `k - 1`.
    pub sums: Seq<Sums>,
    /// The centre of the superpixel with the label `k`, at `k - 1`.
    pub centers: Seq<Superpixel<Lab>>,
    /// The pixels offered to a superpixel and not taken up yet.
    pub queue: Multiset<SnicElement>,
}

/// The state with the given parts.
pub open spec fn snic_state(
    labels: Seq<usize>,
    sums: Seq<Sums>,
    centers: Seq<Superpixel<Lab>>,
    queue: Multiset<SnicElement>,
) -> SnicState {
    SnicState { labels, sums, centers, queue }
}

/// What a vector of updates has gathered.
pub open spec fn sums_view(updates: Seq<SnicUpdate<LabSum>>) -> Seq<Sums> {
    Seq::new(updates.len(), |i: int| updates[i]@)
}

/// The element that offers the pixel `(x, y)` to the superpixel with
/// the label `k`.
pub open spec fn offered(
    st: SnicState,
    m: int,
    s: int,
    width: int,
    image: Seq<Lab>,
    k: usize,
    x: int,
    y: int,
) -> SnicElement {
    SnicElement {
        distance: center_distance(
            st.centers[k - 1],
            m,
            s,
            x,
            y,
            image[flat_index(width, x, y)],
        ) as u128,
        k,
        x: x as u32,
        y: y as u32,
    }
}

/// Offer the pixel `(x, y)` to the superpixel with the label `k`, if it
/// lies in the image and has no label: it enters the queue with its
/// distance from the superpixel's centre.
pub open spec fn offer(
    st: SnicState,
    m: int,
    s: int,
    width: int,
    image: Seq<Lab>,
    k: usize,
    x: int,
    y: int,
) -> SnicState {
    if in_bounds(width, x, y, st.labels.len() as int) && st.labels[flat_index(width, x, y)] == 0 {
        SnicState { queue: st.queue.insert(offered(st, m, s, width, image, k, x, y)), ..st }
    } else {
        st
    }
}

/// The pixel of `e` after it took the label of `e`: its superpixel's
/// sums hold it and the centre is their mean.
pub open spec fn labeled(st: SnicState, width: int, image: Seq<Lab>, e: SnicElement) -> SnicState {
    let i = flat_index(width, e.x as int, e.y as int);
    let sums = st.sums[e.k - 1].with(image[i], e.x as int, e.y as int);
    SnicState {
        labels: st.labels.update(i, e.k),
        sums: st.sums.update(e.k - 1, sums),
        centers: st.centers.update(e.k - 1, sums.mean()),
        queue: st.queue,
    }
}

/// Give the pixel of `e` the label of `e`, and offer its neighbours to
/// the west, north, east and south to the same superpixel.
pub open spec fn claim(
    st: SnicState,
    m: int,
    s: int,
    width: int,
    image: Seq<Lab>,
    e: SnicElement,
) -> SnicState {
    let x = e.x as int;
    let y = e.y as int;
    let west = offer(labeled(st, width, image, e), m, s, width, image, e.k, x - 1, y);
    let north = offer(west, m, s, width, image, e.k, x, y - 1);
    let east = offer(north, m, s, width, image, e.k, x + 1, y);
    offer(east, m, s, width, image, e.k, x, y + 1)
}

/// The state without `e` in the queue.
pub open spec fn popped(st: SnicState, e: SnicElement) -> SnicState {
    SnicState { queue: st.queue.remove(e), ..st }
}

/// Whether the pixel of `e` lies in the image and has no label yet.
pub open spec fn is_free(st: SnicState, width: int, e: SnicElement) -> bool {
    in_bounds(width, e.x as int, e.y as int, st.labels.len() as int) && st.labels[flat_index(
        width,
        e.x as int,
        e.y as int,
    )] == 0
}

/// One step of the growth: the element with the lowest distance leaves
/// the queue.  If its pixel has a label already, nothing else happens.
/// Otherwise the pixel takes the element's label.
pub open spec fn snic_step(st: SnicState, m: int, s: int, width: int, image: Seq<Lab>) -> SnicState {
    if st.queue.len() == 0 {
        st
    } else {
        let e = min_element(st.queue);
        if is_free(st, width, e) {
            claim(popped(st, e), m, s, width, image, e)
        } else {
            popped(st, e)
        }
    }
}

/// The state after `n` steps.
pub open spec fn snic_steps(
    st: SnicState,
    n: nat,
    m: int,
    s: int,
    width: int,
    image: Seq<Lab>,
) -> SnicState
    decreases n,
{
    if n == 0 {
        st
    } else {
        snic_step(snic_steps(st, (n - 1) as nat, m, s, width, image), m, s, width, image)
    }
}

/// The state once the queue is empty.
pub open spec fn grown(st: SnicState, m: int, s: int, width: int, image: Seq<Lab>) -> SnicState {
    snic_steps(
        st,
        choose|n: nat| (#[trigger] snic_steps(st, n, m, s, width, image)).queue.len() == 0,
        m,
        s,
        width,
        image,
    )
}

/// Once the queue is empty, further steps change nothing.
pub proof fn lemma_steps_stable(
    st: SnicState,
    a: nat,
    b: nat,
    m: int,
    s: int,
    width: int,
    image: Seq<Lab>,
)
    requires
        a <= b,
        snic_steps(st, a, m, s, width, image).queue.len() == 0,
    ensures
        snic_steps(st, b, m, s, width, image) == snic_steps(st, a, m, s, width, image),
    decreases b,
{
    if a < b {
        lemma_steps_stable(st, a, (b - 1) as nat, m, s, width, image);
    }
}

/// If the queue is empty after `t` steps, the growth ends in the state
/// reached then.
pub proof fn lemma_grown(st: SnicState, t: nat, m: int, s: int, width: int, image: Seq<Lab>)
    requires
        snic_steps(st, t, m, s, width, image).queue.len() == 0,
    ensures
        grown(st, m, s, width, image) == snic_steps(st, t, m, s, width, image),
{
    let n = choose|n: nat| (#[trigger] snic_steps(st, n, m, s, width, image)).queue.len() == 0;
    if n <= t {
        lemma_steps_stable(st, n, t, m, s, width, image);
    } else {
        lemma_steps_stable(st, t, n, m, s, width, image);
    }
}

/// The queue in which the growth starts: the first `n` centres, each
/// offered its own position at the distance `0`, with the labels from
/// `1` on.
pub open spec fn seed_queue(centers: Seq<Superpixel<Lab>>, n: int) -> Multiset<SnicElement>
    decreases n,
{
    if n <= 0 {
        Multiset::empty()
    } else {
        seed_queue(centers, n - 1).insert(
            SnicElement { distance: 0, k: n as usize, x: centers[n - 1].x, y: centers[n - 1].y },
        )
    }
}

/// The state in which the growth starts.
pub open spec fn snic_start(centers: Seq<Superpixel<Lab>>, len: nat) -> SnicState {
    SnicState {
        labels: Seq::new(len, |i: int| 0usize),
        sums: Seq::new(centers.len(), |i: int| Sums::zero()),
        centers,
        queue: seed_queue(centers, centers.len() as int),
    }
}

/// Whether the pixel `(x, y)`, if it lies in the image, has a label or
/// stands in the queue.
pub open spec fn reached(st: SnicState, width: int, x: int, y: int) -> bool {
    in_bounds(width, x, y, st.labels.len() as int) ==> st.labels[flat_index(width, x, y)] != 0
        || exists|e: SnicElement| #[trigger] st.queue.count(e) > 0 && e.x == x && e.y == y
}

/// Whether the pixel `(x, y)` has a label.
pub open spec fn has_label(labels: Seq<usize>, width: int, x: int, y: int) -> bool {
    labels[flat_index(width, x, y)] != 0
}

/// What holds of the states between the labelling of a pixel and the
/// last offer of its neighbours.
pub open spec fn snic_base(st: SnicState, width: int, height: int) -> bool {
    let total = st.labels.len() as int;
    &&& total == width * height
    &&& 0 <= width <= u32::MAX
    &&& 0 <= height <= u32::MAX
    &&& st.sums.len() == st.centers.len()
    &&& forall|e: SnicElement| #[trigger]
        st.queue.count(e) > 0 ==> 1 <= e.k <= st.centers.len() && e.x < width && e.y < height
    &&& forall|j: int|
        0 <= j < st.sums.len() ==> (#[trigger] st.sums[j]).bounded(
            total - count_of(st.labels, 0, total),
        )
    &&& forall|i: int| 0 <= i < total ==> #[trigger] st.labels[i] <= st.centers.len()
}

/// What holds of the growth at every step: besides `snic_base`, every
/// neighbour of a pixel with a label has a label or stands in the
/// queue; and unless there is no superpixel at all, the queue is not
/// empty or some pixel has a label.
pub open spec fn snic_inv(st: SnicState, width: int, height: int) -> bool {
    &&& snic_base(st, width, height)
    &&& forall|x: int, y: int|
        0 <= x < width && 0 <= y < height && #[trigger] has_label(st.labels, width, x, y) ==> {
            &&& reached(st, width, x - 1, y)
            &&& reached(st, width, x, y - 1)
            &&& reached(st, width, x + 1, y)
            &&& reached(st, width, x, y + 1)
        }
    &&& st.centers.len() >= 1 ==> st.queue.len() > 0 || exists|x: int, y: int|
        0 <= x < width && 0 <= y < height && #[trigger] has_label(st.labels, width, x, y)
}

/// What is left to do: five for every pixel without a label and one
/// for every element of the queue.
pub open spec fn snic_measure(st: SnicState) -> int {
    5 * count_of(st.labels, 0, st.labels.len() as int) + st.queue.len()
}

/// An offer keeps the labels, the sums and the centres, and takes
/// nothing out of the queue.  If the pixel offered lies in the image it
/// has a label or stands in the queue afterwards.
pub proof fn lemma_offer(
    st: SnicState,
    m: int,
    s: int,
    width: int,
    height: int,
    image: Seq<Lab>,
    k: usize,
    x: int,
    y: int,
)
    requires
        snic_base(st, width, height),
        1 <= k <= st.centers.len(),
    ensures
        snic_base(offer(st, m, s, width, image, k, x, y), width, height),
        offer(st, m, s, width, image, k, x, y).labels == st.labels,
        offer(st, m, s, width, image, k, x, y).sums == st.sums,
        offer(st, m, s, width, image, k, x, y).centers == st.centers,
        forall|e: SnicElement|
            st.queue.count(e) > 0 ==> #[trigger] offer(st, m, s, width, image, k, x, y).queue.count(
                e,
            ) > 0,
        reached(offer(st, m, s, width, image, k, x, y), width, x, y),
        st.queue.len() <= offer(st, m, s, width, image, k, x, y).queue.len() <= st.queue.len() + 1,
{
    let after = offer(st, m, s, width, image, k, x, y);
    if in_bounds(width, x, y, st.labels.len() as int) && st.labels[flat_index(width, x, y)] == 0 {
        lemma_in_image(width, height, x, y);
        let e = offered(st, m, s, width, image, k, x, y);
        assert(after.queue.count(e) > 0);
        assert(e.x == x && e.y == y);
        assert forall|f: SnicElement| #[trigger] after.queue.count(f) > 0 implies 1 <= f.k
            <= after.centers.len() && f.x < width && f.y < height by {
            if f != e {
                assert(st.queue.count(f) > 0);
            }
        }
    }
}

/// Offers keep a pixel that has a label or stands in the queue so.
pub proof fn lemma_reached_kept(before: SnicState, after: SnicState, width: int, x: int, y: int)
    requires
        reached(before, width, x, y),
        after.labels == before.labels,
        forall|e: SnicElement| before.queue.count(e) > 0 ==> #[trigger] after.queue.count(e) > 0,
    ensures
        reached(after, width, x, y),
{
    if in_bounds(width, x, y, before.labels.len() as int) && before.labels[flat_index(width, x, y)]
        == 0 {
        let e = choose|e: SnicElement| #[trigger] before.queue.count(e) > 0 && e.x == x && e.y == y;
        assert(after.queue.count(e) > 0);
    }
}

/// A pixel that had a label or stood in the queue before `e` left the
/// queue still does afterwards, if since then labels were only added,
/// the pixel of `e` has got one, and every other element has stayed in
/// the queue.
proof fn lemma_reached_after_pop(
    st: SnicState,
    after: SnicState,
    width: int,
    height: int,
    e: SnicElement,
    x: int,
    y: int,
)
    requires
        snic_base(st, width, height),
        st.queue.count(e) > 0,
        reached(st, width, x, y),
        after.labels.len() == st.labels.len(),
        forall|i: int| 0 <= i < st.labels.len() && st.labels[i] != 0 ==> #[trigger] after.labels[i] != 0,
        after.labels[flat_index(width, e.x as int, e.y as int)] != 0,
        forall|f: SnicElement|
            st.queue.count(f) > 0 && f != e ==> #[trigger] after.queue.count(f) > 0,
    ensures
        reached(after, width, x, y),
{
    if in_bounds(width, x, y, st.labels.len() as int) {
        lemma_in_image(width, height, x, y);
        if st.labels[flat_index(width, x, y)] == 0 {
            let f = choose|f: SnicElement| #[trigger] st.queue.count(f) > 0 && f.x == x && f.y == y;
            if f != e {
                assert(after.queue.count(f) > 0);
            }
        }
    }
}

/// Dropping an element whose pixel has a label keeps everything that
/// holds of the growth, and leaves less to do.
pub proof fn lemma_discard(st: SnicState, width: int, height: int, e: SnicElement)
    requires
        snic_inv(st, width, height),
        st.queue.count(e) > 0,
        !is_free(st, width, e),
    ensures
        snic_inv(popped(st, e), width, height),
        snic_measure(popped(st, e)) < snic_measure(st),
{
    let after = popped(st, e);
    lemma_in_image(width, height, e.x as int, e.y as int);
    assert(st.labels[flat_index(width, e.x as int, e.y as int)] != 0);
    assert forall|x: int, y: int|
        0 <= x < width && 0 <= y < height && #[trigger] has_label(after.labels, width, x, y) implies {
        &&& reached(after, width, x - 1, y)
        &&& reached(after, width, x, y - 1)
        &&& reached(after, width, x + 1, y)
        &&& reached(after, width, x, y + 1)
    } by {
        assert(has_label(st.labels, width, x, y));
        lemma_reached_after_pop(st, after, width, height, e, x - 1, y);
        lemma_reached_after_pop(st, after, width, height, e, x, y - 1);
        lemma_reached_after_pop(st, after, width, height, e, x + 1, y);
        lemma_reached_after_pop(st, after, width, height, e, x, y + 1);
    }
    assert(has_label(after.labels, width, e.x as int, e.y as int));
}

/// Labelling the pixel of an element that left the queue, and offering
/// its neighbours, keeps everything that holds of the growth, and
/// leaves less to do.
pub proof fn lemma_claim(
    st: SnicState,
    m: int,
    s: int,
    width: int,
    height: int,
    image: Seq<Lab>,
    e: SnicElement,
)
    requires
        snic_inv(st, width, height),
        st.queue.count(e) > 0,
        is_free(st, width, e),
    ensures
        snic_inv(claim(popped(st, e), m, s, width, image, e), width, height),
        snic_measure(claim(popped(st, e), m, s, width, image, e)) < snic_measure(st),
        claim(popped(st, e), m, s, width, image, e).labels == st.labels.update(
            flat_index(width, e.x as int, e.y as int),
            e.k,
        ),
        claim(popped(st, e), m, s, width, image, e).centers.len() == st.centers.len(),
{
    let total = st.labels.len() as int;
    let x = e.x as int;
    let y = e.y as int;
    let i = flat_index(width, x, y);
    lemma_in_image(width, height, x, y);
    let p = popped(st, e);
    let l = labeled(p, width, image, e);
    assert(snic_base(l, width, height)) by {
        lemma_count_of_update(st.labels, 0, total, i, e.k);
        lemma_count_of_bounds(st.labels, 0, total);
        let limit = total - count_of(st.labels, 0, total);
        assert forall|j: int| 0 <= j < l.sums.len() implies (#[trigger] l.sums[j]).bounded(
            limit + 1,
        ) by {
            assert(st.sums[j].bounded(limit));
        }
        assert forall|f: SnicElement| #[trigger] l.queue.count(f) > 0 implies 1 <= f.k
            <= l.centers.len() && f.x < width && f.y < height by {
            assert(st.queue.count(f) > 0);
        }
    }
    let west = offer(l, m, s, width, image, e.k, x - 1, y);
    lemma_offer(l, m, s, width, height, image, e.k, x - 1, y);
    let north = offer(west, m, s, width, image, e.k, x, y - 1);
    lemma_offer(west, m, s, width, height, image, e.k, x, y - 1);
    let east = offer(north, m, s, width, image, e.k, x + 1, y);
    lemma_offer(north, m, s, width, height, image, e.k, x + 1, y);
    let south = offer(east, m, s, width, image, e.k, x, y + 1);
    lemma_offer(east, m, s, width, height, image, e.k, x, y + 1);
    assert(south == claim(p, m, s, width, image, e));
    lemma_reached_kept(west, north, width, x - 1, y);
    lemma_reached_kept(north, east, width, x - 1, y);
    lemma_reached_kept(east, south, width, x - 1, y);
    lemma_reached_kept(north, east, width, x, y - 1);
    lemma_reached_kept(east, south, width, x, y - 1);
    lemma_reached_kept(east, south, width, x + 1, y);
    assert forall|f: SnicElement| st.queue.count(f) > 0 && f != e implies #[trigger] south.queue.count(
        f,
    ) > 0 by {
        assert(l.queue.count(f) > 0);
        assert(west.queue.count(f) > 0);
        assert(north.queue.count(f) > 0);
        assert(east.queue.count(f) > 0);
    }
    assert forall|px: int, py: int|
        0 <= px < width && 0 <= py < height && #[trigger] has_label(south.labels, width, px, py) implies {
        &&& reached(south, width, px - 1, py)
        &&& reached(south, width, px, py - 1)
        &&& reached(south, width, px + 1, py)
        &&& reached(south, width, px, py + 1)
    } by {
        if !(px == x && py == y) {
            lemma_flat_index(width, height, px, py);
            if flat_index(width, px, py) == i {
                lemma_flat_index_injective(width, height, px, py, x, y);
            }
            assert(has_label(st.labels, width, px, py));
            lemma_reached_after_pop(st, south, width, height, e, px - 1, py);
            lemma_reached_after_pop(st, south, width, height, e, px, py - 1);
            lemma_reached_after_pop(st, south, width, height, e, px + 1, py);
            lemma_reached_after_pop(st, south, width, height, e, px, py + 1);
        }
    }
    assert(has_label(south.labels, width, x, y));
    lemma_count_of_update(st.labels, 0, total, i, e.k);
}

/// Once the queue is empty every pixel has a label, from `1` up to the
/// number of superpixels, unless there is no superpixel at all.
pub proof fn lemma_all_labeled(st: SnicState, width: int, height: int)
    requires
        snic_inv(st, width, height),
        st.queue.len() == 0,
        st.centers.len() >= 1,
    ensures
        forall|i: int| 0 <= i < st.labels.len() ==> 1 <= #[trigger] st.labels[i] <= st.centers.len(),
{
    let p = |x: int, y: int| has_label(st.labels, width, x, y);
    let (x0, y0) = choose|x: int, y: int|
        0 <= x < width && 0 <= y < height && #[trigger] has_label(st.labels, width, x, y);
    assert(p(x0, y0));
    assert forall|e: SnicElement| st.queue.count(e) == 0 by {
        assert(st.queue.count(e) <= st.queue.len());
    }
    assert forall|x: int, y: int| 0 <= x < width && 0 <= y < height && #[trigger] p(x, y) implies {
        &&& x >= 1 ==> p(x - 1, y)
        &&& y >= 1 ==> p(x, y - 1)
        &&& x + 1 < width ==> p(x + 1, y)
        &&& y + 1 < height ==> p(x, y + 1)
    } by {
        assert(has_label(st.labels, width, x, y));
        lemma_in_image(width, height, x - 1, y);
        lemma_in_image(width, height, x, y - 1);
        lemma_in_image(width, height, x + 1, y);
        lemma_in_image(width, height, x, y + 1);
        assert(reached(st, width, x - 1, y));
        assert(reached(st, width, x, y - 1));
        assert(reached(st, width, x + 1, y));
        assert(reached(st, width, x, y + 1));
    }
    assert(spreads(p, width, height));
    assert forall|i: int| 0 <= i < st.labels.len() implies 1 <= #[trigger] st.labels[i]
        <= st.centers.len() by {
        lemma_pixel_of_index(width, height, i);
        lemma_grid_connected(p, width, height, x0, y0, i % width, i / width);
        assert(p(i % width, i / width));
        assert(flat_index(width, i % width, i / width) == i);
    }
}

/// Offer the pixel `(x, y)` to the superpixel with the label `k` and the
/// centre `center`.
fn offer_pixel(
    m: u8,
    s: u32,
    width: u32,
    height: u32,
    image: &[Lab],
    labels: &Vec<usize>,
    center: Superpixel<Lab>,
    k: usize,
    x: i64,
    y: i64,
    queue: &mut SnicQueue,
)
    requires
        old(queue).well_formed(),
        image@.len() == width as int * height as int,
        labels@.len() == image@.len(),
        -1 <= x <= u32::MAX + 1,
        -1 <= y <= u32::MAX + 1,
    ensures
        final(queue).well_formed(),
        final(queue)@ == if in_bounds(width as int, x as int, y as int, labels@.len() as int)
            && labels@[flat_index(width as int, x as int, y as int)] == 0 {
            old(queue)@.insert(
                SnicElement {
                    distance: center_distance(
                        center,
                        m as int,
                        s as int,
                        x as int,
                        y as int,
                        image@[flat_index(width as int, x as int, y as int)],
                    ) as u128,
                    k,
                    x: x as u32,
                    y: y as u32,
                },
            )
        } else {
            old(queue)@
        },
{
    match index_in_bounds(width as i64, x, y, labels.len()) {
        Some(i) => {
            if labels[i] == 0 {
                proof {
                    lemma_in_bounds_row(width as int, height as int, x as int, y as int);
                }
                let color: Lab = image[i];
                let distance: u128 = distance_s(
                    m,
                    s,
                    distance_lab(color, center.data),
                    distance_xy((x as u32, y as u32), (center.x, center.y)),
                );
                queue.push(SnicElement { distance, k, x: x as u32, y: y as u32 });
            }
        },
        None => {},
    }
}

/// Give the pixel of `e`, which has the flat index `i`, the label of
/// `e`, and offer its neighbours.
fn settle(
    e: SnicElement,
    i: usize,
    m: u8,
    s: u32,
    width: u32,
    height: u32,
    image: &[Lab],
    clusters: &mut Vec<Superpixel<Lab>>,
    updates: &mut Vec<SnicUpdate<LabSum>>,
    queue: &mut SnicQueue,
    labels: &mut Vec<usize>,
    Ghost(before): Ghost<SnicState>,
)
    requires
        old(queue).well_formed(),
        image@.len() == width as int * height as int,
        snic_inv(before, width as int, height as int),
        before.queue.count(e) > 0,
        is_free(before, width as int, e),
        i == flat_index(width as int, e.x as int, e.y as int),
        snic_state(old(labels)@, sums_view(old(updates)@), old(clusters)@, old(queue)@) == popped(
            before,
            e,
        ),
    ensures
        final(queue).well_formed(),
        snic_state(final(labels)@, sums_view(final(updates)@), final(clusters)@, final(queue)@)
            == claim(popped(before, e), m as int, s as int, width as int, image@, e),
{
    let ghost p = popped(before, e);
    let ghost total = labels@.len() as int;
    proof {
        lemma_in_image(width as int, height as int, e.x as int, e.y as int);
        lemma_count_of_update(labels@, 0, total, i as int, e.k);
        lemma_count_of_bounds(labels@.update(i as int, e.k), 0, total);
        assert(before.sums[e.k - 1].bounded(total - count_of(labels@, 0, total)));
        assert(sums_view(updates@)[e.k - 1] == updates@[e.k - 1]@);
    }
    let _ = labels.len();
    labels[i] = e.k;
    let j: usize = e.k - 1;
    let color: Lab = image[i];
    let mut update: SnicUpdate<LabSum> = updates[j];
    proof {
        let sums = update@;
        assert(sums.count * 32768 <= 0xffff_ffff_ffff_ffff * 32768 && sums.count * 0xffff_ffff
            <= 0xffff_ffff_ffff_ffff * 0xffff_ffff) by (nonlinear_arith)
            requires
                0 <= sums.count <= 0xffff_ffff_ffff_ffff,
        ;
    }
    update.accum.l = update.accum.l + color.l as i128;
    update.accum.a = update.accum.a + color.a as i128;
    update.accum.b = update.accum.b + color.b as i128;
    update.x = update.x + e.x as u128;
    update.y = update.y + e.y as u128;
    update.count = update.count + 1;
    updates[j] = update;
    proof {
        assert(update@ == before.sums[e.k - 1].with(color, e.x as int, e.y as int));
        assert(update@.bounded(total));
        lemma_mean_in_range(update@, total);
    }
    let center: Superpixel<Lab> = Superpixel {
        data: Lab {
            l: floor_div(update.accum.l, update.count) as i16,
            a: floor_div(update.accum.a, update.count) as i16,
            b: floor_div(update.accum.b, update.count) as i16,
        },
        x: (update.x / (update.count as u128)) as u32,
        y: (update.y / (update.count as u128)) as u32,
    };
    clusters[j] = center;
    let ghost l = labeled(p, width as int, image@, e);
    proof {
        assert(sums_view(updates@) =~= l.sums);
        assert(clusters@ =~= l.centers);
        assert(snic_state(labels@, sums_view(updates@), clusters@, queue@) == l);
    }
    let x: i64 = e.x as i64;
    let y: i64 = e.y as i64;
    offer_pixel(m, s, width, height, image, labels, center, e.k, x - 1, y, queue);
    offer_pixel(m, s, width, height, image, labels, center, e.k, x, y - 1, queue);
    offer_pixel(m, s, width, height, image, labels, center, e.k, x + 1, y, queue);
    offer_pixel(m, s, width, height, image, labels, center, e.k, x, y + 1, queue);
    proof {
        let west = offer(l, m as int, s as int, width as int, image@, e.k, x - 1, y as int);
        let north = offer(west, m as int, s as int, width as int, image@, e.k, x as int, y - 1);
        let east = offer(north, m as int, s as int, width as int, image@, e.k, x + 1, y as int);
        let south = offer(east, m as int, s as int, width as int, image@, e.k, x as int, y + 1);
        assert(snic_state(labels@, sums_view(updates@), clusters@, queue@) == south);
    }
}

/// Let the superpixels grow until the queue is empty.
///
/// Afterwards every pixel has a label, from `1` up to the number of
/// superpixels, unless there is no superpixel at all.
pub fn grow(
    m: u8,
    s: u32,
    width: u32,
    height: u32,
    image: &[Lab],
    clusters: &mut Vec<Superpixel<Lab>>,
    updates: &mut Vec<SnicUpdate<LabSum>>,
    queue: &mut SnicQueue,
    labels: &mut Vec<usize>,
)
    requires
        old(queue).well_formed(),
        image@.len() == width as int * height as int,
        snic_inv(
            snic_state(old(labels)@, sums_view(old(updates)@), old(clusters)@, old(queue)@),
            width as int,
            height as int,
        ),
    ensures
        snic_state(final(labels)@, sums_view(final(updates)@), final(clusters)@, final(queue)@)
            == grown(
            snic_state(old(labels)@, sums_view(old(updates)@), old(clusters)@, old(queue)@),
            m as int,
            s as int,
            width as int,
            image@,
        ),
        final(labels)@.len() == old(labels)@.len(),
        final(clusters)@.len() == old(clusters)@.len(),
        old(clusters)@.len() >= 1 ==> forall|i: int|
            0 <= i < final(labels)@.len() ==> 1 <= #[trigger] final(labels)@[i] <= old(clusters)@.len(),
        forall|i: int|
            0 <= i < final(labels)@.len() ==> #[trigger] final(labels)@[i] <= old(clusters)@.len(),
{
    let ghost start = snic_state(labels@, sums_view(updates@), clusters@, queue@);
    let ghost mut steps: nat = 0;
    loop
        invariant
            queue.well_formed(),
            image@.len() == width as int * height as int,
            snic_inv(
                snic_state(labels@, sums_view(updates@), clusters@, queue@),
                width as int,
                height as int,
            ),
            snic_state(labels@, sums_view(updates@), clusters@, queue@) == snic_steps(
                start,
                steps,
                m as int,
                s as int,
                width as int,
                image@,
            ),
            labels@.len() == start.labels.len(),
            clusters@.len() == start.centers.len(),
        ensures
            queue@.len() == 0,
        decreases snic_measure(snic_state(labels@, sums_view(updates@), clusters@, queue@)),
    {
        let ghost before = snic_state(labels@, sums_view(updates@), clusters@, queue@);
        match queue.pop() {
            None => {
                break ;
            },
            Some(e) => {
                proof {
                    lemma_minimum_unique(before.queue, e);
                    assert(before.queue.count(e) <= before.queue.len());
                    lemma_count_of_bounds(before.labels, 0, before.labels.len() as int);
                }
                let free: Option<usize> = match index_in_bounds(
                    width as i64,
                    e.x as i64,
                    e.y as i64,
                    labels.len(),
                ) {
                    Some(i) => if labels[i] == 0 {
                        Some(i)
                    } else {
                        None
                    },
                    None => None,
                };
                match free {
                    Some(i) => {
                        settle(
                            e,
                            i,
                            m,
                            s,
                            width,
                            height,
                            image,
                            clusters,
                            updates,
                            queue,
                            labels,
                            Ghost(before),
                        );
                        proof {
                            lemma_claim(
                                before,
                                m as int,
                                s as int,
                                width as int,
                                height as int,
                                image@,
                                e,
                            );
                        }
                    },
                    None => {
                        proof {
                            lemma_discard(before, width as int, height as int, e);
                        }
                    },
                }
                proof {
                    steps = steps + 1;
                    let after = snic_state(labels@, sums_view(updates@), clusters@, queue@);
                    assert(after == snic_step(before, m as int, s as int, width as int, image@));
                    assert(snic_measure(after) < snic_measure(before));
                    lemma_count_of_bounds(after.labels, 0, after.labels.len() as int);
                }
            },
        }
    }
    proof {
        let end = snic_state(labels@, sums_view(updates@), clusters@, queue@);
        lemma_grown(start, steps, m as int, s as int, width as int, image@);
        if clusters@.len() >= 1 {
            lemma_all_labeled(end, width as int, height as int);
        }
    }
}

/// The label at `(x, y)`, if that position lies in the image.
pub open spec fn label_at(labels: Seq<usize>, width: int, x: int, y: int) -> Option<usize> {
    if in_bounds(width, x, y, labels.len() as int) {
        Some(labels[flat_index(width, x, y)])
    } else {
        None
    }
}

/// Whether one of the four neighbours of `(x, y)` has the label that
/// `(x, y)` has.
pub open spec fn has_twin(labels: Seq<usize>, width: int, x: int, y: int) -> bool {
    let own = Some(labels[flat_index(width, x, y)]);
    ||| label_at(labels, width, x - 1, y) == own
    ||| label_at(labels, width, x, y - 1) == own
    ||| label_at(labels, width, x + 1, y) == own
    ||| label_at(labels, width, x, y + 1) == own
}

/// The first of four labels that exists.
pub open spec fn first_label(
    west: Option<usize>,
    north: Option<usize>,
    east: Option<usize>,
    south: Option<usize>,
) -> Option<usize> {
    if west is Some {
        west
    } else if north is Some {
        north
    } else if east is Some {
        east
    } else {
        south
    }
}

/// Take up the pixel `(x, y)`: if none of its neighbours shares its
/// label, it takes the label of the first neighbour that exists, going
/// west, north, east, south.
pub open spec fn spot_fix(labels: Seq<usize>, width: int, x: int, y: int) -> Seq<usize> {
    if has_twin(labels, width, x, y) {
        labels
    } else {
        match first_label(
            label_at(labels, width, x - 1, y),
            label_at(labels, width, x, y - 1),
            label_at(labels, width, x + 1, y),
            label_at(labels, width, x, y + 1),
        ) {
            Some(label) => labels.update(flat_index(width, x, y), label),
            None => labels,
        }
    }
}

/// The labels after the first `n` pixels, in row order, were taken up.
pub open spec fn spot_fixed_upto(labels: Seq<usize>, width: int, n: int) -> Seq<usize>
    decreases n,
{
    if n <= 0 {
        labels
    } else {
        spot_fix(spot_fixed_upto(labels, width, n - 1), width, (n - 1) % width, (n - 1) / width)
    }
}

/// The labels that connectivity enforcement gives after SNIC: every
/// pixel of the image is taken up, as far as `labels` holds it.
pub open spec fn spot_fixed(labels: Seq<usize>, width: int, height: int) -> Seq<usize> {
    spot_fixed_upto(
        labels,
        width,
        if labels.len() <= width * height {
            labels.len() as int
        } else {
            width * height
        },
    )
}

/// The label at `(x, y)`, if that position lies in the image.
fn neighbor_label(width: u32, height: u32, x: i64, y: i64, labels: &[usize]) -> (r: Option<usize>)
    ensures
        r == label_at(labels@, width as int, x as int, y as int),
{
    match get_in_bounds(width as i64, height as i64, x, y, labels) {
        Some(label) => Some(*label),
        None => None,
    }
}

/// Taking up one pixel keeps every label among those that were there,
/// gives the pixel a neighbour with its label if it has a neighbour at
/// all, and takes from no other pixel the neighbour with its label.
proof fn lemma_spot_fix(labels: Seq<usize>, width: int, height: int, x: int, y: int)
    requires
        labels.len() == width * height,
        0 <= x < width,
        0 <= y < height,
    ensures
        spot_fix(labels, width, x, y).len() == labels.len(),
        forall|i: int|
            0 <= i < labels.len() ==> labels.contains(#[trigger] spot_fix(labels, width, x, y)[i]),
        width * height >= 2 ==> has_twin(spot_fix(labels, width, x, y), width, x, y),
        forall|px: int, py: int|
            0 <= px < width && 0 <= py < height && #[trigger] has_twin(labels, width, px, py)
                ==> has_twin(spot_fix(labels, width, x, y), width, px, py),
{
    let after = spot_fix(labels, width, x, y);
    let i = flat_index(width, x, y);
    lemma_flat_index(width, height, x, y);
    lemma_in_image(width, height, x - 1, y);
    lemma_in_image(width, height, x, y - 1);
    lemma_in_image(width, height, x + 1, y);
    lemma_in_image(width, height, x, y + 1);
    if x >= 1 {
        lemma_flat_index(width, height, x - 1, y);
    }
    if y >= 1 {
        lemma_flat_index(width, height, x, y - 1);
    }
    if x + 1 < width {
        lemma_flat_index(width, height, x + 1, y);
    }
    if y + 1 < height {
        lemma_flat_index(width, height, x, y + 1);
    }
    assert forall|j: int| 0 <= j < labels.len() implies labels.contains(#[trigger] after[j]) by {
        if j == i && after[j] != labels[j] {
            let west = label_at(labels, width, x - 1, y);
            let north = label_at(labels, width, x, y - 1);
            let east = label_at(labels, width, x + 1, y);
            let south = label_at(labels, width, x, y + 1);
            if west is Some {
                assert(labels[flat_index(width, x - 1, y)] == after[j]);
            } else if north is Some {
                assert(labels[flat_index(width, x, y - 1)] == after[j]);
            } else if east is Some {
                assert(labels[flat_index(width, x + 1, y)] == after[j]);
            } else {
                assert(labels[flat_index(width, x, y + 1)] == after[j]);
            }
        } else {
            assert(labels[j] == after[j]);
        }
    }
    if width * height >= 2 {
        assert(x >= 1 || y >= 1 || x + 1 < width || y + 1 < height) by (nonlinear_arith)
            requires
                width * height >= 2,
                0 <= x < width,
                0 <= y < height,
        ;
    }
    assert forall|px: int, py: int|
        0 <= px < width && 0 <= py < height && #[trigger] has_twin(labels, width, px, py) implies has_twin(
        after,
        width,
        px,
        py,
    ) by {
        if !has_twin(labels, width, x, y) && !(px == x && py == y) {
            lemma_flat_index(width, height, px, py);
            lemma_in_image(width, height, px - 1, py);
            lemma_in_image(width, height, px, py - 1);
            lemma_in_image(width, height, px + 1, py);
            lemma_in_image(width, height, px, py + 1);
            if px >= 1 {
                lemma_flat_index(width, height, px - 1, py);
            }
            if py >= 1 {
                lemma_flat_index(width, height, px, py - 1);
            }
            if px + 1 < width {
                lemma_flat_index(width, height, px + 1, py);
            }
            if py + 1 < height {
                lemma_flat_index(width, height, px, py + 1);
            }
        }
    }
}

/// Enforce connectivity where the growth did not: iterate in row
/// order, and give every pixel that shares its label with none of its
/// neighbours the label of the first neighbour that exists, going
/// west, north, east, south.  Where `labels` is shorter than the image,
/// the pixels that it holds are taken up.
///
/// Where `labels` holds exactly the image, every pixel shares its label
/// with a neighbour afterwards, unless the image is a single pixel, and
/// no label comes up that was not there.
pub fn enforce_connectivity(width: u32, height: u32, labels: &mut [usize])
    ensures
        final(labels)@ == spot_fixed(old(labels)@, width as int, height as int),
        final(labels)@.len() == old(labels)@.len(),
        old(labels)@.len() == width * height && width * height >= 2 ==> forall|x: int, y: int|
            0 <= x < width && 0 <= y < height ==> #[trigger] has_twin(
                final(labels)@,
                width as int,
                x,
                y,
            ),
        old(labels)@.len() == width * height ==> forall|i: int|
            0 <= i < final(labels)@.len() ==> old(labels)@.contains(#[trigger] final(labels)@[i]),
{
    let ghost w = width as int;
    let ghost h = height as int;
    let ghost start = labels@;
    let ghost exact = labels@.len() == w * h;
    let total: usize = labels.len();
    let mut y: u32 = 0;
    assert(0 * w == 0) by (nonlinear_arith);
    while y < height
        invariant
            w == width,
            h == height,
            start == old(labels)@,
            exact == (start.len() == w * h),
            total == labels@.len(),
            labels@.len() == start.len(),
            y <= height,
            0 <= y * w <= total,
            labels@ == spot_fixed_upto(start, w, y * w),
            exact ==> forall|i: int| 0 <= i < labels@.len() ==> start.contains(#[trigger] labels@[i]),
            exact && w * h >= 2 ==> forall|px: int, py: int|
                0 <= px < w && 0 <= py < y ==> #[trigger] has_twin(labels@, w, px, py),
        decreases height - y,
    {
        let mut x: u32 = 0;
        while x < width
            invariant
                w == width,
                h == height,
                start == old(labels)@,
                exact == (start.len() == w * h),
                total == labels@.len(),
                labels@.len() == start.len(),
                y < height,
                x <= width,
                0 <= y * w,
                y * w + x <= total,
                labels@ == spot_fixed_upto(start, w, y * w + x),
                exact ==> forall|i: int|
                    0 <= i < labels@.len() ==> start.contains(#[trigger] labels@[i]),
                exact && w * h >= 2 ==> forall|px: int, py: int|
                    0 <= px < w && 0 <= py < h && (py < y || (py == y && px < x))
                        ==> #[trigger] has_twin(labels@, w, px, py),
            decreases width - x,
        {
            let ghost before = labels@;
            assert(y as u64 * width as u64 <= 0xffff_ffff * 0xffff_ffff) by (nonlinear_arith)
                requires
                    y <= 0xffff_ffff,
                    width <= 0xffff_ffff,
            ;
            let p: u64 = (y as u64) * (width as u64) + (x as u64);
            if p >= total as u64 {
                // the pixels from here on are not held
                assert(y * w + x < w * h) by (nonlinear_arith)
                    requires
                        0 <= x < w,
                        0 <= y < h,
                ;
                return ;
            }
            proof {
                lemma_fundamental_div_mod_converse(p as int, w, y as int, x as int);
                if exact {
                    lemma_flat_index(w, h, x as int, y as int);
                    lemma_spot_fix(labels@, w, h, x as int, y as int);
                }
            }
            let idx: usize = p as usize;
            let own: usize = labels[idx];
            let west = neighbor_label(width, height, x as i64 - 1, y as i64, labels);
            let north = neighbor_label(width, height, x as i64, y as i64 - 1, labels);
            let east = neighbor_label(width, height, x as i64 + 1, y as i64, labels);
            let south = neighbor_label(width, height, x as i64, y as i64 + 1, labels);
            let twin: bool = west == Some(own) || north == Some(own) || east == Some(own) || south
                == Some(own);
            if !twin {
                let first: Option<usize> = if west.is_some() {
                    west
                } else if north.is_some() {
                    north
                } else if east.is_some() {
                    east
                } else {
                    south
                };
                match first {
                    Some(label) => {
                        labels[idx] = label;
                    },
                    None => {},
                }
            }
            proof {
                assert(labels@ == spot_fix(before, w, x as int, y as int));
                if exact {
                    assert forall|i: int| 0 <= i < labels@.len() implies start.contains(
                        #[trigger] labels@[i],
                    ) by {
                        assert(before.contains(labels@[i]));
                        let j = choose|j: int| 0 <= j < before.len() && before[j] == labels@[i];
                        assert(start.contains(before[j]));
                    }
                    if w * h >= 2 {
                        assert forall|px: int, py: int|
                            0 <= px < w && 0 <= py < h && (py < y || (py == y && px < x + 1)) implies #[trigger] has_twin(
                            labels@,
                            w,
                            px,
                            py,
                        ) by {
                            if !(px == x && py == y) {
                                assert(has_twin(before, w, px, py));
                            }
                        }
                    }
                }
            }
            x += 1;
        }
        assert((y + 1) * w == y * w + w) by (nonlinear_arith);
        y += 1;
    }
    assert(height as int * w == w * h) by (nonlinear_arith)
        requires
            h == height,
    ;
}

/// The queue of the first `n` centres holds `n` elements, one for each
/// centre, at the centre's position.
pub proof fn lemma_seed_queue(centers: Seq<Superpixel<Lab>>, n: int)
    requires
        0 <= n <= centers.len(),
        n <= usize::MAX,
    ensures
        seed_queue(centers, n).len() == n,
        forall|e: SnicElement| #[trigger]
            seed_queue(centers, n).count(e) > 0 ==> 1 <= e.k <= n && e.x == centers[e.k - 1].x
                && e.y == centers[e.k - 1].y,
    decreases n,
{
    if n > 0 {
        lemma_seed_queue(centers, n - 1);
        let seed = SnicElement {
            distance: 0,
            k: n as usize,
            x: centers[n - 1].x,
            y: centers[n - 1].y,
        };
        assert forall|e: SnicElement| #[trigger] seed_queue(centers, n).count(e) > 0 implies 1
            <= e.k <= n && e.x == centers[e.k - 1].x && e.y == centers[e.k - 1].y by {
            if e != seed {
                assert(seed_queue(centers, n - 1).count(e) > 0);
            }
        }
    }
}

/// The state in which the growth starts has everything that holds of
/// the growth at every step.
pub proof fn lemma_start_inv(centers: Seq<Superpixel<Lab>>, width: u32, height: u32)
    requires
        centers.len() <= usize::MAX,
        width as int * height as int <= usize::MAX,
        forall|i: int| 0 <= i < centers.len() ==> (#[trigger] centers[i]).x < width && centers[i].y < height,
    ensures
        snic_inv(
            snic_start(centers, (width as int * height as int) as nat),
            width as int,
            height as int,
        ),
{
    let total = width as int * height as int;
    assert(total >= 0) by (nonlinear_arith)
        requires
            total == width as int * height as int,
    ;
    let st = snic_start(centers, total as nat);
    lemma_seed_queue(centers, centers.len() as int);
    lemma_count_of_bounds(st.labels, 0, total);
    assert forall|x: int, y: int|
        0 <= x < width && 0 <= y < height && #[trigger] has_label(
            st.labels,
            width as int,
            x,
            y,
        ) implies false by {
        lemma_flat_index(width as int, height as int, x, y);
    }
}

/// The labels that SNIC leaves before connectivity is enforced.
pub open spec fn snic_regions(k: u32, m: u8, width: u32, height: u32, image: Seq<Lab>) -> Seq<usize> {
    let s = grid_interval_spec(width as nat, height as nat, k as nat) as int;
    grown(
        snic_start(initial_centers(width as int, height as int, s, k as int, image), image.len()),
        clamp_compactness(m) as int,
        s,
        width as int,
        image,
    ).labels
}

/// The labels that SNIC gives.
pub open spec fn snic_labels(k: u32, m: u8, width: u32, height: u32, image: Seq<Lab>) -> Seq<usize> {
    spot_fixed(snic_regions(k, m, width, height, image), width as int, height as int)
}

/// The number of superpixels that SNIC grows.
pub open spec fn superpixel_count(k: u32, width: u32, height: u32, image: Seq<Lab>) -> nat {
    initial_centers(
        width as int,
        height as int,
        grid_interval_spec(width as nat, height as nat, k as nat) as int,
        k as int,
        image,
    ).len()
}

/// With arguments that are accepted SNIC grows at least one superpixel
/// and no more than were asked for.
pub proof fn lemma_superpixel_count(k: u32, width: u32, height: u32, image: Seq<Lab>)
    requires
        input_error(k, width, height, image.len(), ScError::MismatchedSnicBuffer) is None,
    ensures
        1 <= superpixel_count(k, width, height, image) <= k,
{
    lemma_seed_count(
        width as int,
        height as int,
        grid_interval_spec(width as nat, height as nat, k as nat) as int,
        k as int,
        image,
    );
}

/// Whether `labels` is what SNIC returns for the arguments given.
pub open spec fn is_snic_result(
    k: u32,
    m: u8,
    width: u32,
    height: u32,
    image: Seq<Lab>,
    labels: Seq<usize>,
) -> bool {
    input_error(k, width, height, image.len(), ScError::MismatchedSnicBuffer) is None && labels
        == snic_labels(k, m, width, height, image)
}

/// SNIC is deterministic: whatever it returns for one input is one and
/// the same sequence of labels.
pub proof fn lemma_snic_deterministic(
    k: u32,
    m: u8,
    width: u32,
    height: u32,
    image: Seq<Lab>,
    first: Seq<usize>,
    second: Seq<usize>,
)
    requires
        is_snic_result(k, m, width, height, image, first),
        is_snic_result(k, m, width, height, image, second),
    ensures
        first == second,
{
}

/// Run SNIC in the room given: the centres are offered their own
/// positions, the superpixels grow until the queue is empty, and
/// connectivity is enforced.
///
/// Afterwards every pixel has a label, from `1` up to the number of
/// centres, unless there is no centre at all; and every pixel shares
/// its label with a neighbour, unless the image is a single pixel.
pub fn snic_with(
    m: u8,
    s: u32,
    width: u32,
    height: u32,
    image: &[Lab],
    clusters: &mut Vec<Superpixel<Lab>>,
    updates: &mut Vec<SnicUpdate<LabSum>>,
    queue: &mut SnicQueue,
    labels: &mut Vec<usize>,
)
    requires
        old(queue).well_formed(),
        old(queue)@ == Multiset::<SnicElement>::empty(),
        image@.len() == width as int * height as int,
        old(labels)@ == Seq::new(image@.len(), |i: int| 0usize),
        old(updates)@.len() == old(clusters)@.len(),
        forall|c: int| 0 <= c < old(updates)@.len() ==> (#[trigger] old(updates)@[c])@ == Sums::zero(),
        forall|c: int|
            0 <= c < old(clusters)@.len() ==> (#[trigger] old(clusters)@[c]).x < width && old(clusters)@[c].y < height,
    ensures
        final(labels)@ == spot_fixed(
            grown(
                snic_start(old(clusters)@, image@.len()),
                m as int,
                s as int,
                width as int,
                image@,
            ).labels,
            width as int,
            height as int,
        ),
        final(labels)@.len() == image@.len(),
        forall|i: int|
            0 <= i < final(labels)@.len() ==> #[trigger] final(labels)@[i] <= old(clusters)@.len(),
        old(clusters)@.len() >= 1 ==> forall|i: int|
            0 <= i < final(labels)@.len() ==> 1 <= #[trigger] final(labels)@[i],
        width * height >= 2 ==> forall|x: int, y: int|
            0 <= x < width && 0 <= y < height ==> #[trigger] has_twin(
                final(labels)@,
                width as int,
                x,
                y,
            ),
{
    // Min-heap priority queue that will pop the lowest distance to a k_th
    // cluster. Push all current centers onto the queue with 0 distance. Label
    // values start at 1.
    let mut i: usize = 0;
    while i < clusters.len()
        invariant
            i <= clusters@.len(),
            queue.well_formed(),
            queue@ == seed_queue(clusters@, i as int),
        decreases clusters@.len() - i,
    {
        let cluster: Superpixel<Lab> = clusters[i];
        queue.push(SnicElement { distance: 0, k: i + 1, x: cluster.x, y: cluster.y });
        i += 1;
    }
    let ghost centers = clusters@;
    let ghost start = snic_start(centers, image@.len());
    let total: usize = image.len();
    proof {
        lemma_start_inv(centers, width, height);
        assert(sums_view(updates@) =~= start.sums);
        assert(snic_state(labels@, sums_view(updates@), clusters@, queue@) == start);
    }
    grow(m, s, width, height, image, clusters, updates, queue, labels);
    let ghost regions = labels@;
    enforce_connectivity(width, height, labels.as_mut_slice());
    proof {
        assert forall|i: int| 0 <= i < labels@.len() implies #[trigger] labels@[i]
            <= centers.len() by {
            assert(regions.contains(labels@[i]));
            let j = choose|j: int| 0 <= j < regions.len() && regions[j] == labels@[i];
            assert(regions[j] <= centers.len());
        }
        if centers.len() >= 1 {
            assert forall|i: int| 0 <= i < labels@.len() implies 1 <= #[trigger] labels@[i] by {
                assert(regions.contains(labels@[i]));
                let j = choose|j: int| 0 <= j < regions.len() && regions[j] == labels@[i];
                assert(1 <= regions[j] <= centers.len());
            }
        }
    }
}

/// Calculate SNIC.
///
/// `k` must not be `0` and must be below the number of pixels.
/// `m` is clamped to be between `1` and `20`.
/// `width` and `height` must not be `0`, and `image` must hold `width *
/// height` colours, row by row.
///
/// The result holds one label for every pixel, from `1` up to the
/// number of superpixels, of which there is at least one and at most
/// `k`; and every pixel shares its label with one of its four
/// neighbours.
/// An error is the one that `input_error` names; with arguments that
/// it accepts, the only error left is that of an allocator that grants
/// no room.
///
/// ## Reference
///
/// *Achanta, R., & Susstrunk, S. Superpixels and polygons using simple
/// non-iterative clustering. Proceedings of the IEEE Conference on
/// Computer Vision and Pattern Recognition, 2017.*
pub fn snic(k: u32, m: u8, width: u32, height: u32, image: &[Lab]) -> (r: Result<Vec<usize>, ScError>)
    ensures
        match r {
            Ok(labels) => {
                &&& is_snic_result(k, m, width, height, image@, labels@)
                &&& labels@.len() == width * height
                &&& 1 <= superpixel_count(k, width, height, image@) <= k
                &&& forall|i: int|
                    0 <= i < labels@.len() ==> 1 <= #[trigger] labels@[i] <= superpixel_count(
                        k,
                        width,
                        height,
                        image@,
                    )
                &&& k == 1 ==> forall|i: int, j: int|
                    0 <= i < labels@.len() && 0 <= j < labels@.len() ==> labels@[i] == labels@[j]
                &&& forall|x: int, y: int|
                    0 <= x < width && 0 <= y < height ==> #[trigger] has_twin(
                        labels@,
                        width as int,
                        x,
                        y,
                    )
            },
            Err(e) => match input_error(
                k,
                width,
                height,
                image@.len(),
                ScError::MismatchedSnicBuffer,
            ) {
                Some(expected) => e == expected,
                None => e is Reserve,
            },
        },
{
    // Validate input parameters
    let m: u8 = if m < 1 {
        1
    } else if m > 20 {
        20
    } else {
        m
    };
    let s: u32 = match validate(k, width, height) {
        Ok(s) => s,
        Err(e) => {
            return Err(e);
        },
    };
    if !holds_pixels(width, height, image.len()) {
        return Err(ScError::MismatchedSnicBuffer);
    }
    // Init seeds and shuffle them to a hopefully non-noisy pixel

    let mut clusters: Vec<Superpixel<Lab>> = match initial_clusters(width, height, s, k, image) {
        Ok(clusters) => clusters,
        Err(e) => {
            proof {
                lemma_seed_total_fits(width as int, height as int, s as int, k as int);
            }
            return Err(e);
        },
    };

    // Output labels
    let mut labels: Vec<usize> = match try_filled(0usize, image.len()) {
        Ok(v) => v,
        Err(e) => {
            return Err(ScError::Reserve(e));
        },
    };
    let mut updates: Vec<SnicUpdate<LabSum>> = match try_filled(SnicUpdate::new(), clusters.len()) {
        Ok(v) => v,
        Err(e) => {
            return Err(ScError::Reserve(e));
        },
    };

    let mut queue: SnicQueue = SnicQueue::new();
    proof {
        lemma_initial_centers_in_image(width, height, s as int, k as int, image@);
        lemma_superpixel_count(k, width, height, image@);
    }
    snic_with(m, s, width, height, image, &mut clusters, &mut updates, &mut queue, &mut labels);
    assert(width as int * height as int >= 2);
    Ok(labels)
}

} // verus!
