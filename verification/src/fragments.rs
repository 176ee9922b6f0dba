//! What connectivity enforcement after SLIC does to the connected
//! components of the labels it is given.
use crate::slic::{
    claimed, closed, distinct, in_queue, lemma_visit, marks, pop_step,
    queue_index, queue_marked_at, settled, surrounded, visit_spec, whole, whole_at, Expansion,
    UNLABELED,
};
use crate::{flat_index, in_bounds, lemma_flat_index, lemma_flat_index_injective, lemma_in_image};
use vstd::prelude::*;

verus! {

/// Whether two pixels lie next to each other, in a row or in a column.
pub open spec fn next_to(a: (u32, u32), b: (u32, u32)) -> bool {
    ||| a.0 == b.0 && (a.1 + 1 == b.1 || b.1 + 1 == a.1)
    ||| a.1 == b.1 && (a.0 + 1 == b.0 || b.0 + 1 == a.0)
}

/// Whether the pixel number `j` of `queue` lies next to an earlier one.
pub open spec fn has_parent(queue: Seq<(u32, u32)>, j: int) -> bool {
    exists|i: int| 0 <= i < j && next_to(#[trigger] queue[i], queue[j])
}

/// Whether every pixel of `queue` but the first lies next to an earlier
/// one: the pixels hang together.
pub open spec fn chained(queue: Seq<(u32, u32)>) -> bool {
    forall|j: int| 1 <= j < queue.len() ==> #[trigger] has_parent(queue, j)
}

/// The flat index of the pixel `p`.
pub open spec fn pixel_index(width: int, p: (u32, u32)) -> int {
    flat_index(width, p.0 as int, p.1 as int)
}

/// Whether the pixel `t` lies in the image, had another label than
/// `old_label` and has a new label in `base`.
pub open spec fn foreign(
    prior: Seq<usize>,
    base: Seq<usize>,
    width: int,
    height: int,
    t: (u32, u32),
    old_label: usize,
) -> bool {
    &&& t.0 < width
    &&& t.1 < height
    &&& prior[pixel_index(width, t)] != old_label
    &&& base[pixel_index(width, t)] != UNLABELED
}

/// Whether `label` is the new label of the pixel `t`, which is
/// `foreign` and lies next to the pixel number `j` of `queue`.
pub open spec fn lent_by(
    prior: Seq<usize>,
    base: Seq<usize>,
    queue: Seq<(u32, u32)>,
    width: int,
    height: int,
    old_label: usize,
    j: int,
    t: (u32, u32),
    label: usize,
) -> bool {
    &&& 0 <= j < queue.len()
    &&& next_to(queue[j], t)
    &&& foreign(prior, base, width, height, t, old_label)
    &&& base[pixel_index(width, t)] == label
}

/// Whether `label` is the new label of a pixel of another component
/// that lies next to a pixel of `queue`.
pub open spec fn witnessed(
    prior: Seq<usize>,
    base: Seq<usize>,
    queue: Seq<(u32, u32)>,
    width: int,
    height: int,
    old_label: usize,
    label: usize,
) -> bool {
    exists|j: int, t: (u32, u32)| #[trigger]
        lent_by(prior, base, queue, width, height, old_label, j, t, label)
}

/// Whether a pixel of another component that has its new label lies
/// next to the pixel `p`.
pub open spec fn has_foreign(
    prior: Seq<usize>,
    base: Seq<usize>,
    width: int,
    height: int,
    p: (u32, u32),
    old_label: usize,
) -> bool {
    exists|t: (u32, u32)| #[trigger]
        next_to(p, t) && foreign(prior, base, width, height, t, old_label)
}

/// Whether `(x, y)` is one of the four positions next to the pixel `p`.
pub open spec fn beside(p: (u32, u32), x: int, y: int) -> bool {
    ||| x == p.0 && (y == p.1 + 1 || y == p.1 - 1)
    ||| y == p.1 && (x == p.0 + 1 || x == p.0 - 1)
}

/// Looking at a neighbour of the pixel number `parent` of the queue
/// keeps the queue hanging together; the label seen last stays that of
/// a pixel of another component next to the queue, and becomes one if
/// the neighbour is such a pixel.
pub proof fn lemma_visit_chained(
    prior: Seq<usize>,
    base: Seq<usize>,
    st: Expansion,
    width: int,
    height: int,
    old_label: usize,
    fresh: usize,
    x: int,
    y: int,
    parent: int,
)
    requires
        marks(prior, base, st.labels, st.queue, width, height, old_label, fresh),
        chained(st.queue),
        0 <= parent < st.queue.len(),
        beside(st.queue[parent], x, y),
        width <= u32::MAX,
        height <= u32::MAX,
    ensures
        chained(visit_spec(prior, width, st, old_label, fresh, x, y).queue),
        witnessed(prior, base, st.queue, width, height, old_label, st.adjacent) ==> witnessed(
            prior,
            base,
            visit_spec(prior, width, st, old_label, fresh, x, y).queue,
            width,
            height,
            old_label,
            visit_spec(prior, width, st, old_label, fresh, x, y).adjacent,
        ),
        0 <= x < width && 0 <= y < height && foreign(
            prior,
            base,
            width,
            height,
            (x as u32, y as u32),
            old_label,
        ) ==> witnessed(
            prior,
            base,
            visit_spec(prior, width, st, old_label, fresh, x, y).queue,
            width,
            height,
            old_label,
            visit_spec(prior, width, st, old_label, fresh, x, y).adjacent,
        ),
{
    let after = visit_spec(prior, width, st, old_label, fresh, x, y);
    lemma_visit(prior, base, st, width, height, old_label, fresh, x, y);
    lemma_in_image(width, height, x, y);
    let t = (x as u32, y as u32);
    let last = st.queue.len() as int;
    assert forall|j: int| 1 <= j < after.queue.len() implies #[trigger] has_parent(
        after.queue,
        j,
    ) by {
        if j < last {
            assert(has_parent(st.queue, j));
            let i = choose|i: int| 0 <= i < j && next_to(#[trigger] st.queue[i], st.queue[j]);
            assert(after.queue[i] == st.queue[i] && after.queue[j] == st.queue[j]);
        } else {
            assert(after.queue[parent] == st.queue[parent]);
            assert(after.queue[j] == t);
            assert(next_to(after.queue[parent], after.queue[j]));
        }
    }
    if witnessed(prior, base, st.queue, width, height, old_label, st.adjacent) && after.adjacent
        == st.adjacent {
        let (j, w) = choose|j: int, w: (u32, u32)| #[trigger]
            lent_by(prior, base, st.queue, width, height, old_label, j, w, st.adjacent);
        assert(after.queue[j] == st.queue[j]);
        assert(lent_by(prior, base, after.queue, width, height, old_label, j, w, after.adjacent));
    }
    if in_bounds(width, x, y, prior.len() as int) {
        let i = flat_index(width, x, y);
        if prior[i] != old_label && st.labels[i] != UNLABELED {
            assert(st.labels[i] == base[i]);
            assert(after.queue[parent] == st.queue[parent]);
            assert(lent_by(
                prior,
                base,
                after.queue,
                width,
                height,
                old_label,
                parent,
                t,
                after.adjacent,
            ));
        }
    }
    if 0 <= x < width && 0 <= y < height && foreign(prior, base, width, height, t, old_label) {
        let i = flat_index(width, x, y);
        assert(st.labels[i] == base[i]);
    }
}

/// Looking at the neighbours of the next pixel of the queue keeps the
/// queue hanging together; the label seen last stays that of a pixel of
/// another component next to the queue, and becomes one if such a pixel
/// lies next to the pixel looked at.
pub proof fn lemma_pop_step_chained(
    prior: Seq<usize>,
    base: Seq<usize>,
    st: Expansion,
    width: int,
    height: int,
    old_label: usize,
    fresh: usize,
)
    requires
        marks(prior, base, st.labels, st.queue, width, height, old_label, fresh),
        chained(st.queue),
        0 <= st.head < st.queue.len(),
        width <= u32::MAX,
        height <= u32::MAX,
    ensures
        chained(pop_step(prior, width, st, old_label, fresh).queue),
        witnessed(prior, base, st.queue, width, height, old_label, st.adjacent) || has_foreign(
            prior,
            base,
            width,
            height,
            st.queue[st.head],
            old_label,
        ) ==> witnessed(
            prior,
            base,
            pop_step(prior, width, st, old_label, fresh).queue,
            width,
            height,
            old_label,
            pop_step(prior, width, st, old_label, fresh).adjacent,
        ),
{
    let p = st.queue[st.head];
    let x = p.0 as int;
    let y = p.1 as int;
    let west = visit_spec(prior, width, st, old_label, fresh, x - 1, y);
    let north = visit_spec(prior, width, west, old_label, fresh, x, y - 1);
    let east = visit_spec(prior, width, north, old_label, fresh, x + 1, y);
    let south = visit_spec(prior, width, east, old_label, fresh, x, y + 1);
    lemma_visit(prior, base, st, width, height, old_label, fresh, x - 1, y);
    lemma_visit_chained(prior, base, st, width, height, old_label, fresh, x - 1, y, st.head);
    assert(west.queue[st.head] == p);
    lemma_visit(prior, base, west, width, height, old_label, fresh, x, y - 1);
    lemma_visit_chained(prior, base, west, width, height, old_label, fresh, x, y - 1, st.head);
    assert(north.queue[st.head] == west.queue[st.head]);
    lemma_visit(prior, base, north, width, height, old_label, fresh, x + 1, y);
    lemma_visit_chained(prior, base, north, width, height, old_label, fresh, x + 1, y, st.head);
    assert(east.queue[st.head] == north.queue[st.head]);
    lemma_visit_chained(prior, base, east, width, height, old_label, fresh, x, y + 1, st.head);
    let after = pop_step(prior, width, st, old_label, fresh);
    assert(after.queue == south.queue && after.adjacent == south.adjacent);
    if has_foreign(prior, base, width, height, p, old_label) {
        let t = choose|t: (u32, u32)| #[trigger]
            next_to(p, t) && foreign(prior, base, width, height, t, old_label);
        assert(t == ((x - 1) as u32, y as u32) || t == (x as u32, (y - 1) as u32) || t == (
            (x + 1) as u32,
            y as u32,
        ) || t == (x as u32, (y + 1) as u32));
    }
}

/// Whether `q` lists the pixels of one connected component of `prior`:
/// pixels of the image with one label, none of them twice, that hang
/// together, and with them every pixel next to one of them that has
/// their label.
pub open spec fn is_component(prior: Seq<usize>, width: int, height: int, q: Seq<(u32, u32)>) -> bool {
    &&& q.len() >= 1
    &&& q.no_duplicates()
    &&& forall|j: int|
        0 <= j < q.len() ==> (#[trigger] q[j]).0 < width && q[j].1 < height && prior[pixel_index(
            width,
            q[j],
        )] == prior[pixel_index(width, q[0])]
    &&& chained(q)
    &&& forall|j: int, t: (u32, u32)|
        0 <= j < q.len() && #[trigger] next_to(q[j], t) && t.0 < width && t.1 < height
            && prior[pixel_index(width, t)] == prior[pixel_index(width, q[0])] ==> q.contains(t)
}

/// Two pixels of the image next to each other that had one label have
/// one new label, where no component is split.
pub proof fn lemma_whole_pair(
    prior: Seq<usize>,
    labels: Seq<usize>,
    width: int,
    height: int,
    a: (u32, u32),
    b: (u32, u32),
)
    requires
        whole(prior, labels, width, height),
        a.0 < width,
        a.1 < height,
        b.0 < width,
        b.1 < height,
        next_to(a, b),
        prior[pixel_index(width, a)] == prior[pixel_index(width, b)],
    ensures
        labels[pixel_index(width, a)] == labels[pixel_index(width, b)],
{
    assert(whole_at(prior, labels, width, height, a.0 as int, a.1 as int));
    assert(whole_at(prior, labels, width, height, b.0 as int, b.1 as int));
}

/// The queue of a search that has come to its end lists the pixels of
/// one connected component.
pub proof fn lemma_search_is_component(
    prior: Seq<usize>,
    base: Seq<usize>,
    st: Expansion,
    width: int,
    height: int,
    old_label: usize,
    fresh: usize,
)
    requires
        marks(prior, base, st.labels, st.queue, width, height, old_label, fresh),
        closed(prior, st.labels, st.queue, st.queue.len() as int, width, old_label),
        distinct(st.queue, width),
        chained(st.queue),
        whole(prior, base, width, height),
        st.queue.len() >= 1,
    ensures
        is_component(prior, width, height, st.queue),
{
    let q = st.queue;
    assert forall|i: int, j: int| 0 <= i < q.len() && 0 <= j < q.len() && i != j implies q[i]
        != q[j] by {
        if i < j {
            assert(queue_index(q, width, i) != queue_index(q, width, j));
        } else {
            assert(queue_index(q, width, j) != queue_index(q, width, i));
        }
    }
    assert(queue_marked_at(prior, base, st.labels, q, width, height, old_label, fresh, 0));
    assert forall|j: int| 0 <= j < q.len() implies (#[trigger] q[j]).0 < width && q[j].1 < height
        && prior[pixel_index(width, q[j])] == prior[pixel_index(width, q[0])] by {
        assert(queue_marked_at(prior, base, st.labels, q, width, height, old_label, fresh, j));
        assert(queue_index(q, width, j) == pixel_index(width, q[j]));
    }
    assert forall|j: int, t: (u32, u32)|
        0 <= j < q.len() && #[trigger] next_to(q[j], t) && t.0 < width && t.1 < height
            && prior[pixel_index(width, t)] == prior[pixel_index(width, q[0])] implies q.contains(
        t,
    ) by {
        assert(queue_marked_at(prior, base, st.labels, q, width, height, old_label, fresh, j));
        assert(queue_index(q, width, j) == pixel_index(width, q[j]));
        let i = pixel_index(width, t);
        lemma_flat_index(width, height, t.0 as int, t.1 as int);
        lemma_in_image(width, height, t.0 as int, t.1 as int);
        assert(surrounded(prior, st.labels, width, q[j].0 as int, q[j].1 as int, old_label));
        assert(claimed(prior, st.labels, width, t.0 as int, t.1 as int, old_label));
        assert(st.labels[i] != UNLABELED);
        if st.labels[i] == base[i] {
            lemma_whole_pair(prior, base, width, height, q[j], t);
        } else {
            assert(in_queue(q, width, i));
            let m = choose|m: int| 0 <= m < q.len() && #[trigger] queue_index(q, width, m) == i;
            assert(queue_marked_at(prior, base, st.labels, q, width, height, old_label, fresh, m));
            lemma_flat_index_injective(
                width,
                height,
                q[m].0 as int,
                q[m].1 as int,
                t.0 as int,
                t.1 as int,
            );
            assert(q[m] == t);
        }
    }
}

/// A component that holds the first pixel of another list of a
/// component holds every pixel of that list.
pub proof fn lemma_component_covers(
    prior: Seq<usize>,
    width: int,
    height: int,
    a: Seq<(u32, u32)>,
    b: Seq<(u32, u32)>,
    n: int,
)
    requires
        is_component(prior, width, height, a),
        is_component(prior, width, height, b),
        b.contains(a[0]),
        0 <= n < a.len(),
    ensures
        b.contains(a[n]),
    decreases n,
{
    if n > 0 {
        assert(has_parent(a, n));
        let i = choose|i: int| 0 <= i < n && next_to(#[trigger] a[i], a[n]);
        lemma_component_covers(prior, width, height, a, b, i);
        let m = choose|m: int| 0 <= m < b.len() && b[m] == a[i];
        let first = choose|m: int| 0 <= m < b.len() && b[m] == a[0];
        assert(prior[pixel_index(width, b[first])] == prior[pixel_index(width, b[0])]);
        assert(prior[pixel_index(width, a[n])] == prior[pixel_index(width, a[0])]);
        assert(next_to(b[m], a[n]));
        assert(a[n].0 < width && a[n].1 < height);
    }
}

/// A component that holds any pixel of another list of a component
/// holds the first pixel of that list.
pub proof fn lemma_component_reaches_first(
    prior: Seq<usize>,
    width: int,
    height: int,
    a: Seq<(u32, u32)>,
    b: Seq<(u32, u32)>,
    m: int,
)
    requires
        is_component(prior, width, height, a),
        is_component(prior, width, height, b),
        0 <= m < b.len(),
        a.contains(b[m]),
    ensures
        a.contains(b[0]),
    decreases m,
{
    if m > 0 {
        assert(has_parent(b, m));
        let i = choose|i: int| 0 <= i < m && next_to(#[trigger] b[i], b[m]);
        let at = choose|at: int| 0 <= at < a.len() && a[at] == b[m];
        assert(prior[pixel_index(width, a[at])] == prior[pixel_index(width, a[0])]);
        assert(prior[pixel_index(width, b[m])] == prior[pixel_index(width, b[0])]);
        assert(prior[pixel_index(width, b[i])] == prior[pixel_index(width, b[0])]);
        assert(next_to(a[at], b[i]));
        assert(b[i].0 < width && b[i].1 < height);
        assert(a.contains(b[i]));
        lemma_component_reaches_first(prior, width, height, a, b, i);
    }
}

/// Two lists of components that share a pixel list the same pixels,
/// and are of one length.
pub proof fn lemma_same_component(
    prior: Seq<usize>,
    width: int,
    height: int,
    a: Seq<(u32, u32)>,
    b: Seq<(u32, u32)>,
)
    requires
        is_component(prior, width, height, a),
        is_component(prior, width, height, b),
        b.contains(a[0]),
    ensures
        a.len() == b.len(),
        forall|p: (u32, u32)| a.contains(p) <==> b.contains(p),
{
    let at = choose|at: int| 0 <= at < b.len() && b[at] == a[0];
    assert(a.contains(b[at]));
    lemma_component_reaches_first(prior, width, height, a, b, at);
    assert forall|p: (u32, u32)| a.contains(p) <==> b.contains(p) by {
        if a.contains(p) {
            let n = choose|n: int| 0 <= n < a.len() && a[n] == p;
            lemma_component_covers(prior, width, height, a, b, n);
        }
        if b.contains(p) {
            let n = choose|n: int| 0 <= n < b.len() && b[n] == p;
            lemma_component_covers(prior, width, height, b, a, n);
        }
    }
    assert(a.to_set() =~= b.to_set());
    a.unique_seq_to_set();
    b.unique_seq_to_set();
}

/// What is kept of the searches while an image is relabelled.
pub struct Ledger {
    /// At the flat index of the first pixel of every component searched
    /// out so far: the pixels of the component, in the order in which
    /// they were found.  Empty elsewhere.
    pub found: Seq<Seq<(u32, u32)>>,
    /// For every pixel with a new label: the flat index of the first
    /// pixel of its component.
    pub root: Seq<int>,
}

/// Whether the pixels of `q` have the new label of a pixel of another
/// component that lies next to one of them.
pub open spec fn borrowed(
    prior: Seq<usize>,
    labels: Seq<usize>,
    q: Seq<(u32, u32)>,
    width: int,
    height: int,
) -> bool {
    exists|j: int, t: (u32, u32)|
        0 <= j < q.len() && #[trigger] next_to(q[j], t) && t.0 < width && t.1 < height
            && prior[pixel_index(width, t)] != prior[pixel_index(width, q[0])]
            && labels[pixel_index(width, t)] == labels[pixel_index(width, q[0])]
}

/// Whether the pixel `i`, if it has a new label, stands in the list of
/// its component.
pub open spec fn entered(labels: Seq<usize>, ledger: Ledger, width: int, i: int) -> bool {
    labels[i] != UNLABELED ==> 0 <= ledger.root[i] < ledger.found.len() && in_queue(
        ledger.found[ledger.root[i]],
        width,
        i,
    )
}

/// Whether the list kept at `r`, if there is one, is a component that
/// begins with the pixel `r`, all with one new label: a label below
/// `next` if the component has more than `threshold` pixels, else a
/// borrowed one unless the component holds the first pixel of the
/// image.
pub open spec fn record_ok(
    prior: Seq<usize>,
    labels: Seq<usize>,
    next: usize,
    ledger: Ledger,
    width: int,
    height: int,
    threshold: int,
    r: int,
) -> bool {
    let q = ledger.found[r];
    q.len() > 0 ==> {
        &&& is_component(prior, width, height, q)
        &&& pixel_index(width, q[0]) == r
        &&& labels[r] != UNLABELED
        &&& forall|j: int|
            0 <= j < q.len() ==> labels[pixel_index(width, #[trigger] q[j])] == labels[r]
        &&& q.len() > threshold ==> labels[r] < next
        &&& q.len() <= threshold && r != 0 ==> borrowed(prior, labels, q, width, height)
    }
}

/// Whether the components kept at `r` and at `r2`, if both have more
/// than `threshold` pixels, have different new labels.
pub open spec fn apart(labels: Seq<usize>, ledger: Ledger, threshold: int, r: int, r2: int) -> bool {
    r != r2 && ledger.found[r].len() > threshold && ledger.found[r2].len() > threshold
        ==> labels[r] != labels[r2]
}

/// What holds of the ledger between two searches.
pub open spec fn ledger_ok(
    prior: Seq<usize>,
    labels: Seq<usize>,
    next: usize,
    ledger: Ledger,
    width: int,
    height: int,
    threshold: int,
) -> bool {
    &&& prior.len() == width * height
    &&& 0 <= height
    &&& 0 <= threshold
    &&& labels.len() == prior.len()
    &&& ledger.found.len() == prior.len()
    &&& ledger.root.len() == prior.len()
    &&& forall|i: int| 0 <= i < prior.len() ==> #[trigger] entered(labels, ledger, width, i)
    &&& forall|r: int|
        0 <= r < prior.len() ==> #[trigger] record_ok(
            prior,
            labels,
            next,
            ledger,
            width,
            height,
            threshold,
            r,
        )
    &&& forall|r: int, r2: int|
        0 <= r < prior.len() && 0 <= r2 < prior.len() ==> #[trigger] apart(
            labels,
            ledger,
            threshold,
            r,
            r2,
        )
}

/// The ledger after the search that began at the pixel `start` found
/// `queue`.
pub open spec fn ledger_with(ledger: Ledger, queue: Seq<(u32, u32)>, width: int, start: int) -> Ledger {
    Ledger {
        found: ledger.found.update(start, queue),
        root: Seq::new(
            ledger.root.len(),
            |i: int|
                if in_queue(queue, width, i) {
                    start
                } else {
                    ledger.root[i]
                },
        ),
    }
}

/// A search leaves the pixels that had a new label as they were, and
/// none of them stands in its queue.
pub proof fn lemma_search_spares(
    prior: Seq<usize>,
    base: Seq<usize>,
    st: Expansion,
    after: Seq<usize>,
    width: int,
    height: int,
    old_label: usize,
    fresh: usize,
    value: usize,
    i: int,
)
    requires
        marks(prior, base, st.labels, st.queue, width, height, old_label, fresh),
        settled(st, width, value, after),
        0 <= i < prior.len(),
    ensures
        base[i] != UNLABELED ==> after[i] == base[i] && !in_queue(st.queue, width, i),
        !in_queue(st.queue, width, i) ==> after[i] == base[i],
        in_queue(st.queue, width, i) ==> after[i] == value && base[i] == UNLABELED && prior[i]
            == old_label,
{
    if in_queue(st.queue, width, i) {
        let j = choose|j: int| 0 <= j < st.queue.len() && #[trigger] queue_index(st.queue, width, j)
            == i;
        assert(queue_marked_at(
            prior,
            base,
            st.labels,
            st.queue,
            width,
            height,
            old_label,
            fresh,
            j,
        ));
        assert(after[queue_index(st.queue, width, j)] == value);
    } else {
        assert(after[i] == st.labels[i]);
        assert(st.labels[i] == base[i]);
    }
}

/// The ledger stays in order over a search that has come to its end
/// and whose component has got its label: `next` if it has more than
/// `threshold` pixels, else a label that is borrowed unless the search
/// began at the first pixel of the image.
pub proof fn lemma_ledger_step(
    prior: Seq<usize>,
    base: Seq<usize>,
    after: Seq<usize>,
    next: usize,
    next_after: usize,
    ledger: Ledger,
    st: Expansion,
    width: int,
    height: int,
    threshold: int,
    start: int,
    value: usize,
)
    requires
        ledger_ok(prior, base, next, ledger, width, height, threshold),
        whole(prior, base, width, height),
        0 <= start < prior.len(),
        base[start] == UNLABELED,
        marks(prior, base, st.labels, st.queue, width, height, prior[start], next),
        closed(prior, st.labels, st.queue, st.queue.len() as int, width, prior[start]),
        distinct(st.queue, width),
        chained(st.queue),
        st.queue.len() >= 1,
        queue_index(st.queue, width, 0) == start,
        settled(st, width, value, after),
        value != UNLABELED,
        st.queue.len() > threshold ==> value == next && next_after == next + 1,
        st.queue.len() <= threshold ==> next_after == next && (start != 0 ==> witnessed(
            prior,
            base,
            st.queue,
            width,
            height,
            prior[start],
            value,
        )),
    ensures
        ledger_ok(
            prior,
            after,
            next_after,
            ledger_with(ledger, st.queue, width, start),
            width,
            height,
            threshold,
        ),
{
    let old_label = prior[start];
    let q = st.queue;
    let ledger2 = ledger_with(ledger, q, width, start);
    assert(ledger.found[start].len() == 0) by {
        assert(record_ok(prior, base, next, ledger, width, height, threshold, start));
    }
    lemma_search_is_component(prior, base, st, width, height, old_label, next);
    assert(in_queue(q, width, start));
    lemma_search_spares(prior, base, st, after, width, height, old_label, next, value, start);
    assert forall|i: int| 0 <= i < prior.len() implies #[trigger] entered(
        after,
        ledger2,
        width,
        i,
    ) by {
        lemma_search_spares(prior, base, st, after, width, height, old_label, next, value, i);
        if !in_queue(q, width, i) && after[i] != UNLABELED {
            assert(entered(base, ledger, width, i));
            let r = ledger.root[i];
            assert(r != start);
            assert(ledger2.found[r] == ledger.found[r]);
        }
    }
    assert forall|r: int| 0 <= r < prior.len() implies #[trigger] record_ok(
        prior,
        after,
        next_after,
        ledger2,
        width,
        height,
        threshold,
        r,
    ) by {
        if r == start {
            assert(ledger2.found[r] == q);
            assert forall|j: int| 0 <= j < q.len() implies after[pixel_index(
                width,
                #[trigger] q[j],
            )] == after[r] by {
                assert(after[queue_index(q, width, j)] == value);
            }
            if q.len() <= threshold && r != 0 {
                let (j, t) = choose|j: int, t: (u32, u32)| #[trigger]
                    lent_by(prior, base, q, width, height, old_label, j, t, value);
                lemma_flat_index(width, height, t.0 as int, t.1 as int);
                lemma_search_spares(
                    prior,
                    base,
                    st,
                    after,
                    width,
                    height,
                    old_label,
                    next,
                    value,
                    pixel_index(width, t),
                );
                assert(queue_marked_at(prior, base, st.labels, q, width, height, old_label, next, 0));
                assert(next_to(q[j], t));
            }
        } else {
            assert(record_ok(prior, base, next, ledger, width, height, threshold, r));
            assert(ledger2.found[r] == ledger.found[r]);
            let old = ledger.found[r];
            if old.len() > 0 {
                lemma_search_spares(prior, base, st, after, width, height, old_label, next, value, r);
                assert forall|j: int| 0 <= j < old.len() implies after[pixel_index(
                    width,
                    #[trigger] old[j],
                )] == after[r] by {
                    lemma_flat_index(width, height, old[j].0 as int, old[j].1 as int);
                    lemma_search_spares(
                        prior,
                        base,
                        st,
                        after,
                        width,
                        height,
                        old_label,
                        next,
                        value,
                        pixel_index(width, old[j]),
                    );
                }
                if old.len() <= threshold && r != 0 {
                    let (j, t) = choose|j: int, t: (u32, u32)|
                        0 <= j < old.len() && #[trigger] next_to(old[j], t) && t.0 < width && t.1
                            < height && prior[pixel_index(width, t)] != prior[pixel_index(
                            width,
                            old[0],
                        )] && base[pixel_index(width, t)] == base[pixel_index(width, old[0])];
                    lemma_flat_index(width, height, t.0 as int, t.1 as int);
                    lemma_search_spares(
                        prior,
                        base,
                        st,
                        after,
                        width,
                        height,
                        old_label,
                        next,
                        value,
                        pixel_index(width, t),
                    );
                    assert(next_to(old[j], t));
                }
            }
        }
    }
    assert forall|r: int, r2: int| 0 <= r < prior.len() && 0 <= r2 < prior.len() implies #[trigger] apart(
        after,
        ledger2,
        threshold,
        r,
        r2,
    ) by {
        assert(ledger2.found[start] == q);
        lemma_search_spares(prior, base, st, after, width, height, old_label, next, value, r);
        lemma_search_spares(prior, base, st, after, width, height, old_label, next, value, r2);
        assert(record_ok(prior, base, next, ledger, width, height, threshold, r));
        assert(record_ok(prior, base, next, ledger, width, height, threshold, r2));
        assert(apart(base, ledger, threshold, r, r2));
        if r != r2 && ledger2.found[r].len() > threshold && ledger2.found[r2].len() > threshold {
            if r == start {
                assert(ledger2.found[r2] == ledger.found[r2]);
                assert(after[r] == next);
                assert(base[r2] != UNLABELED);
                assert(after[r2] == base[r2]);
                assert(base[r2] < next);
            } else if r2 == start {
                assert(ledger2.found[r] == ledger.found[r]);
                assert(after[r2] == next);
                assert(base[r] != UNLABELED);
                assert(after[r] == base[r]);
                assert(base[r] < next);
            } else {
                assert(ledger2.found[r] == ledger.found[r]);
                assert(ledger2.found[r2] == ledger.found[r2]);
                assert(after[r] == base[r]);
                assert(after[r2] == base[r2]);
            }
        }
    }
}

/// What connectivity enforcement has done to the component that `q`
/// lists: all its pixels have one new label.  If it has more than
/// `threshold` pixels, no other component with more than `threshold`
/// pixels has that label.  If it has no more, and does not hold the
/// first pixel of the image, the label is borrowed from a pixel of
/// another component next to it.
pub open spec fn component_law(
    prior: Seq<usize>,
    labels: Seq<usize>,
    width: int,
    height: int,
    threshold: int,
    q: Seq<(u32, u32)>,
) -> bool {
    &&& forall|j: int|
        0 <= j < q.len() ==> labels[pixel_index(width, #[trigger] q[j])] == labels[pixel_index(
            width,
            q[0],
        )]
    &&& q.len() > threshold ==> forall|q2: Seq<(u32, u32)>| #[trigger]
        is_component(prior, width, height, q2) && q2.len() > threshold && labels[pixel_index(
            width,
            q2[0],
        )] == labels[pixel_index(width, q[0])] ==> q.contains(q2[0])
    &&& q.len() <= threshold && !q.contains((0u32, 0u32)) ==> borrowed(
        prior,
        labels,
        q,
        width,
        height,
    )
}

/// Whether some connected component holds the pixel with the flat index
/// `i`.
pub open spec fn in_component(prior: Seq<usize>, width: int, height: int, i: int) -> bool {
    exists|q: Seq<(u32, u32)>| #[trigger]
        is_component(prior, width, height, q) && in_queue(q, width, i)
}

/// Whether every pixel lies in a connected component, and
/// `component_law` holds of every connected component.
pub open spec fn fragment_law(
    prior: Seq<usize>,
    labels: Seq<usize>,
    width: int,
    height: int,
    threshold: int,
) -> bool {
    &&& forall|i: int| 0 <= i < prior.len() ==> #[trigger] in_component(prior, width, height, i)
    &&& forall|q: Seq<(u32, u32)>| #[trigger]
        is_component(prior, width, height, q) ==> component_law(
            prior,
            labels,
            width,
            height,
            threshold,
            q,
        )
}

/// The list that the ledger keeps of the component that `q` lists: it
/// holds the same pixels and is of the same length.
pub proof fn lemma_ledger_record(
    prior: Seq<usize>,
    labels: Seq<usize>,
    next: usize,
    ledger: Ledger,
    width: int,
    height: int,
    threshold: int,
    q: Seq<(u32, u32)>,
) -> (r: int)
    requires
        ledger_ok(prior, labels, next, ledger, width, height, threshold),
        forall|i: int| 0 <= i < labels.len() ==> #[trigger] labels[i] != UNLABELED,
        is_component(prior, width, height, q),
    ensures
        0 <= r < prior.len(),
        ledger.found[r].len() == q.len(),
        is_component(prior, width, height, ledger.found[r]),
        forall|p: (u32, u32)| q.contains(p) <==> ledger.found[r].contains(p),
        record_ok(prior, labels, next, ledger, width, height, threshold, r),
        labels[pixel_index(width, q[0])] == labels[r],
{
    let first = pixel_index(width, q[0]);
    assert(q[0].0 < width);
    lemma_flat_index(width, height, q[0].0 as int, q[0].1 as int);
    assert(labels[first] != UNLABELED);
    assert(entered(labels, ledger, width, first));
    let r = ledger.root[first];
    let kept = ledger.found[r];
    assert(record_ok(prior, labels, next, ledger, width, height, threshold, r));
    let j = choose|j: int| 0 <= j < kept.len() && #[trigger] queue_index(kept, width, j) == first;
    assert(kept[j].0 < width);
    lemma_flat_index_injective(
        width,
        height,
        kept[j].0 as int,
        kept[j].1 as int,
        q[0].0 as int,
        q[0].1 as int,
    );
    assert(kept[j] == q[0]);
    assert(kept.contains(q[0]));
    lemma_same_component(prior, width, height, q, kept);
    assert(labels[pixel_index(width, kept[j])] == labels[r]);
    r
}

/// Once every pixel has its new label, every pixel lies in a connected
/// component and `component_law` holds of every connected component.
pub proof fn lemma_fragment_law(
    prior: Seq<usize>,
    labels: Seq<usize>,
    next: usize,
    ledger: Ledger,
    width: int,
    height: int,
    threshold: int,
)
    requires
        ledger_ok(prior, labels, next, ledger, width, height, threshold),
        forall|i: int| 0 <= i < labels.len() ==> #[trigger] labels[i] != UNLABELED,
    ensures
        fragment_law(prior, labels, width, height, threshold),
{
    assert forall|i: int| 0 <= i < prior.len() implies #[trigger] in_component(
        prior,
        width,
        height,
        i,
    ) by {
        assert(entered(labels, ledger, width, i));
        let r = ledger.root[i];
        assert(record_ok(prior, labels, next, ledger, width, height, threshold, r));
        assert(is_component(prior, width, height, ledger.found[r]) && in_queue(
            ledger.found[r],
            width,
            i,
        ));
    }
    assert forall|q: Seq<(u32, u32)>| #[trigger]
        is_component(prior, width, height, q) implies component_law(
        prior,
        labels,
        width,
        height,
        threshold,
        q,
    ) by {
        let r = lemma_ledger_record(prior, labels, next, ledger, width, height, threshold, q);
        let kept = ledger.found[r];
        assert forall|j: int| 0 <= j < q.len() implies labels[pixel_index(
            width,
            #[trigger] q[j],
        )] == labels[pixel_index(width, q[0])] by {
            assert(q.contains(q[j]));
            assert(kept.contains(q[j]));
            let m = choose|m: int| 0 <= m < kept.len() && kept[m] == q[j];
            assert(labels[pixel_index(width, kept[m])] == labels[r]);
        }
        if q.len() > threshold {
            assert forall|q2: Seq<(u32, u32)>| #[trigger]
                is_component(prior, width, height, q2) && q2.len() > threshold && labels[pixel_index(
                    width,
                    q2[0],
                )] == labels[pixel_index(width, q[0])] implies q.contains(q2[0]) by {
                let r2 = lemma_ledger_record(
                    prior,
                    labels,
                    next,
                    ledger,
                    width,
                    height,
                    threshold,
                    q2,
                );
                assert(apart(labels, ledger, threshold, r, r2));
                assert(r == r2);
                assert(q2.contains(q2[0]));
            }
        }
        if q.len() <= threshold && !q.contains((0u32, 0u32)) {
            assert(kept.contains(kept[0]));
            assert(pixel_index(width, kept[0]) == r);
            if r == 0 {
                assert(kept[0].0 < width);
                lemma_flat_index(width, height, kept[0].0 as int, kept[0].1 as int);
                assert(kept[0] == (0u32, 0u32));
            }
            let (j, t) = choose|j: int, t: (u32, u32)|
                0 <= j < kept.len() && #[trigger] next_to(kept[j], t) && t.0 < width && t.1
                    < height && prior[pixel_index(width, t)] != prior[pixel_index(width, kept[0])]
                    && labels[pixel_index(width, t)] == labels[pixel_index(width, kept[0])];
            assert(q.contains(kept[j]));
            let m = choose|m: int| 0 <= m < q.len() && q[m] == kept[j];
            assert(next_to(q[m], t));
            assert(q.contains(kept[0]));
            let z = choose|z: int| 0 <= z < q.len() && q[z] == kept[0];
            assert(prior[pixel_index(width, q[z])] == prior[pixel_index(width, q[0])]);
            assert(labels[pixel_index(width, kept[0])] == labels[r]);
        }
    }
}

} // verus!
