//! The priority queue of SNIC: a binary heap that hands out the element
//! with the lowest distance first.
use vstd::multiset::Multiset;
use vstd::prelude::*;

verus! {

broadcast use {vstd::seq_lib::group_to_multiset_ensures, vstd::multiset::group_multiset_axioms};

/// Queue element used in SNIC computation.
#[derive(Debug, Clone, Copy, PartialEq, Eq, Structural)]
pub struct SnicElement {
    /// Distance to nearest superpixel.
    pub distance: u128,
    /// Superpixel label.
    pub k: usize,
    /// X-coordinate.
    pub x: u32,
    /// Y-coordinate.
    pub y: u32,
}

/// The order in which the queue hands out its elements: by distance;
/// among equal distances by label, then by column, then by row.
pub open spec fn element_le(a: SnicElement, b: SnicElement) -> bool {
    a.distance < b.distance || (a.distance == b.distance && (a.k < b.k || (a.k == b.k && (a.x
        < b.x || (a.x == b.x && a.y <= b.y)))))
}

/// Whether `a` comes out of the queue no later than `b`.
pub fn precedes(a: &SnicElement, b: &SnicElement) -> (r: bool)
    ensures
        r == element_le(*a, *b),
{
    a.distance < b.distance || (a.distance == b.distance && (a.k < b.k || (a.k == b.k && (a.x
        < b.x || (a.x == b.x && a.y <= b.y)))))
}

/// Whether `e` is in `queue` and no element of `queue` comes before it.
pub open spec fn is_minimum(queue: Multiset<SnicElement>, e: SnicElement) -> bool {
    queue.contains(e) && forall|f: SnicElement| queue.contains(f) ==> element_le(e, f)
}

/// The element that comes out of `queue` first.
pub open spec fn min_element(queue: Multiset<SnicElement>) -> SnicElement {
    choose|e: SnicElement| is_minimum(queue, e)
}

/// A queue has one minimum only.
pub proof fn lemma_minimum_unique(queue: Multiset<SnicElement>, e: SnicElement)
    requires
        is_minimum(queue, e),
    ensures
        min_element(queue) == e,
{
    let m = min_element(queue);
    assert(is_minimum(queue, m));
    assert(element_le(e, m) && element_le(m, e));
}

/// Whether the entry `i` of `s` does not come before its parent in the
/// heap.
pub open spec fn ordered_at(s: Seq<SnicElement>, i: int) -> bool {
    element_le(s[(i - 1) / 2], s[i])
}

/// Whether `s` is a heap: no entry comes before its parent.
pub open spec fn is_heap(s: Seq<SnicElement>) -> bool {
    forall|i: int| 0 < i < s.len() ==> #[trigger] ordered_at(s, i)
}

/// In a heap no entry comes before the first.
proof fn lemma_heap_root(s: Seq<SnicElement>, i: int)
    requires
        is_heap(s),
        0 <= i < s.len(),
    ensures
        element_le(s[0], s[i]),
    decreases i,
{
    if i > 0 {
        assert(ordered_at(s, i));
        lemma_heap_root(s, (i - 1) / 2);
    }
}

/// Exchanging two entries of a sequence keeps what it holds.
proof fn lemma_swap_multiset(s: Seq<SnicElement>, i: int, j: int)
    requires
        0 <= i < s.len(),
        0 <= j < s.len(),
    ensures
        s.update(i, s[j]).update(j, s[i]).to_multiset() == s.to_multiset(),
{
    vstd::seq_lib::to_multiset_update(s, i, s[j]);
    vstd::seq_lib::to_multiset_update(s.update(i, s[j]), j, s[i]);
    if i == j {
        assert(s.update(i, s[j]).update(j, s[i]) =~= s);
    } else {
        assert(s.to_multiset().count(s[i]) > 0);
        assert(s.to_multiset().count(s[j]) > 0);
        assert(s.update(i, s[j]).update(j, s[i]).to_multiset() =~= s.to_multiset());
    }
}

/// The priority queue of SNIC.
pub struct SnicQueue {
    items: Vec<SnicElement>,
}

impl SnicQueue {
    /// What the queue holds.
    pub closed spec fn view(&self) -> Multiset<SnicElement> {
        self.items@.to_multiset()
    }

    /// Whether the queue's entries are in heap order.
    pub closed spec fn well_formed(&self) -> bool {
        is_heap(self.items@)
    }

    /// An empty queue.
    pub fn new() -> (queue: Self)
        ensures
            queue.well_formed(),
            queue@ == Multiset::<SnicElement>::empty(),
    {
        let queue = SnicQueue { items: Vec::new() };
        assert(queue.items@.to_multiset() =~= Multiset::<SnicElement>::empty());
        queue
    }

    /// Number of elements in the queue.
    pub fn len(&self) -> (n: usize)
        ensures
            n == self@.len(),
    {
        self.items.len()
    }

    /// Whether the queue holds nothing.
    pub fn is_empty(&self) -> (b: bool)
        ensures
            b == (self@.len() == 0),
    {
        self.items.len() == 0
    }

    /// Exchange the entries `i` and `j`.
    fn swap(&mut self, i: usize, j: usize)
        requires
            i < old(self).items@.len(),
            j < old(self).items@.len(),
        ensures
            final(self).items@ == old(self).items@.update(i as int, old(self).items@[j as int]).update(
                j as int,
                old(self).items@[i as int],
            ),
            final(self)@ == old(self)@,
    {
        proof {
            lemma_swap_multiset(self.items@, i as int, j as int);
        }
        let a: SnicElement = self.items[i];
        let b: SnicElement = self.items[j];
        self.items[i] = b;
        self.items[j] = a;
    }

    /// Put `element` into the queue.
    pub fn push(&mut self, element: SnicElement)
        requires
            old(self).well_formed(),
        ensures
            final(self).well_formed(),
            final(self)@ == old(self)@.insert(element),
    {
        let ghost start = self.items@;
        self.items.push(element);
        let mut i: usize = self.items.len() - 1;
        assert forall|j: int| 0 < j < self.items@.len() && j != i implies #[trigger] ordered_at(
            self.items@,
            j,
        ) by {
            assert(ordered_at(start, j));
        }
        while i > 0
            invariant
                i < self.items@.len(),
                self@ == old(self)@.insert(element),
                forall|j: int| 0 < j < self.items@.len() && j != i ==> #[trigger] ordered_at(self.items@, j),
                forall|c: int|
                    0 < i && 0 < c < self.items@.len() && (c - 1) / 2 == i ==> element_le(
                        self.items@[(i - 1) / 2],
                        #[trigger] self.items@[c],
                    ),
            ensures
                is_heap(self.items@),
                self@ == old(self)@.insert(element),
            decreases i,
        {
            let p: usize = (i - 1) / 2;
            if precedes(&self.items[p], &self.items[i]) {
                assert(ordered_at(self.items@, i as int));
                break ;
            }
            let ghost before = self.items@;
            self.swap(i, p);
            proof {
                let after = self.items@;
                assert forall|j: int| 0 < j < after.len() && j != p implies #[trigger] ordered_at(
                    after,
                    j,
                ) by {
                    if j != i {
                        assert(ordered_at(before, j));
                        if (j - 1) / 2 == i {
                            assert(element_le(before[(i - 1) / 2], before[j]));
                        }
                    }
                }
                assert forall|c: int|
                    0 < p && 0 < c < after.len() && (c - 1) / 2 == p implies element_le(
                    after[(p - 1) / 2],
                    #[trigger] after[c],
                ) by {
                    assert(ordered_at(before, p as int));
                    if c != i {
                        assert(ordered_at(before, c));
                    }
                }
            }
            i = p;
        }
    }

    /// Take the element that comes first out of the queue: none comes
    /// before it.  An empty queue gives `None`.
    pub fn pop(&mut self) -> (r: Option<SnicElement>)
        requires
            old(self).well_formed(),
        ensures
            final(self).well_formed(),
            match r {
                Some(e) => is_minimum(old(self)@, e) && final(self)@ == old(self)@.remove(e),
                None => old(self)@.len() == 0 && final(self)@ == old(self)@,
            },
    {
        let n: usize = self.items.len();
        if n == 0 {
            return None;
        }
        let ghost before = self.items@;
        let first: SnicElement = self.items[0];
        proof {
            assert forall|f: SnicElement| before.to_multiset().contains(f) implies element_le(
                first,
                f,
            ) by {
                let i = choose|i: int| 0 <= i < before.len() && before[i] == f;
                lemma_heap_root(before, i);
            }
            assert(before.contains(first));
        }
        let last: SnicElement = self.items.pop().unwrap();
        if n == 1 {
            proof {
                assert(self.items@.to_multiset() =~= before.to_multiset().remove(first)) by {
                    assert(before =~= self.items@.push(first));
                }
            }
            return Some(first);
        }
        proof {
            assert(before =~= self.items@.push(last));
            vstd::seq_lib::to_multiset_update(self.items@, 0, last);
        }
        self.items[0] = last;
        assert(self@ =~= before.to_multiset().remove(first));
        let mut i: usize = 0;
        let m: usize = n - 1;
        assert forall|j: int| 0 < j < self.items@.len() && (j - 1) / 2 != i implies #[trigger] ordered_at(
            self.items@,
            j,
        ) by {
            assert(ordered_at(before, j));
        }
        loop
            invariant
                m == self.items@.len(),
                i < m,
                self@ == before.to_multiset().remove(first),
                forall|j: int|
                    0 < j < self.items@.len() && (j - 1) / 2 != i ==> #[trigger] ordered_at(
                        self.items@,
                        j,
                    ),
                forall|c: int|
                    0 < i && 0 < c < self.items@.len() && (c - 1) / 2 == i ==> element_le(
                        self.items@[(i - 1) / 2],
                        #[trigger] self.items@[c],
                    ),
            ensures
                is_heap(self.items@),
                self@ == before.to_multiset().remove(first),
            decreases m - i,
        {
            if i > (m - 1) / 2 {
                // no child, and twice `i` might not fit
                assert forall|j: int| 0 < j < self.items@.len() implies #[trigger] ordered_at(
                    self.items@,
                    j,
                ) by {
                    assert((j - 1) / 2 != i);
                }
                break ;
            }
            let left: usize = 2 * i + 1;
            if left >= m {
                assert forall|j: int| 0 < j < self.items@.len() implies #[trigger] ordered_at(
                    self.items@,
                    j,
                ) by {
                    assert((j - 1) / 2 != i);
                }
                break ;
            }
            let right: usize = left + 1;
            let child: usize = if right < m && !precedes(&self.items[left], &self.items[right]) {
                right
            } else {
                left
            };
            if precedes(&self.items[i], &self.items[child]) {
                assert forall|j: int| 0 < j < self.items@.len() implies #[trigger] ordered_at(
                    self.items@,
                    j,
                ) by {
                    if (j - 1) / 2 == i {
                        assert(j == left || j == right);
                    }
                }
                break ;
            }
            let ghost prior = self.items@;
            self.swap(i, child);
            proof {
                let after = self.items@;
                assert forall|j: int|
                    0 < j < after.len() && (j - 1) / 2 != child implies #[trigger] ordered_at(
                    after,
                    j,
                ) by {
                    if (j - 1) / 2 == i {
                        assert(j == left || j == right);
                    } else if j == i {
                        assert(element_le(prior[(i - 1) / 2], prior[child as int]));
                    } else {
                        assert(ordered_at(prior, j));
                    }
                }
                assert forall|c: int|
                    0 < c < after.len() && (c - 1) / 2 == child implies element_le(
                    after[(child - 1) / 2],
                    #[trigger] after[c],
                ) by {
                    assert(ordered_at(prior, c));
                }
            }
            i = child;
        }
        Some(first)
    }
}

} // verus!
