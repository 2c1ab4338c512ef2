//! Points of a grid and the queue that hands them out lowest first.

use vstd::multiset::*;
use vstd::prelude::*;
use vstd::seq_lib::*;

verus! {

/// Single point of a grid, storing its height.
#[derive(Clone, Copy, Debug, PartialEq, Eq, Structural)]
pub struct Point {
    pub x: usize,
    pub y: usize,
    pub z: i64,
}

/// Strict order in which cells leave a queue: by height, then column, then row.
pub open spec fn key_lt(z1: int, x1: int, y1: int, z2: int, x2: int, y2: int) -> bool {
    z1 < z2 || (z1 == z2 && (x1 < x2 || (x1 == x2 && y1 < y2)))
}

impl Point {
    /// Whether `self` leaves a queue strictly before `other`.
    pub open spec fn before(self, other: Point) -> bool {
        key_lt(
            self.z as int,
            self.x as int,
            self.y as int,
            other.z as int,
            other.x as int,
            other.y as int,
        )
    }

    /// Whether `self` leaves a queue strictly before `other`: lower first, ties
    /// by column and then by row.
    pub fn is_before(&self, other: &Point) -> (b: bool)
        ensures
            b == self.before(*other),
    {
        self.z < other.z || (self.z == other.z && (self.x < other.x || (self.x == other.x && self.y
            < other.y)))
    }
}

/// Every entry but the root is no earlier than its parent.
spec fn heap_ordered(s: Seq<Point>) -> bool {
    forall|i: int| 1 <= i < s.len() ==> !(#[trigger] s[i]).before(s[(i - 1) / 2])
}

/// Heap order that may be broken between `hole` and its parent only.
spec fn ordered_above(s: Seq<Point>, hole: int) -> bool {
    &&& forall|i: int| 1 <= i < s.len() && i != hole ==> !(#[trigger] s[i]).before(s[(i - 1) / 2])
    &&& forall|i: int|
        1 <= i < s.len() && hole >= 1 && (i - 1) / 2 == hole ==> !(#[trigger] s[i]).before(
            s[(hole - 1) / 2],
        )
}

/// Heap order that may be broken between `hole` and its children only.
spec fn ordered_below(s: Seq<Point>, hole: int) -> bool {
    &&& forall|i: int|
        1 <= i < s.len() && (i - 1) / 2 != hole ==> !(#[trigger] s[i]).before(s[(i - 1) / 2])
    &&& forall|i: int|
        1 <= i < s.len() && hole >= 1 && (i - 1) / 2 == hole ==> !(#[trigger] s[i]).before(
            s[(hole - 1) / 2],
        )
}

proof fn lemma_root_first(s: Seq<Point>, j: int)
    requires
        heap_ordered(s),
        0 <= j < s.len(),
    ensures
        !s[j].before(s[0]),
    decreases j,
{
    if j > 0 {
        lemma_root_first(s, (j - 1) / 2);
        assert(!s[j].before(s[(j - 1) / 2]));
    }
}

proof fn lemma_swap_multiset(s: Seq<Point>, i: int, j: int)
    requires
        0 <= i < s.len(),
        0 <= j < s.len(),
    ensures
        s.update(i, s[j]).update(j, s[i]).to_multiset() == s.to_multiset(),
{
    broadcast use group_multiset_axioms;

    let t = s.update(i, s[j]);
    to_multiset_update(s, i, s[j]);
    to_multiset_update(t, j, s[i]);
    to_multiset_contains(s, s[i]);
    to_multiset_contains(s, s[j]);
    assert(s.contains(s[i]));
    assert(s.contains(s[j]));
    assert(t.update(j, s[i]).to_multiset() =~= s.to_multiset());
}

fn swap_entries(heap: &mut Vec<Point>, i: usize, j: usize)
    requires
        i < old(heap)@.len(),
        j < old(heap)@.len(),
    ensures
        final(heap)@ == old(heap)@.update(i as int, old(heap)@[j as int]).update(
            j as int,
            old(heap)@[i as int],
        ),
        final(heap)@.len() == old(heap)@.len(),
        final(heap)@.to_multiset() == old(heap)@.to_multiset(),
{
    let a = heap[i];
    let b = heap[j];
    heap[i] = b;
    heap[j] = a;
    proof {
        lemma_swap_multiset(old(heap)@, i as int, j as int);
    }
}

fn heap_insert(heap: &mut Vec<Point>, p: Point)
    requires
        heap_ordered(old(heap)@),
    ensures
        heap_ordered(final(heap)@),
        final(heap)@.to_multiset() == old(heap)@.to_multiset().insert(p),
        final(heap)@.len() == old(heap)@.len() + 1,
{
    heap.push(p);
    proof {
        to_multiset_build(old(heap)@, p);
    }
    let mut i: usize = heap.len() - 1;
    while i > 0
        invariant
            i < heap@.len(),
            heap@.len() == old(heap)@.len() + 1,
            heap@.to_multiset() == old(heap)@.to_multiset().insert(p),
            ordered_above(heap@, i as int),
        ensures
            heap_ordered(heap@),
            heap@.len() == old(heap)@.len() + 1,
            heap@.to_multiset() == old(heap)@.to_multiset().insert(p),
        decreases i,
    {
        let parent = (i - 1) / 2;
        if heap[i].is_before(&heap[parent]) {
            let ghost before = heap@;
            swap_entries(heap, i, parent);
            proof {
                assert forall|k: int| 1 <= k < heap@.len() && k != parent implies !(
                #[trigger] heap@[k]).before(heap@[(k - 1) / 2]) by {
                    if k == i {
                    } else if (k - 1) / 2 == i {
                        assert(!before[k].before(before[(i - 1) / 2]));
                    } else if (k - 1) / 2 == parent {
                        assert(!before[k].before(before[(k - 1) / 2]));
                    } else {
                        assert(!before[k].before(before[(k - 1) / 2]));
                    }
                }
                assert forall|k: int|
                    1 <= k < heap@.len() && parent >= 1 && (k - 1) / 2 == parent implies !(
                #[trigger] heap@[k]).before(heap@[(parent - 1) / 2]) by {
                    assert(!before[parent as int].before(before[(parent - 1) / 2]));
                    if k != i {
                        assert(!before[k].before(before[(k - 1) / 2]));
                    }
                }
            }
            i = parent;
        } else {
            break ;
        }
    }
}

fn heap_extract(heap: &mut Vec<Point>) -> (first: Point)
    requires
        heap_ordered(old(heap)@),
        old(heap)@.len() > 0,
    ensures
        heap_ordered(final(heap)@),
        old(heap)@.to_multiset().count(first) > 0,
        forall|q: Point| old(heap)@.to_multiset().count(q) > 0 ==> !q.before(first),
        final(heap)@.to_multiset() == old(heap)@.to_multiset().remove(first),
        final(heap)@.len() == old(heap)@.len() - 1,
{
    let last = heap.len() - 1;
    let first = heap[0];
    proof {
        to_multiset_contains(old(heap)@, first);
        assert(old(heap)@.contains(first));
        assert forall|q: Point| old(heap)@.to_multiset().count(q) > 0 implies !q.before(first) by {
            to_multiset_contains(old(heap)@, q);
            let j = choose|j: int| 0 <= j < old(heap)@.len() && old(heap)@[j] == q;
            lemma_root_first(old(heap)@, j);
        }
    }
    swap_entries(heap, 0, last);
    let ghost swapped = heap@;
    heap.pop();
    proof {
        assert(heap@ =~= swapped.remove(last as int));
        to_multiset_remove(swapped, last as int);
        assert forall|k: int| 1 <= k < heap@.len() && (k - 1) / 2 != 0 implies !(
        #[trigger] heap@[k]).before(heap@[(k - 1) / 2]) by {
            assert(!old(heap)@[k].before(old(heap)@[(k - 1) / 2]));
        }
    }
    let len = heap.len();
    let mut i: usize = 0;
    while i < len / 2
        invariant
            len == heap@.len(),
            len == old(heap)@.len() - 1,
            heap@.to_multiset() == old(heap)@.to_multiset().remove(first),
            ordered_below(heap@, i as int),
        ensures
            heap_ordered(heap@),
            heap@.len() == old(heap)@.len() - 1,
            heap@.to_multiset() == old(heap)@.to_multiset().remove(first),
        decreases len - i,
    {
        let left = 2 * i + 1;
        let right = left + 1;
        let mut least = i;
        if heap[left].is_before(&heap[least]) {
            least = left;
        }
        if right < len && heap[right].is_before(&heap[least]) {
            least = right;
        }
        if least == i {
            proof {
                assert forall|k: int| 1 <= k < heap@.len() implies !(#[trigger] heap@[k]).before(
                    heap@[(k - 1) / 2],
                ) by {
                    if (k - 1) / 2 == i {
                        assert(k == left || k == right);
                    }
                }
            }
            break ;
        }
        let ghost before = heap@;
        swap_entries(heap, i, least);
        proof {
            assert forall|k: int| 1 <= k < heap@.len() && (k - 1) / 2 != least implies !(
            #[trigger] heap@[k]).before(heap@[(k - 1) / 2]) by {
                if k == least {
                } else if (k - 1) / 2 == i {
                    assert(k == left || k == right);
                } else if k == i {
                    assert(!before[least as int].before(before[(i - 1) / 2]));
                } else {
                    assert(!before[k].before(before[(k - 1) / 2]));
                }
            }
            assert forall|k: int|
                1 <= k < heap@.len() && least >= 1 && (k - 1) / 2 == least implies !(
            #[trigger] heap@[k]).before(heap@[(least - 1) / 2]) by {
                assert(!before[k].before(before[(k - 1) / 2]));
            }
        }
        i = least;
    }
    proof {
        if i >= len / 2 {
            assert forall|k: int| 1 <= k < heap@.len() implies !(#[trigger] heap@[k]).before(
                heap@[(k - 1) / 2],
            ) by {
                if (k - 1) / 2 == i {
                    assert(false);
                }
            }
        }
    }
    first
}

/// Queue of points that hands out the lowest point first.
///
/// Points of equal height leave in the order of their columns, then of their
/// rows, so the order in which a queue is emptied depends on its contents alone.
pub struct PointQueue {
    heap: Vec<Point>,
}

impl View for PointQueue {
    type V = Multiset<Point>;

    /// The points waiting in the queue, each as often as it was pushed and not yet popped.
    closed spec fn view(&self) -> Multiset<Point> {
        self.heap@.to_multiset()
    }
}

impl PointQueue {
    #[verifier::type_invariant]
    spec fn inv(self) -> bool {
        heap_ordered(self.heap@)
    }

    /// Whether `p` is the point that leaves a queue holding `content` next.
    pub open spec fn is_first(content: Multiset<Point>, p: Point) -> bool {
        content.count(p) > 0 && forall|q: Point| content.count(q) > 0 ==> !q.before(p)
    }

    /// An empty queue.
    pub fn new() -> (queue: PointQueue)
        ensures
            queue@ == Multiset::<Point>::empty(),
    {
        let queue = PointQueue { heap: Vec::new() };
        proof {
            broadcast use group_multiset_axioms;

            assert(queue.heap@.to_multiset() =~= Multiset::<Point>::empty()) by {
                to_multiset_len(queue.heap@);
                assert forall|q: Point| queue.heap@.to_multiset().count(q) == 0 by {
                    to_multiset_contains(queue.heap@, q);
                }
            }
        }
        queue
    }

    /// Number of points waiting.
    pub fn len(&self) -> (n: usize)
        ensures
            n == self@.len(),
    {
        proof {
            to_multiset_len(self.heap@);
        }
        self.heap.len()
    }

    /// Whether no point is waiting.
    pub fn is_empty(&self) -> (b: bool)
        ensures
            b == (self@.len() == 0),
    {
        proof {
            to_multiset_len(self.heap@);
        }
        self.heap.len() == 0
    }

    /// Adds `p` to the queue.
    pub fn push(&mut self, p: Point)
        ensures
            final(self)@ == old(self)@.insert(p),
            final(self)@.len() == old(self)@.len() + 1,
    {
        proof {
            use_type_invariant(&*self);
            to_multiset_len(self.heap@);
        }
        let mut heap: Vec<Point> = Vec::new();
        core::mem::swap(&mut self.heap, &mut heap);
        heap_insert(&mut heap, p);
        proof {
            to_multiset_len(heap@);
        }
        core::mem::swap(&mut self.heap, &mut heap);
    }

    /// Takes the first point out of the queue, `None` when the queue is empty.
    pub fn pop(&mut self) -> (first: Option<Point>)
        ensures
            match first {
                Some(p) => PointQueue::is_first(old(self)@, p) && final(self)@ == old(self)@.remove(
                    p,
                ) && final(self)@.len() == old(self)@.len() - 1,
                None => old(self)@.len() == 0 && final(self)@ == old(self)@,
            },
    {
        proof {
            use_type_invariant(&*self);
            to_multiset_len(self.heap@);
        }
        if self.heap.len() == 0 {
            None
        } else {
            let mut heap: Vec<Point> = Vec::new();
            core::mem::swap(&mut self.heap, &mut heap);
            let first = heap_extract(&mut heap);
            proof {
                to_multiset_len(heap@);
            }
            core::mem::swap(&mut self.heap, &mut heap);
            Some(first)
        }
    }
}

} // verus!
