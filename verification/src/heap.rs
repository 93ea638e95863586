//! A binary max-heap over `i64` values, stored as an implicit tree in a
//! vector: the children of the element at index `i` sit at `2i + 1` and
//! `2i + 2`.
//!
//! The heap is modeled by the multiset of its elements together with the
//! heap property: every element is at most its parent.  `pop` provably
//! returns a greatest element.

use vstd::prelude::*;
use vstd::pervasive::unreached;

verus! {

/// The index of the parent of the (non-root) element at index `i`.
pub open spec fn parent_index(i: int) -> int {
    (i - 1) / 2
}

/// The max-heap property: every non-root element is at most its parent.
pub open spec fn is_max_heap(s: Seq<i64>) -> bool {
    forall|i: int| 1 <= i < s.len() ==> #[trigger] s[i] <= s[parent_index(i)]
}

/// In a max-heap, the root dominates every element.
pub proof fn lemma_root_dominates(s: Seq<i64>, i: int)
    requires
        is_max_heap(s),
        0 <= i < s.len(),
    ensures
        s[i] <= s[0],
    decreases i,
{
    if i >= 1 {
        assert(0 <= parent_index(i) < i);
        lemma_root_dominates(s, parent_index(i));
    }
}

/// Exchanges two elements of the vector, preserving the multiset.
fn swap_in_vec(arr: &mut Vec<i64>, i: usize, j: usize)
    requires
        i < old(arr)@.len(),
        j < old(arr)@.len(),
    ensures
        final(arr)@ == old(arr)@.update(i as int, old(arr)@[j as int]).update(
            j as int,
            old(arr)@[i as int],
        ),
        final(arr)@.to_multiset() == old(arr)@.to_multiset(),
        final(arr)@.len() == old(arr)@.len(),
{
    let a = arr[i];
    let b = arr[j];
    arr.set(i, b);
    arr.set(j, a);
    proof {
        broadcast use vstd::seq_lib::to_multiset_update;

        let s0 = old(arr)@;
        let s1 = s0.update(i as int, b);
        assert(s0.to_multiset().contains(s0[i as int])) by {
            broadcast use vstd::seq_lib::group_to_multiset_ensures;

            assert(s0.contains(s0[i as int]));
        }
        assert(arr@.to_multiset() =~= s0.to_multiset());
    }
}

/// After swapping the root with the last element and dropping that last
/// element, what remains is the original multiset less the root, and the
/// heap property still holds everywhere except possibly at the new root.
proof fn lemma_removed_root(s0: Seq<i64>, s1: Seq<i64>, s2: Seq<i64>)
    requires
        is_max_heap(s0),
        s0.len() > 0,
        s1 == s0.update(0, s0[s0.len() - 1]).update(s0.len() - 1, s0[0]),
        s1.to_multiset() == s0.to_multiset(),
        s2 == s1.subrange(0, s1.len() - 1),
    ensures
        s2.to_multiset() == s0.to_multiset().remove(s0[0]),
        forall|i: int|
            1 <= i < s2.len() && parent_index(i) > 0 ==> #[trigger] s2[i] <= s2[parent_index(i)],
{
    let n = s0.len() as int;
    assert(s2 =~= s1.remove(n - 1));
    assert(s2.to_multiset() == s1.to_multiset().remove(s1[n - 1])) by {
        broadcast use vstd::seq_lib::group_to_multiset_ensures;

    }
    assert(s1[n - 1] == s0[0]);
    assert forall|i: int|
        1 <= i < s2.len() && parent_index(i) > 0 implies #[trigger] s2[i] <= s2[parent_index(i)] by {
        assert(0 <= parent_index(i) < i);
        assert(s2[i] == s0[i]);
        assert(s2[parent_index(i)] == s0[parent_index(i)]);
    }
}

pub struct Heap {
    heap: Vec<i64>,
}

impl Heap {
    /// The underlying element vector.
    pub closed spec fn view(self) -> Seq<i64> {
        self.heap@
    }

    /// The heap property holds of the stored elements.
    pub closed spec fn well_formed(self) -> bool {
        is_max_heap(self.heap@)
    }

    pub fn new() -> (h: Self)
        ensures
            h.well_formed(),
            h@ == Seq::<i64>::empty(),
    {
        Heap { heap: Vec::new() }
    }

    /// Builds a heap from arbitrary initial contents in place.
    pub fn new_from_vector(init_vals: Vec<i64>) -> (h: Self)
        ensures
            h.well_formed(),
            h@.to_multiset() == init_vals@.to_multiset(),
            h@.len() == init_vals@.len(),
    {
        let mut init_vals = init_vals;
        Self::heapify(&mut init_vals);
        Heap { heap: init_vals }
    }

    pub fn size(&self) -> (r: usize)
        ensures
            r == self@.len(),
    {
        self.heap.len()
    }

    /// Adds an item to the heap.
    pub fn push(&mut self, item: i64)
        requires
            old(self).well_formed(),
            old(self)@.len() < usize::MAX,
        ensures
            final(self).well_formed(),
            final(self)@.to_multiset() == old(self)@.to_multiset().insert(item),
            final(self)@.len() == old(self)@.len() + 1,
    {
        proof {
            broadcast use vstd::seq_lib::group_to_multiset_ensures;

        }
        let new_pos = self.heap.len();
        self.heap.push(item);
        Self::sift_up(&mut self.heap, new_pos);
    }

    /// Removes and returns a greatest element, or `None` when empty.
    #[verifier::rlimit(100)]
    pub fn pop(&mut self) -> (r: Option<i64>)
        requires
            old(self).well_formed(),
        ensures
            final(self).well_formed(),
            old(self)@.len() == 0 ==> r is None && final(self)@ == old(self)@,
            old(self)@.len() > 0 ==> r == Some(old(self)@[0]) && final(self)@.to_multiset() == old(
                self,
            )@.to_multiset().remove(old(self)@[0]) && final(self)@.len() == old(self)@.len() - 1,
            forall|i: int| 0 <= i < old(self)@.len() ==> #[trigger] old(self)@[i] <= old(self)@[0],
    {
        proof {
            if old(self)@.len() > 0 {
                assert forall|i: int| 0 <= i < old(self)@.len() implies #[trigger] old(self)@[i]
                    <= old(self)@[0] by {
                    lemma_root_dominates(old(self)@, i);
                }
            }
        }
        let length = self.heap.len();
        if length > 0 {
            let ghost s0 = self.heap@;
            swap_in_vec(&mut self.heap, 0, length - 1);
            let ghost s1 = self.heap@;
            let ret = self.heap.pop();
            proof {
                lemma_removed_root(s0, s1, self.heap@);
            }
            Self::sift_down(&mut self.heap, 0);
            ret
        } else {
            None
        }
    }

    /// Empties the heap, returning an iterator that yields the removed
    /// elements in descending order.
    pub fn drain_sorted(&mut self) -> (it: HeapOrderedDrainIterator)
        requires
            old(self).well_formed(),
        ensures
            it.well_formed(),
            it@ == old(self)@,
            final(self).well_formed(),
            final(self)@ == Seq::<i64>::empty(),
    {
        let mut contents: Vec<i64> = Vec::new();
        core::mem::swap(&mut self.heap, &mut contents);
        HeapOrderedDrainIterator { heap: Heap { heap: contents } }
    }

    /// Empties the heap, returning its elements in storage order.
    pub fn drain(&mut self) -> (r: Vec<i64>)
        ensures
            r@ == old(self)@,
            final(self).well_formed(),
            final(self)@ == Seq::<i64>::empty(),
    {
        let mut contents: Vec<i64> = Vec::new();
        core::mem::swap(&mut self.heap, &mut contents);
        contents
    }

    /// The stored elements, in storage order.
    pub fn iter(&self) -> (r: &Vec<i64>)
        ensures
            r@ == self@,
    {
        &self.heap
    }

    /// Moves the element at `index` (a leaf) up until its parent
    /// dominates it, restoring the heap property after a `push`.
    fn sift_up(arr: &mut Vec<i64>, index: usize)
        requires
            index < old(arr)@.len(),
            2 * index + 1 >= old(arr)@.len(),
            forall|i: int|
                1 <= i < old(arr)@.len() && i != index ==> #[trigger] old(arr)@[i] <= old(
                    arr,
                )@[parent_index(i)],
        ensures
            is_max_heap(final(arr)@),
            final(arr)@.to_multiset() == old(arr)@.to_multiset(),
            final(arr)@.len() == old(arr)@.len(),
    {
        let mut cur = index;
        let mut swapped = true;
        while swapped
            invariant
                cur < arr@.len(),
                arr@.len() == old(arr)@.len(),
                arr@.to_multiset() == old(arr)@.to_multiset(),
                swapped ==> forall|i: int|
                    1 <= i < arr@.len() && i != cur ==> #[trigger] arr@[i] <= arr@[parent_index(i)],
                swapped && cur >= 1 ==> forall|i: int|
                    1 <= i < arr@.len() && parent_index(i) == cur ==> #[trigger] arr@[i]
                        <= arr@[parent_index(cur as int)],
                !swapped ==> is_max_heap(arr@),
            decreases cur, if swapped {
                1int
            } else {
                0int
            },
        {
            swapped = if let Some(parent) = Self::get_parent(cur) {
                if arr[cur] > arr[parent] {
                    swap_in_vec(arr, cur, parent);
                    proof {
                        assert forall|i: int|
                            1 <= i < arr@.len() && i != parent implies #[trigger] arr@[i]
                            <= arr@[parent_index(i)] by {
                            assert(0 <= parent_index(i) < i);
                            if i == cur {
                            } else if parent_index(i) == cur {
                            } else if parent_index(i) == parent as int {
                            } else {
                            }
                        }
                    }
                    cur = parent;
                    true
                } else {
                    proof {
                        assert(is_max_heap(arr@));
                    }
                    false
                }
            } else {
                proof {
                    assert(cur == 0);
                    assert(is_max_heap(arr@));
                }
                false
            };
        }
    }

    /// Moves the element at `index` down, swapping with its larger child,
    /// until both children are dominated; everything strictly below
    /// `index` must already satisfy the heap property.
    fn sift_down(arr: &mut Vec<i64>, index: usize)
        requires
            forall|i: int|
                1 <= i < old(arr)@.len() && parent_index(i) > index ==> #[trigger] old(arr)@[i]
                    <= old(arr)@[parent_index(i)],
        ensures
            final(arr)@.to_multiset() == old(arr)@.to_multiset(),
            final(arr)@.len() == old(arr)@.len(),
            forall|i: int|
                1 <= i < final(arr)@.len() && parent_index(i) >= index ==> #[trigger] final(arr)@[i]
                    <= final(arr)@[parent_index(i)],
    {
        let mut cur = index;
        let mut swapped = true;
        while swapped
            invariant
                cur >= index,
                arr@.len() == old(arr)@.len(),
                arr@.to_multiset() == old(arr)@.to_multiset(),
                swapped ==> forall|i: int|
                    1 <= i < arr@.len() && parent_index(i) >= index && parent_index(i) != cur
                        ==> #[trigger] arr@[i] <= arr@[parent_index(i)],
                swapped && cur > index ==> parent_index(cur as int) >= index && forall|i: int|
                    1 <= i < arr@.len() && parent_index(i) == cur ==> #[trigger] arr@[i]
                        <= arr@[parent_index(cur as int)],
                !swapped ==> forall|i: int|
                    1 <= i < arr@.len() && parent_index(i) >= index ==> #[trigger] arr@[i]
                        <= arr@[parent_index(i)],
            decreases arr@.len() - cur, if swapped {
                1int
            } else {
                0int
            },
        {
            swapped = match Self::get_children(cur, arr.len()) {
                (Some(l), Some(r)) => {
                    let big = if arr[l] > arr[r] {
                        l
                    } else {
                        r
                    };
                    if arr[big] > arr[cur] {
                        let ghost s0 = arr@;
                        swap_in_vec(arr, big, cur);
                        proof {
                            assert forall|i: int|
                                1 <= i < arr@.len() && parent_index(i) >= index && parent_index(i)
                                    != big implies #[trigger] arr@[i] <= arr@[parent_index(i)] by {
                                assert(0 <= parent_index(i) < i);
                            }
                            assert(parent_index(big as int) == cur);
                            assert forall|i: int|
                                1 <= i < arr@.len() && parent_index(i) == big implies #[trigger] arr@[i]
                                <= arr@[parent_index(big as int)] by {
                                assert(arr@[i] == s0[i]);
                            }
                        }
                        cur = big;
                        true
                    } else {
                        false
                    }
                },
                (Some(l), None) => {
                    if arr[l] > arr[cur] {
                        swap_in_vec(arr, l, cur);
                        proof {
                            assert forall|i: int|
                                1 <= i < arr@.len() && parent_index(i) >= index implies #[trigger] arr@[i]
                                <= arr@[parent_index(i)] by {
                                assert(0 <= parent_index(i) < i);
                                assert(parent_index(l as int) == cur);
                            }
                        }
                        cur = l;
                    }
                    false
                },
                (None, Some(_)) => unreached(),
                (None, None) => false,
            };
        }
    }

    /// The parent index of a heap element, `None` for the root.
    fn get_parent(index: usize) -> (r: Option<usize>)
        ensures
            index == 0 ==> r is None,
            r matches Some(p) ==> index > 0 && p as int == parent_index(index as int),
            index > 0 ==> r is Some,
    {
        if index > 0 {
            Some((index - 1) / 2)
        } else {
            None
        }
    }

    /// The indices of the children of a heap element that lie within the
    /// heap, left then right.
    fn get_children(index: usize, total_size: usize) -> (r: (Option<usize>, Option<usize>))
        ensures
            r.0 is Some <==> 2 * (index as int) + 1 < total_size,
            r.0 matches Some(l) ==> l as int == 2 * (index as int) + 1,
            r.1 is Some <==> 2 * (index as int) + 2 < total_size,
            r.1 matches Some(rc) ==> rc as int == 2 * (index as int) + 2,
    {
        let left = if total_size >= 2 && index <= (total_size - 2) / 2 {
            Some(2 * index + 1)
        } else {
            None
        };
        let right = if total_size >= 3 && index <= (total_size - 3) / 2 {
            Some(2 * index + 2)
        } else {
            None
        };
        (left, right)
    }

    /// Establishes the heap property over arbitrary contents by sifting
    /// down every interior node, last first.
    fn heapify(arr: &mut Vec<i64>)
        ensures
            is_max_heap(final(arr)@),
            final(arr)@.to_multiset() == old(arr)@.to_multiset(),
            final(arr)@.len() == old(arr)@.len(),
    {
        let mut stack: Vec<usize> = Vec::new();
        let mut i: usize = 0;
        while i < arr.len() / 2
            invariant
                i <= arr@.len(),
                stack@.len() == i,
                forall|j: int| 0 <= j < i ==> stack@[j] == j,
            decreases arr@.len() - i,
        {
            stack.push(i);
            i = i + 1;
        }
        while stack.len() > 0
            invariant
                arr@.len() == old(arr)@.len(),
                arr@.to_multiset() == old(arr)@.to_multiset(),
                stack@.len() <= arr@.len(),
                forall|j: int| 0 <= j < stack@.len() ==> stack@[j] == j,
                forall|k: int|
                    1 <= k < arr@.len() && parent_index(k) >= stack@.len() ==> #[trigger] arr@[k]
                        <= arr@[parent_index(k)],
            decreases stack@.len(),
        {
            let cur = match stack.pop() {
                Some(c) => c,
                None => unreached(),
            };
            Self::sift_down(arr, cur);
        }
        proof {
            assert forall|k: int|
                1 <= k < arr@.len() implies #[trigger] arr@[k] <= arr@[parent_index(k)] by {
                assert(parent_index(k) >= 0);
            }
        }
    }
}

/// Yields the elements of a heap in descending order by popping one per
/// call.
pub struct HeapOrderedDrainIterator {
    heap: Heap,
}

impl HeapOrderedDrainIterator {
    /// The elements not yet yielded.
    pub closed spec fn view(self) -> Seq<i64> {
        self.heap@
    }

    /// The remaining elements satisfy the heap property.
    pub closed spec fn well_formed(self) -> bool {
        self.heap.well_formed()
    }

    /// Yields a greatest remaining element, or `None` when exhausted.
    pub fn next(&mut self) -> (r: Option<i64>)
        requires
            old(self).well_formed(),
        ensures
            final(self).well_formed(),
            old(self)@.len() == 0 ==> r is None && final(self)@ == old(self)@,
            old(self)@.len() > 0 ==> r == Some(old(self)@[0]) && final(self)@.to_multiset() == old(
                self,
            )@.to_multiset().remove(old(self)@[0]),
            forall|i: int| 0 <= i < old(self)@.len() ==> #[trigger] old(self)@[i] <= old(self)@[0],
    {
        self.heap.pop()
    }
}

} // verus!
