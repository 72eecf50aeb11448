//! A pool of values with one reference count per slot and a free list.
//!
//! Counting is manual: the pool never looks inside a value, so whoever
//! releases a slot also releases what the value in it pointed at.

use std::collections::HashMap;
use vstd::prelude::*;

verus! {

/// A vector of reference-counted values.
///
/// `values[i]` and `ref_counts[i]` describe slot `i`; `free_list` holds the
/// slots that may be overwritten by the next `insert`.
#[derive(Debug)]
pub struct RefCountedVec<T> {
    pub values: Vec<T>,
    pub ref_counts: Vec<usize>,
    pub free_list: Vec<usize>,
}

/// The capacity that a new pool reserves.
pub const BASE_CAPACITY: usize = 64;

impl<T> RefCountedVec<T> {
    /// Slot `i` is on the free list.
    pub open spec fn is_free(&self, i: int) -> bool {
        exists|k: int| 0 <= k < self.free_list@.len() && #[trigger] self.free_list@[k] == i
    }

    /// Slot `i` exists and is not on the free list.
    pub open spec fn live(&self, i: int) -> bool {
        0 <= i < self.values@.len() && !self.is_free(i)
    }

    /// The pool's invariant: one count per value, and a free list of distinct
    /// slots that exist and have count zero.
    pub open spec fn wf(&self) -> bool {
        &&& self.values@.len() == self.ref_counts@.len()
        &&& forall|k: int|
            0 <= k < self.free_list@.len() ==> (#[trigger] self.free_list@[k]) < self.values@.len()
        &&& forall|k: int|
            0 <= k < self.free_list@.len() ==> self.ref_counts@[(#[trigger] self.free_list@[k]) as int]
                == 0
        &&& forall|j: int, k: int|
            0 <= j < k < self.free_list@.len() ==> #[trigger] self.free_list@[j]
                != #[trigger] self.free_list@[k]
    }

    /// Every slot with count zero is on the free list: nothing is in flight.
    pub open spec fn settled(&self) -> bool {
        forall|i: int|
            0 <= i < self.ref_counts@.len() && #[trigger] self.ref_counts@[i] == 0 ==> self.is_free(i)
    }

    /// An empty pool.
    pub fn new() -> (r: RefCountedVec<T>)
        ensures
            r.wf(),
            r.values@.len() == 0,
            r.ref_counts@.len() == 0,
            r.free_list@.len() == 0,
    {
        RefCountedVec {
            values: Vec::with_capacity(BASE_CAPACITY),
            ref_counts: Vec::with_capacity(BASE_CAPACITY),
            free_list: Vec::with_capacity(BASE_CAPACITY),
        }
    }

    /// The number of slots, free ones included.
    #[inline]
    pub fn len(&self) -> (n: usize)
        ensures
            n == self.values@.len(),
    {
        self.values.len()
    }

    /// The value in slot `index`.
    #[inline]
    pub fn at(&self, index: usize) -> (r: &T)
        requires
            index < self.values@.len(),
        ensures
            *r == self.values@[index as int],
    {
        &self.values[index]
    }

    /// The value in slot `index`, for writing. Counts and free list stay.
    #[inline]
    pub fn at_mut(&mut self, index: usize) -> (r: &mut T)
        requires
            index < old(self).values@.len(),
        ensures
            *r == old(self).values@[index as int],
            final(self).values@ == old(self).values@.update(index as int, *final(r)),
            final(self).ref_counts == old(self).ref_counts,
            final(self).free_list == old(self).free_list,
    {
        &mut self.values[index]
    }

    /// Stores `value` and returns its slot: the slot most recently freed if
    /// there is one, else a new slot at the end with count zero. The slot is off
    /// the free list afterwards; every other slot is as it was.
    #[inline(always)]
    pub fn insert(&mut self, value: T) -> (idx: usize)
        requires
            old(self).wf(),
        ensures
            final(self).wf(),
            old(self).free_list@.len() > 0 ==> {
                &&& idx == old(self).free_list@.last()
                &&& final(self).free_list@ == old(self).free_list@.drop_last()
                &&& final(self).values@ == old(self).values@.update(idx as int, value)
                &&& final(self).ref_counts@ == old(self).ref_counts@
            },
            old(self).free_list@.len() == 0 ==> {
                &&& idx == old(self).values@.len()
                &&& final(self).free_list@ == old(self).free_list@
                &&& final(self).values@ == old(self).values@.push(value)
                &&& final(self).ref_counts@ == old(self).ref_counts@.push(0)
            },
            final(self).live(idx as int),
            !old(self).live(idx as int),
            final(self).ref_counts@[idx as int] == 0,
            forall|i: int| old(self).live(i) ==> final(self).live(i),
            forall|i: int| final(self).live(i) && i != idx ==> old(self).live(i),
    {
        if self.free_list.len() > 0 {
            let free_index = self.free_list.pop().unwrap();
            proof {
                let fl = old(self).free_list@;
                let last = fl.len() - 1;
                assert(fl[last] == free_index);
                assert(old(self).is_free(free_index as int));
                assert forall|i: int| old(self).live(i) implies !self.is_free(i) by {
                    if self.is_free(i) {
                        let k = choose|k: int|
                            0 <= k < self.free_list@.len() && self.free_list@[k] == i;
                        assert(fl[k] == i);
                    }
                }
                assert(!self.is_free(free_index as int)) by {
                    if self.is_free(free_index as int) {
                        let k = choose|k: int|
                            0 <= k < self.free_list@.len() && self.free_list@[k] == free_index;
                        assert(fl[k] == fl[last]);
                    }
                }
                assert forall|i: int|
                    0 <= i < old(self).values@.len() && i != free_index && !self.is_free(
                        i,
                    ) implies !old(self).is_free(i) by {
                    if old(self).is_free(i) {
                        let k = choose|k: int| 0 <= k < fl.len() && fl[k] == i;
                        assert(k != last);
                        assert(self.free_list@[k] == i);
                    }
                }
            }
            self.values[free_index] = value;
            free_index
        } else {
            self.values.push(value);
            self.ref_counts.push(0);
            proof {
                assert(self.free_list@ == old(self).free_list@);
                assert forall|i: int| self.is_free(i) <==> old(self).is_free(i) by {
                    if self.is_free(i) {
                        let k = choose|k: int|
                            0 <= k < self.free_list@.len() && self.free_list@[k] == i;
                        assert(old(self).free_list@[k] == i);
                    }
                    if old(self).is_free(i) {
                        let k = choose|k: int|
                            0 <= k < old(self).free_list@.len() && old(self).free_list@[k] == i;
                        assert(self.free_list@[k] == i);
                    }
                }
                assert(!self.is_free(old(self).values@.len() as int)) by {
                    if self.is_free(old(self).values@.len() as int) {
                        let k = choose|k: int|
                            0 <= k < self.free_list@.len() && self.free_list@[k] == old(self).values@.len();
                        assert(old(self).free_list@[k] < old(self).values@.len());
                    }
                }
            }
            self.values.len() - 1
        }
    }

    /// Adds one to the count of slot `index` and returns the new count.
    #[inline]
    pub fn make_ref(&mut self, index: usize) -> (count: usize)
        requires
            index < old(self).ref_counts@.len(),
            old(self).ref_counts@[index as int] < usize::MAX,
        ensures
            count == old(self).ref_counts@[index as int] + 1,
            final(self).ref_counts@ == old(self).ref_counts@.update(index as int, count),
            final(self).values == old(self).values,
            final(self).free_list == old(self).free_list,
            old(self).wf() && !old(self).is_free(index as int) ==> final(self).wf(),
    {
        let count = self.ref_counts[index] + 1;
        self.ref_counts[index] = count;
        proof {
            if old(self).wf() && !old(self).is_free(index as int) {
                assert forall|k: int| 0 <= k < self.free_list@.len() implies self.ref_counts@[(
                #[trigger] self.free_list@[k]) as int] == 0 by {
                    assert(old(self).free_list@[k] != index);
                }
            }
        }
        count
    }

    /// Takes one from the count of slot `index` and returns the new count. A
    /// slot whose count reaches zero goes onto the free list; what its value
    /// pointed at is the caller's to release.
    #[inline]
    pub fn release_ref(&mut self, index: usize) -> (count: usize)
        requires
            index < old(self).ref_counts@.len(),
            old(self).ref_counts@[index as int] > 0,
        ensures
            count == old(self).ref_counts@[index as int] - 1,
            final(self).ref_counts@ == old(self).ref_counts@.update(index as int, count),
            final(self).values == old(self).values,
            final(self).free_list@ == if count == 0 {
                old(self).free_list@.push(index)
            } else {
                old(self).free_list@
            },
            old(self).wf() ==> final(self).wf(),
    {
        let count = self.ref_counts[index] - 1;
        self.ref_counts[index] = count;
        if count == 0 {
            self.free_list.push(index);
        }
        proof {
            if old(self).wf() {
                let fl = old(self).free_list@;
                assert forall|k: int| 0 <= k < fl.len() implies fl[k] != index by {
                    assert(old(self).ref_counts@[fl[k] as int] == 0);
                }
                assert forall|k: int| 0 <= k < self.free_list@.len() implies self.ref_counts@[(
                #[trigger] self.free_list@[k]) as int] == 0 by {
                    if k < fl.len() {
                        assert(fl[k] != index);
                    }
                }
            }
        }
        count
    }

    /// The place that compaction gives to the slot `i`: where `moved` has an
    /// entry for it, that entry; its own place otherwise.
    pub open spec fn place_of(moved: Map<usize, usize>, i: int) -> int {
        if 0 <= i <= usize::MAX && moved.contains_key(i as usize) {
            moved[i as usize] as int
        } else {
            i
        }
    }

    /// Removes the free slots. Live slots in the tail that is cut off move
    /// into the free slots before it: the last one into the first free slot,
    /// the one before it into the next, and so on. Returns the moves, from old
    /// index to new index, so that whoever refers into the pool can follow
    /// them. Every other live slot keeps its index; values and counts go with
    /// their slots.
    pub fn compact(&mut self) -> (result: HashMap<usize, usize>)
        requires
            old(self).wf(),
        ensures
            final(self).wf(),
            final(self).free_list@.len() == 0,
            final(self).values@.len() + old(self).free_list@.len() == old(self).values@.len(),
            forall|i: int| #[trigger]
                old(self).live(i) ==> {
                    let j = Self::place_of(result@, i);
                    &&& 0 <= j < final(self).values@.len()
                    &&& final(self).values@[j] == old(self).values@[i]
                    &&& final(self).ref_counts@[j] == old(self).ref_counts@[i]
                },
            forall|i: int, k: int|
                old(self).live(i) && old(self).live(k) && i != k ==> Self::place_of(result@, i)
                    != Self::place_of(result@, k),
            forall|i: usize| #[trigger]
                result@.contains_key(i) <==> old(self).live(i as int) && i >= final(self).values@.len(),
            forall|i: usize| #[trigger]
                result@.contains_key(i) ==> old(self).is_free(result@[i] as int),
            forall|i: usize, k: usize|
                result@.contains_key(i) && result@.contains_key(k) && i < k ==> result@[i]
                    > result@[k],
    {
        broadcast use vstd::std_specs::hash::group_hash_axioms;

        let mut result: HashMap<usize, usize> = HashMap::new();
        if self.free_list.len() == 0 {
            return result;
        }
        let ghost before = old(self).free_list@;
        sort_indices(&mut self.free_list);
        let ghost holes = self.free_list@;
        let ghost n0 = self.values@.len();
        proof {
            lemma_sorted_holes(before, holes);
            assert forall|k: int| 0 <= k < holes.len() implies (#[trigger] holes[k]) < n0 by {
                assert(holes.contains(holes[k]));
                assert(before.contains(holes[k]));
                let m = choose|m: int| 0 <= m < before.len() && before[m] == holes[k];
                assert(before[m] < n0);
            }
            assert forall|i: int| old(self).is_free(i) <==> 0 <= i <= usize::MAX && holes.contains(
                i as usize,
            ) by {
                if old(self).is_free(i) {
                    let k = choose|k: int| 0 <= k < before.len() && before[k] == i;
                    assert(before.contains(before[k]));
                }
                if 0 <= i <= usize::MAX && holes.contains(i as usize) {
                    assert(before.contains(i as usize));
                    let m = choose|m: int| 0 <= m < before.len() && before[m] == i as usize;
                    assert(before[m] == i);
                }
            }
            assert(self.values.len() == self.values@.len());
        }
        let mut holes_b: usize = 0;
        let mut holes_e: usize = self.free_list.len();
        // while there are holes that are neither filled nor cut off
        while holes_b != holes_e
            invariant
                0 <= holes_b <= holes_e <= holes.len(),
                holes == self.free_list@,
                n0 == old(self).values@.len(),
                n0 <= usize::MAX,
                old(self).values@.len() == old(self).ref_counts@.len(),
                forall|i: int|
                    old(self).is_free(i) <==> 0 <= i <= usize::MAX && holes.contains(i as usize),
                forall|j: int, k: int| 0 <= j < k < holes.len() ==> holes[j] < holes[k],
                forall|k: int| 0 <= k < holes.len() ==> (#[trigger] holes[k]) < n0,
                self.values@.len() == self.ref_counts@.len(),
                self.values@.len() + (holes.len() - holes_e) + holes_b == n0,
                // the holes that are left lie below the cut, those cut off above it
                forall|k: int| holes_b <= k < holes_e ==> (#[trigger] holes[k]) < self.values@.len(),
                forall|k: int|
                    holes_e <= k < holes.len() ==> (#[trigger] holes[k]) >= self.values@.len(),
                holes_b > 0 ==> holes[holes_b - 1] < self.values@.len(),
                // live slots below the cut are in place, those above it have moved
                forall|i: int|
                    0 <= i < self.values@.len() && #[trigger] old(self).live(i) ==> self.values@[i]
                        == old(self).values@[i] && self.ref_counts@[i] == old(self).ref_counts@[i],
                forall|i: usize| #[trigger]
                    result@.contains_key(i) <==> old(self).live(i as int) && i
                        >= self.values@.len(),
                forall|i: usize| #[trigger]
                    result@.contains_key(i) ==> {
                        &&& holes_b > 0
                        &&& result@[i] <= holes[holes_b - 1]
                        &&& holes.contains(result@[i])
                        &&& self.values@[result@[i] as int] == old(self).values@[i as int]
                        &&& self.ref_counts@[result@[i] as int] == old(self).ref_counts@[i as int]
                    },
                forall|i: usize, k: usize|
                    result@.contains_key(i) && result@.contains_key(k) && i < k ==> result@[i]
                        > result@[k],
            decreases holes_e - holes_b,
        {
            let values_i = self.values.len() - 1;
            let ghost cur_values = self.values@;
            let ghost cur_counts = self.ref_counts@;
            let ghost cur_result = result@;
            assert(holes[holes_e - 1] < self.values@.len());
            if self.free_list[holes_e - 1] == values_i {
                // the last slot is a hole: the last of those that are left
                holes_e -= 1;
                self.values.pop();
                self.ref_counts.pop();
                proof {
                    assert(holes.contains(holes[holes_e as int]));
                    assert(!old(self).live(values_i as int));
                    if holes_b > 0 {
                        assert(holes[holes_b - 1] < holes[holes_e as int]);
                    }
                    assert forall|k: int| holes_b <= k < holes_e implies (#[trigger] holes[k])
                        < self.values@.len() by {
                        assert(holes[k] < holes[holes_e as int]);
                    }
                    assert forall|i: usize| #[trigger] result@.contains_key(i) implies {
                        &&& holes_b > 0
                        &&& result@[i] <= holes[holes_b - 1]
                        &&& holes.contains(result@[i])
                        &&& self.values@[result@[i] as int] == old(self).values@[i as int]
                        &&& self.ref_counts@[result@[i] as int] == old(self).ref_counts@[i as int]
                    } by {
                        assert(cur_result.contains_key(i));
                        assert(holes[holes_b - 1] < holes[holes_e as int]);
                    }
                }
            } else {
                // fill the first hole that is left with the last slot
                let hole = self.free_list[holes_b];
                proof {
                    assert(holes[holes_b as int] <= holes[holes_e - 1]);
                    assert(hole < values_i);
                    assert(old(self).live(values_i as int)) by {
                        if old(self).is_free(values_i as int) {
                            let k = choose|k: int| 0 <= k < holes.len() && holes[k] == values_i;
                            if k < holes_e - 1 {
                                assert(holes[k] < holes[holes_e - 1]);
                            } else if k >= holes_e {
                                assert(holes[k] >= self.values@.len());
                            }
                        }
                    }
                    assert(holes.contains(holes[holes_b as int]));
                }
                let value = self.values.pop().unwrap();
                let count = self.ref_counts.pop().unwrap();
                self.values[hole] = value;
                self.ref_counts[hole] = count;
                result.insert(values_i, hole);
                holes_b += 1;
                proof {
                    assert(!old(self).live(hole as int));
                    assert forall|k: int| holes_b <= k < holes_e implies (#[trigger] holes[k])
                        < self.values@.len() by {
                        if k < holes_e - 1 {
                            assert(holes[k] < holes[holes_e - 1]);
                        }
                    }
                    assert forall|i: usize| #[trigger] result@.contains_key(i) implies {
                        &&& holes_b > 0
                        &&& result@[i] <= holes[holes_b - 1]
                        &&& holes.contains(result@[i])
                        &&& self.values@[result@[i] as int] == old(self).values@[i as int]
                        &&& self.ref_counts@[result@[i] as int] == old(self).ref_counts@[i as int]
                    } by {
                        if i != values_i {
                            assert(cur_result.contains_key(i));
                            assert(holes[holes_b - 2] < holes[holes_b - 1]);
                        }
                    }
                    assert forall|i: usize, k: usize|
                        result@.contains_key(i) && result@.contains_key(k) && i < k implies result@[i]
                        > result@[k] by {
                        if k == values_i {
                            assert(cur_result.contains_key(i));
                        } else if i == values_i {
                            assert(cur_result.contains_key(k));
                            assert(holes[holes_b - 2] < holes[holes_b - 1]);
                        } else {
                            assert(cur_result.contains_key(i));
                            assert(cur_result.contains_key(k));
                        }
                    }
                }
            }
        }
        self.free_list.clear();
        proof {
            assert forall|i: int| #[trigger] old(self).live(i) implies {
                let j = Self::place_of(result@, i);
                &&& 0 <= j < self.values@.len()
                &&& self.values@[j] == old(self).values@[i]
                &&& self.ref_counts@[j] == old(self).ref_counts@[i]
            } by {
                if i >= self.values@.len() {
                    let iu = i as usize;
                    assert(result@.contains_key(iu));
                    if holes_b < holes.len() {
                        assert(holes[holes_b - 1] < holes[holes_b as int]);
                    }
                } else {
                    assert(!result@.contains_key(i as usize));
                }
            }
            assert forall|i: usize| #[trigger] result@.contains_key(i) implies old(self).is_free(
                result@[i] as int,
            ) by {}
            assert forall|i: int, k: int|
                old(self).live(i) && old(self).live(k) && i != k implies Self::place_of(result@, i)
                != Self::place_of(result@, k) by {
                let iu = i as usize;
                let ku = k as usize;
                if result@.contains_key(iu) && result@.contains_key(ku) {
                } else if result@.contains_key(iu) {
                    assert(old(self).is_free(result@[iu] as int));
                } else if result@.contains_key(ku) {
                    assert(old(self).is_free(result@[ku] as int));
                }
            }
        }
        result
    }

    /// Appends the slots of `other`, values copied with `clone`, counts as they
    /// are, and the free list with every index raised by the number of slots
    /// that `self` had. Whatever refers into `other` refers to the same slot of
    /// `self` after adding that number.
    pub fn extend_from_array(&mut self, other: &RefCountedVec<T>) where T: Clone
        requires
            old(self).wf(),
            other.wf(),
        ensures
            final(self).wf(),
            final(self).values@.len() == old(self).values@.len() + other.values@.len(),
            forall|i: int|
                0 <= i < old(self).values@.len() ==> #[trigger] final(self).values@[i]
                    == old(self).values@[i],
            forall|i: int|
                0 <= i < other.values@.len() ==> cloned::<T>(
                    #[trigger] other.values@[i],
                    final(self).values@[old(self).values@.len() + i],
                ),
            final(self).ref_counts@ == old(self).ref_counts@ + other.ref_counts@,
            final(self).free_list@ == old(self).free_list@ + other.free_list@.map_values(
                |v: usize| (v + old(self).values@.len()) as usize,
            ),
    {
        let offset = self.values.len();
        self.values.extend_from_slice(other.values.as_slice());
        self.ref_counts.extend_from_slice(other.ref_counts.as_slice());
        proof {
            assert(self.ref_counts@ =~= old(self).ref_counts@ + other.ref_counts@);
        }
        self.append_free(other, offset);
    }

    /// Appends the slots of `other`, each value made from the one in `other`
    /// by `f`, counts as they are, and the free list with every index raised
    /// by the number of slots that `self` had.
    pub fn extend<F: Fn(&T) -> T>(&mut self, other: &RefCountedVec<T>, f: F) where T: Clone
        requires
            old(self).wf(),
            other.wf(),
            forall|i: int| 0 <= i < other.values@.len() ==> f.requires((&#[trigger] other.values@[i],)),
        ensures
            final(self).wf(),
            final(self).values@.len() == old(self).values@.len() + other.values@.len(),
            forall|i: int|
                0 <= i < old(self).values@.len() ==> #[trigger] final(self).values@[i]
                    == old(self).values@[i],
            forall|i: int|
                0 <= i < other.values@.len() ==> f.ensures(
                    (&#[trigger] other.values@[i],),
                    final(self).values@[old(self).values@.len() + i],
                ),
            final(self).ref_counts@ == old(self).ref_counts@ + other.ref_counts@,
            final(self).free_list@ == old(self).free_list@ + other.free_list@.map_values(
                |v: usize| (v + old(self).values@.len()) as usize,
            ),
    {
        let offset = self.values.len();
        let n = other.values.len();
        let mut i: usize = 0;
        while i < n
            invariant
                0 <= i <= n,
                n == other.values@.len(),
                offset == old(self).values@.len(),
                self.values@.len() == offset + i,
                self.ref_counts@ == old(self).ref_counts@,
                self.free_list@ == old(self).free_list@,
                forall|k: int| 0 <= k < n ==> f.requires((&#[trigger] other.values@[k],)),
                forall|k: int| 0 <= k < offset ==> #[trigger] self.values@[k] == old(self).values@[k],
                forall|k: int|
                    0 <= k < i ==> f.ensures((&#[trigger] other.values@[k],), self.values@[offset + k]),
            decreases n - i,
        {
            let v = f(&other.values[i]);
            self.values.push(v);
            i = i + 1;
        }
        self.ref_counts.extend_from_slice(other.ref_counts.as_slice());
        proof {
            assert(self.ref_counts@ =~= old(self).ref_counts@ + other.ref_counts@);
        }
        self.append_free(other, offset);
    }

    /// Appends the free list of `other`, every index raised by `offset`, to
    /// the free list of `self`, whose slots from `offset` on are those of
    /// `other`.
    fn append_free(&mut self, other: &RefCountedVec<T>, offset: usize)
        requires
            other.wf(),
            old(self).values@.len() == offset + other.values@.len(),
            old(self).ref_counts@.len() == old(self).values@.len(),
            forall|k: int|
                0 <= k < other.ref_counts@.len() ==> old(self).ref_counts@[offset + k]
                    == #[trigger] other.ref_counts@[k],
            forall|k: int|
                0 <= k < old(self).free_list@.len() ==> (#[trigger] old(self).free_list@[k])
                    < offset && old(self).ref_counts@[old(self).free_list@[k] as int] == 0,
            forall|j: int, k: int|
                0 <= j < k < old(self).free_list@.len() ==> #[trigger] old(self).free_list@[j]
                    != #[trigger] old(self).free_list@[k],
        ensures
            final(self).wf(),
            final(self).values == old(self).values,
            final(self).ref_counts == old(self).ref_counts,
            final(self).free_list@ == old(self).free_list@ + other.free_list@.map_values(
                |v: usize| (v + offset) as usize,
            ),
    {
        let m = other.free_list.len();
        let ghost shifted = other.free_list@.map_values(|v: usize| (v + offset) as usize);
        let mut k: usize = 0;
        proof {
            assert(self.free_list@ =~= old(self).free_list@ + shifted.take(0));
            assert(self.values.len() == self.values@.len());
        }
        while k < m
            invariant
                0 <= k <= m,
                m == other.free_list@.len(),
                other.wf(),
                self.values == old(self).values,
                self.ref_counts == old(self).ref_counts,
                self.values@.len() == offset + other.values@.len(),
                self.values@.len() <= usize::MAX,
                shifted == other.free_list@.map_values(|v: usize| (v + offset) as usize),
                self.free_list@ == old(self).free_list@ + shifted.take(k as int),
            decreases m - k,
        {
            let val = other.free_list[k];
            assert(val < other.values@.len());
            self.free_list.push(val + offset);
            proof {
                assert(shifted[k as int] == val + offset);
                assert(shifted.take(k + 1) =~= shifted.take(k as int).push(shifted[k as int]));
                assert(self.free_list@ =~= old(self).free_list@ + shifted.take(k + 1));
            }
            k = k + 1;
        }
        proof {
            assert(shifted.take(m as int) =~= shifted);
            let fl = self.free_list@;
            let ol = old(self).free_list@.len() as int;
            assert forall|j: int| 0 <= j < fl.len() implies (#[trigger] fl[j]) < self.values@.len()
                && self.ref_counts@[fl[j] as int] == 0 by {
                if j >= ol {
                    assert(fl[j] == shifted[j - ol]);
                    assert(other.free_list@[j - ol] < other.values@.len());
                    assert(other.ref_counts@[other.free_list@[j - ol] as int] == 0);
                } else {
                    assert(fl[j] == old(self).free_list@[j]);
                }
            }
            assert forall|i: int, j: int| 0 <= i < j < fl.len() implies #[trigger] fl[i]
                != #[trigger] fl[j] by {
                if i >= ol {
                    assert(fl[i] == shifted[i - ol]);
                    assert(fl[j] == shifted[j - ol]);
                    assert(other.free_list@[i - ol] != other.free_list@[j - ol]);
                } else if j >= ol {
                    assert(fl[i] == old(self).free_list@[i]);
                    assert(fl[j] == shifted[j - ol]);
                } else {
                    assert(fl[i] == old(self).free_list@[i]);
                    assert(fl[j] == old(self).free_list@[j]);
                }
            }
        }
    }
}

/// Whether no two neighbours in `v` are equal: in a sorted list, whether no
/// element occurs twice.
pub fn sorted_array_has_no_duplicates(v: &Vec<usize>) -> (b: bool)
    ensures
        b == forall|i: int| 0 <= i < v@.len() - 1 ==> #[trigger] v@[i] != v@[i + 1],
        (forall|i: int, j: int| 0 <= i <= j < v@.len() ==> v@[i] <= v@[j]) ==> b
            == v@.no_duplicates(),
{
    if v.len() <= 1 {
        return true;
    }
    let mut i: usize = 0;
    while i < v.len() - 1
        invariant
            v@.len() > 1,
            0 <= i <= v@.len() - 1,
            forall|k: int| 0 <= k < i ==> #[trigger] v@[k] != v@[k + 1],
        decreases v@.len() - i,
    {
        if v[i] == v[i + 1] {
            return false;
        }
        i = i + 1;
    }
    proof {
        if forall|i: int, j: int| 0 <= i <= j < v@.len() ==> v@[i] <= v@[j] {
            assert forall|i: int, j: int| 0 <= i < j < v@.len() implies v@[i] != v@[j] by {
                assert(v@[i] != v@[i + 1]);
                assert(v@[i] <= v@[i + 1]);
                assert(v@[i + 1] <= v@[j]);
            }
        }
    }
    true
}

/// Sorts `v` in ascending order with `sort` of the standard library's
/// slices. Not verified: the contract states what that sort is documented to
/// do, which is that the result holds the same elements, each as often as
/// before, in ascending order.
#[verifier::external_body]
fn sort_indices(v: &mut Vec<usize>)
    ensures
        final(v)@.to_multiset() == old(v)@.to_multiset(),
        forall|i: int, j: int| 0 <= i <= j < final(v)@.len() ==> final(v)@[i] <= final(v)@[j],
{
    v.sort()
}

/// A list of distinct indices, sorted, holds the same indices and is strictly
/// ascending.
pub proof fn lemma_sorted_holes(before: Seq<usize>, sorted: Seq<usize>)
    requires
        forall|j: int, k: int| 0 <= j < k < before.len() ==> before[j] != before[k],
        sorted.to_multiset() == before.to_multiset(),
        forall|i: int, j: int| 0 <= i <= j < sorted.len() ==> sorted[i] <= sorted[j],
    ensures
        sorted.len() == before.len(),
        forall|x: usize| before.contains(x) <==> sorted.contains(x),
        forall|j: int, k: int| 0 <= j < k < sorted.len() ==> sorted[j] < sorted[k],
{
    broadcast use vstd::seq_lib::to_multiset_contains;

    vstd::seq_lib::to_multiset_len(before);
    vstd::seq_lib::to_multiset_len(sorted);
    assert(before.no_duplicates());
    before.lemma_multiset_has_no_duplicates();
    sorted.lemma_multiset_has_no_duplicates_conv();
    assert forall|x: usize| before.contains(x) <==> sorted.contains(x) by {
        vstd::seq_lib::to_multiset_contains(before, x);
        vstd::seq_lib::to_multiset_contains(sorted, x);
        assert(before.to_multiset().count(x) == sorted.to_multiset().count(x));
    }
    assert forall|j: int, k: int| 0 <= j < k < sorted.len() implies sorted[j] < sorted[k] by {
        assert(sorted[j] != sorted[k]);
    }
}

/// A copy of a pool keeps the counts: it is meant to be used together with
/// copies of everything that refers into the pool.
impl<T: Clone> Clone for RefCountedVec<T> {
    fn clone(&self) -> (r: RefCountedVec<T>)
        ensures
            r.ref_counts@ == self.ref_counts@,
            r.free_list@ == self.free_list@,
            r.values@.len() == self.values@.len(),
            forall|i: int|
                0 <= i < self.values@.len() ==> cloned::<T>(
                    #[trigger] self.values@[i],
                    r.values@[i],
                ),
    {
        let values = self.values.clone();
        let ref_counts = self.ref_counts.clone();
        let free_list = self.free_list.clone();
        assert(ref_counts@ =~= self.ref_counts@);
        assert(free_list@ =~= self.free_list@);
        RefCountedVec { values, ref_counts, free_list }
    }
}

} // verus!
