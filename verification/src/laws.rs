//! Laws of the cube: what holds across operations, whatever the data.

use crate::cube::{fold_points, lemma_identity_right, lemma_swap_last, single_from, Cube, Monoid};
use crate::naivecube::Naivecube;
use crate::nanocube::{Nanocube, NodePointerType, Referrer};
use vstd::arithmetic::power2::pow2;
use vstd::prelude::*;

verus! {

/// What a list of points answers is what the list without one of its points
/// answers, combined with the contribution of that point.
pub proof fn lemma_fold_remove<S: Monoid>(
    points: Seq<(Seq<usize>, S)>,
    k: int,
    bounds: Seq<(usize, usize)>,
)
    requires
        0 <= k < points.len(),
    ensures
        fold_points(points, bounds) == fold_points(points.remove(k), bounds).combine(
            single_from(points[k].1, points[k].0, bounds, 0),
        ),
    decreases points.len(),
{
    let last = points.last();
    let v_last = single_from(last.1, last.0, bounds, 0);
    let v_k = single_from(points[k].1, points[k].0, bounds, 0);
    if k == points.len() - 1 {
        assert(points.remove(k) =~= points.drop_last());
    } else {
        let shorter = points.drop_last();
        lemma_fold_remove(shorter, k, bounds);
        assert(points.remove(k).drop_last() =~= shorter.remove(k));
        assert(points.remove(k).last() == last);
        assert(shorter[k] == points[k]);
        // (rest + v_k) + v_last == (rest + v_last) + v_k
        lemma_swap_last(fold_points(shorter.remove(k), bounds), v_k, v_last);
    }
}

/// The order of the points does not matter: two lists that hold the same
/// points, each as often, answer every query alike.
pub proof fn lemma_fold_permutation<S: Monoid>(
    first: Seq<(Seq<usize>, S)>,
    second: Seq<(Seq<usize>, S)>,
    bounds: Seq<(usize, usize)>,
)
    requires
        first.to_multiset() == second.to_multiset(),
    ensures
        fold_points(first, bounds) == fold_points(second, bounds),
    decreases first.len(),
{
    vstd::seq_lib::to_multiset_len(first);
    vstd::seq_lib::to_multiset_len(second);
    if first.len() > 0 {
        let e = first.last();
        vstd::seq_lib::to_multiset_contains(first, e);
        vstd::seq_lib::to_multiset_contains(second, e);
        assert(first.contains(e)) by {
            assert(first[first.len() - 1] == e);
        }
        let k = choose|k: int| 0 <= k < second.len() && second[k] == e;
        vstd::seq_lib::to_multiset_remove(first, first.len() - 1);
        vstd::seq_lib::to_multiset_remove(second, k);
        assert(first.remove(first.len() - 1) =~= first.drop_last());
        lemma_fold_permutation(first.drop_last(), second.remove(k), bounds);
        lemma_fold_remove(second, k, bounds);
    }
}

/// What two lists of points answer together is the combination of what each
/// answers.
pub proof fn lemma_fold_concat<S: Monoid>(
    first: Seq<(Seq<usize>, S)>,
    second: Seq<(Seq<usize>, S)>,
    bounds: Seq<(usize, usize)>,
)
    ensures
        fold_points(first + second, bounds) == fold_points(first, bounds).combine(
            fold_points(second, bounds),
        ),
    decreases second.len(),
{
    if second.len() == 0 {
        assert(first + second =~= first);
        lemma_identity_right(fold_points(first, bounds));
    } else {
        let last = second.last();
        assert((first + second).drop_last() =~= first + second.drop_last());
        assert((first + second).last() == last);
        lemma_fold_concat(first, second.drop_last(), bounds);
        S::lemma_associative(
            fold_points(first, bounds),
            fold_points(second.drop_last(), bounds),
            single_from(last.1, last.0, bounds, 0),
        );
    }
}

/// Building in parts: if `whole` holds the points of `first` and `second`
/// together, in any order, then what `whole` answers is the combination of
/// what `first` and `second` answer.
pub proof fn lemma_fold_parts<S: Monoid>(
    whole: Seq<(Seq<usize>, S)>,
    first: Seq<(Seq<usize>, S)>,
    second: Seq<(Seq<usize>, S)>,
    bounds: Seq<(usize, usize)>,
)
    requires
        whole.to_multiset() == (first + second).to_multiset(),
    ensures
        fold_points(whole, bounds) == fold_points(first, bounds).combine(
            fold_points(second, bounds),
        ),
{
    lemma_fold_permutation(whole, first + second, bounds);
    lemma_fold_concat(first, second, bounds);
}

impl<Summary: Monoid> Nanocube<Summary> {
    /// The cube answers every query on a box of its dimensions as the list
    /// `points` does.
    pub open spec fn holds_points(&self, points: Seq<(Seq<usize>, Summary)>) -> bool {
        forall|q: Seq<(usize, usize)>|
            q.len() == self.ndims() ==> #[trigger] self.answer_to(q) == fold_points(points, q)
    }

    /// A cube that answers as a list of points does, and to which one more
    /// point was added, answers as the list with that point at its end.
    pub proof fn lemma_add_holds(
        &self,
        before: &Self,
        points: Seq<(Seq<usize>, Summary)>,
        summary: Summary,
        address: Seq<usize>,
    )
        requires
            before.holds_points(points),
            self.ndims() == before.ndims(),
            forall|q: Seq<(usize, usize)>|
                q.len() == before.ndims() ==> #[trigger] self.answer_to(q) == before.answer_to(
                    q,
                ).combine(single_from(summary, address, q, 0)),
        ensures
            self.holds_points(points.push((address, summary))),
    {
        let longer = points.push((address, summary));
        assert forall|q: Seq<(usize, usize)>| q.len() == self.ndims() implies #[trigger]
            self.answer_to(q) == fold_points(longer, q) by {
            assert(longer.drop_last() =~= points);
            assert(before.answer_to(q) == fold_points(points, q));
        }
    }

    /// The order of insertion does not matter: cubes that hold the same
    /// points, each as often, answer every query alike.
    pub proof fn lemma_order_free(
        &self,
        other: &Self,
        mine: Seq<(Seq<usize>, Summary)>,
        theirs: Seq<(Seq<usize>, Summary)>,
        q: Seq<(usize, usize)>,
    )
        requires
            self.holds_points(mine),
            other.holds_points(theirs),
            mine.to_multiset() == theirs.to_multiset(),
            q.len() == self.ndims(),
            q.len() == other.ndims(),
        ensures
            self.answer_to(q) == other.answer_to(q),
    {
        lemma_fold_permutation(mine, theirs, q);
    }

    /// Building in parts: a cube that answers with the combination of what
    /// two cubes answer, each of which holds a part of the points, holds all
    /// of them.
    pub proof fn lemma_parts_hold(
        &self,
        first: &Self,
        second: &Self,
        whole: Seq<(Seq<usize>, Summary)>,
        first_points: Seq<(Seq<usize>, Summary)>,
        second_points: Seq<(Seq<usize>, Summary)>,
    )
        requires
            first.holds_points(first_points),
            second.holds_points(second_points),
            self.ndims() == first.ndims(),
            self.ndims() == second.ndims(),
            whole.to_multiset() == (first_points + second_points).to_multiset(),
            forall|q: Seq<(usize, usize)>| #[trigger]
                self.answer_to(q) == first.answer_to(q).combine(second.answer_to(q)),
        ensures
            self.holds_points(whole),
    {
        assert forall|q: Seq<(usize, usize)>| q.len() == self.ndims() implies #[trigger]
            self.answer_to(q) == fold_points(whole, q) by {
            lemma_fold_parts(whole, first_points, second_points, q);
            assert(first.answer_to(q) == fold_points(first_points, q));
            assert(second.answer_to(q) == fold_points(second_points, q));
        }
    }

    /// Slot `(td, ti)` lies in the part of the cube under `p`, a pointer at
    /// level `d` and height `h`.
    pub open spec fn reaches(&self, d: int, h: nat, p: NodePointerType, td: int, ti: int) -> bool
        decreases self.ndims() - d, h,
    {
        if p is None || d < 0 || d > self.ndims() {
            false
        } else if d == td && p.unwrap() == ti {
            true
        } else if d == self.ndims() {
            false
        } else {
            let n = self.node(d, p.unwrap() as int);
            ||| self.reaches(d + 1, self.width(d + 1), n.next, td, ti)
            ||| h > 0 && self.reaches(d, (h - 1) as nat, n.left, td, ti)
            ||| h > 0 && self.reaches(d, (h - 1) as nat, n.right, td, ti)
        }
    }

    /// A slot that something refers to has a count above zero.
    pub proof fn lemma_referred_counted(&self, r: Referrer, d: int, i: int)
        requires
            self.inv(),
            0 <= d <= self.ndims(),
            0 <= i < self.pool_len(d),
            self.refers(r, d, i),
        ensures
            self.count_at(d, i) > 0,
    {
        assert(self.referrers(d, i).finite());
        assert(self.referrers(d, i).contains(r));
        assert(self.referrers(d, i).len() > 0) by {
            if self.referrers(d, i).len() == 0 {
                assert(self.referrers(d, i) =~= Set::<Referrer>::empty());
            }
        }
    }

    /// Every slot of a well-formed part of the cube is live and, if the
    /// head of the part has a count above zero, has a count above zero.
    pub proof fn lemma_part_counted(&self, d: int, h: nat, p: NodePointerType, td: int, ti: int)
        requires
            self.inv(),
            self.wf_ptr(d, h, p),
            self.reaches(d, h, p, td, ti),
            self.count_at(d, p.unwrap() as int) > 0,
        ensures
            self.slot_live(td, ti),
            self.count_at(td, ti) > 0,
        decreases self.ndims() - d, h,
    {
        let x = p.unwrap() as int;
        if d == td && x == ti {
            if d < self.ndims() {
                assert(self.slot_live(d, x));
            }
        } else {
            let n = self.node(d, x);
            assert(self.slot_live(d, x));
            assert(self.ptr_live(d, n.left));
            assert(self.ptr_live(d, n.right));
            assert(self.ptr_live(d + 1, n.next));
            if self.reaches(d + 1, self.width(d + 1), n.next, td, ti) {
                self.lemma_referred_counted(
                    Referrer::Next { dim: d, slot: x },
                    d + 1,
                    n.next.unwrap() as int,
                );
                self.lemma_part_counted(d + 1, self.width(d + 1), n.next, td, ti);
            } else if self.reaches(d, (h - 1) as nat, n.left, td, ti) {
                self.lemma_referred_counted(
                    Referrer::Left { dim: d, slot: x },
                    d,
                    n.left.unwrap() as int,
                );
                self.lemma_part_counted(d, (h - 1) as nat, n.left, td, ti);
            } else {
                assert(self.reaches(d, (h - 1) as nat, n.right, td, ti));
                self.lemma_referred_counted(
                    Referrer::Right { dim: d, slot: x },
                    d,
                    n.right.unwrap() as int,
                );
                self.lemma_part_counted(d, (h - 1) as nat, n.right, td, ti);
            }
        }
    }

    /// Every slot that can be reached from the root is live and has a count
    /// above zero.
    pub proof fn lemma_reachable_counted(&self, td: int, ti: int)
        requires
            self.inv(),
            self.reaches(0, self.width(0), self.base_root, td, ti),
        ensures
            self.slot_live(td, ti),
            self.count_at(td, ti) > 0,
    {
        let x = self.base_root.unwrap() as int;
        assert(self.slot_live(0, x));
        self.lemma_referred_counted(Referrer::Root, 0, x);
        self.lemma_part_counted(0, self.width(0), self.base_root, td, ti);
    }

    /// What can be reached from a part that can be reached can be reached.
    pub proof fn lemma_reaches_trans(
        &self,
        d: int,
        h: nat,
        p: NodePointerType,
        dm: int,
        hm: nat,
        m: int,
        td: int,
        ti: int,
    )
        requires
            0 <= m <= usize::MAX,
            self.wf_ptr(d, h, p),
            self.reaches(d, h, p, dm, m),
            dm < self.ndims() ==> self.wf_node(dm, hm, m),
            self.reaches(dm, hm, Some(m as usize), td, ti),
        ensures
            self.reaches(d, h, p, td, ti),
        decreases self.ndims() - d, h,
    {
        let x = p.unwrap() as int;
        if d == dm && x == m {
            if dm < self.ndims() {
                self.lemma_height_unique(d, h, hm, m);
            }
        } else {
            let n = self.node(d, x);
            let w1 = self.width(d + 1);
            if self.reaches(d + 1, w1, n.next, dm, m) {
                self.lemma_reaches_trans(d + 1, w1, n.next, dm, hm, m, td, ti);
            } else if self.reaches(d, (h - 1) as nat, n.left, dm, m) {
                self.lemma_reaches_trans(d, (h - 1) as nat, n.left, dm, hm, m, td, ti);
            } else {
                assert(self.reaches(d, (h - 1) as nat, n.right, dm, m));
                self.lemma_reaches_trans(d, (h - 1) as nat, n.right, dm, hm, m, td, ti);
            }
        }
    }

    /// In a ranked, balanced and settled cube with an empty release queue
    /// and no count at the largest value, every live slot can be reached from
    /// the root.
    pub proof fn lemma_live_reached_at(&self, d: int, h: nat, i: int)
        requires
            self.inv(),
            self.ranked(),
            self.balanced(),
            self.settled(),
            self.unsaturated(),
            self.pending().len() == 0,
            0 <= d <= self.ndims(),
            self.slot_live(d, i),
            d < self.ndims() ==> h <= self.width(d) && self.wf_node(d, h, i),
        ensures
            self.reaches(0, self.width(0), self.base_root, d, i),
        decreases d, self.width(d) - h,
    {
        assert(!self.loose(d, i));
        assert(0 <= i < self.pool_len(d));
        assert(self.pool_len(d) <= usize::MAX) by {
            if d < self.ndims() {
                assert(self.dims@[d].nodes.values.len() == self.dims@[d].nodes.values@.len());
            } else {
                assert(self.summaries.values.len() == self.summaries.values@.len());
            }
        }
        let refs = self.referrers(d, i);
        assert(refs.finite());
        assert(self.excess(d, i) == 0 || self.count_at(d, i) == usize::MAX);
        assert(self.count_at(d, i) < usize::MAX);
        assert(refs.len() > 0);
        let r = refs.choose();
        assert(refs.contains(r));
        assert(self.refers(r, d, i));
        let w0 = self.width(0);
        match r {
            Referrer::Root => {},
            Referrer::Pending { pos } => {},
            Referrer::Left { dim, slot } => {
                let hj = choose|hj: nat| hj <= self.width(d) && self.wf_node(d, hj, slot);
                assert(self.slot_live(d, slot));
                assert(self.wf_node(d, (hj - 1) as nat, i));
                self.lemma_height_unique(d, h, (hj - 1) as nat, i);
                self.lemma_live_reached_at(d, hj, slot);
                assert(self.reaches(d, hj, Some(slot as usize), d, i)) by {
                    assert(self.reaches(d, (hj - 1) as nat, self.node(d, slot).left, d, i));
                    assert(self.pool_len(d) <= usize::MAX);
                }
                self.lemma_reaches_trans(0, w0, self.base_root, d, hj, slot, d, i);
            },
            Referrer::Right { dim, slot } => {
                let hj = choose|hj: nat| hj <= self.width(d) && self.wf_node(d, hj, slot);
                assert(self.slot_live(d, slot));
                assert(self.wf_node(d, (hj - 1) as nat, i));
                self.lemma_height_unique(d, h, (hj - 1) as nat, i);
                self.lemma_live_reached_at(d, hj, slot);
                assert(self.reaches(d, hj, Some(slot as usize), d, i)) by {
                    assert(self.reaches(d, (hj - 1) as nat, self.node(d, slot).right, d, i));
                }
                self.lemma_reaches_trans(0, w0, self.base_root, d, hj, slot, d, i);
            },
            Referrer::Next { dim, slot } => {
                let hj = choose|hj: nat| hj <= self.width(dim) && self.wf_node(dim, hj, slot);
                assert(self.slot_live(dim, slot));
                self.lemma_live_reached_at(dim, hj, slot);
                assert(self.pool_len(dim) <= usize::MAX) by {
                    assert(self.dims@[dim].nodes.values.len()
                        == self.dims@[dim].nodes.values@.len());
                }
                assert(self.reaches(dim, hj, Some(slot as usize), d, i)) by {
                    assert(self.reaches(d, self.width(d), self.node(dim, slot).next, d, i));
                }
                self.lemma_reaches_trans(0, w0, self.base_root, dim, hj, slot, d, i);
            },
        }
    }

    /// At rest nothing is live but what the root leads to: in a ranked,
    /// balanced and settled cube with an empty release queue and no count at
    /// the largest value, a slot is live if and only if it can be reached from
    /// the root. A flush leaves such a cube, and so reclaims exactly what
    /// cannot be reached.
    pub proof fn lemma_live_is_reachable(&self, d: int, i: int)
        requires
            self.inv(),
            self.ranked(),
            self.balanced(),
            self.settled(),
            self.unsaturated(),
            self.pending().len() == 0,
            0 <= d <= self.ndims(),
        ensures
            self.slot_live(d, i) <==> self.reaches(0, self.width(0), self.base_root, d, i),
    {
        if self.slot_live(d, i) {
            if d < self.ndims() {
                let h = choose|h: nat| h <= self.width(d) && self.wf_node(d, h, i);
                self.lemma_live_reached_at(d, h, i);
            } else {
                self.lemma_live_reached_at(d, 0, i);
            }
        }
        if self.reaches(0, self.width(0), self.base_root, d, i) {
            self.lemma_reachable_counted(d, i);
        }
    }

    /// In a settled cube every slot with count zero is on the free list of
    /// its pool.
    pub proof fn lemma_settled_pools(&self)
        requires
            self.inv(),
            self.settled(),
        ensures
            self.summaries.settled(),
            forall|d: int| 0 <= d < self.ndims() ==> (#[trigger] self.dims@[d]).nodes.settled(),
    {
        assert forall|i: int|
            0 <= i < self.summaries.ref_counts@.len() && #[trigger] self.summaries.ref_counts@[i]
                == 0 implies self.summaries.is_free(i) by {
            assert(!self.loose(self.ndims(), i));
        }
        assert forall|d: int| 0 <= d < self.ndims() implies (#[trigger] self.dims@[d]).nodes.settled() by {
            assert(self.dims@[d].nodes.wf());
            assert forall|i: int|
                0 <= i < self.dims@[d].nodes.ref_counts@.len()
                    && #[trigger] self.dims@[d].nodes.ref_counts@[i]
                    == 0 implies self.dims@[d].nodes.is_free(i) by {
                assert(!self.loose(d, i));
            }
        }
    }

    /// The pointer `p` of level `d`, with its slot renamed by `rename`.
    pub open spec fn renamed(
        rename: spec_fn(int, int) -> int,
        d: int,
        p: NodePointerType,
    ) -> NodePointerType {
        match p {
            Some(i) => Some(rename(d, i as int) as usize),
            None => None,
        }
    }

    /// `self` is `before` with the slots renamed by `rename`: every live slot
    /// of `before` is live in `self` under its new name and holds the same
    /// summary or the same links, renamed; the root is the old root, renamed.
    pub open spec fn renames(&self, before: &Self, rename: spec_fn(int, int) -> int) -> bool {
        &&& self.dims@.len() == before.dims@.len()
        &&& forall|d: int|
            0 <= d < self.dims@.len() ==> (#[trigger] self.dims@[d]).width == before.dims@[d].width
        &&& forall|d: int, i: int|
            0 <= d <= before.ndims() && #[trigger] before.slot_live(d, i) ==> 0 <= rename(d, i)
                <= usize::MAX && self.slot_live(d, rename(d, i))
        &&& forall|d: int, i: int|
            0 <= d < before.ndims() && #[trigger] before.slot_live(d, i) ==> {
                let n = self.node(d, rename(d, i));
                let m = before.node(d, i);
                &&& n.left == Self::renamed(rename, d, m.left)
                &&& n.right == Self::renamed(rename, d, m.right)
                &&& n.next == Self::renamed(rename, d + 1, m.next)
            }
        &&& forall|i: int| #[trigger]
            before.summaries.live(i) ==> self.summaries.values@[rename(before.ndims(), i)]
                == before.summaries.values@[i]
        &&& self.base_root == Self::renamed(rename, 0, before.base_root)
    }

    /// A part of a cube has, under new names for its slots, the answers
    /// that it had.
    pub proof fn lemma_renamed_answer(
        &self,
        before: &Self,
        rename: spec_fn(int, int) -> int,
        d: int,
        h: nat,
        p: NodePointerType,
        lo: int,
        q: Seq<(usize, usize)>,
    )
        requires
            self.renames(before, rename),
            before.closed(),
            before.wf_ptr(d, h, p),
        ensures
            self.sub_answer(d, h, Self::renamed(rename, d, p), lo, q) == before.sub_answer(
                d,
                h,
                p,
                lo,
                q,
            ),
        decreases before.ndims() - d, h,
    {
        if p is Some && 0 <= d {
            let x = p.unwrap() as int;
            if d >= before.ndims() {
                assert(before.summaries.live(x));
                assert(before.slot_live(d, x));
            } else {
                let n = before.node(d, x);
                assert(before.slot_live(d, x));
                assert(self.node(d, rename(d, x)).left == Self::renamed(rename, d, n.left));
                if d + 1 < before.ndims() {
                    assert(self.dims@[d + 1].width == before.dims@[d + 1].width);
                }
                self.lemma_renamed_answer(
                    before,
                    rename,
                    d + 1,
                    before.width(d + 1),
                    n.next,
                    0,
                    q,
                );
                if h > 0 {
                    self.lemma_renamed_answer(before, rename, d, (h - 1) as nat, n.left, lo, q);
                    self.lemma_renamed_answer(
                        before,
                        rename,
                        d,
                        (h - 1) as nat,
                        n.right,
                        lo + pow2((h - 1) as nat),
                        q,
                    );
                }
            }
        }
    }

    /// Renaming slots changes no answer. This is what makes compaction
    /// safe: a cube whose pools were compacted, and whose links and root were
    /// rewritten by the moves that the compaction returned, answers every
    /// query as before.
    pub proof fn lemma_renamed_cube(
        &self,
        before: &Self,
        rename: spec_fn(int, int) -> int,
        q: Seq<(usize, usize)>,
    )
        requires
            self.renames(before, rename),
            before.inv(),
        ensures
            self.answer_to(q) == before.answer_to(q),
    {
        assert(self.width(0) == before.width(0)) by {
            assert(self.dims@[0].width == before.dims@[0].width);
        }
        self.lemma_renamed_answer(before, rename, 0, before.width(0), before.base_root, 0, q);
    }
}

/// A cube that holds the points of a plain cube answers every query as the
/// plain cube does.
pub proof fn lemma_agrees_with_naive<Summary: Monoid + PartialOrd + Copy>(
    cube: &Nanocube<Summary>,
    naive: &Naivecube<Summary>,
    q: Seq<(usize, usize)>,
)
    requires
        cube.holds_points(naive.points()),
        q.len() == cube.ndims(),
    ensures
        cube.answer(q) == naive.answer(q),
{
}

} // verus!
