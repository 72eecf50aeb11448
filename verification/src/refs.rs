//! Reference bookkeeping of a cube: taking and giving back references, the
//! queue of deferred releases, and the creation of slots.

use crate::cube::Monoid;
use crate::nanocube::{left_free, covers, same_links, NCDimNode, Nanocube, NodePointerType, Referrer};
use vstd::prelude::*;

verus! {

impl<Summary: Monoid> Nanocube<Summary> {
    /// `self` differs from `before` in reference counts at most.
    pub open spec fn same_but_counts(&self, before: &Self) -> bool {
        &&& self.base_root == before.base_root
        &&& self.release_list@ == before.release_list@
        &&& self.dims@.len() == before.dims@.len()
        &&& forall|d: int|
            0 <= d < self.dims@.len() ==> {
                &&& (#[trigger] self.dims@[d]).width == before.dims@[d].width
                &&& self.dims@[d].nodes.values@ == before.dims@[d].nodes.values@
                &&& self.dims@[d].nodes.free_list@ == before.dims@[d].nodes.free_list@
                &&& self.dims@[d].nodes.ref_counts@.len() == before.dims@[d].nodes.ref_counts@.len()
            }
        &&& self.summaries.values@ == before.summaries.values@
        &&& self.summaries.free_list@ == before.summaries.free_list@
        &&& self.summaries.ref_counts@.len() == before.summaries.ref_counts@.len()
    }

    /// States that differ in counts only have the same live slots, the same
    /// nodes and the same referrers.
    pub proof fn lemma_same_but_counts(&self, before: &Self)
        requires
            self.same_but_counts(before),
        ensures
            self.extends(before),
            before.extends(self),
            forall|d: int, i: int| #[trigger] self.slot_live(d, i) == before.slot_live(d, i),
            forall|d: int, i: int| #[trigger] self.referrers(d, i) == before.referrers(d, i),
            forall|d: int| #[trigger] self.pool_len(d) == before.pool_len(d),
            self.closed() == before.closed(),
            self.pending_ok() == before.pending_ok(),
            self.live_set() == before.live_set(),
            before.ranked() ==> self.ranked(),
    {
        assert forall|d: int, i: int| #[trigger]
            self.slot_live(d, i) == before.slot_live(d, i) by {
            if 0 <= d < self.dims@.len() {
                assert(self.dims@[d].nodes.free_list@ == before.dims@[d].nodes.free_list@);
                assert(self.dims@[d].nodes.is_free(i) == before.dims@[d].nodes.is_free(i));
            } else if d == self.dims@.len() {
                assert(self.summaries.is_free(i) == before.summaries.is_free(i));
            }
        }
        assert forall|d: int, i: int| #[trigger]
            self.referrers(d, i) == before.referrers(d, i) by {
            assert forall|r: Referrer| self.refers(r, d, i) == before.refers(r, d, i) by {
                match r {
                    Referrer::Left { dim, slot } => {
                        assert(self.slot_live(dim, slot) == before.slot_live(dim, slot));
                    },
                    Referrer::Right { dim, slot } => {
                        assert(self.slot_live(dim, slot) == before.slot_live(dim, slot));
                    },
                    Referrer::Next { dim, slot } => {
                        assert(self.slot_live(dim, slot) == before.slot_live(dim, slot));
                    },
                    _ => {},
                }
            }
            assert(self.referrers(d, i) =~= before.referrers(d, i));
        }
        assert forall|d: int| #[trigger] self.pool_len(d) == before.pool_len(d) by {
            if 0 <= d < self.dims@.len() {
                assert(self.dims@[d].nodes.values@ == before.dims@[d].nodes.values@);
            }
        }
        assert(self.live_set() =~= before.live_set());
        assert(self.closed() == before.closed()) by {
            if before.closed() {
                assert forall|d: int, i: int|
                    0 <= d < self.ndims() && #[trigger] self.slot_live(d, i) implies {
                    &&& self.ptr_live(d, self.node(d, i).left)
                    &&& self.ptr_live(d, self.node(d, i).right)
                    &&& self.ptr_live(d + 1, self.node(d, i).next)
                } by {
                    assert(before.slot_live(d, i));
                    assert(self.dims@[d].nodes.values@ == before.dims@[d].nodes.values@);
                }
            }
            if self.closed() {
                assert forall|d: int, i: int|
                    0 <= d < before.ndims() && #[trigger] before.slot_live(d, i) implies {
                    &&& before.ptr_live(d, before.node(d, i).left)
                    &&& before.ptr_live(d, before.node(d, i).right)
                    &&& before.ptr_live(d + 1, before.node(d, i).next)
                } by {
                    assert(self.slot_live(d, i));
                    assert(self.dims@[d].nodes.values@ == before.dims@[d].nodes.values@);
                }
            }
        }
        assert(self.extends(before)) by {
            assert forall|d: int, i: int|
                0 <= d < before.ndims() && #[trigger] before.slot_live(
                    d,
                    i,
                ) implies self.slot_live(d, i) && same_links(self.node(d, i), before.node(d, i)) by {
                assert(self.slot_live(d, i) == before.slot_live(d, i));
                assert(self.dims@[d].nodes.values@ == before.dims@[d].nodes.values@);
            }
            assert forall|i: int| #[trigger] before.summaries.live(i) implies self.summaries.live(
                i,
            ) && self.summaries.values@[i] == before.summaries.values@[i] by {
                assert(self.slot_live(self.ndims(), i) == before.slot_live(self.ndims(), i));
            }
        }
        assert(before.extends(self)) by {
            assert forall|d: int, i: int|
                0 <= d < self.ndims() && #[trigger] self.slot_live(d, i) implies before.slot_live(
                d,
                i,
            ) && same_links(before.node(d, i), self.node(d, i)) by {
                assert(self.slot_live(d, i) == before.slot_live(d, i));
                assert(self.dims@[d].nodes.values@ == before.dims@[d].nodes.values@);
            }
            assert forall|i: int| #[trigger] self.summaries.live(i) implies before.summaries.live(
                i,
            ) && before.summaries.values@[i] == self.summaries.values@[i] by {
                assert(self.slot_live(self.ndims(), i) == before.slot_live(self.ndims(), i));
            }
        }
        if before.ranked() {
            assert forall|d: int, i: int|
                0 <= d < self.ndims() && #[trigger] self.slot_live(d, i) implies before.slot_live(
                d,
                i,
            ) || Set::<(int, int)>::empty().contains((d, i)) by {
                assert(self.slot_live(d, i) == before.slot_live(d, i));
            }
            self.lemma_ranked_extended(before, Set::empty());
        }
    }
}

/// How many of the three links refer to slot `i` of level `d`, for a node of
/// dimension `dim`.
pub open spec fn links_to(
    dim: int,
    left: NodePointerType,
    right: NodePointerType,
    next: NodePointerType,
    d: int,
    i: int,
) -> nat {
    let l: nat = if d == dim && left is Some && left.unwrap() == i {
        1
    } else {
        0
    };
    let r: nat = if d == dim && right is Some && right.unwrap() == i {
        1
    } else {
        0
    };
    let n: nat = if d == dim + 1 && next is Some && next.unwrap() == i {
        1
    } else {
        0
    };
    l + r + n
}

impl<Summary: Monoid> Nanocube<Summary> {
    /// `self` is `before` with one more live slot, `slot` of level `level`,
    /// and nothing else changed but counts: every other slot that was live is
    /// live with the same content, and no other slot became live.
    pub open spec fn grown_by(&self, before: &Self, level: int, slot: int) -> bool {
        &&& 0 <= level <= before.ndims()
        &&& self.base_root == before.base_root
        &&& self.release_list@ == before.release_list@
        &&& self.dims@.len() == before.dims@.len()
        &&& forall|d: int|
            0 <= d < self.dims@.len() ==> (#[trigger] self.dims@[d]).width == before.dims@[d].width
        &&& forall|d: int| #[trigger] self.pool_len(d) >= before.pool_len(d)
        &&& forall|d: int, i: int|
            !(d == level && i == slot) ==> #[trigger] self.slot_live(d, i) == before.slot_live(
                d,
                i,
            )
        &&& forall|d: int, i: int|
            0 <= d < before.ndims() && #[trigger] before.slot_live(d, i) ==> self.node(d, i)
                == before.node(d, i)
        &&& forall|i: int| #[trigger]
            before.summaries.live(i) ==> self.summaries.values@[i] == before.summaries.values@[i]
        &&& self.slot_live(level, slot)
        &&& !before.slot_live(level, slot)
    }

    /// In a closed cube nothing refers to a slot that does not exist.
    pub proof fn lemma_no_referrers_beyond(&self, d: int, i: int)
        requires
            self.closed(),
            self.pending_ok(),
            self.wf_ptr(0, self.width(0), self.base_root),
            self.ndims() >= 1,
            i >= self.pool_len(d) || !(0 <= d <= self.ndims()),
        ensures
            self.referrers(d, i) == Set::<Referrer>::empty(),
    {
        assert forall|r: Referrer| !self.refers(r, d, i) by {
            match r {
                Referrer::Left { dim, slot } => {
                    if self.refers(r, d, i) {
                        assert(self.slot_live(dim, slot));
                        assert(self.ptr_live(dim, self.node(dim, slot).left));
                    }
                },
                Referrer::Right { dim, slot } => {
                    if self.refers(r, d, i) {
                        assert(self.slot_live(dim, slot));
                        assert(self.ptr_live(dim, self.node(dim, slot).right));
                    }
                },
                Referrer::Next { dim, slot } => {
                    if self.refers(r, d, i) {
                        assert(self.slot_live(dim, slot));
                        assert(self.ptr_live(dim + 1, self.node(dim, slot).next));
                    }
                },
                Referrer::Root => {},
                Referrer::Pending { pos } => {
                    if self.refers(r, d, i) {
                        assert(self.pending()[pos].0.unwrap() < self.pool_len(
                            self.pending()[pos].1 as int,
                        ));
                    }
                },
            }
        }
        assert(self.referrers(d, i) =~= Set::<Referrer>::empty());
    }

    /// When a slot becomes live, the referrers of any slot grow by the links
    /// of the new node that lead to it, and by nothing else.
    pub proof fn lemma_grown_referrers(&self, before: &Self, level: int, slot: int, d: int, i: int)
        requires
            self.grown_by(before, level, slot),
            before.referrers(d, i).finite(),
        ensures
            self.referrers(d, i).finite(),
            level == before.ndims() ==> self.referrers(d, i) == before.referrers(d, i),
            level < before.ndims() ==> self.referrers(d, i).len() == before.referrers(d, i).len()
                + links_to(
                level,
                self.node(level, slot).left,
                self.node(level, slot).right,
                self.node(level, slot).next,
                d,
                i,
            ),
    {
        let r0 = before.referrers(d, i);
        if level == before.ndims() {
            assert forall|r: Referrer| self.refers(r, d, i) == before.refers(r, d, i) by {
                match r {
                    Referrer::Left { dim, slot: j } => {
                        if dim < before.ndims() {
                            assert(self.slot_live(dim, j) == before.slot_live(dim, j));
                        }
                    },
                    Referrer::Right { dim, slot: j } => {
                        if dim < before.ndims() {
                            assert(self.slot_live(dim, j) == before.slot_live(dim, j));
                        }
                    },
                    Referrer::Next { dim, slot: j } => {
                        if dim < before.ndims() {
                            assert(self.slot_live(dim, j) == before.slot_live(dim, j));
                        }
                    },
                    _ => {},
                }
            }
            assert(self.referrers(d, i) =~= r0);
        } else {
            let n = self.node(level, slot);
            let el = Referrer::Left { dim: level, slot };
            let er = Referrer::Right { dim: level, slot };
            let en = Referrer::Next { dim: level, slot };
            let cl = d == level && n.left is Some && n.left.unwrap() == i;
            let cr = d == level && n.right is Some && n.right.unwrap() == i;
            let cn = d == level + 1 && n.next is Some && n.next.unwrap() == i;
            let r1 = if cl {
                r0.insert(el)
            } else {
                r0
            };
            let r2 = if cr {
                r1.insert(er)
            } else {
                r1
            };
            let r3 = if cn {
                r2.insert(en)
            } else {
                r2
            };
            assert forall|r: Referrer| self.refers(r, d, i) == r3.contains(r) by {
                match r {
                    Referrer::Left { dim, slot: j } => {
                        if !(dim == level && j == slot) {
                            assert(self.slot_live(dim, j) == before.slot_live(dim, j));
                        }
                    },
                    Referrer::Right { dim, slot: j } => {
                        if !(dim == level && j == slot) {
                            assert(self.slot_live(dim, j) == before.slot_live(dim, j));
                        }
                    },
                    Referrer::Next { dim, slot: j } => {
                        if !(dim == level && j == slot) {
                            assert(self.slot_live(dim, j) == before.slot_live(dim, j));
                        }
                    },
                    _ => {},
                }
            }
            assert(self.referrers(d, i) =~= r3);
            assert(!before.refers(el, d, i) && !before.refers(er, d, i) && !before.refers(
                en,
                d,
                i,
            ));
            assert(!r0.contains(el) && !r0.contains(er) && !r0.contains(en));
        }
    }

    /// When a slot stops being live, the referrers of any slot shrink by the
    /// links of the freed node that led to it, and by nothing else.
    pub proof fn lemma_shrunk_referrers(&self, before: &Self, level: int, slot: int, d: int, i: int)
        requires
            before.grown_by(self, level, slot),
            before.referrers(d, i).finite(),
        ensures
            self.referrers(d, i).finite(),
            level == self.ndims() ==> self.referrers(d, i) == before.referrers(d, i),
            level < self.ndims() ==> before.referrers(d, i).len() == self.referrers(d, i).len()
                + links_to(
                level,
                before.node(level, slot).left,
                before.node(level, slot).right,
                before.node(level, slot).next,
                d,
                i,
            ),
    {
        let r0 = before.referrers(d, i);
        if level == self.ndims() {
            assert forall|r: Referrer| self.refers(r, d, i) == before.refers(r, d, i) by {
                match r {
                    Referrer::Left { dim, slot: j } => {
                        if dim < before.ndims() {
                            assert(self.slot_live(dim, j) == before.slot_live(dim, j));
                        }
                    },
                    Referrer::Right { dim, slot: j } => {
                        if dim < before.ndims() {
                            assert(self.slot_live(dim, j) == before.slot_live(dim, j));
                        }
                    },
                    Referrer::Next { dim, slot: j } => {
                        if dim < before.ndims() {
                            assert(self.slot_live(dim, j) == before.slot_live(dim, j));
                        }
                    },
                    _ => {},
                }
            }
            assert(self.referrers(d, i) =~= r0);
        } else {
            let n = before.node(level, slot);
            let el = Referrer::Left { dim: level, slot };
            let er = Referrer::Right { dim: level, slot };
            let en = Referrer::Next { dim: level, slot };
            let cl = d == level && n.left is Some && n.left.unwrap() == i;
            let cr = d == level && n.right is Some && n.right.unwrap() == i;
            let cn = d == level + 1 && n.next is Some && n.next.unwrap() == i;
            let r1 = if cl {
                r0.remove(el)
            } else {
                r0
            };
            let r2 = if cr {
                r1.remove(er)
            } else {
                r1
            };
            let r3 = if cn {
                r2.remove(en)
            } else {
                r2
            };
            assert forall|r: Referrer| self.refers(r, d, i) == r3.contains(r) by {
                match r {
                    Referrer::Left { dim, slot: j } => {
                        if !(dim == level && j == slot) {
                            assert(self.slot_live(dim, j) == before.slot_live(dim, j));
                        }
                    },
                    Referrer::Right { dim, slot: j } => {
                        if !(dim == level && j == slot) {
                            assert(self.slot_live(dim, j) == before.slot_live(dim, j));
                        }
                    },
                    Referrer::Next { dim, slot: j } => {
                        if !(dim == level && j == slot) {
                            assert(self.slot_live(dim, j) == before.slot_live(dim, j));
                        }
                    },
                    _ => {},
                }
            }
            assert(self.referrers(d, i) =~= r3);
            assert(cl ==> before.refers(el, d, i));
            assert(cr ==> before.refers(er, d, i));
            assert(cn ==> before.refers(en, d, i));
            assert(cl ==> r0.contains(el));
            assert(cr ==> r1.contains(er));
            assert(cn ==> r2.contains(en));
        }
    }

    /// `self` differs from `before` in the release queue at most.
    pub open spec fn same_but_pending(&self, before: &Self) -> bool {
        &&& self.base_root == before.base_root
        &&& self.dims@ == before.dims@
        &&& self.summaries.values@ == before.summaries.values@
        &&& self.summaries.free_list@ == before.summaries.free_list@
        &&& self.summaries.ref_counts@ == before.summaries.ref_counts@
    }

    /// An entry added to the release queue is one more referrer of the slot
    /// that it names, and of no other.
    pub proof fn lemma_pending_pushed(&self, before: &Self, level: int, slot: int, d: int, i: int)
        requires
            self.same_but_pending(before),
            0 <= level <= usize::MAX,
            0 <= slot <= usize::MAX,
            self.release_list@ == before.release_list@.push((Some(slot as usize), level as usize)),
        ensures
            !before.referrers(d, i).contains(Referrer::Pending { pos: before.pending().len() as int }),
            self.referrers(d, i) == if d == level && i == slot {
                before.referrers(d, i).insert(Referrer::Pending { pos: before.pending().len() as int })
            } else {
                before.referrers(d, i)
            },
    {
        let k = before.pending().len() as int;
        let e = Referrer::Pending { pos: k };
        let target = if d == level && i == slot {
            before.referrers(d, i).insert(e)
        } else {
            before.referrers(d, i)
        };
        assert forall|r: Referrer| self.refers(r, d, i) == target.contains(r) by {
            match r {
                Referrer::Pending { pos } => {
                    if 0 <= pos < k {
                        assert(self.pending()[pos] == before.pending()[pos]);
                    }
                },
                _ => {},
            }
        }
        assert(self.referrers(d, i) =~= target);
    }

    /// The entry taken from the end of the release queue was a referrer of the
    /// slot that it named; every other referrer stays.
    pub proof fn lemma_pending_popped(&self, before: &Self, d: int, i: int)
        requires
            self.same_but_pending(before),
            before.release_list@.len() > 0,
            self.release_list@ == before.release_list@.drop_last(),
        ensures
            self.referrers(d, i) == before.referrers(d, i).remove(
                Referrer::Pending { pos: before.pending().len() - 1 },
            ),
            before.pending().last().0 is Some && before.pending().last().0.unwrap() == i
                && before.pending().last().1 == d ==> before.referrers(d, i).contains(
                Referrer::Pending { pos: before.pending().len() - 1 },
            ),
    {
        let k = before.pending().len() - 1;
        let e = Referrer::Pending { pos: k };
        let target = before.referrers(d, i).remove(e);
        assert forall|r: Referrer| self.refers(r, d, i) == target.contains(r) by {
            match r {
                Referrer::Pending { pos } => {
                    if 0 <= pos < k {
                        assert(self.pending()[pos] == before.pending()[pos]);
                    }
                },
                _ => {},
            }
        }
        assert(self.referrers(d, i) =~= target);
    }

    /// `self` keeps of `before` every slot that is live in `self`, with the
    /// same links or summary, and has the same dimensions.
    pub open spec fn restricts(&self, before: &Self) -> bool {
        &&& self.dims@.len() == before.dims@.len()
        &&& forall|d: int|
            0 <= d < self.dims@.len() ==> (#[trigger] self.dims@[d]).width == before.dims@[d].width
        &&& forall|d: int, i: int|
            0 <= d < self.ndims() && #[trigger] self.slot_live(d, i) ==> before.slot_live(d, i)
                && same_links(self.node(d, i), before.node(d, i))
        &&& forall|i: int| #[trigger]
            self.summaries.live(i) ==> before.summaries.live(i) && self.summaries.values@[i]
                == before.summaries.values@[i]
    }

    /// In a closed state that keeps the live slots of an earlier one, a part
    /// of the cube that was well-formed and whose head is still live has the
    /// answer that it had.
    pub proof fn lemma_restricts_answer(
        &self,
        before: &Self,
        d: int,
        h: nat,
        p: NodePointerType,
        lo: int,
        q: Seq<(usize, usize)>,
    )
        requires
            self.restricts(before),
            self.closed(),
            before.wf_ptr(d, h, p),
            self.ptr_live(d, p),
        ensures
            self.sub_answer(d, h, p, lo, q) == before.sub_answer(d, h, p, lo, q),
        decreases before.ndims() - d, h,
    {
        if p is Some && 0 <= d {
            let x = p.unwrap() as int;
            if d >= before.ndims() {
                assert(self.summaries.live(x));
            } else {
                let n = before.node(d, x);
                assert(self.slot_live(d, x));
                if d + 1 < before.ndims() {
                    assert(self.dims@[d + 1].width == before.dims@[d + 1].width);
                }
                self.lemma_restricts_answer(before, d + 1, before.width(d + 1), n.next, 0, q);
                if h > 0 {
                    self.lemma_restricts_answer(before, d, (h - 1) as nat, n.left, lo, q);
                    self.lemma_restricts_answer(
                        before,
                        d,
                        (h - 1) as nat,
                        n.right,
                        lo + vstd::arithmetic::power2::pow2((h - 1) as nat),
                        q,
                    );
                }
            }
        }
    }

    /// In a closed state that keeps the live slots of an earlier one, a part
    /// of the cube that was well-formed and whose head is still live is
    /// well-formed.
    pub proof fn lemma_restricts_wf(&self, before: &Self, d: int, h: nat, x: int)
        requires
            self.restricts(before),
            self.closed(),
            before.wf_node(d, h, x),
            self.slot_live(d, x),
        ensures
            self.wf_node(d, h, x),
        decreases before.ndims() - d, h,
    {
        if d < before.ndims() {
            let n = before.node(d, x);
            assert(self.slot_live(d, x));
            if d + 1 < before.ndims() {
                assert(self.dims@[d + 1].width == before.dims@[d + 1].width);
            }
            self.lemma_restricts_wf(before, d + 1, before.width(d + 1), n.next.unwrap() as int);
            if h > 0 {
                if n.left is Some {
                    self.lemma_restricts_wf(before, d, (h - 1) as nat, n.left.unwrap() as int);
                }
                if n.right is Some {
                    self.lemma_restricts_wf(before, d, (h - 1) as nat, n.right.unwrap() as int);
                }
                assert forall|q: Seq<(usize, usize)>| #[trigger]
                    self.total_at(d, x, q) == self.total(d, n.left, q).combine(
                        self.total(d, n.right, q),
                    ) by {
                    self.lemma_restricts_answer(
                        before,
                        d + 1,
                        before.width(d + 1),
                        n.next,
                        0,
                        q,
                    );
                    if n.left is Some {
                        let c = before.node(d, n.left.unwrap() as int);
                        assert(self.slot_live(d, n.left.unwrap() as int));
                        assert(before.wf_node(d, (h - 1) as nat, n.left.unwrap() as int));
                        self.lemma_restricts_answer(
                            before,
                            d + 1,
                            before.width(d + 1),
                            c.next,
                            0,
                            q,
                        );
                    }
                    if n.right is Some {
                        let c = before.node(d, n.right.unwrap() as int);
                        assert(self.slot_live(d, n.right.unwrap() as int));
                        assert(before.wf_node(d, (h - 1) as nat, n.right.unwrap() as int));
                        self.lemma_restricts_answer(
                            before,
                            d + 1,
                            before.width(d + 1),
                            c.next,
                            0,
                            q,
                        );
                    }
                    assert(before.total_at(d, x, q) == before.total(d, n.left, q).combine(
                        before.total(d, n.right, q),
                    ));
                }
            }
        }
    }
}

impl<Summary: Monoid> Nanocube<Summary> {
    /// Every count of `self` accounts for the referrers that its slot has in
    /// `base` and, on top of them, for those of the three links that lead to the
    /// slot.
    pub open spec fn counted_plus(
        &self,
        base: &Self,
        dim: int,
        left: NodePointerType,
        right: NodePointerType,
        next: NodePointerType,
    ) -> bool {
        forall|d: int, i: int|
            0 <= d <= base.ndims() && 0 <= i < base.pool_len(d) ==> {
                &&& (#[trigger] base.referrers(d, i)).finite()
                &&& covers(
                    self.count_at(d, i),
                    base.referrers(d, i).len() + links_to(dim, left, right, next, d, i),
                )
            }
    }

    /// Every count of `self` of a slot that is held in `base` accounts for the
    /// referrers that the slot has in `base`, for those of the three links that
    /// lead to it, and for one reference more.
    pub open spec fn held_over(
        &self,
        base: &Self,
        dim: int,
        left: NodePointerType,
        right: NodePointerType,
        next: NodePointerType,
    ) -> bool {
        forall|d: int, i: int| #[trigger]
            base.held(d, i) ==> covers(
                self.count_at(d, i),
                base.referrers(d, i).len() + 1 + links_to(dim, left, right, next, d, i),
            )
    }

    /// No count of `self` is below that of `base`, and the count of every
    /// slot that one of the three links leads to is above zero.
    pub open spec fn counts_raised(
        &self,
        base: &Self,
        dim: int,
        left: NodePointerType,
        right: NodePointerType,
        next: NodePointerType,
    ) -> bool {
        forall|d: int, i: int|
            0 <= d <= base.ndims() && 0 <= i < base.pool_len(d) ==> #[trigger] self.count_at(d, i)
                >= base.count_at(d, i) && (links_to(dim, left, right, next, d, i) > 0
                ==> self.count_at(d, i) > 0) && (self.count_at(d, i) < usize::MAX
                ==> self.count_at(d, i) == base.count_at(d, i) + links_to(
                dim,
                left,
                right,
                next,
                d,
                i,
            ))
    }

    /// A cube that has grown by one slot, whose counts were raised beforehand
    /// for the links of the new node, satisfies the invariant again.
    pub proof fn lemma_grown_inv(
        &self,
        before: &Self,
        level: int,
        slot: int,
        keep: Set<(int, int)>,
    )
        requires
            forall|d: int, i: int|
                #![trigger keep.contains((d, i))]
                keep.contains((d, i)) ==> {
                    &&& before.slot_live(d, i)
                    &&& covers(
                        self.count_at(d, i),
                        before.referrers(d, i).len() + 1 + if level < before.ndims() {
                            links_to(
                                level,
                                self.node(level, slot).left,
                                self.node(level, slot).right,
                                self.node(level, slot).next,
                                d,
                                i,
                            )
                        } else {
                            0
                        },
                    )
                },
            before.shape_ok(),
            before.closed(),
            before.pending_ok(),
            before.wf_ptr(0, before.width(0), before.base_root),
            self.shape_ok(),
            self.grown_by(before, level, slot),
            forall|d: int| #[trigger]
                self.pool_len(d) <= before.pool_len(d) + if d == level {
                    1nat
                } else {
                    0nat
                },
            level < before.ndims() ==> {
                &&& before.ptr_live(level, self.node(level, slot).left)
                &&& before.ptr_live(level, self.node(level, slot).right)
                &&& before.ptr_live(level + 1, self.node(level, slot).next)
                &&& self.counted_plus(
                    before,
                    level,
                    self.node(level, slot).left,
                    self.node(level, slot).right,
                    self.node(level, slot).next,
                )
            },
            level == before.ndims() ==> self.counted_plus(before, level, None, None, None),
            before.live_set().finite(),
        ensures
            self.closed(),
            self.counted(),
            self.pending_ok(),
            self.extends(before),
            self.live_set().finite(),
            self.wf_ptr(0, self.width(0), self.base_root),
            forall|d: int, i: int|
                0 <= d <= self.ndims() && 0 <= i < self.pool_len(d) ==> (
                #[trigger] self.referrers(d, i)).len() == before.referrers(d, i).len() + if level
                    < before.ndims() {
                    links_to(
                        level,
                        self.node(level, slot).left,
                        self.node(level, slot).right,
                        self.node(level, slot).next,
                        d,
                        i,
                    )
                } else {
                    0
                },
            forall|d: int, i: int|
                0 <= d <= self.ndims() && before.pool_len(d) <= i ==> (#[trigger] before.referrers(
                    d,
                    i,
                )).len() == 0,
            forall|d: int, i: int|
                #![trigger keep.contains((d, i))]
                keep.contains((d, i)) ==> self.held(d, i),
    {
        assert forall|d: int, i: int|
            #![trigger keep.contains((d, i))]
            keep.contains((d, i)) implies self.held(d, i) by {
            assert(before.slot_live(d, i));
            assert(0 <= d <= before.ndims() && 0 <= i < before.pool_len(d));
            assert(before.referrers(d, i).finite());
            self.lemma_grown_referrers(before, level, slot, d, i);
            assert(self.slot_live(d, i) == before.slot_live(d, i));
        }
        assert(self.live_set() =~= before.live_set().insert((level, slot))) by {
            assert forall|s: (int, int)|
                self.live_set().contains(s) == before.live_set().insert((level, slot)).contains(
                    s,
                ) by {
                if !(s.0 == level && s.1 == slot) {
                    assert(self.slot_live(s.0, s.1) == before.slot_live(s.0, s.1));
                }
            }
        }
        let (l, r, n) = if level < before.ndims() {
            (
                self.node(level, slot).left,
                self.node(level, slot).right,
                self.node(level, slot).next,
            )
        } else {
            (None, None, None)
        };
        assert(self.extends(before)) by {
            assert forall|d: int, i: int|
                0 <= d < before.ndims() && #[trigger] before.slot_live(
                    d,
                    i,
                ) implies self.slot_live(d, i) && same_links(self.node(d, i), before.node(d, i)) by {
                assert(self.slot_live(d, i) == before.slot_live(d, i));
            }
            assert forall|i: int| #[trigger] before.summaries.live(i) implies self.summaries.live(
                i,
            ) && self.summaries.values@[i] == before.summaries.values@[i] by {
                assert(before.slot_live(before.ndims(), i));
                assert(self.slot_live(before.ndims(), i) == before.slot_live(before.ndims(), i));
            }
        }
        assert(self.closed()) by {
            assert forall|d: int, i: int|
                0 <= d < self.ndims() && #[trigger] self.slot_live(d, i) implies {
                &&& self.ptr_live(d, self.node(d, i).left)
                &&& self.ptr_live(d, self.node(d, i).right)
                &&& self.ptr_live(d + 1, self.node(d, i).next)
            } by {
                let nd = self.node(d, i);
                if d == level && i == slot {
                    if nd.left is Some {
                        assert(before.slot_live(d, nd.left.unwrap() as int));
                        assert(self.slot_live(d, nd.left.unwrap() as int) == before.slot_live(
                            d,
                            nd.left.unwrap() as int,
                        ));
                    }
                    if nd.right is Some {
                        assert(before.slot_live(d, nd.right.unwrap() as int));
                        assert(self.slot_live(d, nd.right.unwrap() as int) == before.slot_live(
                            d,
                            nd.right.unwrap() as int,
                        ));
                    }
                    if nd.next is Some {
                        assert(before.slot_live(d + 1, nd.next.unwrap() as int));
                        assert(self.slot_live(d + 1, nd.next.unwrap() as int)
                            == before.slot_live(d + 1, nd.next.unwrap() as int));
                    }
                } else {
                    assert(self.slot_live(d, i) == before.slot_live(d, i));
                    assert(before.slot_live(d, i));
                    assert(nd == before.node(d, i));
                    if nd.left is Some {
                        assert(before.slot_live(d, nd.left.unwrap() as int));
                        assert(self.slot_live(d, nd.left.unwrap() as int));
                    }
                    if nd.right is Some {
                        assert(before.slot_live(d, nd.right.unwrap() as int));
                        assert(self.slot_live(d, nd.right.unwrap() as int));
                    }
                    if nd.next is Some {
                        assert(before.slot_live(d + 1, nd.next.unwrap() as int));
                        assert(self.slot_live(d + 1, nd.next.unwrap() as int));
                    }
                }
            }
        }
        assert forall|d: int, i: int|
            0 <= d <= self.ndims() && before.pool_len(d) <= i implies (#[trigger] before.referrers(
            d,
            i,
        )).len() == 0 by {
            before.lemma_no_referrers_beyond(d, i);
        }
        assert forall|d: int, i: int| 0 <= d <= self.ndims() && 0 <= i < self.pool_len(d) implies (
        #[trigger] self.referrers(d, i)).len() == before.referrers(d, i).len() + if level
            < before.ndims() {
            links_to(level, l, r, n, d, i)
        } else {
            0
        } by {
            if i < before.pool_len(d) {
                assert(before.referrers(d, i).finite());
            } else {
                before.lemma_no_referrers_beyond(d, i);
            }
            self.lemma_grown_referrers(before, level, slot, d, i);
        }
        assert(self.counted()) by {
            assert forall|d: int, i: int|
                0 <= d <= self.ndims() && 0 <= i < self.pool_len(d) implies {
                &&& (#[trigger] self.referrers(d, i)).finite()
                &&& covers(self.count_at(d, i), self.referrers(d, i).len())
            } by {
                if i < before.pool_len(d) {
                    assert(before.referrers(d, i).finite());
                    self.lemma_grown_referrers(before, level, slot, d, i);
                } else {
                    before.lemma_no_referrers_beyond(d, i);
                    self.lemma_grown_referrers(before, level, slot, d, i);
                    assert(self.pool_len(d) <= before.pool_len(d) + if d == level {
                        1nat
                    } else {
                        0nat
                    });
                    if level < before.ndims() {
                        assert(links_to(level, l, r, n, d, i) == 0) by {
                            if l is Some {
                                assert(before.slot_live(level, l.unwrap() as int));
                            }
                            if r is Some {
                                assert(before.slot_live(level, r.unwrap() as int));
                            }
                            if n is Some {
                                assert(before.slot_live(level + 1, n.unwrap() as int));
                            }
                        }
                    }
                }
            }
        }
        assert(self.pending_ok()) by {
            assert forall|k: int| 0 <= k < self.pending().len() implies {
                &&& (#[trigger] self.pending()[k]).0 is Some
                &&& self.pending()[k].1 <= self.ndims()
                &&& self.pending()[k].0.unwrap() < self.pool_len(self.pending()[k].1 as int)
            } by {
                assert(before.pending()[k].0 is Some);
                assert(self.pool_len(before.pending()[k].1 as int) >= before.pool_len(
                    before.pending()[k].1 as int,
                ));
            }
        }
        if self.base_root is Some {
            self.lemma_extends_wf(before, 0, before.width(0), self.base_root.unwrap() as int);
            assert(self.dims@[0].width == before.dims@[0].width);
        }
    }
}

impl<Summary: Monoid> Nanocube<Summary> {
    /// The count reached by taking one more reference.
    pub open spec fn raised(count: usize) -> usize {
        if count < usize::MAX {
            (count + 1) as usize
        } else {
            usize::MAX
        }
    }

    /// The count reached by giving one reference back: one less, except that
    /// the largest value stays.
    pub open spec fn lowered(count: usize) -> usize {
        if count < usize::MAX {
            (count - 1) as usize
        } else {
            usize::MAX
        }
    }

    /// Taking a reference to a live slot keeps the invariant and leaves one
    /// reference to spare on that slot.
    pub proof fn lemma_raised_inv(&self, before: &Self, d: int, i: int)
        requires
            before.inv(),
            before.slot_live(d, i),
            0 <= d <= before.ndims(),
            self.shape_ok(),
            self.same_but_counts(before),
            self.count_at(d, i) == Self::raised(before.count_at(d, i)),
            forall|dd: int, j: int|
                0 <= dd <= before.ndims() && 0 <= j < before.pool_len(dd) && !(dd == d && j == i)
                    ==> self.count_at(dd, j) == before.count_at(dd, j),
        ensures
            self.inv(),
            self.spare(d, i),
            forall|dd: int, j: int|
                !(dd == d && j == i) && before.spare(dd, j) && 0 <= dd <= before.ndims() && 0 <= j
                    < before.pool_len(dd) ==> self.spare(dd, j),
            forall|q: Seq<(usize, usize)>| #[trigger] self.answer_to(q) == before.answer_to(q),
            forall|dd: int, j: int| #[trigger] before.held(dd, j) ==> self.held(dd, j),
    {
        self.lemma_same_but_counts(before);
        assert forall|dd: int, j: int| #[trigger] before.held(dd, j) implies self.held(dd, j) by {
            assert(self.referrers(dd, j) == before.referrers(dd, j));
            assert(self.slot_live(dd, j) == before.slot_live(dd, j));
            assert(0 <= dd <= before.ndims() && 0 <= j < before.pool_len(dd));
        }
        assert(self.counted()) by {
            assert forall|dd: int, j: int|
                0 <= dd <= self.ndims() && 0 <= j < self.pool_len(dd) implies {
                &&& (#[trigger] self.referrers(dd, j)).finite()
                &&& covers(self.count_at(dd, j), self.referrers(dd, j).len())
            } by {
                assert(self.referrers(dd, j) == before.referrers(dd, j));
                assert(self.pool_len(dd) == before.pool_len(dd));
                assert(before.referrers(dd, j).finite());
            }
        }
        assert(self.referrers(d, i) == before.referrers(d, i));
        assert(before.referrers(d, i).finite());
        self.lemma_extends_ptr(before, 0, before.width(0), before.base_root);
        assert(self.width(0) == before.width(0)) by {
            assert(self.dims@[0].width == before.dims@[0].width);
        }
        assert forall|dd: int, j: int|
            !(dd == d && j == i) && before.spare(dd, j) && 0 <= dd <= before.ndims() && 0 <= j
                < before.pool_len(dd) implies self.spare(dd, j) by {
            assert(self.referrers(dd, j) == before.referrers(dd, j));
        }
    }

    /// Moving the root to a slot with a reference to spare keeps the
    /// invariant, and leaves a reference to spare on the old root.
    pub proof fn lemma_root_moved(&self, before: &Self)
        requires
            before.inv(),
            self.dims@ == before.dims@,
            self.release_list@ == before.release_list@,
            self.summaries.values@ == before.summaries.values@,
            self.summaries.free_list@ == before.summaries.free_list@,
            self.summaries.ref_counts@ == before.summaries.ref_counts@,
            before.wf_ptr(0, before.width(0), self.base_root),
            self.base_root is Some ==> before.spare(0, self.base_root.unwrap() as int),
        ensures
            self.inv(),
            self.extends(before),
            before.base_root is Some ==> self.spare(0, before.base_root.unwrap() as int),
            forall|d: int, i: int|
                before.spare(d, i) && 0 <= d <= before.ndims() && 0 <= i < before.pool_len(d) && !(d
                    == 0 && self.base_root is Some && self.base_root.unwrap() == i) ==> self.spare(
                    d,
                    i,
                ),
            forall|d: int, i: int|
                0 <= d <= before.ndims() && 0 <= i < before.pool_len(d) ==> (
                #[trigger] self.referrers(d, i)).len() == before.referrers(d, i).len() - (if d == 0
                    && before.base_root is Some && before.base_root.unwrap() == i {
                    1int
                } else {
                    0int
                }) + (if d == 0 && self.base_root is Some && self.base_root.unwrap() == i {
                    1int
                } else {
                    0int
                }),
    {
        let e = Referrer::Root;
        assert forall|d: int, i: int| #[trigger] self.slot_live(d, i) == before.slot_live(d, i) by {
            if d == self.dims@.len() {
                assert(self.summaries.is_free(i) == before.summaries.is_free(i));
            }
        }
        assert(self.live_set() =~= before.live_set());
        assert forall|d: int, i: int|
            #![trigger self.referrers(d, i)]
            {
                let was = d == 0 && before.base_root is Some && before.base_root.unwrap() == i;
                let is = d == 0 && self.base_root is Some && self.base_root.unwrap() == i;
                self.referrers(d, i) == if is {
                    before.referrers(d, i).insert(e)
                } else if was {
                    before.referrers(d, i).remove(e)
                } else {
                    before.referrers(d, i)
                }
            } by {
            let was = d == 0 && before.base_root is Some && before.base_root.unwrap() == i;
            let is = d == 0 && self.base_root is Some && self.base_root.unwrap() == i;
            let target = if is {
                before.referrers(d, i).insert(e)
            } else if was {
                before.referrers(d, i).remove(e)
            } else {
                before.referrers(d, i)
            };
            assert forall|r: Referrer| self.refers(r, d, i) == target.contains(r) by {
                match r {
                    Referrer::Left { dim, slot } => {
                        assert(self.slot_live(dim, slot) == before.slot_live(dim, slot));
                    },
                    Referrer::Right { dim, slot } => {
                        assert(self.slot_live(dim, slot) == before.slot_live(dim, slot));
                    },
                    Referrer::Next { dim, slot } => {
                        assert(self.slot_live(dim, slot) == before.slot_live(dim, slot));
                    },
                    _ => {},
                }
            }
            assert(self.referrers(d, i) =~= target);
        }
        assert forall|d: int, i: int|
            0 <= d <= before.ndims() && 0 <= i < before.pool_len(d) implies (
        #[trigger] self.referrers(d, i)).len() == before.referrers(d, i).len() - (if d == 0
            && before.base_root is Some && before.base_root.unwrap() == i {
            1int
        } else {
            0int
        }) + (if d == 0 && self.base_root is Some && self.base_root.unwrap() == i {
            1int
        } else {
            0int
        }) by {
            assert(before.referrers(d, i).finite());
            let was = d == 0 && before.base_root is Some && before.base_root.unwrap() == i;
            let is = d == 0 && self.base_root is Some && self.base_root.unwrap() == i;
            assert(was ==> before.referrers(d, i).contains(e));
            assert(!was ==> !before.referrers(d, i).contains(e));
        }
        assert(self.counted()) by {
            assert forall|d: int, i: int|
                0 <= d <= self.ndims() && 0 <= i < self.pool_len(d) implies {
                &&& (#[trigger] self.referrers(d, i)).finite()
                &&& covers(self.count_at(d, i), self.referrers(d, i).len())
            } by {
                assert(before.referrers(d, i).finite());
                assert(self.pool_len(d) == before.pool_len(d));
            }
        }
        assert(self.closed()) by {
            assert forall|d: int, i: int|
                0 <= d < self.ndims() && #[trigger] self.slot_live(d, i) implies {
                &&& self.ptr_live(d, self.node(d, i).left)
                &&& self.ptr_live(d, self.node(d, i).right)
                &&& self.ptr_live(d + 1, self.node(d, i).next)
            } by {
                assert(before.slot_live(d, i));
                let n = before.node(d, i);
                if n.left is Some {
                    assert(self.slot_live(d, n.left.unwrap() as int) == before.slot_live(
                        d,
                        n.left.unwrap() as int,
                    ));
                }
                if n.right is Some {
                    assert(self.slot_live(d, n.right.unwrap() as int) == before.slot_live(
                        d,
                        n.right.unwrap() as int,
                    ));
                }
                if n.next is Some {
                    assert(self.slot_live(d + 1, n.next.unwrap() as int) == before.slot_live(
                        d + 1,
                        n.next.unwrap() as int,
                    ));
                }
            }
        }
        assert(self.extends(before)) by {
            assert forall|d: int, i: int|
                0 <= d < before.ndims() && #[trigger] before.slot_live(
                    d,
                    i,
                ) implies self.slot_live(d, i) && same_links(self.node(d, i), before.node(d, i)) by {
                assert(self.slot_live(d, i) == before.slot_live(d, i));
            }
            assert forall|i: int| #[trigger] before.summaries.live(i) implies self.summaries.live(
                i,
            ) && self.summaries.values@[i] == before.summaries.values@[i] by {
                assert(self.slot_live(self.ndims(), i) == before.slot_live(self.ndims(), i));
            }
        }
        self.lemma_extends_ptr(before, 0, before.width(0), self.base_root);
        if before.base_root is Some {
            let i = before.base_root.unwrap() as int;
            assert(before.slot_live(0, i));
            assert(before.referrers(0, i).finite());
            assert(before.referrers(0, i).contains(e));
            assert(self.referrers(0, i).len() + 1 <= before.referrers(0, i).len() + 1);
        }
        assert forall|d: int, i: int|
            before.spare(d, i) && 0 <= d <= before.ndims() && 0 <= i < before.pool_len(d) && !(d
                == 0 && self.base_root is Some && self.base_root.unwrap() == i) implies self.spare(
            d,
            i,
        ) by {
            assert(before.referrers(d, i).finite());
            let is = d == 0 && self.base_root is Some && self.base_root.unwrap() == i;
            assert(!is);
            assert(self.referrers(d, i).len() <= before.referrers(d, i).len());
        }
    }

    /// Queueing the release of a slot with a reference to spare keeps the
    /// invariant and every answer.
    pub proof fn lemma_release_queued(&self, before: &Self, level: int, slot: int)
        requires
            before.inv(),
            self.same_but_pending(before),
            0 <= level <= before.ndims(),
            0 <= slot < before.pool_len(level),
            before.spare(level, slot),
            self.release_list@ == before.release_list@.push((Some(slot as usize), level as usize)),
        ensures
            self.inv(),
            self.extends(before),
            forall|d: int, i: int|
                before.spare(d, i) && !(d == level && i == slot) ==> self.spare(d, i),
            forall|d: int, i: int| #[trigger] self.slot_live(d, i) == before.slot_live(d, i),
            forall|d: int, i: int|
                0 <= d <= before.ndims() && 0 <= i < before.pool_len(d) ==> (
                #[trigger] self.referrers(d, i)).len() == before.referrers(d, i).len() + if d
                    == level && i == slot {
                    1int
                } else {
                    0int
                },
    {
        assert(self.dims@.len() <= usize::MAX) by {
            assert(self.dims.len() == self.dims@.len());
        }
        assert(self.pool_len(level) <= usize::MAX) by {
            if level < self.ndims() {
                assert(self.dims@[level].nodes.values.len() == self.dims@[level].nodes.values@.len());
            } else {
                assert(self.summaries.values.len() == self.summaries.values@.len());
            }
        }
        assert forall|d: int, i: int|
            0 <= d <= before.ndims() && 0 <= i < before.pool_len(d) implies (
        #[trigger] self.referrers(d, i)).len() == before.referrers(d, i).len() + if d == level
            && i == slot {
            1int
        } else {
            0int
        } by {
            self.lemma_pending_pushed(before, level, slot, d, i);
            assert(before.referrers(d, i).finite());
        }
        assert forall|d: int, i: int| #[trigger] self.slot_live(d, i) == before.slot_live(d, i) by {
            if d == self.dims@.len() {
                assert(self.summaries.is_free(i) == before.summaries.is_free(i));
            }
        }
        assert(self.live_set() =~= before.live_set());
        assert(self.counted()) by {
            assert forall|d: int, i: int|
                0 <= d <= self.ndims() && 0 <= i < self.pool_len(d) implies {
                &&& (#[trigger] self.referrers(d, i)).finite()
                &&& covers(self.count_at(d, i), self.referrers(d, i).len())
            } by {
                self.lemma_pending_pushed(before, level, slot, d, i);
                assert(before.referrers(d, i).finite());
                assert(self.pool_len(d) == before.pool_len(d));
            }
        }
        assert forall|d: int, i: int|
            before.spare(d, i) && !(d == level && i == slot) implies self.spare(d, i) by {
            self.lemma_pending_pushed(before, level, slot, d, i);
        }
        assert(self.pending_ok()) by {
            assert forall|k: int| 0 <= k < self.pending().len() implies {
                &&& (#[trigger] self.pending()[k]).0 is Some
                &&& self.pending()[k].1 <= self.ndims()
                &&& self.pending()[k].0.unwrap() < self.pool_len(self.pending()[k].1 as int)
            } by {
                if k < before.pending().len() {
                    assert(self.pending()[k] == before.pending()[k]);
                }
            }
        }
        assert(self.extends(before)) by {
            assert forall|d: int, i: int|
                0 <= d < before.ndims() && #[trigger] before.slot_live(
                    d,
                    i,
                ) implies self.slot_live(d, i) && same_links(self.node(d, i), before.node(d, i)) by {
                assert(self.slot_live(d, i) == before.slot_live(d, i));
            }
            assert forall|i: int| #[trigger] before.summaries.live(i) implies self.summaries.live(
                i,
            ) && self.summaries.values@[i] == before.summaries.values@[i] by {
                assert(self.slot_live(self.ndims(), i) == before.slot_live(self.ndims(), i));
            }
        }
        assert(self.closed()) by {
            assert forall|d: int, i: int|
                0 <= d < self.ndims() && #[trigger] self.slot_live(d, i) implies {
                &&& self.ptr_live(d, self.node(d, i).left)
                &&& self.ptr_live(d, self.node(d, i).right)
                &&& self.ptr_live(d + 1, self.node(d, i).next)
            } by {
                assert(before.slot_live(d, i));
                let n = before.node(d, i);
                if n.left is Some {
                    assert(self.slot_live(d, n.left.unwrap() as int) == before.slot_live(
                        d,
                        n.left.unwrap() as int,
                    ));
                }
                if n.right is Some {
                    assert(self.slot_live(d, n.right.unwrap() as int) == before.slot_live(
                        d,
                        n.right.unwrap() as int,
                    ));
                }
                if n.next is Some {
                    assert(self.slot_live(d + 1, n.next.unwrap() as int) == before.slot_live(
                        d + 1,
                        n.next.unwrap() as int,
                    ));
                }
            }
        }
        self.lemma_extends_ptr(before, 0, before.width(0), before.base_root);
    }
}

impl<Summary: Monoid> Nanocube<Summary> {
    /// Raising the count of the slot that one more link leads to makes the
    /// counts account for that link too. `which` is 0 for `left`, 1 for
    /// `right`, 2 for `next`, and anything else where nothing was raised.
    pub proof fn lemma_link_raised(
        &self,
        prev: &Self,
        base: &Self,
        dim: int,
        left: NodePointerType,
        right: NodePointerType,
        next: NodePointerType,
        which: int,
    )
        requires
            base.inv(),
            0 <= dim < base.ndims(),
            prev.same_but_counts(base),
            self.same_but_counts(prev),
            which == 0 ==> left is Some && left.unwrap() < base.pool_len(dim)
                && prev.counted_plus(base, dim, None, None, None) && prev.held_over(
                base,
                dim,
                None,
                None,
                None,
            ) && prev.counts_raised(base, dim, None, None, None),
            which == 1 ==> right is Some && right.unwrap() < base.pool_len(dim)
                && prev.counted_plus(base, dim, left, None, None) && prev.held_over(
                base,
                dim,
                left,
                None,
                None,
            ) && prev.counts_raised(base, dim, left, None, None),
            which == 2 ==> next is Some && next.unwrap() < base.pool_len(dim + 1)
                && prev.counted_plus(base, dim, left, right, None) && prev.held_over(
                base,
                dim,
                left,
                right,
                None,
            ) && prev.counts_raised(base, dim, left, right, None),
            !(0 <= which <= 2) ==> left is None && right is None && next is None && self == base,
            0 <= which <= 2 ==> {
                let lvl = if which == 2 {
                    dim + 1
                } else {
                    dim
                };
                let t = if which == 0 {
                    left.unwrap() as int
                } else if which == 1 {
                    right.unwrap() as int
                } else {
                    next.unwrap() as int
                };
                &&& self.count_at(lvl, t) == Self::raised(prev.count_at(lvl, t))
                &&& forall|d: int, i: int|
                    0 <= d <= prev.ndims() && 0 <= i < prev.pool_len(d) && !(d == lvl && i == t)
                        ==> self.count_at(d, i) == prev.count_at(d, i)
            },
        ensures
            self.same_but_counts(base),
            self.counted_plus(
                base,
                dim,
                left,
                if which == 0 {
                    None
                } else {
                    right
                },
                if which == 2 {
                    next
                } else {
                    None
                },
            ),
            self.held_over(
                base,
                dim,
                left,
                if which == 0 {
                    None
                } else {
                    right
                },
                if which == 2 {
                    next
                } else {
                    None
                },
            ),
            self.counts_raised(
                base,
                dim,
                left,
                if which == 0 {
                    None
                } else {
                    right
                },
                if which == 2 {
                    next
                } else {
                    None
                },
            ),
    {
        let r2 = if which == 0 {
            None
        } else {
            right
        };
        let n2 = if which == 2 {
            next
        } else {
            None
        };
        prev.lemma_same_but_counts(base);
        assert forall|d: int, i: int| 0 <= d <= base.ndims() && 0 <= i < base.pool_len(d) implies {
            &&& (#[trigger] base.referrers(d, i)).finite()
            &&& covers(
                self.count_at(d, i),
                base.referrers(d, i).len() + links_to(dim, left, r2, n2, d, i),
            )
        } by {
            assert(covers(base.count_at(d, i), base.referrers(d, i).len()));
            assert(prev.pool_len(d) == base.pool_len(d));
        }
        assert forall|d: int, i: int| #[trigger] base.held(d, i) implies covers(
            self.count_at(d, i),
            base.referrers(d, i).len() + 1 + links_to(dim, left, r2, n2, d, i),
        ) by {
            assert(0 <= d <= base.ndims() && 0 <= i < base.pool_len(d));
            assert(prev.pool_len(d) == base.pool_len(d));
        }
        assert forall|d: int, i: int|
            0 <= d <= base.ndims() && 0 <= i < base.pool_len(d) implies #[trigger] self.count_at(
            d,
            i,
        ) >= base.count_at(d, i) && (links_to(dim, left, r2, n2, d, i) > 0 ==> self.count_at(d, i)
            > 0) && (self.count_at(d, i) < usize::MAX ==> self.count_at(d, i) == base.count_at(d, i)
            + links_to(dim, left, r2, n2, d, i)) by {
            assert(prev.pool_len(d) == base.pool_len(d));
            if 0 <= which <= 2 {
                assert(prev.count_at(d, i) >= base.count_at(d, i));
            }
        }
    }

    /// A cube to which a node was added, after the counts of the slots that
    /// its links lead to were raised, satisfies the invariant, extends the
    /// cube that it was, and holds what was held.
    pub proof fn lemma_node_added(&self, raised: &Self, base: &Self, level: int, slot: int)
        requires
            base.inv(),
            0 <= level < base.ndims(),
            raised.shape_ok(),
            raised.same_but_counts(base),
            self.shape_ok(),
            self.grown_by(raised, level, slot),
            forall|d: int| #[trigger]
                self.pool_len(d) <= raised.pool_len(d) + if d == level {
                    1nat
                } else {
                    0nat
                },
            forall|d: int, i: int|
                0 <= d <= raised.ndims() && 0 <= i < raised.pool_len(d) ==> self.count_at(d, i)
                    == raised.count_at(d, i),
            base.ptr_live(level, self.node(level, slot).left),
            base.ptr_live(level, self.node(level, slot).right),
            base.ptr_live(level + 1, self.node(level, slot).next),
            raised.counted_plus(
                base,
                level,
                self.node(level, slot).left,
                self.node(level, slot).right,
                self.node(level, slot).next,
            ),
            raised.held_over(
                base,
                level,
                self.node(level, slot).left,
                self.node(level, slot).right,
                self.node(level, slot).next,
            ),
            raised.counts_raised(
                base,
                level,
                self.node(level, slot).left,
                self.node(level, slot).right,
                self.node(level, slot).next,
            ),
            self.count_at(level, slot) == 0,
            self.pool_len(level) > raised.pool_len(level) ==> slot == raised.pool_len(level),
            forall|d: int, i: int|
                0 <= d < self.ndims() && 0 <= i < self.pool_len(d) ==> #[trigger] self.mark_at(d, i)
                    == 0 || (i < base.pool_len(d) && self.mark_at(d, i) == base.mark_at(d, i)),
        ensures
            self.inv(),
            self.extends(base),
            forall|d: int, i: int| #[trigger] base.held(d, i) ==> self.held(d, i),
            self.tallied_from(base),
    {
        let left = self.node(level, slot).left;
        let right = self.node(level, slot).right;
        let next = self.node(level, slot).next;
        raised.lemma_same_but_counts(base);
        assert(self.counted_plus(raised, level, left, right, next)) by {
            assert forall|d: int, i: int|
                0 <= d <= raised.ndims() && 0 <= i < raised.pool_len(d) implies {
                &&& (#[trigger] raised.referrers(d, i)).finite()
                &&& covers(
                    self.count_at(d, i),
                    raised.referrers(d, i).len() + links_to(level, left, right, next, d, i),
                )
            } by {
                assert(raised.referrers(d, i) == base.referrers(d, i));
                assert(raised.pool_len(d) == base.pool_len(d));
                assert(base.referrers(d, i).finite());
            }
        }
        assert(raised.wf_ptr(0, raised.width(0), raised.base_root)) by {
            raised.lemma_extends_ptr(base, 0, base.width(0), base.base_root);
            assert(raised.dims@[0].width == base.dims@[0].width);
        }
        assert(raised.ptr_live(level, left)) by {
            if left is Some {
                assert(raised.slot_live(level, left.unwrap() as int) == base.slot_live(
                    level,
                    left.unwrap() as int,
                ));
            }
        }
        assert(raised.ptr_live(level, right)) by {
            if right is Some {
                assert(raised.slot_live(level, right.unwrap() as int) == base.slot_live(
                    level,
                    right.unwrap() as int,
                ));
            }
        }
        assert(raised.ptr_live(level + 1, next)) by {
            if next is Some {
                assert(raised.slot_live(level + 1, next.unwrap() as int) == base.slot_live(
                    level + 1,
                    next.unwrap() as int,
                ));
            }
        }
        let keep = Set::new(|s: (int, int)| base.held(s.0, s.1));
        assert forall|d: int, i: int|
            #![trigger keep.contains((d, i))]
            keep.contains((d, i)) implies {
            &&& raised.slot_live(d, i)
            &&& covers(
                self.count_at(d, i),
                raised.referrers(d, i).len() + 1 + links_to(level, left, right, next, d, i),
            )
        } by {
            assert(base.held(d, i));
            assert(0 <= d <= base.ndims() && 0 <= i < base.pool_len(d));
            assert(raised.slot_live(d, i) == base.slot_live(d, i));
            assert(raised.referrers(d, i) == base.referrers(d, i));
            assert(raised.pool_len(d) == base.pool_len(d));
            assert(self.count_at(d, i) == raised.count_at(d, i));
        }
        self.lemma_grown_inv(raised, level, slot, keep);
        self.lemma_extends_trans(raised, base);
        assert forall|d: int, i: int| #[trigger] base.held(d, i) implies self.held(d, i) by {
            assert(keep.contains((d, i)));
        }
        assert forall|d: int| #[trigger] self.pool_len(d) >= base.pool_len(d) by {
            assert(raised.pool_len(d) == base.pool_len(d));
        }
        assert forall|d: int, i: int|
            0 <= d <= base.ndims() && 0 <= i < base.pool_len(d) && #[trigger] base.count_at(d, i)
                == usize::MAX implies self.count_at(d, i) == usize::MAX by {
            assert(raised.pool_len(d) == base.pool_len(d));
            assert(raised.count_at(d, i) >= base.count_at(d, i));
        }
        {
            assert forall|d: int, i: int|
                0 <= d <= base.ndims() && 0 <= i < base.pool_len(d) implies #[trigger] self.excess(
                d,
                i,
            ) == base.excess(d, i) || self.count_at(d, i) == usize::MAX by {
                assert(raised.pool_len(d) == base.pool_len(d));
                assert(self.pool_len(d) >= raised.pool_len(d));
                assert(raised.referrers(d, i) == base.referrers(d, i));
                assert(self.referrers(d, i).len() == raised.referrers(d, i).len() + links_to(
                    level,
                    left,
                    right,
                    next,
                    d,
                    i,
                ));
                assert(self.count_at(d, i) == raised.count_at(d, i));
                assert(raised.count_at(d, i) >= base.count_at(d, i));
            }
            assert forall|d: int, i: int|
                0 <= d <= base.ndims() && base.pool_len(d) <= i < self.pool_len(
                    d,
                ) implies #[trigger] self.excess(d, i) == 0 || self.count_at(d, i)
                == usize::MAX by {
                assert(raised.pool_len(d) == base.pool_len(d));
                assert(self.pool_len(d) <= raised.pool_len(d) + if d == level {
                    1nat
                } else {
                    0nat
                });
                assert(d == level && i == slot);
                assert(raised.referrers(d, i).len() == 0);
                assert(self.referrers(d, i).len() == raised.referrers(d, i).len() + links_to(
                    level,
                    left,
                    right,
                    next,
                    d,
                    i,
                ));
                assert(links_to(level, left, right, next, d, i) == 0) by {
                    if left is Some {
                        assert(base.slot_live(level, left.unwrap() as int));
                    }
                    if right is Some {
                        assert(base.slot_live(level, right.unwrap() as int));
                    }
                    if next is Some {
                        assert(base.slot_live(level + 1, next.unwrap() as int));
                    }
                }
            }
        }
    }
}

impl<Summary: Monoid + PartialOrd + Copy> Nanocube<Summary> {
    /// Adds one to the count of slot `index` of level `dim`, unless the count
    /// has reached the largest value, and returns the count.
    fn bump(&mut self, index: usize, dim: usize) -> (count: usize)
        requires
            old(self).shape_ok(),
            dim <= old(self).dims@.len(),
            index < old(self).pool_len(dim as int),
        ensures
            final(self).same_but_counts(old(self)),
            old(self).unmarked() ==> final(self).unmarked(),
            count == if old(self).count_at(dim as int, index as int) < usize::MAX {
                (old(self).count_at(dim as int, index as int) + 1) as usize
            } else {
                usize::MAX
            },
            final(self).count_at(dim as int, index as int) == count,
            forall|d: int, i: int|
                0 <= d <= old(self).ndims() && 0 <= i < old(self).pool_len(d) && !(d == dim && i
                    == index) ==> final(self).count_at(d, i) == old(self).count_at(d, i),
            old(self).slot_live(dim as int, index as int) ==> final(self).shape_ok(),
            old(self).inv() && old(self).slot_live(dim as int, index as int) ==> final(self).inv()
                && final(self).spare(dim as int, index as int),
            old(self).inv() && old(self).slot_live(dim as int, index as int) ==> forall|
                d: int,
                i: int,
            | #[trigger] old(self).held(d, i) ==> final(self).held(d, i),
            old(self).inv() && old(self).slot_live(dim as int, index as int) ==> forall|
                q: Seq<(usize, usize)>,
            | #[trigger] final(self).answer_to(q) == old(self).answer_to(q),
            forall|d: int, i: int| #[trigger]
                final(self).loose(d, i) ==> old(self).loose(d, i) && !(d == dim && i == index),
            final(self).excess_shifted(old(self), dim as int, index as int, 1),
            old(self).ranked() ==> final(self).ranked(),
    {
        let ghost before = *self;
        let count = self.bump_count(index, dim);
        proof {
            if before.inv() && before.slot_live(dim as int, index as int) {
                self.lemma_raised_inv(&before, dim as int, index as int);
            }
            self.lemma_same_but_counts(&before);
            assert forall|d: int, i: int| #[trigger] self.loose(d, i) implies before.loose(d, i)
                && !(d == dim && i == index) by {
                assert(self.slot_live(d, i) == before.slot_live(d, i));
                assert(0 <= i < before.pool_len(d));
            }
            assert(self.excess_shifted(&before, dim as int, index as int, 1)) by {
                assert forall|dd: int, j: int|
                    0 <= dd <= before.ndims() && 0 <= j < before.pool_len(
                        dd,
                    ) implies #[trigger] self.excess(dd, j) == before.excess(dd, j) + (if dd == dim
                    && j == index {
                    1int
                } else {
                    0int
                }) || self.count_at(dd, j) == usize::MAX by {
                    assert(self.referrers(dd, j) == before.referrers(dd, j));
                    assert(self.pool_len(dd) == before.pool_len(dd));
                }
            }
        }
        count
    }

    /// Adds one to the count of slot `index` of level `dim`, unless the count
    /// has reached the largest value, and returns the count.
    fn bump_count(&mut self, index: usize, dim: usize) -> (count: usize)
        requires
            old(self).shape_ok(),
            dim <= old(self).dims@.len(),
            index < old(self).pool_len(dim as int),
        ensures
            final(self).same_but_counts(old(self)),
            old(self).unmarked() ==> final(self).unmarked(),
            count == Self::raised(old(self).count_at(dim as int, index as int)),
            final(self).count_at(dim as int, index as int) == count,
            forall|d: int, i: int|
                0 <= d <= old(self).ndims() && 0 <= i < old(self).pool_len(d) && !(d == dim && i
                    == index) ==> final(self).count_at(d, i) == old(self).count_at(d, i),
            old(self).slot_live(dim as int, index as int) ==> final(self).shape_ok(),
    {
        let ghost before = *self;
        let count = if dim == self.dims.len() {
            if self.summaries.ref_counts[index] < usize::MAX {
                self.summaries.make_ref(index)
            } else {
                usize::MAX
            }
        } else {
            assert(old(self).dims@[dim as int].nodes.wf());
            if self.dims[dim].nodes.ref_counts[index] < usize::MAX {
                let count = self.dims[dim].nodes.make_ref(index);
                assert(forall|d: int|
                    0 <= d < self.dims@.len() && d != dim ==> self.dims@[d] == old(self).dims@[d]);
                count
            } else {
                usize::MAX
            }
        };
        proof {
            if before.unmarked() {
                self.lemma_unmarked_same(&before);
            }
        }
        count
    }

    /// Stores `summary` in a slot of the summary pool and returns the slot.
    /// Nothing refers to the slot yet.
    pub fn new_summary(&mut self, summary: Summary) -> (idx: usize)
        requires
            old(self).inv(),
        ensures
            final(self).inv(),
            final(self).extends(old(self)),
            final(self).base_root == old(self).base_root,
            final(self).release_list@ == old(self).release_list@,
            final(self).summaries.live(idx as int),
            !old(self).summaries.live(idx as int),
            final(self).summaries.values@[idx as int] == summary,
            final(self).wf_node(final(self).ndims(), 0, idx as int),
            forall|d: int, i: int| #[trigger] old(self).held(d, i) ==> final(self).held(d, i),
            forall|d: int, i: int| #[trigger]
                final(self).loose(d, i) ==> (d == old(self).ndims() && i == idx) || old(self).loose(
                    d,
                    i,
                ),
            final(self).tallied_from(old(self)),
            forall|d: int, i: int| #[trigger]
                final(self).slot_live(d, i) ==> old(self).slot_live(d, i) || (d == old(self).ndims()
                    && i == idx),
            old(self).ranked() ==> final(self).ranked(),
            final(self).dims@ == old(self).dims@,
            final(self).count_at(old(self).ndims(), idx as int) == 0,
            final(self).keeps_marks(old(self)),
            forall|d: int|
                0 <= d <= old(self).ndims() ==> #[trigger] final(self).live_count(d) == old(self).live_count(d) + if d == old(self).ndims() {
                    1int
                } else {
                    0int
                },
            forall|d: int|
                0 <= d <= old(self).ndims() ==> #[trigger] final(self).free_count(d) == left_free(
                    old(self).free_count(d),
                    if d == old(self).ndims() {
                        1int
                    } else {
                        0int
                    },
                ),
    {
        let ghost before = *self;
        let idx = self.summaries.insert(summary);
        proof {
            let level = before.ndims();
            assert(self.dims@ == before.dims@);
            assert(self.grown_by(&before, level, idx as int)) by {
                assert forall|d: int, i: int|
                    !(d == level && i == idx) implies #[trigger] self.slot_live(d, i)
                    == before.slot_live(d, i) by {
                    if d == level {
                        if before.summaries.live(i) {
                            assert(self.summaries.live(i));
                        }
                        if self.summaries.live(i) {
                            assert(before.summaries.live(i));
                        }
                    }
                }
            }
            assert(self.counted_plus(&before, level, None, None, None)) by {
                assert forall|d: int, i: int|
                    0 <= d <= before.ndims() && 0 <= i < before.pool_len(d) implies {
                    &&& (#[trigger] before.referrers(d, i)).finite()
                    &&& covers(
                        self.count_at(d, i),
                        before.referrers(d, i).len() + links_to(level, None, None, None, d, i),
                    )
                } by {
                    assert(self.count_at(d, i) == before.count_at(d, i));
                }
            }
            let keep = Set::new(|s: (int, int)| before.held(s.0, s.1));
            assert forall|d: int, i: int|
                #![trigger keep.contains((d, i))]
                keep.contains((d, i)) implies {
                &&& before.slot_live(d, i)
                &&& covers(self.count_at(d, i), before.referrers(d, i).len() + 1)
            } by {
                assert(before.held(d, i));
                assert(0 <= d <= before.ndims() && 0 <= i < before.pool_len(d));
                assert(self.count_at(d, i) == before.count_at(d, i));
            }
            self.lemma_grown_inv(&before, level, idx as int, keep);
            assert forall|d: int, i: int| #[trigger] before.held(d, i) implies self.held(d, i) by {
                assert(keep.contains((d, i)));
            }
            assert forall|d: int, i: int| #[trigger] self.loose(d, i) implies (d == level && i
                == idx) || before.loose(d, i) by {
                if !(d == level && i == idx) {
                    assert(self.slot_live(d, i) == before.slot_live(d, i));
                    assert(0 <= i < before.pool_len(d));
                    assert(self.count_at(d, i) == before.count_at(d, i));
                }
            }
            assert forall|d: int, i: int| #[trigger] self.slot_live(d, i) implies before.slot_live(
                d,
                i,
            ) || (d == level && i == idx) by {
                if !(d == level && i == idx) {
                    assert(self.slot_live(d, i) == before.slot_live(d, i));
                }
            }
            if before.ranked() {
                self.lemma_ranked_extended(&before, Set::empty());
            }
            assert(self.tallied_from(&before)) by {
                assert forall|d: int, i: int|
                    0 <= d <= before.ndims() && 0 <= i < self.pool_len(
                        d,
                    ) implies #[trigger] self.excess(d, i) == (if i < before.pool_len(d) {
                    before.excess(d, i)
                } else {
                    0
                }) by {
                    assert(self.referrers(d, i).len() == before.referrers(d, i).len());
                    if i < before.pool_len(d) {
                        assert(self.count_at(d, i) == before.count_at(d, i));
                    } else {
                        assert(before.referrers(d, i).len() == 0);
                        assert(d == level && i == idx);
                    }
                }
            }
        }
        idx
    }

    /// Takes a reference to each slot that the three links of a node of
    /// dimension `dim` lead to.
    fn take_links(
        &mut self,
        dim: usize,
        left: NodePointerType,
        right: NodePointerType,
        next: NodePointerType,
    )
        requires
            old(self).inv(),
            dim < old(self).dims@.len(),
            old(self).ptr_live(dim as int, left),
            old(self).ptr_live(dim as int, right),
            old(self).ptr_live(dim + 1, next),
        ensures
            final(self).shape_ok(),
            final(self).same_but_counts(old(self)),
            old(self).unmarked() ==> final(self).unmarked(),
            final(self).counted_plus(old(self), dim as int, left, right, next),
            final(self).held_over(old(self), dim as int, left, right, next),
            final(self).counts_raised(old(self), dim as int, left, right, next),
    {
        let ghost s0 = *self;
        let ghost d0 = dim as int;
        proof {
            s0.lemma_link_raised(&s0, &s0, d0, None, None, None, -1);
        }
        if left.is_some() {
            self.bump_count(left.unwrap(), dim);
            proof {
                self.lemma_link_raised(&s0, &s0, d0, left, None, None, 0);
            }
        }
        let ghost s1 = *self;
        if right.is_some() {
            proof {
                s1.lemma_same_but_counts(&s0);
            }
            self.bump_count(right.unwrap(), dim);
            proof {
                self.lemma_link_raised(&s1, &s0, d0, left, right, None, 1);
            }
        }
        let ghost s2 = *self;
        assert(dim < self.dims.len());
        if next.is_some() {
            proof {
                s2.lemma_same_but_counts(&s0);
            }
            self.bump_count(next.unwrap(), dim + 1);
            proof {
                self.lemma_link_raised(&s2, &s0, d0, left, right, next, 2);
            }
        }
    }

    /// Creates a node of dimension `dim` with the given links, takes a
    /// reference to each slot that the links lead to, and returns the node's
    /// slot. Nothing refers to the new node yet.
    pub fn new_node(
        &mut self,
        dim: usize,
        left: NodePointerType,
        right: NodePointerType,
        next: NodePointerType,
    ) -> (idx: usize)
        requires
            old(self).inv(),
            dim < old(self).dims@.len(),
            old(self).ptr_live(dim as int, left),
            old(self).ptr_live(dim as int, right),
            old(self).ptr_live(dim + 1, next),
        ensures
            final(self).inv(),
            final(self).extends(old(self)),
            final(self).base_root == old(self).base_root,
            final(self).release_list@ == old(self).release_list@,
            final(self).slot_live(dim as int, idx as int),
            !old(self).slot_live(dim as int, idx as int),
            final(self).node(dim as int, idx as int) == (NCDimNode { left, right, next, flags: 0 }),
            forall|d: int, i: int| #[trigger] old(self).held(d, i) ==> final(self).held(d, i),
            forall|d: int, i: int| #[trigger]
                final(self).loose(d, i) ==> (d == dim && i == idx) || (old(self).loose(d, i)
                    && links_to(dim as int, left, right, next, d, i) == 0),
            final(self).tallied_from(old(self)),
            forall|d: int, i: int| #[trigger]
                final(self).slot_live(d, i) ==> old(self).slot_live(d, i) || (d == dim && i == idx),
            final(self).count_at(dim as int, idx as int) == 0,
            final(self).keeps_marks(old(self)),
            forall|d: int|
                0 <= d <= old(self).ndims() ==> #[trigger] final(self).live_count(d) == old(self).live_count(d) + if d == dim {
                    1int
                } else {
                    0int
                },
            forall|d: int|
                0 <= d <= old(self).ndims() ==> #[trigger] final(self).free_count(d) == left_free(
                    old(self).free_count(d),
                    if d == dim {
                        1int
                    } else {
                        0int
                    },
                ),
    {
        let ghost s0 = *self;
        let ghost d0 = dim as int;
        self.take_links(dim, left, right, next);
        let ghost s3 = *self;
        let node = NCDimNode { left, right, next, flags: 0 };
        let idx = self.dims[dim].nodes.insert(node);
        proof {
            s3.lemma_same_but_counts(&s0);
            assert(forall|d: int|
                0 <= d < self.dims@.len() && d != dim ==> self.dims@[d] == s3.dims@[d]);
            assert(self.grown_by(&s3, d0, idx as int)) by {
                assert forall|d: int, i: int|
                    !(d == d0 && i == idx) implies #[trigger] self.slot_live(d, i) == s3.slot_live(
                    d,
                    i,
                ) by {
                    if d == d0 {
                        if s3.dims@[d0].nodes.live(i) {
                            assert(self.dims@[d0].nodes.live(i));
                        }
                        if self.dims@[d0].nodes.live(i) {
                            assert(s3.dims@[d0].nodes.live(i));
                        }
                    }
                }
                assert forall|d: int, i: int|
                    0 <= d < s3.ndims() && #[trigger] s3.slot_live(d, i) implies self.node(d, i)
                    == s3.node(d, i) by {}
            }
            assert forall|d: int, i: int|
                0 <= d < self.ndims() && 0 <= i < self.pool_len(d) implies #[trigger] self.mark_at(
                d,
                i,
            ) == 0 || (i < s0.pool_len(d) && self.mark_at(d, i) == s0.mark_at(d, i)) by {
                if !(d == d0 && i == idx) {
                    assert(self.node(d, i) == s3.node(d, i));
                    assert(s3.node(d, i) == s0.node(d, i));
                    assert(s3.pool_len(d) == s0.pool_len(d));
                }
            }
            self.lemma_node_added(&s3, &s0, d0, idx as int);
            assert forall|d: int, i: int| #[trigger] self.slot_live(d, i) implies s0.slot_live(d, i)
                || (d == dim && i == idx) by {
                if !(d == dim && i == idx) {
                    assert(self.slot_live(d, i) == s3.slot_live(d, i));
                    assert(s3.slot_live(d, i) == s0.slot_live(d, i));
                }
            }
            assert forall|d: int, i: int| #[trigger] self.loose(d, i) implies (d == dim && i == idx)
                || (s0.loose(d, i) && links_to(d0, left, right, next, d, i) == 0) by {
                if !(d == dim && i == idx) {
                    assert(self.slot_live(d, i) == s3.slot_live(d, i));
                    assert(s3.slot_live(d, i) == s0.slot_live(d, i));
                    assert(0 <= i < s0.pool_len(d));
                    assert(s3.pool_len(d) == s0.pool_len(d));
                    assert(self.count_at(d, i) == s3.count_at(d, i));
                    assert(s3.count_at(d, i) >= s0.count_at(d, i));
                }
            }
        }
        idx
    }

    /// Takes a reference to slot `node_index` of dimension `dim`, which is
    /// neither null nor a summary, and returns the slot's count.
    #[inline]
    pub fn make_node_ref_not_summary_or_null(
        &mut self,
        node_index: NodePointerType,
        dim: usize,
    ) -> (count: usize)
        requires
            old(self).shape_ok(),
            dim < old(self).dims@.len(),
            node_index is Some,
            node_index.unwrap() < old(self).pool_len(dim as int),
        ensures
            final(self).same_but_counts(old(self)),
            old(self).unmarked() ==> final(self).unmarked(),
            count == Self::raised(old(self).count_at(dim as int, node_index.unwrap() as int)),
            final(self).count_at(dim as int, node_index.unwrap() as int) == count,
            forall|d: int, i: int|
                0 <= d <= old(self).ndims() && 0 <= i < old(self).pool_len(d) && !(d == dim && i
                    == node_index.unwrap()) ==> final(self).count_at(d, i) == old(self).count_at(
                    d,
                    i,
                ),
            old(self).inv() && old(self).slot_live(dim as int, node_index.unwrap() as int)
                ==> final(self).inv() && final(self).spare(
                dim as int,
                node_index.unwrap() as int,
            ),
            old(self).inv() && old(self).slot_live(dim as int, node_index.unwrap() as int)
                ==> forall|d: int, i: int| #[trigger] old(self).held(d, i) ==> final(self).held(d, i),
            old(self).inv() && old(self).slot_live(dim as int, node_index.unwrap() as int)
                ==> forall|q: Seq<(usize, usize)>| #[trigger]
                final(self).answer_to(q) == old(self).answer_to(q),
            forall|d: int, i: int| #[trigger]
                final(self).loose(d, i) ==> old(self).loose(d, i) && !(d == dim && i
                    == node_index.unwrap()),
            final(self).excess_shifted(old(self), dim as int, node_index.unwrap() as int, 1),
            old(self).ranked() ==> final(self).ranked(),
    {
        self.bump(node_index.unwrap(), dim)
    }

    /// Takes a reference to slot `node_index` of level `dim`, which is not
    /// null, and returns the slot's count. Level `dims.len()` is the summary
    /// pool.
    #[inline]
    pub fn make_node_ref_not_null(&mut self, node_index: NodePointerType, dim: usize) -> (count:
        usize)
        requires
            old(self).shape_ok(),
            dim <= old(self).dims@.len(),
            node_index is Some,
            node_index.unwrap() < old(self).pool_len(dim as int),
        ensures
            final(self).same_but_counts(old(self)),
            old(self).unmarked() ==> final(self).unmarked(),
            count == Self::raised(old(self).count_at(dim as int, node_index.unwrap() as int)),
            final(self).count_at(dim as int, node_index.unwrap() as int) == count,
            forall|d: int, i: int|
                0 <= d <= old(self).ndims() && 0 <= i < old(self).pool_len(d) && !(d == dim && i
                    == node_index.unwrap()) ==> final(self).count_at(d, i) == old(self).count_at(
                    d,
                    i,
                ),
            old(self).inv() && old(self).slot_live(dim as int, node_index.unwrap() as int)
                ==> final(self).inv() && final(self).spare(
                dim as int,
                node_index.unwrap() as int,
            ),
            old(self).inv() && old(self).slot_live(dim as int, node_index.unwrap() as int)
                ==> forall|d: int, i: int| #[trigger] old(self).held(d, i) ==> final(self).held(d, i),
            old(self).inv() && old(self).slot_live(dim as int, node_index.unwrap() as int)
                ==> forall|q: Seq<(usize, usize)>| #[trigger]
                final(self).answer_to(q) == old(self).answer_to(q),
            forall|d: int, i: int| #[trigger]
                final(self).loose(d, i) ==> old(self).loose(d, i) && !(d == dim && i
                    == node_index.unwrap()),
            final(self).excess_shifted(old(self), dim as int, node_index.unwrap() as int, 1),
            old(self).ranked() ==> final(self).ranked(),
    {
        self.bump(node_index.unwrap(), dim)
    }

    /// Takes a reference to slot `node_index` of dimension `dim` and returns
    /// the slot's count; for the null pointer does nothing and returns zero.
    #[inline]
    pub fn make_node_ref_not_summary(&mut self, node_index: NodePointerType, dim: usize) -> (count:
        usize)
        requires
            old(self).shape_ok(),
            dim < old(self).dims@.len(),
            node_index is Some ==> node_index.unwrap() < old(self).pool_len(dim as int),
        ensures
            final(self).same_but_counts(old(self)),
            old(self).unmarked() ==> final(self).unmarked(),
            node_index is None ==> count == 0 && *final(self) == *old(self),
            node_index is Some ==> {
                &&& count == Self::raised(old(self).count_at(dim as int, node_index.unwrap() as int))
                &&& final(self).count_at(dim as int, node_index.unwrap() as int) == count
            },
            forall|d: int, i: int|
                0 <= d <= old(self).ndims() && 0 <= i < old(self).pool_len(d) && !(d == dim
                    && node_index == Some(i as usize)) ==> final(self).count_at(d, i)
                    == old(self).count_at(d, i),
            old(self).inv() && old(self).ptr_live(dim as int, node_index) ==> final(self).inv() && (
            node_index is Some ==> final(self).spare(dim as int, node_index.unwrap() as int)),
            old(self).inv() && old(self).ptr_live(dim as int, node_index) ==> forall|
                d: int,
                i: int,
            | #[trigger] old(self).held(d, i) ==> final(self).held(d, i),
            old(self).inv() && old(self).ptr_live(dim as int, node_index) ==> forall|
                q: Seq<(usize, usize)>,
            | #[trigger] final(self).answer_to(q) == old(self).answer_to(q),
            forall|d: int, i: int| #[trigger]
                final(self).loose(d, i) ==> old(self).loose(d, i) && !(d == dim && node_index
                    is Some && i == node_index.unwrap()),
            node_index is Some ==> final(self).excess_shifted(
                old(self),
                dim as int,
                node_index.unwrap() as int,
                1,
            ),
            old(self).ranked() ==> final(self).ranked(),
    {
        if node_index.is_none() {
            return 0;
        }
        self.bump(node_index.unwrap(), dim)
    }

    /// Takes a reference to slot `node_index` of level `dim` and returns the
    /// slot's count; for the null pointer does nothing and returns zero. Level
    /// `dims.len()` is the summary pool.
    #[inline]
    pub fn make_node_ref(&mut self, node_index: NodePointerType, dim: usize) -> (count: usize)
        requires
            old(self).shape_ok(),
            dim <= old(self).dims@.len(),
            node_index is Some ==> node_index.unwrap() < old(self).pool_len(dim as int),
        ensures
            final(self).same_but_counts(old(self)),
            old(self).unmarked() ==> final(self).unmarked(),
            node_index is None ==> count == 0 && *final(self) == *old(self),
            node_index is Some ==> {
                &&& count == Self::raised(old(self).count_at(dim as int, node_index.unwrap() as int))
                &&& final(self).count_at(dim as int, node_index.unwrap() as int) == count
            },
            forall|d: int, i: int|
                0 <= d <= old(self).ndims() && 0 <= i < old(self).pool_len(d) && !(d == dim
                    && node_index == Some(i as usize)) ==> final(self).count_at(d, i)
                    == old(self).count_at(d, i),
            old(self).inv() && old(self).ptr_live(dim as int, node_index) ==> final(self).inv() && (
            node_index is Some ==> final(self).spare(dim as int, node_index.unwrap() as int)),
            old(self).inv() && old(self).ptr_live(dim as int, node_index) ==> forall|
                d: int,
                i: int,
            | #[trigger] old(self).held(d, i) ==> final(self).held(d, i),
            old(self).inv() && old(self).ptr_live(dim as int, node_index) ==> forall|
                q: Seq<(usize, usize)>,
            | #[trigger] final(self).answer_to(q) == old(self).answer_to(q),
            forall|d: int, i: int| #[trigger]
                final(self).loose(d, i) ==> old(self).loose(d, i) && !(d == dim && node_index
                    is Some && i == node_index.unwrap()),
            node_index is Some ==> final(self).excess_shifted(
                old(self),
                dim as int,
                node_index.unwrap() as int,
                1,
            ),
            old(self).ranked() ==> final(self).ranked(),
    {
        if node_index.is_none() {
            return 0;
        }
        self.bump(node_index.unwrap(), dim)
    }

    /// Makes `p` the root. The reference that the root holds comes from the
    /// spare one of `p`; the one that it held on the old root is left spare.
    pub(crate) fn set_root(&mut self, p: NodePointerType)
        requires
            old(self).inv(),
            old(self).wf_ptr(0, old(self).width(0), p),
            p is Some ==> old(self).spare(0, p.unwrap() as int),
        ensures
            final(self).inv(),
            final(self).extends(old(self)),
            final(self).base_root == p,
            final(self).dims@ == old(self).dims@,
            final(self).release_list@ == old(self).release_list@,
            old(self).base_root is Some ==> final(self).spare(
                0,
                old(self).base_root.unwrap() as int,
            ),
            forall|d: int, i: int|
                #[trigger] old(self).held(d, i) && !(d == 0 && p is Some && p.unwrap() == i)
                    ==> final(self).held(d, i),
            old(self).base_root is Some ==> final(self).held(0, old(self).base_root.unwrap() as int),
            forall|d: int, i: int| #[trigger] final(self).loose(d, i) == old(self).loose(d, i),
            forall|d: int, i: int|
                0 <= d <= old(self).ndims() && 0 <= i < old(self).pool_len(d)
                    ==> #[trigger] final(self).excess(d, i) == old(self).excess(d, i) + (if d == 0
                    && old(self).base_root is Some && old(self).base_root.unwrap() == i {
                    1int
                } else {
                    0int
                }) - (if d == 0 && p is Some && p.unwrap() == i {
                    1int
                } else {
                    0int
                }),
            forall|d: int, i: int| #[trigger] final(self).count_at(d, i) == old(self).count_at(d, i),
            forall|d: int| #[trigger] final(self).pool_len(d) == old(self).pool_len(d),
            old(self).ranked() ==> final(self).ranked(),
    {
        let ghost before = *self;
        self.base_root = p;
        proof {
            self.lemma_root_moved(&before);
            assert forall|d: int, i: int|
                #[trigger] before.held(d, i) && !(d == 0 && p is Some && p.unwrap()
                    == i) implies self.held(d, i) by {
                assert(0 <= d <= before.ndims() && 0 <= i < before.pool_len(d));
                assert(before.slot_live(d, i));
                if d < before.ndims() {
                    assert(self.slot_live(d, i));
                } else {
                    assert(self.summaries.live(i));
                }
            }
            if before.base_root is Some {
                assert(before.slot_live(0, before.base_root.unwrap() as int));
            }
            assert forall|d: int, i: int| #[trigger] self.loose(d, i) == before.loose(d, i) by {
                if 0 <= d < before.ndims() {
                } else if d == before.ndims() {
                    assert(self.summaries.is_free(i) == before.summaries.is_free(i));
                }
            }
            if before.ranked() {
                self.lemma_ranked_extended(&before, Set::empty());
            }
        }
    }
}

} // verus!
