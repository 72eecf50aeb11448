//! What a later state of a cube keeps of an earlier one.
//!
//! Building never overwrites a live slot, so a well-formed part of the cube
//! stays well-formed, with the same answers, in every state that extends the
//! one it was built in.

use crate::cube::Monoid;
use crate::nanocube::{same_links, Nanocube, NodePointerType};
use vstd::arithmetic::power2::pow2;
use vstd::prelude::*;

verus! {

impl<Summary: Monoid> Nanocube<Summary> {
    /// Every state extends itself.
    pub proof fn lemma_extends_refl(&self)
        ensures
            self.extends(self),
    {
    }

    /// Extension is transitive.
    pub proof fn lemma_extends_trans(&self, mid: &Self, before: &Self)
        requires
            self.extends(mid),
            mid.extends(before),
        ensures
            self.extends(before),
    {
        assert forall|d: int, i: int|
            0 <= d < before.ndims() && #[trigger] before.slot_live(d, i) implies self.slot_live(
            d,
            i,
        ) && same_links(self.node(d, i), before.node(d, i)) by {
            assert(mid.slot_live(d, i));
        }
        assert forall|i: int| #[trigger] before.summaries.live(i) implies self.summaries.live(i)
            && self.summaries.values@[i] == before.summaries.values@[i] by {
            assert(mid.summaries.live(i));
        }
        assert forall|d: int| 0 <= d < self.dims@.len() implies (#[trigger] self.dims@[d]).width
            == before.dims@[d].width by {
            assert(mid.dims@[d].width == before.dims@[d].width);
        }
    }

    /// A well-formed part of the cube has the same answer in a later state.
    pub proof fn lemma_extends_answer(
        &self,
        before: &Self,
        d: int,
        h: nat,
        p: NodePointerType,
        lo: int,
        q: Seq<(usize, usize)>,
    )
        requires
            self.extends(before),
            before.wf_ptr(d, h, p),
        ensures
            self.sub_answer(d, h, p, lo, q) == before.sub_answer(d, h, p, lo, q),
        decreases before.ndims() - d, h,
    {
        if p is Some && 0 <= d {
            let x = p.unwrap() as int;
            if d >= before.ndims() {
                assert(before.summaries.live(x));
            } else {
                let n = before.node(d, x);
                assert(before.slot_live(d, x));
                assert(self.dims@[d].width == before.dims@[d].width);
                if d + 1 < before.ndims() {
                    assert(self.dims@[d + 1].width == before.dims@[d + 1].width);
                }
                self.lemma_extends_answer(before, d + 1, before.width(d + 1), n.next, 0, q);
                if h > 0 {
                    self.lemma_extends_answer(before, d, (h - 1) as nat, n.left, lo, q);
                    self.lemma_extends_answer(
                        before,
                        d,
                        (h - 1) as nat,
                        n.right,
                        lo + pow2((h - 1) as nat),
                        q,
                    );
                }
            }
        }
    }

    /// The aggregate of a well-formed node is the same in a later state.
    pub proof fn lemma_extends_total(
        &self,
        before: &Self,
        d: int,
        h: nat,
        p: NodePointerType,
        q: Seq<(usize, usize)>,
    )
        requires
            self.extends(before),
            before.wf_ptr(d, h, p),
            0 <= d < before.ndims(),
        ensures
            self.total(d, p, q) == before.total(d, p, q),
    {
        if p is Some {
            let x = p.unwrap() as int;
            let n = before.node(d, x);
            assert(before.slot_live(d, x));
            if d + 1 < before.ndims() {
                assert(self.dims@[d + 1].width == before.dims@[d + 1].width);
            }
            self.lemma_extends_answer(before, d + 1, before.width(d + 1), n.next, 0, q);
        }
    }

    /// A well-formed part of the cube is well-formed in a later state.
    pub proof fn lemma_extends_wf(&self, before: &Self, d: int, h: nat, x: int)
        requires
            self.extends(before),
            before.wf_node(d, h, x),
        ensures
            self.wf_node(d, h, x),
        decreases before.ndims() - d, h,
    {
        if d == before.ndims() {
            assert(before.summaries.live(x));
        } else {
            let n = before.node(d, x);
            assert(before.slot_live(d, x));
            assert(self.slot_live(d, x));
            if d + 1 < before.ndims() {
                assert(self.dims@[d + 1].width == before.dims@[d + 1].width);
            }
            self.lemma_extends_wf(before, d + 1, before.width(d + 1), n.next.unwrap() as int);
            if h > 0 {
                if n.left is Some {
                    self.lemma_extends_wf(before, d, (h - 1) as nat, n.left.unwrap() as int);
                }
                if n.right is Some {
                    self.lemma_extends_wf(before, d, (h - 1) as nat, n.right.unwrap() as int);
                }
                assert forall|q: Seq<(usize, usize)>| #[trigger]
                    self.total_at(d, x, q) == self.total(d, n.left, q).combine(
                        self.total(d, n.right, q),
                    ) by {
                    self.lemma_extends_answer(before, d + 1, before.width(d + 1), n.next, 0, q);
                    self.lemma_extends_total(before, d, (h - 1) as nat, n.left, q);
                    self.lemma_extends_total(before, d, (h - 1) as nat, n.right, q);
                    assert(before.total_at(d, x, q) == before.total(d, n.left, q).combine(
                        before.total(d, n.right, q),
                    ));
                }
            }
        }
    }

    /// Everything that is known of a well-formed pointer carries over to a
    /// later state: it stays well-formed, with the same answers and the same
    /// aggregate.
    pub proof fn lemma_extends_ptr(&self, before: &Self, d: int, h: nat, p: NodePointerType)
        requires
            self.extends(before),
            before.wf_ptr(d, h, p),
        ensures
            self.wf_ptr(d, h, p),
            forall|lo: int, q: Seq<(usize, usize)>| #[trigger]
                self.sub_answer(d, h, p, lo, q) == before.sub_answer(d, h, p, lo, q),
            0 <= d < before.ndims() ==> forall|q: Seq<(usize, usize)>| #[trigger]
                self.total(d, p, q) == before.total(d, p, q),
    {
        if p is Some {
            self.lemma_extends_wf(before, d, h, p.unwrap() as int);
        }
        assert forall|lo: int, q: Seq<(usize, usize)>| #[trigger]
            self.sub_answer(d, h, p, lo, q) == before.sub_answer(d, h, p, lo, q) by {
            self.lemma_extends_answer(before, d, h, p, lo, q);
        }
        if 0 <= d < before.ndims() {
            assert forall|q: Seq<(usize, usize)>| #[trigger]
                self.total(d, p, q) == before.total(d, p, q) by {
                self.lemma_extends_total(before, d, h, p, q);
            }
        }
    }
}

} // verus!
