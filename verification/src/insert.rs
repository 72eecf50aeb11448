//! Insertion of one point: the descent along the point's address, the chain
//! of fresh nodes below the place where the descent leaves the cube, and the
//! ascent that rebuilds the path over the shared old structure.

use crate::cube::{
    fold_points, lemma_identity_right, lemma_swap_last, single_from, valid_point, zip_points, Monoid,
};
use crate::nanocube::{left_free, same_links, Nanocube, NodePointerType};
use crate::refs::links_to;
use crate::single::bit_of;
use vstd::arithmetic::power2::{lemma_pow2_pos, pow2};
use vstd::bits::lemma_usize_shr_is_div;
use vstd::prelude::*;
use vstd::pervasive::unreached;
use crate::spine::SpineEntry;

verus! {

/// Bit `bit` of `value`, counting from the least significant.
#[inline]
pub fn get_bit(value: usize, bit: usize) -> (b: bool)
    requires
        bit < usize::BITS,
    ensures
        b == bit_of(value as int, bit as nat),
{
    let shifted = value >> bit;
    proof {
        lemma_usize_shr_is_div(value, bit);
        lemma_pow2_pos(bit as nat);
        assert(shifted & 1 == shifted % 2) by (bit_vector);
    }
    shifted & 1 != 0
}

/// The level of the position that a step from level `dim` leads to: the same
/// level for a turn to a child, the next one for the step out of a dimension.
pub open spec fn step_level(dim: int, turn: Option<bool>) -> int {
    if turn is Some {
        dim
    } else {
        dim + 1
    }
}

impl<Summary: Monoid> Nanocube<Summary> {
    /// The height of the position that a step from height `h` of level `dim`
    /// leads to.
    pub open spec fn step_height(&self, dim: int, h: nat, turn: Option<bool>) -> nat {
        if turn is Some {
            (h - 1) as nat
        } else {
            self.width(dim + 1)
        }
    }

    /// The pointer that a step from node `x` of level `dim` follows: `right`
    /// for a set bit, `left` for a clear one, `next` out of the dimension.
    pub open spec fn step_ptr(&self, dim: int, x: int, turn: Option<bool>) -> NodePointerType {
        match turn {
            Some(true) => self.node(dim, x).right,
            Some(false) => self.node(dim, x).left,
            None => self.node(dim, x).next,
        }
    }

    /// The turn that the address takes at height `h` of level `dim`.
    pub open spec fn turn_at(&self, dim: int, h: nat, address: Seq<usize>) -> Option<bool> {
        if h == 0 || dim >= self.ndims() {
            None
        } else {
            Some(bit_of(address[dim] as int, (h - 1) as nat))
        }
    }

    /// `pair` is built as the insertion of the point `address` with `summary`
    /// below `p`, a pointer at level `d` and height `h`, builds its result.
    ///
    /// At the summary level the second part holds `summary`, and the first
    /// part `summary` combined with the summary at `p`. Where `p` is null the
    /// two parts are one, the chain of the point. Else the second part is the
    /// chain of the point, and the first part is a node that shares with the
    /// node at `p` the child on which the address does not turn, and has on the
    /// other side, or as its `next` if the node is a leaf, the first part of the
    /// insertion below. Its `next` is the aggregate of its children: the `next`
    /// of its only child if it has one child; if it has two and the old node
    /// had one, the merge of what the two children lead to; and if the old node
    /// had two, the merge of the old aggregate with that of the point's chain.
    pub open spec fn insert_shape(
        &self,
        d: int,
        h: nat,
        pair: (NodePointerType, NodePointerType),
        p: NodePointerType,
        address: Seq<usize>,
        summary: Summary,
    ) -> bool
        decreases self.ndims() - d, h,
    {
        if pair.0 is None || pair.1 is None || d < 0 || d > self.ndims() {
            false
        } else if d == self.ndims() {
            &&& p is Some
            &&& self.summaries.live(p.unwrap() as int)
            &&& self.summaries.live(pair.0.unwrap() as int)
            &&& self.summaries.live(pair.1.unwrap() as int)
            &&& self.summaries.values@[pair.1.unwrap() as int] == summary
            &&& self.summaries.values@[pair.0.unwrap() as int] == summary.combine(
                self.summaries.values@[p.unwrap() as int],
            )
        } else if p is None {
            pair.0 == pair.1 && self.is_single(d, h, pair.1.unwrap() as int, address, summary)
        } else {
            let nm = self.node(d, pair.0.unwrap() as int);
            let nf = self.node(d, pair.1.unwrap() as int);
            let nx = self.node(d, p.unwrap() as int);
            let w1 = self.width(d + 1);
            &&& self.wf_node(d, h, p.unwrap() as int)
            &&& self.wf_node(d, h, pair.0.unwrap() as int)
            &&& self.is_single(d, h, pair.1.unwrap() as int, address, summary)
            &&& if h == 0 {
                &&& nm.left is None
                &&& nm.right is None
                &&& self.insert_shape(d + 1, w1, (nm.next, nf.next), nx.next, address, summary)
            } else if bit_of(address[d] as int, (h - 1) as nat) {
                &&& nm.left == nx.left
                &&& self.insert_shape(
                    d,
                    (h - 1) as nat,
                    (nm.right, nf.right),
                    nx.right,
                    address,
                    summary,
                )
                &&& if nx.left is None {
                    nm.next == self.node(d, nm.right.unwrap() as int).next
                } else if nx.right is None {
                    self.merge_shape(
                        d + 1,
                        w1,
                        nm.next,
                        self.node(d, nx.left.unwrap() as int).next,
                        self.node(d, nm.right.unwrap() as int).next,
                    )
                } else {
                    self.merge_shape(
                        d + 1,
                        w1,
                        nm.next,
                        nx.next,
                        self.node(d, nf.right.unwrap() as int).next,
                    )
                }
            } else {
                &&& nm.right == nx.right
                &&& self.insert_shape(
                    d,
                    (h - 1) as nat,
                    (nm.left, nf.left),
                    nx.left,
                    address,
                    summary,
                )
                &&& if nx.right is None {
                    nm.next == self.node(d, nm.left.unwrap() as int).next
                } else if nx.left is None {
                    self.merge_shape(
                        d + 1,
                        w1,
                        nm.next,
                        self.node(d, nx.right.unwrap() as int).next,
                        self.node(d, nm.left.unwrap() as int).next,
                    )
                } else {
                    self.merge_shape(
                        d + 1,
                        w1,
                        nm.next,
                        nx.next,
                        self.node(d, nf.left.unwrap() as int).next,
                    )
                }
            }
        }
    }

    /// What an insertion built is what it built in every later state.
    pub proof fn lemma_insert_shape_extends(
        &self,
        before: &Self,
        d: int,
        h: nat,
        pair: (NodePointerType, NodePointerType),
        p: NodePointerType,
        address: Seq<usize>,
        summary: Summary,
    )
        requires
            self.extends(before),
            before.insert_shape(d, h, pair, p, address, summary),
        ensures
            self.insert_shape(d, h, pair, p, address, summary),
        decreases before.ndims() - d, h,
    {
        let m = pair.0.unwrap() as int;
        let f = pair.1.unwrap() as int;
        if d == before.ndims() {
        } else if p is None {
            self.lemma_single_extends(before, d, h, f, address, summary);
        } else {
            let x = p.unwrap() as int;
            let nm = before.node(d, m);
            let nf = before.node(d, f);
            let nx = before.node(d, x);
            let w1 = before.width(d + 1);
            assert(self.width(d + 1) == w1) by {
                if d + 1 < before.ndims() {
                    assert(self.dims@[d + 1].width == before.dims@[d + 1].width);
                }
            }
            self.lemma_extends_wf(before, d, h, x);
            self.lemma_extends_wf(before, d, h, m);
            self.lemma_single_extends(before, d, h, f, address, summary);
            assert(before.slot_live(d, x));
            assert(before.slot_live(d, m));
            assert(before.slot_live(d, f));
            if h == 0 {
                self.lemma_insert_shape_extends(
                    before,
                    d + 1,
                    w1,
                    (nm.next, nf.next),
                    nx.next,
                    address,
                    summary,
                );
            } else {
                let hh = (h - 1) as nat;
                let turn = bit_of(address[d] as int, hh);
                let (mc, fc, xc, xo) = if turn {
                    (nm.right, nf.right, nx.right, nx.left)
                } else {
                    (nm.left, nf.left, nx.left, nx.right)
                };
                assert(before.insert_shape(d, hh, (mc, fc), xc, address, summary));
                self.lemma_insert_shape_extends(before, d, hh, (mc, fc), xc, address, summary);
                assert(before.is_single(d, hh, fc.unwrap() as int, address, summary));
                assert(before.slot_live(d, fc.unwrap() as int));
                assert(before.slot_live(d, mc.unwrap() as int)) by {
                    if xc is Some {
                        assert(before.wf_node(d, hh, mc.unwrap() as int));
                    }
                }
                if xo is Some {
                    assert(before.wf_node(d, hh, xo.unwrap() as int));
                    assert(before.slot_live(d, xo.unwrap() as int));
                    if xc is None {
                        self.lemma_merge_shape_extends(
                            before,
                            d + 1,
                            w1,
                            nm.next,
                            before.node(d, xo.unwrap() as int).next,
                            before.node(d, mc.unwrap() as int).next,
                        );
                    } else {
                        self.lemma_merge_shape_extends(
                            before,
                            d + 1,
                            w1,
                            nm.next,
                            nx.next,
                            before.node(d, fc.unwrap() as int).next,
                        );
                    }
                }
            }
        }
    }

    /// `pair` is the result of inserting the point `address` with `summary`
    /// below `p`, a pointer at level `d` and height `h`: its first part is the
    /// merge of `p` with the point's chain, its second part is that chain, and
    /// both are built as the insertion builds them.
    pub open spec fn is_insert_of(
        &self,
        d: int,
        h: nat,
        pair: (NodePointerType, NodePointerType),
        p: NodePointerType,
        address: Seq<usize>,
        summary: Summary,
    ) -> bool {
        &&& pair.0 is Some
        &&& pair.1 is Some
        &&& self.is_merge_of(d, h, pair.0, p, pair.1)
        &&& self.is_single(d, h, pair.1.unwrap() as int, address, summary)
        &&& self.insert_shape(d, h, pair, p, address, summary)
    }

    /// The result of an insertion stays one in every later state.
    pub proof fn lemma_is_insert_of_extends(
        &self,
        before: &Self,
        d: int,
        h: nat,
        pair: (NodePointerType, NodePointerType),
        p: NodePointerType,
        address: Seq<usize>,
        summary: Summary,
    )
        requires
            self.extends(before),
            before.wf_ptr(d, h, p),
            before.is_insert_of(d, h, pair, p, address, summary),
        ensures
            self.is_insert_of(d, h, pair, p, address, summary),
            self.wf_ptr(d, h, p),
    {
        before.lemma_single_wf(d, h, pair.1, address, summary);
        self.lemma_is_merge_of_extends(before, d, h, pair.0, p, pair.1);
        self.lemma_single_extends(before, d, h, pair.1.unwrap() as int, address, summary);
        self.lemma_insert_shape_extends(before, d, h, pair, p, address, summary);
    }

    /// A point of a cube is a point of every later state.
    pub proof fn lemma_valid_address_extends(&self, before: &Self, address: Seq<usize>)
        requires
            self.extends(before),
            before.valid_address(address),
        ensures
            self.valid_address(address),
    {
        assert forall|d: int| 0 <= d < self.ndims() implies (#[trigger] address[d]) < pow2(
            self.width(d),
        ) by {
            assert(self.dims@[d].width == before.dims@[d].width);
        }
    }
}

impl<Summary: Monoid> Nanocube<Summary> {
    /// The number of slots of level `dd` in the chain of a single point that
    /// starts at bit `bit` of level `dim`: one node for each bit that is left
    /// and one leaf in `dim`, one node for each bit and one leaf in every
    /// dimension after it, and one summary.
    pub open spec fn chain_len(&self, dim: int, bit: int, dd: int) -> int {
        if dd == self.ndims() {
            1
        } else if dd < dim || dd > self.ndims() {
            0
        } else if dd == dim {
            self.width(dim) - bit + 1
        } else {
            self.width(dd) as int + 1
        }
    }

    /// What lies in a well-formed part of the cube lies in it in every later
    /// state.
    pub proof fn lemma_reaches_extends(
        &self,
        before: &Self,
        d: int,
        h: nat,
        p: NodePointerType,
        td: int,
        ti: int,
    )
        requires
            self.extends(before),
            before.wf_ptr(d, h, p),
            before.reaches(d, h, p, td, ti),
        ensures
            self.reaches(d, h, p, td, ti),
        decreases before.ndims() - d, h,
    {
        if d == td && p.unwrap() == ti {
        } else {
            let x = p.unwrap() as int;
            let n = before.node(d, x);
            assert(before.wf_node(d, h, x));
            assert(before.slot_live(d, x));
            assert(same_links(self.node(d, x), n));
            assert(self.width(d + 1) == before.width(d + 1)) by {
                if d + 1 < self.dims@.len() {
                    assert(self.dims@[d + 1].width == before.dims@[d + 1].width);
                }
            }
            if before.reaches(d + 1, before.width(d + 1), n.next, td, ti) {
                self.lemma_reaches_extends(before, d + 1, before.width(d + 1), n.next, td, ti);
            } else if h > 0 && before.reaches(d, (h - 1) as nat, n.left, td, ti) {
                self.lemma_reaches_extends(before, d, (h - 1) as nat, n.left, td, ti);
            } else {
                self.lemma_reaches_extends(before, d, (h - 1) as nat, n.right, td, ti);
            }
        }
    }

    /// What lies, in a later state, in a part of the cube that was
    /// well-formed lay in it before.
    pub proof fn lemma_reaches_back(
        &self,
        before: &Self,
        d: int,
        h: nat,
        p: NodePointerType,
        td: int,
        ti: int,
    )
        requires
            self.extends(before),
            before.wf_ptr(d, h, p),
            self.reaches(d, h, p, td, ti),
        ensures
            before.reaches(d, h, p, td, ti),
        decreases before.ndims() - d, h,
    {
        if d == td && p.unwrap() == ti {
        } else {
            let x = p.unwrap() as int;
            let n = before.node(d, x);
            assert(before.wf_node(d, h, x));
            assert(before.slot_live(d, x));
            assert(same_links(self.node(d, x), n));
            assert(self.width(d + 1) == before.width(d + 1)) by {
                if d + 1 < self.dims@.len() {
                    assert(self.dims@[d + 1].width == before.dims@[d + 1].width);
                }
            }
            if self.reaches(d + 1, self.width(d + 1), n.next, td, ti) {
                self.lemma_reaches_back(before, d + 1, before.width(d + 1), n.next, td, ti);
            } else if h > 0 && self.reaches(d, (h - 1) as nat, n.left, td, ti) {
                self.lemma_reaches_back(before, d, (h - 1) as nat, n.left, td, ti);
            } else {
                self.lemma_reaches_back(before, d, (h - 1) as nat, n.right, td, ti);
            }
        }
    }

    /// A chain grown by one node, seen from above: whatever lies under the
    /// new node `head` is the node itself or lay under what the node was put
    /// on, `tip`, and so is live and was not live in `before`.
    pub proof fn lemma_chain_new(
        &self,
        mid: &Self,
        before: &Self,
        d: int,
        h: nat,
        head: NodePointerType,
        was: NodePointerType,
        next: NodePointerType,
        tip: (int, nat, NodePointerType),
    )
        requires
            0 <= d < mid.ndims(),
            head is Some,
            self.extends(mid),
            mid.extends(before),
            self.slot_live(d, head.unwrap() as int),
            !mid.slot_live(d, head.unwrap() as int),
            self.node(d, head.unwrap() as int).next == next,
            was is None ==> h == 0 && self.node(d, head.unwrap() as int).left is None && self.node(
                d,
                head.unwrap() as int,
            ).right is None && tip == (d + 1, mid.width(d + 1), next),
            was is Some ==> h > 0 && tip == (d, (h - 1) as nat, was) && mid.node(
                d,
                was.unwrap() as int,
            ).next == next && ((self.node(d, head.unwrap() as int).left == was && self.node(
                d,
                head.unwrap() as int,
            ).right is None) || (self.node(d, head.unwrap() as int).right == was && self.node(
                d,
                head.unwrap() as int,
            ).left is None)),
            mid.wf_ptr(d + 1, mid.width(d + 1), next),
            was is Some ==> mid.wf_ptr(d, (h - 1) as nat, was),
            forall|dd: int, i: int| #[trigger]
                mid.reaches(tip.0, tip.1, tip.2, dd, i) ==> mid.slot_live(dd, i)
                    && !before.slot_live(dd, i),
        ensures
            forall|dd: int, i: int| #[trigger]
                self.reaches(d, h, head, dd, i) ==> self.slot_live(dd, i) && !before.slot_live(
                    dd,
                    i,
                ),
    {
        let x = head.unwrap() as int;
        let n = self.node(d, x);
        assert(self.width(d + 1) == mid.width(d + 1)) by {
            if d + 1 < self.dims@.len() {
                assert(self.dims@[d + 1].width == mid.dims@[d + 1].width);
            }
        }
        assert forall|dd: int, i: int| #[trigger]
            self.reaches(d, h, head, dd, i) implies self.slot_live(dd, i) && !before.slot_live(
            dd,
            i,
        ) by {
            if dd == d && i == x {
                if before.slot_live(d, x) {
                    assert(mid.slot_live(d, x));
                }
            } else if self.reaches(d + 1, self.width(d + 1), n.next, dd, i) {
                self.lemma_reaches_back(mid, d + 1, mid.width(d + 1), next, dd, i);
                if was is Some {
                    assert(mid.wf_node(d, (h - 1) as nat, was.unwrap() as int));
                    assert(mid.reaches(d, (h - 1) as nat, was, dd, i));
                }
                assert(mid.reaches(tip.0, tip.1, tip.2, dd, i));
                assert(mid.slot_live(dd, i));
            } else {
                assert(h > 0);
                if self.reaches(d, (h - 1) as nat, n.left, dd, i) {
                    assert(n.left == was);
                    self.lemma_reaches_back(mid, d, (h - 1) as nat, was, dd, i);
                } else {
                    assert(self.reaches(d, (h - 1) as nat, n.right, dd, i));
                    assert(n.right == was);
                    self.lemma_reaches_back(mid, d, (h - 1) as nat, was, dd, i);
                }
                assert(mid.reaches(tip.0, tip.1, tip.2, dd, i));
                assert(mid.slot_live(dd, i));
            }
        }
    }

    /// A chain grown by one node: `self` is `mid` with the new node `head` at
    /// height `h` of level `d`, which has the head of the chain so far, `was`,
    /// as its only child, or, if there is none yet, is a leaf above `next`.
    /// What has become live since `before` lies under the new node, and has
    /// no mark.
    pub proof fn lemma_chain_grown(
        &self,
        mid: &Self,
        before: &Self,
        d: int,
        h: nat,
        head: NodePointerType,
        was: NodePointerType,
        next: NodePointerType,
    )
        requires
            0 <= d < mid.ndims(),
            head is Some,
            self.extends(mid),
            self.keeps_marks(mid),
            self.slot_live(d, head.unwrap() as int),
            self.mark_at(d, head.unwrap() as int) == 0,
            self.node(d, head.unwrap() as int).next == next,
            was is None ==> h == 0,
            was is Some ==> h > 0 && (self.node(d, head.unwrap() as int).left == was || self.node(d, head.unwrap() as int).right == was),
            forall|dd: int, i: int| #[trigger]
                self.slot_live(dd, i) ==> mid.slot_live(dd, i) || (dd == d && i == head.unwrap()),
            mid.wf_ptr(d + 1, mid.width(d + 1), next),
            was is Some ==> mid.wf_ptr(d, (h - 1) as nat, was),
            forall|dd: int, i: int|
                0 <= dd < mid.ndims() && #[trigger] mid.slot_live(dd, i) && !before.slot_live(dd, i)
                    ==> mid.mark_at(dd, i) == 0,
            forall|dd: int, i: int| #[trigger]
                mid.slot_live(dd, i) ==> before.slot_live(dd, i) || (was is None && mid.reaches(
                    d + 1,
                    mid.width(d + 1),
                    next,
                    dd,
                    i,
                )) || (was is Some && mid.reaches(d, (h - 1) as nat, was, dd, i)),
        ensures
            forall|dd: int, i: int|
                0 <= dd < self.ndims() && #[trigger] self.slot_live(dd, i) && !before.slot_live(
                    dd,
                    i,
                ) ==> self.mark_at(dd, i) == 0,
            forall|dd: int, i: int| #[trigger]
                self.slot_live(dd, i) ==> before.slot_live(dd, i) || self.reaches(
                    d,
                    h,
                    head,
                    dd,
                    i,
                ),
    {
        assert(self.width(d + 1) == mid.width(d + 1)) by {
            if d + 1 < self.dims@.len() {
                assert(self.dims@[d + 1].width == mid.dims@[d + 1].width);
            }
        }
        assert forall|dd: int, i: int|
            0 <= dd < self.ndims() && #[trigger] self.slot_live(dd, i) && !before.slot_live(
                dd,
                i,
            ) implies self.mark_at(dd, i) == 0 by {
            if !(dd == d && i == head.unwrap()) {
                assert(mid.slot_live(dd, i));
                assert(mid.mark_at(dd, i) == 0);
            }
        }
        assert forall|dd: int, i: int| #[trigger] self.slot_live(dd, i) implies before.slot_live(
            dd,
            i,
        ) || self.reaches(d, h, head, dd, i) by {
            if !(dd == d && i == head.unwrap()) && !before.slot_live(dd, i) {
                assert(mid.slot_live(dd, i));
                if was is None {
                    self.lemma_reaches_extends(mid, d + 1, mid.width(d + 1), next, dd, i);
                } else {
                    self.lemma_reaches_extends(mid, d, (h - 1) as nat, was, dd, i);
                }
            }
        }
    }
}

impl<Summary: Monoid + PartialOrd + Copy> Nanocube<Summary> {
    /// Builds the chain that holds the single point `addresses` with
    /// `summary`, from bit `bit` of dimension `dim` down to a new summary slot,
    /// and returns its head. Nothing refers to the head yet.
    ///
    /// The chain is all that is made: one node for each bit that is left of
    /// `dim` and one leaf, one node for each bit and one leaf in every
    /// dimension after it, and one summary. Each takes a free slot of its pool
    /// if there is one, else a new slot at the end. The new nodes carry no
    /// mark; what was live is as it was.
    pub fn insert_fresh_node(
        &mut self,
        summary: Summary,
        addresses: &Vec<usize>,
        dim: usize,
        bit: usize,
    ) -> (r: NodePointerType)
        requires
            old(self).inv(),
            old(self).valid_address(addresses@),
            dim <= old(self).dims@.len(),
            bit <= old(self).width(dim as int),
        ensures
            final(self).inv(),
            final(self).extends(old(self)),
            final(self).base_root == old(self).base_root,
            final(self).release_list@ == old(self).release_list@,
            r is Some,
            final(self).is_single(
                dim as int,
                (old(self).width(dim as int) - bit) as nat,
                r.unwrap() as int,
                addresses@,
                summary,
            ),
            !old(self).slot_live(dim as int, r.unwrap() as int),
            forall|d: int, i: int| #[trigger]
                final(self).loose(d, i) ==> old(self).loose(d, i) || (d == dim && i == r.unwrap()),
            final(self).tallied_from(old(self)),
            old(self).ranked() ==> final(self).ranked(),
            final(self).count_at(dim as int, r.unwrap() as int) == 0,
            final(self).keeps_marks(old(self)),
            old(self).unmarked() ==> final(self).unmarked(),
            forall|d: int, i: int|
                0 <= d < old(self).ndims() && #[trigger] final(self).slot_live(d, i) && !old(self).slot_live(d, i) ==> final(self).mark_at(d, i) == 0,
            forall|d: int, i: int| #[trigger]
                final(self).slot_live(d, i) ==> old(self).slot_live(d, i) || final(self).reaches(
                    dim as int,
                    (old(self).width(dim as int) - bit) as nat,
                    r,
                    d,
                    i,
                ),
            forall|d: int, i: int| #[trigger]
                final(self).reaches(
                    dim as int,
                    (old(self).width(dim as int) - bit) as nat,
                    r,
                    d,
                    i,
                ) ==> final(self).slot_live(d, i) && !old(self).slot_live(d, i),
            forall|d: int|
                0 <= d <= old(self).ndims() ==> #[trigger] final(self).live_count(d) == old(self).live_count(d)
                    + old(self).chain_len(dim as int, bit as int, d),
            forall|d: int|
                0 <= d <= old(self).ndims() ==> #[trigger] final(self).free_count(d) == left_free(
                    old(self).free_count(d),
                    old(self).chain_len(dim as int, bit as int, d),
                ),
    {
        let ghost s0 = *self;
        let ghost addr = addresses@;
        let new_summary_ref = self.new_summary(summary);
        let mut next_node: NodePointerType = Some(new_summary_ref);
        let n = self.dims.len();
        let mut d: usize = n;
        let ghost mut top_h: nat = if n == dim {
            (s0.width(dim as int) - bit) as nat
        } else {
            self.width(n as int)
        };
        proof {
            self.lemma_valid_address_extends(&s0, addr);
        }
        while d > dim
            invariant
                top_h == if d == dim {
                    (s0.width(dim as int) - bit) as nat
                } else {
                    self.width(d as int)
                },
                forall|dd: int, i: int| #[trigger]
                    self.reaches(d as int, top_h, next_node, dd, i) ==> self.slot_live(dd, i)
                        && !s0.slot_live(dd, i),
                dim <= d <= n,
                n == self.dims@.len(),
                addr == addresses@,
                bit <= s0.width(dim as int),
                self.inv(),
                self.extends(&s0),
                self.valid_address(addr),
                self.base_root == s0.base_root,
                self.release_list@ == s0.release_list@,
                next_node is Some,
                self.is_single(
                    d as int,
                    if d == dim {
                        (s0.width(dim as int) - bit) as nat
                    } else {
                        self.width(d as int)
                    },
                    next_node.unwrap() as int,
                    addr,
                    summary,
                ),
                !s0.slot_live(d as int, next_node.unwrap() as int),
                forall|dd: int, i: int| #[trigger]
                    self.loose(dd, i) ==> s0.loose(dd, i) || (dd == d && i == next_node.unwrap()),
                self.tallied_from(&s0),
                s0.ranked() ==> self.ranked(),
                self.count_at(d as int, next_node.unwrap() as int) == 0,
                self.keeps_marks(&s0),
                forall|dd: int, i: int|
                    0 <= dd < n && #[trigger] self.slot_live(dd, i) && !s0.slot_live(dd, i)
                        ==> self.mark_at(dd, i) == 0,
                forall|dd: int, i: int| #[trigger]
                    self.slot_live(dd, i) ==> s0.slot_live(dd, i) || self.reaches(
                        d as int,
                        if d == dim {
                            (s0.width(dim as int) - bit) as nat
                        } else {
                            self.width(d as int)
                        },
                        next_node,
                        dd,
                        i,
                    ),
                forall|dd: int|
                    0 <= dd <= n ==> #[trigger] self.free_count(dd) == left_free(
                        s0.free_count(dd),
                        self.live_count(dd) - s0.live_count(dd),
                    ),
                forall|dd: int|
                    0 <= dd <= n ==> #[trigger] self.live_count(dd) == s0.live_count(dd) + if dd
                        == n {
                        1int
                    } else if dd >= d {
                        s0.chain_len(dim as int, bit as int, dd)
                    } else {
                        0int
                    },
            decreases d,
        {
            d = d - 1;
            let width = self.dims[d].width;
            let lo: usize = if dim == d {
                bit
            } else {
                0
            };
            let mut refine_node: NodePointerType = None;
            let mut b: usize = width + 1;
            assert(self.dims@[d as int].width == s0.dims@[d as int].width);
            let ghost mut tip: (int, nat, NodePointerType) = (d + 1, top_h, next_node);
            while b > lo
                invariant
                    b == width + 1 ==> tip == (d + 1, self.width(d + 1), next_node),
                    b <= width ==> tip == (d as int, (width - b) as nat, refine_node)
                        && self.node(d as int, refine_node.unwrap() as int).next == next_node,
                    forall|dd: int, i: int| #[trigger]
                        self.reaches(tip.0, tip.1, tip.2, dd, i) ==> self.slot_live(dd, i)
                            && !s0.slot_live(dd, i),
                    lo <= b <= width + 1,
                    width == self.width(d as int),
                    1 <= width < usize::BITS,
                    d < n,
                    n == self.dims@.len(),
                    addr == addresses@,
                    self.inv(),
                    self.extends(&s0),
                    self.valid_address(addr),
                    self.base_root == s0.base_root,
                    self.release_list@ == s0.release_list@,
                    next_node is Some,
                    self.is_single(
                        d + 1,
                        self.width(d + 1),
                        next_node.unwrap() as int,
                        addr,
                        summary,
                    ),
                    b == width + 1 ==> refine_node is None,
                    b <= width ==> refine_node is Some && self.is_single(
                        d as int,
                        (width - b) as nat,
                        refine_node.unwrap() as int,
                        addr,
                        summary,
                    ) && !s0.slot_live(d as int, refine_node.unwrap() as int),
                    forall|dd: int, i: int| #[trigger]
                        self.loose(dd, i) ==> s0.loose(dd, i) || (b == width + 1 && dd == d + 1 && i
                            == next_node.unwrap()) || (b <= width && dd == d && i
                            == refine_node.unwrap()),
                    self.tallied_from(&s0),
                    s0.ranked() ==> self.ranked(),
                    dim <= d,
                    lo == if dim == d {
                        bit
                    } else {
                        0
                    },
                    bit <= s0.width(dim as int),
                    b <= width ==> self.count_at(d as int, refine_node.unwrap() as int) == 0,
                    self.keeps_marks(&s0),
                    forall|dd: int, i: int|
                        0 <= dd < n && #[trigger] self.slot_live(dd, i) && !s0.slot_live(dd, i)
                            ==> self.mark_at(dd, i) == 0,
                    forall|dd: int, i: int| #[trigger]
                        self.slot_live(dd, i) ==> s0.slot_live(dd, i) || (b == width + 1
                            && self.reaches(d + 1, self.width(d + 1), next_node, dd, i)) || (b
                            <= width && self.reaches(
                            d as int,
                            (width - b) as nat,
                            refine_node,
                            dd,
                            i,
                        )),
                    forall|dd: int|
                        0 <= dd <= n ==> #[trigger] self.free_count(dd) == left_free(
                            s0.free_count(dd),
                            self.live_count(dd) - s0.live_count(dd),
                        ),
                    forall|dd: int|
                        0 <= dd <= n ==> #[trigger] self.live_count(dd) == s0.live_count(dd) + if dd
                            == n {
                            1int
                        } else if dd > d {
                            s0.chain_len(dim as int, bit as int, dd)
                        } else if dd == d {
                            width + 1 - b
                        } else {
                            0int
                        },
                decreases b,
            {
                b = b - 1;
                let ghost s1 = *self;
                let ghost was = refine_node;
                proof {
                    self.lemma_single_wf(d + 1, self.width(d + 1), next_node, addr, summary);
                }
                if b == width {
                    let idx = self.new_node(d, None, None, next_node);
                    refine_node = Some(idx);
                } else {
                    let where_to_insert = get_bit(addresses[d], width - b - 1);
                    proof {
                        self.lemma_single_wf(
                            d as int,
                            (width - b - 1) as nat,
                            refine_node,
                            addr,
                            summary,
                        );
                    }
                    let idx = if where_to_insert {
                        self.new_node(d, None, refine_node, next_node)
                    } else {
                        self.new_node(d, refine_node, None, next_node)
                    };
                    proof {
                        self.lemma_single_extends(
                            &s1,
                            d as int,
                            (width - b - 1) as nat,
                            refine_node.unwrap() as int,
                            addr,
                            summary,
                        );
                    }
                    refine_node = Some(idx);
                }
                proof {
                    assert(!s0.slot_live(d as int, refine_node.unwrap() as int)) by {
                        if s0.slot_live(d as int, refine_node.unwrap() as int) {
                            assert(s1.slot_live(d as int, refine_node.unwrap() as int));
                        }
                    }
                    self.lemma_single_extends(
                        &s1,
                        d + 1,
                        s1.width(d + 1),
                        next_node.unwrap() as int,
                        addr,
                        summary,
                    );
                    self.lemma_extends_trans(&s1, &s0);
                    self.lemma_marks_trans(&s1, &s0);
                    self.lemma_tallied_trans(&s1, &s0);
                    self.lemma_valid_address_extends(&s1, addr);
                    assert(self.dims@[d as int].width == s1.dims@[d as int].width);
                    self.lemma_chain_grown(
                        &s1,
                        &s0,
                        d as int,
                        (width - b) as nat,
                        refine_node,
                        was,
                        next_node,
                    );
                    self.lemma_chain_new(
                        &s1,
                        &s0,
                        d as int,
                        (width - b) as nat,
                        refine_node,
                        was,
                        next_node,
                        tip,
                    );
                    tip = (d as int, (width - b) as nat, refine_node);
                    if s0.ranked() {
                        let x = refine_node.unwrap() as int;
                        let fresh = Set::<(int, int)>::empty().insert((d as int, x));
                        self.lemma_single_wf(
                            d as int,
                            (width - b) as nat,
                            refine_node,
                            addr,
                            summary,
                        );
                        assert forall|dd: int, i: int|
                            0 <= dd < self.ndims() && #[trigger] fresh.contains((dd, i))
                                && self.slot_live(dd, i) implies exists|hx: nat|
                            hx <= self.width(dd) && self.wf_node(dd, hx, i) by {
                            assert((width - b) as nat <= self.width(d as int) && self.wf_node(
                                d as int,
                                (width - b) as nat,
                                x,
                            ));
                        }
                        self.lemma_ranked_extended(&s1, fresh);
                    }
                    if d + 1 < n {
                        assert(self.dims@[d + 1].width == s1.dims@[d + 1].width);
                    }
                }
            }
            proof {
                assert(b == lo && b <= width);
                assert(tip == (d as int, (width - b) as nat, refine_node));
                assert forall|dd: int, i: int| #[trigger]
                    self.reaches(d as int, tip.1, refine_node, dd, i) implies self.slot_live(dd, i)
                    && !s0.slot_live(dd, i) by {
                    assert(self.reaches(tip.0, tip.1, tip.2, dd, i));
                }
                top_h = tip.1;
            }
            next_node = refine_node;
        }
        next_node
    }

    /// `insert_fresh_node`, for the insertion: the chain, and of what else
    /// holds only what the ascent goes on.
    fn fresh_chain(
        &mut self,
        summary: Summary,
        addresses: &Vec<usize>,
        dim: usize,
        bit: usize,
    ) -> (r: NodePointerType)
        requires
            old(self).inv(),
            old(self).valid_address(addresses@),
            dim <= old(self).dims@.len(),
            bit <= old(self).width(dim as int),
        ensures
            final(self).inv(),
            final(self).extends(old(self)),
            final(self).base_root == old(self).base_root,
            final(self).release_list@ == old(self).release_list@,
            r is Some,
            final(self).is_single(
                dim as int,
                (old(self).width(dim as int) - bit) as nat,
                r.unwrap() as int,
                addresses@,
                summary,
            ),
            !old(self).slot_live(dim as int, r.unwrap() as int),
            forall|d: int, i: int| #[trigger]
                final(self).loose(d, i) ==> old(self).loose(d, i) || (d == dim && i == r.unwrap()),
            final(self).tallied_from(old(self)),
            old(self).ranked() ==> final(self).ranked(),
            final(self).keeps_marks(old(self)),
            old(self).unmarked() ==> final(self).unmarked(),
    {
        self.insert_fresh_node(summary, addresses, dim, bit)
    }

    /// One step of the ascent. `current` is a node of the old path, at
    /// height `h` of dimension `dim`; `result` is what the insertion made of
    /// the position below it, on the side that `where_to_insert` names. Builds
    /// the node that takes the place of `current`, and the node of the point's
    /// own chain at this position, and returns the two.
    ///
    /// The new node shares the untouched child of `current`. Its `next` is the
    /// aggregate of its children: where `current` has both children, that is
    /// the old aggregate merged with the aggregate of the point's chain, which
    /// is cheap because the chain is small.
    pub(crate) fn climb(
        &mut self,
        current: NodePointerType,
        dim: usize,
        where_to_insert: Option<bool>,
        result: (NodePointerType, NodePointerType),
        Ghost(h): Ghost<nat>,
        Ghost(addr): Ghost<Seq<usize>>,
        Ghost(summary): Ghost<Summary>,
    ) -> (r: (NodePointerType, NodePointerType))
        requires
            old(self).inv(),
            old(self).valid_address(addr),
            dim < old(self).dims@.len(),
            current is Some,
            old(self).wf_node(dim as int, h, current.unwrap() as int),
            where_to_insert == old(self).turn_at(dim as int, h, addr),
            old(self).is_insert_of(
                step_level(dim as int, where_to_insert),
                old(self).step_height(dim as int, h, where_to_insert),
                result,
                old(self).step_ptr(dim as int, current.unwrap() as int, where_to_insert),
                addr,
                summary,
            ),
        ensures
            final(self).inv(),
            final(self).extends(old(self)),
            final(self).base_root == old(self).base_root,
            final(self).release_list@ == old(self).release_list@,
            final(self).is_insert_of(dim as int, h, r, current, addr, summary),
            !old(self).slot_live(dim as int, r.1.unwrap() as int),
            forall|d: int, i: int| #[trigger]
                final(self).loose(d, i) ==> (d == dim && (i == r.0.unwrap() || i == r.1.unwrap()))
                    || (old(self).loose(d, i) && !(d == step_level(dim as int, where_to_insert) && (
                i == result.0.unwrap() || i == result.1.unwrap()))),
            final(self).tallied_from(old(self)),
            final(self).keeps_marks(old(self)),
            old(self).ranked() ==> final(self).ranked(),
            r.0 != r.1,
            old(self).unmarked() ==> final(self).unmarked(),
    {
        let ghost s0 = *self;
        let ghost d = dim as int;
        let ghost x = current.unwrap() as int;
        let ghost w1 = self.width(d + 1);
        let ghost hh = (h - 1) as nat;
        let ghost lvl = step_level(d, where_to_insert);
        let ghost sh = self.step_height(d, h, where_to_insert);
        let ghost sp = self.step_ptr(d, x, where_to_insert);
        let current_node = self.get_node(dim, current);
        proof {
            self.lemma_extends_refl();
            self.lemma_single_wf(lvl, sh, result.1, addr, summary);
            assert(self.slot_live(d, x));
            assert(dim < self.dims.len());
            if where_to_insert is Some {
                assert(self.slot_live(d, result.0.unwrap() as int));
                assert(self.slot_live(d, result.1.unwrap() as int));
                if current_node.left is Some {
                    assert(self.wf_node(d, hh, current_node.left.unwrap() as int));
                    assert(self.slot_live(d, current_node.left.unwrap() as int));
                }
                if current_node.right is Some {
                    assert(self.wf_node(d, hh, current_node.right.unwrap() as int));
                    assert(self.slot_live(d, current_node.right.unwrap() as int));
                }
                assert(self.wf_node(d, hh, result.0.unwrap() as int));
                assert(self.wf_node(d, hh, result.1.unwrap() as int));
            }
        }
        // the case analysis of the merge
        let (new_left, new_right, new_next) = match (
            current_node.left,
            current_node.right,
            where_to_insert,
        ) {
            (None, None, None) => {
                // a leaf of this dimension: the new leaf leads to the merged
                // continuation
                (None, None, result.0)
            },
            (Some(_), None, Some(false)) => {
                // only a lower half, and the point goes there
                let a_union_c = result.0;
                let n = self.get_node(dim, a_union_c).next;
                (a_union_c, None, n)
            },
            (Some(_), None, Some(true)) => {
                // only a lower half, and the point opens the upper half
                let c = result.0;
                let n1 = self.get_node(dim, current_node.left).next;
                let n2 = self.get_node(dim, result.0).next;
                let an_union_cn = self.merge_at(n1, n2, dim + 1, Ghost(w1));
                (current_node.left, c, an_union_cn)
            },
            (None, Some(_), Some(false)) => {
                // only an upper half, and the point opens the lower half
                let c = result.0;
                let n1 = self.get_node(dim, current_node.right).next;
                let n2 = self.get_node(dim, result.0).next;
                let bn_union_cn = self.merge_at(n1, n2, dim + 1, Ghost(w1));
                (c, current_node.right, bn_union_cn)
            },
            (None, Some(_), Some(true)) => {
                // only an upper half, and the point goes there
                let b_union_c = result.0;
                let n = self.get_node(dim, b_union_c).next;
                (None, b_union_c, n)
            },
            (Some(_), Some(_), Some(false)) => {
                // Both halves. The aggregate of the new node is that of the
                // old one with the point added. The old aggregate is at hand,
                // and the point's own chain is small, so merging those two is
                // fast; merging the new lower half with the old upper half
                // would give the same, since summaries commute, but slowly.
                let a_union_c = result.0;
                let c = result.1;
                let an_union_bn = current_node.next;
                let cn = self.get_node(dim, c).next;
                let an_union_bn_union_cn = self.merge_at(an_union_bn, cn, dim + 1, Ghost(w1));
                (a_union_c, current_node.right, an_union_bn_union_cn)
            },
            (Some(_), Some(_), Some(true)) => {
                // as above, with the sides exchanged
                let b_union_c = result.0;
                let c = result.1;
                let an_union_bn = current_node.next;
                let cn = self.get_node(dim, c).next;
                let an_union_bn_union_cn = self.merge_at(an_union_bn, cn, dim + 1, Ghost(w1));
                (current_node.left, b_union_c, an_union_bn_union_cn)
            },
            _ => {
                // a node with children cannot be left through `next`, and a
                // leaf has no side to turn to
                proof {
                    assert(false);
                }
                unreached()
            },
        };
        let ghost s1 = *self;
        proof {
            s1.lemma_is_insert_of_extends(&s0, lvl, sh, result, sp, addr, summary);
            s1.lemma_extends_wf(&s0, d, h, x);
            s1.lemma_valid_address_extends(&s0, addr);
            s1.lemma_single_wf(lvl, sh, result.1, addr, summary);
            assert(s1.slot_live(d, x)) by {
                assert(s0.slot_live(d, x));
            }
            assert(same_links(s1.node(d, x), current_node)) by {
                assert(s0.slot_live(d, x));
            }
            assert(new_next is Some);
            assert(s1.wf_ptr(d + 1, w1, new_next));
            assert(s1.ptr_live(d, new_left));
            assert(s1.ptr_live(d, new_right));
            assert(s1.slot_live(d + 1, new_next.unwrap() as int));
        }
        let new_merged_index = self.new_node(dim, new_left, new_right, new_next);
        let ghost s2 = *self;
        proof {
            s2.lemma_is_insert_of_extends(&s1, lvl, sh, result, sp, addr, summary);
            assert(s2.slot_live(lvl, result.1.unwrap() as int));
        }
        let new_fresh_index = match where_to_insert {
            Some(false) => {
                let n = self.get_node(dim, result.1).next;
                self.new_node(dim, result.1, None, n)
            },
            Some(true) => {
                let n = self.get_node(dim, result.1).next;
                self.new_node(dim, None, result.1, n)
            },
            None => self.new_node(dim, None, None, result.1),
        };
        proof {
            let m = new_merged_index as int;
            let f = new_fresh_index as int;
            assert(m != f) by {
                assert(s2.slot_live(d, m));
            }
            self.lemma_extends_trans(&s2, &s1);
            self.lemma_marks_trans(&s2, &s1);
            self.lemma_extends_trans(&s1, &s0);
            self.lemma_marks_trans(&s1, &s0);
            s1.lemma_tallied_refl();
            self.lemma_tallied_trans(&s2, &s1);
            self.lemma_tallied_trans(&s1, &s0);
            if s0.unmarked() {
                self.lemma_tallied_unmarked(&s0);
            }
            self.lemma_is_insert_of_extends(&s1, lvl, sh, result, sp, addr, summary);
            self.lemma_extends_wf(&s1, d, h, x);
            self.lemma_extends_ptr(&s1, d + 1, w1, new_next);
            self.lemma_valid_address_extends(&s0, addr);
            assert(self.width(d + 1) == w1) by {
                if d + 1 < self.ndims() {
                    assert(self.dims@[d + 1].width == s0.dims@[d + 1].width);
                }
            }
            assert(self.slot_live(d, m) && same_links(self.node(d, m), s2.node(d, m))) by {
                assert(s2.slot_live(d, m));
            }
            assert(self.slot_live(d, x) && same_links(self.node(d, x), current_node)) by {
                assert(s1.slot_live(d, x));
            }
            let nm = self.node(d, m);
            let nf = self.node(d, f);
            let nx = self.node(d, x);
            // the point's own chain at this position
            assert(self.is_single(d, h, f, addr, summary)) by {
                if where_to_insert is Some {
                    let c = result.1.unwrap() as int;
                    assert(s2.is_single(d, hh, c, addr, summary));
                    self.lemma_single_extends(&s2, d, hh, c, addr, summary);
                    assert(s2.slot_live(d, c));
                    assert(same_links(self.node(d, c), s2.node(d, c)));
                }
            }
            self.lemma_single_wf(d, h, Some(new_fresh_index), addr, summary);
            if h > 0 {
                let turn = where_to_insert.unwrap();
                let other = if turn {
                    nx.left
                } else {
                    nx.right
                };
                self.lemma_merge_with_null(d, hh, other);
                assert(self.is_merge_of(d, hh, nm.left, nx.left, nf.left));
                assert(self.is_merge_of(d, hh, nm.right, nx.right, nf.right));
                assert forall|q: Seq<(usize, usize)>| #[trigger]
                    self.total_at(d, m, q) == self.total(d, nm.left, q).combine(
                        self.total(d, nm.right, q),
                    ) by {
                    let tm = self.total(d, result.0, q);
                    let tf = self.total(d, result.1, q);
                    let tl = self.total(d, nx.left, q);
                    let tr = self.total(d, nx.right, q);
                    assert(self.total_at(d, x, q) == tl.combine(tr));
                    assert(tm == self.total(d, sp, q).combine(tf));
                    if other is None {
                        // next is the aggregate of the merged child
                        assert(s1.slot_live(d, result.0.unwrap() as int));
                        assert(nm.next == self.node(d, result.0.unwrap() as int).next);
                        Summary::lemma_identity(tm);
                        lemma_identity_right(tm);
                    } else if sp is None {
                        // next is the old child's aggregate merged with the
                        // fresh child's
                        let on = s0.node(d, other.unwrap() as int).next;
                        let rn = s0.node(d, result.0.unwrap() as int).next;
                        assert(s0.slot_live(d, other.unwrap() as int));
                        assert(s0.slot_live(d, result.0.unwrap() as int));
                        assert(s1.is_merge_of(d + 1, w1, new_next, on, rn));
                        self.lemma_is_merge_of_extends(&s1, d + 1, w1, new_next, on, rn);
                        assert(self.node(d, other.unwrap() as int).next == on) by {
                            assert(self.extends(&s0));
                        }
                        assert(self.node(d, result.0.unwrap() as int).next == rn) by {
                            assert(self.extends(&s0));
                        }
                        assert(self.sub_answer(d + 1, w1, new_next, 0, q) == self.sub_answer(
                            d + 1,
                            w1,
                            on,
                            0,
                            q,
                        ).combine(self.sub_answer(d + 1, w1, rn, 0, q)));
                        Summary::lemma_commutative(
                            self.total(d, other, q),
                            self.total(d, result.0, q),
                        );
                    } else {
                        // next is the old aggregate merged with the chain's
                        let cn = s0.node(d, result.1.unwrap() as int).next;
                        assert(s0.slot_live(d, result.1.unwrap() as int));
                        assert(s1.is_merge_of(d + 1, w1, new_next, current_node.next, cn));
                        self.lemma_is_merge_of_extends(
                            &s1,
                            d + 1,
                            w1,
                            new_next,
                            current_node.next,
                            cn,
                        );
                        assert(self.node(d, result.1.unwrap() as int).next == cn) by {
                            assert(self.extends(&s0));
                        }
                        assert(self.sub_answer(d + 1, w1, new_next, 0, q) == self.sub_answer(
                            d + 1,
                            w1,
                            current_node.next,
                            0,
                            q,
                        ).combine(self.sub_answer(d + 1, w1, cn, 0, q)));
                        if turn {
                            // (tl + tr) + tf == tl + (tr + tf)
                            Summary::lemma_associative(tl, tr, tf);
                        } else {
                            // (tl + tr) + tf == (tl + tf) + tr
                            lemma_swap_last(tl, tr, tf);
                        }
                    }
                }
            }
            self.lemma_merged_node(d, h, m, x, f);
            // what was built
            assert(self.insert_shape(lvl, sh, result, sp, addr, summary));
            assert(self.wf_node(d, h, m));
            if h > 0 {
                let turn = where_to_insert.unwrap();
                let other = if turn {
                    nx.left
                } else {
                    nx.right
                };
                assert(s1.slot_live(d, result.0.unwrap() as int));
                assert(s1.slot_live(d, result.1.unwrap() as int));
                assert(self.node(d, result.0.unwrap() as int).next == s0.node(
                    d,
                    result.0.unwrap() as int,
                ).next) by {
                    assert(s0.slot_live(d, result.0.unwrap() as int));
                }
                assert(self.node(d, result.1.unwrap() as int).next == s0.node(
                    d,
                    result.1.unwrap() as int,
                ).next) by {
                    assert(s0.slot_live(d, result.1.unwrap() as int));
                }
                if other is None {
                } else if sp is None {
                    let on = s0.node(d, other.unwrap() as int).next;
                    let rn = s0.node(d, result.0.unwrap() as int).next;
                    assert(s0.slot_live(d, other.unwrap() as int));
                    assert(s1.merge_shape(d + 1, w1, new_next, on, rn));
                    self.lemma_merge_shape_extends(&s1, d + 1, w1, new_next, on, rn);
                } else {
                    let cn = s0.node(d, result.1.unwrap() as int).next;
                    assert(s1.merge_shape(d + 1, w1, new_next, current_node.next, cn));
                    self.lemma_merge_shape_extends(&s1, d + 1, w1, new_next, current_node.next, cn);
                }
            }
            let built = (Some(new_merged_index), Some(new_fresh_index));
            assert(self.insert_shape(d, h, built, current, addr, summary));
            if s0.ranked() {
                s0.lemma_ranked_height(d, h, x);
                assert(self.width(d) == s0.width(d)) by {
                    assert(self.dims@[d].width == s0.dims@[d].width);
                }
                let fresh_m = Set::<(int, int)>::empty().insert((d, m));
                let fresh = fresh_m.insert((d, f));
                assert forall|dd: int, i: int|
                    0 <= dd < self.ndims() && #[trigger] fresh.contains((dd, i)) && self.slot_live(
                        dd,
                        i,
                    ) implies exists|hx: nat| hx <= self.width(dd) && self.wf_node(dd, hx, i) by {
                    if i == m {
                        assert(h <= self.width(d) && self.wf_node(d, h, m));
                    } else {
                        assert(h <= self.width(d) && self.wf_node(d, h, f));
                    }
                }
                assert forall|dd: int, i: int|
                    0 <= dd < self.ndims() && #[trigger] self.slot_live(dd, i) implies s1.slot_live(
                    dd,
                    i,
                ) || fresh.contains((dd, i)) by {
                    if !(dd == d && i == f) {
                        assert(s2.slot_live(dd, i));
                    }
                }
                self.lemma_ranked_extended(&s1, fresh);
            }
            assert(!s0.slot_live(d, f)) by {
                if s0.slot_live(d, f) {
                    assert(s1.slot_live(d, f));
                    assert(s2.slot_live(d, f));
                }
            }
            assert forall|dd: int, i: int| #[trigger] self.loose(dd, i) implies (dd == d && (i == m
                || i == f)) || (s0.loose(dd, i) && !(dd == lvl && (i == result.0.unwrap() || i
                == result.1.unwrap()))) by {
                if !(dd == d && (i == m || i == f)) {
                    assert(s2.loose(dd, i));
                    assert(s1.loose(dd, i));
                    assert(links_to(d, new_left, new_right, new_next, dd, i) == 0);
                    assert(links_to(d, nf.left, nf.right, nf.next, dd, i) == 0);
                    if !s0.loose(dd, i) {
                        assert(dd == d + 1 && new_next is Some && new_next.unwrap() == i);
                    }
                }
            }
        }
        (Some(new_merged_index), Some(new_fresh_index))
    }

    /// Inserts the point `addresses` with `summary` below
    /// `current_node_index`, the pointer found at bit `bit` of level `dim` on
    /// the way down the point's address. Returns the pointer that takes its
    /// place, and the head of the point's own chain at that position.
    ///
    /// Nothing refers to either result yet. The old structure is shared, not
    /// changed. Below an existing node the two results are different slots;
    /// below a null pointer they are one, the chain of the point.
    pub fn insert(
        &mut self,
        summary: Summary,
        addresses: &Vec<usize>,
        dim: usize,
        bit: usize,
        current_node_index: NodePointerType,
    ) -> (r: (NodePointerType, NodePointerType))
        requires
            old(self).inv(),
            old(self).valid_address(addresses@),
            dim <= old(self).dims@.len(),
            bit <= old(self).width(dim as int),
            old(self).wf_ptr(
                dim as int,
                old(self).height_at(dim as int, bit as int),
                current_node_index,
            ),
            dim == old(self).dims@.len() ==> current_node_index is Some,
        ensures
            final(self).inv(),
            final(self).extends(old(self)),
            final(self).base_root == old(self).base_root,
            final(self).release_list@ == old(self).release_list@,
            final(self).is_insert_of(
                dim as int,
                old(self).height_at(dim as int, bit as int),
                r,
                current_node_index,
                addresses@,
                summary,
            ),
            !old(self).slot_live(dim as int, r.1.unwrap() as int),
            forall|d: int, i: int| #[trigger]
                final(self).loose(d, i) ==> old(self).loose(d, i) || (d == dim && (i
                    == r.0.unwrap() || i == r.1.unwrap())),
            final(self).tallied_from(old(self)),
            final(self).keeps_marks(old(self)),
            old(self).ranked() ==> final(self).ranked(),
            current_node_index is Some ==> r.0 != r.1,
            old(self).unmarked() ==> final(self).unmarked(),
        decreases old(self).dims@.len() - dim, old(self).width(dim as int) - bit,
    {
        let ghost s0 = *self;
        let ghost d = dim as int;
        let ghost h = self.height_at(d, bit as int);
        let ghost addr = addresses@;
        if dim == self.dims.len() {
            // the address is in the cube already: its summary is the old one
            // and the new one combined
            return self.insert_at_summary(summary, current_node_index, Ghost(addr));
        }
        if current_node_index.is_none() {
            let fresh_insert = self.fresh_chain(summary, addresses, dim, bit);
            proof {
                self.lemma_single_wf(d, h, fresh_insert, addr, summary);
                self.lemma_merge_with_null(d, h, fresh_insert);
            }
            return (fresh_insert, fresh_insert);
        }
        let width = self.dims[dim].width;
        let current_node = self.get_node(dim, current_node_index);
        let current_address = addresses[dim];
        let ghost x = current_node_index.unwrap() as int;
        proof {
            assert(self.wf_node(d, h, x));
            assert(self.dims@[d].width < usize::BITS);
        }
        let (where_to_insert, result) = if bit == width {
            // into the next dimension, through `next`
            (None, self.insert(summary, addresses, dim + 1, 0, current_node.next))
        } else {
            // further into this dimension, through a child
            let w = get_bit(current_address, width - bit - 1);
            let refinement_node = if w {
                current_node.right
            } else {
                current_node.left
            };
            (Some(w), self.insert(summary, addresses, dim, bit + 1, refinement_node))
        };
        let ghost s1 = *self;
        proof {
            s1.lemma_extends_wf(&s0, d, h, x);
            s1.lemma_valid_address_extends(&s0, addr);
            assert(s0.slot_live(d, x));
            assert(s1.width(d) == s0.width(d)) by {
                assert(s1.dims@[d].width == s0.dims@[d].width);
            }
            assert(s1.width(d + 1) == s0.width(d + 1)) by {
                if d + 1 < s1.ndims() {
                    assert(s1.dims@[d + 1].width == s0.dims@[d + 1].width);
                }
            }
        }
        let r = self.climb(
            current_node_index,
            dim,
            where_to_insert,
            result,
            Ghost(h),
            Ghost(addr),
            Ghost(summary),
        );
        proof {
            self.lemma_extends_trans(&s1, &s0);
            self.lemma_marks_trans(&s1, &s0);
            self.lemma_tallied_trans(&s1, &s0);
            if s0.slot_live(d, r.1.unwrap() as int) {
                assert(s1.slot_live(d, r.1.unwrap() as int));
            }
            assert forall|dd: int, i: int| #[trigger] self.loose(dd, i) implies s0.loose(dd, i) || (
            dd == d && (i == r.0.unwrap() || i == r.1.unwrap())) by {
                if !(dd == d && (i == r.0.unwrap() || i == r.1.unwrap())) {
                    assert(s1.loose(dd, i));
                }
            }
        }
        r
    }

    /// The insertion at the bottom of the cube, where the address leads to a
    /// summary: stores the new summary and its combination with the one that
    /// is there, and returns the slot of the combination and that of the new
    /// summary.
    fn insert_at_summary(
        &mut self,
        summary: Summary,
        current_node_index: NodePointerType,
        Ghost(addr): Ghost<Seq<usize>>,
    ) -> (r: (NodePointerType, NodePointerType))
        requires
            old(self).inv(),
            current_node_index is Some,
            old(self).summaries.live(current_node_index.unwrap() as int),
        ensures
            final(self).inv(),
            final(self).extends(old(self)),
            final(self).base_root == old(self).base_root,
            final(self).release_list@ == old(self).release_list@,
            final(self).is_insert_of(
                final(self).ndims(),
                0,
                r,
                current_node_index,
                addr,
                summary,
            ),
            !old(self).slot_live(old(self).ndims(), r.1.unwrap() as int),
            forall|d: int, i: int| #[trigger]
                final(self).loose(d, i) ==> old(self).loose(d, i) || (d == old(self).ndims() && (i
                    == r.0.unwrap() || i == r.1.unwrap())),
            final(self).tallied_from(old(self)),
            final(self).keeps_marks(old(self)),
            old(self).ranked() ==> final(self).ranked(),
            r.0 != r.1,
            old(self).unmarked() ==> final(self).unmarked(),
    {
        let ghost s0 = *self;
        let existing = self.summaries.values[current_node_index.unwrap()];
        let merged_summary = summary.mapply(&existing);
        let new_insert = self.new_summary(summary);
        let ghost s1 = *self;
        let merged_insert = self.new_summary(merged_summary);
        proof {
            let dd = self.ndims();
            let x = current_node_index.unwrap() as int;
            self.lemma_extends_trans(&s1, &s0);
            self.lemma_marks_trans(&s1, &s0);
            self.lemma_tallied_trans(&s1, &s0);
            if s0.unmarked() {
                self.lemma_tallied_unmarked(&s0);
            }
            assert(s1.summaries.live(x) && s1.summaries.values@[x] == existing);
            assert(self.summaries.live(x) && self.summaries.values@[x] == existing);
            assert(self.summaries.live(new_insert as int) && self.summaries.values@[new_insert as int]
                == summary);
            Summary::lemma_commutative(summary, existing);
            assert forall|d: int, i: int| #[trigger] self.loose(d, i) implies s0.loose(d, i) || (d
                == dd && (i == merged_insert || i == new_insert)) by {
                if !(d == dd && i == merged_insert) {
                    assert(s1.loose(d, i));
                }
            }
            assert forall|lo: int, q: Seq<(usize, usize)>| #[trigger]
                self.sub_answer(dd, 0, Some(merged_insert), lo, q) == self.sub_answer(
                    dd,
                    0,
                    current_node_index,
                    lo,
                    q,
                ).combine(self.sub_answer(dd, 0, Some(new_insert), lo, q)) by {}
        }
        (Some(merged_insert), Some(new_insert))
    }

    /// Inserts the point `addresses` with `summary` into the cube and returns
    /// the new root and the head of the point's own chain, both at the top of
    /// the first dimension. The root of the cube is not changed, and nothing
    /// refers to either result yet.
    ///
    /// Walks down the address collecting the path in `spine`, builds the chain
    /// of the point below the end of the path, and walks the path back up,
    /// merging. `spine` is working space: it is empty before and after.
    #[inline(never)]
    #[verifier::rlimit(40)]
    pub fn insert_new(
        &mut self,
        summary: Summary,
        addresses: &Vec<usize>,
        spine: &mut Vec<SpineEntry>,
    ) -> (r: (NodePointerType, NodePointerType))
        requires
            old(self).inv(),
            old(self).valid_address(addresses@),
            old(spine)@.len() == 0,
        ensures
            final(self).inv(),
            final(self).extends(old(self)),
            final(self).base_root == old(self).base_root,
            final(self).release_list@ == old(self).release_list@,
            final(spine)@.len() == 0,
            final(self).is_insert_of(
                0,
                old(self).width(0),
                r,
                old(self).base_root,
                addresses@,
                summary,
            ),
            !old(self).slot_live(0, r.1.unwrap() as int),
            forall|d: int, i: int| #[trigger]
                final(self).loose(d, i) ==> old(self).loose(d, i) || (d == 0 && (i == r.0.unwrap()
                    || i == r.1.unwrap())),
            final(self).tallied_from(old(self)),
            final(self).keeps_marks(old(self)),
            old(self).ranked() ==> final(self).ranked(),
            old(self).base_root is Some ==> r.0 != r.1,
            old(self).unmarked() ==> final(self).unmarked(),
    {
        let ghost s0 = *self;
        let ghost addr = addresses@;
        let ghost root = self.base_root;
        // first, down the path of existing nodes
        self.make_spine(addresses, spine);
        proof {
            self.lemma_descent_linked(addr, root, 0, 0);
            assert(spine@ == self.descent(addr, root, 0, 0));
            self.lemma_extends_refl();
        }
        // then, the fresh nodes below its end
        let ghost whole = spine@;
        let (current_node_index, dim, bit, _where_to_insert) = spine.pop().unwrap();
        proof {
            let e = whole.last();
            assert(self.entry_ok(e, addr));
            assert(spine@ == whole.drop_last());
            assert(self.linked(spine@, addr)) by {
                assert forall|k: int| 0 <= k < spine@.len() implies self.entry_ok(
                    #[trigger] spine@[k],
                    addr,
                ) by {
                    assert(spine@[k] == whole[k]);
                }
                assert forall|k: int| 0 < k < spine@.len() implies self.follows(
                    spine@[k - 1],
                    #[trigger] spine@[k],
                ) by {
                    assert(spine@[k] == whole[k]);
                    assert(spine@[k - 1] == whole[k - 1]);
                }
            }
            if spine@.len() > 0 {
                assert(self.follows(whole[whole.len() - 2], whole[whole.len() - 1]));
                assert(spine@.last() == whole[whole.len() - 2]);
                assert(spine@[0] == whole[0]);
            } else {
                assert(whole.last() == whole[0]);
                assert(root is None);
            }
        }
        let mut result = if current_node_index.is_none() {
            let fresh_insert = self.fresh_chain(summary, addresses, dim, bit);
            proof {
                let h = s0.height_at(dim as int, bit as int);
                self.lemma_single_wf(dim as int, h, fresh_insert, addr, summary);
                self.lemma_merge_with_null(dim as int, h, fresh_insert);
            }
            (fresh_insert, fresh_insert)
        } else {
            // the address is in the cube already
            self.insert_at_summary(summary, current_node_index, Ghost(addr))
        };
        proof {
            self.lemma_linked_extends(&s0, spine@, addr);
            self.lemma_valid_address_extends(&s0, addr);
            assert(self.width(0) == s0.width(0)) by {
                assert(self.dims@[0].width == s0.dims@[0].width);
            }
            assert(self.tip_ok(spine@, result, root, addr, summary)) by {
                if spine@.len() > 0 {
                    let e = spine@.last();
                    assert(s0.entry_ok(e, addr));
                    assert(s0.slot_live(e.1 as int, e.0.unwrap() as int));
                    assert(self.width(e.1 as int) == s0.width(e.1 as int)) by {
                        assert(self.dims@[e.1 as int].width == s0.dims@[e.1 as int].width);
                    }
                    assert(self.width(e.1 + 1) == s0.width(e.1 + 1)) by {
                        if e.1 + 1 < self.ndims() {
                            assert(self.dims@[e.1 + 1].width == s0.dims@[e.1 + 1].width);
                        }
                    }
                }
            }
        }
        // finally, back up the path
        while spine.len() > 0
            invariant
                self.inv(),
                self.extends(&s0),
                self.valid_address(addr),
                self.base_root == s0.base_root,
                self.release_list@ == s0.release_list@,
                root == s0.base_root,
                self.linked(spine@, addr),
                spine@.len() > 0 ==> spine@[0].0 == root && spine@[0].1 == 0 && spine@[0].2 == 0,
                self.tip_ok(spine@, result, root, addr, summary),
                self.tallied_from(&s0),
                self.keeps_marks(&s0),
                root is Some && spine@.len() == 0 ==> result.0 != result.1,
                s0.ranked() ==> self.ranked(),
                result.1 is Some,
                result.0 is Some,
                !s0.slot_live(
                    if spine@.len() == 0 {
                        0
                    } else {
                        step_level(spine@.last().1 as int, spine@.last().3)
                    },
                    result.1.unwrap() as int,
                ),
                forall|dd: int, i: int| #[trigger]
                    self.loose(dd, i) ==> s0.loose(dd, i) || (dd == if spine@.len() == 0 {
                        0
                    } else {
                        step_level(spine@.last().1 as int, spine@.last().3)
                    } && (i == result.0.unwrap() || i == result.1.unwrap())),
            decreases spine@.len(),
        {
            let ghost s1 = *self;
            let ghost sp = spine@;
            let (current_node_index, dim, _bit, where_to_insert) = spine.pop().unwrap();
            proof {
                let e = sp.last();
                assert(self.entry_ok(e, addr));
                assert(spine@ == sp.drop_last());
            }
            let ghost h = self.height_at(dim as int, _bit as int);
            result =
            self.climb(
                current_node_index,
                dim,
                where_to_insert,
                result,
                Ghost(h),
                Ghost(addr),
                Ghost(summary),
            );
            proof {
                self.lemma_extends_trans(&s1, &s0);
                self.lemma_marks_trans(&s1, &s0);
                self.lemma_tallied_trans(&s1, &s0);
                self.lemma_valid_address_extends(&s1, addr);
                s1.lemma_shorter_linked(sp, addr);
                self.lemma_linked_extends(&s1, spine@, addr);
                assert forall|dd: int| self.width(dd) == s1.width(dd) by {
                    if 0 <= dd < self.dims@.len() {
                        assert(self.dims@[dd].width == s1.dims@[dd].width);
                    }
                }
                if s0.slot_live(dim as int, result.1.unwrap() as int) {
                    assert(s1.slot_live(dim as int, result.1.unwrap() as int));
                }
                assert forall|dd: int, i: int| #[trigger] self.loose(dd, i) implies s0.loose(dd, i)
                    || (dd == dim && (i == result.0.unwrap() || i == result.1.unwrap())) by {
                    if !(dd == dim && (i == result.0.unwrap() || i == result.1.unwrap())) {
                        assert(s1.loose(dd, i));
                    }
                }
                if spine@.len() > 0 {
                    let e = sp.last();
                    let prev = spine@.last();
                    assert(prev == sp[sp.len() - 2]);
                    assert(s1.follows(prev, e));
                    assert(s1.entry_ok(prev, addr));
                    assert(s1.slot_live(prev.1 as int, prev.0.unwrap() as int));
                    assert(spine@[0] == sp[0]);
                } else {
                    assert(sp.last() == sp[0]);
                }
            }
        }
        proof {
            if s0.unmarked() {
                self.lemma_tallied_unmarked(&s0);
            }
        }
        result
    }

    /// Adds the point `addresses` with `summary` to the cube: from now on
    /// every query whose box holds the point answers with `summary` combined
    /// into what it answered before, and every other query answers as before.
    pub fn add(&mut self, summary: Summary, addresses: &Vec<usize>)
        requires
            old(self).inv(),
            old(self).valid_address(addresses@),
        ensures
            final(self).inv(),
            final(self).widths() == old(self).widths(),
            forall|q: Seq<(usize, usize)>|
                q.len() == old(self).ndims() ==> #[trigger] final(self).answer_to(q)
                    == old(self).answer_to(q).combine(single_from(summary, addresses@, q, 0)),
            old(self).settled() ==> final(self).settled(),
            old(self).balanced() ==> final(self).balanced(),
            old(self).ranked() ==> final(self).ranked(),
            final(self).base_root is Some,
            old(self).unmarked() ==> final(self).unmarked(),
    {
        let mut spine = Vec::with_capacity(64);
        self.add_with(summary, addresses, &mut spine);
    }

    /// `add`, with the working space for the path handed in.
    fn add_with(&mut self, summary: Summary, addresses: &Vec<usize>, spine: &mut Vec<SpineEntry>)
        requires
            old(self).inv(),
            old(self).valid_address(addresses@),
            old(spine)@.len() == 0,
        ensures
            final(self).inv(),
            final(self).widths() == old(self).widths(),
            final(spine)@.len() == 0,
            forall|q: Seq<(usize, usize)>|
                q.len() == old(self).ndims() ==> #[trigger] final(self).answer_to(q)
                    == old(self).answer_to(q).combine(single_from(summary, addresses@, q, 0)),
            old(self).settled() ==> final(self).settled(),
            old(self).balanced() ==> final(self).balanced(),
            old(self).ranked() ==> final(self).ranked(),
            forall|d: int, i: int|
                0 <= d <= old(self).ndims() && 0 <= i < old(self).pool_len(d)
                    && #[trigger] old(self).count_at(d, i) == usize::MAX ==> final(self).count_at(
                    d,
                    i,
                ) == usize::MAX,
            forall|d: int| #[trigger] final(self).pool_len(d) >= old(self).pool_len(d),
            final(self).base_root is Some,
            old(self).unmarked() ==> final(self).unmarked(),
    {
        let ghost s0 = *self;
        let ghost addr = addresses@;
        let base = self.base_root;
        let (result_base, orphan_node) = self.insert_new(summary, addresses, spine);
        let ghost s1 = *self;
        let ghost w0 = s0.width(0);
        proof {
            s1.lemma_valid_address_extends(&s0, addr);
            s1.lemma_single_wf(0, w0, orphan_node, addr, summary);
            assert(s1.width(0) == w0) by {
                assert(s1.dims@[0].width == s0.dims@[0].width);
            }
            assert(s1.slot_live(0, result_base.unwrap() as int));
            assert(s1.slot_live(0, orphan_node.unwrap() as int));
            s1.lemma_widths_extends(&s0);
            // what the new root answers
            assert forall|q: Seq<(usize, usize)>| q.len() == s0.ndims() implies s1.sub_answer(
                0,
                w0,
                result_base,
                0,
                q,
            ) == s0.answer_to(q).combine(single_from(summary, addr, q, 0)) by {
                s1.lemma_extends_answer(&s0, 0, w0, base, 0, q);
                s1.lemma_single_rest(0, w0, orphan_node, addr, summary, q);
                s1.lemma_single_rest_value(0, addr, summary, q);
                assert(s1.sub_answer(0, w0, result_base, 0, q) == s1.sub_answer(
                    0,
                    w0,
                    base,
                    0,
                    q,
                ).combine(s1.sub_answer(0, w0, orphan_node, 0, q)));
            }
        }
        proof {
            if s0.unmarked() {
                s1.lemma_tallied_unmarked(&s0);
            }
        }
        self.make_node_ref(result_base, 0);
        let ghost s2 = *self;
        proof {
            s2.lemma_same_but_counts(&s1);
            s2.lemma_extends_ptr(&s1, 0, w0, result_base);
            s2.lemma_extends_ptr(&s1, 0, w0, orphan_node);
            assert(s2.width(0) == w0) by {
                assert(s2.dims@[0].width == s1.dims@[0].width);
            }
        }
        // the new root takes over before the old one is released, so that a
        // flush finds the cube as it will be
        self.set_root(result_base);
        let ghost s3 = *self;
        proof {
            if s2.unmarked() {
                s3.lemma_unmarked_same(&s2);
            }
            s3.lemma_extends_ptr(&s2, 0, w0, orphan_node);
            s3.lemma_extends_ptr(&s2, 0, w0, result_base);
            assert(s3.ndims() == s0.ndims());
            assert(s3.width(0) == w0);
            if base is Some {
                assert(s0.slot_live(0, base.unwrap() as int));
            }
            assert(s3.slot_live(0, orphan_node.unwrap() as int));
            assert forall|q: Seq<(usize, usize)>| q.len() == s0.ndims() implies #[trigger]
                s3.answer_to(q) == s0.answer_to(q).combine(
                    single_from(summary, addr, q, 0),
                ) by {
                assert(s3.sub_answer(0, w0, result_base, 0, q) == s2.sub_answer(
                    0,
                    w0,
                    result_base,
                    0,
                    q,
                ));
                assert(s2.sub_answer(0, w0, result_base, 0, q) == s1.sub_answer(
                    0,
                    w0,
                    result_base,
                    0,
                    q,
                ));
            }
        }
        // The head of the point's own chain served the ascent only. It gets
        // a reference and loses it again, so that the flush reclaims the
        // chain.
        self.make_node_ref(orphan_node, 0);
        let ghost s4 = *self;
        proof {
            s4.lemma_same_but_counts(&s3);
            s4.lemma_widths_extends(&s3);
            assert(s4.held(0, orphan_node.unwrap() as int));
            if s0.settled() {
                assert forall|d: int, i: int| !#[trigger] s4.loose(d, i) by {
                    if s4.loose(d, i) {
                        assert(s3.loose(d, i));
                        assert(s2.loose(d, i));
                        assert(s1.loose(d, i));
                        assert(!s0.loose(d, i));
                    }
                }
            }
            assert(base != orphan_node);
            if base is Some {
                assert(s3.held(0, base.unwrap() as int));
                assert(s4.held(0, base.unwrap() as int));
                assert(base.unwrap() < s4.pool_len(0));
            }
            assert forall|q: Seq<(usize, usize)>| q.len() == s0.ndims() implies #[trigger]
                s4.answer_to(q) == s0.answer_to(q).combine(
                    single_from(summary, addr, q, 0),
                ) by {
                assert(s4.answer_to(q) == s3.answer_to(q));
            }
        }
        self.release_node_ref(base, 0);
        let ghost s5 = *self;
        proof {
            assert(s5.held(0, orphan_node.unwrap() as int));
            if s0.settled() {
                assert forall|d: int, i: int| !#[trigger] s5.loose(d, i) by {
                    if s5.loose(d, i) {
                        assert(s4.loose(d, i));
                    }
                }
            }
            assert forall|q: Seq<(usize, usize)>| q.len() == s0.ndims() implies #[trigger]
                s5.answer_to(q) == s0.answer_to(q).combine(
                    single_from(summary, addr, q, 0),
                ) by {
                assert(s5.answer_to(q) == s4.answer_to(q));
            }
            assert(s5.ndims() == s4.ndims());
        }
        self.release_node_ref(orphan_node, 0);
        proof {
            assert(s1.slot_live(0, result_base.unwrap() as int));
            assert(s1.slot_live(0, orphan_node.unwrap() as int));
            self.lemma_added_balanced(&s5, &s4, &s3, &s2, &s1, &s0, base, result_base, orphan_node);
            if s0.settled() {
                assert forall|d: int, i: int| !#[trigger] self.loose(d, i) by {
                    if self.loose(d, i) {
                        assert(s5.loose(d, i));
                    }
                }
            }
            assert forall|q: Seq<(usize, usize)>| q.len() == s0.ndims() implies #[trigger]
                self.answer_to(q) == s0.answer_to(q).combine(
                    single_from(summary, addr, q, 0),
                ) by {
                assert(self.answer_to(q) == s5.answer_to(q));
            }
            self.lemma_widths_restricts(&s5);
            s5.lemma_widths_restricts(&s4);
            s3.lemma_widths_extends(&s2);
            s2.lemma_widths_extends(&s1);
        }
    }

    /// Adds the points `address_list`, each with the summary at its place in
    /// `summaries`, one after the other: the cube then answers every query
    /// as it would after that many calls of `add`.
    pub fn add_many(&mut self, summaries: &[Summary], address_list: &[Vec<usize>])
        requires
            old(self).inv(),
            summaries@.len() >= address_list@.len(),
            forall|i: int|
                0 <= i < address_list@.len() ==> old(self).valid_address(
                    (#[trigger] address_list@[i])@,
                ),
        ensures
            final(self).inv(),
            final(self).widths() == old(self).widths(),
            forall|q: Seq<(usize, usize)>|
                q.len() == old(self).ndims() ==> #[trigger] final(self).answer_to(q)
                    == old(self).answer_to(q).combine(
                    fold_points(
                        zip_points(address_list@, summaries@, address_list@.len() as int),
                        q,
                    ),
                ),
            old(self).settled() ==> final(self).settled(),
            old(self).balanced() ==> final(self).balanced(),
            old(self).ranked() ==> final(self).ranked(),
            old(self).unmarked() ==> final(self).unmarked(),
            address_list@.len() == 0 ==> *final(self) == *old(self),
            address_list@.len() > 0 ==> final(self).base_root is Some,
    {
        let ghost s0 = *self;
        let ghost all = zip_points(address_list@, summaries@, address_list@.len() as int);
        let mut spine = Vec::with_capacity(64);
        let n = address_list.len();
        let mut i: usize = 0;
        proof {
            assert forall|q: Seq<(usize, usize)>| q.len() == s0.ndims() implies #[trigger]
                self.answer_to(q) == s0.answer_to(q).combine(
                    fold_points(
                        zip_points(address_list@, summaries@, 0),
                        q,
                    ),
                ) by {
                lemma_identity_right(s0.answer_to(q));
            }
        }
        while i < n
            invariant
                0 <= i <= n,
                n == address_list@.len(),
                summaries@.len() >= address_list@.len(),
                spine@.len() == 0,
                self.inv(),
                s0.settled() ==> self.settled(),
                s0.balanced() ==> self.balanced(),
                s0.ranked() ==> self.ranked(),
                s0.unmarked() ==> self.unmarked(),
                i == 0 ==> *self == s0,
                i > 0 ==> self.base_root is Some,
                self.widths() == s0.widths(),
                forall|k: int|
                    0 <= k < address_list@.len() ==> s0.valid_address(
                        (#[trigger] address_list@[k])@,
                    ),
                forall|q: Seq<(usize, usize)>|
                    q.len() == s0.ndims() ==> #[trigger] self.answer_to(q) == s0.answer_to(
                        q,
                    ).combine(
                        fold_points(
                            zip_points(address_list@, summaries@, i as int),
                            q,
                        ),
                    ),
            decreases n - i,
        {
            let addresses = &address_list[i];
            let summary = summaries[i];
            let ghost s1 = *self;
            proof {
                s0.lemma_same_widths(&s1, addresses@);
                assert(s1.ndims() == s0.ndims()) by {
                    assert(s1.widths().len() == s0.widths().len());
                }
            }
            self.add_with(summary, addresses, &mut spine);
            proof {
                let before = zip_points(address_list@, summaries@, i as int);
                let after = zip_points(address_list@, summaries@, i + 1);
                assert(after.drop_last() == before);
                assert(after.last() == (addresses@, summary));
                assert forall|q: Seq<(usize, usize)>| q.len() == s0.ndims() implies #[trigger]
                    self.answer_to(q) == s0.answer_to(q).combine(
                        fold_points(after, q),
                    ) by {
                    let one = single_from(summary, addresses@, q, 0);
                    assert(self.answer_to(q) == s1.answer_to(q).combine(one));
                    Summary::lemma_associative(
                        s0.answer_to(q),
                        fold_points(before, q),
                        one,
                    );
                }
            }
            i = i + 1;
        }
    }

    /// A cube of the given widths that holds the points `points`, each with
    /// the summary at its place in `summaries`: it answers every query with
    /// the combination of the summaries of the points inside the query's box.
    pub fn new_from_many(widths: Vec<usize>, summaries: &[Summary], points: &[Vec<usize>]) -> (nc:
        Nanocube<Summary>)
        requires
            widths@.len() > 0,
            forall|d: int| 0 <= d < widths@.len() ==> 1 <= #[trigger] widths@[d] < usize::BITS,
            summaries@.len() >= points@.len(),
            forall|i: int|
                0 <= i < points@.len() ==> valid_point(
                    widths@,
                    (#[trigger] points@[i])@,
                ),
        ensures
            nc.inv(),
            nc.settled(),
            nc.balanced(),
            nc.ranked(),
            nc.widths() == widths@,
            forall|q: Seq<(usize, usize)>|
                q.len() == widths@.len() ==> #[trigger] nc.answer_to(q) == fold_points(
                    zip_points(points@, summaries@, points@.len() as int),
                    q,
                ),
            nc.unmarked(),
            points@.len() > 0 ==> nc.base_root is Some,
            points@.len() == 0 ==> {
                &&& nc.base_root is None
                &&& nc.pending().len() == 0
                &&& forall|d: int| 0 <= d <= nc.ndims() ==> #[trigger] nc.pool_len(d) == 0
            },
    {
        let mut nc = Nanocube::new(widths);
        proof {
            assert forall|i: int| 0 <= i < points@.len() implies nc.valid_address(
                (#[trigger] points@[i])@,
            ) by {
                nc.lemma_valid_point(points@[i]@);
            }
        }
        nc.add_many(summaries, points);
        proof {
            assert forall|q: Seq<(usize, usize)>| q.len() == widths@.len() implies #[trigger]
                nc.answer_to(q) == fold_points(
                    zip_points(points@, summaries@, points@.len() as int),
                    q,
                ) by {
                Summary::lemma_identity(
                    fold_points(
                        zip_points(points@, summaries@, points@.len() as int),
                        q,
                    ),
                );
            }
        }
        nc
    }

    /// Meant to combine `summary` into the summary of a point that the cube
    /// holds already, without building new structure. So far it only finds
    /// the path of `addresses`, and changes nothing.
    pub fn update(&mut self, summary: Summary, addresses: &Vec<usize>)
        requires
            old(self).inv(),
            old(self).valid_address(addresses@),
        ensures
            *final(self) == *old(self),
    {
        let mut spine = Vec::with_capacity(64);
        self.make_spine(addresses, &mut spine);
    }
}

impl<Summary: Monoid> Nanocube<Summary> {
    /// `result` is the outcome of the insertion for the position below the
    /// last entry of `spine`, or for the root if `spine` is empty.
    pub open spec fn tip_ok(
        &self,
        spine: Seq<SpineEntry>,
        result: (NodePointerType, NodePointerType),
        root: NodePointerType,
        address: Seq<usize>,
        summary: Summary,
    ) -> bool {
        if spine.len() == 0 {
            self.is_insert_of(0, self.width(0), result, root, address, summary)
        } else {
            let e = spine.last();
            &&& e.0 is Some
            &&& e.1 < self.ndims()
            &&& self.is_insert_of(
                step_level(e.1 as int, e.3),
                self.step_height(e.1 as int, self.height_at(e.1 as int, e.2 as int), e.3),
                result,
                self.step_ptr(e.1 as int, e.0.unwrap() as int, e.3),
                address,
                summary,
            )
        }
    }

    /// A linked stretch without its last entry is linked.
    pub proof fn lemma_shorter_linked(&self, spine: Seq<SpineEntry>, address: Seq<usize>)
        requires
            self.linked(spine, address),
            spine.len() > 0,
        ensures
            self.linked(spine.drop_last(), address),
    {
        let s = spine.drop_last();
        assert forall|k: int| 0 <= k < s.len() implies self.entry_ok(#[trigger] s[k], address) by {
            assert(s[k] == spine[k]);
        }
        assert forall|k: int| 0 < k < s.len() implies self.follows(s[k - 1], #[trigger] s[k]) by {
            assert(s[k] == spine[k]);
            assert(s[k - 1] == spine[k - 1]);
        }
    }

    /// A later state has the same widths.
    pub proof fn lemma_widths_extends(&self, before: &Self)
        requires
            self.extends(before),
        ensures
            self.widths() == before.widths(),
    {
        assert(self.widths() =~= before.widths());
    }

    /// A state that keeps the live slots of another has the same widths.
    pub proof fn lemma_widths_restricts(&self, before: &Self)
        requires
            self.restricts(before),
        ensures
            self.widths() == before.widths(),
    {
        assert(self.widths() =~= before.widths());
    }

    /// Cubes of the same widths have the same points.
    pub proof fn lemma_same_widths(&self, other: &Self, address: Seq<usize>)
        requires
            self.widths() == other.widths(),
            self.valid_address(address),
        ensures
            other.valid_address(address),
            other.ndims() == self.ndims(),
    {
        assert(self.widths().len() == other.widths().len());
        assert(self.widths().len() == self.dims@.len());
        assert(other.widths().len() == other.dims@.len());
        assert forall|d: int| 0 <= d < other.ndims() implies (#[trigger] address[d]) < pow2(
            other.width(d),
        ) by {
            assert(self.widths()[d] == other.widths()[d]);
            assert(self.widths()[d] == self.dims@[d].width);
            assert(other.widths()[d] == other.dims@[d].width);
        }
    }

    /// A point of the cube's widths is a point of the cube.
    pub proof fn lemma_valid_point(&self, address: Seq<usize>)
        requires
            valid_point(self.widths(), address),
        ensures
            self.valid_address(address),
    {
        assert forall|d: int| 0 <= d < self.ndims() implies (#[trigger] address[d]) < pow2(
            self.width(d),
        ) by {
            assert(self.widths()[d] == self.dims@[d].width);
        }
    }
}

} // verus!
