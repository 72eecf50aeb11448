//! The part of a cube that holds one point: a chain of one-sided nodes that
//! follows the bits of the point's address through every dimension.

use crate::cube::{
    inside_from, lemma_identity_right, range_contains, range_overlaps, single_from, Monoid,
};
use crate::nanocube::{Nanocube, NodePointerType};
use vstd::arithmetic::div_mod::{lemma_div_denominator, lemma_fundamental_div_mod, lemma_mod_bound};
use vstd::arithmetic::power2::{lemma_pow2_pos, lemma_pow2_unfold, pow2};
use vstd::prelude::*;

verus! {

/// Bit `k` of `v`, counting from the least significant.
pub open spec fn bit_of(v: int, k: nat) -> bool {
    (v / (pow2(k) as int)) % 2 == 1
}

/// The start of the block of `2^h` consecutive values, aligned to `2^h`,
/// that holds `a`.
pub open spec fn block_start(a: int, h: nat) -> int {
    (a / (pow2(h) as int)) * pow2(h)
}

/// A value lies in its block.
pub proof fn lemma_block_bounds(a: int, h: nat)
    requires
        0 <= a,
    ensures
        0 <= block_start(a, h) <= a < block_start(a, h) + pow2(h),
{
    let p = pow2(h) as int;
    lemma_pow2_pos(h);
    lemma_fundamental_div_mod(a, p);
    lemma_mod_bound(a, p);
    assert((a / p) * p == p * (a / p)) by (nonlinear_arith);
    assert(0 <= (a / p) * p) by (nonlinear_arith)
        requires
            0 <= a,
            0 < p,
    ;
}

/// The block of half the size that holds `a` is the lower or the upper half
/// of its block, as bit `h - 1` of `a` says.
pub proof fn lemma_block_step(a: int, h: nat)
    requires
        0 <= a,
        h > 0,
    ensures
        block_start(a, (h - 1) as nat) == block_start(a, h) + if bit_of(a, (h - 1) as nat) {
            pow2((h - 1) as nat) as int
        } else {
            0
        },
{
    let p = pow2((h - 1) as nat) as int;
    lemma_pow2_pos((h - 1) as nat);
    lemma_pow2_unfold(h);
    let t = a / p;
    lemma_div_denominator(a, p, 2);
    assert(p * 2 == 2 * p);
    assert(a / (2 * p) == t / 2);
    lemma_fundamental_div_mod(t, 2);
    assert(t * p == (t / 2) * (2 * p) + (t % 2) * p) by (nonlinear_arith)
        requires
            t == 2 * (t / 2) + (t % 2),
    ;
    assert(t % 2 == 0 || t % 2 == 1);
    if t % 2 == 1 {
        assert((t % 2) * p == p) by (nonlinear_arith)
            requires
                t % 2 == 1,
        ;
    } else {
        assert((t % 2) * p == 0) by (nonlinear_arith)
            requires
                t % 2 == 0,
        ;
    }
}

/// The block as wide as the whole range starts at zero.
pub proof fn lemma_block_whole(a: int, w: nat)
    requires
        0 <= a < pow2(w),
    ensures
        block_start(a, w) == 0,
{
    let p = pow2(w) as int;
    vstd::arithmetic::div_mod::lemma_basic_div(a, p);
}

impl<Summary: Monoid> Nanocube<Summary> {
    /// `address` is a point of this cube: one coordinate per dimension, each
    /// within its dimension's width.
    pub open spec fn valid_address(&self, address: Seq<usize>) -> bool {
        &&& address.len() == self.ndims()
        &&& forall|d: int| 0 <= d < self.ndims() ==> (#[trigger] address[d]) < pow2(self.width(d))
    }

    /// Slot `x` at level `d` heads, at height `h`, the chain that holds the
    /// single point `address` with summary `summary`.
    pub open spec fn is_single(
        &self,
        d: int,
        h: nat,
        x: int,
        address: Seq<usize>,
        summary: Summary,
    ) -> bool
        decreases self.ndims() - d, h,
    {
        if d < 0 || d > self.ndims() {
            false
        } else if d == self.ndims() {
            self.summaries.live(x) && self.summaries.values@[x] == summary
        } else {
            let n = self.node(d, x);
            &&& self.dims@[d].nodes.live(x)
            &&& n.next is Some
            &&& self.is_single(d + 1, self.width(d + 1), n.next.unwrap() as int, address, summary)
            &&& if h == 0 {
                n.left is None && n.right is None
            } else if bit_of(address[d] as int, (h - 1) as nat) {
                &&& n.left is None
                &&& n.right is Some
                &&& self.is_single(d, (h - 1) as nat, n.right.unwrap() as int, address, summary)
            } else {
                &&& n.right is None
                &&& n.left is Some
                &&& self.is_single(d, (h - 1) as nat, n.left.unwrap() as int, address, summary)
            }
        }
    }

    /// The answer of the chain of `address` from the top of level `d` on. It is
    /// the same for every chain of that point.
    pub open spec fn single_rest(
        &self,
        d: int,
        address: Seq<usize>,
        summary: Summary,
        q: Seq<(usize, usize)>,
    ) -> Summary {
        self.single_part(d, self.width(d), 0, address, summary, q)
    }

    /// The answer of the chain of `address` from height `h` of level `d` on,
    /// for a node whose range starts at `lo`.
    pub open spec fn single_part(
        &self,
        d: int,
        h: nat,
        lo: int,
        address: Seq<usize>,
        summary: Summary,
        q: Seq<(usize, usize)>,
    ) -> Summary
        decreases self.ndims() - d, h,
    {
        if d < 0 || d >= self.ndims() {
            summary
        } else if !range_overlaps(q[d], lo, lo + pow2(h)) {
            Summary::identity()
        } else if h == 0 || range_contains(q[d], lo, lo + pow2(h)) {
            self.single_part(d + 1, self.width(d + 1), 0, address, summary, q)
        } else if bit_of(address[d] as int, (h - 1) as nat) {
            Summary::identity().combine(
                self.single_part(
                    d,
                    (h - 1) as nat,
                    lo + pow2((h - 1) as nat),
                    address,
                    summary,
                    q,
                ),
            )
        } else {
            self.single_part(d, (h - 1) as nat, lo, address, summary, q).combine(
                Summary::identity(),
            )
        }
    }

    /// The answer of a single point's chain depends on the point and the
    /// query only, not on the slots that hold the chain.
    pub proof fn lemma_single_rest(
        &self,
        d: int,
        h: nat,
        p: NodePointerType,
        address: Seq<usize>,
        summary: Summary,
        q: Seq<(usize, usize)>,
    )
        requires
            0 <= d <= self.ndims(),
            p is Some,
            self.is_single(d, h, p.unwrap() as int, address, summary),
        ensures
            forall|lo: int| #[trigger]
                self.sub_answer(d, h, p, lo, q) == self.single_part(d, h, lo, address, summary, q),
            d < self.ndims() ==> self.total(d, p, q) == self.single_rest(
                d + 1,
                address,
                summary,
                q,
            ),
        decreases self.ndims() - d, h,
    {
        if d < self.ndims() {
            let n = self.node(d, p.unwrap() as int);
            self.lemma_single_rest(d + 1, self.width(d + 1), n.next, address, summary, q);
            assert(self.total(d, p, q) == self.single_rest(d + 1, address, summary, q));
            if h > 0 {
                let hh = (h - 1) as nat;
                if bit_of(address[d] as int, hh) {
                    self.lemma_single_rest(d, hh, n.right, address, summary, q);
                } else {
                    self.lemma_single_rest(d, hh, n.left, address, summary, q);
                }
            }
            assert forall|lo: int| #[trigger]
                self.sub_answer(d, h, p, lo, q) == self.single_part(
                    d,
                    h,
                    lo,
                    address,
                    summary,
                    q,
                ) by {
                if h > 0 {
                    let hh = (h - 1) as nat;
                    let mid = lo + pow2(hh);
                    if bit_of(address[d] as int, hh) {
                        assert(self.sub_answer(d, hh, n.left, lo, q) == Summary::identity());
                        assert(self.sub_answer(d, hh, n.right, mid, q) == self.single_part(
                            d,
                            hh,
                            mid,
                            address,
                            summary,
                            q,
                        ));
                    } else {
                        assert(self.sub_answer(d, hh, n.right, mid, q) == Summary::identity());
                        assert(self.sub_answer(d, hh, n.left, lo, q) == self.single_part(
                            d,
                            hh,
                            lo,
                            address,
                            summary,
                            q,
                        ));
                    }
                }
            }
        }
    }

    /// What the chain of a point answers: the point's summary if the point
    /// lies inside the query, the identity otherwise.
    pub proof fn lemma_single_value(
        &self,
        d: int,
        h: nat,
        address: Seq<usize>,
        summary: Summary,
        q: Seq<(usize, usize)>,
    )
        requires
            self.valid_address(address),
            q.len() == self.ndims(),
            0 <= d <= self.ndims(),
        ensures
            d < self.ndims() ==> self.single_part(
                d,
                h,
                block_start(address[d] as int, h),
                address,
                summary,
                q,
            ) == single_from(summary, address, q, d),
            d == self.ndims() ==> self.single_part(d, h, 0, address, summary, q) == single_from(
                summary,
                address,
                q,
                d,
            ),
        decreases self.ndims() - d, h,
    {
        if d < self.ndims() {
            let a = address[d] as int;
            let lo = block_start(a, h);
            let w1 = self.width(d + 1);
            lemma_block_bounds(a, h);
            self.lemma_single_value(d + 1, w1, address, summary, q);
            if d + 1 < self.ndims() {
                lemma_block_whole(address[d + 1] as int, w1);
            }
            assert(self.single_part(d + 1, w1, 0, address, summary, q) == single_from(
                summary,
                address,
                q,
                d + 1,
            ));
            assert(inside_from(address, q, d) <==> (q[d].0 <= a < q[d].1 && inside_from(
                address,
                q,
                d + 1,
            ))) by {
                if q[d].0 <= a < q[d].1 && inside_from(address, q, d + 1) {
                    assert forall|k: int|
                        d <= k < address.len() && k < q.len() implies q[k].0 <= #[trigger] address[k]
                        < q[k].1 by {
                        if k > d {
                        }
                    }
                }
                if inside_from(address, q, d) {
                    assert(q[d].0 <= address[d] < q[d].1);
                }
            }
            if h == 0 {
                assert(pow2(0) == 1) by {
                    vstd::arithmetic::power2::lemma2_to64();
                }
            } else {
                let hh = (h - 1) as nat;
                lemma_block_step(a, h);
                lemma_block_bounds(a, hh);
                lemma_pow2_unfold(h);
                self.lemma_single_value(d, hh, address, summary, q);
                Summary::lemma_identity(single_from(summary, address, q, d));
                lemma_identity_right(single_from(summary, address, q, d));
            }
        } else {
            assert(inside_from(address, q, d));
        }
    }

    /// From the top of a level, the chain of a point answers with the point's
    /// summary if the point lies inside the query from that level on.
    pub proof fn lemma_single_rest_value(
        &self,
        d: int,
        address: Seq<usize>,
        summary: Summary,
        q: Seq<(usize, usize)>,
    )
        requires
            self.valid_address(address),
            q.len() == self.ndims(),
            0 <= d <= self.ndims(),
        ensures
            self.single_rest(d, address, summary, q) == single_from(summary, address, q, d),
    {
        self.lemma_single_value(d, self.width(d), address, summary, q);
        if d < self.ndims() {
            lemma_block_whole(address[d] as int, self.width(d));
        }
    }

    /// The chain of a single point is a well-formed part of the cube.
    pub proof fn lemma_single_wf(
        &self,
        d: int,
        h: nat,
        p: NodePointerType,
        address: Seq<usize>,
        summary: Summary,
    )
        requires
            p is Some,
            self.is_single(d, h, p.unwrap() as int, address, summary),
        ensures
            self.wf_ptr(d, h, p),
        decreases self.ndims() - d, h,
    {
        if d < self.ndims() {
            let x = p.unwrap() as int;
            let n = self.node(d, x);
            let w1 = self.width(d + 1);
            self.lemma_single_wf(d + 1, w1, n.next, address, summary);
            if h > 0 {
                let hh = (h - 1) as nat;
                let c = if bit_of(address[d] as int, hh) {
                    n.right
                } else {
                    n.left
                };
                self.lemma_single_wf(d, hh, c, address, summary);
                assert forall|q: Seq<(usize, usize)>| #[trigger]
                    self.total_at(d, x, q) == self.total(d, n.left, q).combine(
                        self.total(d, n.right, q),
                    ) by {
                    self.lemma_single_rest(d, h, p, address, summary, q);
                    self.lemma_single_rest(d, hh, c, address, summary, q);
                    Summary::lemma_identity(self.total_at(d, x, q));
                    lemma_identity_right(self.total_at(d, x, q));
                }
            }
        }
    }

    /// The chain of a single point is the chain of that point in every later
    /// state.
    pub proof fn lemma_single_extends(
        &self,
        before: &Self,
        d: int,
        h: nat,
        x: int,
        address: Seq<usize>,
        summary: Summary,
    )
        requires
            self.extends(before),
            before.is_single(d, h, x, address, summary),
        ensures
            self.is_single(d, h, x, address, summary),
        decreases before.ndims() - d, h,
    {
        if d == before.ndims() {
            assert(before.summaries.live(x));
        } else {
            let n = before.node(d, x);
            assert(before.slot_live(d, x));
            assert(self.slot_live(d, x));
            if d + 1 < before.ndims() {
                assert(self.dims@[d + 1].width == before.dims@[d + 1].width);
            }
            self.lemma_single_extends(
                before,
                d + 1,
                before.width(d + 1),
                n.next.unwrap() as int,
                address,
                summary,
            );
            if h > 0 {
                let hh = (h - 1) as nat;
                if bit_of(address[d] as int, hh) {
                    self.lemma_single_extends(
                        before,
                        d,
                        hh,
                        n.right.unwrap() as int,
                        address,
                        summary,
                    );
                } else {
                    self.lemma_single_extends(
                        before,
                        d,
                        hh,
                        n.left.unwrap() as int,
                        address,
                        summary,
                    );
                }
            }
        }
    }
}

} // verus!
