//! The structural merge of two parts of a cube into a new part that answers
//! every query with the combination of their answers.

use crate::cube::{
    lemma_identity_right, lemma_interchange, range_contains, range_overlaps, Monoid,
};
use crate::refs::links_to;
use crate::nanocube::{Nanocube, NodePointerType};
use vstd::arithmetic::power2::pow2;
use vstd::prelude::*;

verus! {

impl<Summary: Monoid> Nanocube<Summary> {
    /// `r` stands for the union of `a` and `b`, three pointers at level `d`
    /// and height `h`: it is null only if both are, it is well-formed, and
    /// its answers and its aggregate are the combinations of theirs.
    pub open spec fn is_merge_of(
        &self,
        d: int,
        h: nat,
        r: NodePointerType,
        a: NodePointerType,
        b: NodePointerType,
    ) -> bool {
        &&& r is None <==> a is None && b is None
        &&& self.wf_ptr(d, h, r)
        &&& forall|lo: int, q: Seq<(usize, usize)>| #[trigger]
            self.sub_answer(d, h, r, lo, q) == self.sub_answer(d, h, a, lo, q).combine(
                self.sub_answer(d, h, b, lo, q),
            )
        &&& 0 <= d < self.ndims() ==> forall|q: Seq<(usize, usize)>| #[trigger]
            self.total(d, r, q) == self.total(d, a, q).combine(self.total(d, b, q))
    }

    /// A merge stays a merge in every later state.
    pub proof fn lemma_is_merge_of_extends(
        &self,
        before: &Self,
        d: int,
        h: nat,
        r: NodePointerType,
        a: NodePointerType,
        b: NodePointerType,
    )
        requires
            self.extends(before),
            before.wf_ptr(d, h, a),
            before.wf_ptr(d, h, b),
            before.is_merge_of(d, h, r, a, b),
        ensures
            self.is_merge_of(d, h, r, a, b),
            self.wf_ptr(d, h, a),
            self.wf_ptr(d, h, b),
    {
        self.lemma_extends_ptr(before, d, h, r);
        self.lemma_extends_ptr(before, d, h, a);
        self.lemma_extends_ptr(before, d, h, b);
        assert forall|lo: int, q: Seq<(usize, usize)>| #[trigger]
            self.sub_answer(d, h, r, lo, q) == self.sub_answer(d, h, a, lo, q).combine(
                self.sub_answer(d, h, b, lo, q),
            ) by {
            assert(before.sub_answer(d, h, r, lo, q) == before.sub_answer(d, h, a, lo, q).combine(
                before.sub_answer(d, h, b, lo, q),
            ));
        }
        if 0 <= d < self.ndims() {
            assert forall|q: Seq<(usize, usize)>| #[trigger]
                self.total(d, r, q) == self.total(d, a, q).combine(self.total(d, b, q)) by {
                assert(before.total(d, r, q) == before.total(d, a, q).combine(
                    before.total(d, b, q),
                ));
            }
        }
    }

    /// The union of nothing and `b` is `b`.
    pub proof fn lemma_merge_with_null(&self, d: int, h: nat, b: NodePointerType)
        requires
            self.wf_ptr(d, h, b),
        ensures
            self.is_merge_of(d, h, b, None, b),
            self.is_merge_of(d, h, b, b, None),
    {
        assert forall|lo: int, q: Seq<(usize, usize)>| #[trigger]
            self.sub_answer(d, h, b, lo, q) == self.sub_answer(d, h, None, lo, q).combine(
                self.sub_answer(d, h, b, lo, q),
            ) && self.sub_answer(d, h, b, lo, q) == self.sub_answer(d, h, b, lo, q).combine(
                self.sub_answer(d, h, None, lo, q),
            ) by {
            Summary::lemma_identity(self.sub_answer(d, h, b, lo, q));
            lemma_identity_right(self.sub_answer(d, h, b, lo, q));
        }
        assert forall|q: Seq<(usize, usize)>| #[trigger]
            self.total(d, b, q) == self.total(d, None, q).combine(self.total(d, b, q))
            && self.total(d, b, q) == self.total(d, b, q).combine(self.total(d, None, q)) by {
            Summary::lemma_identity(self.total(d, b, q));
            lemma_identity_right(self.total(d, b, q));
        }
    }

    /// A node built over the merged children of two nodes, with the merged
    /// aggregate as its `next`, is the merge of the two nodes.
    pub proof fn lemma_merged_node(
        &self,
        d: int,
        h: nat,
        x: int,
        a: int,
        b: int,
    )
        requires
            0 <= d < self.ndims(),
            0 <= x <= usize::MAX,
            0 <= a <= usize::MAX,
            0 <= b <= usize::MAX,
            self.wf_node(d, h, a),
            self.wf_node(d, h, b),
            self.slot_live(d, x),
            h > 0 ==> self.is_merge_of(
                d,
                (h - 1) as nat,
                self.node(d, x).left,
                self.node(d, a).left,
                self.node(d, b).left,
            ),
            h > 0 ==> self.is_merge_of(
                d,
                (h - 1) as nat,
                self.node(d, x).right,
                self.node(d, a).right,
                self.node(d, b).right,
            ),
            h == 0 ==> self.node(d, x).left is None && self.node(d, x).right is None,
            h == 0 ==> self.is_merge_of(
                d + 1,
                self.width(d + 1),
                self.node(d, x).next,
                self.node(d, a).next,
                self.node(d, b).next,
            ),
            h > 0 ==> self.node(d, x).next is Some,
            h > 0 ==> self.wf_ptr(d + 1, self.width(d + 1), self.node(d, x).next),
            h > 0 ==> forall|q: Seq<(usize, usize)>| #[trigger]
                self.total_at(d, x, q) == self.total(d, self.node(d, x).left, q).combine(
                    self.total(d, self.node(d, x).right, q),
                ),
        ensures
            self.is_merge_of(d, h, Some(x as usize), Some(a as usize), Some(b as usize)),
    {
        let nx = self.node(d, x);
        let na = self.node(d, a);
        let nb = self.node(d, b);
        let px = Some(x as usize);
        let pa = Some(a as usize);
        let pb = Some(b as usize);
        assert(self.wf_node(d, h, x));
        assert forall|q: Seq<(usize, usize)>| #[trigger]
            self.total(d, px, q) == self.total(d, pa, q).combine(self.total(d, pb, q)) by {
            if h > 0 {
                let hh = (h - 1) as nat;
                assert(self.total_at(d, a, q) == self.total(d, na.left, q).combine(
                    self.total(d, na.right, q),
                ));
                assert(self.total_at(d, b, q) == self.total(d, nb.left, q).combine(
                    self.total(d, nb.right, q),
                ));
                assert(self.total(d, nx.left, q) == self.total(d, na.left, q).combine(
                    self.total(d, nb.left, q),
                ));
                assert(self.total(d, nx.right, q) == self.total(d, na.right, q).combine(
                    self.total(d, nb.right, q),
                ));
                lemma_interchange(
                    self.total(d, na.left, q),
                    self.total(d, nb.left, q),
                    self.total(d, na.right, q),
                    self.total(d, nb.right, q),
                );
            } else {
                assert(self.sub_answer(d + 1, self.width(d + 1), nx.next, 0, q)
                    == self.sub_answer(d + 1, self.width(d + 1), na.next, 0, q).combine(
                    self.sub_answer(d + 1, self.width(d + 1), nb.next, 0, q),
                ));
            }
        }
        assert forall|lo: int, q: Seq<(usize, usize)>| #[trigger]
            self.sub_answer(d, h, px, lo, q) == self.sub_answer(d, h, pa, lo, q).combine(
                self.sub_answer(d, h, pb, lo, q),
            ) by {
            let up = lo + pow2(h);
            if !range_overlaps(q[d], lo, up) {
                Summary::lemma_identity(Summary::identity());
            } else if h == 0 || range_contains(q[d], lo, up) {
                assert(self.total(d, px, q) == self.total(d, pa, q).combine(
                    self.total(d, pb, q),
                ));
            } else {
                let hh = (h - 1) as nat;
                let mid = lo + pow2(hh);
                assert(self.sub_answer(d, hh, nx.left, lo, q) == self.sub_answer(
                    d,
                    hh,
                    na.left,
                    lo,
                    q,
                ).combine(self.sub_answer(d, hh, nb.left, lo, q)));
                assert(self.sub_answer(d, hh, nx.right, mid, q) == self.sub_answer(
                    d,
                    hh,
                    na.right,
                    mid,
                    q,
                ).combine(self.sub_answer(d, hh, nb.right, mid, q)));
                lemma_interchange(
                    self.sub_answer(d, hh, na.left, lo, q),
                    self.sub_answer(d, hh, nb.left, lo, q),
                    self.sub_answer(d, hh, na.right, mid, q),
                    self.sub_answer(d, hh, nb.right, mid, q),
                );
            }
        }
    }

    /// `r` is what the merge of `a` and `b`, three pointers at level `d` and
    /// height `h`, builds: the other pointer if `a` or `b` is null; at the
    /// summary level, a slot with the two summaries combined; else a node over
    /// the merged children of the two nodes. The `next` of that node is the
    /// merge of the two nodes' own `next` where they are leaves, the `next` of
    /// its only child where it has one child, and the merge of what its two
    /// children lead to where it has two.
    pub open spec fn merge_shape(
        &self,
        d: int,
        h: nat,
        r: NodePointerType,
        a: NodePointerType,
        b: NodePointerType,
    ) -> bool
        decreases self.ndims() - d, h,
    {
        if a is None {
            r == b
        } else if b is None {
            r == a
        } else if r is None || d < 0 || d > self.ndims() {
            false
        } else if d == self.ndims() {
            &&& self.summaries.live(r.unwrap() as int)
            &&& self.summaries.live(a.unwrap() as int)
            &&& self.summaries.live(b.unwrap() as int)
            &&& self.summaries.values@[r.unwrap() as int]
                == self.summaries.values@[a.unwrap() as int].combine(
                self.summaries.values@[b.unwrap() as int],
            )
        } else {
            let nr = self.node(d, r.unwrap() as int);
            let na = self.node(d, a.unwrap() as int);
            let nb = self.node(d, b.unwrap() as int);
            let w1 = self.width(d + 1);
            &&& self.wf_ptr(d, h, r)
            &&& self.wf_ptr(d, h, a)
            &&& self.wf_ptr(d, h, b)
            &&& if h == 0 {
                self.merge_shape(d + 1, w1, nr.next, na.next, nb.next)
            } else {
                &&& self.merge_shape(d, (h - 1) as nat, nr.left, na.left, nb.left)
                &&& self.merge_shape(d, (h - 1) as nat, nr.right, na.right, nb.right)
                &&& if nr.left is None {
                    nr.right is Some && nr.next == self.node(d, nr.right.unwrap() as int).next
                } else if nr.right is None {
                    nr.next == self.node(d, nr.left.unwrap() as int).next
                } else {
                    self.merge_shape(
                        d + 1,
                        w1,
                        nr.next,
                        self.node(d, nr.left.unwrap() as int).next,
                        self.node(d, nr.right.unwrap() as int).next,
                    )
                }
            }
        }
    }

    /// What a merge built is what it built in every later state.
    pub proof fn lemma_merge_shape_extends(
        &self,
        before: &Self,
        d: int,
        h: nat,
        r: NodePointerType,
        a: NodePointerType,
        b: NodePointerType,
    )
        requires
            self.extends(before),
            before.merge_shape(d, h, r, a, b),
        ensures
            self.merge_shape(d, h, r, a, b),
        decreases before.ndims() - d, h,
    {
        if a is Some && b is Some {
            let x = r.unwrap() as int;
            if d == before.ndims() {
            } else {
                let nr = before.node(d, x);
                let na = before.node(d, a.unwrap() as int);
                let nb = before.node(d, b.unwrap() as int);
                let w1 = before.width(d + 1);
                assert(self.width(d + 1) == w1) by {
                    if d + 1 < before.ndims() {
                        assert(self.dims@[d + 1].width == before.dims@[d + 1].width);
                    }
                }
                self.lemma_extends_wf(before, d, h, x);
                self.lemma_extends_wf(before, d, h, a.unwrap() as int);
                self.lemma_extends_wf(before, d, h, b.unwrap() as int);
                assert(before.slot_live(d, x));
                assert(before.slot_live(d, a.unwrap() as int));
                assert(before.slot_live(d, b.unwrap() as int));
                if h == 0 {
                    self.lemma_merge_shape_extends(before, d + 1, w1, nr.next, na.next, nb.next);
                } else {
                    let hh = (h - 1) as nat;
                    self.lemma_merge_shape_extends(before, d, hh, nr.left, na.left, nb.left);
                    self.lemma_merge_shape_extends(before, d, hh, nr.right, na.right, nb.right);
                    if nr.left is Some {
                        assert(before.wf_node(d, hh, nr.left.unwrap() as int));
                        assert(before.slot_live(d, nr.left.unwrap() as int));
                    }
                    if nr.right is Some {
                        assert(before.wf_node(d, hh, nr.right.unwrap() as int));
                        assert(before.slot_live(d, nr.right.unwrap() as int));
                    }
                    if nr.left is Some && nr.right is Some {
                        self.lemma_merge_shape_extends(
                            before,
                            d + 1,
                            w1,
                            nr.next,
                            before.node(d, nr.left.unwrap() as int).next,
                            before.node(d, nr.right.unwrap() as int).next,
                        );
                    }
                }
            }
        }
    }

    /// A node is well-formed at one height only.
    pub proof fn lemma_height_unique(&self, d: int, h1: nat, h2: nat, x: int)
        requires
            0 <= d < self.ndims(),
            self.wf_node(d, h1, x),
            self.wf_node(d, h2, x),
        ensures
            h1 == h2,
        decreases h1,
    {
        let n = self.node(d, x);
        if h1 > 0 && h2 > 0 {
            if n.left is Some {
                self.lemma_height_unique(
                    d,
                    (h1 - 1) as nat,
                    (h2 - 1) as nat,
                    n.left.unwrap() as int,
                );
            } else {
                self.lemma_height_unique(
                    d,
                    (h1 - 1) as nat,
                    (h2 - 1) as nat,
                    n.right.unwrap() as int,
                );
            }
        }
    }
}

impl<Summary: Monoid + PartialOrd + Copy> Nanocube<Summary> {
    /// Merges the parts of the cube under `node_1` and `node_2`, two pointers
    /// at level `dim` and of one height, and returns a pointer to the result.
    ///
    /// If either is null the other is returned as it is. Otherwise the result
    /// is a new slot with count zero, a node without a mark or, at the level of
    /// the summaries, a summary; the two operands are shared, not changed.
    /// Merging two summaries leaves the node pools as they are.
    pub fn merge(&mut self, node_1: NodePointerType, node_2: NodePointerType, dim: usize) -> (r:
        NodePointerType)
        requires
            old(self).inv(),
            dim <= old(self).dims@.len(),
            exists|h: nat|
                old(self).wf_ptr(dim as int, h, node_1) && old(self).wf_ptr(dim as int, h, node_2),
        ensures
            final(self).inv(),
            final(self).extends(old(self)),
            final(self).base_root == old(self).base_root,
            final(self).release_list@ == old(self).release_list@,
            forall|h: nat|
                old(self).wf_ptr(dim as int, h, node_1) && old(self).wf_ptr(dim as int, h, node_2)
                    ==> final(self).is_merge_of(dim as int, h, r, node_1, node_2)
                    && final(self).merge_shape(dim as int, h, r, node_1, node_2),
            forall|d: int, i: int| #[trigger] old(self).held(d, i) ==> final(self).held(d, i),
            node_1 is Some && node_2 is Some ==> !old(self).slot_live(dim as int, r.unwrap() as int),
            node_1 is None ==> r == node_2 && *final(self) == *old(self),
            node_2 is None && node_1 is Some ==> r == node_1 && *final(self) == *old(self),
            final(self).tallied_from(old(self)),
            old(self).ranked() ==> final(self).ranked(),
            forall|d: int, i: int| #[trigger]
                final(self).loose(d, i) ==> old(self).loose(d, i) || (d == dim && r is Some && r.unwrap()
                    == i && node_1 is Some && node_2 is Some),
            node_1 is Some && node_2 is Some ==> final(self).loose(dim as int, r.unwrap() as int),
            node_1 is Some && node_2 is Some && dim < old(self).dims@.len() ==> final(self).node(
                dim as int,
                r.unwrap() as int,
            ).flags == 0,
            dim == old(self).dims@.len() ==> final(self).dims@ == old(self).dims@,
            final(self).keeps_marks(old(self)),
            old(self).unmarked() ==> final(self).unmarked(),
    {
        let ghost h0 = choose|h: nat|
            old(self).wf_ptr(dim as int, h, node_1) && old(self).wf_ptr(dim as int, h, node_2);
        let r = self.merge_at(node_1, node_2, dim, Ghost(h0));
        proof {
            let d = dim as int;
            assert forall|h: nat|
                old(self).wf_ptr(d, h, node_1) && old(self).wf_ptr(
                    d,
                    h,
                    node_2,
                ) implies self.is_merge_of(d, h, r, node_1, node_2) && self.merge_shape(
                    d,
                    h,
                    r,
                    node_1,
                    node_2,
                ) by {
                if d < old(self).ndims() {
                    if node_1 is Some {
                        old(self).lemma_height_unique(d, h, h0, node_1.unwrap() as int);
                    } else if node_2 is Some {
                        old(self).lemma_height_unique(d, h, h0, node_2.unwrap() as int);
                    } else {
                        self.lemma_merge_with_null(d, h, None);
                    }
                } else {
                    assert forall|lo: int, q: Seq<(usize, usize)>| #[trigger]
                        self.sub_answer(d, h, r, lo, q) == self.sub_answer(
                            d,
                            h,
                            node_1,
                            lo,
                            q,
                        ).combine(self.sub_answer(d, h, node_2, lo, q)) by {
                        assert(self.sub_answer(d, h0, r, lo, q) == self.sub_answer(
                            d,
                            h0,
                            node_1,
                            lo,
                            q,
                        ).combine(self.sub_answer(d, h0, node_2, lo, q)));
                    }
                }
            }
        }
        r
    }

    /// The merge proper, with the common height of its operands.
    pub(crate) fn merge_at(
        &mut self,
        node_1: NodePointerType,
        node_2: NodePointerType,
        dim: usize,
        Ghost(h): Ghost<nat>,
    ) -> (r: NodePointerType)
        requires
            old(self).inv(),
            dim <= old(self).dims@.len(),
            old(self).wf_ptr(dim as int, h, node_1),
            old(self).wf_ptr(dim as int, h, node_2),
        ensures
            final(self).inv(),
            final(self).extends(old(self)),
            final(self).base_root == old(self).base_root,
            final(self).release_list@ == old(self).release_list@,
            final(self).is_merge_of(dim as int, h, r, node_1, node_2),
            final(self).merge_shape(dim as int, h, r, node_1, node_2),
            final(self).wf_ptr(dim as int, h, node_1),
            final(self).wf_ptr(dim as int, h, node_2),
            forall|d: int, i: int| #[trigger] old(self).held(d, i) ==> final(self).held(d, i),
            node_1 is Some && node_2 is Some ==> !old(self).slot_live(dim as int, r.unwrap() as int),
            node_1 is None ==> r == node_2 && *final(self) == *old(self),
            node_2 is None && node_1 is Some ==> r == node_1 && *final(self) == *old(self),
            final(self).tallied_from(old(self)),
            old(self).ranked() ==> final(self).ranked(),
            forall|d: int, i: int| #[trigger]
                final(self).loose(d, i) ==> old(self).loose(d, i) || (d == dim && r is Some && r.unwrap()
                    == i && node_1 is Some && node_2 is Some),
            node_1 is Some && node_2 is Some ==> final(self).loose(dim as int, r.unwrap() as int),
            node_1 is Some && node_2 is Some && dim < old(self).dims@.len() ==> final(self).node(
                dim as int,
                r.unwrap() as int,
            ).flags == 0,
            dim == old(self).dims@.len() ==> final(self).dims@ == old(self).dims@,
            final(self).keeps_marks(old(self)),
            old(self).unmarked() ==> final(self).unmarked(),
        decreases old(self).dims@.len() - dim, h,
    {
        let ghost d = dim as int;
        let ghost s0 = *self;
        proof {
            self.lemma_extends_refl();
        }
        if node_1.is_none() {
            proof {
                self.lemma_merge_with_null(d, h, node_2);
            }
            return node_2;
        }
        if node_2.is_none() {
            proof {
                self.lemma_merge_with_null(d, h, node_1);
            }
            return node_1;
        }
        let ghost a = node_1.unwrap() as int;
        let ghost b = node_2.unwrap() as int;
        if dim == self.dims.len() {
            let new_summary = {
                let node_1_summary = &self.summaries.values[node_1.unwrap()];
                let node_2_summary = &self.summaries.values[node_2.unwrap()];
                node_1_summary.mapply(node_2_summary)
            };
            let new_summary_index = self.new_summary(new_summary);
            proof {
                self.lemma_extends_ptr(&s0, d, h, node_1);
                self.lemma_extends_ptr(&s0, d, h, node_2);
                assert(self.summaries.values@[a] == s0.summaries.values@[a]);
                assert(self.summaries.values@[b] == s0.summaries.values@[b]);
                assert(self.summaries.values.len() == self.summaries.values@.len());
                if s0.unmarked() {
                    self.lemma_tallied_unmarked(&s0);
                }
            }
            return Some(new_summary_index);
        }
        let node_1_node = self.get_node(dim, node_1);
        let node_2_node = self.get_node(dim, node_2);
        let ghost hh = (h - 1) as nat;
        let ghost w1 = self.width(d + 1);
        let left_merge = if node_1_node.left.is_none() {
            node_2_node.left
        } else if node_2_node.left.is_none() {
            node_1_node.left
        } else {
            self.merge_at(node_1_node.left, node_2_node.left, dim, Ghost(hh))
        };
        let ghost s1 = *self;
        proof {
            if node_1_node.left is Some && node_2_node.left is Some {
            } else {
                s0.lemma_merge_with_null(d, hh, node_1_node.left);
                s0.lemma_merge_with_null(d, hh, node_2_node.left);
            }
            assert(s1.is_merge_of(d, hh, left_merge, node_1_node.left, node_2_node.left));
            s1.lemma_extends_ptr(&s0, d, h, node_1);
            s1.lemma_extends_ptr(&s0, d, h, node_2);
            assert(s1.slot_live(d, a) && s1.slot_live(d, b));
            assert(s0.slot_live(d, a) && s0.slot_live(d, b));
        }
        let right_merge = if node_1_node.right.is_none() {
            node_2_node.right
        } else if node_2_node.right.is_none() {
            node_1_node.right
        } else {
            self.merge_at(node_1_node.right, node_2_node.right, dim, Ghost(hh))
        };
        let ghost s2 = *self;
        proof {
            if node_1_node.right is Some && node_2_node.right is Some {
            } else {
                s1.lemma_merge_with_null(d, hh, node_1_node.right);
                s1.lemma_merge_with_null(d, hh, node_2_node.right);
            }
            assert(s2.is_merge_of(d, hh, right_merge, node_1_node.right, node_2_node.right));
            if h > 0 {
                s2.lemma_is_merge_of_extends(
                    &s1,
                    d,
                    hh,
                    left_merge,
                    node_1_node.left,
                    node_2_node.left,
                );
            }
            s2.lemma_extends_ptr(&s1, d, h, node_1);
            s2.lemma_extends_ptr(&s1, d, h, node_2);
            assert(s1.slot_live(d, a) && s1.slot_live(d, b));
            assert(s2.slot_live(d, a) && s2.slot_live(d, b));
            assert(dim < self.dims.len());
        }
        let next_merge = if left_merge.is_none() {
            if right_merge.is_none() {
                self.merge_at(node_1_node.next, node_2_node.next, dim + 1, Ghost(w1))
            } else {
                self.dims[dim].at(right_merge).next
            }
        } else {
            if right_merge.is_none() {
                self.dims[dim].at(left_merge).next
            } else {
                let node_1_merge_next_next = self.get_node(dim, left_merge).next;
                let node_2_merge_next_next = self.get_node(dim, right_merge).next;
                self.merge_at(node_1_merge_next_next, node_2_merge_next_next, dim + 1, Ghost(w1))
            }
        };
        let ghost s3 = *self;
        proof {
            s3.lemma_extends_ptr(&s2, d, h, node_1);
            s3.lemma_extends_ptr(&s2, d, h, node_2);
            assert(s3.slot_live(d, a) && s3.slot_live(d, b));
            if h > 0 {
                s3.lemma_is_merge_of_extends(
                    &s2,
                    d,
                    hh,
                    left_merge,
                    node_1_node.left,
                    node_2_node.left,
                );
                s3.lemma_is_merge_of_extends(
                    &s2,
                    d,
                    hh,
                    right_merge,
                    node_1_node.right,
                    node_2_node.right,
                );
            }
            if left_merge is Some {
                assert(s2.slot_live(d, left_merge.unwrap() as int));
                assert(s3.slot_live(d, left_merge.unwrap() as int));
            }
            if right_merge is Some {
                assert(s2.slot_live(d, right_merge.unwrap() as int));
                assert(s3.slot_live(d, right_merge.unwrap() as int));
            }
            assert(next_merge is Some);
            assert(s3.wf_ptr(d + 1, w1, next_merge));
            assert(s3.slot_live(d + 1, next_merge.unwrap() as int));
        }
        let new_index = self.new_node(dim, left_merge, right_merge, next_merge);
        proof {
            let x = new_index as int;
            self.lemma_extends_ptr(&s3, d, h, node_1);
            self.lemma_extends_ptr(&s3, d, h, node_2);
            self.lemma_extends_ptr(&s3, d + 1, w1, next_merge);
            assert(self.width(d + 1) == w1);
            if h > 0 {
                self.lemma_is_merge_of_extends(
                    &s3,
                    d,
                    hh,
                    left_merge,
                    node_1_node.left,
                    node_2_node.left,
                );
                self.lemma_is_merge_of_extends(
                    &s3,
                    d,
                    hh,
                    right_merge,
                    node_1_node.right,
                    node_2_node.right,
                );
                assert forall|q: Seq<(usize, usize)>| #[trigger]
                    self.total_at(d, x, q) == self.total(d, left_merge, q).combine(
                        self.total(d, right_merge, q),
                    ) by {
                    if left_merge is None {
                        Summary::lemma_identity(self.total(d, right_merge, q));
                        assert(self.node(d, right_merge.unwrap() as int).next == next_merge);
                    } else if right_merge is None {
                        lemma_identity_right(self.total(d, left_merge, q));
                        assert(self.node(d, left_merge.unwrap() as int).next == next_merge);
                    } else {
                        let ln = s2.node(d, left_merge.unwrap() as int).next;
                        let rn = s2.node(d, right_merge.unwrap() as int).next;
                        assert(s3.is_merge_of(d + 1, w1, next_merge, ln, rn));
                        self.lemma_is_merge_of_extends(&s3, d + 1, w1, next_merge, ln, rn);
                        assert(self.node(d, left_merge.unwrap() as int).next == ln);
                        assert(self.node(d, right_merge.unwrap() as int).next == rn);
                        assert(self.sub_answer(d + 1, w1, next_merge, 0, q) == self.sub_answer(
                            d + 1,
                            w1,
                            ln,
                            0,
                            q,
                        ).combine(self.sub_answer(d + 1, w1, rn, 0, q)));
                    }
                }
            } else {
                assert(s3.is_merge_of(d + 1, w1, next_merge, node_1_node.next, node_2_node.next));
                self.lemma_is_merge_of_extends(
                    &s3,
                    d + 1,
                    w1,
                    next_merge,
                    node_1_node.next,
                    node_2_node.next,
                );
            }
            assert(self.node(d, a).left == node_1_node.left);
            assert(self.node(d, a).right == node_1_node.right);
            assert(self.node(d, a).next == node_1_node.next);
            assert(self.node(d, b).left == node_2_node.left);
            assert(self.node(d, b).right == node_2_node.right);
            assert(self.node(d, b).next == node_2_node.next);
            self.lemma_merged_node(d, h, x, a, b);
            // what was built
            if h > 0 {
                if node_1_node.left is Some && node_2_node.left is Some {
                    self.lemma_merge_shape_extends(
                        &s1,
                        d,
                        hh,
                        left_merge,
                        node_1_node.left,
                        node_2_node.left,
                    );
                }
                if node_1_node.right is Some && node_2_node.right is Some {
                    self.lemma_merge_shape_extends(
                        &s2,
                        d,
                        hh,
                        right_merge,
                        node_1_node.right,
                        node_2_node.right,
                    );
                }
                if left_merge is Some && right_merge is Some {
                    self.lemma_merge_shape_extends(
                        &s3,
                        d + 1,
                        w1,
                        next_merge,
                        s2.node(d, left_merge.unwrap() as int).next,
                        s2.node(d, right_merge.unwrap() as int).next,
                    );
                    assert(self.node(d, left_merge.unwrap() as int).next == s2.node(
                        d,
                        left_merge.unwrap() as int,
                    ).next);
                    assert(self.node(d, right_merge.unwrap() as int).next == s2.node(
                        d,
                        right_merge.unwrap() as int,
                    ).next);
                }
            } else {
                self.lemma_merge_shape_extends(
                    &s3,
                    d + 1,
                    w1,
                    next_merge,
                    node_1_node.next,
                    node_2_node.next,
                );
            }
            let nr = self.node(d, x);
            assert(nr.left == left_merge && nr.right == right_merge && nr.next == next_merge);
            assert(self.wf_ptr(d, h, Some(new_index)));
            if h > 0 {
                assert(self.merge_shape(d, hh, nr.left, self.node(d, a).left, self.node(d, b).left));
                assert(self.merge_shape(
                    d,
                    hh,
                    nr.right,
                    self.node(d, a).right,
                    self.node(d, b).right,
                ));
                if left_merge is None {
                    assert(right_merge is Some);
                    assert(self.node(d, right_merge.unwrap() as int).next == next_merge);
                } else if right_merge is None {
                    assert(self.node(d, left_merge.unwrap() as int).next == next_merge);
                }
            } else {
                assert(self.merge_shape(
                    d + 1,
                    w1,
                    nr.next,
                    self.node(d, a).next,
                    self.node(d, b).next,
                ));
            }
            assert(self.merge_shape(d, h, Some(new_index), node_1, node_2));
            if s0.ranked() {
                s0.lemma_ranked_height(d, h, a);
                let fresh = Set::<(int, int)>::empty().insert((d, x));
                assert(self.width(d) == s0.width(d)) by {
                    assert(self.dims@[d].width == s0.dims@[d].width);
                }
                assert(self.wf_node(d, h, x));
                assert forall|dd: int, i: int|
                    0 <= dd < self.ndims() && #[trigger] fresh.contains((dd, i)) && self.slot_live(
                        dd,
                        i,
                    ) implies exists|hx: nat| hx <= self.width(dd) && self.wf_node(dd, hx, i) by {
                    assert(h <= self.width(d) && self.wf_node(d, h, x));
                }
                self.lemma_ranked_extended(&s3, fresh);
            }
            s1.lemma_tallied_refl();
            s2.lemma_tallied_refl();
            s3.lemma_tallied_refl();
            self.lemma_tallied_trans(&s3, &s2);
            self.lemma_tallied_trans(&s2, &s1);
            self.lemma_tallied_trans(&s1, &s0);
            assert forall|dd: int, i: int| #[trigger] s0.held(dd, i) implies self.held(dd, i) by {
                assert(s1.held(dd, i));
                assert(s2.held(dd, i));
                assert(s3.held(dd, i));
            }
            self.lemma_extends_trans(&s3, &s2);
            self.lemma_marks_trans(&s3, &s2);
            self.lemma_extends_trans(&s2, &s1);
            self.lemma_marks_trans(&s2, &s1);
            self.lemma_extends_trans(&s1, &s0);
            self.lemma_marks_trans(&s1, &s0);
            if s0.slot_live(d, x) {
                assert(s1.slot_live(d, x));
                assert(s2.slot_live(d, x));
                assert(s3.slot_live(d, x));
            }
            assert forall|dd: int, i: int| #[trigger] self.loose(dd, i) implies s0.loose(dd, i) || (
            dd == d && i == x) by {
                if !(dd == d && i == x) {
                    assert(s3.loose(dd, i));
                    assert(links_to(d, left_merge, right_merge, next_merge, dd, i) == 0);
                    if !s2.loose(dd, i) {
                        assert(dd == d + 1 && next_merge is Some && next_merge.unwrap() == i);
                    } else if !s1.loose(dd, i) {
                        assert(dd == d && right_merge is Some && right_merge.unwrap() == i);
                    } else if !s0.loose(dd, i) {
                        assert(dd == d && left_merge is Some && left_merge.unwrap() == i);
                    }
                }
            }
            assert(self.pool_len(d) <= usize::MAX) by {
                assert(self.dims@[d].nodes.values.len() == self.dims@[d].nodes.values@.len());
            }
            if s0.unmarked() {
                self.lemma_tallied_unmarked(&s0);
            }
        }
        Some(new_index)
    }
}

} // verus!
