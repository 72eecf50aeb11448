//! The merge of one whole cube into another: the pools of the other cube are
//! appended, with every link moved along, and the two roots are merged.

use crate::cube::Monoid;
use crate::nanocube::{covers, same_links, NCDim, NCDimNode, Nanocube, NodePointerType, Referrer};
use crate::ref_counted_vec::RefCountedVec;
use vstd::prelude::*;

verus! {

/// The pointer `p` moved along by `offset` slots.
pub open spec fn shifted_ptr(p: NodePointerType, offset: int) -> NodePointerType {
    match p {
        Some(i) => Some(vstd::wrapping::usize_specs::wrapping_add(i, offset as usize)),
        None => None,
    }
}

/// The node `n` with its links moved along: `left` and `right` by `offset`,
/// `next` by `offset_next`.
pub open spec fn shifted_node(n: NCDimNode, offset: int, offset_next: int) -> NCDimNode {
    NCDimNode {
        left: shifted_ptr(n.left, offset),
        right: shifted_ptr(n.right, offset),
        next: shifted_ptr(n.next, offset_next),
        flags: n.flags,
    }
}

/// The pointer `p` moved along by `offset` slots.
pub fn shift_ptr(p: NodePointerType, offset: usize) -> (r: NodePointerType)
    ensures
        r == shifted_ptr(p, offset as int),
{
    match p {
        Some(i) => Some(i.wrapping_add(offset)),
        None => None,
    }
}

impl<Summary: Monoid> Nanocube<Summary> {
    /// Pool `d` of `self` is pool `d` of `before` with pool `d` of `other`
    /// appended, the links of the appended nodes moved along.
    pub open spec fn pool_appended(&self, before: &Self, other: &Self, d: int) -> bool {
        let off = before.pool_len(d) as int;
        let off1 = before.pool_len(d + 1) as int;
        let mine = self.dims@[d].nodes;
        let was = before.dims@[d].nodes;
        let its = other.dims@[d].nodes;
        &&& self.dims@[d].width == before.dims@[d].width
        &&& mine.wf()
        &&& mine.values@.len() == off + its.values@.len()
        &&& forall|i: int| 0 <= i < off ==> #[trigger] mine.values@[i] == was.values@[i]
        &&& forall|i: int|
            0 <= i < its.values@.len() ==> #[trigger] mine.values@[off + i] == shifted_node(
                its.values@[i],
                off,
                off1,
            )
        &&& mine.ref_counts@ == was.ref_counts@ + its.ref_counts@
        &&& mine.free_list@ == was.free_list@ + its.free_list@.map_values(
            |v: usize| (v + off) as usize,
        )
    }

    /// The summary pool of `self` is that of `before` with that of `other`
    /// appended.
    pub open spec fn summaries_appended(&self, before: &Self, other: &Self) -> bool {
        let off = before.summaries.values@.len() as int;
        &&& self.summaries.wf()
        &&& self.summaries.values@.len() == off + other.summaries.values@.len()
        &&& forall|i: int|
            0 <= i < off ==> #[trigger] self.summaries.values@[i] == before.summaries.values@[i]
        &&& forall|i: int|
            0 <= i < other.summaries.values@.len() ==> #[trigger] self.summaries.values@[off + i]
                == other.summaries.values@[i]
        &&& self.summaries.ref_counts@ == before.summaries.ref_counts@
            + other.summaries.ref_counts@
        &&& self.summaries.free_list@ == before.summaries.free_list@
            + other.summaries.free_list@.map_values(|v: usize| (v + off) as usize)
    }

    /// `self` is `before` with every pool of `other` appended to the pool of
    /// the same level. Root and release queue are those of `before`.
    pub open spec fn appended(&self, before: &Self, other: &Self) -> bool {
        &&& self.base_root == before.base_root
        &&& self.release_list@ == before.release_list@
        &&& self.dims@.len() == before.dims@.len()
        &&& self.dims@.len() == other.dims@.len()
        &&& self.summaries_appended(before, other)
        &&& forall|d: int| 0 <= d < self.dims@.len() ==> #[trigger] self.pool_appended(before, other, d)
    }
}

impl<Summary: Monoid> Nanocube<Summary> {
    /// Two cubes without marks, one appended to the other, have no marks.
    pub proof fn lemma_appended_unmarked(&self, before: &Self, other: &Self)
        requires
            self.appended(before, other),
            before.unmarked(),
            other.unmarked(),
        ensures
            self.unmarked(),
    {
        assert forall|d: int, i: int|
            0 <= d < self.ndims() && 0 <= i < self.pool_len(d) implies #[trigger] self.mark_at(d, i)
            == 0 by {
            assert(self.pool_appended(before, other, d));
            let off = before.pool_len(d) as int;
            if i < off {
                assert(self.dims@[d].nodes.values@[i] == before.dims@[d].nodes.values@[i]);
                assert(before.mark_at(d, i) == 0);
            } else {
                assert(self.dims@[d].nodes.values@[off + (i - off)] == shifted_node(
                    other.dims@[d].nodes.values@[i - off],
                    off,
                    before.pool_len(d + 1) as int,
                ));
                assert(other.mark_at(d, i - off) == 0);
            }
        }
    }

    /// The pointer `p` of level `d` of another cube, as it is after that
    /// cube's pools were appended to those of `self`.
    pub open spec fn moved(&self, d: int, p: NodePointerType) -> NodePointerType {
        match p {
            Some(i) => Some((i + self.pool_len(d)) as usize),
            None => None,
        }
    }

    /// After appending, a slot is live if it was live in the cube that it
    /// came from; the pools have the lengths of both together.
    pub proof fn lemma_appended_live(&self, before: &Self, other: &Self)
        requires
            before.shape_ok(),
            other.shape_ok(),
            self.appended(before, other),
        ensures
            forall|d: int|
                0 <= d <= self.ndims() ==> #[trigger] self.pool_len(d) == before.pool_len(d)
                    + other.pool_len(d),
            forall|d: int| 0 <= d <= self.ndims() ==> #[trigger] self.pool_len(d) <= usize::MAX,
            forall|d: int, i: int|
                0 <= d <= self.ndims() ==> #[trigger] self.slot_live(d, i) == if i
                    < before.pool_len(d) {
                    before.slot_live(d, i)
                } else {
                    other.slot_live(d, i - before.pool_len(d))
                },
    {
        assert forall|d: int| 0 <= d <= self.ndims() implies #[trigger] self.pool_len(d)
            == before.pool_len(d) + other.pool_len(d) && self.pool_len(d) <= usize::MAX by {
            if d < self.ndims() {
                assert(self.pool_appended(before, other, d));
                assert(self.dims@[d].nodes.values.len() == self.dims@[d].nodes.values@.len());
            } else {
                assert(self.summaries.values.len() == self.summaries.values@.len());
            }
        }
        assert forall|d: int, i: int| 0 <= d <= self.ndims() implies #[trigger] self.slot_live(d, i)
            == if i < before.pool_len(d) {
            before.slot_live(d, i)
        } else {
            other.slot_live(d, i - before.pool_len(d))
        } by {
            if d < self.ndims() {
                assert(self.pool_appended(before, other, d));
                assert(before.dims@[d].nodes.wf());
                assert(other.dims@[d].nodes.wf());
                assert(self.dims@[d].nodes.values.len() == self.dims@[d].nodes.values@.len());
                lemma_live_appended(
                    self.dims@[d].nodes,
                    before.dims@[d].nodes,
                    other.dims@[d].nodes,
                    i,
                );
            } else {
                assert(self.summaries.values.len() == self.summaries.values@.len());
                lemma_live_appended(self.summaries, before.summaries, other.summaries, i);
            }
        }
    }

    /// After appending, the nodes that came from `other` have the links that
    /// they had, moved along; and what held of the shape of both cubes holds of
    /// the one that they make.
    pub proof fn lemma_appended_shape(&self, before: &Self, other: &Self)
        requires
            before.inv(),
            other.inv(),
            other.widths() == before.widths(),
            self.appended(before, other),
        ensures
            self.shape_ok(),
            self.closed(),
            self.pending_ok(),
            self.live_set().finite(),
            self.extends(before),
            self.widths() == before.widths(),
            forall|d: int, j: int|
                0 <= d < self.ndims() && #[trigger] other.slot_live(d, j) ==> {
                    let n = self.node(d, j + before.pool_len(d));
                    let m = other.node(d, j);
                    &&& n.left == before.moved(d, m.left)
                    &&& n.right == before.moved(d, m.right)
                    &&& n.next == before.moved(d + 1, m.next)
                },
            forall|i: int| #[trigger]
                other.summaries.live(i) ==> self.summaries.values@[i + before.pool_len(
                    before.ndims(),
                )] == other.summaries.values@[i],
    {
        self.lemma_appended_live(before, other);
        let nd = self.ndims();
        assert(self.widths() =~= before.widths()) by {
            assert forall|d: int| 0 <= d < nd implies self.dims@[d].width
                == before.dims@[d].width by {
                assert(self.pool_appended(before, other, d));
            }
        }
        assert(other.widths().len() == other.dims@.len());
        assert(before.widths().len() == before.dims@.len());
        assert forall|d: int| 0 <= d < nd implies other.dims@[d].width
            == before.dims@[d].width by {
            assert(other.widths()[d] == before.widths()[d]);
            assert(other.widths()[d] == other.dims@[d].width);
            assert(before.widths()[d] == before.dims@[d].width);
        }
        assert(self.shape_ok()) by {
            assert forall|d: int| 0 <= d < self.dims@.len() implies 1 <= (#[trigger] self.dims@[d]).width
                < usize::BITS by {
                assert(self.pool_appended(before, other, d));
                assert(1 <= before.dims@[d].width < usize::BITS);
            }
            assert forall|d: int| 0 <= d < self.dims@.len() implies (#[trigger] self.dims@[d]).nodes.wf() by {
                assert(self.pool_appended(before, other, d));
            }
        }
        assert forall|d: int, j: int| 0 <= d < nd && #[trigger] other.slot_live(d, j) implies {
            let n = self.node(d, j + before.pool_len(d));
            let m = other.node(d, j);
            &&& n.left == before.moved(d, m.left)
            &&& n.right == before.moved(d, m.right)
            &&& n.next == before.moved(d + 1, m.next)
        } by {
            let m = other.node(d, j);
            assert(self.pool_appended(before, other, d));
            assert(self.dims@[d].nodes.values@[before.pool_len(d) + j] == shifted_node(
                m,
                before.pool_len(d) as int,
                before.pool_len(d + 1) as int,
            ));
            assert(other.ptr_live(d, m.left));
            assert(other.ptr_live(d, m.right));
            assert(other.ptr_live(d + 1, m.next));
            assert(self.pool_len(d) == before.pool_len(d) + other.pool_len(d));
            assert(self.pool_len(d + 1) == before.pool_len(d + 1) + other.pool_len(d + 1));
            assert(self.pool_len(d) <= usize::MAX);
            assert(self.pool_len(d + 1) <= usize::MAX);
        }
        assert(self.extends(before)) by {
            assert forall|d: int, i: int|
                0 <= d < before.ndims() && #[trigger] before.slot_live(
                    d,
                    i,
                ) implies self.slot_live(d, i) && same_links(self.node(d, i), before.node(d, i)) by {
                assert(self.pool_appended(before, other, d));
                assert(self.slot_live(d, i) == before.slot_live(d, i));
            }
            assert forall|i: int| #[trigger] before.summaries.live(i) implies self.summaries.live(
                i,
            ) && self.summaries.values@[i] == before.summaries.values@[i] by {
                assert(before.slot_live(nd, i));
                assert(self.slot_live(nd, i) == before.slot_live(nd, i));
            }
            assert forall|d: int| 0 <= d < self.dims@.len() implies (#[trigger] self.dims@[d]).width
                == before.dims@[d].width by {
                assert(self.pool_appended(before, other, d));
            }
        }
        assert(self.closed()) by {
            assert forall|d: int, i: int| 0 <= d < nd && #[trigger] self.slot_live(d, i) implies {
                &&& self.ptr_live(d, self.node(d, i).left)
                &&& self.ptr_live(d, self.node(d, i).right)
                &&& self.ptr_live(d + 1, self.node(d, i).next)
            } by {
                let off = before.pool_len(d) as int;
                let off1 = before.pool_len(d + 1) as int;
                assert(self.pool_appended(before, other, d));
                if i < off {
                    assert(before.slot_live(d, i));
                    let n = before.node(d, i);
                    assert(self.node(d, i) == n);
                    if n.left is Some {
                        let t = n.left.unwrap() as int;
                        assert(before.slot_live(d, t));
                        assert(self.slot_live(d, t) == before.slot_live(d, t));
                    }
                    if n.right is Some {
                        let t = n.right.unwrap() as int;
                        assert(before.slot_live(d, t));
                        assert(self.slot_live(d, t) == before.slot_live(d, t));
                    }
                    if n.next is Some {
                        let t = n.next.unwrap() as int;
                        assert(before.slot_live(d + 1, t));
                        assert(self.slot_live(d + 1, t) == before.slot_live(d + 1, t));
                    }
                } else {
                    let j = i - off;
                    assert(other.slot_live(d, j));
                    let m = other.node(d, j);
                    let n = self.node(d, j + before.pool_len(d));
                    assert(n.left == before.moved(d, m.left));
                    assert(n.right == before.moved(d, m.right));
                    assert(n.next == before.moved(d + 1, m.next));
                    assert(other.ptr_live(d, m.left));
                    assert(other.ptr_live(d, m.right));
                    assert(other.ptr_live(d + 1, m.next));
                    assert(self.pool_len(d) == before.pool_len(d) + other.pool_len(d));
                    assert(self.pool_len(d + 1) == before.pool_len(d + 1) + other.pool_len(d + 1));
                    assert(self.pool_len(d) <= usize::MAX);
                    assert(self.pool_len(d + 1) <= usize::MAX);
                    if m.left is Some {
                        let t = m.left.unwrap() as int;
                        assert(other.slot_live(d, t));
                        assert(self.slot_live(d, t + off) == other.slot_live(d, t + off - off));
                    }
                    if m.right is Some {
                        let t = m.right.unwrap() as int;
                        assert(other.slot_live(d, t));
                        assert(self.slot_live(d, t + off) == other.slot_live(d, t + off - off));
                    }
                    if m.next is Some {
                        let t = m.next.unwrap() as int;
                        assert(other.slot_live(d + 1, t));
                        assert(self.slot_live(d + 1, t + off1) == other.slot_live(
                            d + 1,
                            t + off1 - off1,
                        ));
                    }
                }
            }
        }
        assert(self.pending_ok()) by {
            assert forall|k: int| 0 <= k < self.pending().len() implies {
                &&& (#[trigger] self.pending()[k]).0 is Some
                &&& self.pending()[k].1 <= self.ndims()
                &&& self.pending()[k].0.unwrap() < self.pool_len(self.pending()[k].1 as int)
            } by {
                assert(before.pending()[k].0 is Some);
                let lv = before.pending()[k].1 as int;
                assert(self.pool_len(lv) == before.pool_len(lv) + other.pool_len(lv));
            }
        }
        assert forall|i: int| #[trigger] other.summaries.live(i) implies self.summaries.values@[i
            + before.pool_len(before.ndims())] == other.summaries.values@[i] by {
            let off = before.summaries.values@.len() as int;
            assert(before.pool_len(before.ndims()) == off);
            assert(self.summaries.values@[off + i] == other.summaries.values@[i]);
        }
        // the live slots are those of both cubes
        let shift = |s: (int, int)| (s.0, s.1 + before.pool_len(s.0));
        let theirs = other.live_set().map(shift);
        other.live_set().lemma_map_finite(shift);
        assert(self.live_set() =~= before.live_set().union(theirs)) by {
            assert forall|s: (int, int)| self.live_set().contains(s) implies before.live_set().union(
                theirs,
            ).contains(s) by {
                if s.1 >= before.pool_len(s.0) {
                    let t = (s.0, s.1 - before.pool_len(s.0));
                    assert(other.live_set().contains(t) && s == shift(t));
                }
            }
            assert forall|s: (int, int)|
                before.live_set().union(theirs).contains(s) implies self.live_set().contains(s) by {
                if theirs.contains(s) {
                    let t = choose|t: (int, int)| other.live_set().contains(t) && s == shift(t);
                    assert(other.slot_live(t.0, t.1));
                    assert(self.slot_live(t.0, t.1 + before.pool_len(t.0)) == other.slot_live(
                        t.0,
                        t.1 + before.pool_len(t.0) - before.pool_len(t.0),
                    ));
                } else {
                    assert(before.slot_live(s.0, s.1));
                    assert(self.slot_live(s.0, s.1) == before.slot_live(s.0, s.1));
                }
            }
        }
    }

    /// The referrer `r` of another cube, as it is after that cube's pools were
    /// appended to those of `self`.
    pub open spec fn moved_referrer(&self, r: Referrer) -> Referrer {
        match r {
            Referrer::Left { dim, slot } => Referrer::Left { dim, slot: slot + self.pool_len(dim) },
            Referrer::Right { dim, slot } => Referrer::Right {
                dim,
                slot: slot + self.pool_len(dim),
            },
            Referrer::Next { dim, slot } => Referrer::Next { dim, slot: slot + self.pool_len(dim) },
            Referrer::Root => Referrer::Root,
            Referrer::Pending { pos } => Referrer::Pending { pos },
        }
    }

    /// After appending, a slot that came from `other` has as referrers the
    /// links that referred to it there, moved along. The root and the release
    /// queue of `other` are gone, so the count has a reference to spare for
    /// each of them.
    pub proof fn lemma_appended_referrers(&self, before: &Self, other: &Self, d: int, j: int)
        requires
            before.inv(),
            other.inv(),
            other.widths() == before.widths(),
            self.appended(before, other),
            0 <= d <= self.ndims(),
            0 <= j < other.pool_len(d),
        ensures
            self.referrers(d, j + before.pool_len(d)).finite(),
            self.referrers(d, j + before.pool_len(d)).len() <= other.referrers(d, j).len(),
            d == 0 && other.base_root is Some && other.base_root.unwrap() == j ==> self.referrers(
                d,
                j + before.pool_len(d),
            ).len() + 1 <= other.referrers(d, j).len(),
            other.pending().len() == 0 ==> self.referrers(d, j + before.pool_len(d)).len() + (if d
                == 0 && other.base_root is Some && other.base_root.unwrap() == j {
                1int
            } else {
                0int
            }) == other.referrers(d, j).len(),
    {
        self.lemma_appended_live(before, other);
        self.lemma_appended_shape(before, other);
        let i = j + before.pool_len(d);
        let theirs = other.referrers(d, j);
        let links = theirs.filter(|r: Referrer| !(r is Root) && !(r is Pending));
        let f = |r: Referrer| before.moved_referrer(r);
        let mine = self.referrers(d, i);
        assert(theirs.finite());
        vstd::set_lib::lemma_len_subset(links, theirs);
        assert(vstd::relations::injective_on(f, links)) by {
            assert forall|x1: Referrer, x2: Referrer|
                links.contains(x1) && links.contains(x2) && #[trigger] f(x1) == #[trigger] f(
                    x2,
                ) implies x1 == x2 by {}
        }
        assert(links.map(f) =~= mine) by {
            assert forall|y: Referrer| mine.contains(y) implies links.map(f).contains(y) by {
                assert(self.refers(y, d, i));
                match y {
                    Referrer::Left { dim, slot } => {
                        let off = before.pool_len(dim) as int;
                        assert(self.slot_live(dim, slot));
                        if slot < off {
                            assert(before.slot_live(dim, slot));
                            assert(same_links(self.node(dim, slot), before.node(dim, slot)));
                            assert(before.ptr_live(dim, before.node(dim, slot).left));
                            assert(false);
                        }
                        let x = Referrer::Left { dim, slot: slot - off };
                        assert(other.slot_live(dim, slot - off));
                        assert(self.node(dim, slot - off + off).left == before.moved(
                            dim,
                            other.node(dim, slot - off).left,
                        ));
                        assert(other.ptr_live(dim, other.node(dim, slot - off).left));
                        assert(self.pool_len(dim) <= usize::MAX);
                        assert(self.pool_len(dim) == before.pool_len(dim) + other.pool_len(dim));
                        assert(other.refers(x, d, j));
                        assert(links.contains(x) && y == f(x));
                    },
                    Referrer::Right { dim, slot } => {
                        let off = before.pool_len(dim) as int;
                        assert(self.slot_live(dim, slot));
                        if slot < off {
                            assert(before.slot_live(dim, slot));
                            assert(same_links(self.node(dim, slot), before.node(dim, slot)));
                            assert(before.ptr_live(dim, before.node(dim, slot).right));
                            assert(false);
                        }
                        let x = Referrer::Right { dim, slot: slot - off };
                        assert(other.slot_live(dim, slot - off));
                        assert(self.node(dim, slot - off + off).right == before.moved(
                            dim,
                            other.node(dim, slot - off).right,
                        ));
                        assert(other.ptr_live(dim, other.node(dim, slot - off).right));
                        assert(self.pool_len(dim) <= usize::MAX);
                        assert(self.pool_len(dim) == before.pool_len(dim) + other.pool_len(dim));
                        assert(other.refers(x, d, j));
                        assert(links.contains(x) && y == f(x));
                    },
                    Referrer::Next { dim, slot } => {
                        let off = before.pool_len(dim) as int;
                        assert(self.slot_live(dim, slot));
                        if slot < off {
                            assert(before.slot_live(dim, slot));
                            assert(same_links(self.node(dim, slot), before.node(dim, slot)));
                            assert(before.ptr_live(dim + 1, before.node(dim, slot).next));
                            assert(false);
                        }
                        let x = Referrer::Next { dim, slot: slot - off };
                        assert(other.slot_live(dim, slot - off));
                        assert(self.node(dim, slot - off + off).next == before.moved(
                            dim + 1,
                            other.node(dim, slot - off).next,
                        ));
                        assert(other.ptr_live(dim + 1, other.node(dim, slot - off).next));
                        assert(self.pool_len(dim + 1) <= usize::MAX);
                        assert(self.pool_len(dim + 1) == before.pool_len(dim + 1) + other.pool_len(dim + 1));
                        assert(other.refers(x, d, j));
                        assert(links.contains(x) && y == f(x));
                    },
                    Referrer::Root => {
                        assert(before.slot_live(0, before.base_root.unwrap() as int));
                        assert(false);
                    },
                    Referrer::Pending { pos } => {
                        assert(before.pending()[pos].0.unwrap() < before.pool_len(
                            before.pending()[pos].1 as int,
                        ));
                        assert(false);
                    },
                }
            }
            assert forall|y: Referrer| links.map(f).contains(y) implies mine.contains(y) by {
                let x = choose|x: Referrer| links.contains(x) && y == f(x);
                assert(other.refers(x, d, j));
                match x {
                    Referrer::Left { dim, slot } => {
                        assert(other.slot_live(dim, slot));
                        assert(self.slot_live(dim, slot + before.pool_len(dim))
                            == other.slot_live(
                            dim,
                            slot + before.pool_len(dim) - before.pool_len(dim),
                        ));
                        assert(self.pool_len(dim) <= usize::MAX);
                        assert(self.pool_len(dim) == before.pool_len(dim) + other.pool_len(dim));
                        assert(other.ptr_live(dim, other.node(dim, slot).left));
                        assert(self.refers(y, d, i));
                    },
                    Referrer::Right { dim, slot } => {
                        assert(other.slot_live(dim, slot));
                        assert(self.slot_live(dim, slot + before.pool_len(dim))
                            == other.slot_live(
                            dim,
                            slot + before.pool_len(dim) - before.pool_len(dim),
                        ));
                        assert(self.pool_len(dim) <= usize::MAX);
                        assert(self.pool_len(dim) == before.pool_len(dim) + other.pool_len(dim));
                        assert(other.ptr_live(dim, other.node(dim, slot).right));
                        assert(self.refers(y, d, i));
                    },
                    Referrer::Next { dim, slot } => {
                        assert(other.slot_live(dim, slot));
                        assert(self.slot_live(dim, slot + before.pool_len(dim))
                            == other.slot_live(
                            dim,
                            slot + before.pool_len(dim) - before.pool_len(dim),
                        ));
                        assert(self.pool_len(dim + 1) <= usize::MAX);
                        assert(self.pool_len(dim + 1) == before.pool_len(dim + 1)
                            + other.pool_len(dim + 1));
                        assert(other.ptr_live(dim + 1, other.node(dim, slot).next));
                        assert(self.refers(y, d, i));
                    },
                    _ => {},
                }
            }
        }
        vstd::set_lib::lemma_map_size(links, mine, f);
        if d == 0 && other.base_root is Some && other.base_root.unwrap() == j {
            assert(theirs.contains(Referrer::Root));
            assert(links.subset_of(theirs.remove(Referrer::Root)));
            vstd::set_lib::lemma_len_subset(links, theirs.remove(Referrer::Root));
        }
        if other.pending().len() == 0 {
            assert forall|r: Referrer| theirs.contains(r) implies !(r is Pending) by {
                assert(other.refers(r, d, j));
            }
            if theirs.contains(Referrer::Root) {
                assert(links =~= theirs.remove(Referrer::Root));
                assert(other.refers(Referrer::Root, d, j));
            } else {
                assert(links =~= theirs);
                if d == 0 && other.base_root is Some && other.base_root.unwrap() == j {
                    assert(other.refers(Referrer::Root, d, j));
                }
            }
        }
    }

    /// After appending, the cube satisfies the invariant, and holds the root
    /// of `other` where that root has arrived.
    pub proof fn lemma_appended_inv(&self, before: &Self, other: &Self)
        requires
            before.inv(),
            other.inv(),
            other.widths() == before.widths(),
            self.appended(before, other),
        ensures
            self.inv(),
            self.extends(before),
            other.base_root is Some ==> self.held(0, other.base_root.unwrap() + before.pool_len(0)),
            forall|d: int, i: int| #[trigger] before.held(d, i) ==> self.held(d, i),
            forall|d: int, i: int| #[trigger]
                self.loose(d, i) ==> before.loose(d, i) || other.loose(d, i - before.pool_len(d)),
            forall|d: int, i: int|
                0 <= d <= self.ndims() && 0 <= i < before.pool_len(d) ==> #[trigger] self.excess(
                    d,
                    i,
                ) == before.excess(d, i) && self.count_at(d, i) == before.count_at(d, i),
            other.pending().len() == 0 ==> forall|d: int, i: int|
                0 <= d <= self.ndims() && before.pool_len(d) <= i < self.pool_len(d)
                    ==> #[trigger] self.excess(d, i) == other.excess(d, i - before.pool_len(d)) + (
                if d == 0 && other.base_root is Some && other.base_root.unwrap() == i
                    - before.pool_len(d) {
                    1int
                } else {
                    0int
                }) && self.count_at(d, i) == other.count_at(d, i - before.pool_len(d)),
    {
        self.lemma_appended_live(before, other);
        self.lemma_appended_shape(before, other);
        if other.pending().len() == 0 {
            assert forall|d: int, i: int|
                0 <= d <= self.ndims() && before.pool_len(d) <= i < self.pool_len(
                    d,
                ) implies #[trigger] self.excess(d, i) == other.excess(d, i - before.pool_len(d)) + (
            if d == 0 && other.base_root is Some && other.base_root.unwrap() == i - before.pool_len(
                d,
            ) {
                1int
            } else {
                0int
            }) && self.count_at(d, i) == other.count_at(d, i - before.pool_len(d)) by {
                let off = before.pool_len(d) as int;
                self.lemma_appended_referrers(before, other, d, i - off);
                if d < self.ndims() {
                    assert(self.pool_appended(before, other, d));
                }
                assert(self.count_at(d, i) == other.count_at(d, i - off));
            }
        }
        assert forall|d: int, i: int| #[trigger] self.loose(d, i) implies before.loose(d, i)
            || other.loose(d, i - before.pool_len(d)) by {
            if d < self.ndims() {
                assert(self.pool_appended(before, other, d));
            }
            assert(self.slot_live(d, i) == if i < before.pool_len(d) {
                before.slot_live(d, i)
            } else {
                other.slot_live(d, i - before.pool_len(d))
            });
        }
        assert forall|d: int, i: int|
            0 <= d <= self.ndims() && 0 <= i < before.pool_len(d) implies #[trigger] self.referrers(
            d,
            i,
        ) == before.referrers(d, i) && self.count_at(d, i) == before.count_at(d, i) by {
            assert forall|r: Referrer| self.refers(r, d, i) == before.refers(r, d, i) by {
                match r {
                    Referrer::Left { dim, slot } => {
                        if 0 <= dim < self.ndims() {
                            let off = before.pool_len(dim) as int;
                            if slot < off {
                                assert(self.slot_live(dim, slot) == before.slot_live(dim, slot));
                                if before.slot_live(dim, slot) {
                                    assert(same_links(self.node(dim, slot), before.node(dim, slot)));
                                }
                            } else {
                                assert(!before.slot_live(dim, slot));
                                if self.slot_live(dim, slot) {
                                    assert(other.slot_live(dim, slot - off));
                                    assert(self.node(dim, slot - off + off).left == before.moved(
                                        dim,
                                        other.node(dim, slot - off).left,
                                    ));
                                    assert(other.ptr_live(dim, other.node(dim, slot - off).left));
                                    assert(self.pool_len(dim) <= usize::MAX);
                                    assert(self.pool_len(dim) == before.pool_len(dim)
                                        + other.pool_len(dim));
                                }
                            }
                        }
                    },
                    Referrer::Right { dim, slot } => {
                        if 0 <= dim < self.ndims() {
                            let off = before.pool_len(dim) as int;
                            if slot < off {
                                assert(self.slot_live(dim, slot) == before.slot_live(dim, slot));
                                if before.slot_live(dim, slot) {
                                    assert(same_links(self.node(dim, slot), before.node(dim, slot)));
                                }
                            } else {
                                assert(!before.slot_live(dim, slot));
                                if self.slot_live(dim, slot) {
                                    assert(other.slot_live(dim, slot - off));
                                    assert(self.node(dim, slot - off + off).right == before.moved(
                                        dim,
                                        other.node(dim, slot - off).right,
                                    ));
                                    assert(other.ptr_live(dim, other.node(dim, slot - off).right));
                                    assert(self.pool_len(dim) <= usize::MAX);
                                    assert(self.pool_len(dim) == before.pool_len(dim)
                                        + other.pool_len(dim));
                                }
                            }
                        }
                    },
                    Referrer::Next { dim, slot } => {
                        if 0 <= dim < self.ndims() {
                            let off = before.pool_len(dim) as int;
                            if slot < off {
                                assert(self.slot_live(dim, slot) == before.slot_live(dim, slot));
                                if before.slot_live(dim, slot) {
                                    assert(same_links(self.node(dim, slot), before.node(dim, slot)));
                                }
                            } else {
                                assert(!before.slot_live(dim, slot));
                                if self.slot_live(dim, slot) {
                                    assert(other.slot_live(dim, slot - off));
                                    assert(self.node(dim, slot - off + off).next == before.moved(
                                        dim + 1,
                                        other.node(dim, slot - off).next,
                                    ));
                                    assert(other.ptr_live(dim + 1, other.node(dim, slot - off).next));
                                    assert(self.pool_len(dim + 1) <= usize::MAX);
                                    assert(self.pool_len(dim + 1) == before.pool_len(dim + 1)
                                        + other.pool_len(dim + 1));
                                }
                            }
                        }
                    },
                    _ => {},
                }
            }
            assert(self.referrers(d, i) =~= before.referrers(d, i));
            if d < self.ndims() {
                assert(self.pool_appended(before, other, d));
            }
        }
        assert forall|d: int, i: int|
            0 <= d <= self.ndims() && 0 <= i < before.pool_len(d) implies #[trigger] self.excess(
            d,
            i,
        ) == before.excess(d, i) && self.count_at(d, i) == before.count_at(d, i) by {
            assert(self.referrers(d, i) == before.referrers(d, i));
            assert(self.count_at(d, i) == before.count_at(d, i));
        }
        assert(self.counted()) by {
            assert forall|d: int, i: int| 0 <= d <= self.ndims() && 0 <= i < self.pool_len(d) implies {
                &&& (#[trigger] self.referrers(d, i)).finite()
                &&& covers(self.count_at(d, i), self.referrers(d, i).len())
            } by {
                let off = before.pool_len(d) as int;
                if i < off {
                    assert(self.referrers(d, i) == before.referrers(d, i));
                    assert(before.referrers(d, i).finite());
                } else {
                    self.lemma_appended_referrers(before, other, d, i - off);
                    assert(other.referrers(d, i - off).finite());
                    assert(covers(other.count_at(d, i - off), other.referrers(d, i - off).len()));
                    if d < self.ndims() {
                        assert(self.pool_appended(before, other, d));
                    }
                    assert(self.count_at(d, i) == other.count_at(d, i - off));
                }
            }
        }
        self.lemma_extends_ptr(before, 0, before.width(0), before.base_root);
        assert(self.width(0) == before.width(0)) by {
            assert(self.dims@[0].width == before.dims@[0].width);
        }
        if other.base_root is Some {
            let j = other.base_root.unwrap() as int;
            let off = before.pool_len(0) as int;
            assert(other.slot_live(0, j));
            self.lemma_appended_referrers(before, other, 0, j);
            assert(other.referrers(0, j).finite());
            assert(covers(other.count_at(0, j), other.referrers(0, j).len()));
            assert(self.pool_appended(before, other, 0));
            assert(self.count_at(0, j + off) == other.count_at(0, j));
            assert(self.slot_live(0, j + off) == other.slot_live(0, j + off - off));
        }
        assert forall|d: int, i: int| #[trigger] before.held(d, i) implies self.held(d, i) by {
            assert(0 <= d <= before.ndims() && 0 <= i < before.pool_len(d));
            assert(self.referrers(d, i) == before.referrers(d, i));
            assert(self.slot_live(d, i) == before.slot_live(d, i));
        }
    }

    /// After appending, a part of `other` has, where it has arrived, the
    /// answers that it had.
    pub proof fn lemma_appended_answer(
        &self,
        before: &Self,
        other: &Self,
        d: int,
        h: nat,
        p: NodePointerType,
        lo: int,
        q: Seq<(usize, usize)>,
    )
        requires
            before.inv(),
            other.inv(),
            other.widths() == before.widths(),
            self.appended(before, other),
            other.wf_ptr(d, h, p),
        ensures
            self.sub_answer(d, h, before.moved(d, p), lo, q) == other.sub_answer(d, h, p, lo, q),
        decreases other.ndims() - d, h,
    {
        self.lemma_appended_live(before, other);
        self.lemma_appended_shape(before, other);
        before.lemma_same_widths_of(other);
        self.lemma_same_widths_of(before);
        if p is Some && 0 <= d {
            let x = p.unwrap() as int;
            let off = before.pool_len(d) as int;
            assert(self.pool_len(d) == off + other.pool_len(d));
            assert(self.pool_len(d) <= usize::MAX);
            if d >= other.ndims() {
                assert(other.summaries.live(x));
            } else {
                let n = other.node(d, x);
                assert(other.slot_live(d, x));
                assert(self.node(d, x + off).left == before.moved(d, n.left));
                self.lemma_appended_answer(before, other, d + 1, other.width(d + 1), n.next, 0, q);
                if h > 0 {
                    self.lemma_appended_answer(before, other, d, (h - 1) as nat, n.left, lo, q);
                    self.lemma_appended_answer(
                        before,
                        other,
                        d,
                        (h - 1) as nat,
                        n.right,
                        lo + vstd::arithmetic::power2::pow2((h - 1) as nat),
                        q,
                    );
                }
            }
        }
    }

    /// Cubes of the same widths have the same number of dimensions, and each
    /// dimension the same width.
    pub proof fn lemma_same_widths_of(&self, other: &Self)
        requires
            self.widths() == other.widths(),
        ensures
            self.ndims() == other.ndims(),
            forall|d: int| #[trigger] self.width(d) == other.width(d),
    {
        assert(self.widths().len() == self.dims@.len());
        assert(other.widths().len() == other.dims@.len());
        assert forall|d: int| #[trigger] self.width(d) == other.width(d) by {
            if 0 <= d < self.ndims() {
                assert(self.widths()[d] == self.dims@[d].width);
                assert(other.widths()[d] == other.dims@[d].width);
            }
        }
    }

    /// After appending, a well-formed part of `other` is well-formed where it
    /// has arrived.
    pub proof fn lemma_appended_wf(&self, before: &Self, other: &Self, d: int, h: nat, x: int)
        requires
            before.inv(),
            other.inv(),
            other.widths() == before.widths(),
            self.appended(before, other),
            other.wf_node(d, h, x),
        ensures
            self.wf_node(d, h, x + before.pool_len(d)),
        decreases other.ndims() - d, h,
    {
        self.lemma_appended_live(before, other);
        self.lemma_appended_shape(before, other);
        before.lemma_same_widths_of(other);
        self.lemma_same_widths_of(before);
        let off = before.pool_len(d) as int;
        let off1 = before.pool_len(d + 1) as int;
        assert(self.pool_len(d) == off + other.pool_len(d));
        assert(self.pool_len(d) <= usize::MAX);
        if d == other.ndims() {
            assert(other.slot_live(d, x));
            assert(self.slot_live(d, x + off) == other.slot_live(d, x + off - off));
        } else {
            let n = other.node(d, x);
            let m = self.node(d, x + off);
            assert(other.slot_live(d, x));
            assert(self.slot_live(d, x + off) == other.slot_live(d, x + off - off));
            assert(m.left == before.moved(d, n.left));
            assert(other.ptr_live(d, n.left));
            assert(other.ptr_live(d, n.right));
            assert(other.ptr_live(d + 1, n.next));
            assert(self.pool_len(d + 1) == off1 + other.pool_len(d + 1));
            assert(self.pool_len(d + 1) <= usize::MAX);
            self.lemma_appended_wf(before, other, d + 1, other.width(d + 1), n.next.unwrap() as int);
            if h > 0 {
                if n.left is Some {
                    self.lemma_appended_wf(before, other, d, (h - 1) as nat, n.left.unwrap() as int);
                }
                if n.right is Some {
                    self.lemma_appended_wf(
                        before,
                        other,
                        d,
                        (h - 1) as nat,
                        n.right.unwrap() as int,
                    );
                }
                assert forall|q: Seq<(usize, usize)>| #[trigger]
                    self.total_at(d, x + off, q) == self.total(d, m.left, q).combine(
                        self.total(d, m.right, q),
                    ) by {
                    let w1 = other.width(d + 1);
                    self.lemma_appended_answer(before, other, d + 1, w1, n.next, 0, q);
                    if n.left is Some {
                        let c = n.left.unwrap() as int;
                        assert(other.wf_node(d, (h - 1) as nat, c));
                        assert(other.slot_live(d, c));
                        assert(self.node(d, c + off).next == before.moved(
                            d + 1,
                            other.node(d, c).next,
                        ));
                        self.lemma_appended_answer(
                            before,
                            other,
                            d + 1,
                            w1,
                            other.node(d, c).next,
                            0,
                            q,
                        );
                    }
                    if n.right is Some {
                        let c = n.right.unwrap() as int;
                        assert(other.wf_node(d, (h - 1) as nat, c));
                        assert(other.slot_live(d, c));
                        assert(self.node(d, c + off).next == before.moved(
                            d + 1,
                            other.node(d, c).next,
                        ));
                        self.lemma_appended_answer(
                            before,
                            other,
                            d + 1,
                            w1,
                            other.node(d, c).next,
                            0,
                            q,
                        );
                    }
                    assert(other.total_at(d, x, q) == other.total(d, n.left, q).combine(
                        other.total(d, n.right, q),
                    ));
                }
            }
        }
    }
}

/// In a pool to which another was appended, a slot is live if it was live in
/// the pool that it came from.
pub proof fn lemma_live_appended<T>(
    all: RefCountedVec<T>,
    first: RefCountedVec<T>,
    second: RefCountedVec<T>,
    i: int,
)
    requires
        first.wf(),
        second.wf(),
        all.values@.len() == first.values@.len() + second.values@.len(),
        all.values@.len() <= usize::MAX,
        all.free_list@ == first.free_list@ + second.free_list@.map_values(
            |v: usize| (v + first.values@.len()) as usize,
        ),
    ensures
        all.live(i) == if i < first.values@.len() {
            first.live(i)
        } else {
            second.live(i - first.values@.len())
        },
{
    let off = first.values@.len() as int;
    let fl = all.free_list@;
    let f1 = first.free_list@;
    let f2 = second.free_list@;
    let n1 = f1.len() as int;
    assert forall|k: int| 0 <= k < fl.len() implies fl[k] == if k < n1 {
        f1[k] as int
    } else {
        f2[k - n1] + off
    } by {
        if k >= n1 {
            assert(f2[k - n1] < second.values@.len());
        }
    }
    if i < off {
        if first.is_free(i) {
            let k = choose|k: int| 0 <= k < f1.len() && f1[k] == i;
            assert(fl[k] == i);
        }
        if all.is_free(i) {
            let k = choose|k: int| 0 <= k < fl.len() && fl[k] == i;
            if k >= n1 {
                assert(fl[k] == f2[k - n1] + off);
            }
            assert(f1[k] == i);
        }
    } else {
        if second.is_free(i - off) {
            let k = choose|k: int| 0 <= k < f2.len() && f2[k] == i - off;
            assert(fl[k + n1] == i);
        }
        if all.is_free(i) {
            let k = choose|k: int| 0 <= k < fl.len() && fl[k] == i;
            if k < n1 {
                assert(f1[k] < off);
            }
            assert(f2[k - n1] == i - off);
        }
    }
}

impl<Summary: Monoid + PartialOrd + Copy> Nanocube<Summary> {
    /// Appends every pool of `other` to the pool of the same level of `self`,
    /// moving the links of the appended nodes along.
    fn append_pools(&mut self, other: &Nanocube<Summary>)
        requires
            old(self).shape_ok(),
            other.shape_ok(),
            other.widths() == old(self).widths(),
        ensures
            final(self).appended(old(self), other),
    {
        let ghost before = *self;
        let n = self.dims.len();
        proof {
            assert(other.widths().len() == before.widths().len());
            assert(other.dims@.len() == n);
        }
        let mut offsets: Vec<usize> = Vec::new();
        let mut d: usize = 0;
        while d < n
            invariant
                0 <= d <= n,
                n == self.dims@.len(),
                *self == before,
                offsets@.len() == d,
                forall|k: int| 0 <= k < d ==> #[trigger] offsets@[k] == before.pool_len(k),
            decreases n - d,
        {
            offsets.push(self.dims[d].len());
            d = d + 1;
        }
        offsets.push(self.summaries.len());
        assert(forall|k: int| 0 <= k <= n ==> #[trigger] offsets@[k] == before.pool_len(k));
        // the summaries
        let copy = |s: &Summary| -> (r: Summary)
            ensures
                r == *s,
            {
                let v = *s;
                v
            };
        self.summaries.extend(&other.summaries, copy);
        // the nodes, dimension by dimension
        let mut d: usize = 0;
        while d < n
            invariant
                0 <= d <= n,
                n == self.dims@.len(),
                n == before.dims@.len(),
                n == other.dims@.len(),
                before.shape_ok(),
                other.shape_ok(),
                other.widths() == before.widths(),
                offsets@.len() == n + 1,
                forall|k: int| 0 <= k <= n ==> #[trigger] offsets@[k] == before.pool_len(k),
                self.base_root == before.base_root,
                self.release_list@ == before.release_list@,
                self.summaries_appended(&before, other),
                forall|k: int| 0 <= k < d ==> #[trigger] self.pool_appended(&before, other, k),
                forall|k: int| d <= k < n ==> #[trigger] self.dims@[k] == before.dims@[k],
            decreases n - d,
        {
            let off = offsets[d];
            let off1 = offsets[d + 1];
            let ghost prev = *self;
            proof {
                assert(before.dims@[d as int].nodes.wf());
                assert(other.dims@[d as int].nodes.wf());
                assert(self.dims@[d as int] == before.dims@[d as int]);
            }
            let shift = |node: &NCDimNode| -> (r: NCDimNode)
                ensures
                    r == shifted_node(*node, off as int, off1 as int),
                {
                    let left = shift_ptr(node.left, off);
                    let right = shift_ptr(node.right, off);
                    let next = shift_ptr(node.next, off1);
                    NCDimNode { left, right, next, flags: node.flags }
                };
            self.dims[d].nodes.extend(&other.dims[d].nodes, shift);
            proof {
                assert(forall|k: int|
                    0 <= k < self.dims@.len() && k != d ==> self.dims@[k] == prev.dims@[k]);
                assert(self.pool_appended(&before, other, d as int));
                assert forall|k: int| 0 <= k < d implies #[trigger] self.pool_appended(
                    &before,
                    other,
                    k,
                ) by {
                    assert(prev.pool_appended(&before, other, k));
                }
            }
            d = d + 1;
        }
    }

    /// Appends the pools of `other` to those of `self` and returns the root of
    /// `other` where it has arrived. The count of that root still has the
    /// reference that `other` gave it as its root: whoever takes the root over
    /// takes that reference over.
    fn absorb(&mut self, other: &Nanocube<Summary>) -> (other_root: NodePointerType)
        requires
            old(self).inv(),
            other.inv(),
            other.widths() == old(self).widths(),
        ensures
            final(self).inv(),
            final(self).extends(old(self)),
            final(self).widths() == old(self).widths(),
            final(self).base_root == old(self).base_root,
            final(self).release_list@ == old(self).release_list@,
            other_root == old(self).moved(0, other.base_root),
            other_root is Some <==> other.base_root is Some,
            final(self).wf_ptr(0, old(self).width(0), other_root),
            other_root is Some ==> final(self).held(0, other_root.unwrap() as int),
            other_root is Some ==> other_root.unwrap() >= old(self).pool_len(0),
            forall|q: Seq<(usize, usize)>| #[trigger]
                final(self).sub_answer(0, old(self).width(0), other_root, 0, q) == other.answer_to(
                    q,
                ),
            old(self).settled() && other.settled() ==> final(self).settled(),
            old(self).ranked() && other.ranked() ==> final(self).ranked(),
            final(self).absorbed_tally(old(self), other),
            old(self).unmarked() && other.unmarked() ==> final(self).unmarked(),
    {
        let ghost s0 = *self;
        let ghost w0 = s0.width(0);
        let offset0 = self.dims[0].len();
        self.append_pools(other);
        let other_root = shift_ptr(other.base_root, offset0);
        proof {
            self.lemma_appended_live(&s0, other);
            self.lemma_appended_shape(&s0, other);
            self.lemma_appended_inv(&s0, other);
            s0.lemma_same_widths_of(other);
            self.lemma_same_widths_of(&s0);
            if other.base_root is Some {
                assert(other.slot_live(0, other.base_root.unwrap() as int));
                self.lemma_appended_wf(&s0, other, 0, w0, other.base_root.unwrap() as int);
            }
            assert(self.pool_len(0) == s0.pool_len(0) + other.pool_len(0));
            assert(self.pool_len(0) <= usize::MAX);
            assert forall|q: Seq<(usize, usize)>| #[trigger]
                self.sub_answer(0, w0, other_root, 0, q) == other.answer_to(q) by {
                self.lemma_appended_answer(&s0, other, 0, w0, other.base_root, 0, q);
            }
            if s0.settled() && other.settled() {
                assert forall|d: int, i: int| !#[trigger] self.loose(d, i) by {
                    if self.loose(d, i) {
                        assert(s0.loose(d, i) || other.loose(d, i - s0.pool_len(d)));
                    }
                }
            }
            if s0.ranked() && other.ranked() {
                let fresh = Set::new(|s: (int, int)| s.1 >= s0.pool_len(s.0));
                assert forall|d: int, i: int|
                    0 <= d < self.ndims() && #[trigger] fresh.contains((d, i)) && self.slot_live(
                        d,
                        i,
                    ) implies exists|h: nat| h <= self.width(d) && self.wf_node(d, h, i) by {
                    let j = i - s0.pool_len(d);
                    assert(other.slot_live(d, j));
                    let h = choose|h: nat| h <= other.width(d) && other.wf_node(d, h, j);
                    self.lemma_appended_wf(&s0, other, d, h, j);
                    assert(h <= self.width(d) && self.wf_node(d, h, i));
                }
                assert forall|d: int, i: int|
                    0 <= d < self.ndims() && #[trigger] self.slot_live(d, i) implies s0.slot_live(
                    d,
                    i,
                ) || fresh.contains((d, i)) by {}
                self.lemma_ranked_extended(&s0, fresh);
            }
            if s0.unmarked() && other.unmarked() {
                self.lemma_appended_unmarked(&s0, other);
            }
        }
        other_root
    }

    /// Merges `other`, a cube of the same widths, into `self`: afterwards
    /// every query is answered with what `self` answered combined with what
    /// `other` answers.
    ///
    /// The pools of `other` are appended to those of `self`, and the two roots
    /// are merged. The references that the release queue of `other` has still
    /// to give back are kept.
    pub fn merge_cube(&mut self, other: &Nanocube<Summary>)
        requires
            old(self).inv(),
            other.inv(),
            other.widths() == old(self).widths(),
        ensures
            final(self).inv(),
            final(self).widths() == old(self).widths(),
            forall|q: Seq<(usize, usize)>| #[trigger]
                final(self).answer_to(q) == old(self).answer_to(q).combine(other.answer_to(q)),
            old(self).settled() && other.settled() ==> final(self).settled(),
            old(self).balanced() && other.balanced() && other.pending().len() == 0
                ==> final(self).balanced(),
            old(self).ranked() && other.ranked() ==> final(self).ranked(),
            old(self).unmarked() && other.unmarked() ==> final(self).unmarked(),
    {
        let ghost s0 = *self;
        let ghost w0 = s0.width(0);
        let old_root = self.base_root;
        let other_root = self.absorb(other);
        let ghost s1 = *self;
        proof {
            s1.lemma_extends_ptr(&s0, 0, w0, old_root);
            s1.lemma_same_widths_of_extends(&s0);
        }
        let merged = self.merge_at(old_root, other_root, 0, Ghost(w0));
        let ghost s2 = *self;
        proof {
            s2.lemma_same_widths_of_extends(&s1);
            s2.lemma_widths_extends(&s1);
            assert forall|q: Seq<(usize, usize)>| #[trigger]
                s2.sub_answer(0, w0, merged, 0, q) == s0.answer_to(q).combine(other.answer_to(q)) by {
                s1.lemma_extends_answer(&s0, 0, w0, old_root, 0, q);
                s2.lemma_extends_answer(&s1, 0, w0, old_root, 0, q);
                s2.lemma_extends_answer(&s1, 0, w0, other_root, 0, q);
            }
        }
        if old_root.is_none() {
            // the reference that the root of `other` held passes to the root
            // of `self`
            self.set_root(merged);
            proof {
                if s2.unmarked() {
                    self.lemma_unmarked_same(&s2);
                }
                self.lemma_widths_extends(&s2);
                self.lemma_taken_over(&s1, &s0, other);
                assert forall|q: Seq<(usize, usize)>| #[trigger]
                    self.answer_to(q) == s0.answer_to(q).combine(other.answer_to(q)) by {
                    self.lemma_extends_answer(&s2, 0, w0, merged, 0, q);
                    assert(self.width(0) == w0) by {
                        assert(self.dims@[0].width == s2.dims@[0].width);
                    }
                }
            }
        } else {
            self.swap_root(merged, other_root, Ghost(s0), Ghost(s1), Ghost(*other));
        }
    }

    /// Makes `merged`, the merge of the root and of `other_root`, the root,
    /// and gives back the references that the two old roots held.
    fn swap_root(
        &mut self,
        merged: NodePointerType,
        other_root: NodePointerType,
        Ghost(s0): Ghost<Self>,
        Ghost(s1): Ghost<Self>,
        Ghost(other): Ghost<Self>,
    )
        requires
            old(self).inv(),
            s0.inv(),
            other.inv(),
            old(self).base_root is Some,
            old(self).base_root == s1.base_root,
            s1.base_root == s0.base_root,
            s1.inv(),
            s1.absorbed_tally(&s0, &other),
            old(self).tallied_from(&s1),
            forall|d: int, i: int| #[trigger] old(self).loose(d, i) ==> s1.loose(d, i) || (d == 0
                && merged is Some && merged.unwrap() == i),
            forall|d: int, i: int| #[trigger] s1.held(d, i) ==> old(self).held(d, i),
            other_root == s0.moved(0, other.base_root),
            other_root is Some <==> other.base_root is Some,
            merged is Some,
            old(self).wf_ptr(0, old(self).width(0), merged),
            other_root is Some ==> s1.held(0, other_root.unwrap() as int),
            other_root is Some ==> other_root.unwrap() >= s0.pool_len(0),
            other_root is Some ==> !s1.slot_live(0, merged.unwrap() as int),
            other_root is None ==> merged == old(self).base_root,
        ensures
            final(self).inv(),
            final(self).base_root == merged,
            final(self).widths() == old(self).widths(),
            forall|q: Seq<(usize, usize)>| #[trigger]
                final(self).answer_to(q) == old(self).sub_answer(
                    0,
                    old(self).width(0),
                    merged,
                    0,
                    q,
                ),
            s1.settled() ==> final(self).settled(),
            s0.balanced() && other.balanced() && other.pending().len() == 0
                ==> final(self).balanced(),
            old(self).ranked() ==> final(self).ranked(),
            old(self).unmarked() ==> final(self).unmarked(),
    {
        let ghost s2 = *self;
        let ghost w0 = s2.width(0);
        let old_root = self.base_root;
        proof {
            assert(s2.slot_live(0, merged.unwrap() as int));
            assert(s1.slot_live(0, old_root.unwrap() as int));
            assert(s0.slot_live(0, old_root.unwrap() as int));
        }
        self.make_node_ref(merged, 0);
        let ghost s3 = *self;
        proof {
            s3.lemma_same_but_counts(&s2);
            s3.lemma_extends_ptr(&s2, 0, w0, merged);
            s3.lemma_widths_extends(&s2);
            assert(s3.width(0) == w0) by {
                assert(s3.dims@[0].width == s2.dims@[0].width);
            }
        }
        self.set_root(merged);
        let ghost s4 = *self;
        proof {
            if s3.unmarked() {
                s4.lemma_unmarked_same(&s3);
            }
            s4.lemma_extends_ptr(&s3, 0, w0, merged);
            s4.lemma_widths_extends(&s3);
            assert(s4.width(0) == w0) by {
                assert(s4.dims@[0].width == s3.dims@[0].width);
            }
            assert forall|q: Seq<(usize, usize)>| #[trigger]
                s4.answer_to(q) == s2.sub_answer(0, w0, merged, 0, q) by {
                assert(s4.sub_answer(0, w0, merged, 0, q) == s3.sub_answer(0, w0, merged, 0, q));
                assert(s3.sub_answer(0, w0, merged, 0, q) == s2.sub_answer(0, w0, merged, 0, q));
            }
            if other_root is Some {
                assert(s2.held(0, other_root.unwrap() as int));
                assert(s3.held(0, other_root.unwrap() as int));
                assert(s4.held(0, other_root.unwrap() as int));
            }
        }
        self.release_node_ref(old_root, 0);
        let ghost s5 = *self;
        proof {
            s5.lemma_widths_restricts(&s4);
            if other_root is Some {
                assert(s5.held(0, other_root.unwrap() as int));
            }
        }
        // nothing holds the root of `other` but the count that its old cube
        // gave it
        self.release_node_ref(other_root, 0);
        proof {
            self.lemma_widths_restricts(&s5);
            assert forall|q: Seq<(usize, usize)>| #[trigger]
                self.answer_to(q) == s2.sub_answer(0, w0, merged, 0, q) by {
                assert(self.answer_to(q) == s5.answer_to(q));
                assert(s5.answer_to(q) == s4.answer_to(q));
            }
            if s1.settled() {
                assert forall|d: int, i: int| !#[trigger] self.loose(d, i) by {
                    if self.loose(d, i) {
                        assert(s5.loose(d, i));
                        assert(s4.loose(d, i));
                        assert(s3.loose(d, i));
                        assert(s2.loose(d, i));
                    }
                }
            }
            if s0.balanced() && other.balanced() && other.pending().len() == 0 {
                self.lemma_merged_balanced(
                    &s5,
                    &s4,
                    &s3,
                    &s2,
                    &s1,
                    &s0,
                    &other,
                    old_root,
                    other_root,
                    merged,
                );
            }
        }
    }
}

impl<Summary: Monoid> Nanocube<Summary> {
    /// A later state has the same number of dimensions and the same widths.
    pub proof fn lemma_same_widths_of_extends(&self, before: &Self)
        requires
            self.extends(before),
        ensures
            self.ndims() == before.ndims(),
            forall|d: int| #[trigger] self.width(d) == before.width(d),
    {
        self.lemma_widths_extends(before);
        self.lemma_same_widths_of(before);
    }
}

/// A copy of `pool`: the same values, counts and free list.
pub fn copy_pool<T: Copy>(pool: &RefCountedVec<T>) -> (r: RefCountedVec<T>)
    ensures
        r.values@ == pool.values@,
        r.ref_counts@ == pool.ref_counts@,
        r.free_list@ == pool.free_list@,
{
    let mut r = RefCountedVec::new();
    let mut i: usize = 0;
    while i < pool.values.len()
        invariant
            0 <= i <= pool.values@.len(),
            r.values@ == pool.values@.take(i as int),
            r.ref_counts@.len() == 0,
            r.free_list@.len() == 0,
        decreases pool.values@.len() - i,
    {
        r.values.push(pool.values[i]);
        assert(r.values@ =~= pool.values@.take(i + 1));
        i = i + 1;
    }
    assert(pool.values@.take(pool.values@.len() as int) =~= pool.values@);
    let mut i: usize = 0;
    while i < pool.ref_counts.len()
        invariant
            0 <= i <= pool.ref_counts@.len(),
            r.values@ == pool.values@,
            r.ref_counts@ == pool.ref_counts@.take(i as int),
            r.free_list@.len() == 0,
        decreases pool.ref_counts@.len() - i,
    {
        r.ref_counts.push(pool.ref_counts[i]);
        assert(r.ref_counts@ =~= pool.ref_counts@.take(i + 1));
        i = i + 1;
    }
    assert(pool.ref_counts@.take(pool.ref_counts@.len() as int) =~= pool.ref_counts@);
    let mut i: usize = 0;
    while i < pool.free_list.len()
        invariant
            0 <= i <= pool.free_list@.len(),
            r.values@ == pool.values@,
            r.ref_counts@ == pool.ref_counts@,
            r.free_list@ == pool.free_list@.take(i as int),
        decreases pool.free_list@.len() - i,
    {
        r.free_list.push(pool.free_list[i]);
        assert(r.free_list@ =~= pool.free_list@.take(i + 1));
        i = i + 1;
    }
    assert(pool.free_list@.take(pool.free_list@.len() as int) =~= pool.free_list@);
    r
}

impl<Summary> Nanocube<Summary> {
    /// `self` and `other` hold the same: the same root, the same release
    /// queue, and in every pool the same values, counts and free list.
    pub open spec fn same_cube(&self, other: &Self) -> bool {
        &&& self.base_root == other.base_root
        &&& self.release_list@ == other.release_list@
        &&& self.dims@.len() == other.dims@.len()
        &&& forall|d: int|
            0 <= d < self.dims@.len() ==> {
                &&& (#[trigger] self.dims@[d]).width == other.dims@[d].width
                &&& self.dims@[d].nodes.values@ == other.dims@[d].nodes.values@
                &&& self.dims@[d].nodes.ref_counts@ == other.dims@[d].nodes.ref_counts@
                &&& self.dims@[d].nodes.free_list@ == other.dims@[d].nodes.free_list@
            }
        &&& self.summaries.values@ == other.summaries.values@
        &&& self.summaries.ref_counts@ == other.summaries.ref_counts@
        &&& self.summaries.free_list@ == other.summaries.free_list@
    }
}

impl<Summary: Monoid> Nanocube<Summary> {
    /// A cube that holds the same as one that satisfies the invariant
    /// satisfies it too, has the same widths and gives the same answers.
    pub proof fn lemma_same_cube(&self, other: &Self)
        requires
            self.same_cube(other),
            other.inv(),
        ensures
            self.inv(),
            self.widths() == other.widths(),
            forall|q: Seq<(usize, usize)>| #[trigger] self.answer_to(q) == other.answer_to(q),
            other.settled() ==> self.settled(),
            other.ranked() ==> self.ranked(),
            other.balanced() ==> self.balanced(),
    {
        assert(self.same_but_counts(other));
        if other.balanced() {
            assert forall|d: int, i: int|
                0 <= d <= self.ndims() && 0 <= i < self.pool_len(d) implies #[trigger] self.excess(
                d,
                i,
            ) == 0 || self.count_at(d, i) == usize::MAX by {
                self.lemma_same_but_counts(other);
                assert(self.referrers(d, i) == other.referrers(d, i));
                assert(self.pool_len(d) == other.pool_len(d));
                assert(other.excess(d, i) == 0 || other.count_at(d, i) == usize::MAX);
                if 0 <= d < self.ndims() {
                    assert(self.dims@[d].nodes.ref_counts@ == other.dims@[d].nodes.ref_counts@);
                }
            }
        }
        assert forall|d: int, i: int| #[trigger] self.loose(d, i) implies other.loose(d, i) by {
            assert(self.slot_live(d, i) == other.slot_live(d, i)) by {
                self.lemma_same_but_counts(other);
            }
            if 0 <= d < self.ndims() {
                assert(self.dims@[d].nodes.ref_counts@ == other.dims@[d].nodes.ref_counts@);
            }
        }
        self.lemma_same_but_counts(other);
        self.lemma_widths_extends(other);
        assert(self.shape_ok()) by {
            assert forall|d: int| 0 <= d < self.dims@.len() implies 1 <= (#[trigger] self.dims@[d]).width
                < usize::BITS by {
                assert(1 <= other.dims@[d].width < usize::BITS);
            }
            assert forall|d: int| 0 <= d < self.dims@.len() implies (#[trigger] self.dims@[d]).nodes.wf() by {
                assert(other.dims@[d].nodes.wf());
                assert(self.dims@[d].nodes.values@ == other.dims@[d].nodes.values@);
            }
        }
        assert(self.counted()) by {
            assert forall|d: int, i: int| 0 <= d <= self.ndims() && 0 <= i < self.pool_len(d) implies {
                &&& (#[trigger] self.referrers(d, i)).finite()
                &&& covers(self.count_at(d, i), self.referrers(d, i).len())
            } by {
                assert(self.referrers(d, i) == other.referrers(d, i));
                assert(self.pool_len(d) == other.pool_len(d));
                assert(other.referrers(d, i).finite());
                if d < self.ndims() {
                    assert(self.dims@[d].nodes.ref_counts@ == other.dims@[d].nodes.ref_counts@);
                }
            }
        }
        self.lemma_extends_ptr(other, 0, other.width(0), other.base_root);
        assert(self.width(0) == other.width(0)) by {
            assert(self.dims@[0].width == other.dims@[0].width);
        }
    }
}

/// A copy of a cube is a cube of its own: it shares nothing with the cube
/// that it was made from, and holds the same.
impl<Summary: Copy> Clone for Nanocube<Summary> {
    fn clone(&self) -> (r: Nanocube<Summary>)
        ensures
            r.same_cube(self),
    {
        let mut dims: Vec<NCDim> = Vec::new();
        let mut d: usize = 0;
        while d < self.dims.len()
            invariant
                0 <= d <= self.dims@.len(),
                dims@.len() == d,
                forall|k: int|
                    0 <= k < d ==> {
                        &&& (#[trigger] dims@[k]).width == self.dims@[k].width
                        &&& dims@[k].nodes.values@ == self.dims@[k].nodes.values@
                        &&& dims@[k].nodes.ref_counts@ == self.dims@[k].nodes.ref_counts@
                        &&& dims@[k].nodes.free_list@ == self.dims@[k].nodes.free_list@
                    },
            decreases self.dims@.len() - d,
        {
            dims.push(NCDim { nodes: copy_pool(&self.dims[d].nodes), width: self.dims[d].width });
            d = d + 1;
        }
        let mut release_list: Vec<(NodePointerType, usize)> = Vec::new();
        let mut k: usize = 0;
        while k < self.release_list.len()
            invariant
                0 <= k <= self.release_list@.len(),
                release_list@ == self.release_list@.take(k as int),
            decreases self.release_list@.len() - k,
        {
            release_list.push(self.release_list[k]);
            assert(release_list@ =~= self.release_list@.take(k + 1));
            k = k + 1;
        }
        assert(self.release_list@.take(self.release_list@.len() as int) =~= self.release_list@);
        Nanocube {
            base_root: self.base_root,
            dims,
            summaries: copy_pool(&self.summaries),
            release_list,
        }
    }
}

impl<Summary: Monoid + PartialOrd + Copy> Nanocube<Summary> {
    /// The smallest empty cube: one dimension of one bit.
    pub fn mempty() -> (r: Nanocube<Summary>)
        ensures
            r.inv(),
            r.base_root is None,
            r.settled(),
            r.balanced(),
            r.ranked(),
            r.widths() == seq![1usize],
            forall|q: Seq<(usize, usize)>| #[trigger] r.answer_to(q) == Summary::identity(),
            r.unmarked(),
    {
        let mut widths: Vec<usize> = Vec::new();
        widths.push(1);
        assert(widths@ =~= seq![1usize]);
        Nanocube::new(widths)
    }

    /// A cube that answers every query with what `self` answers combined with
    /// what `rhs`, a cube of the same widths, answers. Neither is changed.
    pub fn mapply(&self, rhs: &Nanocube<Summary>) -> (r: Nanocube<Summary>)
        requires
            self.inv(),
            rhs.inv(),
            rhs.widths() == self.widths(),
        ensures
            r.inv(),
            r.widths() == self.widths(),
            forall|q: Seq<(usize, usize)>| #[trigger]
                r.answer_to(q) == self.answer_to(q).combine(rhs.answer_to(q)),
            self.settled() && rhs.settled() ==> r.settled(),
            self.balanced() && rhs.balanced() && rhs.pending().len() == 0 ==> r.balanced(),
            self.ranked() && rhs.ranked() ==> r.ranked(),
            self.unmarked() && rhs.unmarked() ==> r.unmarked(),
    {
        let mut result = self.clone();
        proof {
            result.lemma_same_cube(self);
            if self.unmarked() {
                result.lemma_unmarked_same(self);
            }
        }
        result.merge_cube(rhs);
        result
    }
}

/// A copy of a dimension: the same width, and a pool that holds the same.
impl Clone for NCDim {
    fn clone(&self) -> (r: NCDim)
        ensures
            r.width == self.width,
            r.nodes.values@ == self.nodes.values@,
            r.nodes.ref_counts@ == self.nodes.ref_counts@,
            r.nodes.free_list@ == self.nodes.free_list@,
    {
        NCDim { nodes: copy_pool(&self.nodes), width: self.width }
    }
}

impl<Summary: Monoid> Nanocube<Summary> {
    /// The counts of `self`, which is `before` with the pools of `other`
    /// appended, are those of the two cubes, and so are the excesses; but the
    /// root of `other`, where it has arrived, has one reference more than
    /// referrers, and what the release queue of `other` named has as many more
    /// as the queue named it.
    pub open spec fn absorbed_tally(&self, before: &Self, other: &Self) -> bool {
        &&& self.ndims() == before.ndims()
        &&& self.ndims() == other.ndims()
        &&& forall|d: int|
            0 <= d <= self.ndims() ==> #[trigger] self.pool_len(d) == before.pool_len(d)
                + other.pool_len(d)
        &&& forall|d: int| 0 <= d <= self.ndims() ==> #[trigger] self.pool_len(d) <= usize::MAX
        &&& forall|d: int, i: int|
            0 <= d <= self.ndims() && 0 <= i < before.pool_len(d) ==> #[trigger] self.excess(d, i)
                == before.excess(d, i) && self.count_at(d, i) == before.count_at(d, i)
        &&& other.pending().len() == 0 ==> forall|d: int, i: int|
            0 <= d <= self.ndims() && before.pool_len(d) <= i < self.pool_len(d)
                ==> #[trigger] self.excess(d, i) == other.excess(d, i - before.pool_len(d)) + (if d
                == 0 && other.base_root is Some && other.base_root.unwrap() == i - before.pool_len(
                d,
            ) {
                1int
            } else {
                0int
            }) && self.count_at(d, i) == other.count_at(d, i - before.pool_len(d))
    }

    /// Where the cube had no root, the root of `other` becomes its root and
    /// the reference that it held as the root of `other` is the reference that
    /// it holds now: every count is balanced.
    pub proof fn lemma_taken_over(&self, s1: &Self, s0: &Self, other: &Self)
        requires
            s0.inv(),
            other.inv(),
            s0.base_root is None,
            s1.absorbed_tally(s0, other),
            s1.base_root is None,
            self.ndims() == s1.ndims(),
            self.base_root == s0.moved(0, other.base_root),
            forall|d: int| #[trigger] self.pool_len(d) == s1.pool_len(d),
            forall|d: int, i: int| #[trigger] self.count_at(d, i) == s1.count_at(d, i),
            forall|d: int, i: int| #[trigger] self.loose(d, i) == s1.loose(d, i),
            forall|d: int, i: int|
                0 <= d <= s1.ndims() && 0 <= i < s1.pool_len(d) ==> #[trigger] self.excess(d, i)
                    == s1.excess(d, i) - (if d == 0 && self.base_root is Some
                    && self.base_root.unwrap() == i {
                    1int
                } else {
                    0int
                }),
        ensures
            s1.settled() ==> self.settled(),
            s0.balanced() && other.balanced() && other.pending().len() == 0 ==> self.balanced(),
    {
        if s0.balanced() && other.balanced() && other.pending().len() == 0 {
            assert forall|d: int, i: int|
                0 <= d <= self.ndims() && 0 <= i < self.pool_len(d) implies #[trigger] self.excess(
                d,
                i,
            ) == 0 || self.count_at(d, i) == usize::MAX by {
                let off = s0.pool_len(d) as int;
                assert(self.pool_len(d) == s1.pool_len(d));
                assert(s1.pool_len(d) == off + other.pool_len(d));
                assert(s1.pool_len(d) <= usize::MAX);
                if other.base_root is Some {
                    assert(other.slot_live(0, other.base_root.unwrap() as int));
                    assert(s1.pool_len(0) == s0.pool_len(0) + other.pool_len(0));
                    assert(s1.pool_len(0) <= usize::MAX);
                }
                if i < off {
                    assert(s0.excess(d, i) == 0 || s0.count_at(d, i) == usize::MAX);
                    assert(s1.excess(d, i) == s0.excess(d, i));
                } else {
                    assert(other.excess(d, i - off) == 0 || other.count_at(d, i - off)
                        == usize::MAX);
                }
            }
        }
    }

    /// The steps by which the merge of two roots becomes the cube leave every
    /// count balanced: the merged root gets a reference and becomes the root,
    /// and the two old roots lose theirs.
    pub proof fn lemma_merged_balanced(
        &self,
        s5: &Self,
        s4: &Self,
        s3: &Self,
        s2: &Self,
        s1: &Self,
        s0: &Self,
        other: &Self,
        old_root: NodePointerType,
        other_root: NodePointerType,
        merged: NodePointerType,
    )
        requires
            s0.balanced(),
            other.balanced(),
            other.inv(),
            other.pending().len() == 0,
            old_root is Some,
            merged is Some,
            s0.ndims() >= 1,
            old_root.unwrap() < s0.pool_len(0),
            merged.unwrap() < s2.pool_len(0),
            other_root == s0.moved(0, other.base_root),
            s1.absorbed_tally(s0, other),
            s2.tallied_from(s1),
            s3.excess_shifted(s2, 0, merged.unwrap() as int, 1),
            s4.ndims() == s3.ndims(),
            forall|d: int| #[trigger] s4.pool_len(d) == s3.pool_len(d),
            forall|d: int, i: int| #[trigger] s4.count_at(d, i) == s3.count_at(d, i),
            forall|d: int, i: int|
                0 <= d <= s3.ndims() && 0 <= i < s3.pool_len(d) ==> #[trigger] s4.excess(d, i)
                    == s3.excess(d, i) + (if d == 0 && old_root.unwrap() == i {
                    1int
                } else {
                    0int
                }) - (if d == 0 && merged.unwrap() == i {
                    1int
                } else {
                    0int
                }),
            s5.excess_shifted(s4, 0, old_root.unwrap() as int, -1),
            other_root is Some ==> self.excess_shifted(s5, 0, other_root.unwrap() as int, -1),
            other_root is None ==> self == s5,
        ensures
            self.balanced(),
    {
        let m = merged.unwrap() as int;
        let r0 = old_root.unwrap() as int;
        if other.base_root is Some {
            assert(other.slot_live(0, other.base_root.unwrap() as int));
            assert(s1.pool_len(0) == s0.pool_len(0) + other.pool_len(0));
            assert(s1.pool_len(0) <= usize::MAX);
        }
        assert forall|d: int| #[trigger] self.pool_len(d) == s2.pool_len(d) by {
            assert(self.pool_len(d) == s5.pool_len(d));
            assert(s5.pool_len(d) == s4.pool_len(d));
            assert(s4.pool_len(d) == s3.pool_len(d));
            assert(s3.pool_len(d) == s2.pool_len(d));
        }
        assert forall|d: int, i: int|
            0 <= d <= self.ndims() && 0 <= i < self.pool_len(d) implies #[trigger] self.excess(d, i)
            == 0 || self.count_at(d, i) == usize::MAX by {
            let off = s0.pool_len(d) as int;
            assert(self.pool_len(d) == s2.pool_len(d));
            assert(s3.pool_len(d) == s2.pool_len(d));
            assert(s4.pool_len(d) == s3.pool_len(d));
            assert(s5.pool_len(d) == s4.pool_len(d));
            assert(s2.pool_len(d) >= s1.pool_len(d));
            assert(s1.pool_len(d) == off + other.pool_len(d));
            assert(s1.pool_len(d) <= usize::MAX);
            if self.count_at(d, i) < usize::MAX {
                assert(s5.count_at(d, i) < usize::MAX);
                assert(s4.count_at(d, i) < usize::MAX);
                assert(s3.count_at(d, i) < usize::MAX);
                assert(s2.count_at(d, i) < usize::MAX);
                let is_other_root = d == 0 && other_root is Some && other_root.unwrap() == i;
                let e1: int = if is_other_root {
                    1
                } else {
                    0
                };
                assert(s2.excess(d, i) == e1) by {
                    if i < s1.pool_len(d) {
                        assert(s1.count_at(d, i) < usize::MAX);
                        assert(s2.excess(d, i) == s1.excess(d, i));
                        if i < off {
                            assert(s0.excess(d, i) == 0 || s0.count_at(d, i) == usize::MAX);
                            assert(s1.excess(d, i) == s0.excess(d, i));
                        } else {
                            assert(other.excess(d, i - off) == 0 || other.count_at(d, i - off)
                                == usize::MAX);
                        }
                    } else {
                        assert(s2.excess(d, i) == 0);
                    }
                }
                assert(s3.excess(d, i) == s2.excess(d, i) + if d == 0 && i == m {
                    1int
                } else {
                    0int
                });
                assert(s5.excess(d, i) == s4.excess(d, i) + if d == 0 && i == r0 {
                    -1int
                } else {
                    0int
                });
                if other_root is Some {
                    assert(self.excess(d, i) == s5.excess(d, i) + if is_other_root {
                        -1int
                    } else {
                        0int
                    });
                }
            }
        }
    }
}

} // verus!
