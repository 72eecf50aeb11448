//! The nanocube: one node pool per dimension, a summary pool, and a root.
//!
//! A node refines its dimension bit by bit through `left` and `right`, and
//! leaves it through `next`, which leads to the following dimension or, from
//! the last one, to a summary. Nodes are shared, so every pool counts its
//! references; releases are queued and carried out in batches.

use crate::cube::{range_contains, range_overlaps, Monoid};
use crate::ref_counted_vec::RefCountedVec;
use vstd::arithmetic::power2::pow2;
use vstd::prelude::*;

verus! {

/// A nullable index into a pool.
pub type NodePointerType = Option<usize>;

/// A node of one dimension's refinement tree.
#[derive(Copy, Debug, Clone)]
pub struct NCDimNode {
    /// The lower half of this node's range, in the same pool.
    pub left: NodePointerType,
    /// The upper half of this node's range, in the same pool.
    pub right: NodePointerType,
    /// Everything under this node's range, in the next pool.
    pub next: NodePointerType,
    /// A mark that traversals set and clear; zero at rest.
    pub flags: i32,
}

/// One dimension: its node pool and its width in bits.
pub struct NCDim {
    pub nodes: RefCountedVec<NCDimNode>,
    pub width: usize,
}

/// A nanocube over summaries of type `Summary`.
pub struct Nanocube<Summary> {
    pub base_root: NodePointerType,
    pub dims: Vec<NCDim>,
    pub summaries: RefCountedVec<Summary>,
    pub release_list: Vec<(NodePointerType, usize)>,
}

/// The number of queued releases above which `release_node_ref` flushes.
pub const RELEASE_THRESHOLD: usize = 256;

/// Something that holds a reference to a slot: a link of a live node, the
/// root, or an entry of the release queue.
pub ghost enum Referrer {
    Left { dim: int, slot: int },
    Right { dim: int, slot: int },
    Next { dim: int, slot: int },
    Root,
    Pending { pos: int },
}

/// A count `count` accounts for `n` references: it is at least `n`, or it has
/// reached the largest value, where it stays.
pub open spec fn covers(count: usize, n: nat) -> bool {
    count == usize::MAX || count >= n
}

/// The number of free slots that are left of `free` once `made` slots were
/// made: a new slot takes a free one as long as there is one.
pub open spec fn left_free(free: int, made: int) -> int {
    if free >= made {
        free - made
    } else {
        0
    }
}

/// Two nodes have the same three links.
pub open spec fn same_links(a: NCDimNode, b: NCDimNode) -> bool {
    a.left == b.left && a.right == b.right && a.next == b.next
}

impl NCDim {
    /// The number of slots in this dimension's pool.
    #[inline]
    pub fn len(&self) -> (n: usize)
        ensures
            n == self.nodes.values@.len(),
    {
        self.nodes.len()
    }

    /// An empty dimension of `width` bits.
    pub fn new(width: usize) -> (r: NCDim)
        ensures
            r.width == width,
            r.nodes.wf(),
            r.nodes.values@.len() == 0,
            r.nodes.ref_counts@.len() == 0,
            r.nodes.free_list@.len() == 0,
    {
        NCDim { nodes: RefCountedVec::new(), width }
    }

    /// The node in slot `index`.
    #[inline]
    pub fn at(&self, index: NodePointerType) -> (r: &NCDimNode)
        requires
            index is Some,
            index.unwrap() < self.nodes.values@.len(),
        ensures
            *r == self.nodes.values@[index.unwrap() as int],
    {
        &self.nodes.values[index.unwrap()]
    }

    /// The node in slot `index`, for writing.
    #[inline]
    pub fn at_mut(&mut self, index: NodePointerType) -> (r: &mut NCDimNode)
        requires
            index is Some,
            index.unwrap() < old(self).nodes.values@.len(),
        ensures
            *r == old(self).nodes.values@[index.unwrap() as int],
            final(self).nodes.values@ == old(self).nodes.values@.update(
                index.unwrap() as int,
                *final(r),
            ),
            final(self).nodes.ref_counts == old(self).nodes.ref_counts,
            final(self).nodes.free_list == old(self).nodes.free_list,
            final(self).width == old(self).width,
    {
        &mut self.nodes.values[index.unwrap()]
    }
}

impl<Summary: Monoid> Nanocube<Summary> {
    /// The queue of releases that have been asked for and not carried out.
    pub open spec fn pending(&self) -> Seq<(NodePointerType, usize)> {
        self.release_list@
    }

    /// The number of dimensions.
    pub open spec fn ndims(&self) -> int {
        self.dims@.len() as int
    }

    /// The widths of the dimensions, in order.
    pub open spec fn widths(&self) -> Seq<usize> {
        Seq::new(self.dims@.len(), |d: int| self.dims@[d].width)
    }

    /// The width of dimension `d`; zero at the summary level.
    pub open spec fn width(&self, d: int) -> nat {
        if 0 <= d < self.dims@.len() {
            self.dims@[d].width as nat
        } else {
            0
        }
    }

    /// The node in slot `i` of dimension `d`.
    pub open spec fn node(&self, d: int, i: int) -> NCDimNode {
        self.dims@[d].nodes.values@[i]
    }

    /// The number of slots at level `d`: a dimension's pool, or the summary
    /// pool at level `ndims()`.
    pub open spec fn pool_len(&self, d: int) -> nat {
        if 0 <= d < self.dims@.len() {
            self.dims@[d].nodes.values@.len()
        } else if d == self.dims@.len() {
            self.summaries.values@.len()
        } else {
            0
        }
    }

    /// The reference count of slot `i` at level `d`.
    pub open spec fn count_at(&self, d: int, i: int) -> usize {
        if 0 <= d < self.dims@.len() {
            self.dims@[d].nodes.ref_counts@[i]
        } else {
            self.summaries.ref_counts@[i]
        }
    }

    /// Slot `i` at level `d` exists and is not on its pool's free list.
    pub open spec fn slot_live(&self, d: int, i: int) -> bool {
        if 0 <= d < self.dims@.len() {
            self.dims@[d].nodes.live(i)
        } else if d == self.dims@.len() {
            self.summaries.live(i)
        } else {
            false
        }
    }

    /// `p` is null or a live slot of level `d`.
    pub open spec fn ptr_live(&self, d: int, p: NodePointerType) -> bool {
        p is Some ==> self.slot_live(d, p.unwrap() as int)
    }

    /// The answer, to the query `q`, of the part of the cube that hangs under
    /// `p`, a pointer at level `d` to a node that stands for the range of
    /// `2^h` values starting at `lo`: the combined summary of the points under
    /// `p` whose coordinates from `d` on lie inside `q`.
    pub open spec fn sub_answer(
        &self,
        d: int,
        h: nat,
        p: NodePointerType,
        lo: int,
        q: Seq<(usize, usize)>,
    ) -> Summary
        decreases self.ndims() - d, h,
    {
        if p is None || d < 0 {
            Summary::identity()
        } else if d >= self.ndims() {
            self.summaries.values@[p.unwrap() as int]
        } else {
            let n = self.node(d, p.unwrap() as int);
            if !range_overlaps(q[d], lo, lo + pow2(h)) {
                Summary::identity()
            } else if h == 0 || range_contains(q[d], lo, lo + pow2(h)) {
                self.sub_answer(d + 1, self.width(d + 1), n.next, 0, q)
            } else {
                self.sub_answer(d, (h - 1) as nat, n.left, lo, q).combine(
                    self.sub_answer(d, (h - 1) as nat, n.right, lo + pow2((h - 1) as nat), q),
                )
            }
        }
    }

    /// The answer of the whole sub-cube that starts at `p`, a pointer at
    /// level `d` to the top of a dimension or to a summary.
    pub open spec fn next_answer(&self, d: int, p: NodePointerType, q: Seq<(usize, usize)>) -> Summary {
        self.sub_answer(d, self.width(d), p, 0, q)
    }

    /// The aggregate of node `x` of dimension `d`: the answer of its `next`.
    pub open spec fn total_at(&self, d: int, x: int, q: Seq<(usize, usize)>) -> Summary {
        self.next_answer(d + 1, self.node(d, x).next, q)
    }

    /// The aggregate of the node that `p` points at; the identity for null.
    pub open spec fn total(&self, d: int, p: NodePointerType, q: Seq<(usize, usize)>) -> Summary {
        if p is Some {
            self.total_at(d, p.unwrap() as int, q)
        } else {
            Summary::identity()
        }
    }

    /// Slot `x` at level `d` heads a well-formed part of the cube of height
    /// `h`: every node on the way down is live and has a `next`; a node of
    /// height zero has no children, a higher one has at least one, each one
    /// level lower; and the aggregate of a node with children is the sum of its
    /// children's aggregates.
    pub open spec fn wf_node(&self, d: int, h: nat, x: int) -> bool
        decreases self.ndims() - d, h,
    {
        if d < 0 || d > self.ndims() {
            false
        } else if d == self.ndims() {
            self.summaries.live(x)
        } else {
            let n = self.node(d, x);
            &&& self.dims@[d].nodes.live(x)
            &&& n.next is Some
            &&& self.wf_node(d + 1, self.width(d + 1), n.next.unwrap() as int)
            &&& if h == 0 {
                n.left is None && n.right is None
            } else {
                &&& n.left is Some || n.right is Some
                &&& n.left is Some ==> self.wf_node(d, (h - 1) as nat, n.left.unwrap() as int)
                &&& n.right is Some ==> self.wf_node(d, (h - 1) as nat, n.right.unwrap() as int)
                &&& forall|q: Seq<(usize, usize)>| #[trigger]
                    self.total_at(d, x, q) == self.total(d, n.left, q).combine(
                        self.total(d, n.right, q),
                    )
            }
        }
    }

    /// `p` is null or heads a well-formed part of height `h` at level `d`.
    pub open spec fn wf_ptr(&self, d: int, h: nat, p: NodePointerType) -> bool {
        p is Some ==> self.wf_node(d, h, p.unwrap() as int)
    }

    /// The referrer `r` is in force and refers to slot `i` of level `d`.
    pub open spec fn refers(&self, r: Referrer, d: int, i: int) -> bool {
        match r {
            Referrer::Left { dim, slot } => {
                &&& dim == d
                &&& 0 <= dim < self.ndims()
                &&& self.slot_live(dim, slot)
                &&& self.node(dim, slot).left is Some
                &&& self.node(dim, slot).left.unwrap() == i
            },
            Referrer::Right { dim, slot } => {
                &&& dim == d
                &&& 0 <= dim < self.ndims()
                &&& self.slot_live(dim, slot)
                &&& self.node(dim, slot).right is Some
                &&& self.node(dim, slot).right.unwrap() == i
            },
            Referrer::Next { dim, slot } => {
                &&& dim + 1 == d
                &&& 0 <= dim < self.ndims()
                &&& self.slot_live(dim, slot)
                &&& self.node(dim, slot).next is Some
                &&& self.node(dim, slot).next.unwrap() == i
            },
            Referrer::Root => d == 0 && self.base_root is Some && self.base_root.unwrap() == i,
            Referrer::Pending { pos } => {
                &&& 0 <= pos < self.pending().len()
                &&& self.pending()[pos].0 is Some
                &&& self.pending()[pos].0.unwrap() == i
                &&& self.pending()[pos].1 == d
            },
        }
    }

    /// Everything that refers to slot `i` of level `d`.
    pub open spec fn referrers(&self, d: int, i: int) -> Set<Referrer> {
        Set::new(|r: Referrer| self.refers(r, d, i))
    }

    /// The cube has at least one dimension, every width is at least one and
    /// small enough for its range to fit a machine word, and every pool is
    /// well-formed.
    pub open spec fn shape_ok(&self) -> bool {
        &&& self.dims@.len() >= 1
        &&& forall|d: int|
            0 <= d < self.dims@.len() ==> 1 <= (#[trigger] self.dims@[d]).width < usize::BITS
        &&& forall|d: int| 0 <= d < self.dims@.len() ==> (#[trigger] self.dims@[d]).nodes.wf()
        &&& self.summaries.wf()
    }

    /// Every link of a live node is null or leads to a live slot.
    pub open spec fn closed(&self) -> bool {
        forall|d: int, i: int|
            0 <= d < self.ndims() && #[trigger] self.slot_live(d, i) ==> {
                &&& self.ptr_live(d, self.node(d, i).left)
                &&& self.ptr_live(d, self.node(d, i).right)
                &&& self.ptr_live(d + 1, self.node(d, i).next)
            }
    }

    /// Every count accounts for the references to its slot.
    pub open spec fn counted(&self) -> bool {
        forall|d: int, i: int|
            0 <= d <= self.ndims() && 0 <= i < self.pool_len(d) ==> {
                &&& (#[trigger] self.referrers(d, i)).finite()
                &&& covers(self.count_at(d, i), self.referrers(d, i).len())
            }
    }

    /// Every queued release names a slot that exists.
    pub open spec fn pending_ok(&self) -> bool {
        forall|k: int|
            0 <= k < self.pending().len() ==> {
                &&& (#[trigger] self.pending()[k]).0 is Some
                &&& self.pending()[k].1 <= self.ndims()
                &&& self.pending()[k].0.unwrap() < self.pool_len(self.pending()[k].1 as int)
            }
    }

    /// The answer of the whole cube to the query `q`.
    pub open spec fn answer_to(&self, q: Seq<(usize, usize)>) -> Summary {
        self.next_answer(0, self.base_root, q)
    }

    /// The count of slot `i` of level `d` accounts for one reference more
    /// than the slot has referrers: one reference can be handed on.
    pub open spec fn spare(&self, d: int, i: int) -> bool {
        covers(self.count_at(d, i), self.referrers(d, i).len() + 1)
    }

    /// By how much the count of slot `i` of level `d` exceeds the number of
    /// its referrers.
    pub open spec fn excess(&self, d: int, i: int) -> int {
        self.count_at(d, i) - self.referrers(d, i).len()
    }

    /// No count has reached the largest value.
    pub open spec fn unsaturated(&self) -> bool {
        forall|d: int, i: int|
            0 <= d <= self.ndims() && 0 <= i < self.pool_len(d) ==> #[trigger] self.count_at(d, i)
                < usize::MAX
    }

    /// Every count is the number of the referrers of its slot, no more,
    /// unless it has reached the largest value.
    pub open spec fn balanced(&self) -> bool {
        forall|d: int, i: int|
            0 <= d <= self.ndims() && 0 <= i < self.pool_len(d) ==> #[trigger] self.excess(d, i)
                == 0 || self.count_at(d, i) == usize::MAX
    }

    /// The mark of the node in slot `i` of level `d`.
    pub open spec fn mark_at(&self, d: int, i: int) -> i32 {
        self.node(d, i).flags
    }

    /// No node carries a mark, as it is between traversals.
    pub open spec fn unmarked(&self) -> bool {
        forall|d: int, i: int|
            0 <= d < self.ndims() && 0 <= i < self.pool_len(d) ==> #[trigger] self.mark_at(d, i)
                == 0
    }

    /// Every node that was live in `before` has the mark that it had.
    pub open spec fn keeps_marks(&self, before: &Self) -> bool {
        forall|d: int, i: int|
            0 <= d < before.ndims() && #[trigger] before.slot_live(d, i) ==> self.node(d, i).flags
                == before.node(d, i).flags
    }

    /// The number of live slots of level `d`.
    pub open spec fn live_count(&self, d: int) -> int {
        if 0 <= d < self.dims@.len() {
            self.dims@[d].nodes.values@.len() - self.dims@[d].nodes.free_list@.len()
        } else if d == self.dims@.len() {
            self.summaries.values@.len() - self.summaries.free_list@.len()
        } else {
            0
        }
    }

    /// The number of free slots of level `d`.
    pub open spec fn free_count(&self, d: int) -> int {
        if 0 <= d < self.dims@.len() {
            self.dims@[d].nodes.free_list@.len() as int
        } else if d == self.dims@.len() {
            self.summaries.free_list@.len() as int
        } else {
            0
        }
    }

    /// `self` is a state reached from `before` by steps that count every
    /// reference they make or drop, and that set no mark. A count that had
    /// reached the largest value still has it; every other slot of `before`
    /// has the excess that it had, and every slot that was added has none. A
    /// node has the mark that was in its slot, or none.
    pub open spec fn tallied_from(&self, before: &Self) -> bool {
        &&& forall|d: int, i: int|
            0 <= d < self.ndims() && 0 <= i < self.pool_len(d) ==> #[trigger] self.mark_at(d, i)
                == 0 || (i < before.pool_len(d) && self.mark_at(d, i) == before.mark_at(d, i))
        &&& self.ndims() == before.ndims()
        &&& forall|d: int| #[trigger] self.pool_len(d) >= before.pool_len(d)
        &&& forall|d: int, i: int|
            0 <= d <= before.ndims() && 0 <= i < before.pool_len(d) && #[trigger] before.count_at(
                d,
                i,
            ) == usize::MAX ==> self.count_at(d, i) == usize::MAX
        &&& forall|d: int, i: int|
            0 <= d <= before.ndims() && 0 <= i < before.pool_len(d) ==> #[trigger] self.excess(
                d,
                i,
            ) == before.excess(d, i) || self.count_at(d, i) == usize::MAX
        &&& forall|d: int, i: int|
            0 <= d <= before.ndims() && before.pool_len(d) <= i < self.pool_len(d)
                ==> #[trigger] self.excess(d, i) == 0 || self.count_at(d, i) == usize::MAX
    }

    /// `self` is `before` with the excess of slot `i` of level `d` changed by
    /// `delta` and no other: a count that had reached the largest value still
    /// has it, and the excess of every other slot is what it was.
    pub open spec fn excess_shifted(&self, before: &Self, d: int, i: int, delta: int) -> bool {
        &&& self.ndims() == before.ndims()
        &&& forall|dd: int| #[trigger] self.pool_len(dd) == before.pool_len(dd)
        &&& forall|dd: int, j: int|
            0 <= dd <= before.ndims() && 0 <= j < before.pool_len(dd) && #[trigger] before.count_at(
                dd,
                j,
            ) == usize::MAX ==> self.count_at(dd, j) == usize::MAX
        &&& forall|dd: int, j: int|
            0 <= dd <= before.ndims() && 0 <= j < before.pool_len(dd) ==> #[trigger] self.excess(
                dd,
                j,
            ) == before.excess(dd, j) + (if dd == d && j == i {
                delta
            } else {
                0
            }) || self.count_at(dd, j) == usize::MAX
    }

    /// Every live node is well-formed at some height within its dimension's
    /// width: the live nodes form no cycle.
    pub open spec fn ranked(&self) -> bool {
        forall|d: int, i: int|
            0 <= d < self.ndims() && #[trigger] self.slot_live(d, i) ==> exists|h: nat|
                h <= self.width(d) && self.wf_node(d, h, i)
    }

    /// Slot `i` of level `d` is live and has a reference to spare: whoever
    /// took that reference holds the slot, and no flush reclaims it.
    pub open spec fn held(&self, d: int, i: int) -> bool {
        self.slot_live(d, i) && self.spare(d, i)
    }

    /// Slot `i` of level `d` is live with count zero: it was made, and
    /// nothing has taken a reference to it yet.
    pub open spec fn loose(&self, d: int, i: int) -> bool {
        0 <= d <= self.ndims() && self.slot_live(d, i) && self.count_at(d, i) == 0
    }

    /// No slot is loose: every slot with count zero is on the free list of
    /// its pool.
    pub open spec fn settled(&self) -> bool {
        forall|d: int, i: int| !#[trigger] self.loose(d, i)
    }

    /// The live slots of all pools, each as its level and its index.
    pub open spec fn live_set(&self) -> Set<(int, int)> {
        Set::new(|s: (int, int)| self.slot_live(s.0, s.1))
    }

    /// The invariant of a cube between operations.
    pub open spec fn inv(&self) -> bool {
        &&& self.shape_ok()
        &&& self.closed()
        &&& self.counted()
        &&& self.pending_ok()
        &&& self.live_set().finite()
        &&& self.wf_ptr(0, self.width(0), self.base_root)
    }

    /// `self` is a later state of `before`: the same dimensions, and every
    /// slot that was live is still live and holds the same links or summary.
    pub open spec fn extends(&self, before: &Self) -> bool {
        &&& self.dims@.len() == before.dims@.len()
        &&& forall|d: int|
            0 <= d < self.dims@.len() ==> (#[trigger] self.dims@[d]).width == before.dims@[d].width
        &&& forall|d: int, i: int|
            0 <= d < before.ndims() && #[trigger] before.slot_live(d, i) ==> self.slot_live(d, i)
                && same_links(self.node(d, i), before.node(d, i))
        &&& forall|i: int| #[trigger]
            before.summaries.live(i) ==> self.summaries.live(i) && self.summaries.values@[i]
                == before.summaries.values@[i]
    }
}

impl<Summary: Monoid + PartialOrd + Copy> Nanocube<Summary> {
    /// An empty cube with one dimension for each of `widths`, of that many
    /// bits. It answers every query with the identity.
    pub fn new(widths: Vec<usize>) -> (nc: Nanocube<Summary>)
        requires
            widths@.len() > 0,
            forall|d: int| 0 <= d < widths@.len() ==> 1 <= #[trigger] widths@[d] < usize::BITS,
        ensures
            nc.inv(),
            nc.base_root is None,
            nc.widths() == widths@,
            nc.pending().len() == 0,
            forall|d: int| 0 <= d <= nc.ndims() ==> #[trigger] nc.pool_len(d) == 0,
            forall|d: int| 0 <= d <= nc.ndims() ==> #[trigger] nc.free_count(d) == 0,
            forall|q: Seq<(usize, usize)>| #[trigger] nc.answer_to(q) == Summary::identity(),
            nc.settled(),
            nc.balanced(),
            nc.ranked(),
            nc.unmarked(),
    {
        let mut dims: Vec<NCDim> = Vec::new();
        let mut i: usize = 0;
        while i < widths.len()
            invariant
                0 <= i <= widths@.len(),
                dims@.len() == i,
                forall|d: int| 0 <= d < widths@.len() ==> 1 <= #[trigger] widths@[d] < usize::BITS,
                forall|d: int|
                    0 <= d < i ==> {
                        &&& (#[trigger] dims@[d]).width == widths@[d]
                        &&& dims@[d].nodes.wf()
                        &&& dims@[d].nodes.values@.len() == 0
                        &&& dims@[d].nodes.free_list@.len() == 0
                    },
            decreases widths@.len() - i,
        {
            dims.push(NCDim::new(widths[i]));
            i = i + 1;
        }
        let nc = Nanocube {
            base_root: None,
            dims,
            summaries: RefCountedVec::new(),
            release_list: Vec::new(),
        };
        proof {
            assert(nc.widths() =~= widths@);
            assert forall|d: int, k: int| !nc.slot_live(d, k) by {}
            assert(nc.live_set() =~= Set::<(int, int)>::empty());
            assert(nc.shape_ok()) by {
                assert forall|d: int| 0 <= d < nc.dims@.len() implies 1 <= (#[trigger] nc.dims@[d]).width
                    < usize::BITS by {
                    assert(1 <= widths@[d] < usize::BITS);
                }
            }
        }
        nc
    }

    /// A copy of the node in slot `node_index` of dimension `dim`.
    #[inline]
    pub fn get_node(&self, dim: usize, node_index: NodePointerType) -> (n: NCDimNode)
        requires
            dim < self.dims@.len(),
            node_index is Some,
            node_index.unwrap() < self.dims@[dim as int].nodes.values@.len(),
        ensures
            n == self.node(dim as int, node_index.unwrap() as int),
    {
        *self.dims[dim].at(node_index)
    }

    /// The node has both children.
    #[inline]
    pub fn node_is_branching(&self, dim: usize, node_index: NodePointerType) -> (b: bool)
        requires
            dim < self.dims@.len(),
            node_index is Some,
            node_index.unwrap() < self.dims@[dim as int].nodes.values@.len(),
        ensures
            b == (self.node(dim as int, node_index.unwrap() as int).left is Some && self.node(
                dim as int,
                node_index.unwrap() as int,
            ).right is Some),
    {
        let n = self.dims[dim].at(node_index);
        n.left.is_some() && n.right.is_some()
    }

    /// The node has no children.
    pub fn node_is_leaf(&self, dim: usize, node_index: NodePointerType) -> (b: bool)
        requires
            dim < self.dims@.len(),
            node_index is Some,
            node_index.unwrap() < self.dims@[dim as int].nodes.values@.len(),
        ensures
            b == (self.node(dim as int, node_index.unwrap() as int).left is None && self.node(
                dim as int,
                node_index.unwrap() as int,
            ).right is None),
    {
        let n = self.dims[dim].at(node_index);
        n.left.is_none() && n.right.is_none()
    }

    /// The node carries no mark.
    pub fn node_is_unmarked(&self, dim: usize, node_index: NodePointerType) -> (b: bool)
        requires
            dim < self.dims@.len(),
            node_index is Some,
            node_index.unwrap() < self.dims@[dim as int].nodes.values@.len(),
        ensures
            b == (self.node(dim as int, node_index.unwrap() as int).flags == 0),
    {
        let n = self.dims[dim].at(node_index);
        n.flags == 0
    }
}

} // verus!
