//! Range queries: the walk over the cube that combines the summaries of the
//! points inside a box.

use crate::cube::{lemma_identity_right, range_contains, range_overlaps, Cube, Monoid};
use crate::nanocube::{same_links, NCDimNode, Nanocube, NodePointerType};
use vstd::arithmetic::power2::{lemma_pow2_pos, lemma_pow2_unfold, pow2};
use vstd::bits::{lemma_usize_pow2_no_overflow, lemma_usize_shl_is_mul, lemma_usize_shr_is_div};
use vstd::prelude::*;

verus! {

/// A half-open range `[lo, up)` of coordinates.
pub struct Range {
    pub lo: usize,
    pub up: usize,
}

impl Range {
    /// The pair of the bounds.
    pub open spec fn bounds(&self) -> (usize, usize) {
        (self.lo, self.up)
    }

    /// The whole range of a dimension of `width` bits.
    pub fn new_from_width(width: usize) -> (r: Range)
        requires
            width < usize::BITS,
        ensures
            r.lo == 0,
            r.up == pow2(width as nat),
    {
        proof {
            lemma_usize_pow2_no_overflow(width as nat);
            lemma_usize_shl_is_mul(1, width);
        }
        Range { lo: 0, up: 1usize << width }
    }

    /// `self` holds every point of `other`.
    pub fn contains(&self, other: &Range) -> (b: bool)
        ensures
            b == range_contains(self.bounds(), other.lo as int, other.up as int),
    {
        self.lo <= other.lo && other.up <= self.up
    }

    /// `other` lies wholly to one side of `self`.
    pub fn not_overlaps(&self, other: &Range) -> (b: bool)
        ensures
            b == !range_overlaps(self.bounds(), other.lo as int, other.up as int),
    {
        other.up <= self.lo || self.up <= other.lo
    }

    /// `other` does not lie wholly to one side of `self`.
    pub fn overlaps(&self, other: &Range) -> (b: bool)
        ensures
            b == range_overlaps(self.bounds(), other.lo as int, other.up as int),
    {
        !self.not_overlaps(other)
    }

    /// The lower half of the range. The middle is computed from the length,
    /// so that no sum of two bounds can overflow.
    pub fn lo_subrange(&self) -> (r: Range)
        requires
            self.lo <= self.up,
        ensures
            r.lo == self.lo,
            r.up == self.lo + (self.up - self.lo) / 2,
    {
        proof {
            lemma_half(self.up, self.lo);
        }
        Range { lo: self.lo, up: self.lo + ((self.up - self.lo) >> 1) }
    }

    /// The upper half of the range.
    pub fn up_subrange(&self) -> (r: Range)
        requires
            self.lo <= self.up,
        ensures
            r.lo == self.lo + (self.up - self.lo) / 2,
            r.up == self.up,
    {
        proof {
            lemma_half(self.up, self.lo);
        }
        Range { lo: self.lo + ((self.up - self.lo) >> 1), up: self.up }
    }
}

/// Shifting a length right by one halves it.
proof fn lemma_half(up: usize, lo: usize)
    requires
        lo <= up,
    ensures
        ((up - lo) as usize >> 1usize) == (up - lo) / 2,
{
    let x = (up - lo) as usize;
    lemma_usize_shr_is_div(x, 1);
    assert(pow2(1) == 2) by {
        vstd::arithmetic::power2::lemma2_to64();
    }
}

/// An entry of a work list: a node and the range that it stands for.
pub type WorkItem = (Range, NodePointerType);

/// The number of positions in a full refinement of height `h`.
pub open spec fn full_size(h: nat) -> nat {
    (pow2(h + 1) - 1) as nat
}

/// The number of steps that a work list with these heights can still take.
pub open spec fn work_weight(heights: Seq<nat>) -> nat
    decreases heights.len(),
{
    if heights.len() == 0 {
        0
    } else {
        work_weight(heights.drop_last()) + full_size(heights.last())
    }
}

/// A position is worth one step more than the two positions below it.
pub proof fn lemma_full_size(h: nat)
    ensures
        full_size(h) >= 1,
        h > 0 ==> full_size(h) == 2 * full_size((h - 1) as nat) + 1,
{
    lemma_pow2_pos(h + 1);
    lemma_pow2_pos(h);
    lemma_pow2_unfold(h + 1);
}

impl<Summary: Monoid> Nanocube<Summary> {
    /// `work`, with the height of each entry in `heights`, is a work list of
    /// level `d`: every entry's range has the size of its height, its node is
    /// null or well-formed at that height, and an entry of height zero
    /// overlaps the query.
    pub open spec fn work_ok(
        &self,
        d: int,
        work: Seq<WorkItem>,
        heights: Seq<nat>,
        q: Seq<(usize, usize)>,
    ) -> bool {
        &&& work.len() == heights.len()
        &&& forall|k: int|
            0 <= k < work.len() ==> {
                &&& (#[trigger] work[k]).0.up == work[k].0.lo + pow2(heights[k])
                &&& self.wf_ptr(d, heights[k], work[k].1)
                &&& heights[k] == 0 ==> range_overlaps(
                    q[d],
                    work[k].0.lo as int,
                    work[k].0.up as int,
                )
            }
    }

    /// The combined answer of the entries of a work list of level `d`.
    pub open spec fn work_sum(
        &self,
        d: int,
        work: Seq<WorkItem>,
        heights: Seq<nat>,
        q: Seq<(usize, usize)>,
    ) -> Summary
        decreases work.len(),
    {
        if work.len() == 0 {
            Summary::identity()
        } else {
            self.work_sum(d, work.drop_last(), heights.drop_last(), q).combine(
                self.sub_answer(d, heights.last(), work.last().1, work.last().0.lo as int, q),
            )
        }
    }

    /// A work list grown by one entry: its properties, its sum and its weight.
    pub proof fn lemma_work_push(
        &self,
        d: int,
        work: Seq<WorkItem>,
        heights: Seq<nat>,
        q: Seq<(usize, usize)>,
        item: WorkItem,
        h: nat,
    )
        requires
            self.work_ok(d, work, heights, q),
            item.0.up == item.0.lo + pow2(h),
            self.wf_ptr(d, h, item.1),
            h == 0 ==> range_overlaps(q[d], item.0.lo as int, item.0.up as int),
        ensures
            self.work_ok(d, work.push(item), heights.push(h), q),
            self.work_sum(d, work.push(item), heights.push(h), q) == self.work_sum(
                d,
                work,
                heights,
                q,
            ).combine(self.sub_answer(d, h, item.1, item.0.lo as int, q)),
            work_weight(heights.push(h)) == work_weight(heights) + full_size(h),
    {
        assert(work.push(item).drop_last() == work);
        assert(heights.push(h).drop_last() == heights);
    }

    /// A work list without its last entry: its properties, its sum and its
    /// weight.
    pub proof fn lemma_work_pop(
        &self,
        d: int,
        work: Seq<WorkItem>,
        heights: Seq<nat>,
        q: Seq<(usize, usize)>,
    )
        requires
            self.work_ok(d, work, heights, q),
            work.len() > 0,
        ensures
            self.work_ok(d, work.drop_last(), heights.drop_last(), q),
            self.work_sum(d, work, heights, q) == self.work_sum(
                d,
                work.drop_last(),
                heights.drop_last(),
                q,
            ).combine(
                self.sub_answer(d, heights.last(), work.last().1, work.last().0.lo as int, q),
            ),
            work_weight(heights) == work_weight(heights.drop_last()) + full_size(heights.last()),
    {
        let w = work.drop_last();
        let hs = heights.drop_last();
        assert forall|k: int| 0 <= k < w.len() implies {
            &&& (#[trigger] w[k]).0.up == w[k].0.lo + pow2(hs[k])
            &&& self.wf_ptr(d, hs[k], w[k].1)
            &&& hs[k] == 0 ==> range_overlaps(q[d], w[k].0.lo as int, w[k].0.up as int)
        } by {
            assert(w[k] == work[k]);
            assert(hs[k] == heights[k]);
        }
    }
}

/// Puts onto `work` the halves of `range` that the query overlaps, each with
/// the child of `node` that stands for it.
fn push_halves<Summary: Monoid + PartialOrd + Copy>(
    nc: &Nanocube<Summary>,
    work: &mut Vec<WorkItem>,
    range: Range,
    node: NCDimNode,
    query_range: &Range,
    Ghost(d): Ghost<int>,
    Ghost(h): Ghost<nat>,
    Ghost(x): Ghost<int>,
    Ghost(heights): Ghost<Seq<nat>>,
    Ghost(q): Ghost<Seq<(usize, usize)>>,
) -> (new_heights: Ghost<Seq<nat>>)
    requires
        0 <= d < nc.ndims(),
        0 <= x <= usize::MAX,
        h > 0,
        nc.wf_node(d, h, x),
        same_links(node, nc.node(d, x)),
        range.up == range.lo + pow2(h),
        query_range.bounds() == q[d],
        !range_contains(q[d], range.lo as int, range.up as int),
        nc.work_ok(d, old(work)@, heights, q),
    ensures
        nc.work_ok(d, final(work)@, new_heights@, q),
        nc.work_sum(d, final(work)@, new_heights@, q) == nc.work_sum(d, old(work)@, heights, q).combine(
            nc.sub_answer(d, h, Some(x as usize), range.lo as int, q),
        ),
        work_weight(new_heights@) + 1 <= work_weight(heights) + full_size(h),
{
    let ghost hh = (h - 1) as nat;
    let ghost w0 = work@;
    let ghost base = nc.work_sum(d, w0, heights, q);
    proof {
        lemma_pow2_unfold(h);
        lemma_pow2_pos(hh);
        lemma_full_size(h);
    }
    let lo = range.lo_subrange();
    let hi = range.up_subrange();
    let ghost left_part = nc.sub_answer(d, hh, node.left, lo.lo as int, q);
    let ghost right_part = nc.sub_answer(d, hh, node.right, hi.lo as int, q);
    let mut hs: Ghost<Seq<nat>> = Ghost(heights);
    if query_range.overlaps(&lo) {
        proof {
            nc.lemma_work_push(d, work@, hs@, q, (lo, node.left), hh);
            hs@ = hs@.push(hh);
        }
        work.push((lo, node.left));
    } else {
        proof {
            assert(left_part == Summary::identity());
            lemma_identity_right(base);
        }
    }
    let ghost w1 = work@;
    let ghost mid_sum = nc.work_sum(d, w1, hs@, q);
    assert(mid_sum == base.combine(left_part));
    if query_range.overlaps(&hi) {
        proof {
            nc.lemma_work_push(d, work@, hs@, q, (hi, node.right), hh);
            hs@ = hs@.push(hh);
        }
        work.push((hi, node.right));
    } else {
        proof {
            assert(right_part == Summary::identity());
            lemma_identity_right(mid_sum);
        }
    }
    proof {
        Summary::lemma_associative(base, left_part, right_part);
        if !range_overlaps(q[d], range.lo as int, range.up as int) {
            assert(left_part == Summary::identity());
            assert(right_part == Summary::identity());
            Summary::lemma_identity(Summary::identity());
        }
    }
    hs
}

/// Answers the query `bounds` on `nc`.
///
/// Works through one dimension after the other. In each it starts from the
/// nodes that the dimension before led to, with the whole range, and descends:
/// a node whose range lies inside the query, or that has no children, stands
/// for everything below it and hands on its `next`; any other node hands on
/// its halves that the query overlaps. In the last dimension what is handed
/// on are summaries, which are combined.
pub fn nanocube_range_query<S>(nc: &Nanocube<S>, bounds: &Vec<(usize, usize)>) -> (r: S) where
    S: Monoid + PartialOrd + Copy,

    requires
        nc.inv(),
        bounds@.len() == nc.ndims(),
    ensures
        r == nc.answer_to(bounds@),
{
    let ghost q = bounds@;
    let n = nc.dims.len();
    let mut dim: usize = 0;
    let mut dim_range_list = Vec::<WorkItem>::new();
    let mut next_dim_range_list = Vec::<WorkItem>::new();
    let mut heights: Ghost<Seq<nat>> = Ghost(Seq::empty());
    assert(nc.dims@[0].width < usize::BITS);
    proof {
        let item: WorkItem = (Range { lo: 0, up: pow2(nc.width(0)) as usize }, nc.base_root);
        lemma_usize_pow2_no_overflow(nc.width(0));
        nc.lemma_work_push(0, dim_range_list@, heights@, q, item, nc.width(0));
        S::lemma_identity(nc.answer_to(q));
        heights@ = heights@.push(nc.width(0));
    }
    dim_range_list.push((Range::new_from_width(nc.dims[dim].width), nc.base_root));
    // the links into further dimensions
    while dim < n - 1
        invariant
            nc.inv(),
            n == nc.dims@.len(),
            q == bounds@,
            q.len() == n,
            dim < n,
            next_dim_range_list@.len() == 0,
            nc.work_ok(dim as int, dim_range_list@, heights@, q),
            nc.answer_to(q) == nc.work_sum(dim as int, dim_range_list@, heights@, q),
        decreases n - dim,
    {
        let query_range = Range { lo: bounds[dim].0, up: bounds[dim].1 };
        let mut next_heights: Ghost<Seq<nat>> = Ghost(Seq::empty());
        let ghost d = dim as int;
        let ghost w1 = nc.width(d + 1);
        assert(nc.dims@[d + 1].width < usize::BITS);
        proof {
            S::lemma_identity(nc.answer_to(q));
            lemma_identity_right(nc.answer_to(q));
        }
        while dim_range_list.len() > 0
            invariant
                nc.inv(),
                n == nc.dims@.len(),
                q == bounds@,
                q.len() == n,
                dim < n - 1,
                d == dim,
                w1 == nc.width(d + 1),
                1 <= w1 < usize::BITS,
                query_range.bounds() == q[d],
                nc.work_ok(d, dim_range_list@, heights@, q),
                nc.work_ok(d + 1, next_dim_range_list@, next_heights@, q),
                forall|k: int| 0 <= k < next_heights@.len() ==> next_heights@[k] == w1,
                nc.answer_to(q) == nc.work_sum(d, dim_range_list@, heights@, q).combine(
                    nc.work_sum(d + 1, next_dim_range_list@, next_heights@, q),
                ),
            decreases work_weight(heights@),
        {
            let ghost w_before = dim_range_list@;
            let ghost h_before = heights@;
            proof {
                nc.lemma_work_pop(d, w_before, h_before, q);
            }
            let (current_range, node_index) = dim_range_list.pop().unwrap();
            let ghost h = h_before.last();
            let ghost rest = nc.work_sum(d, w_before.drop_last(), h_before.drop_last(), q);
            let ghost onward = nc.work_sum(d + 1, next_dim_range_list@, next_heights@, q);
            let ghost here = nc.sub_answer(d, h, node_index, current_range.lo as int, q);
            proof {
                heights@ = h_before.drop_last();
                lemma_full_size(h);
                lemma_pow2_pos(h);
                assert(dim_range_list@ == w_before.drop_last());
            }
            if node_index.is_none() {
                proof {
                    lemma_identity_right(rest);
                }
            } else {
                let ghost x = node_index.unwrap() as int;
                assert(nc.wf_node(d, h, x));
                assert(nc.slot_live(d, x));
                let current_node = nc.get_node(dim, node_index);
                if query_range.contains(&current_range) || (current_node.left.is_none()
                    && current_node.right.is_none()) {
                    proof {
                        assert(here == nc.next_answer(d + 1, current_node.next, q));
                        let item: WorkItem = (
                            Range { lo: 0, up: pow2(w1) as usize },
                            current_node.next,
                        );
                        lemma_usize_pow2_no_overflow(w1);
                        nc.lemma_work_push(
                            d + 1,
                            next_dim_range_list@,
                            next_heights@,
                            q,
                            item,
                            w1,
                        );
                        // (rest + here) + onward == rest + (onward + here)
                        S::lemma_associative(rest, here, onward);
                        S::lemma_commutative(here, onward);
                        S::lemma_associative(rest, onward, here);
                        next_heights@ = next_heights@.push(w1);
                    }
                    next_dim_range_list.push(
                        (Range::new_from_width(nc.dims[dim + 1].width), current_node.next),
                    );
                } else {
                    let new_heights = push_halves(
                        nc,
                        &mut dim_range_list,
                        current_range,
                        current_node,
                        &query_range,
                        Ghost(d),
                        Ghost(h),
                        Ghost(x),
                        Ghost(heights@),
                        Ghost(q),
                    );
                    proof {
                        heights@ = new_heights@;
                    }
                }
            }
        }
        proof {
            S::lemma_identity(nc.work_sum(d + 1, next_dim_range_list@, next_heights@, q));
            assert(dim_range_list@ + next_dim_range_list@ == next_dim_range_list@);
            heights@ = next_heights@;
        }
        dim_range_list.append(&mut next_dim_range_list);
        dim += 1;
    }
    let mut result = S::mempty();
    let query_range = Range { lo: bounds[dim].0, up: bounds[dim].1 };
    let ghost d = dim as int;
    proof {
        S::lemma_identity(nc.answer_to(q));
    }
    // the links into the summaries
    while dim_range_list.len() > 0
        invariant
            nc.inv(),
            n == nc.dims@.len(),
            q == bounds@,
            q.len() == n,
            dim == n - 1,
            d == dim,
            query_range.bounds() == q[d],
            nc.work_ok(d, dim_range_list@, heights@, q),
            nc.answer_to(q) == result.combine(nc.work_sum(d, dim_range_list@, heights@, q)),
        decreases work_weight(heights@),
    {
        let ghost w_before = dim_range_list@;
        let ghost h_before = heights@;
        proof {
            nc.lemma_work_pop(d, w_before, h_before, q);
        }
        let (current_range, node_index) = dim_range_list.pop().unwrap();
        let ghost h = h_before.last();
        let ghost rest = nc.work_sum(d, w_before.drop_last(), h_before.drop_last(), q);
        let ghost here = nc.sub_answer(d, h, node_index, current_range.lo as int, q);
        proof {
            heights@ = h_before.drop_last();
            lemma_full_size(h);
            lemma_pow2_pos(h);
            assert(dim_range_list@ == w_before.drop_last());
        }
        if node_index.is_none() {
            proof {
                lemma_identity_right(rest);
            }
        } else {
            let ghost x = node_index.unwrap() as int;
            assert(nc.wf_node(d, h, x));
            assert(nc.slot_live(d, x));
            let current_node = nc.get_node(dim, node_index);
            if query_range.contains(&current_range) || (current_node.left.is_none()
                && current_node.right.is_none()) {
                proof {
                    let nx = current_node.next.unwrap() as int;
                    assert(nc.wf_node(d + 1, nc.width(d + 1), nx));
                    assert(nc.sub_answer(d + 1, nc.width(d + 1), current_node.next, 0, q)
                        == nc.summaries.values@[nx]);
                    assert(here == nc.next_answer(d + 1, current_node.next, q));
                    assert(here == nc.summaries.values@[nx]);
                    // result + (rest + here) == (result + here) + rest
                    S::lemma_associative(result, rest, here);
                    S::lemma_commutative(rest, here);
                    S::lemma_associative(result, here, rest);
                }
                result = result.mapply(&nc.summaries.values[current_node.next.unwrap()]);
            } else {
                let ghost before_sum = nc.work_sum(d, dim_range_list@, heights@, q);
                let new_heights = push_halves(
                    nc,
                    &mut dim_range_list,
                    current_range,
                    current_node,
                    &query_range,
                    Ghost(d),
                    Ghost(h),
                    Ghost(x),
                    Ghost(heights@),
                    Ghost(q),
                );
                proof {
                    heights@ = new_heights@;
                }
            }
        }
    }
    proof {
        lemma_identity_right(result);
    }
    result
}

impl<Summary: Monoid + PartialOrd + Copy> Cube<Summary> for Nanocube<Summary> {
    /// A cube can be queried whenever its invariant holds.
    open spec fn queryable(&self) -> bool {
        self.inv()
    }

    /// A box has one range for each dimension.
    open spec fn accepts(&self, bounds: Seq<(usize, usize)>) -> bool {
        bounds.len() == self.ndims()
    }

    open spec fn answer(&self, bounds: Seq<(usize, usize)>) -> Summary {
        self.answer_to(bounds)
    }

    fn range_query(&self, bounds: &Vec<(usize, usize)>) -> (r: Summary) {
        nanocube_range_query(self, bounds)
    }
}

} // verus!
