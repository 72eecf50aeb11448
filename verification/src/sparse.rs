//! Traversals that scout a cube along an address: the sparse spine, which
//! keeps of a descent only the nodes where the cube branches, and the marks
//! that keep a traversal from taking a node twice.

use crate::cube::Monoid;
use crate::insert::{get_bit, step_level};
use crate::nanocube::{covers, same_links, Nanocube, NodePointerType, Referrer};
use crate::spine::SpineEntry;
use vstd::prelude::*;

verus! {

impl<Summary: Monoid> Nanocube<Summary> {
    /// `self` differs from `before` in the marks of nodes at most.
    pub open spec fn same_but_flags(&self, before: &Self) -> bool {
        &&& self.base_root == before.base_root
        &&& self.release_list@ == before.release_list@
        &&& self.dims@.len() == before.dims@.len()
        &&& forall|d: int|
            0 <= d < self.dims@.len() ==> {
                &&& (#[trigger] self.dims@[d]).width == before.dims@[d].width
                &&& self.dims@[d].nodes.values@.len() == before.dims@[d].nodes.values@.len()
                &&& self.dims@[d].nodes.free_list@ == before.dims@[d].nodes.free_list@
                &&& self.dims@[d].nodes.ref_counts@ == before.dims@[d].nodes.ref_counts@
            }
        &&& forall|d: int, i: int|
            0 <= d < self.dims@.len() && 0 <= i < self.dims@[d].nodes.values@.len()
                ==> same_links(#[trigger] self.node(d, i), before.node(d, i))
        &&& self.summaries.values@ == before.summaries.values@
        &&& self.summaries.free_list@ == before.summaries.free_list@
        &&& self.summaries.ref_counts@ == before.summaries.ref_counts@
    }

    /// Marks are not part of what a cube holds: states that differ in marks
    /// only satisfy the invariant together, and give the same answers.
    pub proof fn lemma_same_but_flags(&self, before: &Self)
        requires
            self.same_but_flags(before),
            before.inv(),
        ensures
            self.inv(),
            self.extends(before),
            before.extends(self),
            self.widths() == before.widths(),
            forall|q: Seq<(usize, usize)>| #[trigger] self.answer_to(q) == before.answer_to(q),
            forall|d: int, i: int| #[trigger] self.slot_live(d, i) == before.slot_live(d, i),
            forall|d: int| #[trigger] self.pool_len(d) == before.pool_len(d),
            before.settled() ==> self.settled(),
            before.ranked() ==> self.ranked(),
            before.balanced() ==> self.balanced(),
    {
        assert forall|d: int, i: int| #[trigger]
            self.slot_live(d, i) == before.slot_live(d, i) by {
            if 0 <= d < self.dims@.len() {
                assert(self.dims@[d].nodes.free_list@ == before.dims@[d].nodes.free_list@);
                assert(self.dims@[d].nodes.is_free(i) == before.dims@[d].nodes.is_free(i));
            } else if d == self.dims@.len() {
                assert(self.summaries.is_free(i) == before.summaries.is_free(i));
            }
        }
        assert forall|d: int| #[trigger] self.pool_len(d) == before.pool_len(d) by {
            if 0 <= d < self.dims@.len() {
                assert(self.dims@[d].nodes.values@.len() == before.dims@[d].nodes.values@.len());
            }
        }
        assert(self.live_set() =~= before.live_set());
        assert(self.widths() =~= before.widths());
        assert forall|d: int, i: int| #[trigger] self.loose(d, i) implies before.loose(d, i) by {
            assert(self.slot_live(d, i) == before.slot_live(d, i));
            if 0 <= d < self.ndims() {
                assert(self.dims@[d].nodes.ref_counts@ == before.dims@[d].nodes.ref_counts@);
            }
        }
        assert(self.shape_ok()) by {
            assert forall|d: int| 0 <= d < self.dims@.len() implies 1 <= (#[trigger] self.dims@[d]).width
                < usize::BITS by {
                assert(1 <= before.dims@[d].width < usize::BITS);
            }
            assert forall|d: int| 0 <= d < self.dims@.len() implies (#[trigger] self.dims@[d]).nodes.wf() by {
                assert(before.dims@[d].nodes.wf());
                assert(self.dims@[d].nodes.values@.len() == before.dims@[d].nodes.values@.len());
            }
        }
        assert forall|d: int, i: int| #[trigger] self.referrers(d, i) == before.referrers(d, i) by {
            assert forall|r: Referrer| self.refers(r, d, i) == before.refers(r, d, i) by {
                match r {
                    Referrer::Left { dim, slot } => {
                        if 0 <= dim < self.ndims() && self.slot_live(dim, slot) {
                            assert(same_links(self.node(dim, slot), before.node(dim, slot)));
                        }
                    },
                    Referrer::Right { dim, slot } => {
                        if 0 <= dim < self.ndims() && self.slot_live(dim, slot) {
                            assert(same_links(self.node(dim, slot), before.node(dim, slot)));
                        }
                    },
                    Referrer::Next { dim, slot } => {
                        if 0 <= dim < self.ndims() && self.slot_live(dim, slot) {
                            assert(same_links(self.node(dim, slot), before.node(dim, slot)));
                        }
                    },
                    _ => {},
                }
            }
            assert(self.referrers(d, i) =~= before.referrers(d, i));
        }
        assert(self.counted()) by {
            assert forall|d: int, i: int| 0 <= d <= self.ndims() && 0 <= i < self.pool_len(d) implies {
                &&& (#[trigger] self.referrers(d, i)).finite()
                &&& covers(self.count_at(d, i), self.referrers(d, i).len())
            } by {
                assert(self.referrers(d, i) == before.referrers(d, i));
                assert(self.pool_len(d) == before.pool_len(d));
                assert(before.referrers(d, i).finite());
                if d < self.ndims() {
                    assert(self.dims@[d].nodes.ref_counts@ == before.dims@[d].nodes.ref_counts@);
                }
            }
        }
        assert(self.closed()) by {
            assert forall|d: int, i: int|
                0 <= d < self.ndims() && #[trigger] self.slot_live(d, i) implies {
                &&& self.ptr_live(d, self.node(d, i).left)
                &&& self.ptr_live(d, self.node(d, i).right)
                &&& self.ptr_live(d + 1, self.node(d, i).next)
            } by {
                assert(before.slot_live(d, i));
                let n = before.node(d, i);
                assert(same_links(self.node(d, i), n));
                if n.left is Some {
                    assert(self.slot_live(d, n.left.unwrap() as int) == before.slot_live(
                        d,
                        n.left.unwrap() as int,
                    ));
                }
                if n.right is Some {
                    assert(self.slot_live(d, n.right.unwrap() as int) == before.slot_live(
                        d,
                        n.right.unwrap() as int,
                    ));
                }
                if n.next is Some {
                    assert(self.slot_live(d + 1, n.next.unwrap() as int) == before.slot_live(
                        d + 1,
                        n.next.unwrap() as int,
                    ));
                }
            }
        }
        assert(self.pending_ok()) by {
            assert forall|k: int| 0 <= k < self.pending().len() implies {
                &&& (#[trigger] self.pending()[k]).0 is Some
                &&& self.pending()[k].1 <= self.ndims()
                &&& self.pending()[k].0.unwrap() < self.pool_len(self.pending()[k].1 as int)
            } by {
                assert(self.pool_len(before.pending()[k].1 as int) == before.pool_len(
                    before.pending()[k].1 as int,
                ));
            }
        }
        assert(self.extends(before)) by {
            assert forall|d: int, i: int|
                0 <= d < before.ndims() && #[trigger] before.slot_live(
                    d,
                    i,
                ) implies self.slot_live(d, i) && same_links(self.node(d, i), before.node(d, i)) by {
                assert(self.slot_live(d, i) == before.slot_live(d, i));
            }
            assert forall|i: int| #[trigger] before.summaries.live(i) implies self.summaries.live(
                i,
            ) && self.summaries.values@[i] == before.summaries.values@[i] by {
                assert(self.slot_live(self.ndims(), i) == before.slot_live(self.ndims(), i));
            }
        }
        assert(before.extends(self)) by {
            assert forall|d: int, i: int|
                0 <= d < self.ndims() && #[trigger] self.slot_live(d, i) implies before.slot_live(
                d,
                i,
            ) && same_links(before.node(d, i), self.node(d, i)) by {
                assert(self.slot_live(d, i) == before.slot_live(d, i));
                assert(same_links(self.node(d, i), before.node(d, i)));
            }
            assert forall|i: int| #[trigger] self.summaries.live(i) implies before.summaries.live(
                i,
            ) && before.summaries.values@[i] == self.summaries.values@[i] by {
                assert(self.slot_live(self.ndims(), i) == before.slot_live(self.ndims(), i));
            }
        }
        self.lemma_extends_ptr(before, 0, before.width(0), before.base_root);
        assert(self.width(0) == before.width(0)) by {
            assert(self.dims@[0].width == before.dims@[0].width);
        }
        if before.ranked() {
            assert forall|d: int, i: int|
                0 <= d < self.ndims() && #[trigger] self.slot_live(d, i) implies before.slot_live(
                d,
                i,
            ) || Set::<(int, int)>::empty().contains((d, i)) by {
                assert(self.slot_live(d, i) == before.slot_live(d, i));
            }
            self.lemma_ranked_extended(before, Set::empty());
        }
        if before.balanced() {
            assert forall|d: int, i: int|
                0 <= d <= self.ndims() && 0 <= i < self.pool_len(d) implies #[trigger] self.excess(
                d,
                i,
            ) == 0 || self.count_at(d, i) == usize::MAX by {
                assert(self.referrers(d, i) == before.referrers(d, i));
                assert(self.pool_len(d) == before.pool_len(d));
                assert(before.excess(d, i) == 0 || before.count_at(d, i) == usize::MAX);
                if 0 <= d < self.ndims() {
                    assert(self.dims@[d].nodes.ref_counts@ == before.dims@[d].nodes.ref_counts@);
                }
            }
        }
    }

    /// The summary that the chain of `next` links from `p`, a pointer at level
    /// `d`, ends in; null if the chain breaks off.
    pub open spec fn summary_index(&self, d: int, p: NodePointerType) -> NodePointerType
        decreases self.ndims() - d,
    {
        if d < 0 || d >= self.ndims() || p is None {
            p
        } else {
            self.summary_index(d + 1, self.node(d, p.unwrap() as int).next)
        }
    }

    /// A descent keeps `e` in its sparse spine: its node has both children,
    /// or is a leaf of the last dimension.
    pub open spec fn sparse_keep(&self, e: SpineEntry) -> bool {
        &&& e.0 is Some
        &&& e.1 < self.ndims()
        &&& {
            let n = self.node(e.1 as int, e.0.unwrap() as int);
            ||| n.left is Some && n.right is Some
            ||| e.1 == self.ndims() - 1 && n.left is None && n.right is None
        }
    }

    /// The entries of `path` that a sparse spine keeps, in order.
    pub open spec fn sparse_of(&self, path: Seq<SpineEntry>) -> Seq<SpineEntry>
        decreases path.len(),
    {
        if path.len() == 0 {
            Seq::empty()
        } else if self.sparse_keep(path[0]) {
            seq![path[0]] + self.sparse_of(path.drop_first())
        } else {
            self.sparse_of(path.drop_first())
        }
    }
}

/// The node that an entry names: its level and its slot.
pub open spec fn node_of(e: SpineEntry) -> (int, int) {
    (e.1 as int, e.0.unwrap() as int)
}

/// The nodes that the entries of `entries` name.
pub open spec fn nodes_of(entries: Seq<SpineEntry>) -> Set<(int, int)> {
    Set::new(|s: (int, int)| exists|k: int| 0 <= k < entries.len() && node_of(#[trigger] entries[k]) == s)
}

impl<Summary: Monoid> Nanocube<Summary> {
    /// The nodes that carry a mark.
    pub open spec fn marked_set(&self) -> Set<(int, int)> {
        Set::new(
            |s: (int, int)|
                0 <= s.0 < self.ndims() && 0 <= s.1 < self.pool_len(s.0) && self.node(s.0, s.1).flags
                    != 0,
        )
    }

    /// The entries of `path` that a marking traversal takes, going through
    /// `path` in order with the nodes of `marked` marked at the start: those
    /// that a sparse spine keeps and whose node is not marked when the
    /// traversal comes to it. The traversal marks what it takes.
    pub open spec fn marked_of(&self, path: Seq<SpineEntry>, marked: Set<(int, int)>) -> Seq<
        SpineEntry,
    >
        decreases path.len(),
    {
        if path.len() == 0 {
            Seq::empty()
        } else if self.sparse_keep(path[0]) && !marked.contains(node_of(path[0])) {
            seq![path[0]] + self.marked_of(path.drop_first(), marked.insert(node_of(path[0])))
        } else {
            self.marked_of(path.drop_first(), marked)
        }
    }

    /// The nodes that are marked after a marking traversal of `path` that
    /// started with the nodes of `marked` marked.
    pub open spec fn marks_after(&self, path: Seq<SpineEntry>, marked: Set<(int, int)>) -> Set<
        (int, int),
    >
        decreases path.len(),
    {
        if path.len() == 0 {
            marked
        } else if self.sparse_keep(path[0]) && !marked.contains(node_of(path[0])) {
            self.marks_after(path.drop_first(), marked.insert(node_of(path[0])))
        } else {
            self.marks_after(path.drop_first(), marked)
        }
    }

    /// `e` names a node of the cube that is well-formed at the height of the
    /// entry's bit.
    pub open spec fn entry_sound(&self, e: SpineEntry) -> bool {
        &&& e.0 is Some
        &&& e.1 < self.ndims()
        &&& e.2 <= self.width(e.1 as int)
        &&& self.wf_node(e.1 as int, self.height_at(e.1 as int, e.2 as int), e.0.unwrap() as int)
    }

    /// What a marking traversal takes are sound entries of the path that a
    /// sparse spine keeps, each naming a node that was not marked and that no
    /// other taken entry names; and the marks after it are the marks before it
    /// and the nodes taken.
    pub proof fn lemma_marked_of(
        &self,
        path: Seq<SpineEntry>,
        address: Seq<usize>,
        marked: Set<(int, int)>,
        start: Set<(int, int)>,
        fresh: Set<(int, int)>,
    )
        requires
            self.linked(path, address),
            fresh.finite(),
            fresh.disjoint(start),
            marked == start.union(fresh),
            fresh.subset_of(self.live_set()),
        ensures
            ({
                let out = self.marked_of(path, marked);
                let grown = fresh.union(nodes_of(out));
                &&& grown.finite()
                &&& grown.len() == fresh.len() + out.len()
                &&& grown.disjoint(start)
                &&& grown.subset_of(self.live_set())
                &&& self.marks_after(path, marked) == start.union(grown)
                &&& forall|k: int|
                    0 <= k < out.len() ==> self.entry_sound(#[trigger] out[k]) && self.sparse_keep(
                        out[k],
                    ) && !marked.contains(node_of(out[k]))
                &&& forall|j: int, k: int|
                    0 <= j < k < out.len() ==> node_of(#[trigger] out[j]) != node_of(
                        #[trigger] out[k],
                    )
            }),
        decreases path.len(),
    {
        let out = self.marked_of(path, marked);
        let grown = fresh.union(nodes_of(out));
        if path.len() == 0 {
            assert(nodes_of(out) =~= Set::<(int, int)>::empty());
            assert(grown =~= fresh);
        } else {
            let e = path[0];
            let rest = path.drop_first();
            assert(self.linked(rest, address)) by {
                assert forall|k: int| 0 <= k < rest.len() implies self.entry_ok(
                    #[trigger] rest[k],
                    address,
                ) by {
                    assert(rest[k] == path[k + 1]);
                }
                assert forall|k: int| 0 < k < rest.len() implies self.follows(
                    rest[k - 1],
                    #[trigger] rest[k],
                ) by {
                    assert(rest[k] == path[k + 1]);
                    assert(rest[k - 1] == path[k]);
                }
            }
            assert(self.entry_ok(e, address));
            if self.sparse_keep(e) && !marked.contains(node_of(e)) {
                let nd = node_of(e);
                assert(self.slot_live(nd.0, nd.1));
                assert(self.live_set().contains(nd));
                let fresh2 = fresh.insert(nd);
                let marked2 = marked.insert(nd);
                assert(marked2 =~= start.union(fresh2));
                self.lemma_marked_of(rest, address, marked2, start, fresh2);
                let sub = self.marked_of(rest, marked2);
                assert(out == seq![e] + sub);
                assert(nodes_of(out) =~= nodes_of(sub).insert(nd)) by {
                    assert forall|s: (int, int)| nodes_of(out).contains(s) implies nodes_of(
                        sub,
                    ).insert(nd).contains(s) by {
                        let k = choose|k: int| 0 <= k < out.len() && node_of(#[trigger] out[k]) == s;
                        if k > 0 {
                            assert(out[k] == sub[k - 1]);
                        }
                    }
                    assert forall|s: (int, int)|
                        nodes_of(sub).insert(nd).contains(s) implies nodes_of(out).contains(s) by {
                        if s == nd {
                            assert(node_of(out[0]) == s);
                        } else {
                            let k = choose|k: int|
                                0 <= k < sub.len() && node_of(#[trigger] sub[k]) == s;
                            assert(out[k + 1] == sub[k]);
                        }
                    }
                }
                assert(grown =~= fresh2.union(nodes_of(sub)));
                assert forall|k: int| 0 <= k < out.len() implies self.entry_sound(
                    #[trigger] out[k],
                ) && self.sparse_keep(out[k]) && !marked.contains(node_of(out[k])) by {
                    if k > 0 {
                        assert(out[k] == sub[k - 1]);
                    }
                }
                assert forall|j: int, k: int| 0 <= j < k < out.len() implies node_of(
                    #[trigger] out[j],
                ) != node_of(#[trigger] out[k]) by {
                    assert(out[k] == sub[k - 1]);
                    if j > 0 {
                        assert(out[j] == sub[j - 1]);
                    } else {
                        assert(!marked2.contains(node_of(sub[k - 1])));
                    }
                }
            } else {
                self.lemma_marked_of(rest, address, marked, start, fresh);
            }
        }
    }
}

impl<Summary: Monoid + PartialOrd + Copy> Nanocube<Summary> {
    /// Sets the mark of the node.
    pub fn mark_node(&mut self, dim: usize, node_index: NodePointerType)
        requires
            dim < old(self).dims@.len(),
            node_index is Some,
            node_index.unwrap() < old(self).dims@[dim as int].nodes.values@.len(),
        ensures
            final(self).same_but_flags(old(self)),
            final(self).node(dim as int, node_index.unwrap() as int).flags == 1,
            forall|d: int, i: int|
                0 <= d < old(self).dims@.len() && 0 <= i < old(self).dims@[d].nodes.values@.len()
                    && !(d == dim && i == node_index.unwrap()) ==> #[trigger] final(self).node(d, i)
                    == old(self).node(d, i),
    {
        let slot = self.dims[dim].at_mut(node_index);
        slot.flags = 1;
        assert(forall|d: int|
            0 <= d < self.dims@.len() && d != dim ==> self.dims@[d] == old(self).dims@[d]);
    }

    /// Clears the mark of the node.
    pub fn unmark_node(&mut self, dim: usize, node_index: NodePointerType)
        requires
            dim < old(self).dims@.len(),
            node_index is Some,
            node_index.unwrap() < old(self).dims@[dim as int].nodes.values@.len(),
        ensures
            final(self).same_but_flags(old(self)),
            final(self).node(dim as int, node_index.unwrap() as int).flags == 0,
            forall|d: int, i: int|
                0 <= d < old(self).dims@.len() && 0 <= i < old(self).dims@[d].nodes.values@.len()
                    && !(d == dim && i == node_index.unwrap()) ==> #[trigger] final(self).node(d, i)
                    == old(self).node(d, i),
    {
        let slot = self.dims[dim].at_mut(node_index);
        slot.flags = 0;
        assert(forall|d: int|
            0 <= d < self.dims@.len() && d != dim ==> self.dims@[d] == old(self).dims@[d]);
    }

    /// The summary that the chain of `next` links from `node_index`, a
    /// pointer at level `dim`, ends in; null if the chain breaks off.
    #[inline]
    pub fn get_summary_index(&self, node_index: NodePointerType, dim: usize) -> (r: NodePointerType)
        requires
            self.shape_ok(),
            self.closed(),
            dim <= self.dims@.len(),
            self.ptr_live(dim as int, node_index),
        ensures
            r == self.summary_index(dim as int, node_index),
    {
        let ghost target = self.summary_index(dim as int, node_index);
        let mut current_node_index = node_index;
        let mut level = dim;
        while level < self.dims.len()
            invariant
                self.shape_ok(),
                self.closed(),
                level <= self.dims@.len(),
                self.ptr_live(level as int, current_node_index),
                target == self.summary_index(level as int, current_node_index),
                target == self.summary_index(dim as int, node_index),
            decreases self.dims@.len() - level,
        {
            if current_node_index.is_none() {
                assert(self.summary_index(level as int, current_node_index) == current_node_index);
                return None;
            }
            assert(self.slot_live(level as int, current_node_index.unwrap() as int));
            let next_index = self.dims[level].at(current_node_index).next;
            level += 1;
            current_node_index = next_index;
        }
        current_node_index
    }

    /// Appends to `spine` the sparse spine of the descent along `addresses`
    /// that starts at `index`, at the top of dimension `dim`: the positions of
    /// the descent whose node has both children or is a leaf of the last
    /// dimension.
    pub fn make_sparse_spine(
        &self,
        addresses: &Vec<usize>,
        index: NodePointerType,
        dim: usize,
        spine: &mut Vec<SpineEntry>,
    )
        requires
            self.inv(),
            self.valid_address(addresses@),
            dim < self.dims@.len(),
            index is Some,
            self.wf_node(dim as int, self.width(dim as int), index.unwrap() as int),
        ensures
            final(spine)@ == old(spine)@ + self.sparse_of(
                self.descent(addresses@, index, dim as int, 0),
            ),
    {
        let ghost addr = addresses@;
        let ghost target = old(spine)@ + self.sparse_of(self.descent(addr, index, dim as int, 0));
        let n = self.dims.len();
        let mut current_node_index = index;
        let mut dim = dim;
        let mut bit: usize = 0;
        assert(self.dims@[dim as int].width < usize::BITS);
        let mut width = self.dims[dim].width;
        let mut where_to_insert = if bit == width || dim == n {
            None
        } else {
            Some(get_bit(addresses[dim], width - bit - 1))
        };
        proof {
            assert(self.slot_live(dim as int, index.unwrap() as int));
            let whole = self.descent(addr, index, dim as int, 0);
            assert(whole[0] == (current_node_index, dim, bit, where_to_insert));
        }
        if self.node_is_branching(dim, current_node_index) {
            spine.push((current_node_index, dim, bit, where_to_insert));
        }
        proof {
            assert(spine@ =~= old(spine)@ + if self.sparse_keep(
                (current_node_index, dim, bit, where_to_insert),
            ) {
                seq![(current_node_index, dim, bit, where_to_insert)]
            } else {
                Seq::empty()
            });
        }
        while current_node_index.is_some() && dim != n
            invariant
                self.inv(),
                self.valid_address(addr),
                addr == addresses@,
                n == self.dims@.len(),
                dim <= n,
                dim < n ==> width == self.width(dim as int),
                bit <= self.width(dim as int),
                self.wf_ptr(dim as int, self.height_at(dim as int, bit as int), current_node_index),
                where_to_insert == self.turn_at(
                    dim as int,
                    self.height_at(dim as int, bit as int),
                    addr,
                ),
                target == spine@ + self.sparse_of(
                    self.descent(addr, current_node_index, dim as int, bit as int).drop_first(),
                ),
            decreases n - dim, self.width(dim as int) - bit,
        {
            let ghost before_spine = spine@;
            let ghost p0 = current_node_index;
            let ghost d0 = dim as int;
            let ghost b0 = bit as int;
            assert(self.wf_node(d0, self.height_at(d0, b0), p0.unwrap() as int));
            assert(self.slot_live(d0, p0.unwrap() as int));
            assert(self.dims@[d0].width < usize::BITS);
            let current_node = self.get_node(dim, current_node_index);
            if bit == width {
                dim = dim + 1;
                if dim < n {
                    width = self.dims[dim].width;
                }
                bit = 0;
                current_node_index = current_node.next;
            } else {
                bit = bit + 1;
                current_node_index = if where_to_insert.unwrap() {
                    current_node.right
                } else {
                    current_node.left
                }
            }
            if dim < n {
                assert(self.dims@[dim as int].width < usize::BITS);
            }
            where_to_insert = if bit == width || dim == n {
                None
            } else {
                Some(get_bit(addresses[dim], width - bit - 1))
            };
            let ghost here: SpineEntry = (current_node_index, dim, bit, where_to_insert);
            let ghost rest = self.descent(addr, current_node_index, dim as int, bit as int);
            proof {
                assert(self.descent(addr, p0, d0, b0).drop_first() =~= rest);
                assert(rest[0] == here);
                if current_node_index is Some && dim < n {
                    assert(self.slot_live(dim as int, current_node_index.unwrap() as int));
                }
            }
            if current_node_index.is_some() && dim != n {
                // The sparse spine takes the leaves of the last dimension
                // too: they lead to the summaries, which is what it is for.
                if self.node_is_branching(dim, current_node_index) || (dim == n - 1
                    && self.node_is_leaf(dim, current_node_index)) {
                    spine.push((current_node_index, dim, bit, where_to_insert));
                }
            }
            proof {
                assert(spine@ =~= before_spine + if self.sparse_keep(here) {
                    seq![here]
                } else {
                    Seq::empty()
                });
            }
        }
        proof {
            assert(self.descent(
                addr,
                current_node_index,
                dim as int,
                bit as int,
            ).drop_first() =~= Seq::<SpineEntry>::empty());
        }
    }

    /// As `make_sparse_spine`, but takes only nodes that carry no mark, and
    /// marks each node that it takes.
    pub fn make_sparse_spine_marking(
        &mut self,
        addresses: &Vec<usize>,
        index: NodePointerType,
        dim: usize,
        spine: &mut Vec<SpineEntry>,
    )
        requires
            old(self).inv(),
            old(self).valid_address(addresses@),
            dim < old(self).dims@.len(),
            index is Some,
            old(self).wf_node(dim as int, old(self).width(dim as int), index.unwrap() as int),
        ensures
            final(self).same_but_flags(old(self)),
            final(spine)@ == old(spine)@ + old(self).marked_of(
                old(self).descent(addresses@, index, dim as int, 0),
                old(self).marked_set(),
            ),
            final(self).marked_set() == old(self).marks_after(
                old(self).descent(addresses@, index, dim as int, 0),
                old(self).marked_set(),
            ),
            forall|d: int, i: int|
                0 <= d < old(self).ndims() && 0 <= i < old(self).pool_len(d) ==> (
                #[trigger] final(self).node(d, i)).flags == if final(self).marked_set().contains(
                    (d, i),
                ) && !old(self).marked_set().contains((d, i)) {
                    1
                } else {
                    old(self).node(d, i).flags
                },
    {
        let ghost s0 = *self;
        let ghost addr = addresses@;
        let ghost whole = s0.descent(addr, index, dim as int, 0);
        let ghost target = old(spine)@ + s0.marked_of(whole, s0.marked_set());
        let ghost target_marks = s0.marks_after(whole, s0.marked_set());
        let n = self.dims.len();
        let mut current_node_index = index;
        let mut level = dim;
        let mut bit: usize = 0;
        assert(self.dims@[level as int].width < usize::BITS);
        let mut width = self.dims[level].width;
        let mut where_to_insert = if bit == width || level == n {
            None
        } else {
            Some(get_bit(addresses[level], width - bit - 1))
        };
        let ghost first: SpineEntry = (current_node_index, level, bit, where_to_insert);
        proof {
            assert(s0.slot_live(level as int, index.unwrap() as int));
            assert(whole[0] == first);
            assert(self.marked_set() =~= s0.marked_set());
        }
        if self.node_is_branching(level, current_node_index) && self.node_is_unmarked(
            level,
            current_node_index,
        ) {
            self.mark_node(level, current_node_index);
            spine.push((current_node_index, level, bit, where_to_insert));
            proof {
                assert(self.marked_set() =~= s0.marked_set().insert(node_of(first)));
            }
        }
        proof {
            self.lemma_same_but_flags(&s0);
        }
        while current_node_index.is_some() && level != n
            invariant
                s0.inv(),
                self.inv(),
                self.same_but_flags(&s0),
                s0.valid_address(addr),
                addr == addresses@,
                n == self.dims@.len(),
                level <= n,
                level < n ==> width == s0.width(level as int),
                bit <= s0.width(level as int),
                s0.wf_ptr(level as int, s0.height_at(level as int, bit as int), current_node_index),
                where_to_insert == s0.turn_at(
                    level as int,
                    s0.height_at(level as int, bit as int),
                    addr,
                ),
                target == spine@ + s0.marked_of(
                    s0.descent(addr, current_node_index, level as int, bit as int).drop_first(),
                    self.marked_set(),
                ),
                target_marks == s0.marks_after(
                    s0.descent(addr, current_node_index, level as int, bit as int).drop_first(),
                    self.marked_set(),
                ),
                forall|d: int, i: int|
                    0 <= d < s0.ndims() && 0 <= i < s0.pool_len(d) ==> (#[trigger] self.node(
                        d,
                        i,
                    )).flags == if self.marked_set().contains((d, i)) && !s0.marked_set().contains(
                        (d, i),
                    ) {
                        1
                    } else {
                        s0.node(d, i).flags
                    },
            decreases n - level, s0.width(level as int) - bit,
        {
            let ghost before_spine = spine@;
            let ghost s1 = *self;
            let ghost p0 = current_node_index;
            let ghost d0 = level as int;
            let ghost b0 = bit as int;
            proof {
                assert(s0.wf_node(d0, s0.height_at(d0, b0), p0.unwrap() as int));
                assert(s0.slot_live(d0, p0.unwrap() as int));
                assert(s0.dims@[d0].width < usize::BITS);
                assert(same_links(self.node(d0, p0.unwrap() as int), s0.node(d0, p0.unwrap() as int)));
            }
            let current_node = self.get_node(level, current_node_index);
            if bit == width {
                level = level + 1;
                if level < n {
                    width = self.dims[level].width;
                }
                bit = 0;
                current_node_index = current_node.next;
            } else {
                bit = bit + 1;
                current_node_index = if where_to_insert.unwrap() {
                    current_node.right
                } else {
                    current_node.left
                }
            }
            if level < n {
                assert(s0.dims@[level as int].width < usize::BITS);
                assert(self.dims@[level as int].width == s0.dims@[level as int].width);
            }
            where_to_insert = if bit == width || level == n {
                None
            } else {
                Some(get_bit(addresses[level], width - bit - 1))
            };
            let ghost here: SpineEntry = (current_node_index, level, bit, where_to_insert);
            let ghost rest = s0.descent(addr, current_node_index, level as int, bit as int);
            proof {
                assert(s0.descent(addr, p0, d0, b0).drop_first() =~= rest);
                assert(rest[0] == here);
                if current_node_index is Some && level < n {
                    assert(s0.slot_live(level as int, current_node_index.unwrap() as int));
                    assert(same_links(
                        self.node(level as int, current_node_index.unwrap() as int),
                        s0.node(level as int, current_node_index.unwrap() as int),
                    ));
                    assert(self.pool_len(level as int) == s0.pool_len(level as int));
                }
            }
            if current_node_index.is_some() && level != n && self.node_is_unmarked(
                level,
                current_node_index,
            ) {
                if self.node_is_branching(level, current_node_index) || (level == n - 1
                    && self.node_is_leaf(level, current_node_index)) {
                    self.mark_node(level, current_node_index);
                    spine.push((current_node_index, level, bit, where_to_insert));
                    proof {
                        assert(self.marked_set() =~= s1.marked_set().insert(node_of(here)));
                        assert(self.same_but_flags(&s0));
                        self.lemma_same_but_flags(&s0);
                    }
                }
            }
            proof {
                if current_node_index is Some && level < n {
                    assert(s1.pool_len(level as int) == s0.pool_len(level as int));
                    assert(s1.marked_set().contains(node_of(here)) <==> s1.node(
                        node_of(here).0,
                        node_of(here).1,
                    ).flags != 0);
                }
            }
        }
        proof {
            assert(s0.descent(
                addr,
                current_node_index,
                level as int,
                bit as int,
            ).drop_first() =~= Seq::<SpineEntry>::empty());
        }
    }

    /// Appends to `spine` the sparse branching spine of `addresses`: the
    /// sparse spine from the root, then, for every entry of `spine` in turn,
    /// those appended among them, the sparse spine from what the entry's node
    /// leads to in the next dimension. No node is taken twice, and none that
    /// carried a mark. The marks that keep track of this are cleared at the
    /// end, so the cube is left as it was.
    ///
    /// The traversal goes through every entry of the list it ends with: that
    /// list has at most as many new entries as the cube has live nodes, which
    /// is the number of steps that `branching` is given here.
    pub fn make_sparse_branching_spine(
        &mut self,
        addresses: &Vec<usize>,
        spine: &mut Vec<SpineEntry>,
    )
        requires
            old(self).inv(),
            old(self).valid_address(addresses@),
            old(self).base_root is Some,
            forall|k: int|
                0 <= k < old(spine)@.len() ==> old(self).entry_sound(#[trigger] old(spine)@[k]),
        ensures
            final(self).same_but_flags(old(self)),
            forall|d: int, i: int|
                0 <= d < old(self).ndims() && 0 <= i < old(self).pool_len(d)
                    ==> #[trigger] final(self).node(d, i) == old(self).node(d, i),
            final(spine)@ == old(self).branching(
                addresses@,
                old(spine)@ + old(self).marked_of(
                    old(self).descent(addresses@, old(self).base_root, 0, 0),
                    old(self).marked_set(),
                ),
                0,
                old(self).marked_set().union(
                    nodes_of(
                        old(self).marked_of(
                            old(self).descent(addresses@, old(self).base_root, 0, 0),
                            old(self).marked_set(),
                        ),
                    ),
                ),
                old(spine)@.len() + old(self).live_set().len(),
            ),
            final(spine)@.len() <= old(spine)@.len() + old(self).live_set().len(),
            final(spine)@.len() >= old(spine)@.len() + old(self).marked_of(
                old(self).descent(addresses@, old(self).base_root, 0, 0),
                old(self).marked_set(),
            ).len(),
            final(spine)@.subrange(0, old(spine)@.len() as int) == old(spine)@,
            final(spine)@.subrange(
                old(spine)@.len() as int,
                (old(spine)@.len() + old(self).marked_of(
                    old(self).descent(addresses@, old(self).base_root, 0, 0),
                    old(self).marked_set(),
                ).len()) as int,
            ) == old(self).marked_of(
                old(self).descent(addresses@, old(self).base_root, 0, 0),
                old(self).marked_set(),
            ),
            forall|k: int|
                old(spine)@.len() <= k < final(spine)@.len() ==> {
                    &&& old(self).entry_sound(#[trigger] final(spine)@[k])
                    &&& old(self).sparse_keep(final(spine)@[k])
                    &&& old(self).node(node_of(final(spine)@[k]).0, node_of(final(spine)@[k]).1).flags
                        == 0
                },
            forall|j: int, k: int|
                old(spine)@.len() <= j < k < final(spine)@.len() ==> node_of(
                    #[trigger] final(spine)@[j],
                ) != node_of(#[trigger] final(spine)@[k]),
    {
        let ghost s0 = *self;
        let ghost addr = addresses@;
        let ghost sp0 = spine@;
        let ghost start = s0.marked_set();
        let spine_beg = spine.len();
        let root = self.base_root;
        let ghost first = s0.marked_of(s0.descent(addr, root, 0, 0), start);
        proof {
            s0.lemma_descent_linked(addr, root, 0, 0);
            assert(start.union(Set::<(int, int)>::empty()) =~= start);
            s0.lemma_marked_of(
                s0.descent(addr, root, 0, 0),
                addr,
                start,
                start,
                Set::<(int, int)>::empty(),
            );
        }
        self.make_sparse_spine_marking(addresses, root, 0, spine);
        let ghost mut fresh: Set<(int, int)> = nodes_of(first);
        proof {
            self.lemma_same_but_flags(&s0);
            assert(Set::<(int, int)>::empty().union(nodes_of(first)) =~= nodes_of(first));
            assert(spine@.subrange(0, spine_beg as int) =~= sp0);
            assert(spine@.subrange(spine_beg as int, (spine_beg + first.len()) as int) =~= first);
            assert forall|k: int| spine_beg <= k < spine@.len() implies {
                &&& s0.entry_sound(#[trigger] spine@[k])
                &&& s0.sparse_keep(spine@[k])
                &&& !start.contains(node_of(spine@[k]))
                &&& fresh.contains(node_of(spine@[k]))
            } by {
                assert(spine@[k] == first[k - spine_beg]);
            }
            assert forall|j: int, k: int| spine_beg <= j < k < spine@.len() implies node_of(
                #[trigger] spine@[j],
            ) != node_of(#[trigger] spine@[k]) by {
                assert(spine@[k] == first[k - spine_beg]);
                assert(spine@[j] == first[j - spine_beg]);
            }
        }
        let ghost total = s0.live_set().len();
        proof {
            vstd::set_lib::lemma_len_subset(fresh, s0.live_set());
        }
        let ghost steps: nat = spine_beg as nat + total;
        let ghost target = s0.branching(addr, sp0 + first, 0, start.union(fresh), steps);
        proof {
            assert(spine@ =~= sp0 + first);
        }
        let mut i: usize = 0;
        while i < spine.len()
            invariant
                s0.inv(),
                steps == spine_beg + total,
                target == s0.branching(
                    addr,
                    spine@,
                    i as int,
                    start.union(fresh),
                    (steps - i) as nat,
                ),
                self.inv(),
                self.same_but_flags(&s0),
                s0.valid_address(addr),
                addr == addresses@,
                start == s0.marked_set(),
                total == s0.live_set().len(),
                spine_beg == sp0.len(),
                0 <= i <= spine@.len(),
                spine@.len() >= spine_beg + first.len(),
                spine@.subrange(0, spine_beg as int) == sp0,
                spine@.subrange(spine_beg as int, (spine_beg + first.len()) as int) == first,
                forall|k: int| 0 <= k < sp0.len() ==> s0.entry_sound(#[trigger] sp0[k]),
                fresh.finite(),
                fresh.disjoint(start),
                fresh.subset_of(s0.live_set()),
                fresh.len() == spine@.len() - spine_beg,
                fresh.len() <= total,
                self.marked_set() == start.union(fresh),
                forall|k: int|
                    spine_beg <= k < spine@.len() ==> {
                        &&& s0.entry_sound(#[trigger] spine@[k])
                        &&& s0.sparse_keep(spine@[k])
                        &&& !start.contains(node_of(spine@[k]))
                        &&& fresh.contains(node_of(spine@[k]))
                    },
                forall|j: int, k: int|
                    spine_beg <= j < k < spine@.len() ==> node_of(#[trigger] spine@[j]) != node_of(
                        #[trigger] spine@[k],
                    ),
                forall|d: int, k: int|
                    0 <= d < s0.ndims() && 0 <= k < s0.pool_len(d) ==> (#[trigger] self.node(
                        d,
                        k,
                    )).flags == if fresh.contains((d, k)) {
                        1
                    } else {
                        s0.node(d, k).flags
                    },
            decreases spine_beg + total - i,
        {
            let dim = spine[i].1;
            let index = spine[i].0;
            let ghost e = spine@[i as int];
            proof {
                if i < spine_beg {
                    assert(spine@.subrange(0, spine_beg as int)[i as int] == spine@[i as int]);
                    assert(s0.entry_sound(sp0[i as int]));
                }
                assert(s0.entry_sound(e));
                assert(dim < self.dims.len());
            }
            if dim + 1 < self.dims.len() {
                let ghost s1 = *self;
                let ghost sp1 = spine@;
                proof {
                    assert(s0.slot_live(dim as int, index.unwrap() as int));
                    assert(self.pool_len(dim as int) == s0.pool_len(dim as int));
                    self.lemma_extends_wf(
                        &s0,
                        dim as int,
                        s0.height_at(dim as int, e.2 as int),
                        index.unwrap() as int,
                    );
                }
                let node = self.get_node(dim, index);
                let ghost path = s1.descent(addr, node.next, dim + 1, 0);
                let ghost out = s1.marked_of(path, s1.marked_set());
                proof {
                    s1.lemma_valid_address_extends(&s0, addr);
                    assert(s1.width(dim + 1) == s0.width(dim + 1)) by {
                        assert(s1.dims@[dim + 1].width == s0.dims@[dim + 1].width);
                    }
                    s1.lemma_descent_linked(addr, node.next, dim + 1, 0);
                    assert(fresh.subset_of(s1.live_set())) by {
                        assert(s1.live_set() =~= s0.live_set());
                    }
                    s1.lemma_marked_of(path, addr, s1.marked_set(), start, fresh);
                    s1.lemma_branch_taken(
                        &s0,
                        addr,
                        sp1,
                        i as int,
                        node.next,
                        s1.marked_set(),
                        (steps - i) as nat,
                    );
                }
                self.make_sparse_spine_marking(addresses, node.next, dim + 1, spine);
                proof {
                    let grown = fresh.union(nodes_of(out));
                    assert(self.same_but_flags(&s0)) by {
                        assert forall|d: int, k: int|
                            0 <= d < self.dims@.len() && 0 <= k
                                < self.dims@[d].nodes.values@.len() implies same_links(
                            #[trigger] self.node(d, k),
                            s0.node(d, k),
                        ) by {
                            assert(same_links(self.node(d, k), s1.node(d, k)));
                            assert(same_links(s1.node(d, k), s0.node(d, k)));
                        }
                    }
                    self.lemma_same_but_flags(&s0);
                    assert(s1.live_set() =~= s0.live_set());
                    vstd::set_lib::lemma_len_subset(grown, s0.live_set());
                    assert(spine@.subrange(0, spine_beg as int) =~= sp1.subrange(
                        0,
                        spine_beg as int,
                    ));
                    assert(spine@.subrange(spine_beg as int, (spine_beg + first.len()) as int)
                        =~= sp1.subrange(spine_beg as int, (spine_beg + first.len()) as int));
                    assert forall|k: int| spine_beg <= k < spine@.len() implies {
                        &&& s0.entry_sound(#[trigger] spine@[k])
                        &&& s0.sparse_keep(spine@[k])
                        &&& !start.contains(node_of(spine@[k]))
                        &&& grown.contains(node_of(spine@[k]))
                    } by {
                        if k < sp1.len() {
                            assert(spine@[k] == sp1[k]);
                        } else {
                            let o = out[k - sp1.len()];
                            assert(spine@[k] == o);
                            assert(s1.entry_sound(o) && s1.sparse_keep(o));
                            assert(nodes_of(out).contains(node_of(o)));
                            assert(s1.slot_live(o.1 as int, o.0.unwrap() as int));
                            assert(same_links(
                                s1.node(o.1 as int, o.0.unwrap() as int),
                                s0.node(o.1 as int, o.0.unwrap() as int),
                            ));
                            s0.lemma_extends_wf(
                                &s1,
                                o.1 as int,
                                s1.height_at(o.1 as int, o.2 as int),
                                o.0.unwrap() as int,
                            );
                            assert(s1.width(o.1 as int) == s0.width(o.1 as int)) by {
                                assert(s1.dims@[o.1 as int].width == s0.dims@[o.1 as int].width);
                            }
                        }
                    }
                    assert forall|j: int, k: int| spine_beg <= j < k < spine@.len() implies node_of(
                        #[trigger] spine@[j],
                    ) != node_of(#[trigger] spine@[k]) by {
                        if k < sp1.len() {
                            assert(spine@[k] == sp1[k]);
                            assert(spine@[j] == sp1[j]);
                        } else {
                            assert(spine@[k] == out[k - sp1.len()]);
                            if j < sp1.len() {
                                assert(spine@[j] == sp1[j]);
                                assert(fresh.contains(node_of(sp1[j])));
                                assert(s1.marked_set().contains(node_of(sp1[j])));
                            } else {
                                assert(spine@[j] == out[j - sp1.len()]);
                            }
                        }
                    }
                    assert forall|d: int, k: int|
                        0 <= d < s0.ndims() && 0 <= k < s0.pool_len(d) implies (
                    #[trigger] self.node(d, k)).flags == if grown.contains((d, k)) {
                        1
                    } else {
                        s0.node(d, k).flags
                    } by {
                        assert(s1.pool_len(d) == s0.pool_len(d));
                        assert(self.marked_set() == start.union(grown));
                        if grown.contains((d, k)) {
                            assert(self.marked_set().contains((d, k)));
                            if !fresh.contains((d, k)) {
                                assert(!s1.marked_set().contains((d, k)));
                            }
                        } else {
                            assert(!fresh.contains((d, k)));
                            if self.marked_set().contains((d, k)) {
                                assert(start.contains((d, k)));
                                assert(s1.marked_set().contains((d, k)));
                            }
                        }
                    }
                    assert(start.union(fresh).union(nodes_of(out)) =~= start.union(grown));
                    fresh = grown;
                }
            } else {
                proof {
                    assert(target == s0.branching(
                        addr,
                        spine@,
                        i + 1,
                        start.union(fresh),
                        (steps - i - 1) as nat,
                    ));
                }
            }
            i = i + 1;
        }
        proof {
            assert(spine@ == target);
        }
        let m = spine.len();
        let mut i: usize = spine_beg;
        let ghost s2 = *self;
        let ghost sp2 = spine@;
        while i < m
            invariant
                s0.inv(),
                self.same_but_flags(&s0),
                spine@ == sp2,
                sp2 == target,
                sp2.len() <= spine_beg + total,
                m == sp2.len(),
                spine_beg <= i <= m,
                spine_beg == sp0.len(),
                start == s0.marked_set(),
                fresh.disjoint(start),
                forall|k: int|
                    spine_beg <= k < sp2.len() ==> {
                        &&& s0.entry_sound(#[trigger] sp2[k])
                        &&& fresh.contains(node_of(sp2[k]))
                    },
                forall|d: int, k: int|
                    0 <= d < s0.ndims() && 0 <= k < s0.pool_len(d) && !fresh.contains((d, k)) ==> (
                    #[trigger] self.node(d, k)).flags == s0.node(d, k).flags,
                forall|k: int|
                    spine_beg <= k < i ==> self.node(
                        node_of(#[trigger] sp2[k]).0,
                        node_of(sp2[k]).1,
                    ).flags == 0,
            decreases m - i,
        {
            let ghost s3 = *self;
            let ghost e = sp2[i as int];
            proof {
                assert(s0.entry_sound(e));
                assert(s0.slot_live(e.1 as int, e.0.unwrap() as int));
            }
            self.unmark_node(spine[i].1, spine[i].0);
            proof {
                assert(self.same_but_flags(&s0)) by {
                    assert forall|d: int, k: int|
                        0 <= d < self.dims@.len() && 0 <= k
                            < self.dims@[d].nodes.values@.len() implies same_links(
                        #[trigger] self.node(d, k),
                        s0.node(d, k),
                    ) by {
                        assert(same_links(self.node(d, k), s3.node(d, k)));
                        assert(same_links(s3.node(d, k), s0.node(d, k)));
                    }
                }
                assert forall|k: int| spine_beg <= k < i + 1 implies self.node(
                    node_of(#[trigger] sp2[k]).0,
                    node_of(sp2[k]).1,
                ).flags == 0 by {
                    if k < i {
                        assert(s0.entry_sound(sp2[k]));
                        assert(s0.slot_live(sp2[k].1 as int, sp2[k].0.unwrap() as int));
                        if node_of(sp2[k]) != node_of(e) {
                            assert(self.node(node_of(sp2[k]).0, node_of(sp2[k]).1) == s3.node(
                                node_of(sp2[k]).0,
                                node_of(sp2[k]).1,
                            ));
                        }
                    }
                }
                assert forall|d: int, k: int|
                    0 <= d < s0.ndims() && 0 <= k < s0.pool_len(d) && !fresh.contains(
                        (d, k),
                    ) implies (#[trigger] self.node(d, k)).flags == s0.node(d, k).flags by {
                    assert(self.node(d, k) == s3.node(d, k));
                }
            }
            i = i + 1;
        }
        proof {
            assert forall|k: int| spine_beg <= k < spine@.len() implies {
                &&& s0.entry_sound(#[trigger] spine@[k])
                &&& s0.sparse_keep(spine@[k])
                &&& s0.node(node_of(spine@[k]).0, node_of(spine@[k]).1).flags == 0
            } by {
                let nd = node_of(spine@[k]);
                assert(s0.entry_sound(spine@[k]));
                assert(s0.slot_live(nd.0, nd.1));
                assert(!start.contains(nd));
            }
            assert forall|d: int, k: int|
                0 <= d < s0.ndims() && 0 <= k < s0.pool_len(d) implies #[trigger] self.node(d, k)
                == s0.node(d, k) by {
                assert(same_links(self.node(d, k), s0.node(d, k)));
                if fresh.contains((d, k)) {
                    assert(!start.contains((d, k)));
                    assert(s0.node(d, k).flags == 0);
                    assert(s2.marked_set().contains((d, k)));
                    // it was taken, so some entry names it
                    assert(self.node(d, k).flags == 0) by {
                        s2.lemma_taken_named(sp2, spine_beg as int, fresh, d, k);
                        let j = choose|j: int|
                            spine_beg <= j < sp2.len() && node_of(#[trigger] sp2[j]) == (d, k);
                        assert(self.node(node_of(sp2[j]).0, node_of(sp2[j]).1).flags == 0);
                    }
                }
            }
        }
    }
}

impl<Summary: Monoid> Nanocube<Summary> {
    /// The list that a branching traversal ends with. It has come to entry
    /// `i` of `spine`, with the nodes of `marked` marked, and may go through
    /// `steps` entries more. For an entry above the last dimension it appends
    /// what a marking traversal takes of the descent from the `next` of the
    /// entry's node; then it goes on with the entry after it, which may be one
    /// that it has appended.
    pub open spec fn branching(
        &self,
        address: Seq<usize>,
        spine: Seq<SpineEntry>,
        i: int,
        marked: Set<(int, int)>,
        steps: nat,
    ) -> Seq<SpineEntry>
        decreases steps,
    {
        if steps == 0 || i < 0 || i >= spine.len() {
            spine
        } else if spine[i].1 + 1 < self.ndims() {
            let out = self.marked_of(
                self.descent(
                    address,
                    self.node(spine[i].1 as int, spine[i].0.unwrap() as int).next,
                    spine[i].1 + 1,
                    0,
                ),
                marked,
            );
            self.branching(
                address,
                spine + out,
                i + 1,
                marked.union(nodes_of(out)),
                (steps - 1) as nat,
            )
        } else {
            self.branching(address, spine, i + 1, marked, (steps - 1) as nat)
        }
    }

    /// One step of a branching traversal from an entry above the last
    /// dimension, where the traversal is carried out in a state that differs
    /// from `before` in marks only.
    pub proof fn lemma_branch_taken(
        &self,
        before: &Self,
        address: Seq<usize>,
        spine: Seq<SpineEntry>,
        i: int,
        next: NodePointerType,
        marked: Set<(int, int)>,
        steps: nat,
    )
        requires
            self.same_but_flags(before),
            before.inv(),
            steps > 0,
            0 <= i < spine.len(),
            before.entry_sound(spine[i]),
            spine[i].1 + 1 < before.ndims(),
            next == self.node(spine[i].1 as int, spine[i].0.unwrap() as int).next,
        ensures
            ({
                let out = self.marked_of(self.descent(address, next, spine[i].1 + 1, 0), marked);
                before.branching(address, spine, i, marked, steps) == before.branching(
                    address,
                    spine + out,
                    i + 1,
                    marked.union(nodes_of(out)),
                    (steps - 1) as nat,
                )
            }),
    {
        let e = spine[i];
        let d = e.1 as int;
        let x = e.0.unwrap() as int;
        self.lemma_same_but_flags(before);
        assert(before.wf_node(d, before.height_at(d, e.2 as int), x));
        assert(before.slot_live(d, x));
        assert(same_links(self.node(d, x), before.node(d, x)));
        assert(before.dims@[d + 1].width < usize::BITS);
        self.lemma_descent_extends(before, address, next, d + 1, 0);
        before.lemma_descent_linked(address, next, d + 1, 0);
        self.lemma_marked_of_extends(
            before,
            before.descent(address, next, d + 1, 0),
            address,
            marked,
        );
    }

    /// A descent through a well-formed part is the same in every later state.
    pub proof fn lemma_descent_extends(
        &self,
        before: &Self,
        address: Seq<usize>,
        p: NodePointerType,
        d: int,
        bit: int,
    )
        requires
            self.extends(before),
            before.shape_ok(),
            0 <= d <= before.ndims(),
            0 <= bit <= before.width(d),
            before.wf_ptr(d, before.height_at(d, bit), p),
        ensures
            self.descent(address, p, d, bit) == before.descent(address, p, d, bit),
        decreases before.ndims() - d, before.width(d) - bit,
    {
        assert forall|k: int| self.width(k) == before.width(k) by {
            if 0 <= k < self.dims@.len() {
                assert(self.dims@[k].width == before.dims@[k].width);
            }
        }
        let turn = before.turn_at(d, before.height_at(d, bit), address);
        assert(turn == self.turn_at(d, self.height_at(d, bit), address));
        if p is None || d >= before.ndims() {
        } else {
            let x = p.unwrap() as int;
            let p2 = before.step_ptr(d, x, turn);
            let d2 = step_level(d, turn);
            let b2 = Self::step_bit(bit, turn);
            assert(before.wf_node(d, before.height_at(d, bit), x));
            assert(before.slot_live(d, x));
            assert(same_links(self.node(d, x), before.node(d, x)));
            assert(p2 == self.step_ptr(d, x, turn));
            if d2 < before.ndims() {
                assert(before.dims@[d2].width < usize::BITS);
            }
            self.lemma_descent_extends(before, address, p2, d2, b2);
        }
    }

    /// What a marking traversal takes of a stretch of a descent is the same
    /// in every later state.
    pub proof fn lemma_marked_of_extends(
        &self,
        before: &Self,
        path: Seq<SpineEntry>,
        address: Seq<usize>,
        marked: Set<(int, int)>,
    )
        requires
            self.extends(before),
            before.linked(path, address),
        ensures
            self.marked_of(path, marked) == before.marked_of(path, marked),
        decreases path.len(),
    {
        if path.len() > 0 {
            let e = path[0];
            let rest = path.drop_first();
            assert(before.linked(rest, address)) by {
                assert forall|k: int| 0 <= k < rest.len() implies before.entry_ok(
                    #[trigger] rest[k],
                    address,
                ) by {
                    assert(rest[k] == path[k + 1]);
                }
                assert forall|k: int| 0 < k < rest.len() implies before.follows(
                    rest[k - 1],
                    #[trigger] rest[k],
                ) by {
                    assert(rest[k] == path[k + 1]);
                    assert(rest[k - 1] == path[k]);
                }
            }
            assert(before.entry_ok(e, address));
            assert(self.sparse_keep(e) == before.sparse_keep(e)) by {
                if e.0 is Some && e.1 < before.ndims() {
                    assert(before.wf_node(
                        e.1 as int,
                        before.height_at(e.1 as int, e.2 as int),
                        e.0.unwrap() as int,
                    ));
                    assert(before.slot_live(e.1 as int, e.0.unwrap() as int));
                    assert(same_links(
                        self.node(e.1 as int, e.0.unwrap() as int),
                        before.node(e.1 as int, e.0.unwrap() as int),
                    ));
                }
            }
            self.lemma_marked_of_extends(before, rest, address, marked);
            self.lemma_marked_of_extends(before, rest, address, marked.insert(node_of(e)));
        }
    }

    /// A set of as many nodes as a list of entries that name distinct nodes
    /// of the set has entries holds no node that the list does not name.
    pub proof fn lemma_taken_named(
        &self,
        spine: Seq<SpineEntry>,
        from: int,
        fresh: Set<(int, int)>,
        d: int,
        k: int,
    )
        requires
            0 <= from <= spine.len(),
            fresh.finite(),
            fresh.len() == spine.len() - from,
            fresh.contains((d, k)),
            forall|j: int| from <= j < spine.len() ==> fresh.contains(node_of(#[trigger] spine[j])),
            forall|i: int, j: int|
                from <= i < j < spine.len() ==> node_of(#[trigger] spine[i]) != node_of(
                    #[trigger] spine[j],
                ),
        ensures
            exists|j: int| from <= j < spine.len() && node_of(#[trigger] spine[j]) == (d, k),
        decreases spine.len() - from,
    {
        if from == spine.len() {
            assert(fresh.len() == 0);
            assert(fresh =~= Set::empty());
        } else {
            let last = node_of(spine.last());
            if last == (d, k) {
                assert(node_of(spine[spine.len() - 1]) == (d, k));
            } else {
                let shorter = spine.drop_last();
                let rest = fresh.remove(last);
                assert forall|j: int| from <= j < shorter.len() implies rest.contains(
                    node_of(#[trigger] shorter[j]),
                ) by {
                    assert(shorter[j] == spine[j]);
                    assert(node_of(spine[j]) != node_of(spine[spine.len() - 1]));
                }
                assert forall|i: int, j: int| from <= i < j < shorter.len() implies node_of(
                    #[trigger] shorter[i],
                ) != node_of(#[trigger] shorter[j]) by {
                    assert(shorter[i] == spine[i]);
                    assert(shorter[j] == spine[j]);
                }
                assert(fresh.contains(node_of(spine[spine.len() - 1])));
                self.lemma_taken_named(shorter, from, rest, d, k);
                let j = choose|j: int|
                    from <= j < shorter.len() && node_of(#[trigger] shorter[j]) == (d, k);
                assert(spine[j] == shorter[j]);
            }
        }
    }
}

} // verus!
