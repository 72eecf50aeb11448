//! The spine of an address: the sequence of positions that the descent
//! along the address visits, from the root to the place where it ends.

use crate::cube::Monoid;
use crate::insert::{get_bit, step_level};
use crate::nanocube::{Nanocube, NodePointerType};
use vstd::prelude::*;

verus! {

/// One position of a descent: the pointer found there, its dimension, the
/// number of bits of the dimension already consumed, and the turn taken from
/// there (`None` for the step into the next dimension).
pub type SpineEntry = (NodePointerType, usize, usize, Option<bool>);

impl<Summary: Monoid> Nanocube<Summary> {
    /// The number of bits consumed after a step from bit `bit`.
    pub open spec fn step_bit(bit: int, turn: Option<bool>) -> int {
        if turn is Some {
            bit + 1
        } else {
            0
        }
    }

    /// The height of bit `bit` of level `d`.
    pub open spec fn height_at(&self, d: int, bit: int) -> nat {
        (self.width(d) - bit) as nat
    }

    /// The descent along `address` that starts with pointer `p` at bit `bit`
    /// of level `d`: that position, and, unless `p` is null or a summary, the
    /// descent from the position that the address leads to.
    pub open spec fn descent(
        &self,
        address: Seq<usize>,
        p: NodePointerType,
        d: int,
        bit: int,
    ) -> Seq<SpineEntry>
        decreases self.ndims() - d, self.width(d) - bit,
    {
        let turn = self.turn_at(d, self.height_at(d, bit), address);
        let here = seq![(p, d as usize, bit as usize, turn)];
        if p is None || d < 0 || d >= self.ndims() || bit < 0 || bit > self.width(d) {
            here
        } else {
            here + self.descent(
                address,
                self.step_ptr(d, p.unwrap() as int, turn),
                step_level(d, turn),
                Self::step_bit(bit, turn),
            )
        }
    }

    /// `e` is a position of a descent along `address`: it lies in the cube,
    /// records the turn that the address takes there, and its pointer is null
    /// or heads a well-formed part.
    pub open spec fn entry_ok(&self, e: SpineEntry, address: Seq<usize>) -> bool {
        &&& e.1 <= self.ndims()
        &&& e.2 <= self.width(e.1 as int)
        &&& e.3 == self.turn_at(e.1 as int, self.height_at(e.1 as int, e.2 as int), address)
        &&& self.wf_ptr(e.1 as int, self.height_at(e.1 as int, e.2 as int), e.0)
    }

    /// `cur` is the position that the descent reaches from `prev`.
    pub open spec fn follows(&self, prev: SpineEntry, cur: SpineEntry) -> bool {
        &&& prev.0 is Some
        &&& prev.1 < self.ndims()
        &&& cur.0 == self.step_ptr(prev.1 as int, prev.0.unwrap() as int, prev.3)
        &&& cur.1 == step_level(prev.1 as int, prev.3)
        &&& cur.2 == Self::step_bit(prev.2 as int, prev.3)
    }

    /// `spine` is a stretch of a descent along `address`: every entry is a
    /// position of it, and each follows from the one before.
    pub open spec fn linked(&self, spine: Seq<SpineEntry>, address: Seq<usize>) -> bool {
        &&& forall|k: int| 0 <= k < spine.len() ==> self.entry_ok(#[trigger] spine[k], address)
        &&& forall|k: int| 0 < k < spine.len() ==> self.follows(spine[k - 1], #[trigger] spine[k])
    }

    /// A descent is linked, starts where it was told to, is not empty, and
    /// ends at a null pointer or at a summary.
    pub proof fn lemma_descent_linked(
        &self,
        address: Seq<usize>,
        p: NodePointerType,
        d: int,
        bit: int,
    )
        requires
            self.shape_ok(),
            0 <= d <= self.ndims(),
            0 <= bit <= self.width(d),
            self.wf_ptr(d, self.height_at(d, bit), p),
        ensures
            self.linked(self.descent(address, p, d, bit), address),
            self.descent(address, p, d, bit).len() >= 1,
            self.descent(address, p, d, bit)[0] == (
                p,
                d as usize,
                bit as usize,
                self.turn_at(d, self.height_at(d, bit), address),
            ),
            self.descent(address, p, d, bit).last().0 is None || self.descent(
                address,
                p,
                d,
                bit,
            ).last().1 == self.ndims(),
        decreases self.ndims() - d, self.width(d) - bit,
    {
        let turn = self.turn_at(d, self.height_at(d, bit), address);
        let e: SpineEntry = (p, d as usize, bit as usize, turn);
        let here = seq![e];
        let whole = self.descent(address, p, d, bit);
        assert(self.dims@.len() <= usize::MAX) by {
            assert(self.dims.len() == self.dims@.len());
        }
        if d < self.ndims() {
            assert(self.dims@[d].width < usize::BITS);
        }
        assert(self.entry_ok(e, address));
        if p is None || d >= self.ndims() {
            assert(whole == here);
        } else {
            let x = p.unwrap() as int;
            let p2 = self.step_ptr(d, x, turn);
            let d2 = step_level(d, turn);
            let b2 = Self::step_bit(bit, turn);
            assert(self.wf_node(d, self.height_at(d, bit), x));
            if d2 < self.ndims() {
                assert(self.dims@[d2].width < usize::BITS);
            }
            self.lemma_descent_linked(address, p2, d2, b2);
            let rest = self.descent(address, p2, d2, b2);
            assert(whole == here + rest);
            assert forall|k: int| 0 <= k < whole.len() implies self.entry_ok(
                #[trigger] whole[k],
                address,
            ) by {
                if k > 0 {
                    assert(whole[k] == rest[k - 1]);
                }
            }
            assert forall|k: int| 0 < k < whole.len() implies self.follows(
                whole[k - 1],
                #[trigger] whole[k],
            ) by {
                if k > 1 {
                    assert(whole[k] == rest[k - 1]);
                    assert(whole[k - 1] == rest[k - 2]);
                } else {
                    assert(whole[1] == rest[0]);
                    assert(whole[0] == e);
                }
            }
            assert(whole.last() == rest.last());
        }
    }

    /// A linked stretch of a descent is one in every later state.
    pub proof fn lemma_linked_extends(
        &self,
        before: &Self,
        spine: Seq<SpineEntry>,
        address: Seq<usize>,
    )
        requires
            self.extends(before),
            before.linked(spine, address),
        ensures
            self.linked(spine, address),
    {
        assert forall|d: int| self.width(d) == before.width(d) by {
            if 0 <= d < self.dims@.len() {
                assert(self.dims@[d].width == before.dims@[d].width);
            }
        }
        assert forall|k: int| 0 <= k < spine.len() implies self.entry_ok(
            #[trigger] spine[k],
            address,
        ) by {
            let e = spine[k];
            assert(before.entry_ok(e, address));
            self.lemma_extends_ptr(
                before,
                e.1 as int,
                before.height_at(e.1 as int, e.2 as int),
                e.0,
            );
        }
        assert forall|k: int| 0 < k < spine.len() implies self.follows(
            spine[k - 1],
            #[trigger] spine[k],
        ) by {
            let e = spine[k - 1];
            assert(before.follows(e, spine[k]));
            assert(before.entry_ok(e, address));
            assert(before.slot_live(e.1 as int, e.0.unwrap() as int));
        }
    }
}

impl<Summary: Monoid + PartialOrd + Copy> Nanocube<Summary> {
    /// Appends to `spine` the descent along `addresses` from the root.
    pub fn make_spine(&self, addresses: &Vec<usize>, spine: &mut Vec<SpineEntry>)
        requires
            self.inv(),
            self.valid_address(addresses@),
        ensures
            final(spine)@ == old(spine)@ + self.descent(addresses@, self.base_root, 0, 0),
    {
        let ghost addr = addresses@;
        let ghost target = old(spine)@ + self.descent(addr, self.base_root, 0, 0);
        let n = self.dims.len();
        let mut current_node_index = self.base_root;
        let mut dim: usize = 0;
        let mut bit: usize = 0;
        let mut width = self.dims[dim].width;
        let mut where_to_insert = if bit == width || dim == n {
            None
        } else {
            Some(get_bit(addresses[dim], width - bit - 1))
        };
        spine.push((current_node_index, dim, bit, where_to_insert));
        proof {
            assert(spine@.drop_last() == old(spine)@);
        }
        while current_node_index.is_some() && dim != n
            invariant
                self.inv(),
                self.valid_address(addr),
                addr == addresses@,
                n == self.dims@.len(),
                dim <= n,
                dim < n ==> width == self.width(dim as int),
                bit <= self.width(dim as int),
                self.wf_ptr(dim as int, self.height_at(dim as int, bit as int), current_node_index),
                where_to_insert == self.turn_at(
                    dim as int,
                    self.height_at(dim as int, bit as int),
                    addr,
                ),
                spine@.len() >= 1,
                spine@.last() == (current_node_index, dim, bit, where_to_insert),
                target == spine@.drop_last() + self.descent(
                    addr,
                    current_node_index,
                    dim as int,
                    bit as int,
                ),
            decreases n - dim, self.width(dim as int) - bit,
        {
            let ghost prefix = spine@.drop_last();
            let ghost here = spine@.last();
            let ghost p0 = current_node_index;
            let ghost d0 = dim as int;
            let ghost b0 = bit as int;
            let ghost t0 = where_to_insert;
            assert(self.wf_node(d0, self.height_at(d0, b0), p0.unwrap() as int));
            assert(self.slot_live(d0, p0.unwrap() as int));
            assert(self.dims@[d0].width < usize::BITS);
            let current_node = self.get_node(dim, current_node_index);
            if bit == width {
                dim = dim + 1;
                if dim < n {
                    width = self.dims[dim].width;
                }
                bit = 0;
                current_node_index = current_node.next;
            } else {
                bit = bit + 1;
                current_node_index = if where_to_insert.unwrap() {
                    current_node.right
                } else {
                    current_node.left
                }
            }
            if dim < n {
                assert(self.dims@[dim as int].width < usize::BITS);
            }
            where_to_insert = if bit == width || dim == n {
                None
            } else {
                Some(get_bit(addresses[dim], width - bit - 1))
            };
            spine.push((current_node_index, dim, bit, where_to_insert));
            proof {
                assert(spine@.drop_last() == prefix + seq![here]);
                assert(self.descent(addr, p0, d0, b0) == seq![here] + self.descent(
                    addr,
                    current_node_index,
                    dim as int,
                    bit as int,
                ));
                assert(target == (prefix + seq![here]) + self.descent(
                    addr,
                    current_node_index,
                    dim as int,
                    bit as int,
                ));
            }
        }
        proof {
            assert(self.descent(addr, current_node_index, dim as int, bit as int) == seq![
                spine@.last(),
            ]);
            assert(spine@ == spine@.drop_last() + seq![spine@.last()]);
        }
    }
}

} // verus!
