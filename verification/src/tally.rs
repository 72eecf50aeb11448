//! Exact accounting: that the counts are the numbers of referrers, and that
//! what is live is what can be reached.

use crate::cube::Monoid;
use crate::nanocube::{Nanocube, NodePointerType};
use vstd::prelude::*;

verus! {

impl<Summary: Monoid> Nanocube<Summary> {
    /// Every state is tallied from itself.
    pub proof fn lemma_tallied_refl(&self)
        ensures
            self.tallied_from(self),
    {
    }

    /// Tallied steps follow one another.
    pub proof fn lemma_tallied_trans(&self, mid: &Self, before: &Self)
        requires
            self.tallied_from(mid),
            mid.tallied_from(before),
        ensures
            self.tallied_from(before),
    {
        assert forall|d: int| #[trigger] self.pool_len(d) >= before.pool_len(d) by {
            assert(self.pool_len(d) >= mid.pool_len(d));
            assert(mid.pool_len(d) >= before.pool_len(d));
        }
        assert forall|d: int, i: int|
            0 <= d < self.ndims() && 0 <= i < self.pool_len(d) implies #[trigger] self.mark_at(d, i)
            == 0 || (i < before.pool_len(d) && self.mark_at(d, i) == before.mark_at(d, i)) by {
            assert(mid.pool_len(d) >= before.pool_len(d));
            if self.mark_at(d, i) != 0 {
                assert(i < mid.pool_len(d) && self.mark_at(d, i) == mid.mark_at(d, i));
                assert(mid.mark_at(d, i) == 0 || (i < before.pool_len(d) && mid.mark_at(d, i)
                    == before.mark_at(d, i)));
            }
        }
        assert forall|d: int, i: int|
            0 <= d <= before.ndims() && 0 <= i < before.pool_len(d) && #[trigger] before.count_at(
                d,
                i,
            ) == usize::MAX implies self.count_at(d, i) == usize::MAX by {
            assert(mid.pool_len(d) >= before.pool_len(d));
            assert(mid.count_at(d, i) == usize::MAX);
        }
        assert forall|d: int, i: int|
            0 <= d <= before.ndims() && 0 <= i < before.pool_len(d) implies #[trigger] self.excess(
            d,
            i,
        ) == before.excess(d, i) || self.count_at(d, i) == usize::MAX by {
            assert(mid.pool_len(d) >= before.pool_len(d));
            assert(mid.excess(d, i) == before.excess(d, i) || mid.count_at(d, i) == usize::MAX);
            assert(self.excess(d, i) == mid.excess(d, i) || self.count_at(d, i) == usize::MAX);
        }
        assert forall|d: int, i: int|
            0 <= d <= before.ndims() && before.pool_len(d) <= i < self.pool_len(
                d,
            ) implies #[trigger] self.excess(d, i) == 0 || self.count_at(d, i) == usize::MAX by {
            if i < mid.pool_len(d) {
                assert(mid.excess(d, i) == 0 || mid.count_at(d, i) == usize::MAX);
                assert(self.excess(d, i) == mid.excess(d, i) || self.count_at(d, i) == usize::MAX);
            }
        }
    }

    /// Steps that set no mark leave a cube without marks as one.
    pub proof fn lemma_tallied_unmarked(&self, before: &Self)
        requires
            self.tallied_from(before),
            before.unmarked(),
        ensures
            self.unmarked(),
    {
        assert forall|d: int, i: int|
            0 <= d < self.ndims() && 0 <= i < self.pool_len(d) implies #[trigger] self.mark_at(d, i)
            == 0 by {
            if self.mark_at(d, i) != 0 {
                assert(before.mark_at(d, i) == 0);
            }
        }
    }

    /// A state with the nodes of a state without marks has no marks.
    pub proof fn lemma_unmarked_same(&self, before: &Self)
        requires
            before.unmarked(),
            self.dims@.len() == before.dims@.len(),
            forall|d: int|
                0 <= d < self.dims@.len() ==> (#[trigger] self.dims@[d]).nodes.values@
                    == before.dims@[d].nodes.values@,
        ensures
            self.unmarked(),
    {
        assert forall|d: int, i: int|
            0 <= d < self.ndims() && 0 <= i < self.pool_len(d) implies #[trigger] self.mark_at(d, i)
            == 0 by {
            assert(self.dims@[d].nodes.values@ == before.dims@[d].nodes.values@);
            assert(before.mark_at(d, i) == 0);
        }
    }

    /// Marks kept over two stretches are kept over both.
    pub proof fn lemma_marks_trans(&self, mid: &Self, before: &Self)
        requires
            self.keeps_marks(mid),
            mid.keeps_marks(before),
            mid.extends(before),
        ensures
            self.keeps_marks(before),
    {
        assert forall|d: int, i: int|
            0 <= d < before.ndims() && before.slot_live(d, i) implies #[trigger] self.mark_at(d, i)
            == before.mark_at(d, i) by {
            assert(mid.slot_live(d, i));
            assert(mid.mark_at(d, i) == before.mark_at(d, i));
        }
    }

    /// A change of one excess, followed by steps that count every reference
    /// and add no slot, is that change of excess.
    pub proof fn lemma_shift_then_tally(
        &self,
        mid: &Self,
        before: &Self,
        d: int,
        i: int,
        delta: int,
    )
        requires
            mid.excess_shifted(before, d, i, delta),
            self.tallied_from(mid),
            forall|dd: int| #[trigger] self.pool_len(dd) == mid.pool_len(dd),
        ensures
            self.excess_shifted(before, d, i, delta),
    {
        assert forall|dd: int| #[trigger] self.pool_len(dd) == before.pool_len(dd) by {
            assert(self.pool_len(dd) == mid.pool_len(dd));
            assert(mid.pool_len(dd) == before.pool_len(dd));
        }
        assert forall|dd: int, j: int|
            0 <= dd <= before.ndims() && 0 <= j < before.pool_len(dd) && #[trigger] before.count_at(
                dd,
                j,
            ) == usize::MAX implies self.count_at(dd, j) == usize::MAX by {
            assert(mid.pool_len(dd) == before.pool_len(dd));
            assert(mid.count_at(dd, j) == usize::MAX);
        }
        assert forall|dd: int, j: int|
            0 <= dd <= before.ndims() && 0 <= j < before.pool_len(dd) implies #[trigger] self.excess(
            dd,
            j,
        ) == before.excess(dd, j) + (if dd == d && j == i {
            delta
        } else {
            0
        }) || self.count_at(dd, j) == usize::MAX by {
            assert(mid.pool_len(dd) == before.pool_len(dd));
            assert(self.excess(dd, j) == mid.excess(dd, j) || self.count_at(dd, j) == usize::MAX);
            assert(mid.excess(dd, j) == before.excess(dd, j) + (if dd == d && j == i {
                delta
            } else {
                0
            }) || mid.count_at(dd, j) == usize::MAX);
        }
    }

    /// The steps by which an insertion becomes the cube leave every count
    /// balanced: the new root gets a reference and becomes the root, the chain of
    /// the point gets a reference, and the old root and the chain lose theirs.
    pub proof fn lemma_added_balanced(
        &self,
        s5: &Self,
        s4: &Self,
        s3: &Self,
        s2: &Self,
        s1: &Self,
        s0: &Self,
        base: NodePointerType,
        merged: NodePointerType,
        fresh: NodePointerType,
    )
        requires
            s1.tallied_from(s0),
            merged is Some,
            fresh is Some,
            merged.unwrap() < s1.pool_len(0),
            fresh.unwrap() < s1.pool_len(0),
            base is Some ==> base.unwrap() < s0.pool_len(0),
            s0.ndims() >= 1,
            s2.excess_shifted(s1, 0, merged.unwrap() as int, 1),
            s3.ndims() == s2.ndims(),
            forall|d: int| #[trigger] s3.pool_len(d) == s2.pool_len(d),
            forall|d: int, i: int| #[trigger] s3.count_at(d, i) == s2.count_at(d, i),
            forall|d: int, i: int|
                0 <= d <= s2.ndims() && 0 <= i < s2.pool_len(d) ==> #[trigger] s3.excess(d, i)
                    == s2.excess(d, i) + (if d == 0 && base is Some && base.unwrap() == i {
                    1int
                } else {
                    0int
                }) - (if d == 0 && merged.unwrap() == i {
                    1int
                } else {
                    0int
                }),
            s4.excess_shifted(s3, 0, fresh.unwrap() as int, 1),
            base is Some ==> s5.excess_shifted(s4, 0, base.unwrap() as int, -1),
            base is None ==> s5 == s4,
            self.excess_shifted(s5, 0, fresh.unwrap() as int, -1),
        ensures
            forall|d: int| #[trigger] self.pool_len(d) >= s0.pool_len(d),
            forall|d: int, i: int|
                0 <= d <= s0.ndims() && 0 <= i < s0.pool_len(d) && #[trigger] s0.count_at(d, i)
                    == usize::MAX ==> self.count_at(d, i) == usize::MAX,
            s0.balanced() ==> self.balanced(),
    {
        let m = merged.unwrap() as int;
        let f = fresh.unwrap() as int;
        assert forall|d: int| #[trigger] self.pool_len(d) == s1.pool_len(d) && self.pool_len(d)
            >= s0.pool_len(d) by {
            assert(self.pool_len(d) == s5.pool_len(d));
            assert(s5.pool_len(d) == s4.pool_len(d));
            assert(s4.pool_len(d) == s3.pool_len(d));
            assert(s3.pool_len(d) == s2.pool_len(d));
            assert(s2.pool_len(d) == s1.pool_len(d));
            assert(s1.pool_len(d) >= s0.pool_len(d));
        }
        assert forall|d: int, i: int|
            0 <= d <= s1.ndims() && 0 <= i < s1.pool_len(d) implies (#[trigger] s1.count_at(d, i)
            == usize::MAX ==> s2.count_at(d, i) == usize::MAX) && (s2.count_at(d, i) == usize::MAX
            ==> s3.count_at(d, i) == usize::MAX) && (s3.count_at(d, i) == usize::MAX ==> s4.count_at(
            d,
            i,
        ) == usize::MAX) && (s4.count_at(d, i) == usize::MAX ==> s5.count_at(d, i) == usize::MAX)
            && (s5.count_at(d, i) == usize::MAX ==> self.count_at(d, i) == usize::MAX) by {
            assert(s2.pool_len(d) == s1.pool_len(d));
            assert(s3.pool_len(d) == s2.pool_len(d));
            assert(s4.pool_len(d) == s3.pool_len(d));
            assert(s5.pool_len(d) == s4.pool_len(d));
        }
        assert forall|d: int, i: int|
            0 <= d <= s0.ndims() && 0 <= i < s0.pool_len(d) && #[trigger] s0.count_at(d, i)
                == usize::MAX implies self.count_at(d, i) == usize::MAX by {
            assert(s1.pool_len(d) >= s0.pool_len(d));
            assert(s1.count_at(d, i) == usize::MAX);
        }
        if s0.balanced() {
            assert forall|d: int, i: int|
                0 <= d <= self.ndims() && 0 <= i < self.pool_len(d) implies #[trigger] self.excess(
                d,
                i,
            ) == 0 || self.count_at(d, i) == usize::MAX by {
                assert(self.pool_len(d) == s1.pool_len(d));
                assert(s2.pool_len(d) == s1.pool_len(d));
                assert(s3.pool_len(d) == s2.pool_len(d));
                assert(s4.pool_len(d) == s3.pool_len(d));
                assert(s5.pool_len(d) == s4.pool_len(d));
                if self.count_at(d, i) < usize::MAX {
                    assert(s1.count_at(d, i) < usize::MAX);
                    assert(s5.count_at(d, i) < usize::MAX);
                    assert(s4.count_at(d, i) < usize::MAX);
                    assert(s3.count_at(d, i) < usize::MAX);
                    assert(s2.count_at(d, i) < usize::MAX);
                    assert(s1.excess(d, i) == 0) by {
                        if i < s0.pool_len(d) {
                            assert(s0.excess(d, i) == 0 || s0.count_at(d, i) == usize::MAX);
                        }
                    }
                    let e2 = s2.excess(d, i);
                    let e3 = s3.excess(d, i);
                    let e4 = s4.excess(d, i);
                    let e5 = s5.excess(d, i);
                    assert(e2 == if d == 0 && i == m {
                        1int
                    } else {
                        0int
                    });
                    assert(e4 == e3 + if d == 0 && i == f {
                        1int
                    } else {
                        0int
                    });
                    assert(self.excess(d, i) == e5 + if d == 0 && i == f {
                        -1int
                    } else {
                        0int
                    });
                    if base is Some {
                        assert(e5 == e4 + if d == 0 && i == base.unwrap() {
                            -1int
                        } else {
                            0int
                        });
                    }
                }
            }
        }
    }

    /// A later state in which the nodes that became live are well-formed
    /// within their widths is ranked if the earlier state was.
    pub proof fn lemma_ranked_extended(&self, before: &Self, fresh: Set<(int, int)>)
        requires
            before.ranked(),
            self.extends(before),
            forall|d: int, i: int|
                0 <= d < self.ndims() && #[trigger] self.slot_live(d, i) ==> before.slot_live(d, i)
                    || fresh.contains((d, i)),
            forall|d: int, i: int|
                0 <= d < self.ndims() && #[trigger] fresh.contains((d, i)) && self.slot_live(d, i)
                    ==> exists|h: nat| h <= self.width(d) && self.wf_node(d, h, i),
        ensures
            self.ranked(),
    {
        assert forall|d: int, i: int|
            0 <= d < self.ndims() && #[trigger] self.slot_live(d, i) implies exists|h: nat|
            h <= self.width(d) && self.wf_node(d, h, i) by {
            assert(self.dims@[d].width == before.dims@[d].width);
            if before.slot_live(d, i) {
                let h = choose|h: nat| h <= before.width(d) && before.wf_node(d, h, i);
                self.lemma_extends_wf(before, d, h, i);
                assert(h <= self.width(d) && self.wf_node(d, h, i));
            } else {
                assert(fresh.contains((d, i)));
            }
        }
    }

    /// A closed state that keeps the live slots of a ranked state is ranked.
    pub proof fn lemma_ranked_restricted(&self, before: &Self)
        requires
            before.ranked(),
            self.restricts(before),
            self.closed(),
        ensures
            self.ranked(),
    {
        assert forall|d: int, i: int|
            0 <= d < self.ndims() && #[trigger] self.slot_live(d, i) implies exists|h: nat|
            h <= self.width(d) && self.wf_node(d, h, i) by {
            assert(self.dims@[d].width == before.dims@[d].width);
            assert(before.slot_live(d, i));
            let h = choose|h: nat| h <= before.width(d) && before.wf_node(d, h, i);
            self.lemma_restricts_wf(before, d, h, i);
            assert(h <= self.width(d) && self.wf_node(d, h, i));
        }
    }

    /// In a ranked state a live node is well-formed at a height within its
    /// dimension's width, and at no other.
    pub proof fn lemma_ranked_height(&self, d: int, h: nat, i: int)
        requires
            self.ranked(),
            0 <= d < self.ndims(),
            self.wf_node(d, h, i),
        ensures
            h <= self.width(d),
    {
        assert(self.slot_live(d, i));
        let h2 = choose|h2: nat| h2 <= self.width(d) && self.wf_node(d, h2, i);
        self.lemma_height_unique(d, h, h2, i);
    }
}

} // verus!
