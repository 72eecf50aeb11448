//! Deferred release: the queue of references to give back, and the flush
//! that gives them back and reclaims what nothing refers to any more.

use crate::cube::Monoid;
use crate::nanocube::{NCDimNode, Nanocube, NodePointerType, RELEASE_THRESHOLD, Referrer, covers, same_links};
use crate::refs::links_to;
use vstd::prelude::*;

verus! {

impl<Summary: Monoid> Nanocube<Summary> {
    /// Slot `i` of level `d` is live, and its count accounts for its
    /// referrers, for the three links where they lead to it, and for one
    /// reference more.
    pub open spec fn held_plus(
        &self,
        level: int,
        left: NodePointerType,
        right: NodePointerType,
        next: NodePointerType,
        d: int,
        i: int,
    ) -> bool {
        self.slot_live(d, i) && covers(
            self.count_at(d, i),
            self.referrers(d, i).len() + links_to(level, left, right, next, d, i) + 1,
        )
    }

    /// Every state restricts itself.
    pub proof fn lemma_restricts_refl(&self)
        ensures
            self.restricts(self),
    {
    }

    /// Restriction is transitive.
    pub proof fn lemma_restricts_trans(&self, mid: &Self, before: &Self)
        requires
            self.restricts(mid),
            mid.restricts(before),
        ensures
            self.restricts(before),
    {
        assert forall|d: int, i: int|
            0 <= d < self.ndims() && #[trigger] self.slot_live(d, i) implies before.slot_live(d, i)
            && same_links(self.node(d, i), before.node(d, i)) by {
            assert(mid.slot_live(d, i));
        }
        assert forall|i: int| #[trigger] self.summaries.live(i) implies before.summaries.live(i)
            && self.summaries.values@[i] == before.summaries.values@[i] by {
            assert(mid.summaries.live(i));
        }
        assert forall|d: int| 0 <= d < self.dims@.len() implies (#[trigger] self.dims@[d]).width
            == before.dims@[d].width by {
            assert(mid.dims@[d].width == before.dims@[d].width);
        }
    }

    /// The state after one reference was given back. `before` is the state
    /// with the entry still at the end of the queue, `popped` the state with
    /// the entry taken off, and `self` the state with the count of the entry's
    /// slot lowered and, where the count reached zero, the slot freed.
    ///
    /// All of the invariant holds again but, where a node was freed, the
    /// counting: the counts still account for the links of the freed node,
    /// which are owed to the queue.
    pub proof fn lemma_released(&self, popped: &Self, before: &Self, level: int, slot: int)
        requires
            before.inv(),
            before.release_list@.len() > 0,
            before.release_list@.last() == (Some(slot as usize), level as usize),
            0 <= slot <= usize::MAX,
            0 <= level <= usize::MAX,
            popped.same_but_pending(before),
            popped.release_list@ == before.release_list@.drop_last(),
            self.shape_ok(),
            self.base_root == popped.base_root,
            self.release_list@ == popped.release_list@,
            self.count_at(level, slot) == Self::lowered(popped.count_at(level, slot)),
            forall|d: int, i: int|
                0 <= d <= popped.ndims() && 0 <= i < popped.pool_len(d) && !(d == level && i
                    == slot) ==> self.count_at(d, i) == popped.count_at(d, i),
            popped.count_at(level, slot) != 1 ==> self.same_but_counts(popped),
            popped.count_at(level, slot) == 1 ==> popped.grown_by(self, level, slot),
            forall|d: int| #[trigger] self.pool_len(d) == popped.pool_len(d),
        ensures
            self.closed(),
            self.pending_ok(),
            self.live_set().finite(),
            self.restricts(before),
            self.wf_ptr(0, self.width(0), self.base_root),
            forall|q: Seq<(usize, usize)>| #[trigger] self.answer_to(q) == before.answer_to(q),
            popped.count_at(level, slot) != 1 ==> self.counted() && self.live_set()
                == before.live_set(),
            popped.count_at(level, slot) == 1 ==> self.live_set().len() < before.live_set().len(),
            popped.count_at(level, slot) == 1 ==> before.slot_live(level, slot),
            popped.count_at(level, slot) == 1 && level == self.ndims() ==> self.counted(),
            popped.count_at(level, slot) == 1 && level < self.ndims() ==> self.counted_plus(
                self,
                level,
                before.node(level, slot).left,
                before.node(level, slot).right,
                before.node(level, slot).next,
            ),
            forall|d: int, i: int| #[trigger] self.loose(d, i) ==> before.loose(d, i),
            before.ranked() ==> self.ranked(),
            forall|d: int, i: int|
                0 <= d <= before.ndims() && 0 <= i < before.pool_len(d) && #[trigger] before.count_at(
                    d,
                    i,
                ) == usize::MAX ==> self.count_at(d, i) == usize::MAX,
            forall|d: int, i: int|
                0 <= d <= before.ndims() && 0 <= i < before.pool_len(d) ==> #[trigger] self.excess(
                    d,
                    i,
                ) == before.excess(d, i) + (if popped.count_at(level, slot) == 1 && level
                    < self.ndims() {
                    links_to(
                        level,
                        before.node(level, slot).left,
                        before.node(level, slot).right,
                        before.node(level, slot).next,
                        d,
                        i,
                    )
                } else {
                    0
                }) || self.count_at(d, i) == usize::MAX,
            forall|d: int, i: int| #[trigger]
                before.held(d, i) ==> if popped.count_at(level, slot) == 1 && level < self.ndims() {
                    self.held_plus(
                        level,
                        before.node(level, slot).left,
                        before.node(level, slot).right,
                        before.node(level, slot).next,
                        d,
                        i,
                    )
                } else {
                    self.held(d, i)
                },
    {
        let k = before.pending().len() - 1;
        let e = Referrer::Pending { pos: k };
        let freed = popped.count_at(level, slot) == 1;
        assert(before.pending()[k] == (Some(slot as usize), level as usize));
        assert(level <= before.ndims() && slot < before.pool_len(level));
        // the popped state
        assert forall|d: int, i: int| #[trigger] popped.slot_live(d, i) == before.slot_live(d, i) by {
            if d == before.dims@.len() {
                assert(popped.summaries.is_free(i) == before.summaries.is_free(i));
            }
        }
        assert forall|d: int| #[trigger] popped.pool_len(d) == before.pool_len(d) by {}
        assert forall|d: int, i: int| 0 <= d <= before.ndims() && 0 <= i < before.pool_len(d) implies {
            &&& (#[trigger] popped.referrers(d, i)).finite()
            &&& popped.referrers(d, i).len() <= before.referrers(d, i).len()
            &&& d == level && i == slot ==> popped.referrers(d, i).len() + 1 == before.referrers(
                d,
                i,
            ).len()
        } by {
            popped.lemma_pending_popped(before, d, i);
            assert(before.referrers(d, i).finite());
        }
        assert(before.referrers(level, slot).finite());
        assert(popped.referrers(level, slot).finite());
        assert(before.count_at(level, slot) == popped.count_at(level, slot));
        if freed {
            assert(popped.referrers(level, slot).len() == 0);
            assert(popped.referrers(level, slot) =~= Set::<Referrer>::empty());
            assert(popped.slot_live(level, slot));
            assert(self.live_set() =~= before.live_set().remove((level, slot))) by {
                assert forall|s: (int, int)|
                    self.live_set().contains(s) == before.live_set().remove(
                        (level, slot),
                    ).contains(s) by {
                    if !(s.0 == level && s.1 == slot) {
                        assert(self.slot_live(s.0, s.1) == popped.slot_live(s.0, s.1));
                    }
                }
            }
            assert(before.live_set().contains((level, slot)));
            assert forall|d: int, i: int| 0 <= d <= self.ndims() && 0 <= i < self.pool_len(d) implies {
                &&& (#[trigger] self.referrers(d, i)).finite()
                &&& level == self.ndims() ==> covers(self.count_at(d, i), self.referrers(d, i).len())
                &&& level < self.ndims() ==> covers(
                    self.count_at(d, i),
                    self.referrers(d, i).len() + links_to(
                        level,
                        before.node(level, slot).left,
                        before.node(level, slot).right,
                        before.node(level, slot).next,
                        d,
                        i,
                    ),
                )
            } by {
                self.lemma_shrunk_referrers(popped, level, slot, d, i);
                assert(covers(before.count_at(d, i), before.referrers(d, i).len()));
                if level < self.ndims() {
                    assert(popped.node(level, slot) == before.node(level, slot));
                }
            }
            assert(self.restricts(before)) by {
                assert forall|d: int, i: int|
                    0 <= d < self.ndims() && #[trigger] self.slot_live(
                        d,
                        i,
                    ) implies before.slot_live(d, i) && same_links(
                    self.node(d, i),
                    before.node(d, i),
                ) by {
                    assert(self.slot_live(d, i) == popped.slot_live(d, i));
                    assert(popped.slot_live(d, i));
                }
                assert forall|i: int| #[trigger] self.summaries.live(i) implies before.summaries.live(
                    i,
                ) && self.summaries.values@[i] == before.summaries.values@[i] by {
                    assert(self.slot_live(self.ndims(), i));
                    assert(self.slot_live(self.ndims(), i) == popped.slot_live(self.ndims(), i));
                    assert(popped.slot_live(self.ndims(), i));
                    assert(popped.summaries.live(i));
                }
            }
            // nothing that is still live leads to the freed slot
            assert(self.closed()) by {
                assert forall|d: int, i: int|
                    0 <= d < self.ndims() && #[trigger] self.slot_live(d, i) implies {
                    &&& self.ptr_live(d, self.node(d, i).left)
                    &&& self.ptr_live(d, self.node(d, i).right)
                    &&& self.ptr_live(d + 1, self.node(d, i).next)
                } by {
                    assert(self.slot_live(d, i) == popped.slot_live(d, i));
                    assert(before.slot_live(d, i));
                    let n = before.node(d, i);
                    assert(self.node(d, i) == n);
                    assert(popped.node(d, i) == n);
                    if n.left is Some {
                        let t = n.left.unwrap() as int;
                        assert(before.slot_live(d, t));
                        if d == level && t == slot {
                            assert(popped.refers(Referrer::Left { dim: d, slot: i }, level, slot));
                            assert(popped.referrers(level, slot).contains(
                                Referrer::Left { dim: d, slot: i },
                            ));
                        }
                        assert(self.slot_live(d, t) == popped.slot_live(d, t));
                    }
                    if n.right is Some {
                        let t = n.right.unwrap() as int;
                        assert(before.slot_live(d, t));
                        if d == level && t == slot {
                            assert(popped.refers(Referrer::Right { dim: d, slot: i }, level, slot));
                            assert(popped.referrers(level, slot).contains(
                                Referrer::Right { dim: d, slot: i },
                            ));
                        }
                        assert(self.slot_live(d, t) == popped.slot_live(d, t));
                    }
                    if n.next is Some {
                        let t = n.next.unwrap() as int;
                        assert(before.slot_live(d + 1, t));
                        if d + 1 == level && t == slot {
                            assert(popped.refers(Referrer::Next { dim: d, slot: i }, level, slot));
                            assert(popped.referrers(level, slot).contains(
                                Referrer::Next { dim: d, slot: i },
                            ));
                        }
                        assert(self.slot_live(d + 1, t) == popped.slot_live(d + 1, t));
                    }
                }
            }
            if self.base_root is Some {
                let t = self.base_root.unwrap() as int;
                assert(before.slot_live(0, t));
                if level == 0 && t == slot {
                    assert(popped.refers(Referrer::Root, level, slot));
                    assert(popped.referrers(level, slot).contains(Referrer::Root));
                }
                assert(self.slot_live(0, t) == popped.slot_live(0, t));
            }
        } else {
            self.lemma_same_but_counts(popped);
            assert(self.live_set() =~= before.live_set());
            assert(self.counted()) by {
                assert forall|d: int, i: int|
                    0 <= d <= self.ndims() && 0 <= i < self.pool_len(d) implies {
                    &&& (#[trigger] self.referrers(d, i)).finite()
                    &&& covers(self.count_at(d, i), self.referrers(d, i).len())
                } by {
                    assert(self.referrers(d, i) == popped.referrers(d, i));
                    assert(popped.referrers(d, i).finite());
                    assert(covers(before.count_at(d, i), before.referrers(d, i).len()));
                }
            }
            assert(self.restricts(before)) by {
                assert forall|d: int, i: int|
                    0 <= d < self.ndims() && #[trigger] self.slot_live(
                        d,
                        i,
                    ) implies before.slot_live(d, i) && same_links(
                    self.node(d, i),
                    before.node(d, i),
                ) by {
                    assert(self.slot_live(d, i) == popped.slot_live(d, i));
                    assert(popped.slot_live(d, i) == before.slot_live(d, i));
                    assert(self.dims@[d].nodes.values@ == popped.dims@[d].nodes.values@);
                }
                assert forall|i: int| #[trigger] self.summaries.live(i) implies before.summaries.live(
                    i,
                ) && self.summaries.values@[i] == before.summaries.values@[i] by {
                    assert(self.slot_live(self.ndims(), i) == popped.slot_live(self.ndims(), i));
                    assert(popped.slot_live(self.ndims(), i) == before.slot_live(
                        self.ndims(),
                        i,
                    ));
                }
            }
            assert(self.closed()) by {
                assert forall|d: int, i: int|
                    0 <= d < self.ndims() && #[trigger] self.slot_live(d, i) implies {
                    &&& self.ptr_live(d, self.node(d, i).left)
                    &&& self.ptr_live(d, self.node(d, i).right)
                    &&& self.ptr_live(d + 1, self.node(d, i).next)
                } by {
                    assert(self.slot_live(d, i) == popped.slot_live(d, i));
                    assert(before.slot_live(d, i));
                    let n = before.node(d, i);
                    assert(self.dims@[d].nodes.values@ == popped.dims@[d].nodes.values@);
                    if n.left is Some {
                        let t = n.left.unwrap() as int;
                        assert(before.slot_live(d, t));
                        assert(self.slot_live(d, t) == popped.slot_live(d, t));
                    }
                    if n.right is Some {
                        let t = n.right.unwrap() as int;
                        assert(before.slot_live(d, t));
                        assert(self.slot_live(d, t) == popped.slot_live(d, t));
                    }
                    if n.next is Some {
                        let t = n.next.unwrap() as int;
                        assert(before.slot_live(d + 1, t));
                        assert(self.slot_live(d + 1, t) == popped.slot_live(d + 1, t));
                    }
                }
            }
            if self.base_root is Some {
                let t = self.base_root.unwrap() as int;
                assert(before.slot_live(0, t));
                assert(self.slot_live(0, t) == popped.slot_live(0, t));
            }
        }
        assert forall|d: int, i: int|
            0 <= d <= before.ndims() && 0 <= i < before.pool_len(d) && #[trigger] before.count_at(
                d,
                i,
            ) == usize::MAX implies self.count_at(d, i) == usize::MAX by {
            assert(popped.pool_len(d) == before.pool_len(d));
        }
        {
            assert forall|d: int, i: int|
                0 <= d <= before.ndims() && 0 <= i < before.pool_len(d) implies #[trigger] self.excess(
                d,
                i,
            ) == before.excess(d, i) + (if freed && level < self.ndims() {
                links_to(
                    level,
                    before.node(level, slot).left,
                    before.node(level, slot).right,
                    before.node(level, slot).next,
                    d,
                    i,
                )
            } else {
                0
            }) || self.count_at(d, i) == usize::MAX by {
                assert(popped.pool_len(d) == before.pool_len(d));
                assert(self.pool_len(d) == popped.pool_len(d));
                popped.lemma_pending_popped(before, d, i);
                assert(before.referrers(d, i).finite());
                if freed {
                    self.lemma_shrunk_referrers(popped, level, slot, d, i);
                    if level < self.ndims() {
                        assert(popped.node(level, slot) == before.node(level, slot));
                    }
                } else {
                    assert(self.referrers(d, i) == popped.referrers(d, i));
                }
                if d == level && i == slot {
                    assert(before.referrers(d, i).contains(Referrer::Pending { pos: k }));
                } else {
                    assert(!before.refers(Referrer::Pending { pos: k }, d, i));
                    assert(!before.referrers(d, i).contains(Referrer::Pending { pos: k }));
                    assert(popped.referrers(d, i) =~= before.referrers(d, i));
                }
            }
        }
        assert forall|d: int, i: int| #[trigger] self.loose(d, i) implies before.loose(d, i) by {
            assert(0 <= i < self.pool_len(d));
            assert(self.pool_len(d) == popped.pool_len(d));
            assert(popped.slot_live(d, i) == before.slot_live(d, i));
            if freed {
                assert(!(d == level && i == slot));
                assert(self.slot_live(d, i) == popped.slot_live(d, i));
            } else {
                assert(self.slot_live(d, i) == popped.slot_live(d, i));
                if d == level && i == slot {
                    assert(covers(before.count_at(d, i), before.referrers(d, i).len()));
                }
            }
        }
        assert forall|d: int, i: int| #[trigger] before.held(d, i) implies if freed && level
            < self.ndims() {
            self.held_plus(
                level,
                before.node(level, slot).left,
                before.node(level, slot).right,
                before.node(level, slot).next,
                d,
                i,
            )
        } else {
            self.held(d, i)
        } by {
            assert(0 <= d <= before.ndims() && 0 <= i < before.pool_len(d));
            assert(covers(before.count_at(d, i), before.referrers(d, i).len()));
            assert(popped.referrers(d, i).finite());
            assert(popped.referrers(d, i).len() <= before.referrers(d, i).len());
            assert(popped.slot_live(d, i) == before.slot_live(d, i));
            if freed {
                assert(!(d == level && i == slot));
                assert(self.slot_live(d, i) == popped.slot_live(d, i));
                self.lemma_shrunk_referrers(popped, level, slot, d, i);
                if level < self.ndims() {
                    assert(popped.node(level, slot) == before.node(level, slot));
                }
            } else {
                assert(self.referrers(d, i) == popped.referrers(d, i));
                assert(self.slot_live(d, i) == popped.slot_live(d, i));
            }
        }
        assert(self.pending_ok()) by {
            assert forall|j: int| 0 <= j < self.pending().len() implies {
                &&& (#[trigger] self.pending()[j]).0 is Some
                &&& self.pending()[j].1 <= self.ndims()
                &&& self.pending()[j].0.unwrap() < self.pool_len(self.pending()[j].1 as int)
            } by {
                assert(self.pending()[j] == before.pending()[j]);
                assert(self.pool_len(before.pending()[j].1 as int) == popped.pool_len(
                    before.pending()[j].1 as int,
                ));
            }
        }
        assert(self.width(0) == before.width(0)) by {
            assert(self.dims@[0].width == before.dims@[0].width);
        }
        if self.base_root is Some {
            self.lemma_restricts_wf(before, 0, before.width(0), self.base_root.unwrap() as int);
        }
        assert forall|q: Seq<(usize, usize)>| #[trigger]
            self.answer_to(q) == before.answer_to(q) by {
            self.lemma_restricts_answer(before, 0, before.width(0), self.base_root, 0, q);
        }
        if before.ranked() {
            self.lemma_ranked_restricted(before);
        }
    }

    /// Queueing one of the links that a freed node owes settles the count of
    /// the slot it leads to. `which` is 0 for `left`, 1 for `right`, 2 for
    /// `next`; the links that remain owed are those of `self`'s side.
    pub proof fn lemma_owed_queued(
        &self,
        before: &Self,
        level: int,
        left: NodePointerType,
        right: NodePointerType,
        next: NodePointerType,
        which: int,
    )
        requires
            before.shape_ok(),
            before.closed(),
            before.pending_ok(),
            before.live_set().finite(),
            0 <= level < before.ndims(),
            0 <= which <= 2,
            self.same_but_pending(before),
            before.counted_plus(before, level, left, right, next),
            which == 0 ==> left is Some && left.unwrap() < before.pool_len(level)
                && self.release_list@ == before.release_list@.push((left, level as usize)),
            which == 1 ==> right is Some && right.unwrap() < before.pool_len(level)
                && self.release_list@ == before.release_list@.push((right, level as usize)),
            which == 2 ==> next is Some && next.unwrap() < before.pool_len(level + 1)
                && self.release_list@ == before.release_list@.push((next, (level + 1) as usize)),
        ensures
            self.shape_ok(),
            self.closed(),
            self.pending_ok(),
            self.live_set().finite(),
            self.restricts(before),
            self.counted_plus(
                self,
                level,
                if which == 0 {
                    None
                } else {
                    left
                },
                if which == 1 {
                    None
                } else {
                    right
                },
                if which == 2 {
                    None
                } else {
                    next
                },
            ),
            forall|d: int, i: int| #[trigger] self.loose(d, i) == before.loose(d, i),
            before.ranked() ==> self.ranked(),
            forall|d: int, i: int| #[trigger] self.count_at(d, i) == before.count_at(d, i),
            forall|d: int| #[trigger] self.pool_len(d) == before.pool_len(d),
            forall|d: int, i: int|
                0 <= d <= before.ndims() && 0 <= i < before.pool_len(d) ==> #[trigger] self.excess(
                    d,
                    i,
                ) + links_to(level, left, right, next, d, i) == before.excess(d, i) + links_to(
                    level,
                    if which == 0 {
                        None
                    } else {
                        left
                    },
                    if which == 1 {
                        None
                    } else {
                        right
                    },
                    if which == 2 {
                        None
                    } else {
                        next
                    },
                    d,
                    i,
                ),
            forall|d: int, i: int| #[trigger]
                before.held_plus(level, left, right, next, d, i) ==> self.held_plus(
                    level,
                    if which == 0 {
                        None
                    } else {
                        left
                    },
                    if which == 1 {
                        None
                    } else {
                        right
                    },
                    if which == 2 {
                        None
                    } else {
                        next
                    },
                    d,
                    i,
                ),
    {
        let p = if which == 0 {
            left
        } else if which == 1 {
            right
        } else {
            next
        };
        let tl = if which == 2 {
            level + 1
        } else {
            level
        };
        let slot = p.unwrap() as int;
        let l2 = if which == 0 {
            None
        } else {
            left
        };
        let r2 = if which == 1 {
            None
        } else {
            right
        };
        let n2 = if which == 2 {
            None
        } else {
            next
        };
        assert(self.dims@.len() <= usize::MAX) by {
            assert(self.dims.len() == self.dims@.len());
        }
        assert forall|d: int, i: int| #[trigger] self.slot_live(d, i) == before.slot_live(d, i) by {
            if d == self.dims@.len() {
                assert(self.summaries.is_free(i) == before.summaries.is_free(i));
            }
        }
        assert(self.live_set() =~= before.live_set());
        assert(self.release_list@ == before.release_list@.push((Some(slot as usize), tl as usize)));
        assert forall|d: int, i: int| 0 <= d <= self.ndims() && 0 <= i < self.pool_len(d) implies {
            &&& (#[trigger] self.referrers(d, i)).finite()
            &&& covers(
                self.count_at(d, i),
                self.referrers(d, i).len() + links_to(level, l2, r2, n2, d, i),
            )
        } by {
            self.lemma_pending_pushed(before, tl, slot, d, i);
            assert(before.referrers(d, i).finite());
            assert(covers(
                before.count_at(d, i),
                before.referrers(d, i).len() + links_to(level, left, right, next, d, i),
            ));
        }
        assert forall|d: int, i: int| #[trigger] self.loose(d, i) == before.loose(d, i) by {
            assert(self.slot_live(d, i) == before.slot_live(d, i));
        }
        assert forall|d: int, i: int|
            0 <= d <= before.ndims() && 0 <= i < before.pool_len(d) implies #[trigger] self.excess(
            d,
            i,
        ) + links_to(level, left, right, next, d, i) == before.excess(d, i) + links_to(
            level,
            l2,
            r2,
            n2,
            d,
            i,
        ) by {
            self.lemma_pending_pushed(before, tl, slot, d, i);
            assert(before.referrers(d, i).finite());
            assert(self.count_at(d, i) == before.count_at(d, i));
            assert(self.pool_len(tl) <= usize::MAX) by {
                if tl < self.ndims() {
                    assert(self.dims@[tl].nodes.values.len() == self.dims@[tl].nodes.values@.len());
                } else {
                    assert(self.summaries.values.len() == self.summaries.values@.len());
                }
            }
        }
        assert forall|d: int, i: int| #[trigger]
            before.held_plus(level, left, right, next, d, i) implies self.held_plus(
            level,
            l2,
            r2,
            n2,
            d,
            i,
        ) by {
            self.lemma_pending_pushed(before, tl, slot, d, i);
            assert(0 <= d <= before.ndims() && 0 <= i < before.pool_len(d));
            assert(before.referrers(d, i).finite());
            assert(self.slot_live(d, i) == before.slot_live(d, i));
        }
        assert(self.pending_ok()) by {
            assert forall|k: int| 0 <= k < self.pending().len() implies {
                &&& (#[trigger] self.pending()[k]).0 is Some
                &&& self.pending()[k].1 <= self.ndims()
                &&& self.pending()[k].0.unwrap() < self.pool_len(self.pending()[k].1 as int)
            } by {
                if k < before.pending().len() {
                    assert(self.pending()[k] == before.pending()[k]);
                }
            }
        }
        assert(self.closed()) by {
            assert forall|d: int, i: int|
                0 <= d < self.ndims() && #[trigger] self.slot_live(d, i) implies {
                &&& self.ptr_live(d, self.node(d, i).left)
                &&& self.ptr_live(d, self.node(d, i).right)
                &&& self.ptr_live(d + 1, self.node(d, i).next)
            } by {
                assert(before.slot_live(d, i));
                let n = before.node(d, i);
                if n.left is Some {
                    assert(self.slot_live(d, n.left.unwrap() as int) == before.slot_live(
                        d,
                        n.left.unwrap() as int,
                    ));
                }
                if n.right is Some {
                    assert(self.slot_live(d, n.right.unwrap() as int) == before.slot_live(
                        d,
                        n.right.unwrap() as int,
                    ));
                }
                if n.next is Some {
                    assert(self.slot_live(d + 1, n.next.unwrap() as int) == before.slot_live(
                        d + 1,
                        n.next.unwrap() as int,
                    ));
                }
            }
        }
        assert(self.restricts(before)) by {
            assert forall|d: int, i: int|
                0 <= d < self.ndims() && #[trigger] self.slot_live(d, i) implies before.slot_live(
                d,
                i,
            ) && same_links(self.node(d, i), before.node(d, i)) by {
                assert(self.slot_live(d, i) == before.slot_live(d, i));
            }
            assert forall|i: int| #[trigger] self.summaries.live(i) implies before.summaries.live(
                i,
            ) && self.summaries.values@[i] == before.summaries.values@[i] by {
                assert(self.slot_live(self.ndims(), i) == before.slot_live(self.ndims(), i));
            }
        }
        if before.ranked() {
            self.lemma_ranked_restricted(before);
        }
    }

    /// Overwriting a slot that is not live changes nothing that the
    /// invariant speaks of.
    pub proof fn lemma_dead_changed(&self, before: &Self, level: int, slot: int)
        requires
            before.shape_ok(),
            before.closed(),
            before.counted(),
            before.pending_ok(),
            before.live_set().finite(),
            0 <= level < before.ndims(),
            !before.slot_live(level, slot),
            0 <= slot < before.pool_len(level),
            self.base_root == before.base_root,
            self.release_list@ == before.release_list@,
            self.summaries.values@ == before.summaries.values@,
            self.summaries.free_list@ == before.summaries.free_list@,
            self.summaries.ref_counts@ == before.summaries.ref_counts@,
            self.dims@.len() == before.dims@.len(),
            forall|d: int|
                0 <= d < self.dims@.len() ==> {
                    &&& (#[trigger] self.dims@[d]).width == before.dims@[d].width
                    &&& self.dims@[d].nodes.free_list@ == before.dims@[d].nodes.free_list@
                    &&& self.dims@[d].nodes.ref_counts@ == before.dims@[d].nodes.ref_counts@
                    &&& self.dims@[d].nodes.values@.len() == before.dims@[d].nodes.values@.len()
                    &&& forall|i: int|
                        0 <= i < self.dims@[d].nodes.values@.len() && !(d == level && i == slot)
                            ==> self.dims@[d].nodes.values@[i] == before.dims@[d].nodes.values@[i]
                },
        ensures
            self.shape_ok(),
            self.closed(),
            self.counted(),
            self.pending_ok(),
            self.live_set().finite(),
            self.restricts(before),
            forall|d: int, i: int| #[trigger] before.held(d, i) ==> self.held(d, i),
            forall|d: int, i: int| #[trigger] self.loose(d, i) == before.loose(d, i),
            forall|d: int, i: int|
                0 <= d <= before.ndims() && 0 <= i < before.pool_len(d) ==> #[trigger] self.excess(
                    d,
                    i,
                ) == before.excess(d, i) && self.count_at(d, i) == before.count_at(d, i),
            forall|d: int| #[trigger] self.pool_len(d) == before.pool_len(d),
            before.ranked() ==> self.ranked(),
    {
        assert forall|d: int, i: int| #[trigger] self.slot_live(d, i) == before.slot_live(d, i) by {
            if 0 <= d < self.dims@.len() {
                assert(self.dims@[d].nodes.free_list@ == before.dims@[d].nodes.free_list@);
                assert(self.dims@[d].nodes.is_free(i) == before.dims@[d].nodes.is_free(i));
            } else if d == self.dims@.len() {
                assert(self.summaries.is_free(i) == before.summaries.is_free(i));
            }
        }
        assert(self.live_set() =~= before.live_set());
        assert forall|d: int| #[trigger] self.pool_len(d) == before.pool_len(d) by {
            if 0 <= d < self.dims@.len() {
                assert(self.dims@[d].nodes.values@.len() == before.dims@[d].nodes.values@.len());
            }
        }
        assert forall|d: int, i: int|
            0 <= d < self.ndims() && #[trigger] self.slot_live(d, i) implies self.node(d, i)
            == before.node(d, i) by {
            assert(before.slot_live(d, i));
            assert(self.dims@[d].width == before.dims@[d].width);
        }
        assert(self.shape_ok()) by {
            assert forall|d: int| 0 <= d < self.dims@.len() implies (#[trigger] self.dims@[d]).nodes.wf() by {
                assert(before.dims@[d].nodes.wf());
                assert(self.dims@[d].width == before.dims@[d].width);
            }
            assert forall|d: int| 0 <= d < self.dims@.len() implies 1 <= (#[trigger] self.dims@[d]).width
                < usize::BITS by {
                assert(1 <= before.dims@[d].width < usize::BITS);
            }
        }
        assert forall|d: int, i: int| #[trigger] self.referrers(d, i) == before.referrers(d, i) by {
            assert forall|r: Referrer| self.refers(r, d, i) == before.refers(r, d, i) by {
                match r {
                    Referrer::Left { dim, slot: j } => {
                        assert(self.slot_live(dim, j) == before.slot_live(dim, j));
                    },
                    Referrer::Right { dim, slot: j } => {
                        assert(self.slot_live(dim, j) == before.slot_live(dim, j));
                    },
                    Referrer::Next { dim, slot: j } => {
                        assert(self.slot_live(dim, j) == before.slot_live(dim, j));
                    },
                    _ => {},
                }
            }
            assert(self.referrers(d, i) =~= before.referrers(d, i));
        }
        assert(self.counted()) by {
            assert forall|d: int, i: int|
                0 <= d <= self.ndims() && 0 <= i < self.pool_len(d) implies {
                &&& (#[trigger] self.referrers(d, i)).finite()
                &&& covers(self.count_at(d, i), self.referrers(d, i).len())
            } by {
                assert(self.referrers(d, i) == before.referrers(d, i));
                assert(before.referrers(d, i).finite());
                assert(self.pool_len(d) == before.pool_len(d));
                if d < self.ndims() {
                    assert(self.dims@[d].nodes.ref_counts@ == before.dims@[d].nodes.ref_counts@);
                }
            }
        }
        assert forall|d: int, i: int| #[trigger] before.held(d, i) implies self.held(d, i) by {
            assert(self.referrers(d, i) == before.referrers(d, i));
            assert(self.slot_live(d, i) == before.slot_live(d, i));
            if 0 <= d < self.ndims() {
                assert(self.dims@[d].nodes.ref_counts@ == before.dims@[d].nodes.ref_counts@);
            }
        }
        assert forall|d: int, i: int| #[trigger] self.loose(d, i) == before.loose(d, i) by {
            assert(self.slot_live(d, i) == before.slot_live(d, i));
            if 0 <= d < self.ndims() {
                assert(self.dims@[d].nodes.ref_counts@ == before.dims@[d].nodes.ref_counts@);
            }
        }
        assert forall|d: int, i: int|
            0 <= d <= before.ndims() && 0 <= i < before.pool_len(d) implies #[trigger] self.excess(
            d,
            i,
        ) == before.excess(d, i) && self.count_at(d, i) == before.count_at(d, i) by {
            assert(self.referrers(d, i) == before.referrers(d, i));
            if 0 <= d < self.ndims() {
                assert(self.dims@[d].nodes.ref_counts@ == before.dims@[d].nodes.ref_counts@);
            }
        }
        assert(self.pending_ok()) by {
            assert forall|k: int| 0 <= k < self.pending().len() implies {
                &&& (#[trigger] self.pending()[k]).0 is Some
                &&& self.pending()[k].1 <= self.ndims()
                &&& self.pending()[k].0.unwrap() < self.pool_len(self.pending()[k].1 as int)
            } by {
                assert(self.pool_len(before.pending()[k].1 as int) == before.pool_len(
                    before.pending()[k].1 as int,
                ));
            }
        }
        assert(self.closed()) by {
            assert forall|d: int, i: int|
                0 <= d < self.ndims() && #[trigger] self.slot_live(d, i) implies {
                &&& self.ptr_live(d, self.node(d, i).left)
                &&& self.ptr_live(d, self.node(d, i).right)
                &&& self.ptr_live(d + 1, self.node(d, i).next)
            } by {
                assert(before.slot_live(d, i));
                let n = before.node(d, i);
                if n.left is Some {
                    assert(self.slot_live(d, n.left.unwrap() as int) == before.slot_live(
                        d,
                        n.left.unwrap() as int,
                    ));
                }
                if n.right is Some {
                    assert(self.slot_live(d, n.right.unwrap() as int) == before.slot_live(
                        d,
                        n.right.unwrap() as int,
                    ));
                }
                if n.next is Some {
                    assert(self.slot_live(d + 1, n.next.unwrap() as int) == before.slot_live(
                        d + 1,
                        n.next.unwrap() as int,
                    ));
                }
            }
        }
        assert(self.restricts(before)) by {
            assert forall|i: int| #[trigger] self.summaries.live(i) implies before.summaries.live(
                i,
            ) && self.summaries.values@[i] == before.summaries.values@[i] by {
                assert(self.slot_live(self.ndims(), i) == before.slot_live(self.ndims(), i));
            }
            assert forall|d: int, i: int|
                0 <= d < self.ndims() && #[trigger] self.slot_live(d, i) implies before.slot_live(
                d,
                i,
            ) && same_links(self.node(d, i), before.node(d, i)) by {
                assert(self.slot_live(d, i) == before.slot_live(d, i));
            }
        }
        if before.ranked() {
            self.lemma_ranked_restricted(before);
        }
    }

    /// A state that satisfies the rest of the invariant and keeps the live
    /// slots of a state with a well-formed root, the root among them, has a
    /// well-formed root with the same answers.
    pub proof fn lemma_restricts_root(&self, before: &Self)
        requires
            self.restricts(before),
            self.closed(),
            self.base_root == before.base_root,
            self.ndims() >= 1,
            before.wf_ptr(0, before.width(0), before.base_root),
            self.ptr_live(0, self.base_root),
        ensures
            self.wf_ptr(0, self.width(0), self.base_root),
            forall|q: Seq<(usize, usize)>| #[trigger] self.answer_to(q) == before.answer_to(q),
    {
        assert(self.width(0) == before.width(0)) by {
            assert(self.dims@[0].width == before.dims@[0].width);
        }
        if self.base_root is Some {
            self.lemma_restricts_wf(before, 0, before.width(0), self.base_root.unwrap() as int);
        }
        assert forall|q: Seq<(usize, usize)>| #[trigger]
            self.answer_to(q) == before.answer_to(q) by {
            self.lemma_restricts_answer(before, 0, before.width(0), self.base_root, 0, q);
        }
        if before.ranked() {
            self.lemma_ranked_restricted(before);
        }
    }
}

impl<Summary: Monoid> Nanocube<Summary> {
    /// One release carried out, with the links of a freed node queued, is a
    /// step that counts every reference it drops.
    pub proof fn lemma_flushed_one(&self, mid: &Self, before: &Self, freed: Option<(usize, usize)>)
        requires
            before.ndims() == mid.ndims(),
            mid.ndims() == self.ndims(),
            forall|d: int| #[trigger] mid.pool_len(d) == before.pool_len(d),
            forall|d: int| #[trigger] self.pool_len(d) == mid.pool_len(d),
            forall|d: int, i: int|
                0 <= d <= before.ndims() && 0 <= i < before.pool_len(d) && #[trigger] before.count_at(
                    d,
                    i,
                ) == usize::MAX ==> mid.count_at(d, i) == usize::MAX,
            freed is None ==> self == mid,
            freed is None ==> forall|d: int, i: int|
                0 <= d <= before.ndims() && 0 <= i < before.pool_len(d) ==> #[trigger] mid.excess(
                    d,
                    i,
                ) == before.excess(d, i) || mid.count_at(d, i) == usize::MAX,
            freed is Some ==> {
                let idx = freed.unwrap().0 as int;
                let dim = freed.unwrap().1 as int;
                let n = before.node(dim, idx);
                &&& mid.node(dim, idx) == n
                &&& forall|d: int, i: int|
                    0 <= d <= mid.ndims() && 0 <= i < mid.pool_len(d) ==> #[trigger] self.count_at(
                        d,
                        i,
                    ) == mid.count_at(d, i)
                &&& forall|d: int, i: int|
                    0 <= d <= mid.ndims() && 0 <= i < mid.pool_len(d) ==> #[trigger] self.excess(
                        d,
                        i,
                    ) + links_to(dim, n.left, n.right, n.next, d, i) == mid.excess(d, i)
                &&& forall|d: int, i: int|
                    0 <= d <= before.ndims() && 0 <= i < before.pool_len(d) ==> #[trigger] mid.excess(
                        d,
                        i,
                    ) == before.excess(d, i) + links_to(dim, n.left, n.right, n.next, d, i)
                        || mid.count_at(d, i) == usize::MAX
            },
            forall|d: int, i: int|
                0 <= d < self.ndims() && 0 <= i < self.pool_len(d) ==> #[trigger] self.mark_at(d, i)
                    == before.mark_at(d, i),
        ensures
            self.tallied_from(before),
    {
        assert forall|d: int| #[trigger] self.pool_len(d) >= before.pool_len(d) by {
            assert(self.pool_len(d) == mid.pool_len(d));
            assert(mid.pool_len(d) == before.pool_len(d));
        }
        assert forall|d: int, i: int|
            0 <= d <= before.ndims() && 0 <= i < before.pool_len(d) && #[trigger] before.count_at(
                d,
                i,
            ) == usize::MAX implies self.count_at(d, i) == usize::MAX by {
            assert(mid.pool_len(d) == before.pool_len(d));
        }
        assert forall|d: int, i: int|
            0 <= d <= before.ndims() && 0 <= i < before.pool_len(d) implies #[trigger] self.excess(
            d,
            i,
        ) == before.excess(d, i) || self.count_at(d, i) == usize::MAX by {
            assert(mid.pool_len(d) == before.pool_len(d));
            assert(self.pool_len(d) == mid.pool_len(d));
            if freed is Some {
                let idx = freed.unwrap().0 as int;
                let dim = freed.unwrap().1 as int;
                let n = before.node(dim, idx);
                assert(self.count_at(d, i) == mid.count_at(d, i));
                assert(self.excess(d, i) + links_to(dim, n.left, n.right, n.next, d, i)
                    == mid.excess(d, i));
                assert(mid.excess(d, i) == before.excess(d, i) + links_to(
                    dim,
                    n.left,
                    n.right,
                    n.next,
                    d,
                    i,
                ) || mid.count_at(d, i) == usize::MAX);
            } else {
                assert(mid.excess(d, i) == before.excess(d, i) || mid.count_at(d, i) == usize::MAX);
            }
        }
    }
}

/// The node `n` without its links.
pub open spec fn cleared(n: NCDimNode) -> NCDimNode {
    NCDimNode { left: None, right: None, next: None, flags: n.flags }
}

impl<Summary: Monoid + PartialOrd + Copy> Nanocube<Summary> {
    /// Takes the entry at the end of the queue and gives back the reference
    /// that it stands for. Returns the slot and its dimension if that freed a
    /// node: the links of the node are then owed to the queue.
    fn release_last(&mut self) -> (freed: Option<(usize, usize)>)
        requires
            old(self).inv(),
            old(self).release_list@.len() > 0,
        ensures
            final(self).shape_ok(),
            final(self).closed(),
            final(self).pending_ok(),
            final(self).live_set().finite(),
            final(self).restricts(old(self)),
            final(self).base_root == old(self).base_root,
            final(self).wf_ptr(0, final(self).width(0), final(self).base_root),
            final(self).release_list@ == old(self).release_list@.drop_last(),
            forall|d: int, i: int|
                0 <= d <= old(self).ndims() && 0 <= i < old(self).pool_len(d)
                    ==> #[trigger] final(self).count_at(d, i) <= old(self).count_at(d, i),
            final(self).summaries.values@ == old(self).summaries.values@,
            forall|d: int|
                0 <= d < old(self).ndims() ==> (#[trigger] final(self).dims@[d]).nodes.values@
                    == old(self).dims@[d].nodes.values@,
            forall|d: int, i: int|
                0 <= d < old(self).ndims() && 0 <= i < old(self).pool_len(d) && (freed is None
                    || freed.unwrap().0 != i || freed.unwrap().1 != d) ==> #[trigger] final(self).slot_live(d, i) == old(self).slot_live(d, i),
            forall|q: Seq<(usize, usize)>| #[trigger]
                final(self).answer_to(q) == old(self).answer_to(q),
            forall|d: int| #[trigger] final(self).pool_len(d) == old(self).pool_len(d),
            forall|d: int, i: int| #[trigger] final(self).loose(d, i) ==> old(self).loose(d, i),
            old(self).ranked() ==> final(self).ranked(),
            forall|d: int, i: int|
                0 <= d <= old(self).ndims() && 0 <= i < old(self).pool_len(d)
                    && #[trigger] old(self).count_at(d, i) == usize::MAX ==> final(self).count_at(
                    d,
                    i,
                ) == usize::MAX,
            freed is None ==> {
                &&& final(self).counted()
                &&& final(self).live_set().len() <= old(self).live_set().len()
                &&& forall|d: int, i: int| #[trigger] old(self).held(d, i) ==> final(self).held(d, i)
                &&& forall|d: int, i: int|
                    0 <= d <= old(self).ndims() && 0 <= i < old(self).pool_len(d)
                        ==> #[trigger] final(self).excess(d, i) == old(self).excess(d, i) || final(self).count_at(d, i) == usize::MAX
            },
            freed is Some ==> {
                let idx = freed.unwrap().0 as int;
                let dim = freed.unwrap().1 as int;
                let n = old(self).node(dim, idx);
                &&& dim < old(self).ndims()
                &&& idx < old(self).pool_len(dim)
                &&& old(self).slot_live(dim, idx)
                &&& !final(self).slot_live(dim, idx)
                &&& final(self).node(dim, idx) == n
                &&& old(self).ptr_live(dim, n.left)
                &&& old(self).ptr_live(dim, n.right)
                &&& old(self).ptr_live(dim + 1, n.next)
                &&& final(self).live_set().len() < old(self).live_set().len()
                &&& final(self).counted_plus(final(self), dim, n.left, n.right, n.next)
                &&& forall|d: int, i: int| #[trigger]
                    old(self).held(d, i) ==> final(self).held_plus(dim, n.left, n.right, n.next, d, i)
                &&& forall|d: int, i: int|
                    0 <= d <= old(self).ndims() && 0 <= i < old(self).pool_len(d)
                        ==> #[trigger] final(self).excess(d, i) == old(self).excess(d, i) + links_to(
                        dim,
                        n.left,
                        n.right,
                        n.next,
                        d,
                        i,
                    ) || final(self).count_at(d, i) == usize::MAX
            },
    {
        let ghost a = *self;
        let n = self.dims.len();
        let (node_index, dim) = self.release_list.pop().unwrap();
        let ghost p = *self;
        proof {
            let k = a.pending().len() - 1;
            assert(a.pending()[k].0 is Some);
            assert(p.release_list@ == a.release_list@.drop_last());
            p.lemma_pending_popped(&a, dim as int, node_index.unwrap() as int);
            assert(a.referrers(dim as int, node_index.unwrap() as int).finite());
            assert(a.referrers(dim as int, node_index.unwrap() as int).len() >= 1);
        }
        let idx = node_index.unwrap();
        if dim == n {
            if self.summaries.ref_counts[idx] < usize::MAX {
                self.summaries.release_ref(idx);
            }
            proof {
                let lv = dim as int;
                let i = idx as int;
                if p.count_at(lv, i) == 1 {
                    assert(p.summaries.live(i)) by {
                        if p.summaries.is_free(i) {
                            let kk = choose|kk: int|
                                0 <= kk < p.summaries.free_list@.len() && p.summaries.free_list@[kk]
                                    == i;
                            assert(p.summaries.ref_counts@[p.summaries.free_list@[kk] as int] == 0);
                        }
                    }
                    assert(!self.summaries.live(i)) by {
                        assert(self.summaries.free_list@[p.summaries.free_list@.len() as int] == i);
                    }
                    assert forall|j: int| j != i implies self.summaries.live(j)
                        == p.summaries.live(j) by {
                        if self.summaries.is_free(j) {
                            let kk = choose|kk: int|
                                0 <= kk < self.summaries.free_list@.len()
                                    && self.summaries.free_list@[kk] == j;
                            assert(p.summaries.free_list@[kk] == j);
                        }
                        if p.summaries.is_free(j) {
                            let kk = choose|kk: int|
                                0 <= kk < p.summaries.free_list@.len() && p.summaries.free_list@[kk]
                                    == j;
                            assert(self.summaries.free_list@[kk] == j);
                        }
                    }
                    assert(p.grown_by(self, lv, i));
                }
                self.lemma_released(&p, &a, lv, i);
                if p.count_at(lv, i) != 1 {
                    assert(self.live_set() == a.live_set());
                }
                assert(self.dims@ == a.dims@);
            }
            None
        } else {
            let mut new_ref_count = usize::MAX;
            proof {
                assert(a.dims@[dim as int].nodes.wf());
            }
            if self.dims[dim].nodes.ref_counts[idx] < usize::MAX {
                new_ref_count = self.dims[dim].nodes.release_ref(idx);
            }
            proof {
                let lv = dim as int;
                let i = idx as int;
                assert(forall|d: int|
                    0 <= d < self.dims@.len() && d != dim ==> self.dims@[d] == p.dims@[d]);
                let pool = p.dims@[lv].nodes;
                let now = self.dims@[lv].nodes;
                if p.count_at(lv, i) == 1 {
                    assert(pool.live(i)) by {
                        if pool.is_free(i) {
                            let kk = choose|kk: int|
                                0 <= kk < pool.free_list@.len() && pool.free_list@[kk] == i;
                            assert(pool.ref_counts@[pool.free_list@[kk] as int] == 0);
                        }
                    }
                    assert(!now.live(i)) by {
                        assert(now.free_list@[pool.free_list@.len() as int] == i);
                    }
                    assert forall|j: int| j != i implies now.live(j) == pool.live(j) by {
                        if now.is_free(j) {
                            let kk = choose|kk: int|
                                0 <= kk < now.free_list@.len() && now.free_list@[kk] == j;
                            assert(pool.free_list@[kk] == j);
                        }
                        if pool.is_free(j) {
                            let kk = choose|kk: int|
                                0 <= kk < pool.free_list@.len() && pool.free_list@[kk] == j;
                            assert(now.free_list@[kk] == j);
                        }
                    }
                    assert(p.grown_by(self, lv, i));
                }
                self.lemma_released(&p, &a, lv, i);
                if p.count_at(lv, i) != 1 {
                    assert(self.live_set() == a.live_set());
                } else {
                    assert(a.slot_live(lv, i));
                    assert(a.ptr_live(lv, a.node(lv, i).left));
                    assert(a.ptr_live(lv, a.node(lv, i).right));
                    assert(a.ptr_live(lv + 1, a.node(lv, i).next));
                }
                assert forall|d: int| 0 <= d < a.ndims() implies (#[trigger] self.dims@[d]).nodes.values@
                    == a.dims@[d].nodes.values@ by {
                    if d != lv {
                        assert(self.dims@[d] == p.dims@[d]);
                    }
                }
                assert forall|d: int, j: int|
                    0 <= d < a.ndims() && 0 <= j < a.pool_len(d) && !(p.count_at(lv, i) == 1 && d
                        == lv && j == i) implies #[trigger] self.slot_live(d, j) == a.slot_live(
                    d,
                    j,
                ) by {
                    if d != lv {
                        assert(self.dims@[d] == p.dims@[d]);
                    } else if p.count_at(lv, i) == 1 {
                        assert(now.live(j) == pool.live(j));
                    } else {
                        assert(now.free_list@ == pool.free_list@);
                        assert(now.is_free(j) == pool.is_free(j));
                    }
                }
            }
            if new_ref_count == 0 {
                Some((idx, dim))
            } else {
                None
            }
        }
    }

    /// Queues the release of what the links of the freed node in slot `idx`
    /// of dimension `dim` lead to, and clears the links.
    fn queue_links(&mut self, idx: usize, dim: usize)
        requires
            old(self).shape_ok(),
            old(self).closed(),
            old(self).pending_ok(),
            old(self).live_set().finite(),
            dim < old(self).dims@.len(),
            idx < old(self).pool_len(dim as int),
            !old(self).slot_live(dim as int, idx as int),
            old(self).counted_plus(
                old(self),
                dim as int,
                old(self).node(dim as int, idx as int).left,
                old(self).node(dim as int, idx as int).right,
                old(self).node(dim as int, idx as int).next,
            ),
            old(self).node(dim as int, idx as int).left is Some ==> old(self).node(
                dim as int,
                idx as int,
            ).left.unwrap() < old(self).pool_len(dim as int),
            old(self).node(dim as int, idx as int).right is Some ==> old(self).node(
                dim as int,
                idx as int,
            ).right.unwrap() < old(self).pool_len(dim as int),
            old(self).node(dim as int, idx as int).next is Some ==> old(self).node(
                dim as int,
                idx as int,
            ).next.unwrap() < old(self).pool_len(dim + 1),
        ensures
            final(self).shape_ok(),
            final(self).closed(),
            final(self).counted(),
            final(self).pending_ok(),
            final(self).live_set().finite(),
            final(self).restricts(old(self)),
            final(self).base_root == old(self).base_root,
            final(self).live_set() == old(self).live_set(),
            final(self).summaries.values@ == old(self).summaries.values@,
            forall|d: int, i: int|
                0 <= d < old(self).ndims() && 0 <= i < old(self).pool_len(d)
                    ==> #[trigger] final(self).node(d, i) == if d == dim && i == idx {
                    cleared(old(self).node(d, i))
                } else {
                    old(self).node(d, i)
                },
            old(self).ranked() ==> final(self).ranked(),
            forall|d: int| #[trigger] final(self).pool_len(d) == old(self).pool_len(d),
            forall|d: int, i: int| #[trigger] final(self).slot_live(d, i) == old(self).slot_live(d, i),
            forall|d: int, i: int| #[trigger] final(self).loose(d, i) == old(self).loose(d, i),
            forall|d: int, i: int|
                0 <= d <= old(self).ndims() && 0 <= i < old(self).pool_len(d) ==> #[trigger] final(self).count_at(d, i) == old(self).count_at(d, i),
            forall|d: int, i: int| #[trigger]
                old(self).held_plus(
                    dim as int,
                    old(self).node(dim as int, idx as int).left,
                    old(self).node(dim as int, idx as int).right,
                    old(self).node(dim as int, idx as int).next,
                    d,
                    i,
                ) ==> final(self).held(d, i),
            forall|d: int, i: int|
                0 <= d <= old(self).ndims() && 0 <= i < old(self).pool_len(d) ==> #[trigger] final(self).excess(d, i) + links_to(
                    dim as int,
                    old(self).node(dim as int, idx as int).left,
                    old(self).node(dim as int, idx as int).right,
                    old(self).node(dim as int, idx as int).next,
                    d,
                    i,
                ) == old(self).excess(d, i),
    {
        let ghost m = *self;
        let ghost lv = dim as int;
        let node = *self.dims[dim].at(Some(idx));
        proof {
            m.lemma_restricts_refl();
        }
        if node.left.is_some() {
            self.release_list.push((node.left, dim));
            proof {
                self.lemma_owed_queued(&m, lv, node.left, node.right, node.next, 0);
            }
        }
        let ghost q1 = *self;
        if node.right.is_some() {
            self.release_list.push((node.right, dim));
            proof {
                self.lemma_owed_queued(&q1, lv, None, node.right, node.next, 1);
            }
        }
        let ghost q2 = *self;
        assert(dim < self.dims.len());
        if node.next.is_some() {
            self.release_list.push((node.next, dim + 1));
            proof {
                self.lemma_owed_queued(&q2, lv, None, None, node.next, 2);
            }
        }
        let ghost q3 = *self;
        proof {
            q1.lemma_restricts_refl();
            q2.lemma_restricts_refl();
            assert(q3.counted()) by {
                assert(q3.counted_plus(&q3, lv, None, None, None));
                assert forall|d: int, i: int| 0 <= d <= q3.ndims() && 0 <= i < q3.pool_len(d) implies {
                    &&& (#[trigger] q3.referrers(d, i)).finite()
                    &&& covers(q3.count_at(d, i), q3.referrers(d, i).len())
                } by {
                    assert(links_to(lv, None, None, None, d, i) == 0);
                }
            }
            assert(q3.dims@ == m.dims@);
            assert(!q3.slot_live(lv, idx as int)) by {
                assert(q3.slot_live(lv, idx as int) == q2.slot_live(lv, idx as int));
                assert(q2.slot_live(lv, idx as int) == q1.slot_live(lv, idx as int));
                assert(q1.slot_live(lv, idx as int) == m.slot_live(lv, idx as int));
            }
            assert forall|d: int, i: int|
                0 <= d <= m.ndims() && 0 <= i < m.pool_len(d) implies #[trigger] q3.excess(d, i)
                + links_to(lv, node.left, node.right, node.next, d, i) == m.excess(d, i) by {
                assert(q1.pool_len(d) == m.pool_len(d));
                assert(q2.pool_len(d) == q1.pool_len(d));
                assert(q1.excess(d, i) + links_to(lv, node.left, node.right, node.next, d, i)
                    == m.excess(d, i) + links_to(lv, None, node.right, node.next, d, i)) by {
                    if node.left is None {
                        assert(q1 == m);
                    }
                }
                assert(q2.excess(d, i) + links_to(lv, None, node.right, node.next, d, i)
                    == q1.excess(d, i) + links_to(lv, None, None, node.next, d, i)) by {
                    if node.right is None {
                        assert(q2 == q1);
                    }
                }
                assert(q3.excess(d, i) + links_to(lv, None, None, node.next, d, i) == q2.excess(d, i)
                    + links_to(lv, None, None, None, d, i)) by {
                    if node.next is None {
                        assert(q3 == q2);
                    }
                }
            }
            assert forall|d: int, i: int| #[trigger]
                m.held_plus(lv, node.left, node.right, node.next, d, i) implies q3.held(d, i) by {
                assert(q1.held_plus(lv, None, node.right, node.next, d, i));
                assert(q2.held_plus(lv, None, None, node.next, d, i));
                assert(q3.held_plus(lv, None, None, None, d, i));
            }
        }
        let slot = self.dims[dim].at_mut(Some(idx));
        slot.left = None;
        slot.right = None;
        slot.next = None;
        proof {
            assert(forall|d: int|
                0 <= d < self.dims@.len() && d != dim ==> self.dims@[d] == q3.dims@[d]);
            self.lemma_dead_changed(&q3, lv, idx as int);
            if m.ranked() {
                assert(q1.ranked());
                assert(q2.ranked());
                assert(q3.ranked());
            }
            self.lemma_restricts_trans(&q3, &q2);
            self.lemma_restricts_trans(&q2, &q1);
            self.lemma_restricts_trans(&q1, &m);
            assert(self.live_set() =~= m.live_set()) by {
                assert(q1.live_set() =~= m.live_set());
                assert(q2.live_set() =~= q1.live_set());
                assert(q3.live_set() =~= q2.live_set());
            }
            assert forall|d: int, i: int| #[trigger] self.slot_live(d, i) == m.slot_live(d, i) by {
                assert(self.live_set().contains((d, i)) == m.live_set().contains((d, i)));
            }
            assert forall|d: int, i: int| #[trigger] self.loose(d, i) == m.loose(d, i) by {
                assert(self.loose(d, i) == q3.loose(d, i));
                assert(q3.loose(d, i) == q2.loose(d, i));
                assert(q2.loose(d, i) == q1.loose(d, i));
                assert(q1.loose(d, i) == m.loose(d, i));
            }
            assert forall|d: int, i: int|
                0 <= d <= m.ndims() && 0 <= i < m.pool_len(d) implies #[trigger] self.count_at(d, i)
                == m.count_at(d, i) by {
                assert(q3.count_at(d, i) == q2.count_at(d, i));
                assert(q2.count_at(d, i) == q1.count_at(d, i));
                assert(q1.count_at(d, i) == m.count_at(d, i));
                assert(q3.pool_len(d) == m.pool_len(d));
            }
            assert forall|d: int, i: int|
                0 <= d <= m.ndims() && 0 <= i < m.pool_len(d) implies #[trigger] self.excess(d, i)
                + links_to(lv, node.left, node.right, node.next, d, i) == m.excess(d, i) by {
                assert(q3.pool_len(d) == m.pool_len(d));
                assert(self.excess(d, i) == q3.excess(d, i));
            }
        }
    }

    /// Carries out every queued release. A count that reaches zero frees its
    /// slot; the links of a freed node are queued in their turn and cleared, so
    /// that a whole part of the cube that nothing refers to is reclaimed in one
    /// call. The root and every answer stay as they are, and so does every
    /// value in the pools but for the cleared links. No count rises. With an
    /// empty queue nothing changes.
    pub fn flush_release_list(&mut self)
        requires
            old(self).inv(),
        ensures
            final(self).inv(),
            final(self).pending().len() == 0,
            final(self).base_root == old(self).base_root,
            final(self).restricts(old(self)),
            forall|q: Seq<(usize, usize)>| #[trigger]
                final(self).answer_to(q) == old(self).answer_to(q),
            old(self).pending().len() == 0 ==> *final(self) == *old(self),
            forall|d: int, i: int| #[trigger] old(self).held(d, i) ==> final(self).held(d, i),
            forall|d: int, i: int| #[trigger] final(self).loose(d, i) ==> old(self).loose(d, i),
            old(self).settled() ==> final(self).settled(),
            final(self).tallied_from(old(self)),
            forall|d: int| #[trigger] final(self).pool_len(d) == old(self).pool_len(d),
            old(self).balanced() ==> final(self).balanced(),
            old(self).ranked() ==> final(self).ranked(),
            final(self).summaries.values@ == old(self).summaries.values@,
            forall|d: int, i: int|
                0 <= d < old(self).ndims() && 0 <= i < old(self).pool_len(d)
                    ==> #[trigger] final(self).node(d, i) == if old(self).slot_live(d, i)
                    && !final(self).slot_live(d, i) {
                    cleared(old(self).node(d, i))
                } else {
                    old(self).node(d, i)
                },
            forall|d: int, i: int|
                0 <= d <= old(self).ndims() && 0 <= i < old(self).pool_len(d)
                    ==> #[trigger] final(self).count_at(d, i) <= old(self).count_at(d, i),
            old(self).unmarked() ==> final(self).unmarked(),
    {
        let ghost s0 = *self;
        proof {
            self.lemma_restricts_refl();
        }
        while self.release_list.len() > 0
            invariant
                self.inv(),
                forall|d: int, i: int|
                    0 <= d <= s0.ndims() && 0 <= i < s0.pool_len(d) ==> #[trigger] self.count_at(
                        d,
                        i,
                    ) <= s0.count_at(d, i),
                self.summaries.values@ == s0.summaries.values@,
                forall|d: int, i: int|
                    0 <= d < s0.ndims() && 0 <= i < s0.pool_len(d) ==> #[trigger] self.node(d, i)
                        == if s0.slot_live(d, i) && !self.slot_live(d, i) {
                        cleared(s0.node(d, i))
                    } else {
                        s0.node(d, i)
                    },
                s0.ranked() ==> self.ranked(),
                self.tallied_from(&s0),
                forall|d: int| #[trigger] self.pool_len(d) == s0.pool_len(d),
                forall|d: int, i: int| #[trigger] self.loose(d, i) ==> s0.loose(d, i),
                forall|d: int, i: int| #[trigger] s0.held(d, i) ==> self.held(d, i),
                self.restricts(&s0),
                self.base_root == s0.base_root,
                forall|q: Seq<(usize, usize)>| #[trigger] self.answer_to(q) == s0.answer_to(q),
                s0.pending().len() == 0 ==> *self == s0,
            decreases self.live_set().len(), self.release_list@.len(),
        {
            let ghost a = *self;
            let freed = self.release_last();
            let ghost m = *self;
            if freed.is_some() {
                self.queue_links(freed.unwrap().0, freed.unwrap().1);
                proof {
                    self.lemma_restricts_trans(&m, &a);
                    assert(self.ptr_live(0, self.base_root)) by {
                        if self.base_root is Some {
                            assert(m.slot_live(0, m.base_root.unwrap() as int));
                        }
                    }
                    self.lemma_restricts_root(&a);
                }
            }
            proof {
                assert forall|d: int, i: int|
                    0 <= d < s0.ndims() && 0 <= i < s0.pool_len(d) implies #[trigger] self.node(d, i)
                    == if s0.slot_live(d, i) && !self.slot_live(d, i) {
                    cleared(s0.node(d, i))
                } else {
                    s0.node(d, i)
                } by {
                    assert(a.pool_len(d) == s0.pool_len(d));
                    assert(m.pool_len(d) == a.pool_len(d));
                    assert(m.node(d, i) == a.node(d, i)) by {
                        assert(m.dims@[d].nodes.values@ == a.dims@[d].nodes.values@);
                    }
                    assert(a.slot_live(d, i) ==> s0.slot_live(d, i));
                    assert(self.slot_live(d, i) == m.slot_live(d, i));
                    if freed is Some && freed.unwrap().0 == i && freed.unwrap().1 == d {
                        assert(a.slot_live(d, i));
                        assert(!m.slot_live(d, i));
                    } else {
                        assert(m.slot_live(d, i) == a.slot_live(d, i));
                        assert(self.node(d, i) == m.node(d, i));
                    }
                }
                self.lemma_restricts_trans(&a, &s0);
                assert forall|d: int, i: int|
                    0 <= d <= s0.ndims() && 0 <= i < s0.pool_len(d) implies #[trigger] self.count_at(
                    d,
                    i,
                ) <= s0.count_at(d, i) by {
                    assert(a.pool_len(d) == s0.pool_len(d));
                    assert(m.pool_len(d) == a.pool_len(d));
                    assert(m.count_at(d, i) <= a.count_at(d, i));
                    assert(a.count_at(d, i) <= s0.count_at(d, i));
                    if freed is Some {
                        assert(self.count_at(d, i) == m.count_at(d, i));
                    }
                }
                assert forall|d: int, i: int|
                    0 <= d < self.ndims() && 0 <= i < self.pool_len(d) implies #[trigger] self.mark_at(
                    d,
                    i,
                ) == a.mark_at(d, i) by {
                    assert(m.pool_len(d) == a.pool_len(d));
                    assert(self.pool_len(d) == m.pool_len(d));
                    assert(m.node(d, i) == a.node(d, i)) by {
                        assert(m.dims@[d].nodes.values@ == a.dims@[d].nodes.values@);
                    }
                    if freed is Some {
                        assert(self.mark_at(d, i) == m.mark_at(d, i));
                    }
                }
                self.lemma_flushed_one(&m, &a, freed);
                self.lemma_tallied_trans(&a, &s0);
                assert forall|d: int, i: int| #[trigger] self.loose(d, i) implies s0.loose(d, i) by {
                    assert(m.loose(d, i));
                    assert(a.loose(d, i));
                }
                assert forall|d: int, i: int| #[trigger] s0.held(d, i) implies self.held(d, i) by {
                    assert(a.held(d, i));
                }
            }
        }
    }

    /// Asks for one reference to slot `node_index` of level `dim` to be given
    /// back. The request is queued; once more than `RELEASE_THRESHOLD` are
    /// waiting, all of them are carried out. Nothing is done for the null
    /// pointer.
    pub fn release_node_ref(&mut self, node_index: NodePointerType, dim: usize)
        requires
            old(self).inv(),
            dim <= old(self).dims@.len(),
            node_index is Some ==> node_index.unwrap() < old(self).pool_len(dim as int),
            node_index is Some ==> old(self).spare(dim as int, node_index.unwrap() as int),
        ensures
            final(self).inv(),
            final(self).base_root == old(self).base_root,
            final(self).restricts(old(self)),
            forall|q: Seq<(usize, usize)>| #[trigger]
                final(self).answer_to(q) == old(self).answer_to(q),
            node_index is None ==> *final(self) == *old(self),
            forall|d: int, i: int|
                #[trigger] old(self).held(d, i) && !(d == dim && node_index is Some
                    && node_index.unwrap() == i) ==> final(self).held(d, i),
            forall|d: int, i: int| #[trigger] final(self).loose(d, i) ==> old(self).loose(d, i),
            node_index is Some ==> final(self).excess_shifted(
                old(self),
                dim as int,
                node_index.unwrap() as int,
                -1,
            ),
            old(self).ranked() ==> final(self).ranked(),
            node_index is Some && old(self).pending().len() < RELEASE_THRESHOLD ==> {
                &&& final(self).same_but_pending(old(self))
                &&& final(self).pending() == old(self).pending().push((node_index, dim))
            },
            node_index is Some && old(self).pending().len() >= RELEASE_THRESHOLD
                ==> final(self).pending().len() == 0,
            old(self).unmarked() ==> final(self).unmarked(),
            forall|d: int| #[trigger] final(self).pool_len(d) == old(self).pool_len(d),
            final(self).summaries.values@ == old(self).summaries.values@,
            forall|d: int, i: int|
                0 <= d < old(self).ndims() && 0 <= i < old(self).pool_len(d)
                    ==> #[trigger] final(self).node(d, i) == if old(self).slot_live(d, i)
                    && !final(self).slot_live(d, i) {
                    cleared(old(self).node(d, i))
                } else {
                    old(self).node(d, i)
                },
    {
        let release_thresh = RELEASE_THRESHOLD;
        let ghost before = *self;
        proof {
            self.lemma_restricts_refl();
        }
        if node_index.is_none() {
            return ;
        }
        self.release_list.push((node_index, dim));
        proof {
            self.lemma_release_queued(&before, dim as int, node_index.unwrap() as int);
            assert(self.restricts(&before)) by {
                assert forall|d: int, i: int|
                    0 <= d < self.ndims() && #[trigger] self.slot_live(
                        d,
                        i,
                    ) implies before.slot_live(d, i) && same_links(
                    self.node(d, i),
                    before.node(d, i),
                ) by {}
            }
            self.lemma_restricts_root(&before);
            assert forall|d: int, i: int|
                #[trigger] before.held(d, i) && !(d == dim && node_index.unwrap()
                    == i) implies self.held(d, i) by {
                assert(self.slot_live(d, i) == before.slot_live(d, i));
            }
            assert forall|d: int, i: int| #[trigger] self.loose(d, i) implies before.loose(d, i) by {
                assert(self.slot_live(d, i) == before.slot_live(d, i));
            }
            assert(self.excess_shifted(&before, dim as int, node_index.unwrap() as int, -1));
            if before.ranked() {
                self.lemma_ranked_extended(&before, Set::empty());
            }
            if before.unmarked() {
                self.lemma_unmarked_same(&before);
            }
        }
        if self.release_list.len() <= release_thresh {
            return ;
        } else {
            let ghost queued = *self;
            self.flush_release_list();
            proof {
                self.lemma_restricts_trans(&queued, &before);
                self.lemma_shift_then_tally(&queued, &before, dim as int, node_index.unwrap() as int, -1);
            }
        }
    }
}

} // verus!
