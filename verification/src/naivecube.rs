//! The plain cube: a list of points, queried by looking at each of them. It
//! is the ground truth that the nanocube is held against.

use crate::cube::{fold_points, inside_from, lemma_identity_right, Cube, Monoid};
use vstd::prelude::*;

verus! {

/// A cube that keeps every point it was given, in the order given.
pub struct Naivecube<Summary> {
    pub widths: Vec<usize>,
    pub values: Vec<(Vec<usize>, Summary)>,
}

impl<Summary> Naivecube<Summary> {
    /// The points of the cube with their summaries, in the order given.
    pub open spec fn points(&self) -> Seq<(Seq<usize>, Summary)> {
        Seq::new(self.values@.len(), |i: int| (self.values@[i].0@, self.values@[i].1))
    }

    /// The cube has at least one dimension, and every point has one
    /// coordinate for each.
    pub open spec fn wf(&self) -> bool {
        &&& self.widths@.len() > 0
        &&& forall|i: int|
            0 <= i < self.values@.len() ==> (#[trigger] self.values@[i]).0@.len()
                == self.widths@.len()
    }
}

impl<Summary: Monoid + PartialOrd> Naivecube<Summary> {
    /// Adds the point `addresses` with `summary` at the end of the list.
    pub fn add(&mut self, summary: Summary, addresses: &Vec<usize>)
        requires
            old(self).wf(),
            addresses@.len() == old(self).widths@.len(),
        ensures
            final(self).wf(),
            final(self).widths@ == old(self).widths@,
            final(self).points() == old(self).points().push((addresses@, summary)),
    {
        let copy = addresses.clone();
        assert(copy@ =~= addresses@);
        self.values.push((copy, summary));
        assert(self.points() =~= old(self).points().push((addresses@, summary)));
    }

    /// An empty cube with one dimension for each of `widths`.
    pub fn new(widths: Vec<usize>) -> (r: Naivecube<Summary>)
        requires
            widths@.len() > 0,
        ensures
            r.wf(),
            r.widths@ == widths@,
            r.points() == Seq::<(Seq<usize>, Summary)>::empty(),
    {
        let r = Naivecube { widths: widths, values: Vec::new() };
        assert(r.points() =~= Seq::<(Seq<usize>, Summary)>::empty());
        r
    }
}

/// `position` lies inside the box `bounds`.
fn point_inside(position: &Vec<usize>, bounds: &Vec<(usize, usize)>) -> (inside: bool)
    requires
        position@.len() == bounds@.len(),
    ensures
        inside == inside_from(position@, bounds@, 0),
{
    let mut inside = true;
    let mut k: usize = 0;
    while k < position.len()
        invariant_except_break
            inside,
        invariant
            0 <= k <= position@.len(),
            position@.len() == bounds@.len(),
            forall|j: int| 0 <= j < k ==> bounds@[j].0 <= #[trigger] position@[j] < bounds@[j].1,
        ensures
            inside == inside_from(position@, bounds@, 0),
        decreases position@.len() - k,
    {
        let coord = position[k];
        let qlo = bounds[k].0;
        let qhi = bounds[k].1;
        if coord < qlo || qhi <= coord {
            inside = false;
            assert(!(bounds@[k as int].0 <= position@[k as int] < bounds@[k as int].1));
            break ;
        }
        k = k + 1;
    }
    inside
}

impl<Summary: Monoid + PartialOrd + Copy> Cube<Summary> for Naivecube<Summary> {
    open spec fn queryable(&self) -> bool {
        self.wf()
    }

    /// A box has one range for each dimension.
    open spec fn accepts(&self, bounds: Seq<(usize, usize)>) -> bool {
        bounds.len() == self.widths@.len()
    }

    /// The summaries of the points inside the box, combined in the order in
    /// which the points were added.
    open spec fn answer(&self, bounds: Seq<(usize, usize)>) -> Summary {
        fold_points(self.points(), bounds)
    }

    fn range_query(&self, bounds: &Vec<(usize, usize)>) -> (r: Summary) {
        let mut result = Summary::mempty();
        let ghost pts = self.points();
        let mut i: usize = 0;
        assert(pts.take(0) =~= Seq::<(Seq<usize>, Summary)>::empty());
        while i < self.values.len()
            invariant
                0 <= i <= self.values@.len(),
                self.wf(),
                bounds@.len() == self.widths@.len(),
                pts == self.points(),
                result == fold_points(pts.take(i as int), bounds@),
            decreases self.values@.len() - i,
        {
            let position = &self.values[i].0;
            let summary = &self.values[i].1;
            let inside = point_inside(position, bounds);
            proof {
                assert(pts.take(i + 1).drop_last() =~= pts.take(i as int));
                assert(pts.take(i + 1).last() == (position@, *summary));
                if !inside {
                    lemma_identity_right(result);
                }
            }
            if inside {
                result = result.mapply(summary);
            }
            i = i + 1;
        }
        assert(pts.take(i as int) =~= pts);
        result
    }
}

/// Builds a small cube of two dimensions with two points.
pub fn smoke_test() {
    let mut nc1: Naivecube<usize> = Naivecube::new(vec![2, 2]);
    nc1.add(1, &vec![0, 0]);
    nc1.add(1, &vec![3, 3]);
}

} // verus!
