//! The summary algebra and the query interface shared by every cube.

use vstd::prelude::*;

verus! {

/// A commutative monoid: the values that a cube aggregates.
///
/// `combine` and `identity` are the mathematical operation and its neutral
/// element; `mapply` and `mempty` compute them. An implementation proves the
/// three laws.
pub trait Monoid: Sized {
    /// The mathematical combination of two summaries.
    spec fn combine(self, rhs: Self) -> Self;

    /// The neutral element of `combine`.
    spec fn identity() -> Self;

    /// `combine` is associative.
    proof fn lemma_associative(a: Self, b: Self, c: Self)
        ensures
            a.combine(b).combine(c) == a.combine(b.combine(c)),
    ;

    /// `combine` is commutative.
    proof fn lemma_commutative(a: Self, b: Self)
        ensures
            a.combine(b) == b.combine(a),
    ;

    /// `identity` is neutral on the left (and, by commutativity, on the right).
    proof fn lemma_identity(a: Self)
        ensures
            Self::identity().combine(a) == a,
    ;

    /// Combines `self` with `rhs`.
    fn mapply(&self, rhs: &Self) -> (r: Self)
        ensures
            r == self.combine(*rhs),
    ;

    /// The neutral element.
    fn mempty() -> (r: Self)
        ensures
            r == Self::identity(),
    ;
}

/// Machine words under wrapping addition: the integers modulo the word size.
impl Monoid for usize {
    open spec fn combine(self, rhs: usize) -> usize {
        if self + rhs > usize::MAX {
            (self + rhs - (usize::MAX + 1)) as usize
        } else {
            (self + rhs) as usize
        }
    }

    open spec fn identity() -> usize {
        0
    }

    proof fn lemma_associative(a: usize, b: usize, c: usize) {
    }

    proof fn lemma_commutative(a: usize, b: usize) {
    }

    proof fn lemma_identity(a: usize) {
    }

    fn mapply(&self, rhs: &usize) -> (r: usize) {
        self.wrapping_add(*rhs)
    }

    fn mempty() -> (r: usize) {
        0
    }
}

/// `identity` is neutral on the right.
pub proof fn lemma_identity_right<S: Monoid>(a: S)
    ensures
        a.combine(S::identity()) == a,
{
    S::lemma_commutative(a, S::identity());
    S::lemma_identity(a);
}

/// Two sums of two can be regrouped crosswise:
/// `(a + b) + (c + d) == (a + c) + (b + d)`.
pub proof fn lemma_interchange<S: Monoid>(a: S, b: S, c: S, d: S)
    ensures
        a.combine(b).combine(c.combine(d)) == a.combine(c).combine(b.combine(d)),
{
    S::lemma_associative(a, b, c.combine(d));
    S::lemma_associative(b, c, d);
    S::lemma_commutative(b, c);
    S::lemma_associative(c, b, d);
    S::lemma_associative(a, c, b.combine(d));
}

/// The last two of three summands can change places:
/// `(a + b) + c == (a + c) + b`.
pub proof fn lemma_swap_last<S: Monoid>(a: S, b: S, c: S)
    ensures
        a.combine(b).combine(c) == a.combine(c).combine(b),
{
    S::lemma_associative(a, b, c);
    S::lemma_commutative(b, c);
    S::lemma_associative(a, c, b);
}

/// The half-open query range `q` holds every point of `[lo, up)`.
pub open spec fn range_contains(q: (usize, usize), lo: int, up: int) -> bool {
    q.0 <= lo && up <= q.1
}

/// The half-open query range `q` is not wholly to one side of `[lo, up)`.
pub open spec fn range_overlaps(q: (usize, usize), lo: int, up: int) -> bool {
    !(up <= q.0 || q.1 <= lo)
}

/// Coordinate `d` of `address` and every later one lies inside its range of
/// `bounds`.
pub open spec fn inside_from(address: Seq<usize>, bounds: Seq<(usize, usize)>, d: int) -> bool {
    forall|k: int|
        d <= k < address.len() && k < bounds.len() ==> bounds[k].0 <= #[trigger] address[k]
            < bounds[k].1
}

/// The point `address` lies inside the box `bounds`.
pub open spec fn inside(address: Seq<usize>, bounds: Seq<(usize, usize)>) -> bool {
    inside_from(address, bounds, 0)
}

/// What one point with summary `summary` contributes to a query on `bounds`,
/// looking at coordinates `d` and later only.
pub open spec fn single_from<S: Monoid>(
    summary: S,
    address: Seq<usize>,
    bounds: Seq<(usize, usize)>,
    d: int,
) -> S {
    if inside_from(address, bounds, d) {
        summary
    } else {
        S::identity()
    }
}

/// `address` has one coordinate for each of `widths`, each within its width.
pub open spec fn valid_point(widths: Seq<usize>, address: Seq<usize>) -> bool {
    &&& address.len() == widths.len()
    &&& forall|d: int|
        0 <= d < widths.len() ==> (#[trigger] address[d]) < vstd::arithmetic::power2::pow2(
            widths[d] as nat,
        )
}

/// The first `n` addresses, each paired with the summary at its place.
pub open spec fn zip_points<S>(addresses: Seq<Vec<usize>>, summaries: Seq<S>, n: int) -> Seq<
    (Seq<usize>, S),
> {
    Seq::new(n as nat, |i: int| (addresses[i]@, summaries[i]))
}

/// The ground truth of a range query: the combination, in order, of the
/// summaries of the points that lie inside `bounds`.
pub open spec fn fold_points<S: Monoid>(
    points: Seq<(Seq<usize>, S)>,
    bounds: Seq<(usize, usize)>,
) -> S
    decreases points.len(),
{
    if points.len() == 0 {
        S::identity()
    } else {
        let last = points.last();
        fold_points(points.drop_last(), bounds).combine(single_from(last.1, last.0, bounds, 0))
    }
}

/// A cube answers range queries with the combined summary of a box.
pub trait Cube<Summary: Monoid + PartialOrd + Copy> {
    /// The cube is in a state in which it can be queried.
    spec fn queryable(&self) -> bool;

    /// `bounds` is a box of this cube: one half-open range per dimension.
    spec fn accepts(&self, bounds: Seq<(usize, usize)>) -> bool;

    /// The combined summary of the points inside `bounds`.
    spec fn answer(&self, bounds: Seq<(usize, usize)>) -> Summary;

    /// The combined summary of the points inside `bounds`.
    fn range_query(&self, bounds: &Vec<(usize, usize)>) -> (r: Summary)
        requires
            self.queryable(),
            self.accepts(bounds@),
        ensures
            r == self.answer(bounds@),
    ;
}

} // verus!
