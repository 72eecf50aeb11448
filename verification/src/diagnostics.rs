//! Diagnostics: the sizes of the pools, the nodes as plain text, and cubes
//! built from a list of points for looking at.

use crate::cube::{valid_point, Monoid};
use crate::dot::{decimal, push_decimal};
use crate::nanocube::{NCDim, Nanocube, NodePointerType};
use vstd::prelude::*;
use vstd::string::StringExecFns;

verus! {

/// A pointer as text: its slot in decimal, or `-1` for the null pointer.
pub open spec fn pointer_text(p: NodePointerType) -> Seq<char> {
    match p {
        Some(i) => decimal(i as nat),
        None => "-1"@,
    }
}

/// The line of slot `i` of a dimension: its three links, separated by
/// blanks.
pub open spec fn links_line(dim: NCDim, i: int) -> Seq<char> {
    let n = dim.nodes.values@[i];
    pointer_text(n.left) + " "@ + pointer_text(n.right) + " "@ + pointer_text(n.next) + "\n"@
}

/// The lines of the first `n` slots of a dimension.
pub open spec fn links_lines(dim: NCDim, n: nat) -> Seq<char>
    decreases n,
{
    if n == 0 {
        Seq::empty()
    } else {
        links_lines(dim, (n - 1) as nat) + links_line(dim, n - 1)
    }
}

/// The text of the first `n` dimensions: for each a line of dashes, then
/// the lines of its slots.
pub open spec fn links_text(dims: Seq<NCDim>, n: nat) -> Seq<char>
    decreases n,
{
    if n == 0 {
        Seq::empty()
    } else {
        links_text(dims, (n - 1) as nat) + "--------\n"@ + links_lines(
            dims[n - 1],
            dims[n - 1].nodes.values@.len(),
        )
    }
}

/// Appends the text of the pointer `p` to `out`.
fn push_pointer(out: &mut String, p: NodePointerType)
    ensures
        final(out)@ == old(out)@ + pointer_text(p),
{
    match p {
        Some(i) => {
            push_decimal(out, i);
        },
        None => {
            out.append("-1");
        },
    }
}

/// Appends the line of slot `i` of the dimension to `out`.
fn push_links_line(out: &mut String, dim: &NCDim, i: usize)
    requires
        i < dim.nodes.values@.len(),
    ensures
        final(out)@ == old(out)@ + links_line(*dim, i as int),
{
    let node = &dim.nodes.values[i];
    push_pointer(out, node.left);
    out.append(" ");
    push_pointer(out, node.right);
    out.append(" ");
    push_pointer(out, node.next);
    out.append("\n");
    assert(out@ =~= old(out)@ + links_line(*dim, i as int));
}

/// The points of `data`, each with the summary one.
pub open spec fn unit_points(data: Seq<Vec<usize>>) -> Seq<(Seq<usize>, usize)> {
    Seq::new(data.len(), |i: int| (data[i]@, 1usize))
}

impl<Summary: Monoid + PartialOrd + Copy> Nanocube<Summary> {
    /// The number of slots of the summary pool, followed by the number of
    /// slots of the pool of each dimension in turn. Free slots count.
    pub fn report_size(&self) -> (sizes: Vec<usize>)
        ensures
            sizes@.len() == self.ndims() + 1,
            sizes@[0] == self.summaries.values@.len(),
            forall|d: int| 0 <= d < self.ndims() ==> #[trigger] sizes@[d + 1] == self.pool_len(d),
    {
        let mut sizes: Vec<usize> = Vec::new();
        sizes.push(self.summaries.len());
        let mut d: usize = 0;
        while d < self.dims.len()
            invariant
                0 <= d <= self.dims@.len(),
                sizes@.len() == d + 1,
                sizes@[0] == self.summaries.values@.len(),
                forall|k: int| 0 <= k < d ==> #[trigger] sizes@[k + 1] == self.pool_len(k),
            decreases self.dims@.len() - d,
        {
            sizes.push(self.dims[d].len());
            d = d + 1;
        }
        sizes
    }

    /// The nodes of the cube as text: for each dimension a line of dashes,
    /// then one line for each slot with its three links, `-1` for null.
    pub fn debug_print(&self) -> (text: String)
        ensures
            text@ == links_text(self.dims@, self.dims@.len()),
    {
        let mut out = String::new();
        assert(out@ =~= links_text(self.dims@, 0));
        let mut d: usize = 0;
        while d < self.dims.len()
            invariant
                0 <= d <= self.dims@.len(),
                out@ == links_text(self.dims@, d as nat),
            decreases self.dims@.len() - d,
        {
            let ghost before = out@;
            out.append("--------\n");
            let ghost head = out@;
            let dim = &self.dims[d];
            let n = dim.nodes.values.len();
            let mut i: usize = 0;
            while i < n
                invariant
                    0 <= i <= n,
                    n == dim.nodes.values@.len(),
                    out@ == head + links_lines(*dim, i as nat),
                decreases n - i,
            {
                push_links_line(&mut out, dim, i);
                assert(out@ =~= head + links_lines(*dim, (i + 1) as nat));
                i = i + 1;
            }
            assert(out@ =~= links_text(self.dims@, (d + 1) as nat));
            d = d + 1;
        }
        out
    }
}

/// A cube of the widths `dims` that holds each point of `data` with the
/// summary one: it answers a query with the number of points of `data` inside
/// the query's box, as far as a machine word can count.
pub fn make_nanocube(dims: Vec<usize>, data: &Vec<Vec<usize>>) -> (nc: Nanocube<usize>)
    requires
        dims@.len() > 0,
        forall|d: int| 0 <= d < dims@.len() ==> 1 <= #[trigger] dims@[d] < usize::BITS,
        forall|i: int| 0 <= i < data@.len() ==> valid_point(dims@, (#[trigger] data@[i])@),
    ensures
        nc.inv(),
        nc.settled(),
        nc.balanced(),
        nc.ranked(),
        nc.widths() == dims@,
        nc.holds_points(unit_points(data@)),
        nc.unmarked(),
        data@.len() > 0 ==> nc.base_root is Some,
        data@.len() == 0 ==> {
            &&& nc.base_root is None
            &&& nc.pending().len() == 0
            &&& forall|d: int| 0 <= d <= nc.ndims() ==> #[trigger] nc.pool_len(d) == 0
        },
{
    let ghost widths = dims@;
    let mut nc = Nanocube::<usize>::new(dims);
    let mut i: usize = 0;
    proof {
        assert(unit_points(data@).take(0) =~= Seq::<(Seq<usize>, usize)>::empty());
        assert(nc.widths().len() == nc.dims@.len());
    }
    while i < data.len()
        invariant
            0 <= i <= data@.len(),
            nc.inv(),
            nc.settled(),
            nc.balanced(),
            nc.ranked(),
            nc.widths() == widths,
            nc.unmarked(),
            i > 0 ==> nc.base_root is Some,
            i == 0 ==> {
                &&& nc.base_root is None
                &&& nc.pending().len() == 0
                &&& forall|d: int| 0 <= d <= nc.ndims() ==> #[trigger] nc.pool_len(d) == 0
            },
            forall|k: int| 0 <= k < data@.len() ==> valid_point(widths, (#[trigger] data@[k])@),
            nc.holds_points(unit_points(data@).take(i as int)),
        decreases data@.len() - i,
    {
        let ghost before = nc;
        proof {
            nc.lemma_valid_point(data@[i as int]@);
        }
        nc.add(1, &data[i]);
        proof {
            let pts = unit_points(data@);
            assert(nc.widths().len() == nc.dims@.len());
            assert(before.widths().len() == before.dims@.len());
            nc.lemma_add_holds(&before, pts.take(i as int), 1usize, data@[i as int]@);
            assert(pts.take(i + 1) =~= pts.take(i as int).push((data@[i as int]@, 1usize)));
        }
        i = i + 1;
    }
    proof {
        assert(unit_points(data@).take(data@.len() as int) =~= unit_points(data@));
    }
    nc
}

/// Cuts `data` into `n` stretches of as nearly the same length as can be:
/// stretch `i` runs from `len * i / n` up to `len * (i + 1) / n`. For `n`
/// zero there is no stretch.
pub fn partition_data<'a>(data: &'a [Vec<usize>], n: usize) -> (parts: Vec<&'a [Vec<usize>]>)
    requires
        data@.len() * n <= usize::MAX,
    ensures
        parts@.len() == n,
        forall|i: int|
            0 <= i < n ==> (#[trigger] parts@[i])@ == data@.subrange(
                (data@.len() * i) / (n as int),
                (data@.len() * (i + 1)) / (n as int),
            ),
{
    let mut result: Vec<&'a [Vec<usize>]> = Vec::new();
    let len = data.len();
    let mut i: usize = 0;
    while i < n
        invariant
            0 <= i <= n,
            len == data@.len(),
            len * n <= usize::MAX,
            result@.len() == i,
            forall|k: int|
                0 <= k < i ==> (#[trigger] result@[k])@ == data@.subrange(
                    (len * k) / (n as int),
                    (len * (k + 1)) / (n as int),
                ),
        decreases n - i,
    {
        proof {
            lemma_stretch(len as int, n as int, i as int);
        }
        let start = len * i / n;
        let end = len * (i + 1) / n;
        result.push(vstd::slice::slice_subrange(data, start, end));
        i = i + 1;
    }
    result
}

/// The bounds of stretch `i` of `n` of a list of `len` elements lie in the
/// list, in order, and the products that they are computed from are at most
/// `len * n`.
proof fn lemma_stretch(len: int, n: int, i: int)
    requires
        0 <= len,
        0 <= i < n,
    ensures
        0 <= len * i <= len * (i + 1) <= len * n,
        0 <= (len * i) / n <= (len * (i + 1)) / n <= len,
{
    assert(0 <= len * i <= len * (i + 1) <= len * n) by (nonlinear_arith)
        requires
            0 <= len,
            0 <= i < n,
    ;
    vstd::arithmetic::div_mod::lemma_div_is_ordered(len * i, len * (i + 1), n);
    vstd::arithmetic::div_mod::lemma_div_is_ordered(len * (i + 1), len * n, n);
    vstd::arithmetic::div_mod::lemma_div_multiples_vanish(len, n);
    vstd::arithmetic::div_mod::lemma_div_pos_is_pos(len * i, n);
    assert(len * n == n * len) by (nonlinear_arith);
}

} // verus!
