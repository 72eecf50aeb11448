//! The cube as text: a graph description with one cluster per dimension, a
//! node for every slot that is referred to, and an edge for every link to a
//! child.

use crate::nanocube::{NCDim, Nanocube};
use vstd::prelude::*;
use vstd::string::StringExecFns;

verus! {

/// The text of one decimal digit.
pub open spec fn digit_text(k: nat) -> Seq<char> {
    if k == 0 {
        "0"@
    } else if k == 1 {
        "1"@
    } else if k == 2 {
        "2"@
    } else if k == 3 {
        "3"@
    } else if k == 4 {
        "4"@
    } else if k == 5 {
        "5"@
    } else if k == 6 {
        "6"@
    } else if k == 7 {
        "7"@
    } else if k == 8 {
        "8"@
    } else {
        "9"@
    }
}

/// The decimal text of `n`, without leading zeros.
pub open spec fn decimal(n: nat) -> Seq<char>
    decreases n,
{
    if n < 10 {
        digit_text(n)
    } else {
        decimal(n / 10) + digit_text(n % 10)
    }
}

/// The name of slot `i` of dimension `d` in the graph: both numbers, joined
/// by an underscore, in double quotes.
pub open spec fn node_id_text(i: nat, d: nat) -> Seq<char> {
    "\""@ + decimal(i) + "_"@ + decimal(d) + "\""@
}

/// The line that declares slot `i` of dimension `d`, labelled with the
/// slot, with what its `next` leads to, and, in square brackets, with its
/// reference count.
pub open spec fn node_line(dim: NCDim, d: nat, i: int) -> Seq<char> {
    "  "@ + node_id_text(i as nat, d) + " [label=\""@ + decimal(i as nat) + ":"@ + (
    match dim.nodes.values@[i].next {
        Some(s) => decimal(s as nat),
        None => "null"@,
    }) + " ["@ + decimal(dim.nodes.ref_counts@[i] as nat) + "]\"];\n"@
}

/// The lines that declare those of the first `n` slots of the dimension
/// whose count is not zero.
pub open spec fn node_lines(dim: NCDim, d: nat, n: nat) -> Seq<char>
    decreases n,
{
    if n == 0 {
        Seq::empty()
    } else if dim.nodes.ref_counts@[n - 1] == 0 {
        node_lines(dim, d, (n - 1) as nat)
    } else {
        node_lines(dim, d, (n - 1) as nat) + node_line(dim, d, n - 1)
    }
}

/// The line of the edge from slot `i` to slot `to`, both of dimension `d`,
/// with the label `label`.
pub open spec fn edge_line(d: nat, i: nat, to: nat, label: Seq<char>) -> Seq<char> {
    "  "@ + node_id_text(i, d) + " -> "@ + node_id_text(to, d) + " [label=\""@ + label + "\"];\n"@
}

/// The lines of the edges from slot `i`: to its left child with label 0, to
/// its right child with label 1.
pub open spec fn edges_of(dim: NCDim, d: nat, i: int) -> Seq<char> {
    let n = dim.nodes.values@[i];
    (match n.left {
        Some(l) => edge_line(d, i as nat, l as nat, "0"@),
        None => Seq::empty(),
    }) + (match n.right {
        Some(r) => edge_line(d, i as nat, r as nat, "1"@),
        None => Seq::empty(),
    })
}

/// The lines of the edges from the first `n` slots of the dimension.
pub open spec fn edge_lines(dim: NCDim, d: nat, n: nat) -> Seq<char>
    decreases n,
{
    if n == 0 {
        Seq::empty()
    } else {
        edge_lines(dim, d, (n - 1) as nat) + edges_of(dim, d, n - 1)
    }
}

/// The two lines that open the cluster of dimension `d`.
pub open spec fn cluster_head(d: nat) -> Seq<char> {
    " subgraph cluster_"@ + decimal(d) + " {\n"@ + " label=\"Dim. "@ + decimal(d) + "\";\n"@
}

/// The text of dimension `d`: its cluster with the slots that are referred
/// to, and after it the edges between its slots.
pub open spec fn dim_text(dim: NCDim, d: nat) -> Seq<char> {
    cluster_head(d) + node_lines(dim, d, dim.nodes.values@.len()) + "}\n"@ + edge_lines(
        dim,
        d,
        dim.nodes.values@.len(),
    )
}

/// The text of the first `n` dimensions.
pub open spec fn dims_text(dims: Seq<NCDim>, n: nat) -> Seq<char>
    decreases n,
{
    if n == 0 {
        Seq::empty()
    } else {
        dims_text(dims, (n - 1) as nat) + dim_text(dims[n - 1], (n - 1) as nat)
    }
}

/// The text of a whole cube.
pub open spec fn dot_text(dims: Seq<NCDim>) -> Seq<char> {
    "digraph G {\n"@ + "    splines=line;\n"@ + dims_text(dims, dims.len()) + "}\n"@
}

/// Appends the text of the digit `k` to `out`.
fn push_digit(out: &mut String, k: usize)
    requires
        k < 10,
    ensures
        final(out)@ == old(out)@ + digit_text(k as nat),
{
    if k == 0 {
        out.append("0");
    } else if k == 1 {
        out.append("1");
    } else if k == 2 {
        out.append("2");
    } else if k == 3 {
        out.append("3");
    } else if k == 4 {
        out.append("4");
    } else if k == 5 {
        out.append("5");
    } else if k == 6 {
        out.append("6");
    } else if k == 7 {
        out.append("7");
    } else if k == 8 {
        out.append("8");
    } else {
        out.append("9");
    }
}

/// Appends the decimal text of `n` to `out`.
pub fn push_decimal(out: &mut String, n: usize)
    ensures
        final(out)@ == old(out)@ + decimal(n as nat),
    decreases n,
{
    if n < 10 {
        push_digit(out, n);
    } else {
        push_decimal(out, n / 10);
        push_digit(out, n % 10);
        assert(out@ =~= old(out)@ + decimal(n as nat));
    }
}

/// Appends the name of slot `i` of dimension `dim` to `out`.
fn push_node_id(out: &mut String, i: usize, dim: usize)
    ensures
        final(out)@ == old(out)@ + node_id_text(i as nat, dim as nat),
{
    out.append("\"");
    push_decimal(out, i);
    out.append("_");
    push_decimal(out, dim);
    out.append("\"");
    assert(out@ =~= old(out)@ + node_id_text(i as nat, dim as nat));
}

/// The name of slot `i` of dimension `dim` in the graph.
pub fn node_id(i: usize, dim: usize) -> (r: String)
    ensures
        r@ == node_id_text(i as nat, dim as nat),
{
    let mut r = String::new();
    push_node_id(&mut r, i, dim);
    assert(r@ =~= node_id_text(i as nat, dim as nat));
    r
}

/// Appends the line that declares slot `i` of dimension `d` to `out`.
fn push_node_line(out: &mut String, dim: &NCDim, d: usize, i: usize)
    requires
        i < dim.nodes.values@.len(),
        i < dim.nodes.ref_counts@.len(),
    ensures
        final(out)@ == old(out)@ + node_line(*dim, d as nat, i as int),
{
    out.append("  ");
    push_node_id(out, i, d);
    out.append(" [label=\"");
    push_decimal(out, i);
    out.append(":");
    match dim.nodes.values[i].next {
        Some(s) => {
            push_decimal(out, s);
        },
        None => {
            out.append("null");
        },
    }
    out.append(" [");
    push_decimal(out, dim.nodes.ref_counts[i]);
    out.append("]\"];\n");
    assert(out@ =~= old(out)@ + node_line(*dim, d as nat, i as int));
}

/// Appends the line of the edge from slot `i` to slot `to`, both of
/// dimension `d`, with the label `label`, to `out`.
fn push_edge_line(out: &mut String, d: usize, i: usize, to: usize, label: &str)
    ensures
        final(out)@ == old(out)@ + edge_line(d as nat, i as nat, to as nat, label@),
{
    out.append("  ");
    push_node_id(out, i, d);
    out.append(" -> ");
    push_node_id(out, to, d);
    out.append(" [label=\"");
    out.append(label);
    out.append("\"];\n");
    assert(out@ =~= old(out)@ + edge_line(d as nat, i as nat, to as nat, label@));
}

/// Appends the lines of the edges from slot `i` of dimension `d` to `out`.
fn push_edges_of(out: &mut String, dim: &NCDim, d: usize, i: usize)
    requires
        i < dim.nodes.values@.len(),
    ensures
        final(out)@ == old(out)@ + edges_of(*dim, d as nat, i as int),
{
    let node = &dim.nodes.values[i];
    match node.left {
        Some(l) => {
            push_edge_line(out, d, i, l, "0");
        },
        None => {},
    }
    let ghost half = out@;
    match node.right {
        Some(r) => {
            push_edge_line(out, d, i, r, "1");
        },
        None => {},
    }
    assert(out@ =~= old(out)@ + edges_of(*dim, d as nat, i as int));
}

/// Appends the head of the cluster of dimension `d` to `out`.
fn push_cluster_head(out: &mut String, d: usize)
    ensures
        final(out)@ == old(out)@ + cluster_head(d as nat),
{
    out.append(" subgraph cluster_");
    push_decimal(out, d);
    out.append(" {\n");
    out.append(" label=\"Dim. ");
    push_decimal(out, d);
    out.append("\";\n");
    assert(out@ =~= old(out)@ + cluster_head(d as nat));
}

/// Appends the text of the dimension `dim`, the `d`-th of its cube, to `out`.
pub fn print_dot_ncdim(out: &mut String, dim: &NCDim, d: usize, _draw_next: bool)
    requires
        dim.nodes.values@.len() == dim.nodes.ref_counts@.len(),
    ensures
        final(out)@ == old(out)@ + dim_text(*dim, d as nat),
{
    let ghost start = out@;
    let ghost dd = d as nat;
    push_cluster_head(out, d);
    let ghost head = out@;
    let n = dim.nodes.values.len();
    let mut i: usize = 0;
    while i < n
        invariant
            0 <= i <= n,
            n == dim.nodes.values@.len(),
            n == dim.nodes.ref_counts@.len(),
            dd == d,
            out@ == head + node_lines(*dim, dd, i as nat),
        decreases n - i,
    {
        if dim.nodes.ref_counts[i] != 0 {
            push_node_line(out, dim, d, i);
            assert(out@ =~= head + node_lines(*dim, dd, (i + 1) as nat));
        }
        i = i + 1;
    }
    out.append("}\n");
    let ghost middle = out@;
    let mut i: usize = 0;
    while i < n
        invariant
            0 <= i <= n,
            n == dim.nodes.values@.len(),
            dd == d,
            out@ == middle + edge_lines(*dim, dd, i as nat),
        decreases n - i,
    {
        push_edges_of(out, dim, d, i);
        assert(out@ =~= middle + edge_lines(*dim, dd, (i + 1) as nat));
        i = i + 1;
    }
    assert(out@ =~= start + dim_text(*dim, dd));
}

/// The description of the cube as a graph.
pub fn print_dot<Summary>(nc: &Nanocube<Summary>) -> (r: String)
    requires
        forall|d: int|
            0 <= d < nc.dims@.len() ==> (#[trigger] nc.dims@[d]).nodes.values@.len()
                == nc.dims@[d].nodes.ref_counts@.len(),
    ensures
        r@ == dot_text(nc.dims@),
{
    let mut out = String::new();
    out.append("digraph G {\n");
    out.append("    splines=line;\n");
    let ghost head = out@;
    assert(head =~= "digraph G {\n"@ + "    splines=line;\n"@);
    let n = nc.dims.len();
    let mut i: usize = 0;
    while i < n
        invariant
            0 <= i <= n,
            n == nc.dims@.len(),
            forall|d: int|
                0 <= d < nc.dims@.len() ==> (#[trigger] nc.dims@[d]).nodes.values@.len()
                    == nc.dims@[d].nodes.ref_counts@.len(),
            out@ == head + dims_text(nc.dims@, i as nat),
        decreases n - i,
    {
        assert(nc.dims@[i as int].nodes.values@.len() == nc.dims@[i as int].nodes.ref_counts@.len());
        print_dot_ncdim(&mut out, &nc.dims[i], i, i < n - 1);
        assert(out@ =~= head + dims_text(nc.dims@, (i + 1) as nat));
        i = i + 1;
    }
    out.append("}\n");
    assert(out@ =~= dot_text(nc.dims@));
    out
}

} // verus!
