use nanocube2::cube::Cube;
use nanocube2::diagnostics::{make_nanocube, partition_data};
use nanocube2::dot::{node_id, print_dot};
use nanocube2::insert::get_bit;
use nanocube2::nanocube::{NCDim, NCDimNode, Nanocube, NodePointerType};
use nanocube2::spine::SpineEntry;

/// The graph of the cube built from `data`, after its releases were carried
/// out.
fn test_nanocube(dims: Vec<usize>, data: &Vec<Vec<usize>>) -> String {
    let mut nc = Nanocube::<usize>::new(dims);
    for d in data {
        nc.add(1, d);
    }
    nc.flush_release_list();
    print_dot(&nc)
}

/// One graph for each point of `data`: that of the cube that holds the points
/// up to it.
fn write_animation(dims: Vec<usize>, data: &Vec<Vec<usize>>) -> Vec<String> {
    let mut nc = Nanocube::<usize>::new(dims);
    let mut frames = Vec::new();
    for d in data {
        nc.add(1, d);
        nc.flush_release_list();
        frames.push(print_dot(&nc));
    }
    frames
}

#[test]
fn nanocube_it_doesnt_smoke() {
    let frames = write_animation(
        vec![3, 3],
        &vec![vec![0, 0], vec![0, 2], vec![6, 4], vec![6, 6]],
    );
    assert_eq!(frames.len(), 4);
    let frames = write_animation(
        vec![3, 3],
        &vec![vec![0, 0], vec![0, 2], vec![6, 4], vec![6, 2]],
    );
    assert_eq!(frames.len(), 4);
    let frames = write_animation(
        vec![3, 3],
        &vec![vec![0, 0], vec![0, 2], vec![6, 4], vec![6, 6]],
    );
    assert_eq!(frames.len(), 4);

    // regression smoke tests
    test_nanocube(vec![2, 2], &vec![vec![0, 0], vec![1, 0], vec![1, 1]]);
    test_nanocube(vec![2, 2], &vec![vec![2, 1], vec![1, 0], vec![1, 1]]);
    test_nanocube(vec![2, 2], &vec![vec![1, 0], vec![1, 3], vec![1, 2]]);
    test_nanocube(vec![2, 2], &vec![vec![0, 0]]);
    test_nanocube(
        vec![2, 2],
        &vec![vec![0, 2], vec![1, 0], vec![2, 2], vec![0, 2]],
    );
    test_nanocube(vec![2, 2], &vec![vec![0, 2], vec![0, 2]]);
    test_nanocube(vec![2, 3], &vec![vec![2, 5], vec![0, 6]]);

    // the spines of an address
    {
        let mut nc = make_nanocube(
            vec![3, 3],
            &vec![vec![0, 0], vec![0, 2], vec![6, 4], vec![6, 6]],
        );
        nc.flush_release_list();
        let text = print_dot(&nc);
        assert!(text.starts_with("digraph G {\n    splines=line;\n subgraph cluster_0 {\n"));
        {
            let mut spine = Vec::with_capacity(64);
            nc.make_spine(&vec![6, 6], &mut spine);
            println!("{:?}", spine);
        }
        println!("-----");
        {
            let mut spine = Vec::with_capacity(64);
            let root = nc.base_root;
            nc.make_sparse_spine(&vec![6, 6], root, 0, &mut spine);
            println!("{:?}", spine);
        }
        println!("-----");
        {
            let mut spine = Vec::with_capacity(64);
            nc.make_sparse_branching_spine(&vec![6, 6], &mut spine);
            println!("{:?}", spine);
        }
    }
}

fn count_live(nc: &Nanocube<usize>) -> (Vec<usize>, usize) {
    let dims = nc
        .dims
        .iter()
        .map(|d| d.nodes.values.len() - d.nodes.free_list.len())
        .collect();
    (dims, nc.summaries.values.len() - nc.summaries.free_list.len())
}

#[test]
fn one_point_makes_one_chain() {
    let mut nc = Nanocube::<usize>::new(vec![2, 3]);
    nc.add(1, &vec![2, 5]);
    nc.flush_release_list();
    // one node for each bit and one leaf in each dimension, and one summary
    assert_eq!(count_live(&nc), (vec![3, 4], 1));
    let root = nc.base_root.unwrap();
    let top = nc.get_node(0, Some(root));
    // the first bit of 2 is set: the chain goes right
    assert!(top.left.is_none());
    assert!(top.right.is_some());
    let second = nc.get_node(0, top.right);
    assert!(second.left.is_some());
    assert!(second.right.is_none());
    let leaf = nc.get_node(0, second.left);
    assert!(leaf.left.is_none() && leaf.right.is_none());
    // every node of the dimension has the same aggregate
    assert_eq!(top.next, second.next);
    assert_eq!(second.next, leaf.next);
    assert!(nc.node_is_leaf(0, second.left));
    assert!(!nc.node_is_leaf(0, Some(root)));
    assert!(!nc.node_is_branching(0, Some(root)));
    assert!(nc.node_is_unmarked(0, Some(root)));
    let summary = nc.get_summary_index(Some(root), 0).unwrap();
    assert_eq!(nc.summaries.values[summary], 1);
    assert_eq!(nc.get_summary_index(None, 0), None);
    assert_eq!(nc.get_summary_index(Some(summary), 2), Some(summary));
}

#[test]
fn counts_match_the_references_after_a_flush() {
    let mut nc = make_nanocube(
        vec![3, 3],
        &vec![vec![0, 0], vec![0, 2], vec![6, 4], vec![6, 6], vec![0, 2]],
    );
    nc.flush_release_list();
    assert!(nc.release_list.is_empty());
    let d = nc.dims.len();
    let mut expected: Vec<Vec<usize>> = nc
        .dims
        .iter()
        .map(|dim| vec![0; dim.nodes.values.len()])
        .collect();
    expected.push(vec![0; nc.summaries.values.len()]);
    expected[0][nc.base_root.unwrap()] += 1;
    for (k, dim) in nc.dims.iter().enumerate() {
        for (i, node) in dim.nodes.values.iter().enumerate() {
            if dim.nodes.free_list.contains(&i) {
                // a freed node has lost its links
                assert_eq!((node.left, node.right, node.next), (None, None, None));
                continue;
            }
            if let Some(l) = node.left {
                expected[k][l] += 1;
            }
            if let Some(r) = node.right {
                expected[k][r] += 1;
            }
            if let Some(n) = node.next {
                expected[k + 1][n] += 1;
            }
        }
    }
    for k in 0..d {
        assert_eq!(nc.dims[k].nodes.ref_counts, expected[k]);
    }
    assert_eq!(nc.summaries.ref_counts, expected[d]);
    // every slot with count zero is on the free list of its pool
    for dim in nc.dims.iter() {
        for (i, &c) in dim.nodes.ref_counts.iter().enumerate() {
            assert_eq!(c == 0, dim.nodes.free_list.contains(&i));
        }
    }
    for (i, &c) in nc.summaries.ref_counts.iter().enumerate() {
        assert_eq!(c == 0, nc.summaries.free_list.contains(&i));
    }
}

#[test]
fn a_second_flush_changes_nothing() {
    let mut nc = make_nanocube(vec![2, 2], &vec![vec![0, 2], vec![1, 0], vec![2, 2], vec![0, 2]]);
    nc.flush_release_list();
    let dims: Vec<(Vec<(NodePointerType, NodePointerType, NodePointerType)>, Vec<usize>, Vec<usize>)> =
        nc.dims
            .iter()
            .map(|d| {
                (
                    d.nodes.values.iter().map(|n| (n.left, n.right, n.next)).collect(),
                    d.nodes.ref_counts.clone(),
                    d.nodes.free_list.clone(),
                )
            })
            .collect();
    let summaries = (
        nc.summaries.values.clone(),
        nc.summaries.ref_counts.clone(),
        nc.summaries.free_list.clone(),
    );
    let root = nc.base_root;
    nc.flush_release_list();
    let again: Vec<(Vec<(NodePointerType, NodePointerType, NodePointerType)>, Vec<usize>, Vec<usize>)> =
        nc.dims
            .iter()
            .map(|d| {
                (
                    d.nodes.values.iter().map(|n| (n.left, n.right, n.next)).collect(),
                    d.nodes.ref_counts.clone(),
                    d.nodes.free_list.clone(),
                )
            })
            .collect();
    assert_eq!(dims, again);
    assert_eq!(
        summaries,
        (
            nc.summaries.values.clone(),
            nc.summaries.ref_counts.clone(),
            nc.summaries.free_list.clone()
        )
    );
    assert_eq!(root, nc.base_root);
    assert!(nc.release_list.is_empty());
}

#[test]
fn flush_reclaims_what_an_insertion_replaced() {
    let mut nc = Nanocube::<usize>::new(vec![2]);
    nc.add(1, &vec![1]);
    nc.flush_release_list();
    assert_eq!(count_live(&nc), (vec![3], 1));
    nc.add(1, &vec![1]);
    assert!(!nc.release_list.is_empty());
    assert_eq!(nc.range_query(&vec![(0, 4)]), 2);
    nc.flush_release_list();
    // the old path and the chain of the point alone are gone
    assert_eq!(count_live(&nc), (vec![3], 1));
    assert_eq!(nc.range_query(&vec![(0, 4)]), 2);
    assert_eq!(nc.range_query(&vec![(1, 2)]), 2);
}

#[test]
fn releases_wait_until_the_queue_is_long() {
    let mut nc = Nanocube::<usize>::new(vec![1]);
    nc.add(1, &vec![0]);
    nc.flush_release_list();
    let root = nc.base_root;
    for k in 1..=256 {
        nc.make_node_ref(root, 0);
        nc.release_node_ref(root, 0);
        assert_eq!(nc.release_list.len(), k);
    }
    assert_eq!(nc.dims[0].nodes.ref_counts[root.unwrap()], 257);
    nc.make_node_ref(root, 0);
    nc.release_node_ref(root, 0);
    // the queue passed its threshold and was carried out
    assert_eq!(nc.release_list.len(), 0);
    assert_eq!(nc.dims[0].nodes.ref_counts[root.unwrap()], 1);
    nc.release_node_ref(None, 0);
    assert_eq!(nc.release_list.len(), 0);
    assert_eq!(nc.range_query(&vec![(0, 2)]), 1);
}

#[test]
fn taking_references_counts_up() {
    let mut nc = Nanocube::<usize>::new(vec![1]);
    nc.add(7, &vec![1]);
    nc.flush_release_list();
    let root = nc.base_root;
    assert_eq!(nc.make_node_ref(root, 0), 2);
    assert_eq!(nc.make_node_ref_not_null(root, 0), 3);
    assert_eq!(nc.make_node_ref_not_summary(root, 0), 4);
    assert_eq!(nc.make_node_ref_not_summary_or_null(root, 0), 5);
    assert_eq!(nc.make_node_ref(None, 0), 0);
    assert_eq!(nc.make_node_ref_not_summary(None, 0), 0);
    let summary = nc.get_summary_index(root, 0);
    assert_eq!(nc.summaries.values[summary.unwrap()], 7);
    let before = nc.summaries.ref_counts[summary.unwrap()];
    assert_eq!(nc.make_node_ref(summary, 1), before + 1);
    assert_eq!(nc.make_node_ref_not_null(summary, 1), before + 2);
    for _ in 0..4 {
        nc.release_node_ref(root, 0);
    }
    nc.release_node_ref(summary, 1);
    nc.release_node_ref(summary, 1);
    nc.flush_release_list();
    assert_eq!(nc.dims[0].nodes.ref_counts[root.unwrap()], 1);
    assert_eq!(nc.summaries.ref_counts[summary.unwrap()], before);
    assert_eq!(nc.range_query(&vec![(0, 2)]), 7);
}

#[test]
fn a_full_count_stays_full() {
    let mut nc = Nanocube::<usize>::new(vec![1]);
    nc.add(1, &vec![0]);
    nc.flush_release_list();
    let root = nc.base_root;
    nc.dims[0].nodes.ref_counts[root.unwrap()] = usize::MAX;
    assert_eq!(nc.make_node_ref(root, 0), usize::MAX);
    nc.release_node_ref(root, 0);
    nc.flush_release_list();
    assert_eq!(nc.dims[0].nodes.ref_counts[root.unwrap()], usize::MAX);
}

#[test]
fn bits_are_counted_from_the_least_significant() {
    assert!(get_bit(1, 0));
    assert!(!get_bit(1, 1));
    assert!(get_bit(6, 1));
    assert!(get_bit(6, 2));
    assert!(!get_bit(6, 0));
    assert!(!get_bit(6, 3));
    assert!(get_bit(usize::MAX, (usize::BITS - 1) as usize));
    assert!(!get_bit(usize::MAX >> 1, (usize::BITS - 1) as usize));
}

#[test]
fn fresh_chain_follows_the_bits() {
    let mut nc = Nanocube::<usize>::new(vec![2, 1]);
    let head = nc.insert_fresh_node(9, &vec![1, 1], 0, 0);
    let top = nc.get_node(0, head);
    assert!(top.left.is_some() && top.right.is_none());
    let second = nc.get_node(0, top.left);
    assert!(second.left.is_none() && second.right.is_some());
    let leaf = nc.get_node(0, second.right);
    assert!(leaf.left.is_none() && leaf.right.is_none());
    let next = nc.get_node(1, leaf.next);
    assert!(next.left.is_none() && next.right.is_some());
    let last = nc.get_node(1, next.right);
    assert_eq!(nc.summaries.values[last.next.unwrap()], 9);
    // nothing refers to the head yet
    assert_eq!(nc.dims[0].nodes.ref_counts[head.unwrap()], 0);
    assert_eq!(nc.base_root, None);
    // from the second bit of the second dimension on: one node and a leaf
    let tail = nc.insert_fresh_node(3, &vec![1, 1], 1, 1);
    let leaf = nc.get_node(1, tail);
    assert!(leaf.left.is_none() && leaf.right.is_none());
    assert_eq!(nc.summaries.values[leaf.next.unwrap()], 3);
    // at the summary level only the summary is made
    let s = nc.insert_fresh_node(4, &vec![1, 1], 2, 0);
    assert_eq!(nc.summaries.values[s.unwrap()], 4);
}

fn queries() -> Vec<Vec<(usize, usize)>> {
    let mut qs = Vec::new();
    for a in 0..4 {
        for b in (a + 1)..=4 {
            for c in 0..2 {
                for d in (c + 1)..=2 {
                    qs.push(vec![(a, b), (c, d)]);
                }
            }
        }
    }
    qs
}

#[test]
fn both_insertions_give_the_same_answers() {
    let points = vec![vec![0, 0], vec![3, 1], vec![1, 0], vec![3, 1], vec![2, 1]];
    let mut by_spine = Nanocube::<usize>::new(vec![2, 1]);
    let mut by_recursion = Nanocube::<usize>::new(vec![2, 1]);
    for (k, p) in points.iter().enumerate() {
        let mut spine: Vec<SpineEntry> = Vec::new();
        let (merged, fresh) = by_spine.insert_new(k + 1, p, &mut spine);
        assert!(spine.is_empty());
        assert!(merged.is_some() && fresh.is_some());
        let old = by_spine.base_root;
        by_spine.make_node_ref(merged, 0);
        by_spine.base_root = merged;
        by_spine.release_node_ref(old, 0);
        by_spine.make_node_ref(fresh, 0);
        by_spine.release_node_ref(fresh, 0);

        let root = by_recursion.base_root;
        let (merged, fresh) = by_recursion.insert(k + 1, p, 0, 0, root);
        by_recursion.make_node_ref(merged, 0);
        by_recursion.base_root = merged;
        by_recursion.release_node_ref(root, 0);
        by_recursion.make_node_ref(fresh, 0);
        by_recursion.release_node_ref(fresh, 0);
    }
    for q in queries() {
        assert_eq!(by_spine.range_query(&q), by_recursion.range_query(&q));
    }
    assert_eq!(by_spine.range_query(&vec![(0, 4), (0, 2)]), 15);
    assert_eq!(by_spine.range_query(&vec![(3, 4), (1, 2)]), 6);
}

#[test]
fn merge_of_two_roots_answers_with_both() {
    let mut nc = Nanocube::<usize>::new(vec![2, 1]);
    let a = nc.insert_fresh_node(1, &vec![0, 0], 0, 0);
    let b = nc.insert_fresh_node(2, &vec![3, 1], 0, 0);
    let c = nc.insert_fresh_node(4, &vec![0, 1], 0, 0);
    assert_eq!(nc.merge(None, b, 0), b);
    assert_eq!(nc.merge(a, None, 0), a);
    assert_eq!(nc.merge(None, None, 0), None);
    let ab = nc.merge(a, b, 0);
    let abc = nc.merge(ab, c, 0);
    nc.make_node_ref(abc, 0);
    nc.base_root = abc;
    assert_eq!(nc.range_query(&vec![(0, 4), (0, 2)]), 7);
    assert_eq!(nc.range_query(&vec![(0, 1), (0, 2)]), 5);
    assert_eq!(nc.range_query(&vec![(0, 1), (1, 2)]), 4);
    assert_eq!(nc.range_query(&vec![(3, 4), (0, 2)]), 2);
    // merging summaries combines them
    let s = nc.merge(Some(0), Some(1), 2);
    assert_eq!(nc.summaries.values[s.unwrap()], 3);
}

#[test]
fn add_many_is_add_after_add() {
    let points = vec![vec![5, 1], vec![0, 0], vec![5, 1], vec![7, 3], vec![2, 2]];
    let summaries = vec![1, 10, 100, 1000, 10000];
    let mut one_by_one = Nanocube::<usize>::new(vec![3, 2]);
    for (p, s) in points.iter().zip(summaries.iter()) {
        one_by_one.add(*s, p);
    }
    let mut at_once = Nanocube::<usize>::new(vec![3, 2]);
    at_once.add_many(&summaries, &points);
    let made = Nanocube::<usize>::new_from_many(vec![3, 2], &summaries, &points);
    for q in [
        vec![(0, 8), (0, 4)],
        vec![(5, 6), (1, 2)],
        vec![(0, 6), (0, 2)],
        vec![(2, 8), (2, 4)],
        vec![(1, 5), (1, 3)],
    ] {
        assert_eq!(one_by_one.range_query(&q), at_once.range_query(&q));
        assert_eq!(one_by_one.range_query(&q), made.range_query(&q));
    }
    assert_eq!(made.range_query(&vec![(0, 8), (0, 4)]), 11111);
    assert_eq!(made.range_query(&vec![(5, 6), (1, 2)]), 101);
    // more summaries than points: the rest is not used
    let mut short = Nanocube::<usize>::new(vec![3, 2]);
    short.add_many(&summaries, &points[0..2]);
    assert_eq!(short.range_query(&vec![(0, 8), (0, 4)]), 11);
}

#[test]
fn update_changes_nothing() {
    let mut nc = make_nanocube(vec![2, 2], &vec![vec![0, 0], vec![1, 3]]);
    nc.flush_release_list();
    let before = print_dot(&nc);
    let counts = nc.summaries.values.clone();
    nc.update(5, &vec![1, 3]);
    assert_eq!(print_dot(&nc), before);
    assert_eq!(nc.summaries.values, counts);
    assert_eq!(nc.range_query(&vec![(0, 4), (0, 4)]), 2);
}

#[test]
fn the_order_of_insertion_does_not_matter() {
    let points = vec![vec![1, 1], vec![6, 0], vec![1, 1], vec![3, 3], vec![7, 2], vec![0, 3]];
    let forward = make_nanocube(vec![3, 2], &points);
    let mut reversed_points = points.clone();
    reversed_points.reverse();
    let backward = make_nanocube(vec![3, 2], &reversed_points);
    let mut rotated_points = points.clone();
    rotated_points.rotate_left(2);
    let rotated = make_nanocube(vec![3, 2], &rotated_points);
    for a in 0..8 {
        for b in a..=8 {
            for c in 0..4 {
                for d in c..=4 {
                    let q = vec![(a, b), (c, d)];
                    let expected = forward.range_query(&q);
                    assert_eq!(backward.range_query(&q), expected);
                    assert_eq!(rotated.range_query(&q), expected);
                }
            }
        }
    }
}

#[test]
fn cubes_built_in_parts_answer_as_one() {
    let points: Vec<Vec<usize>> = (0..24).map(|k| vec![(k * 5) % 8, (k * 3) % 4]).collect();
    let whole = make_nanocube(vec![3, 2], &points);
    let parts = partition_data(&points, 3);
    assert_eq!(parts.len(), 3);
    let cubes: Vec<Nanocube<usize>> = parts
        .iter()
        .map(|part| make_nanocube(vec![3, 2], &part.to_vec()))
        .collect();
    let merged = cubes[0].mapply(&cubes[1]).mapply(&cubes[2]);
    let other_way = cubes[2].mapply(&cubes[0].mapply(&cubes[1]));
    for a in 0..8 {
        for b in a..=8 {
            for c in 0..4 {
                for d in c..=4 {
                    let q = vec![(a, b), (c, d)];
                    assert_eq!(merged.range_query(&q), whole.range_query(&q));
                    assert_eq!(other_way.range_query(&q), whole.range_query(&q));
                }
            }
        }
    }
    assert_eq!(merged.range_query(&vec![(0, 8), (0, 4)]), 24);
}

#[test]
fn merging_with_an_empty_cube_keeps_the_answers() {
    let points = vec![vec![1, 0], vec![2, 1]];
    let full = make_nanocube(vec![2, 1], &points);
    let empty = Nanocube::<usize>::new(vec![2, 1]);
    let left = empty.mapply(&full);
    let right = full.mapply(&empty);
    let none = empty.mapply(&empty);
    for q in queries() {
        assert_eq!(left.range_query(&q), full.range_query(&q));
        assert_eq!(right.range_query(&q), full.range_query(&q));
        assert_eq!(none.range_query(&q), 0);
    }
}

#[test]
fn merged_cubes_can_be_added_to() {
    let mut first = make_nanocube(vec![2, 2], &vec![vec![0, 0], vec![1, 1]]);
    let mut second = make_nanocube(vec![2, 2], &vec![vec![1, 1], vec![3, 2]]);
    first.flush_release_list();
    second.add(1, &vec![3, 3]);
    first.merge_cube(&second);
    first.add(1, &vec![1, 1]);
    first.flush_release_list();
    first.add(1, &vec![2, 0]);
    assert_eq!(first.range_query(&vec![(0, 4), (0, 4)]), 7);
    assert_eq!(first.range_query(&vec![(1, 2), (1, 2)]), 3);
    assert_eq!(first.range_query(&vec![(3, 4), (2, 4)]), 2);
    assert_eq!(first.range_query(&vec![(2, 3), (0, 1)]), 1);
}

#[test]
fn a_copy_is_a_cube_of_its_own() {
    let first = make_nanocube(vec![2, 1], &vec![vec![0, 0], vec![3, 1]]);
    let mut copy = first.clone();
    assert_eq!(print_dot(&copy), print_dot(&first));
    copy.add(1, &vec![0, 0]);
    assert_eq!(first.range_query(&vec![(0, 4), (0, 2)]), 2);
    assert_eq!(copy.range_query(&vec![(0, 4), (0, 2)]), 3);
    let dim: NCDim = first.dims[0].clone();
    assert_eq!(dim.width, 2);
    assert_eq!(dim.len(), first.dims[0].len());
}

#[test]
fn partition_cuts_into_even_stretches() {
    let data: Vec<Vec<usize>> = (0..10).map(|k| vec![k]).collect();
    let parts = partition_data(&data, 3);
    assert_eq!(parts.len(), 3);
    assert_eq!(parts[0], &data[0..3]);
    assert_eq!(parts[1], &data[3..6]);
    assert_eq!(parts[2], &data[6..10]);
    let parts = partition_data(&data, 1);
    assert_eq!(parts[0], &data[..]);
    let parts = partition_data(&data[0..2], 4);
    assert_eq!(parts.iter().map(|p| p.len()).collect::<Vec<_>>(), vec![0, 1, 0, 1]);
}

#[test]
fn the_spine_is_the_path_of_the_address() {
    let mut nc = make_nanocube(vec![2, 1], &vec![vec![2, 1], vec![3, 0]]);
    nc.flush_release_list();
    let mut spine: Vec<SpineEntry> = Vec::new();
    nc.make_spine(&vec![2, 1], &mut spine);
    // two bits and the step out of the first dimension, one bit and the step
    // out of the second, and the summary
    assert_eq!(spine.len(), 6);
    assert_eq!(spine[0], (nc.base_root, 0, 0, Some(true)));
    assert_eq!((spine[1].1, spine[1].2, spine[1].3), (0, 1, Some(false)));
    assert_eq!((spine[2].1, spine[2].2, spine[2].3), (0, 2, None));
    assert_eq!((spine[3].1, spine[3].2, spine[3].3), (1, 0, Some(true)));
    assert_eq!((spine[4].1, spine[4].2, spine[4].3), (1, 1, None));
    assert_eq!((spine[5].1, spine[5].2, spine[5].3), (2, 0, None));
    let root = nc.get_node(0, nc.base_root);
    assert_eq!(spine[1].0, root.right);
    assert_eq!(nc.summaries.values[spine[5].0.unwrap()], 1);
    // an address that is not in the cube: the path ends at a null pointer
    let mut spine: Vec<SpineEntry> = vec![(None, 9, 9, None)];
    nc.make_spine(&vec![0, 0], &mut spine);
    assert_eq!(spine.len(), 3);
    assert_eq!(spine[0], (None, 9, 9, None));
    assert_eq!(spine[1], (nc.base_root, 0, 0, Some(false)));
    assert_eq!(spine[2], (None, 0, 1, Some(false)));
    // the sparse spine keeps the branching node and the last leaf
    let mut sparse: Vec<SpineEntry> = Vec::new();
    nc.make_sparse_spine(&vec![2, 1], nc.base_root, 0, &mut sparse);
    assert_eq!(sparse.len(), 2);
    assert_eq!((sparse[0].1, sparse[0].2), (0, 1));
    assert!(nc.node_is_branching(0, sparse[0].0));
    assert_eq!((sparse[1].1, sparse[1].2), (1, 1));
    assert!(nc.node_is_leaf(1, sparse[1].0));
}

#[test]
fn marks_keep_a_node_from_being_taken_twice() {
    let mut nc = make_nanocube(vec![2, 1], &vec![vec![2, 1], vec![3, 0]]);
    nc.flush_release_list();
    let root = nc.base_root;
    let mut first: Vec<SpineEntry> = Vec::new();
    nc.make_sparse_spine_marking(&vec![2, 1], root, 0, &mut first);
    assert_eq!(first.len(), 2);
    for e in first.iter() {
        assert!(!nc.node_is_unmarked(e.1, e.0));
    }
    let mut second: Vec<SpineEntry> = Vec::new();
    nc.make_sparse_spine_marking(&vec![2, 1], root, 0, &mut second);
    assert!(second.is_empty());
    for e in first.iter() {
        nc.unmark_node(e.1, e.0);
    }
    nc.mark_node(first[0].1, first[0].0);
    assert_eq!(nc.get_node(first[0].1, first[0].0).flags, 1);
    let mut third: Vec<SpineEntry> = Vec::new();
    nc.make_sparse_spine_marking(&vec![2, 1], root, 0, &mut third);
    assert_eq!(third, vec![first[1]]);
    nc.unmark_node(first[0].1, first[0].0);
    nc.unmark_node(first[1].1, first[1].0);
    for dim in nc.dims.iter() {
        for node in dim.nodes.values.iter() {
            assert_eq!(node.flags, 0);
        }
    }
    assert_eq!(nc.range_query(&vec![(0, 4), (0, 2)]), 2);
}

#[test]
fn the_branching_spine_leaves_no_mark() {
    let mut nc = make_nanocube(
        vec![3, 3],
        &vec![vec![0, 0], vec![0, 2], vec![6, 4], vec![6, 6]],
    );
    nc.flush_release_list();
    let before = print_dot(&nc);
    let mut spine: Vec<SpineEntry> = Vec::new();
    nc.make_sparse_branching_spine(&vec![6, 6], &mut spine);
    assert!(!spine.is_empty());
    for (k, e) in spine.iter().enumerate() {
        assert!(nc.node_is_branching(e.1, e.0) || (e.1 == 1 && nc.node_is_leaf(e.1, e.0)));
        for f in spine[k + 1..].iter() {
            assert!((e.0, e.1) != (f.0, f.1));
        }
    }
    let mut sparse: Vec<SpineEntry> = Vec::new();
    nc.make_sparse_spine(&vec![6, 6], nc.base_root, 0, &mut sparse);
    assert_eq!(&spine[0..sparse.len()], &sparse[..]);
    for dim in nc.dims.iter() {
        for node in dim.nodes.values.iter() {
            assert_eq!(node.flags, 0);
        }
    }
    assert_eq!(print_dot(&nc), before);
}

#[test]
fn the_graph_of_a_small_cube() {
    let mut nc = Nanocube::<usize>::new(vec![1]);
    nc.add(1, &vec![1]);
    nc.flush_release_list();
    // the chain of the one point: summary 0, the leaf in slot 0, and above
    // it, on the side of the set bit, the root in slot 1
    let expected = "digraph G {\n    splines=line;\n subgraph cluster_0 {\n label=\"Dim. 0\";\n  \"0_0\" [label=\"0:0 [1]\"];\n  \"1_0\" [label=\"1:0 [1]\"];\n}\n  \"1_0\" -> \"0_0\" [label=\"1\"];\n}\n";
    assert_eq!(print_dot(&nc), expected);
    assert_eq!(nc.debug_print(), "--------\n-1 -1 0\n-1 0 0\n");
    assert_eq!(nc.report_size(), vec![1, 2]);
    assert_eq!(node_id(12, 3), "\"12_3\"");
    assert_eq!(node_id(0, 0), "\"0_0\"");
    assert_eq!(node_id(1000, 10), "\"1000_10\"");
    let text = test_nanocube(vec![1], &vec![vec![1]]);
    assert_eq!(text, expected);
    let empty = Nanocube::<usize>::new(vec![2, 2]);
    assert_eq!(
        print_dot(&empty),
        "digraph G {\n    splines=line;\n subgraph cluster_0 {\n label=\"Dim. 0\";\n}\n subgraph cluster_1 {\n label=\"Dim. 1\";\n}\n}\n"
    );
    assert_eq!(empty.report_size(), vec![0, 0, 0]);
}

#[test]
fn nodes_are_read_and_written_by_slot() {
    let mut dim = NCDim::new(3);
    assert_eq!(dim.len(), 0);
    assert_eq!(dim.width, 3);
    let i = dim.nodes.insert(NCDimNode { left: None, right: Some(4), next: Some(2), flags: 0 });
    assert_eq!(dim.len(), 1);
    assert_eq!(dim.at(Some(i)).right, Some(4));
    dim.at_mut(Some(i)).flags = 7;
    dim.at_mut(Some(i)).left = Some(1);
    let node = *dim.at(Some(i));
    assert_eq!((node.left, node.right, node.next, node.flags), (Some(1), Some(4), Some(2), 7));
}

fn reachable(nc: &Nanocube<usize>) -> Vec<Vec<bool>> {
    let d = nc.dims.len();
    let mut seen: Vec<Vec<bool>> = nc
        .dims
        .iter()
        .map(|dim| vec![false; dim.nodes.values.len()])
        .collect();
    seen.push(vec![false; nc.summaries.values.len()]);
    let mut work: Vec<(usize, usize)> = Vec::new();
    if let Some(r) = nc.base_root {
        work.push((0, r));
    }
    while let Some((level, i)) = work.pop() {
        if seen[level][i] {
            continue;
        }
        seen[level][i] = true;
        if level < d {
            let node = nc.dims[level].nodes.values[i];
            if let Some(l) = node.left {
                work.push((level, l));
            }
            if let Some(r) = node.right {
                work.push((level, r));
            }
            if let Some(n) = node.next {
                work.push((level + 1, n));
            }
        }
    }
    seen
}

fn live(nc: &Nanocube<usize>) -> Vec<Vec<bool>> {
    let mut all: Vec<Vec<bool>> = nc
        .dims
        .iter()
        .map(|dim| {
            (0..dim.nodes.values.len())
                .map(|i| !dim.nodes.free_list.contains(&i))
                .collect()
        })
        .collect();
    all.push(
        (0..nc.summaries.values.len())
            .map(|i| !nc.summaries.free_list.contains(&i))
            .collect(),
    );
    all
}

#[test]
fn after_a_flush_what_is_live_is_what_the_root_leads_to() {
    let points: Vec<Vec<usize>> = (0..40).map(|k| vec![(k * 7) % 16, (k * 5) % 8, k % 2]).collect();
    let mut nc = Nanocube::<usize>::new(vec![4, 3, 1]);
    for (k, p) in points.iter().enumerate() {
        nc.add(1, p);
        if k % 9 == 0 {
            nc.flush_release_list();
            assert_eq!(live(&nc), reachable(&nc));
        }
    }
    // before the flush the old paths are still there
    assert!(live(&nc) != reachable(&nc));
    nc.flush_release_list();
    assert_eq!(live(&nc), reachable(&nc));
    let mut other = make_nanocube(vec![4, 3, 1], &vec![vec![3, 3, 1], vec![15, 0, 0]]);
    other.flush_release_list();
    nc.merge_cube(&other);
    nc.flush_release_list();
    assert_eq!(live(&nc), reachable(&nc));
    assert_eq!(nc.range_query(&vec![(0, 16), (0, 8), (0, 2)]), 42);
}

#[test]
fn compacted_pools_with_rewritten_links_answer_as_before() {
    let points: Vec<Vec<usize>> = (0..30).map(|k| vec![(k * 3) % 8, (k * 5) % 4]).collect();
    let mut nc = Nanocube::<usize>::new(vec![3, 2]);
    for p in points.iter() {
        nc.add(1, p);
    }
    nc.flush_release_list();
    assert!(nc.dims.iter().any(|d| !d.nodes.free_list.is_empty()));
    let mut before = Vec::new();
    for a in 0..8 {
        for b in a..=8 {
            for c in 0..4 {
                for d in c..=4 {
                    before.push(nc.range_query(&vec![(a, b), (c, d)]));
                }
            }
        }
    }
    // compact every pool, then follow the moves in every link and in the root
    let mut moves = Vec::new();
    for dim in nc.dims.iter_mut() {
        moves.push(dim.nodes.compact());
    }
    moves.push(nc.summaries.compact());
    let follow = |level: usize, p: NodePointerType| p.map(|i| *moves[level].get(&i).unwrap_or(&i));
    for (k, dim) in nc.dims.iter_mut().enumerate() {
        for node in dim.nodes.values.iter_mut() {
            node.left = follow(k, node.left);
            node.right = follow(k, node.right);
            node.next = follow(k + 1, node.next);
        }
    }
    nc.base_root = follow(0, nc.base_root);
    assert!(nc.dims.iter().all(|d| d.nodes.free_list.is_empty()));
    assert_eq!(live(&nc), reachable(&nc));
    let mut after = Vec::new();
    for a in 0..8 {
        for b in a..=8 {
            for c in 0..4 {
                for d in c..=4 {
                    after.push(nc.range_query(&vec![(a, b), (c, d)]));
                }
            }
        }
    }
    assert_eq!(before, after);
    // the compacted cube goes on working
    nc.add(1, &vec![7, 3]);
    assert_eq!(nc.range_query(&vec![(0, 8), (0, 4)]), 31);
}

fn take_unmarked(
    nc: &Nanocube<usize>,
    address: &Vec<usize>,
    from: NodePointerType,
    dim: usize,
    marks: &mut Vec<(usize, usize)>,
    out: &mut Vec<SpineEntry>,
) {
    let mut sparse: Vec<SpineEntry> = Vec::new();
    nc.make_sparse_spine(address, from, dim, &mut sparse);
    for e in sparse {
        let node = (e.1, e.0.unwrap());
        if !marks.contains(&node) {
            marks.push(node);
            out.push(e);
        }
    }
}

#[test]
fn the_branching_spine_goes_on_from_every_entry_it_takes() {
    let points: Vec<Vec<usize>> = (0..20).map(|k| vec![(k * 3) % 8, (k * 5) % 4, (k * 7) % 4]).collect();
    let mut nc = make_nanocube(vec![3, 2, 2], &points);
    nc.flush_release_list();
    for address in [vec![0, 0, 0], vec![3, 3, 1], vec![7, 1, 2], vec![5, 2, 3]] {
        let mut expected: Vec<SpineEntry> = Vec::new();
        let mut marks: Vec<(usize, usize)> = Vec::new();
        take_unmarked(&nc, &address, nc.base_root, 0, &mut marks, &mut expected);
        let mut i = 0;
        while i < expected.len() {
            let e = expected[i];
            if e.1 + 1 < nc.dims.len() {
                let next = nc.get_node(e.1, e.0).next;
                take_unmarked(&nc, &address, next, e.1 + 1, &mut marks, &mut expected);
            }
            i += 1;
        }
        let mut spine: Vec<SpineEntry> = Vec::new();
        nc.make_sparse_branching_spine(&address, &mut spine);
        assert_eq!(spine, expected);
        assert!(spine.iter().any(|e| e.1 == 2));
    }
}

#[test]
fn a_freed_node_has_no_links() {
    let mut nc = Nanocube::<usize>::new(vec![3, 2]);
    for k in 0..25usize {
        nc.add(1, &vec![(k * 5) % 8, (k * 3) % 4]);
    }
    let summaries_before = nc.summaries.values.clone();
    nc.flush_release_list();
    let mut freed = 0;
    for dim in nc.dims.iter() {
        for &i in dim.nodes.free_list.iter() {
            let node = dim.nodes.values[i];
            assert_eq!((node.left, node.right, node.next), (None, None, None));
            assert_eq!(dim.nodes.ref_counts[i], 0);
            freed += 1;
        }
    }
    assert!(freed > 0);
    assert_eq!(nc.summaries.values, summaries_before);
}

#[test]
fn the_graph_shows_the_count_of_a_shared_node() {
    let mut nc = Nanocube::<usize>::new(vec![1]);
    nc.add(1, &vec![1]);
    nc.flush_release_list();
    let once = print_dot(&nc);
    let root = nc.base_root;
    nc.make_node_ref(root, 0);
    let twice = print_dot(&nc);
    assert!(once.contains("[label=\"1:0 [1]\"]"));
    assert!(twice.contains("[label=\"1:0 [2]\"]"));
    assert_ne!(once, twice);
}

#[test]
fn a_fresh_chain_on_an_empty_cube_makes_a_node_for_each_bit_a_leaf_and_a_summary() {
    let mut nc = Nanocube::<usize>::new(vec![2]);
    let r = nc.insert_fresh_node(5, &vec![2], 0, 0);
    let n = nc.get_node(0, r);
    let c = nc.get_node(0, n.right);
    assert!(n.left.is_none() && n.right.is_some());
    assert!(c.left.is_some() && c.right.is_none());
    assert!(nc.node_is_leaf(0, c.left));
    assert_eq!(nc.summaries.values[n.next.unwrap()], 5);
    assert_eq!(nc.dims[0].nodes.len(), 3);
    assert_eq!(nc.summaries.len(), 1);
    assert_eq!(nc.dims[0].nodes.ref_counts[r.unwrap()], 0);
    for node in nc.dims[0].nodes.values.iter() {
        assert_eq!(node.flags, 0);
    }
}

#[test]
fn a_fresh_chain_takes_free_slots_before_it_adds_new_ones() {
    let mut nc = Nanocube::<usize>::new(vec![2, 1]);
    nc.add(1, &vec![1, 0]);
    nc.add(1, &vec![2, 1]);
    nc.flush_release_list();
    let free: Vec<usize> = nc.dims.iter().map(|d| d.nodes.free_list.len()).collect();
    let lens: Vec<usize> = nc.dims.iter().map(|d| d.nodes.len()).collect();
    let free_summaries = nc.summaries.free_list.len();
    let len_summaries = nc.summaries.len();
    // from bit 1 of the first dimension: 2 nodes there, 2 in the second, 1 summary
    nc.insert_fresh_node(7, &vec![3, 1], 0, 1);
    let made = [2usize, 2];
    for d in 0..2 {
        let live_before = lens[d] - free[d];
        let live_after = nc.dims[d].nodes.len() - nc.dims[d].nodes.free_list.len();
        assert_eq!(live_after, live_before + made[d]);
        assert_eq!(nc.dims[d].nodes.free_list.len(), free[d].saturating_sub(made[d]));
    }
    assert_eq!(
        nc.summaries.len() - nc.summaries.free_list.len(),
        len_summaries - free_summaries + 1
    );
}

#[test]
fn the_merge_of_two_nodes_is_a_new_node_without_mark_or_count() {
    let mut nc = Nanocube::<usize>::new(vec![2]);
    let a = nc.insert_fresh_node(1, &vec![0], 0, 0);
    let b = nc.insert_fresh_node(1, &vec![3], 0, 0);
    nc.mark_node(0, a);
    let r = nc.merge(a, b, 0);
    assert!(r.is_some() && r != a && r != b);
    assert_eq!(nc.get_node(0, r).flags, 0);
    assert_eq!(nc.dims[0].nodes.ref_counts[r.unwrap()], 0);
    // the operands keep their marks
    assert_eq!(nc.get_node(0, a).flags, 1);
    assert_eq!(nc.get_node(0, b).flags, 0);
}

#[test]
fn the_merge_of_two_summaries_leaves_the_node_pools_alone() {
    let mut nc = Nanocube::<usize>::new(vec![1]);
    nc.add(2, &vec![0]);
    nc.add(3, &vec![1]);
    nc.flush_release_list();
    let nodes_before: Vec<Vec<NCDimNode>> = nc.dims.iter().map(|d| d.nodes.values.clone()).collect();
    let counts_before: Vec<Vec<usize>> = nc.dims.iter().map(|d| d.nodes.ref_counts.clone()).collect();
    let live: Vec<usize> = (0..nc.summaries.len()).filter(|i| nc.summaries.ref_counts[*i] > 0).collect();
    assert!(live.len() >= 2);
    let (x, y) = (live[0], live[1]);
    let expected = nc.summaries.values[x] + nc.summaries.values[y];
    let r = nc.merge(Some(x), Some(y), 1);
    assert_eq!(nc.summaries.values[r.unwrap()], expected);
    assert_eq!(nc.summaries.ref_counts[r.unwrap()], 0);
    for d in 0..nc.dims.len() {
        assert_eq!(nc.dims[d].nodes.ref_counts, counts_before[d]);
        assert_eq!(nc.dims[d].nodes.values.len(), nodes_before[d].len());
        for i in 0..nodes_before[d].len() {
            let (n, m) = (nc.dims[d].nodes.values[i], nodes_before[d][i]);
            assert_eq!((n.left, n.right, n.next, n.flags), (m.left, m.right, m.next, m.flags));
        }
    }
}

#[test]
fn no_mark_is_left_after_adding_and_flushing() {
    let mut nc = Nanocube::<usize>::new(vec![3, 2]);
    for k in 0..40usize {
        nc.add(1, &vec![(k * 5) % 8, (k * 3) % 4]);
        assert!(nc.base_root.is_some());
    }
    nc.flush_release_list();
    for dim in nc.dims.iter() {
        for node in dim.nodes.values.iter() {
            assert_eq!(node.flags, 0);
        }
    }
}

#[test]
fn a_flush_raises_no_count() {
    let mut nc = Nanocube::<usize>::new(vec![3, 2]);
    for k in 0..30usize {
        nc.add(1, &vec![(k * 7) % 8, (k * 3) % 4]);
    }
    let before: Vec<Vec<usize>> = nc.dims.iter().map(|d| d.nodes.ref_counts.clone()).collect();
    let summaries_before = nc.summaries.ref_counts.clone();
    nc.flush_release_list();
    for d in 0..nc.dims.len() {
        for i in 0..before[d].len() {
            assert!(nc.dims[d].nodes.ref_counts[i] <= before[d][i]);
        }
    }
    for i in 0..summaries_before.len() {
        assert!(nc.summaries.ref_counts[i] <= summaries_before[i]);
    }
}

#[test]
fn the_two_results_of_an_insertion_are_one_slot_only_in_an_empty_cube() {
    let mut nc = Nanocube::<usize>::new(vec![2, 2]);
    let mut spine: Vec<SpineEntry> = Vec::new();
    let first = nc.insert_new(1, &vec![1, 2], &mut spine);
    assert_eq!(first.0, first.1);
    assert!(spine.is_empty());
    nc.add(1, &vec![1, 2]);
    let second = nc.insert_new(1, &vec![1, 2], &mut spine);
    assert!(second.0.is_some() && second.1.is_some());
    assert_ne!(second.0, second.1);
    let third = nc.insert_new(1, &vec![3, 0], &mut spine);
    assert_ne!(third.0, third.1);
    let root = nc.base_root;
    let fourth = nc.insert(1, &vec![0, 0], 0, 0, root);
    assert_ne!(fourth.0, fourth.1);
}

#[test]
fn adding_no_points_changes_nothing() {
    let mut nc = Nanocube::<usize>::new(vec![2, 2]);
    nc.add(1, &vec![1, 2]);
    let before = print_dot(&nc);
    let counts: Vec<Vec<usize>> = nc.dims.iter().map(|d| d.nodes.ref_counts.clone()).collect();
    let root = nc.base_root;
    let queued = nc.release_list.clone();
    nc.add_many(&[], &[]);
    assert_eq!(print_dot(&nc), before);
    assert_eq!(nc.base_root, root);
    assert_eq!(nc.release_list, queued);
    for d in 0..nc.dims.len() {
        assert_eq!(nc.dims[d].nodes.ref_counts, counts[d]);
    }
    let empty = Nanocube::<usize>::new_from_many(vec![2, 2], &[], &[]);
    assert!(empty.base_root.is_none());
    assert!(empty.release_list.is_empty());
    assert_eq!(empty.summaries.len(), 0);
    for dim in empty.dims.iter() {
        assert_eq!(dim.nodes.len(), 0);
    }
}

#[test]
fn no_parts_of_a_list_is_an_empty_list() {
    let data: Vec<Vec<usize>> = vec![vec![1], vec![2], vec![3]];
    assert!(partition_data(&data, 0).is_empty());
    assert!(partition_data(&data[0..0], 0).is_empty());
}
