use nanocube2::cube::{Cube, Monoid};
use nanocube2::naivecube::{smoke_test, Naivecube};
use nanocube2::nanocube::Nanocube;
use nanocube2::query::{nanocube_range_query, Range};

fn build(widths: Vec<usize>, points: &[Vec<usize>]) -> Nanocube<usize> {
    let mut nc = Nanocube::<usize>::new(widths);
    for p in points {
        nc.add(1, p);
    }
    nc
}

fn oracle(widths: Vec<usize>, points: &[Vec<usize>]) -> Naivecube<usize> {
    let mut nc = Naivecube::<usize>::new(widths);
    for p in points {
        nc.add(1, p);
    }
    nc
}

#[test]
fn three_points_in_two_dimensions() {
    let points = [vec![0, 0], vec![1, 0], vec![1, 1]];
    let nc = build(vec![2, 2], &points);
    assert_eq!(nc.range_query(&vec![(0, 4), (0, 4)]), 3);
    assert_eq!(nc.range_query(&vec![(0, 1), (0, 4)]), 1);
    assert_eq!(nc.range_query(&vec![(1, 2), (1, 2)]), 1);
    // both (1, 0) and (1, 1) lie in this box
    let naive = oracle(vec![2, 2], &points);
    assert_eq!(naive.range_query(&vec![(1, 2), (0, 2)]), 2);
    assert_eq!(nc.range_query(&vec![(1, 2), (0, 2)]), 2);
}

#[test]
fn the_same_point_twice() {
    let nc = build(vec![2, 2], &[vec![0, 2], vec![0, 2]]);
    assert_eq!(nc.range_query(&vec![(0, 4), (0, 4)]), 2);
    assert_eq!(nc.range_query(&vec![(0, 1), (2, 3)]), 2);
    assert_eq!(nc.range_query(&vec![(0, 1), (0, 2)]), 0);
}

#[test]
fn four_points_in_wider_dimensions() {
    let nc = build(vec![3, 3], &[vec![0, 0], vec![0, 2], vec![6, 4], vec![6, 6]]);
    assert_eq!(nc.range_query(&vec![(0, 8), (0, 8)]), 4);
    assert_eq!(nc.range_query(&vec![(0, 1), (0, 8)]), 2);
    assert_eq!(nc.range_query(&vec![(6, 7), (0, 8)]), 2);
    assert_eq!(nc.range_query(&vec![(0, 8), (4, 5)]), 1);
}

#[test]
fn two_cubes_merged() {
    let mut first = build(vec![2, 2], &[vec![0, 0]]);
    let second = build(vec![2, 2], &[vec![3, 3]]);
    first.merge_cube(&second);
    assert_eq!(first.range_query(&vec![(0, 4), (0, 4)]), 2);
    assert_eq!(first.range_query(&vec![(0, 1), (0, 1)]), 1);
    assert_eq!(first.range_query(&vec![(3, 4), (3, 4)]), 1);
    assert_eq!(first.range_query(&vec![(1, 3), (0, 4)]), 0);
    // the cube that was merged in is as it was
    assert_eq!(second.range_query(&vec![(0, 4), (0, 4)]), 1);
}

#[test]
fn empty_cube_answers_with_the_identity() {
    let nc = Nanocube::<usize>::new(vec![3, 2]);
    assert_eq!(nc.range_query(&vec![(0, 8), (0, 4)]), 0);
    assert_eq!(nc.range_query(&vec![(2, 3), (1, 2)]), 0);
    assert_eq!(nc.base_root, None);
    let unit = Nanocube::<usize>::mempty();
    assert_eq!(unit.dims.len(), 1);
    assert_eq!(unit.dims[0].width, 1);
    assert_eq!(unit.range_query(&vec![(0, 2)]), 0);
}

#[test]
fn empty_ranges_hold_nothing() {
    let nc = build(vec![2, 2], &[vec![0, 0], vec![1, 3], vec![3, 3]]);
    assert_eq!(nc.range_query(&vec![(0, 0), (0, 4)]), 0);
    assert_eq!(nc.range_query(&vec![(1, 1), (0, 4)]), 0);
    assert_eq!(nc.range_query(&vec![(0, 4), (3, 3)]), 0);
    assert_eq!(nc.range_query(&vec![(4, 4), (0, 4)]), 0);
}

#[test]
fn naive_cube_folds_the_points_inside() {
    let mut nc = Naivecube::<usize>::new(vec![2, 2]);
    nc.add(1, &vec![0, 0]);
    nc.add(2, &vec![3, 3]);
    nc.add(4, &vec![1, 2]);
    assert_eq!(nc.range_query(&vec![(0, 4), (0, 4)]), 7);
    assert_eq!(nc.range_query(&vec![(0, 2), (0, 4)]), 5);
    assert_eq!(nc.range_query(&vec![(3, 4), (3, 4)]), 2);
    assert_eq!(nc.range_query(&vec![(2, 3), (0, 4)]), 0);
    assert_eq!(nc.values.len(), 3);
    assert_eq!(nc.widths, vec![2, 2]);
}

#[test]
fn naive_smoke_test_runs() {
    smoke_test();
}

#[test]
fn summaries_other_than_one_are_combined() {
    let mut nc = Nanocube::<usize>::new(vec![2, 1]);
    nc.add(5, &vec![1, 0]);
    nc.add(7, &vec![1, 1]);
    nc.add(11, &vec![2, 1]);
    nc.add(100, &vec![1, 0]);
    assert_eq!(nc.range_query(&vec![(0, 4), (0, 2)]), 123);
    assert_eq!(nc.range_query(&vec![(1, 2), (0, 1)]), 105);
    assert_eq!(nc.range_query(&vec![(1, 3), (1, 2)]), 18);
    assert_eq!(nanocube_range_query(&nc, &vec![(2, 3), (0, 2)]), 11);
}

#[test]
fn machine_words_add_with_wrapping() {
    assert_eq!(3usize.mapply(&4), 7);
    assert_eq!(usize::mempty(), 0);
    assert_eq!(usize::MAX.mapply(&1), 0);
    assert_eq!(usize::MAX.mapply(&usize::MAX), usize::MAX - 1);
    assert_eq!(0usize.mapply(&usize::MAX), usize::MAX);
}

#[test]
fn ranges_halve_without_overflow() {
    let whole = Range::new_from_width(3);
    assert_eq!((whole.lo, whole.up), (0, 8));
    let lo = whole.lo_subrange();
    let up = whole.up_subrange();
    assert_eq!((lo.lo, lo.up), (0, 4));
    assert_eq!((up.lo, up.up), (4, 8));
    let big = Range { lo: usize::MAX - 4, up: usize::MAX };
    assert_eq!(big.lo_subrange().up, usize::MAX - 2);
    assert_eq!(big.up_subrange().lo, usize::MAX - 2);
    let odd = Range { lo: 3, up: 8 };
    assert_eq!(odd.lo_subrange().up, 5);
    let one = Range::new_from_width(0);
    assert_eq!((one.lo, one.up), (0, 1));
}

#[test]
fn ranges_contain_and_overlap() {
    let q = Range { lo: 2, up: 6 };
    assert!(q.contains(&Range { lo: 2, up: 6 }));
    assert!(q.contains(&Range { lo: 3, up: 4 }));
    assert!(!q.contains(&Range { lo: 1, up: 4 }));
    assert!(!q.contains(&Range { lo: 3, up: 7 }));
    assert!(q.overlaps(&Range { lo: 0, up: 3 }));
    assert!(q.overlaps(&Range { lo: 5, up: 9 }));
    assert!(!q.overlaps(&Range { lo: 0, up: 2 }));
    assert!(!q.overlaps(&Range { lo: 6, up: 8 }));
    assert!(q.not_overlaps(&Range { lo: 6, up: 8 }));
    assert!(!q.not_overlaps(&Range { lo: 4, up: 5 }));
}
