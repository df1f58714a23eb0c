use corr_matrix::edges::{keep_weight, select_edges, EdgeList, Mode};
use corr_matrix::matrix::KeyMatrix;
use corr_matrix::rank::rank_values;
use corr_matrix::rounding::{round_half_even, Half};

fn parts(list: EdgeList) -> (Vec<u32>, Vec<u32>, Vec<u32>) {
    list.into_parts()
}

#[test]
fn half_even_breaks_ties_toward_even() {
    // 2.345 scales to 234.5: the even neighbour is 234.
    assert_eq!(round_half_even(234, Half::Exact), 234);
    // 2.355 scales to 235.5: the even neighbour is 236.
    assert_eq!(round_half_even(235, Half::Exact), 236);
}

#[test]
fn half_even_rounds_off_midpoint() {
    assert_eq!(round_half_even(7, Half::Below), 7);
    assert_eq!(round_half_even(7, Half::Above), 8);
    assert_eq!(round_half_even(0, Half::Exact), 0);
    assert_eq!(round_half_even(u64::MAX, Half::Above), u64::MAX);
}

#[test]
fn ranks_without_ties() {
    // Ranks 3, 1, 2, doubled.
    assert_eq!(rank_values(&vec![3, 1, 2]), vec![6, 2, 4]);
}

#[test]
fn ranks_average_ties() {
    // Ranks 1.5, 1.5, 3, doubled.
    assert_eq!(rank_values(&vec![1, 1, 2]), vec![3, 3, 6]);
}

#[test]
fn ranks_of_empty_and_constant() {
    assert_eq!(rank_values(&vec![]), Vec::<u64>::new());
    // Four equal values share the mean rank 2.5.
    assert_eq!(rank_values(&vec![9, 9, 9, 9]), vec![5, 5, 5, 5]);
    assert_eq!(rank_values(&vec![5, 2, 5, 1]), vec![7, 4, 7, 2]);
}

#[test]
fn matrix_rejects_bad_shapes() {
    assert!(KeyMatrix::new(0, 2, vec![]).is_none());
    assert!(KeyMatrix::new(2, 0, vec![]).is_none());
    assert!(KeyMatrix::new(2, 2, vec![Some(1), Some(2), Some(3)]).is_none());
    let m = KeyMatrix::new(2, 2, vec![Some(1), Some(2), Some(3), Some(4)]).unwrap();
    assert_eq!(m.rows(), 2);
    assert_eq!(m.cols(), 2);
}

#[test]
fn joint_columns_skip_missing() {
    let m = KeyMatrix::new(
        2,
        5,
        vec![Some(1), None, Some(3), Some(4), Some(5), Some(2), Some(2), None, Some(8), Some(1)],
    )
    .unwrap();
    assert_eq!(m.joint_columns(0, 1), vec![0, 3, 4]);
    assert_eq!(m.keys_at(0, &vec![0, 3, 4]), vec![1, 4, 5]);
    assert_eq!(m.keys_at(1, &vec![0, 3, 4]), vec![2, 8, 1]);
}

#[test]
fn fewer_than_two_shared_columns_give_none() {
    let m = KeyMatrix::new(2, 3, vec![Some(1), None, Some(3), None, Some(2), None]).unwrap();
    assert!(m.pair_support(0, 1).is_none());
    assert!(m.pair_ranks(0, 1).is_none());
    let one = KeyMatrix::new(2, 3, vec![Some(1), None, Some(3), Some(4), Some(2), None]).unwrap();
    assert!(one.pair_support(0, 1).is_none());
}

#[test]
fn pair_ranks_use_shared_columns_only() {
    let m = KeyMatrix::new(
        2,
        4,
        vec![Some(10), Some(30), None, Some(20), Some(5), Some(5), Some(1), Some(9)],
    )
    .unwrap();
    assert_eq!(m.pair_support(0, 1), Some(vec![0, 1, 3]));
    // Row 0 on columns 0, 1, 3: 10, 30, 20; row 1: 5, 5, 9.
    assert_eq!(m.pair_ranks(0, 1), Some((vec![2, 6, 4], vec![3, 3, 6])));
}

#[test]
fn full_rows_rank_as_whole_rows() {
    let cells = vec![Some(4), Some(1), Some(4), Some(2), Some(7), Some(3)];
    let m = KeyMatrix::new(2, 3, cells).unwrap();
    let (ri, rj) = m.pair_ranks(1, 0).unwrap();
    assert_eq!(ri, rank_values(&vec![2, 7, 3]));
    assert_eq!(rj, rank_values(&vec![4, 1, 4]));
}

#[test]
fn mode_from_flag() {
    assert_eq!(Mode::from_flag(0), Mode::Signed);
    assert_eq!(Mode::from_flag(1), Mode::Absolute);
    assert_eq!(Mode::from_flag(7), Mode::Absolute);
}

#[test]
fn keep_weight_policy() {
    assert_eq!(keep_weight(None, 0, Mode::Absolute), None);
    assert_eq!(keep_weight(Some(-80), 50, Mode::Signed), None);
    assert_eq!(keep_weight(Some(0), -10, Mode::Signed), None);
    assert_eq!(keep_weight(Some(-80), 50, Mode::Absolute), Some(80));
    assert_eq!(keep_weight(Some(49), 50, Mode::Signed), None);
    // The threshold is inclusive.
    assert_eq!(keep_weight(Some(50), 50, Mode::Signed), Some(50));
    assert_eq!(keep_weight(Some(i32::MIN), 0, Mode::Absolute), Some(2147483648));
}

#[test]
fn one_strong_pair_among_three_rows() {
    // Pairs in scan order: (1,0), (2,0), (2,1). Rows 0 and 1 correlate
    // perfectly; row 2 correlates with neither.
    let corrs = vec![Some(100), Some(0), Some(3)];
    let (s, t, w) = parts(select_edges(3, &corrs, 99, Mode::Signed));
    assert_eq!(s, vec![1]);
    assert_eq!(t, vec![0]);
    assert_eq!(w, vec![100]);
}

#[test]
fn edges_come_in_scan_order() {
    let corrs = vec![Some(90), Some(-95), None, Some(10), Some(70), Some(80)];
    let list = select_edges(4, &corrs, 50, Mode::Absolute);
    assert_eq!(list.len(), 4);
    let (s, t, w) = parts(list);
    assert_eq!(s, vec![1, 2, 3, 3]);
    assert_eq!(t, vec![0, 0, 1, 2]);
    assert_eq!(w, vec![90, 95, 70, 80]);
    for k in 1..s.len() {
        assert!((s[k - 1], t[k - 1]) < (s[k], t[k]));
    }
}

#[test]
fn signed_mode_drops_non_positive() {
    let corrs = vec![Some(90), Some(-95), None, Some(10), Some(70), Some(0)];
    let (s, t, w) = parts(select_edges(4, &corrs, -100, Mode::Signed));
    assert_eq!(s, vec![1, 3, 3]);
    assert_eq!(t, vec![0, 0, 1]);
    assert_eq!(w, vec![90, 10, 70]);
}

#[test]
fn single_row_has_no_edges() {
    let list = select_edges(1, &vec![], 0, Mode::Absolute);
    assert_eq!(list.len(), 0);
}
