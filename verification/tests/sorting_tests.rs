use r_descent::evaluation::{recall_overlap, top_k_indices};
use r_descent::output::{fill_window_neighbours, select_output_neighbours};
use r_descent::rdescent::RDescent;
use r_descent::sorting::{
    arg_sort_big_to_small_1d_f32, arg_sort_big_to_small_2d, arg_sort_small_to_big_1d_f32,
    arg_sort_small_to_big_1d_f64, arg_sort_small_to_big_2d_f32, stable_arg_sort,
};

#[test]
fn ascending_arg_sort_is_stable() {
    let (ords, vals) = arg_sort_small_to_big_1d_f64(&vec![3, 1, 2, 1]);
    assert_eq!(ords, vec![1, 3, 2, 0]);
    assert_eq!(vals, vec![1, 1, 2, 3]);
    let (ords, vals) = arg_sort_small_to_big_1d_f32(&vec![-5, 7, -5]);
    assert_eq!(ords, vec![0, 2, 1]);
    assert_eq!(vals, vec![-5, -5, 7]);
    assert_eq!(arg_sort_small_to_big_1d_f32(&vec![]), (vec![], vec![]));
}

#[test]
fn descending_arg_sort_is_stable() {
    let (ords, vals) = arg_sort_big_to_small_1d_f32(&vec![3, 1, 3, 2]);
    assert_eq!(ords, vec![0, 2, 3, 1]);
    assert_eq!(vals, vec![3, 3, 2, 1]);
    assert_eq!(stable_arg_sort(&vec![1, 1, 1], true), vec![0, 1, 2]);
}

#[test]
fn matrix_arg_sort_runs_over_all_cells() {
    let (ords, vals) = arg_sort_small_to_big_2d_f32(&vec![vec![4, 2], vec![3, 1]]);
    assert_eq!(ords, vec![3, 1, 2, 0]);
    assert_eq!(vals, vec![1, 2, 3, 4]);
    let (ords, vals) = arg_sort_big_to_small_2d(&vec![vec![4, 2, 9], vec![1, 1, 0]]);
    assert_eq!(ords, vec![vec![2, 0, 1], vec![0, 1, 2]]);
    assert_eq!(vals, vec![vec![9, 4, 2], vec![1, 1, 0]]);
}

#[test]
fn window_rows_get_the_most_similar_positions() {
    let mut table = vec![vec![0usize; 2]; 5];
    let chunk = vec![vec![9, 3, 5], vec![3, 9, 1], vec![5, 1, 9]];
    fill_window_neighbours(&chunk, 2, 2, &mut table);
    assert_eq!(table, vec![vec![0, 0], vec![0, 0], vec![2, 4], vec![3, 2], vec![4, 2]]);
}

#[test]
fn output_rows_are_ordered_by_similarity_from_one() {
    let d = RDescent {
        neighbours: vec![vec![7, 3, 5], vec![0, 2, 4]],
        similarities: vec![vec![1, 9, 4], vec![2, 2, 3]],
    };
    let out = select_output_neighbours(&d, 1, 3);
    assert_eq!(out, vec![vec![6, 8], vec![1, 3]]);
    let all = select_output_neighbours(&d, 0, 3);
    assert_eq!(all, vec![vec![4, 6, 8], vec![5, 1, 3]]);
}

#[test]
fn brute_force_top_k() {
    let dao = r_descent::dao::dao_from_data(
        vec![vec![1, 1, 0], vec![1, 0, 0], vec![-1, -1, 0], vec![1, 1, 1], vec![0, 1, 0]],
        3,
    )
    .unwrap();
    // similarities to point 0: [2, 1, -2, 2, 1]
    assert_eq!(top_k_indices(&dao, 0, 2), vec![0, 3]);
    // ties at 1: point 1 is kept first, then 4 does not beat it
    assert_eq!(top_k_indices(&dao, 0, 3), vec![0, 3, 1]);
    assert_eq!(top_k_indices(&dao, 0, 9), vec![0, 3, 1, 4, 2]);
}

#[test]
fn recall_counts_common_points_once() {
    // ground truth is numbered from one
    assert_eq!(recall_overlap(&vec![1, 2, 3], &vec![0, 1, 5], 3), 2);
    assert_eq!(recall_overlap(&vec![1, 2, 3], &vec![0, 0, 0], 3), 1);
    assert_eq!(recall_overlap(&vec![1, 2, 3, 4], &vec![3, 9, 9, 9], 1), 0);
    assert_eq!(recall_overlap(&vec![4, 2], &vec![3, 1], 15), 2);
}
