use bidiag_svd::deflation::{deflation_order, last_unreduced, shift_first_column};
use bidiag_svd::merge::{
    active_count, ascending_swaps, next_active, nonzero_positions, output_columns, perturb_partner,
    position_of, Partner,
};
use bidiag_svd::perm::{arrange_by_swaps, invert_permutation, transpositions_for};
use bidiag_svd::qr::{active_block, descending_swaps, qr_iteration_cap};
use bidiag_svd::{select_path, split_sizes, SolverPath};

#[test]
fn routing_follows_the_decision_table() {
    assert_eq!(select_path(4, 5, 0), SolverPath::Jacobi);
    assert_eq!(select_path(5, 5, 0), SolverPath::Jacobi);
    assert_eq!(select_path(9, 5, 0), SolverPath::DivideAndConquer);
    assert_eq!(select_path(10, 5, 20), SolverPath::BidiagQr);
    assert_eq!(select_path(20, 5, 20), SolverPath::BidiagQr);
    assert_eq!(select_path(21, 5, 20), SolverPath::DivideAndConquer);
    assert_eq!(select_path(0, 0, 0), SolverPath::Jacobi);
}

#[test]
fn routing_covers_each_regime_of_the_random_sizes() {
    for n in [9usize, 16, 32, 64, 128, 256, 512, 1024] {
        assert_eq!(select_path(n, 5, 0), SolverPath::DivideAndConquer);
    }
    assert_eq!(select_path(64, 15, 0), SolverPath::DivideAndConquer);
    assert_eq!(select_path(4, 40, 0), SolverPath::Jacobi);
}

#[test]
fn split_sizes_halves_the_problem() {
    assert_eq!(split_sizes(9, 5), (4, 4, true));
    assert_eq!(split_sizes(13, 5), (6, 6, false));
    assert_eq!(split_sizes(1024, 40), (512, 511, false));
    assert_eq!(split_sizes(1, 0), (0, 0, true));
}

#[test]
fn inverse_of_a_permutation() {
    assert_eq!(invert_permutation(&vec![2, 0, 1]), vec![1, 2, 0]);
    assert_eq!(invert_permutation(&vec![]), Vec::<usize>::new());
    assert_eq!(invert_permutation(&vec![0, 1, 2]), vec![0, 1, 2]);
}

#[test]
fn transpositions_realise_the_target() {
    let target = vec![0, 3, 1, 2];
    let t = transpositions_for(&target);
    assert_eq!(t, vec![0, 3, 3, 3]);
    assert_eq!(arrange_by_swaps(&t, 4, 4), target);

    // applied to column data, position i receives column target[i]
    let mut data = vec![10, 11, 12, 13];
    for (i, &j) in t.iter().enumerate() {
        data.swap(i, j);
    }
    assert_eq!(data, vec![10, 13, 11, 12]);
}

#[test]
fn transpositions_of_a_reversal() {
    let target = vec![4, 3, 2, 1, 0];
    let t = transpositions_for(&target);
    assert_eq!(arrange_by_swaps(&t, 5, 5), target);
    for (i, &j) in t.iter().enumerate() {
        assert!(i <= j && j < 5);
    }
}

#[test]
fn active_count_drops_trailing_zero_diagonal() {
    assert_eq!(active_count(&vec![false, false, true, true]), 2);
    assert_eq!(active_count(&vec![true, true]), 1);
    assert_eq!(active_count(&vec![false]), 1);
    assert_eq!(active_count(&vec![false, true, false]), 3);
}

#[test]
fn nonzero_positions_lists_active_indices() {
    assert_eq!(nonzero_positions(&vec![false, true, false, false], 3), vec![0, 2]);
    assert_eq!(nonzero_positions(&vec![true, true], 2), Vec::<usize>::new());
}

#[test]
fn output_columns_store_largest_first() {
    assert_eq!(output_columns(&vec![2, 0, 1], 4), vec![0, 2, 1, 3]);
    assert_eq!(output_columns(&vec![], 2), vec![0, 1]);
}

#[test]
fn position_of_finds_the_last_match() {
    assert_eq!(position_of(&vec![2, 0, 1, 0], 0), 3);
    assert_eq!(position_of(&vec![2, 0, 1], 1), 2);
    assert_eq!(position_of(&vec![2, 0, 1], 7), 0);
}

#[test]
fn qr_iteration_cap_saturates() {
    assert_eq!(qr_iteration_cap(4), 480);
    assert_eq!(qr_iteration_cap(0), 0);
    assert_eq!(qr_iteration_cap(1 << 32), usize::MAX);
    assert_eq!(qr_iteration_cap(usize::MAX), usize::MAX);
}

#[test]
fn active_block_finds_the_unreduced_block() {
    let tiny = vec![false, false, false, true];
    let zero = vec![false, true, false, true];
    assert_eq!(active_block(&tiny, &zero), Some((2, 4)));
    assert_eq!(active_block(&vec![true, true], &vec![true, false]), None);
    assert_eq!(active_block(&vec![false], &vec![false]), Some((0, 2)));
    assert_eq!(active_block(&vec![], &vec![]), None);
}

#[test]
fn descending_swaps_sort_by_selection() {
    let keys = vec![1, 3, 2, 3];
    let t = descending_swaps(&keys);
    assert_eq!(t, vec![1, 3, 2, 3]);
    let mut sorted = keys.clone();
    for (i, &j) in t.iter().enumerate() {
        sorted.swap(i, j);
    }
    assert_eq!(sorted, vec![3, 3, 2, 1]);
}

#[test]
fn sorting_sorted_values_again_swaps_nothing() {
    let t = descending_swaps(&vec![1, 3, 2, 3]);
    let mut sorted = vec![1, 3, 2, 3];
    for (i, &j) in t.iter().enumerate() {
        sorted.swap(i, j);
    }
    assert_eq!(descending_swaps(&sorted), vec![0, 1, 2, 3]);
    assert_eq!(descending_swaps(&vec![5, 5, 0]), vec![0, 1, 2]);
    assert_eq!(descending_swaps(&vec![0, 0]), vec![0, 1]);
}

#[test]
fn next_active_skips_zero_entries() {
    assert_eq!(next_active(&vec![false, true, true, false], 0, 4), 3);
    assert_eq!(next_active(&vec![false, false, false], 1, 3), 2);
}

#[test]
fn perturb_partner_picks_the_neighbouring_root() {
    let perm = vec![0, 2, 3];
    assert_eq!(perturb_partner(&perm, 0, 2), Partner::Root(0));
    assert_eq!(perturb_partner(&perm, 1, 2), Partner::Skip);
    assert_eq!(perturb_partner(&perm, 2, 2), Partner::Root(2));
    assert_eq!(perturb_partner(&vec![3], 0, 1), Partner::Vanishes);
}

#[test]
fn last_unreduced_passes_over_negligible_columns() {
    assert_eq!(last_unreduced(&vec![false, false, true, true]), 1);
    assert_eq!(last_unreduced(&vec![true, true]), 0);
    assert_eq!(last_unreduced(&vec![false, false, false]), 2);
}

#[test]
fn deflation_order_puts_near_zero_columns_right_after_the_first() {
    let keys = vec![2, 9, 5, 0, 7, 0];
    let (order, p) = deflation_order(&keys, 3, 1);
    assert_eq!(order, vec![0, 5, 3, 2, 4, 1]);
    assert_eq!(p, 3);
    for a in 1..keys.len() - 1 {
        assert!(keys[order[a]] <= keys[order[a + 1]]);
    }
}

#[test]
fn deflation_order_of_a_small_merge() {
    let (order, p) = deflation_order(&vec![0, 5, 0], 1, 1);
    assert_eq!(order, vec![0, 2, 1]);
    assert_eq!(p, 2);
}

#[test]
fn deflation_order_puts_the_higher_index_first_on_ties() {
    let (order, p) = deflation_order(&vec![1, 4, 4, 4, 4], 2, 1);
    assert_eq!(order, vec![0, 4, 3, 2, 1]);
    assert_eq!(p, 1);
}

#[test]
fn deflation_order_with_every_column_negligible() {
    let (order, p) = deflation_order(&vec![3, 0, 0, 0], 2, 1);
    assert_eq!(order, vec![0, 3, 2, 1]);
    assert_eq!(p, 4);
}

#[test]
fn total_deflation_sorts_the_first_column_in() {
    let order = vec![0, 5, 3, 2, 4, 1];
    let (r, m) = shift_first_column(&order, &vec![2, 9, 5, 0, 7, 0]);
    assert_eq!(r, vec![5, 3, 0, 2, 4, 1]);
    assert_eq!(m, 3);
    let (r, m) = shift_first_column(&order, &vec![8, 9, 5, 0, 7, 0]);
    assert_eq!(r, vec![5, 3, 2, 4, 0, 1]);
    assert_eq!(m, 5);
    let (r, m) = shift_first_column(&order, &vec![10, 9, 5, 0, 7, 0]);
    assert_eq!(r, vec![5, 3, 2, 4, 1, 0]);
    assert_eq!(m, 6);
}

#[test]
fn ascending_swaps_sort_by_selection() {
    let t = ascending_swaps(&vec![3, 1, 2]);
    assert_eq!(t, vec![1, 2, 2]);
    assert_eq!(arrange_by_swaps(&t, 3, 3), vec![1, 2, 0]);
    assert_eq!(ascending_swaps(&vec![1, 2, 3]), vec![0, 1, 2]);
    assert_eq!(ascending_swaps(&vec![2, 1, 1]), vec![1, 2, 2]);
    assert_eq!(ascending_swaps(&vec![7]), vec![0]);
    assert_eq!(ascending_swaps(&vec![]), Vec::<usize>::new());
}
