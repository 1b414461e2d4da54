use concurrent_labs::matrix::{
    build_matrix, compute_by_groups, compute_consecutive_column, compute_consecutive_kth,
    compute_consecutive_row, compute_element, owner_of, Strategy,
};

fn product(a: &Vec<Vec<i32>>, b: &Vec<Vec<i32>>) -> Vec<Vec<i32>> {
    let n = a.len();
    let m = b[0].len();
    let mut r = vec![vec![0; m]; n];
    for i in 0..n {
        for j in 0..m {
            for t in 0..b.len() {
                r[i][j] += a[i][t] * b[t][j];
            }
        }
    }
    r
}

fn sample(n: usize, m: usize, seed: i32) -> Vec<Vec<i32>> {
    (0..n)
        .map(|i| (0..m).map(|j| ((i * 3 + j * 5) as i32 + seed) % 7 - 3).collect())
        .collect()
}

#[test]
fn element_is_row_times_column() {
    let a = vec![vec![1, 2], vec![3, 4]];
    let b = vec![vec![5, 6], vec![7, 8]];
    assert_eq!(compute_element(0, 0, &a, &b), 19);
    assert_eq!(compute_element(1, 1, &a, &b), 50);
}

#[test]
fn build_matrix_is_zero() {
    let r = build_matrix(2, 3);
    assert_eq!(r, vec![vec![0, 0, 0], vec![0, 0, 0]]);
    assert!(build_matrix(0, 4).is_empty());
}

#[test]
fn row_groups_together_compute_the_product() {
    let a = sample(5, 4, 1);
    let b = sample(4, 3, 2);
    for total in [1, 2, 4, 7, 16] {
        let mut r = build_matrix(5, 3);
        for group in 0..total {
            compute_consecutive_row(group, total, &a, &b, &mut r);
        }
        assert_eq!(r, product(&a, &b));
    }
}

#[test]
fn column_groups_together_compute_the_product() {
    let a = sample(5, 4, 3);
    let b = sample(4, 3, 1);
    for total in [1, 2, 4, 7, 16] {
        let mut r = build_matrix(5, 3);
        for group in 0..total {
            compute_consecutive_column(group, total, &a, &b, &mut r);
        }
        assert_eq!(r, product(&a, &b));
    }
}

#[test]
fn kth_groups_together_compute_the_product() {
    let a = sample(5, 4, 2);
    let b = sample(4, 3, 5);
    for total in [1, 2, 4, 7, 16] {
        let mut r = build_matrix(5, 3);
        for group in 0..total {
            compute_consecutive_kth(group, total, &a, &b, &mut r);
        }
        assert_eq!(r, product(&a, &b));
    }
}

#[test]
fn row_group_takes_a_consecutive_share() {
    let a = vec![vec![1]; 3];
    let b = vec![vec![1, 1, 1]];
    let mut r = vec![vec![-1; 3]; 3];
    // 9 entries among 2 groups: group 0 takes entries 0..4
    compute_consecutive_row(0, 2, &a, &b, &mut r);
    assert_eq!(r, vec![vec![1, 1, 1], vec![1, -1, -1], vec![-1, -1, -1]]);
}

#[test]
fn column_group_takes_a_consecutive_share_by_columns() {
    let a = vec![vec![1]; 3];
    let b = vec![vec![1, 1, 1]];
    let mut r = vec![vec![-1; 3]; 3];
    // the last of 2 groups takes entries 4..9, numbered column by column
    compute_consecutive_column(1, 2, &a, &b, &mut r);
    assert_eq!(r, vec![vec![-1, -1, 1], vec![-1, 1, 1], vec![-1, 1, 1]]);
}

#[test]
fn kth_group_takes_every_total_th_entry() {
    let a = vec![vec![1]; 2];
    let b = vec![vec![2, 2, 2]];
    let mut r = vec![vec![0; 3]; 2];
    compute_consecutive_kth(1, 3, &a, &b, &mut r);
    assert_eq!(r, vec![vec![0, 2, 0], vec![0, 2, 0]]);
}

#[test]
fn groups_in_turn_give_the_product() {
    let a = sample(6, 5, 4);
    let b = sample(5, 7, 6);
    let expected = product(&a, &b);
    for total in [1, 3, 16, 50] {
        assert_eq!(compute_by_groups(total, &a, &b, Strategy::Rows), expected);
        assert_eq!(compute_by_groups(total, &a, &b, Strategy::Columns), expected);
        assert_eq!(compute_by_groups(total, &a, &b, Strategy::Kth), expected);
    }
}

#[test]
fn kth_group_past_total_starts_at_its_number() {
    let a = vec![vec![1]; 2];
    let b = vec![vec![3, 3, 3]];
    let mut r = vec![vec![0; 3]; 2];
    // entries 4 and 7 (past the end) for group 4 of 3
    compute_consecutive_kth(4, 3, &a, &b, &mut r);
    assert_eq!(r, vec![vec![0, 0, 0], vec![0, 3, 0]]);
    let mut r = vec![vec![0; 3]; 2];
    compute_consecutive_kth(9, 0, &a, &b, &mut r);
    assert_eq!(r, vec![vec![0; 3]; 2]);
}

#[test]
fn row_group_past_total_has_an_empty_share() {
    let a = vec![vec![1]];
    let b = vec![vec![1, 1]];
    let mut r = vec![vec![-1; 2]];
    // 2 entries among 3 groups: shares of 0, the last group takes both
    compute_consecutive_row(5, 3, &a, &b, &mut r);
    assert_eq!(r, vec![vec![-1, -1]]);
    compute_consecutive_column(7, 3, &a, &b, &mut r);
    assert_eq!(r, vec![vec![-1, -1]]);
    compute_consecutive_row(2, 3, &a, &b, &mut r);
    assert_eq!(r, vec![vec![1, 1]]);
}

#[test]
fn owner_names_the_group_that_writes_an_entry() {
    // 3 x 3 entries among 2 groups
    assert_eq!(owner_of(Strategy::Rows, 2, 3, 3, 1, 0), 0);
    assert_eq!(owner_of(Strategy::Rows, 2, 3, 3, 1, 1), 1);
    assert_eq!(owner_of(Strategy::Columns, 2, 3, 3, 0, 1), 0);
    assert_eq!(owner_of(Strategy::Columns, 2, 3, 3, 1, 1), 1);
    assert_eq!(owner_of(Strategy::Kth, 2, 3, 3, 1, 0), 1);
    assert_eq!(owner_of(Strategy::Kth, 4, 3, 3, 2, 2), 0);
    let a = sample(4, 3, 1);
    let b = sample(3, 5, 2);
    for strategy in [Strategy::Rows, Strategy::Columns, Strategy::Kth] {
        for l in 0..4 {
            for c in 0..5 {
                let g = owner_of(strategy, 3, 4, 5, l, c);
                let mut r = vec![vec![-99; 5]; 4];
                match strategy {
                    Strategy::Rows => compute_consecutive_row(g, 3, &a, &b, &mut r),
                    Strategy::Columns => compute_consecutive_column(g, 3, &a, &b, &mut r),
                    Strategy::Kth => compute_consecutive_kth(g, 3, &a, &b, &mut r),
                }
                assert_eq!(r[l][c], compute_element(l, c, &a, &b));
            }
        }
    }
}

#[test]
fn groups_in_any_order_give_the_product() {
    let a = sample(5, 4, 1);
    let b = sample(4, 6, 2);
    let expected = product(&a, &b);
    let total = 4;
    let mut rows_result = build_matrix(5, 6);
    for g in [3, 0, 2, 1] {
        compute_consecutive_row(g, total, &a, &b, &mut rows_result);
    }
    assert_eq!(rows_result, expected);
    let mut kth_result = build_matrix(5, 6);
    for g in [2, 2, 1, 3, 0] {
        compute_consecutive_kth(g, total, &a, &b, &mut kth_result);
    }
    assert_eq!(kth_result, expected);
    let mut column_result = build_matrix(5, 6);
    for g in (0..3).rev() {
        compute_consecutive_column(g, 3, &a, &b, &mut column_result);
    }
    assert_eq!(column_result, rows_result);
}
