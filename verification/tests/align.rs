use translate::align::AlignError;
use translate::matrix::ONE;
use translate::{
    alignment_path, average_matrices, normalize_columns, normalize_rows, reconstruct,
    row_col_blended_normalization, similarity_costs,
};

/// The similarities of `xs` left units followed by `ys` right units among
/// themselves, where left unit `y + shift` means the same as right unit `y`.
fn joined_similarities(xs: usize, ys: usize, shift: usize) -> Vec<Vec<i32>> {
    let n = xs + ys;
    let mut m = vec![vec![0i32; n]; n];
    for i in 0..n {
        m[i][i] = ONE as i32;
    }
    for y in 0..ys {
        let x = y + shift;
        if x < xs {
            m[x][xs + y] = ONE as i32;
            m[xs + y][x] = ONE as i32;
        }
    }
    m
}

#[test]
fn rows_are_scaled_to_their_own_range() {
    let m = vec![vec![10, 20, 40], vec![0, 500_000, 1_000_000]];
    assert_eq!(
        normalize_rows(&m),
        vec![vec![0, 333_333, 1_000_000], vec![0, 500_000, 1_000_000]]
    );
}

#[test]
fn constant_row_becomes_zeros() {
    let m = vec![vec![7, 7, 7], vec![3]];
    assert_eq!(normalize_rows(&m), vec![vec![0, 0, 0], vec![0]]);
}

#[test]
fn empty_rows_stay_empty() {
    let m: Vec<Vec<u32>> = vec![vec![], vec![1, 2], vec![]];
    assert_eq!(normalize_rows(&m), vec![vec![], vec![0, 1_000_000], vec![]]);
    let none: Vec<Vec<u32>> = vec![];
    assert_eq!(normalize_rows(&none), none);
}

#[test]
fn rows_of_the_largest_values_do_not_overflow() {
    let m = vec![vec![0, u32::MAX, u32::MAX / 2]];
    assert_eq!(normalize_rows(&m), vec![vec![0, 1_000_000, 499_999]]);
}

#[test]
fn columns_are_scaled_to_their_own_range() {
    let m = vec![vec![10, 5], vec![20, 5], vec![40, 5]];
    assert_eq!(
        normalize_columns(&m),
        vec![vec![0, 0], vec![333_333, 0], vec![1_000_000, 0]]
    );
}

#[test]
fn columns_of_nothing_stay_as_they_are() {
    let none: Vec<Vec<u32>> = vec![];
    assert_eq!(normalize_columns(&none), none);
    let ragged: Vec<Vec<u32>> = vec![vec![], vec![1, 2]];
    assert_eq!(normalize_columns(&ragged), ragged);
}

#[test]
fn columns_beyond_the_first_row_are_left_out() {
    let m = vec![vec![1, 2], vec![3, 4, 5]];
    assert_eq!(
        normalize_columns(&m),
        vec![vec![0, 0], vec![1_000_000, 1_000_000]]
    );
}

#[test]
fn mean_is_taken_entry_by_entry_and_rounded_down() {
    let a = vec![vec![1, 2], vec![3, 4]];
    let b = vec![vec![3, 4], vec![6, 9]];
    assert_eq!(average_matrices(&a, &b), vec![vec![2, 3], vec![4, 6]]);
}

#[test]
fn mean_takes_the_shape_of_the_first_matrix() {
    let a = vec![vec![10], vec![]];
    let b = vec![vec![20, 99], vec![5], vec![1]];
    assert_eq!(average_matrices(&a, &b), vec![vec![15], vec![]]);
}

#[test]
fn mean_of_the_largest_values_does_not_overflow() {
    let a = vec![vec![u32::MAX]];
    let b = vec![vec![u32::MAX]];
    assert_eq!(average_matrices(&a, &b), vec![vec![u32::MAX]]);
}

#[test]
fn blend_is_the_mean_of_both_scalings() {
    let m = vec![vec![10, 20], vec![30, 50]];
    assert_eq!(
        row_col_blended_normalization(&m),
        vec![vec![0, 500_000], vec![500_000, 1_000_000]]
    );
}

#[test]
fn blend_stays_between_zero_and_one() {
    let mut seed: u32 = 12345;
    let mut m = vec![vec![0u32; 7]; 5];
    for row in m.iter_mut() {
        for cell in row.iter_mut() {
            seed = seed.wrapping_mul(1_103_515_245).wrapping_add(12345);
            *cell = seed >> 8;
        }
    }
    let blended = row_col_blended_normalization(&m);
    assert_eq!(blended.len(), 5);
    for row in &blended {
        assert_eq!(row.len(), 7);
        for &cell in row {
            assert!(cell <= ONE);
        }
    }
}

#[test]
fn blend_of_a_constant_matrix_is_zero() {
    let m = vec![vec![42; 4]; 3];
    assert_eq!(row_col_blended_normalization(&m), vec![vec![0; 4]; 3]);
}

#[test]
fn blend_with_a_constant_row_keeps_half_the_column_scaling() {
    let m = vec![vec![5, 5], vec![5, 9]];
    // rows: [0, 0] and [0, ONE]; columns: [0, 0] and [0, ONE]
    assert_eq!(
        row_col_blended_normalization(&m),
        vec![vec![0, 0], vec![0, 1_000_000]]
    );
    let n = vec![vec![5, 5], vec![1, 9]];
    // rows: [0, 0] and [0, ONE]; columns: [ONE, 0] and [0, ONE]
    assert_eq!(
        row_col_blended_normalization(&n),
        vec![vec![500_000, 0], vec![0, 1_000_000]]
    );
}

#[test]
fn similarity_becomes_cost() {
    let s = vec![vec![1_000_000, 0, -1_000_000], vec![500_000, 1, -1]];
    assert_eq!(
        similarity_costs(&s),
        vec![vec![0, 500_000, 1_000_000], vec![250_000, 499_999, 500_000]]
    );
}

#[test]
fn block_between_the_two_sides_is_taken() {
    let joined = vec![
        vec![1, 2, 3, 4, 5],
        vec![6, 7, 8, 9, 10],
        vec![11, 12, 13, 14, 15],
        vec![16, 17, 18, 19, 20],
        vec![21, 22, 23, 24, 25],
    ];
    assert_eq!(
        reconstruct(&joined, 2),
        vec![vec![3, 8], vec![4, 9], vec![5, 10]]
    );
    assert_eq!(reconstruct(&joined, 5), Vec::<Vec<i32>>::new());
    assert_eq!(reconstruct(&joined, 0), vec![Vec::<i32>::new(); 5]);
}

#[test]
fn square_case_aligns_along_the_diagonal() {
    let joined = joined_similarities(3, 3, 0);
    let (path, costs) = alignment_path(&joined, 3, 3, true).unwrap();
    assert_eq!(path, vec![(0, 0), (1, 1), (2, 2)]);
    assert_eq!(
        costs,
        vec![
            vec![0, 1_000_000, 1_000_000],
            vec![1_000_000, 0, 1_000_000],
            vec![1_000_000, 1_000_000, 0],
        ]
    );
    let (fixed, _) = alignment_path(&joined, 3, 3, false).unwrap();
    assert_eq!(fixed, vec![(0, 0), (1, 1), (2, 2)]);
}

#[test]
fn leading_noise_on_the_left_is_skipped() {
    let joined = joined_similarities(6, 3, 2);
    let (path, costs) = alignment_path(&joined, 6, 3, true).unwrap();
    assert_eq!(path, vec![(2, 0), (3, 1), (4, 2)]);
    assert_eq!(
        costs,
        vec![
            vec![500_000, 500_000, 0, 1_000_000, 1_000_000, 500_000],
            vec![500_000, 500_000, 1_000_000, 0, 1_000_000, 500_000],
            vec![500_000, 500_000, 1_000_000, 1_000_000, 0, 500_000],
        ]
    );
}

#[test]
fn matrix_of_the_wrong_size_is_rejected() {
    let joined = joined_similarities(2, 2, 0);
    assert_eq!(
        alignment_path(&joined, 3, 2, true),
        Err(AlignError::DimensionMismatch)
    );
    let mut ragged = joined_similarities(2, 1, 0);
    ragged[1].pop();
    assert_eq!(
        alignment_path(&ragged, 2, 1, true),
        Err(AlignError::DimensionMismatch)
    );
    assert_eq!(
        alignment_path(&joined, usize::MAX, 2, true),
        Err(AlignError::DimensionMismatch)
    );
}

#[test]
fn similarity_out_of_range_is_rejected() {
    let mut joined = joined_similarities(2, 2, 0);
    joined[1][2] = 1_000_001;
    assert_eq!(
        alignment_path(&joined, 2, 2, false),
        Err(AlignError::ScoreOutOfRange)
    );
    joined[1][2] = -1_000_001;
    assert_eq!(
        alignment_path(&joined, 2, 2, false),
        Err(AlignError::ScoreOutOfRange)
    );
}

#[test]
fn similarity_outside_the_block_is_not_examined() {
    let mut joined = joined_similarities(2, 2, 0);
    joined[0][1] = 5_000_000;
    joined[3][3] = -5_000_000;
    let (path, _) = alignment_path(&joined, 2, 2, false).unwrap();
    assert_eq!(path, vec![(0, 0), (1, 1)]);
}
