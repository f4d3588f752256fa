use translate::{find_path, is_grid};

fn grid(rows: usize, cols: usize, zeros: &[(usize, usize)]) -> Vec<Vec<u32>> {
    let mut m = vec![vec![1_000_000u32; cols]; rows];
    for &(c, r) in zeros {
        m[r][c] = 0;
    }
    m
}

fn noise(rows: usize, cols: usize, mut seed: u32) -> Vec<Vec<u32>> {
    let mut m = vec![vec![0u32; cols]; rows];
    for row in m.iter_mut() {
        for cell in row.iter_mut() {
            seed = seed.wrapping_mul(1_103_515_245).wrapping_add(12345);
            *cell = (seed >> 16) % 7;
        }
    }
    m
}

fn cost(m: &[Vec<u32>], path: &[(usize, usize)]) -> u64 {
    path.iter().map(|&(c, r)| m[r][c] as u64).sum()
}

fn is_source(p: (usize, usize), flexible: bool) -> bool {
    if flexible {
        p.0 == 0 || p.1 == 0
    } else {
        p == (0, 0)
    }
}

/// The least cost of any path from `p` on to a cell of the last row or
/// column, found by trying every path.
fn cheapest_from(m: &[Vec<u32>], p: (usize, usize)) -> u64 {
    let rows = m.len();
    let cols = m[0].len();
    let own = m[p.1][p.0] as u64;
    let mut best = None;
    if p.0 == cols - 1 || p.1 == rows - 1 {
        best = Some(0);
    }
    for next in [(p.0 + 1, p.1), (p.0, p.1 + 1), (p.0 + 1, p.1 + 1)] {
        if next.0 < cols && next.1 < rows {
            let rest = cheapest_from(m, next);
            best = Some(best.map_or(rest, |b: u64| b.min(rest)));
        }
    }
    own + best.unwrap()
}

fn cheapest(m: &[Vec<u32>], flexible: bool) -> u64 {
    let mut best = u64::MAX;
    for r in 0..m.len() {
        for c in 0..m[0].len() {
            if is_source((c, r), flexible) {
                best = best.min(cheapest_from(m, (c, r)));
            }
        }
    }
    best
}

#[test]
fn diagonal_square_case() {
    let m = grid(3, 3, &[(0, 0), (1, 1), (2, 2)]);
    assert_eq!(find_path(&m, false), vec![(0, 0), (1, 1), (2, 2)]);
}

#[test]
fn flexible_start_skips_leading_noise() {
    let m = grid(3, 6, &[(2, 0), (3, 1), (4, 2)]);
    assert_eq!(find_path(&m, true), vec![(2, 0), (3, 1), (4, 2)]);
}

#[test]
fn fixed_start_begins_at_the_origin() {
    let m = grid(3, 6, &[(2, 0), (3, 1), (4, 2)]);
    let path = find_path(&m, false);
    assert_eq!(path, vec![(0, 0), (1, 0), (2, 0), (3, 1), (4, 2)]);
}

#[test]
fn flexible_start_may_begin_on_the_first_column() {
    let m = grid(5, 3, &[(0, 2), (1, 3), (2, 4)]);
    assert_eq!(find_path(&m, true), vec![(0, 2), (1, 3), (2, 4)]);
}

#[test]
fn single_cell_is_its_own_path() {
    let m = vec![vec![9]];
    assert_eq!(find_path(&m, false), vec![(0, 0)]);
    assert_eq!(find_path(&m, true), vec![(0, 0)]);
}

#[test]
fn equal_costs_prefer_the_diagonal() {
    let m = vec![vec![0; 3]; 3];
    assert_eq!(find_path(&m, false), vec![(0, 0), (1, 1), (2, 2)]);
    assert_eq!(find_path(&m, true), vec![(0, 0), (1, 1), (2, 2)]);
}

#[test]
fn equal_costs_prefer_the_far_corner() {
    let m = vec![vec![0; 4]; 2];
    assert_eq!(find_path(&m, false), vec![(0, 0), (1, 0), (2, 0), (3, 1)]);
}

#[test]
fn left_neighbour_is_preferred_to_the_upper_one() {
    // the cell (2, 2) is reached at a cost of 1 from the left and from above,
    // and at a cost of 5 along the diagonal
    let m = vec![
        vec![0, 0, 9, 9],
        vec![0, 5, 1, 9],
        vec![9, 1, 0, 9],
        vec![9, 9, 9, 0],
    ];
    assert_eq!(find_path(&m, false), vec![(0, 0), (0, 1), (1, 2), (2, 2), (3, 3)]);
}

#[test]
fn path_ends_at_the_first_cell_of_the_last_row() {
    let m = vec![vec![0, 9, 9], vec![0, 9, 9], vec![0, 0, 0]];
    assert_eq!(find_path(&m, false), vec![(0, 0), (0, 1), (1, 2)]);
}

#[test]
fn single_row_ends_where_it_begins() {
    let m = vec![vec![0, 0, 0]];
    assert_eq!(find_path(&m, false), vec![(0, 0)]);
    assert_eq!(find_path(&m, true), vec![(2, 0)]);
    let n = vec![vec![3, 1, 2]];
    assert_eq!(find_path(&n, true), vec![(1, 0)]);
    assert_eq!(find_path(&n, false), vec![(0, 0)]);
}

#[test]
fn single_column_ends_where_it_begins() {
    let m = vec![vec![4], vec![2], vec![3]];
    assert_eq!(find_path(&m, true), vec![(0, 1)]);
    assert_eq!(find_path(&m, false), vec![(0, 0)]);
}

#[test]
fn largest_costs_do_not_overflow() {
    let m = vec![vec![u32::MAX; 3]; 3];
    assert_eq!(find_path(&m, false), vec![(0, 0), (1, 1), (2, 2)]);
    assert_eq!(find_path(&m, true), vec![(0, 2)]);
}

#[test]
fn every_step_of_a_path_advances_by_one() {
    for seed in 0..40u32 {
        let rows = 1 + (seed % 5) as usize;
        let cols = 1 + (seed / 5 % 6) as usize;
        let m = noise(rows, cols, seed);
        for flexible in [false, true] {
            let path = find_path(&m, flexible);
            assert!(!path.is_empty());
            assert!(is_source(path[0], flexible));
            let last = *path.last().unwrap();
            assert!(last.0 == cols - 1 || last.1 == rows - 1);
            for p in &path[..path.len() - 1] {
                assert!(p.0 < cols - 1 && p.1 < rows - 1);
            }
            for w in path.windows(2) {
                let (a, b) = (w[0], w[1]);
                let step = (b.0 - a.0, b.1 - a.1);
                assert!(step == (1, 0) || step == (0, 1) || step == (1, 1));
            }
        }
    }
}

#[test]
fn no_path_is_cheaper() {
    for seed in 0..40u32 {
        let rows = 1 + (seed % 4) as usize;
        let cols = 1 + (seed / 4 % 5) as usize;
        let m = noise(rows, cols, seed + 100);
        for flexible in [false, true] {
            let path = find_path(&m, flexible);
            assert_eq!(cost(&m, &path), cheapest(&m, flexible));
        }
    }
}

#[test]
fn grid_has_rows_of_one_length() {
    assert!(is_grid(&vec![vec![1]]));
    assert!(is_grid(&vec![vec![1, 2, 3], vec![4, 5, 6]]));
    assert!(!is_grid(&vec![]));
    assert!(!is_grid(&vec![vec![], vec![]]));
    assert!(!is_grid(&vec![vec![1, 2], vec![3]]));
    assert!(!is_grid(&vec![vec![1], vec![2, 3]]));
    assert!(!is_grid(&vec![vec![], vec![1]]));
}
