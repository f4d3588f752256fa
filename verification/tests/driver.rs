use translate::align::AlignError;
use translate::driver::{align_window, is_valid_window_path, Aligned, DriverState, Step, Window};
use translate::find_path;

/// The similarities of `xs` left units followed by `ys` right units among
/// themselves, where left unit `y + shift` means the same as right unit `y`.
fn similarities(xs: usize, ys: usize, shift: usize) -> Vec<Vec<i32>> {
    let n = xs + ys;
    let mut m = vec![vec![0i32; n]; n];
    for i in 0..n {
        m[i][i] = 1_000_000;
    }
    for y in 0..ys {
        let x = y + shift;
        if x < xs {
            m[x][xs + y] = 1_000_000;
            m[xs + y][x] = 1_000_000;
        }
    }
    m
}

fn state(iteration: usize, left_start: usize, right_start: usize) -> DriverState {
    DriverState { iteration, left_start, right_start }
}

#[test]
fn driver_starts_at_the_origin() {
    let first = DriverState::new();
    assert_eq!(first, state(0, 0, 0));
    assert!(first.flexible_start());
    assert!(!state(1, 0, 0).flexible_start());
}

#[test]
fn window_holds_at_most_the_window_size() {
    let w = state(0, 0, 0).window(10, 7, 4);
    assert_eq!(
        w,
        Window { left_start: 0, left_len: 4, right_start: 0, right_len: 4, flexible_start: true }
    );
}

#[test]
fn window_ends_with_the_sequence() {
    let w = state(3, 8, 5).window(10, 7, 4);
    assert_eq!(
        w,
        Window { left_start: 8, left_len: 2, right_start: 5, right_len: 2, flexible_start: false }
    );
    let beyond = state(3, 10, 9).window(10, 7, 4);
    assert_eq!(beyond.left_len, 0);
    assert_eq!(beyond.right_len, 0);
    let exact = state(1, 6, 3).window(10, 7, 4);
    assert_eq!(exact.left_len, 4);
    assert_eq!(exact.right_len, 4);
}

#[test]
fn driver_moves_on_to_the_midpoint() {
    let path = vec![(0, 0), (1, 1), (2, 1), (3, 2)];
    assert_eq!(state(2, 10, 20).advance(&path, 100, 100), Step::Next(state(3, 12, 21)));
    let odd = vec![(1, 0), (2, 1), (3, 2)];
    assert_eq!(state(0, 0, 0).advance(&odd, 100, 100), Step::Next(state(1, 2, 1)));
    let single = vec![(3, 0)];
    assert_eq!(state(0, 0, 0).advance(&single, 100, 100), Step::Next(state(1, 3, 0)));
}

#[test]
fn driver_is_done_at_the_end_of_the_left_sequence() {
    let path = vec![(0, 0), (1, 1), (2, 1), (3, 2)];
    assert_eq!(state(2, 10, 20).advance(&path, 14, 100), Step::Done);
}

#[test]
fn driver_is_done_at_the_end_of_the_right_sequence() {
    let path = vec![(0, 0), (1, 1), (2, 1), (3, 2)];
    assert_eq!(state(2, 10, 20).advance(&path, 100, 23), Step::Done);
    assert_eq!(state(2, 10, 20).advance(&path, 100, 24), Step::Next(state(3, 12, 21)));
    assert_eq!(state(2, 10, 20).advance(&path, 100, 22), Step::Next(state(3, 12, 21)));
}

#[test]
fn driver_is_done_with_the_largest_offsets() {
    let path = vec![(0, 0)];
    assert_eq!(
        state(5, usize::MAX - 1, 0).advance(&path, usize::MAX, 9),
        Step::Done
    );
}

#[test]
fn window_path_is_recognised() {
    let w = Window { left_start: 0, left_len: 4, right_start: 0, right_len: 3, flexible_start: false };
    assert!(is_valid_window_path(&vec![(0, 0), (1, 1), (2, 2)], &w));
    assert!(is_valid_window_path(&vec![(0, 0), (1, 0), (2, 0), (3, 0)], &w));
    assert!(!is_valid_window_path(&vec![], &w));
    assert!(!is_valid_window_path(&vec![(0, 0), (1, 1)], &w));
    assert!(!is_valid_window_path(&vec![(1, 0), (2, 1), (3, 2)], &w));
    assert!(!is_valid_window_path(&vec![(0, 0), (2, 1), (3, 2)], &w));
    assert!(!is_valid_window_path(&vec![(0, 0), (1, 1), (1, 1), (2, 2)], &w));
    assert!(!is_valid_window_path(&vec![(0, 0), (1, 1), (0, 2)], &w));
    assert!(!is_valid_window_path(&vec![(0, 0), (1, 1), (2, 2), (3, 3)], &w));
    let flexible = Window { flexible_start: true, ..w };
    assert!(is_valid_window_path(&vec![(1, 0), (2, 1), (3, 2)], &flexible));
    assert!(is_valid_window_path(&vec![(0, 2)], &flexible));
    assert!(!is_valid_window_path(&vec![(1, 1), (2, 2)], &flexible));
    let empty = Window { left_len: 0, ..w };
    assert!(!is_valid_window_path(&vec![(0, 0)], &empty));
}

/// Aligns two sequences whose units all cost the same, window by window,
/// and returns the number of windows.
fn windows_needed(left_len: usize, right_len: usize, window_size: usize) -> usize {
    let mut state = DriverState::new();
    let mut windows = 0;
    loop {
        let w = state.window(left_len, right_len, window_size);
        let costs = vec![vec![0u32; w.left_len]; w.right_len];
        let path = find_path(&costs, w.flexible_start);
        assert!(is_valid_window_path(&path, &w));
        windows += 1;
        match state.advance(&path, left_len, right_len) {
            Step::Done => return windows,
            Step::Next(next) => {
                assert_eq!(next.iteration, state.iteration + 1);
                assert!(next.left_start + next.right_start > state.left_start + state.right_start);
                assert!(next.left_start < left_len && next.right_start < right_len);
                state = next;
            }
        }
    }
}

#[test]
fn driver_comes_to_an_end() {
    for window_size in 2..7usize {
        for left_len in 1..20usize {
            for right_len in 1..20usize {
                let windows = windows_needed(left_len, right_len, window_size);
                let half = window_size / 2;
                let shorter = left_len.min(right_len);
                assert!(windows <= (shorter + half - 1) / half);
            }
        }
    }
}

#[test]
fn driver_needs_one_window_where_the_window_holds_a_sequence() {
    assert_eq!(windows_needed(3, 9, 5), 1);
    assert_eq!(windows_needed(10, 10, 4), 4);
}

#[test]
fn driver_decides_nothing_about_an_empty_path() {
    assert_eq!(state(0, 0, 0).checked_advance(&vec![], 10, 10), None);
}

#[test]
fn driver_decides_nothing_beyond_the_largest_numbers() {
    let path = vec![(0, 0), (1, 1), (2, 2)];
    assert_eq!(state(usize::MAX, 0, 0).checked_advance(&path, 10, 10), None);
    assert_eq!(state(0, usize::MAX, 0).checked_advance(&path, 10, 10), None);
    assert_eq!(state(0, 0, usize::MAX).checked_advance(&path, 10, 10), None);
    assert_eq!(
        state(0, usize::MAX - 1, 0).checked_advance(&path, 10, 10),
        Some(Step::Next(state(1, usize::MAX, 1)))
    );
    assert_eq!(state(usize::MAX, 0, 0).checked_advance(&path, 3, 10), Some(Step::Done));
}

#[test]
fn driver_decides_as_it_does_unchecked() {
    let path = vec![(0, 0), (1, 1), (2, 1), (3, 2)];
    assert_eq!(
        state(2, 10, 20).checked_advance(&path, 100, 100),
        Some(Step::Next(state(3, 12, 21)))
    );
    assert_eq!(state(2, 10, 20).checked_advance(&path, 14, 100), Some(Step::Done));
}

#[test]
fn window_is_aligned_and_the_driver_moves_on() {
    let joined = similarities(3, 3, 0);
    let aligned = align_window(&state(0, 0, 0), &joined, 6, 6, 3);
    assert_eq!(
        aligned,
        Ok(Aligned {
            path: vec![(0, 0), (1, 1), (2, 2)],
            costs: vec![
                vec![0, 1_000_000, 1_000_000],
                vec![1_000_000, 0, 1_000_000],
                vec![1_000_000, 1_000_000, 0],
            ],
            step: Step::Next(state(1, 1, 1)),
        })
    );
}

#[test]
fn window_at_the_end_of_a_sequence_ends_the_alignment() {
    let joined = similarities(6, 3, 2);
    let aligned = align_window(&state(0, 0, 0), &joined, 6, 3, 10).unwrap();
    assert_eq!(aligned.path, vec![(2, 0), (3, 1), (4, 2)]);
    assert_eq!(aligned.step, Step::Done);
    let later = align_window(&state(4, 7, 5), &similarities(3, 2, 0), 10, 7, 3).unwrap();
    assert_eq!(later.path, vec![(0, 0), (1, 1)]);
    assert_eq!(later.step, Step::Done);
}

#[test]
fn window_needs_similarities_of_its_own_size() {
    let joined = similarities(3, 3, 0);
    assert_eq!(
        align_window(&state(0, 0, 0), &joined, 6, 6, 4),
        Err(AlignError::DimensionMismatch)
    );
    let mut wrong = similarities(3, 3, 0);
    wrong[0][3] = 2_000_000;
    assert_eq!(
        align_window(&state(0, 0, 0), &wrong, 6, 6, 3),
        Err(AlignError::ScoreOutOfRange)
    );
}

fn noise(rows: usize, cols: usize, mut seed: u32) -> Vec<Vec<u32>> {
    let mut m = vec![vec![0u32; cols]; rows];
    for row in m.iter_mut() {
        for cell in row.iter_mut() {
            seed = seed.wrapping_mul(1_103_515_245).wrapping_add(12345);
            *cell = (seed >> 16) % 5;
        }
    }
    m
}

#[test]
fn run_of_the_driver_joins_to_a_monotone_path() {
    for seed in 0..60u32 {
        let left_len = 1 + (seed % 13) as usize;
        let right_len = 1 + (seed / 3 % 11) as usize;
        let window_size = 2 + (seed % 4) as usize;
        let mut state = DriverState::new();
        let mut checkpoints = Vec::new();
        let end;
        loop {
            let w = state.window(left_len, right_len, window_size);
            let costs = noise(w.right_len, w.left_len, seed * 31 + state.iteration as u32);
            let path = find_path(&costs, w.flexible_start);
            assert!(is_valid_window_path(&path, &w));
            let last = *path.last().unwrap();
            checkpoints.push(translate::stitch::Checkpoint { state, path: path.clone() });
            match state.advance(&path, left_len, right_len) {
                Step::Done => {
                    end = (state.left_start + last.0, state.right_start + last.1);
                    break;
                }
                Step::Next(next) => state = next,
            }
            assert!(checkpoints.len() <= left_len + right_len);
        }
        checkpoints.reverse();
        let joined = translate::joined_path(checkpoints).unwrap();
        assert_eq!(*joined.last().unwrap(), end);
        assert!(end.0 == left_len - 1 || end.1 == right_len - 1);
        assert!(joined[0].0 == 0 || joined[0].1 == 0);
        for w in joined.windows(2) {
            let step = (w[1].0 - w[0].0, w[1].1 - w[0].1);
            assert!(step == (1, 0) || step == (0, 1) || step == (1, 1));
        }
    }
}

#[test]
fn driver_follows_a_path_along_one_row() {
    // the first right unit costs nothing against any left unit, the second one always
    let (left_len, right_len, window_size) = (20, 2, 6);
    let mut state = DriverState::new();
    let mut visited = vec![state];
    loop {
        let w = state.window(left_len, right_len, window_size);
        let costs = vec![vec![0u32; w.left_len], vec![1u32; w.left_len]];
        let path = find_path(&costs, w.flexible_start);
        assert!(path.iter().all(|p| p.1 == 0));
        match state.advance(&path, left_len, right_len) {
            Step::Done => break,
            Step::Next(next) => {
                state = next;
                visited.push(state);
            }
        }
    }
    assert_eq!(
        visited,
        vec![state_at(0, 0), state_at(1, 5), state_at(2, 8), state_at(3, 11), state_at(4, 14)]
    );
}

fn state_at(iteration: usize, left_start: usize) -> DriverState {
    DriverState { iteration, left_start, right_start: 0 }
}
