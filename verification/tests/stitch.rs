use translate::driver::DriverState;
use translate::stitch::Checkpoint;
use translate::{joined_path, order_by_iteration, remove_backtracks, translate};

fn checkpoint(iteration: usize, left: usize, right: usize, path: &[(usize, usize)]) -> Checkpoint {
    Checkpoint {
        state: DriverState { iteration, left_start: left, right_start: right },
        path: path.to_vec(),
    }
}

#[test]
fn backtracks_are_removed() {
    let input = vec![(0, 0), (1, 0), (2, 0), (3, 0), (2, 0), (2, 1), (2, 2), (2, 0), (2, 3)];
    let output = remove_backtracks(&input);
    assert_eq!(output, vec![(0, 0), (1, 0), (2, 0), (2, 3)]);
}

#[test]
fn path_without_backtracks_stays() {
    let input = vec![(0, 0), (1, 1), (2, 1), (2, 2)];
    assert_eq!(remove_backtracks(&input), input);
    assert_eq!(remove_backtracks(&[]), vec![]);
}

#[test]
fn return_to_the_first_point_leaves_only_what_follows() {
    let input = vec![(0, 0), (1, 1), (0, 0)];
    assert_eq!(remove_backtracks(&input), vec![(0, 0)]);
    let again = vec![(4, 4), (4, 4), (4, 4)];
    assert_eq!(remove_backtracks(&again), vec![(4, 4)]);
}

#[test]
fn removing_backtracks_twice_changes_nothing() {
    let input = vec![(0, 0), (1, 0), (2, 0), (3, 0), (2, 0), (2, 1), (2, 2), (2, 0), (2, 3)];
    let once = remove_backtracks(&input);
    assert_eq!(remove_backtracks(&once), once);
}

#[test]
fn path_is_moved_by_the_offsets() {
    let path = vec![(0, 0), (1, 0), (2, 1)];
    assert_eq!(translate(&path, 10, 20), Some(vec![(10, 20), (11, 20), (12, 21)]));
    assert_eq!(translate(&vec![], usize::MAX, usize::MAX), Some(vec![]));
}

#[test]
fn path_is_not_moved_beyond_the_largest_index() {
    let path = vec![(0, 0), (1, 0)];
    assert_eq!(translate(&path, usize::MAX, 0), None);
    assert_eq!(translate(&path, 0, usize::MAX), Some(vec![(0, usize::MAX), (1, usize::MAX)]));
    assert_eq!(translate(&vec![(0, 1)], 0, usize::MAX), None);
    assert_eq!(translate(&path, usize::MAX - 1, 0), Some(vec![(usize::MAX - 1, 0), (usize::MAX, 0)]));
}

#[test]
fn checkpoints_are_ordered_by_iteration() {
    let given = vec![
        checkpoint(2, 0, 0, &[(2, 2)]),
        checkpoint(0, 0, 0, &[(0, 0)]),
        checkpoint(1, 0, 0, &[(1, 1)]),
    ];
    let ordered = order_by_iteration(given);
    let iterations: Vec<usize> = ordered.iter().map(|c| c.state.iteration).collect();
    assert_eq!(iterations, vec![0, 1, 2]);
    assert_eq!(ordered[1].path, vec![(1, 1)]);
}

#[test]
fn checkpoints_of_one_iteration_keep_their_order() {
    let given = vec![
        checkpoint(1, 5, 5, &[(0, 0)]),
        checkpoint(0, 1, 1, &[(0, 0)]),
        checkpoint(1, 6, 6, &[(0, 0)]),
        checkpoint(0, 2, 2, &[(0, 0)]),
        checkpoint(1, 7, 7, &[(0, 0)]),
    ];
    let ordered = order_by_iteration(given);
    let offsets: Vec<usize> = ordered.iter().map(|c| c.state.left_start).collect();
    assert_eq!(offsets, vec![1, 2, 5, 6, 7]);
}

#[test]
fn paths_of_two_windows_are_joined() {
    let first = checkpoint(0, 0, 0, &[(0, 0), (1, 1), (2, 2), (3, 3)]);
    let second = checkpoint(1, 2, 2, &[(0, 0), (1, 0), (2, 1)]);
    let expected = vec![(0, 0), (1, 1), (2, 2), (3, 2), (4, 3)];
    assert_eq!(joined_path(vec![first.clone(), second.clone()]), Some(expected.clone()));
    assert_eq!(joined_path(vec![second, first]), Some(expected));
}

#[test]
fn paths_of_three_windows_are_joined() {
    let windows = vec![
        checkpoint(2, 3, 2, &[(0, 0), (1, 1), (2, 2)]),
        checkpoint(0, 0, 0, &[(1, 0), (2, 1), (3, 2)]),
        checkpoint(1, 2, 1, &[(0, 0), (1, 1), (2, 1)]),
    ];
    // the windows confirm (1,0); (2,1); then (3,2), (4,3), (5,4)
    assert_eq!(
        joined_path(windows),
        Some(vec![(1, 0), (2, 1), (3, 2), (4, 3), (5, 4)])
    );
}

#[test]
fn no_checkpoints_give_an_empty_path() {
    assert_eq!(joined_path(vec![]), Some(vec![]));
}

#[test]
fn joined_path_needs_every_window_to_fit() {
    let first = checkpoint(0, 0, 0, &[(0, 0), (1, 1)]);
    let second = checkpoint(1, usize::MAX, 1, &[(0, 0), (1, 1)]);
    assert_eq!(joined_path(vec![first, second]), None);
}
