use translate::group::LRPair;
use translate::get_sequence;

fn pairs(points: &[(usize, usize)]) -> Vec<LRPair> {
    points.iter().map(|&(l, r)| LRPair { l, r }).collect()
}

#[test]
fn diagonal_steps_are_blocks_of_their_own() {
    let path = vec![(0, 0), (1, 1), (2, 2)];
    assert_eq!(
        get_sequence(&path),
        vec![pairs(&[(0, 0)]), pairs(&[(1, 1)]), pairs(&[(2, 2)])]
    );
}

#[test]
fn runs_along_a_row_or_column_form_one_block() {
    let path = vec![(0, 0), (1, 1), (2, 1), (3, 1), (4, 2), (4, 3)];
    assert_eq!(
        get_sequence(&path),
        vec![
            pairs(&[(0, 0)]),
            pairs(&[(1, 1), (2, 1), (3, 1)]),
            pairs(&[(4, 2), (4, 3)]),
        ]
    );
}

#[test]
fn turn_from_row_to_column_begins_a_block() {
    let path = vec![(0, 0), (1, 0), (1, 1), (1, 2)];
    assert_eq!(
        get_sequence(&path),
        vec![pairs(&[(0, 0), (1, 0)]), pairs(&[(1, 1), (1, 2)])]
    );
}

#[test]
fn empty_path_has_no_blocks() {
    assert_eq!(get_sequence(&[]), Vec::<Vec<LRPair>>::new());
}

#[test]
fn single_point_is_one_block() {
    assert_eq!(get_sequence(&[(3, 4)]), vec![pairs(&[(3, 4)])]);
}

#[test]
fn repeated_point_stays_in_its_block() {
    let path = vec![(1, 1), (1, 1), (1, 2)];
    assert_eq!(get_sequence(&path), vec![pairs(&[(1, 1), (1, 1), (1, 2)])]);
}

#[test]
fn blocks_partition_the_path() {
    let path = vec![
        (0, 0), (1, 0), (2, 1), (2, 2), (2, 3), (3, 4), (4, 5), (5, 5), (6, 5), (6, 6), (0, 0), (9, 9),
    ];
    let blocks = get_sequence(&path);
    let flat: Vec<(usize, usize)> = blocks.iter().flatten().map(|p| (p.l, p.r)).collect();
    assert_eq!(flat, path);
    for block in &blocks {
        assert!(!block.is_empty());
        let one_left = block.iter().all(|p| p.l == block[0].l);
        let one_right = block.iter().all(|p| p.r == block[0].r);
        assert!(one_left || one_right);
    }
    for pair in blocks.windows(2) {
        let mut longer = pair[0].clone();
        longer.push(pair[1][0]);
        let one_left = longer.iter().all(|p| p.l == longer[0].l);
        let one_right = longer.iter().all(|p| p.r == longer[0].r);
        assert!(!one_left && !one_right);
    }
}
