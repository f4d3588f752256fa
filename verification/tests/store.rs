use translate::driver::DriverState;
use translate::stitch::Checkpoint;
use translate::store::{checkpoint_of, load_checkpoint, path_text, read_path, result_text, StoreError};

#[test]
fn path_is_written_as_a_list_of_pairs() {
    assert_eq!(path_text(&vec![(0, 0), (1, 2), (30, 4)]), "[[0,0],[1,2],[30,4]]");
    assert_eq!(path_text(&vec![(7, 8)]), "[[7,8]]");
    assert_eq!(path_text(&vec![]), "[]");
    assert_eq!(
        path_text(&vec![(usize::MAX, 0)]),
        format!("[[{},0]]", usize::MAX)
    );
}

#[test]
fn path_is_read_from_a_list_of_pairs() {
    assert_eq!(read_path("[[0,0],[1,2],[30,4]]"), Some(vec![(0, 0), (1, 2), (30, 4)]));
    assert_eq!(read_path(" [ [ 7 , 8 ] ]\n"), Some(vec![(7, 8)]));
    assert_eq!(read_path("[]"), Some(vec![]));
}

#[test]
fn other_text_is_no_path() {
    for text in ["", "nonsense", "[[0,0],[1]]", "[[0,0,0]]", "[[-1,0]]", "[[0.5,1]]", "{\"a\":1}", "[[0,0]"] {
        assert_eq!(read_path(text), None, "{}", text);
    }
}

#[test]
fn written_path_is_read_back() {
    let path = vec![(0, 0), (1, 0), (2, 1), (usize::MAX, 7)];
    let text = path_text(&path);
    assert_eq!(read_path(&text), Some(path));
}

#[test]
fn checkpoint_is_loaded_with_its_state() {
    let state = DriverState { iteration: 2, left_start: 30, right_start: 28 };
    assert_eq!(
        load_checkpoint(state, "[[0,0],[1,1]]"),
        Ok(Checkpoint { state, path: vec![(0, 0), (1, 1)] })
    );
    assert_eq!(load_checkpoint(state, "[[0,0],[1,1]"), Err(StoreError::Malformed));
}

#[test]
fn checkpoint_is_made_of_what_was_read() {
    let state = DriverState { iteration: 1, left_start: 2, right_start: 3 };
    assert_eq!(
        checkpoint_of(state, Some(vec![(4, 5)])),
        Ok(Checkpoint { state, path: vec![(4, 5)] })
    );
    assert_eq!(checkpoint_of(state, None), Err(StoreError::Malformed));
}

#[test]
fn result_is_written_with_both_lists_of_sentences() {
    let left = vec!["a \"b\"".to_string(), "c".to_string()];
    let right = vec!["d".to_string()];
    assert_eq!(
        result_text(&vec![(0, 0), (1, 0)], &left, &right),
        "[[[0,0],[1,0]],[\"a \\\"b\\\"\",\"c\"],[\"d\"]]"
    );
}
