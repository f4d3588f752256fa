use translate::checkpoint::{
    html_file_name, matrix_file_name, parse_path_file_name, path_file_name, path_file_pattern,
    result_file_name, ParsedName,
};
use translate::driver::DriverState;

fn state(iteration: usize, left_start: usize, right_start: usize) -> DriverState {
    DriverState { iteration, left_start, right_start }
}

#[test]
fn path_of_a_window_is_named_after_its_state() {
    assert_eq!(path_file_name("ctx", state(3, 150, 148)), "ctx/path-3-150-148.json");
    assert_eq!(path_file_name("", state(0, 0, 0)), "/path-0-0-0.json");
    assert_eq!(path_file_name("a/b", state(10, 200, 3009)), "a/b/path-10-200-3009.json");
}

#[test]
fn largest_numbers_are_written_in_full() {
    let name = path_file_name("d", state(usize::MAX, 0, 1));
    assert_eq!(name, format!("d/path-{}-0-1.json", usize::MAX));
}

#[test]
fn costs_of_a_window_are_named_after_its_state() {
    assert_eq!(matrix_file_name("ctx", state(3, 150, 148)), "ctx/matrix-3-150-148.json");
}

#[test]
fn other_files_are_named_after_the_directory() {
    assert_eq!(path_file_pattern("ctx"), "ctx/path-*-*-*.json");
    assert_eq!(result_file_name("ctx"), "ctx/result.json");
    assert_eq!(html_file_name("ctx", 1), "ctx/1-column.html");
    assert_eq!(html_file_name("ctx", 2), "ctx/2-columns.html");
    assert_eq!(html_file_name("ctx", 3), "ctx/3-columns.html");
}

#[test]
fn name_is_read_back() {
    assert_eq!(parse_path_file_name("path-3-150-148.json"), ParsedName::State(state(3, 150, 148)));
    assert_eq!(parse_path_file_name("ctx/path-0-0-0.json"), ParsedName::State(state(0, 0, 0)));
    assert_eq!(parse_path_file_name("xpath-1-2-3.json"), ParsedName::State(state(1, 2, 3)));
    assert_eq!(parse_path_file_name("path-007-08-9.json"), ParsedName::State(state(7, 8, 9)));
    assert_eq!(
        parse_path_file_name("path-1-2-3.json/path-4-5-6.json"),
        ParsedName::State(state(4, 5, 6))
    );
}

#[test]
fn name_that_was_written_is_read_back() {
    for s in [state(0, 0, 0), state(12, 3400, 56), state(usize::MAX, usize::MAX - 1, 9)] {
        let name = path_file_name("some/dir-1", s);
        assert_eq!(parse_path_file_name(&name), ParsedName::State(s));
    }
}

#[test]
fn other_names_are_unrelated() {
    for name in [
        "",
        ".json",
        "path-.json",
        "path-1-2.json",
        "path-1-2-.json",
        "path--2-3.json",
        "path-1--3.json",
        "path-a-2-3.json",
        "path-1-2-3.jso",
        "path-1-2-3.json ",
        "path-1-2-3.JSON",
        "path1-2-3.json",
        "pat-1-2-3.json",
        "Path-1-2-3.json",
        "matrix-1-2-3.json",
        "path-1-2-3json",
        "path-1-2-+3.json",
        "path-1-2-\u{0663}.json",
        "1-2-3.json",
        "-1-2-3.json",
    ] {
        assert_eq!(parse_path_file_name(name), ParsedName::Unrelated, "{}", name);
    }
}

#[test]
fn number_that_is_too_large_is_out_of_range() {
    let too_large = format!("path-{}0-1-2.json", usize::MAX);
    assert_eq!(parse_path_file_name(&too_large), ParsedName::OutOfRange);
    assert_eq!(
        parse_path_file_name("path-1-2-99999999999999999999999999999999.json"),
        ParsedName::OutOfRange
    );
    let next = format!("path-1-{}-2.json", usize::MAX as u128 + 1);
    assert_eq!(parse_path_file_name(&next), ParsedName::OutOfRange);
    let largest = format!("path-1-{}-2.json", usize::MAX);
    assert_eq!(parse_path_file_name(&largest), ParsedName::State(state(1, usize::MAX, 2)));
}
