use translate::group::LRPair;
use translate::html::{ONE_COLUMN, THREE_COLUMNS, TWO_COLUMNS};
use translate::{build_html_from_sequence, build_html_one_column, produce_html};

fn sentences(list: &[&str]) -> Vec<String> {
    list.iter().map(|s| s.to_string()).collect()
}

fn pairs(points: &[(usize, usize)]) -> Vec<LRPair> {
    points.iter().map(|&(l, r)| LRPair { l, r }).collect()
}

fn table(left: &str, right: &str) -> String {
    format!(
        "\n  <hr />\n  <table>\n    <tr>\n      <td>\n        <p>{}</p>\n      </td>\n      <td>\n        <p>{}</p>\n      </td>\n      <td></td>\n    </tr>\n  </table>\n",
        left, right
    )
}

fn column(left: &str, right: &str) -> String {
    format!("\n    <hr />\n    <p class=r>{}</p>\n    <p class=l>{}</p>\n", right, left)
}

const FOOTER: &str = "\n</body>\n</html>\n";

#[test]
fn page_without_blocks_is_head_and_closing() {
    let none = sentences(&[]);
    assert_eq!(
        build_html_from_sequence(&none, &none, &[], "<head>"),
        format!("<head>{}", FOOTER)
    );
    assert_eq!(build_html_one_column(&none, &none, &[]), format!("{}{}", ONE_COLUMN, FOOTER));
}

#[test]
fn block_shows_its_sentences_side_by_side() {
    let left = sentences(&["l0", "l1", "l2"]);
    let right = sentences(&["r0", "r1"]);
    let sequence = vec![pairs(&[(0, 0)]), pairs(&[(1, 1), (2, 1)])];
    assert_eq!(
        build_html_from_sequence(&left, &right, &sequence, "H"),
        format!("H{}{}{}", table("l0", "r0"), table("l1<br />l2", "r1"), FOOTER)
    );
}

#[test]
fn one_column_shows_the_right_side_first() {
    let left = sentences(&["l0", "l1", "l2"]);
    let right = sentences(&["r0", "r1"]);
    let sequence = vec![pairs(&[(0, 0)]), pairs(&[(1, 1), (2, 1)])];
    assert_eq!(
        build_html_one_column(&left, &right, &sequence),
        format!("{}{}{}{}", ONE_COLUMN, column("l0", "r0"), column("l1<br />l2", "r1"), FOOTER)
    );
}

#[test]
fn sentences_of_a_block_are_sorted_trimmed_and_shown_once() {
    let left = sentences(&[" a ", "b\n", "\tc"]);
    let right = sentences(&["x", "  y"]);
    let sequence = vec![pairs(&[(2, 1), (0, 1), (2, 1), (1, 0), (0, 0)])];
    assert_eq!(
        build_html_from_sequence(&left, &right, &sequence, ""),
        format!("{}{}", table("a<br />b<br />c", "x<br />y"), FOOTER)
    );
}

#[test]
fn index_beyond_the_sentences_shows_nothing() {
    let left = sentences(&["a"]);
    let right = sentences(&["x"]);
    let sequence = vec![pairs(&[(0, 5), (1, 5)]), pairs(&[]), pairs(&[(7, 0)])];
    assert_eq!(
        build_html_from_sequence(&left, &right, &sequence, ""),
        format!("{}{}{}{}", table("a", ""), table("", ""), table("", "x"), FOOTER)
    );
}

#[test]
fn path_is_rendered_block_by_block() {
    let left = sentences(&["one", "two", "three"]);
    let right = sentences(&["eins", "zwei", "drei"]);
    let path = vec![(0, 0), (1, 1), (1, 2), (2, 2)];
    // (2, 2) would give the block two left and two right indices
    let blocks = format!("{}{}{}", table("one", "eins"), table("two", "zwei<br />drei"), table("three", "drei"));
    assert_eq!(
        produce_html(&left, &right, &path, 3),
        format!("{}{}{}", THREE_COLUMNS, blocks, FOOTER)
    );
    assert_eq!(
        produce_html(&left, &right, &path, 2),
        format!("{}{}{}", TWO_COLUMNS, blocks, FOOTER)
    );
    assert_eq!(
        produce_html(&left, &right, &path, 1),
        format!(
            "{}{}{}{}{}",
            ONE_COLUMN,
            column("one", "eins"),
            column("two", "zwei<br />drei"),
            column("three", "drei"),
            FOOTER
        )
    );
}

#[test]
fn heads_differ_in_the_width_of_a_column() {
    assert!(THREE_COLUMNS.contains("width: 33%;"));
    assert!(TWO_COLUMNS.contains("width: 50%;"));
    assert!(ONE_COLUMN.contains(".r {"));
    assert!(THREE_COLUMNS.starts_with("<!DOCTYPE html>\n<html>\n<head>"));
    assert!(ONE_COLUMN.ends_with("</head>\n<body>\n"));
}
