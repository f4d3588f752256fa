use translate::split_into_sentences;

#[test]
fn text_is_split_after_closing_marks() {
    assert_eq!(
        split_into_sentences("Hello World. How are you? Fine!"),
        vec!["hello world.", "how are you?", "fine!"]
    );
}

#[test]
fn text_is_split_at_line_ends() {
    assert_eq!(
        split_into_sentences("First line\nsecond line.\n\nthird"),
        vec!["first line", "second line.", "third"]
    );
    assert_eq!(split_into_sentences("A.\r\nB\r\n"), vec!["a.", "b"]);
}

#[test]
fn pieces_are_trimmed() {
    assert_eq!(
        split_into_sentences("  One .\t Two\u{a0}!  \n   three   "),
        vec!["one .", "two\u{a0}!", "three"]
    );
}

#[test]
fn empty_pieces_and_lone_marks_are_left_out() {
    assert_eq!(split_into_sentences("Wait... What?! . \n!\n ? \n"), vec!["wait.", "what?"]);
    assert_eq!(split_into_sentences(""), Vec::<String>::new());
    assert_eq!(split_into_sentences(" \n \r\n\t"), Vec::<String>::new());
    assert_eq!(split_into_sentences("...!!!???"), Vec::<String>::new());
}

#[test]
fn sentences_are_put_in_lower_case() {
    assert_eq!(
        split_into_sentences("ÄRGER Über Straßen. ПРИВЕТ Мир!"),
        vec!["ärger über straßen.", "привет мир!"]
    );
}

#[test]
fn marks_of_other_scripts_do_not_split() {
    assert_eq!(split_into_sentences("a。b…c;d:e"), vec!["a。b…c;d:e"]);
}
