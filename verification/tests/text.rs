use translate::context::{Context, DEFAULT_WINDOW_SIZE};
use translate::decimal::{append_decimal, read_number, value_of_digit};
use translate::text::characters;

#[test]
fn characters_of_a_text_are_listed() {
    assert_eq!(characters("aß€😀"), vec!['a', 'ß', '€', '😀']);
    assert_eq!(characters(""), Vec::<char>::new());
}

#[test]
fn number_is_appended_in_decimal() {
    let mut text = String::from("n=");
    append_decimal(&mut text, 0);
    text.push(' ');
    append_decimal(&mut text, 7);
    text.push(' ');
    append_decimal(&mut text, 10);
    text.push(' ');
    append_decimal(&mut text, 9080);
    assert_eq!(text, "n=0 7 10 9080");
    let mut largest = String::new();
    append_decimal(&mut largest, usize::MAX);
    assert_eq!(largest, usize::MAX.to_string());
}

#[test]
fn digits_have_their_value() {
    for (i, c) in "0123456789".chars().enumerate() {
        assert_eq!(value_of_digit(c), Some(i));
    }
    for c in ['/', ':', 'a', ' ', '-', '٣'] {
        assert_eq!(value_of_digit(c), None);
    }
}

#[test]
fn number_is_read_from_its_digits() {
    let chars: Vec<char> = "ab0042cd".chars().collect();
    assert_eq!(read_number(&chars[2..6]), Some(42));
    assert_eq!(read_number(&chars[5..6]), Some(2));
    assert_eq!(read_number(&chars[3..3]), Some(0));
    let largest: Vec<char> = usize::MAX.to_string().chars().collect();
    assert_eq!(read_number(&largest), Some(usize::MAX));
    let padded: Vec<char> = format!("000{}", usize::MAX).chars().collect();
    assert_eq!(read_number(&padded), Some(usize::MAX));
}

#[test]
fn number_beyond_the_largest_is_not_read() {
    let beyond: Vec<char> = (usize::MAX as u128 + 1).to_string().chars().collect();
    assert_eq!(read_number(&beyond), None);
    let longer: Vec<char> = format!("{}0", usize::MAX).chars().collect();
    assert_eq!(read_number(&longer), None);
}

#[test]
fn text_with_another_character_is_no_number() {
    for text in ["ab", "12a", "a12", "1 2", "-1", "+1", "1.0", "\u{0663}"] {
        let chars: Vec<char> = text.chars().collect();
        assert_eq!(read_number(&chars), None, "{}", text);
    }
}

#[test]
fn settings_begin_with_the_default_window() {
    let settings = Context::new("l.txt".to_string(), "r.txt".to_string(), "dir".to_string());
    assert_eq!(settings.left, "l.txt");
    assert_eq!(settings.right, "r.txt");
    assert_eq!(settings.context, "dir");
    assert_eq!(settings.window_size, DEFAULT_WINDOW_SIZE);
    assert_eq!(DEFAULT_WINDOW_SIZE, 300);
}
