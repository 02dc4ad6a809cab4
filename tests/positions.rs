use text_input::handler::TextInputHandler;

fn handler(text: &str) -> TextInputHandler {
    TextInputHandler::new(text.to_string(), true, None, true)
}

#[test]
fn text_pos_of_empty_content() {
    let h = handler("");
    assert_eq!(h.get_text_pos(0), Some((0, 0)));
    assert_eq!(h.get_text_pos(1), None);
}

#[test]
fn text_pos_after_trailing_newline() {
    let h = handler("ab\ncd\n");
    assert_eq!(h.get_text_pos(6), Some((2, 0)));
    assert_eq!(h.get_text_pos(2), Some((0, 2)));
    assert_eq!(h.get_text_pos(3), Some((1, 0)));
    assert_eq!(h.get_text_pos(7), None);
}

#[test]
fn text_pos_counts_characters_not_bytes() {
    let h = handler("éé\nü");
    assert_eq!(h.get_text_pos(2), Some((0, 2)));
    assert_eq!(h.get_text_pos(4), Some((1, 1)));
}

#[test]
fn index_round_trips_through_text_pos() {
    for text in ["", "a", "ab\ncd", "\n\n", "x\nyy\n\nzzz"] {
        let h = handler(text);
        let n = text.chars().count();
        for i in 0..=n {
            let (l, c) = h.get_text_pos(i).unwrap();
            assert_eq!(h.get_index(l, c), Some(i));
        }
    }
}

#[test]
fn get_index_clamps_column() {
    let h = handler("abc\nd");
    assert_eq!(h.get_index(0, 10), Some(3));
    assert_eq!(h.get_index(1, 0), Some(4));
    assert_eq!(h.get_index(1, 7), Some(5));
    assert_eq!(h.get_index(2, 0), None);
}

#[test]
fn get_line_without_newline() {
    let h = handler("abc\nd\n");
    assert_eq!(h.get_line(0), Some("abc"));
    assert_eq!(h.get_line(1), Some("d"));
    assert_eq!(h.get_line(2), Some(""));
    assert_eq!(h.get_line(3), None);
}

#[test]
fn line_start_indices() {
    let h = handler("ab\ncd");
    assert_eq!(h.get_line_start_index(0), Some(0));
    assert_eq!(h.get_line_start_index(1), Some(3));
    assert_eq!(h.get_line_start_index(2), Some(5));
    assert_eq!(h.get_line_start_index(3), None);
    let h = handler("ab\n");
    assert_eq!(h.get_line_start_index(1), Some(3));
    assert_eq!(h.get_line_start_index(2), None);
    let h = handler("");
    assert_eq!(h.get_line_start_index(0), Some(0));
    assert_eq!(h.get_line_start_index(1), None);
}
