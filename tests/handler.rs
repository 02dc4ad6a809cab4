use text_input::cursor::Cursor;
use text_input::handler::TextInputHandler;

#[test]
fn test_sorting() {
    let mut regions = Vec::new();

    regions.push((93, 94));
    regions.push((0, 12));
    regions.push((14, 15));

    TextInputHandler::merge_groups(&mut regions);

    assert_eq!(regions, vec![(0, 12), (14, 15), (93, 94)]);
}

#[test]
fn test_backspace_1_cursor() {
    let mut handler = TextInputHandler::new("This is test ##1".to_string(), true, None, true);
    handler.cursor.idx = 14;

    handler.backspace_at_cursor();

    assert_eq!(handler.content, "This is test #1");
}

#[test]
fn test_backspace_2_cursors() {
    let mut handler = TextInputHandler::new("This is tes t ##2".to_string(), true, None, true);
    handler.cursor.idx = 12;
    handler.cursors.push(Cursor::new(15));

    handler.backspace_at_cursor();

    assert_eq!(handler.content, "This is test #2");
}

#[test]
fn test_backspace_selection_edge() {
    let mut handler = TextInputHandler::new("This is tes   t #3".to_string(), true, None, true);
    handler.cursor.idx = 14;
    handler.cursors.push(Cursor::selection(11, 14));

    handler.backspace_at_cursor();

    assert_eq!(handler.content, "This is test #3");
}

#[test]
fn test_backspace_selection_2_cursors() {
    let mut handler = TextInputHandler::new("This is tes      t #4".to_string(), true, None, true);
    handler.cursor.idx = 17;
    handler.cursors.push(Cursor::new(14));
    handler.cursors.push(Cursor::selection(11, 17));

    handler.backspace_at_cursor();

    assert_eq!(handler.content, "This is test #4");
}
