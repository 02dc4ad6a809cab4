use text_input::cursor::Cursor;
use text_input::handler::TextInputHandler;
use text_input::keyboard::{Bindings, Keyboard};

fn handler(text: &str) -> TextInputHandler {
    TextInputHandler::new(text.to_string(), true, None, true)
}

fn no_bindings() -> Bindings {
    Bindings { copy: false, cut: false, paste: false, select_all: false, any: false }
}

#[test]
fn backspace_moves_cursors_with_text() {
    let mut h = handler("This is tes t ##2");
    h.cursor.idx = 12;
    h.cursors.push(Cursor::new(15));
    h.backspace_at_cursor();
    assert_eq!(h.content, "This is test #2");
    assert_eq!(h.cursor.idx, 11);
    assert_eq!(h.cursors.len(), 1);
    assert_eq!(h.cursors[0].idx, 13);
}

#[test]
fn backspace_at_start_does_nothing() {
    let mut h = handler("abc");
    h.backspace_at_cursor();
    assert_eq!(h.content, "abc");
    assert_eq!(h.cursor.idx, 0);
}

#[test]
fn backspace_cursors_that_meet_become_one() {
    let mut h = handler("abcd");
    h.cursor.idx = 2;
    h.cursors.push(Cursor::new(3));
    h.cursors.push(Cursor::selection(1, 3));
    h.backspace_at_cursor();
    assert_eq!(h.content, "ad");
    assert_eq!(h.cursor.idx, 1);
    assert!(h.cursors.is_empty());
}

#[test]
fn adjacent_backspaces_equal_one_at_a_time() {
    let mut h = handler("abcdef");
    h.cursor.idx = 2;
    h.cursors.push(Cursor::new(3));
    h.cursors.push(Cursor::new(6));
    h.backspace_at_cursor();

    let mut seq = String::from("abcdef");
    for at in [6usize, 3, 2] {
        let mut chars: Vec<char> = seq.chars().collect();
        chars.remove(at - 1);
        seq = chars.into_iter().collect();
    }
    assert_eq!(h.content, seq);
    assert_eq!(h.content, "ade");
}

#[test]
fn delete_removes_following_character() {
    let mut h = handler("abc");
    h.cursor.idx = 1;
    h.delete_at_cursor();
    assert_eq!(h.content, "ac");
    assert_eq!(h.cursor.idx, 1);
}

#[test]
fn delete_at_end_does_nothing() {
    let mut h = handler("abc");
    h.cursor.idx = 3;
    h.delete_at_cursor();
    assert_eq!(h.content, "abc");
    assert_eq!(h.cursor.idx, 3);
}

#[test]
fn delete_with_two_cursors() {
    let mut h = handler("a-b-c");
    h.cursor.idx = 3;
    h.cursors.push(Cursor::new(1));
    h.delete_at_cursor();
    assert_eq!(h.content, "abc");
    assert_eq!(h.cursor.idx, 2);
    assert_eq!(h.cursors[0].idx, 1);
}

#[test]
fn collapse_removes_selections_only() {
    let mut h = handler("hello world");
    h.cursor = Cursor::selection(5, 0);
    h.cursors.push(Cursor::new(8));
    h.collapse_selections();
    assert_eq!(h.content, " world");
    assert_eq!(h.cursor.idx, 0);
    assert_eq!(h.cursors[0].idx, 3);
    assert_eq!(h.cursor.selection_idx, None);
}

#[test]
fn editing_off_changes_nothing() {
    let mut h = TextInputHandler::new("abc".to_string(), true, None, false);
    h.cursor.idx = 2;
    h.backspace_at_cursor();
    h.delete_at_cursor();
    h.insert_at_cursor(false, "x".to_string());
    assert_eq!(h.content, "abc");
}

#[test]
fn insert_at_every_cursor() {
    let mut h = handler("ab");
    h.cursor.idx = 2;
    h.cursors.push(Cursor::new(0));
    h.insert_at_cursor(false, "X".to_string());
    assert_eq!(h.content, "xabx");
    assert_eq!(h.cursor.idx, 4);
    assert_eq!(h.cursors[0].idx, 1);
}

#[test]
fn insert_replaces_selection() {
    let mut h = handler("hello");
    h.cursor = Cursor::selection(4, 1);
    h.insert_at_cursor(false, "a".to_string());
    assert_eq!(h.content, "hao");
    assert_eq!(h.cursor.idx, 2);
}

#[test]
fn insert_with_shift_uses_symbols() {
    let mut h = handler("");
    h.insert_at_cursor(true, "1".to_string());
    h.insert_at_cursor(true, "-".to_string());
    h.insert_at_cursor(true, "A".to_string());
    assert_eq!(h.content, "!_A");
}

#[test]
fn mod_char_lowercases_without_shift() {
    let h = handler("");
    assert_eq!(h.mod_char(false, "ABC"), "abc");
    assert_eq!(h.mod_char(true, "/"), "?");
    assert_eq!(h.mod_char(true, "q"), "q");
}

#[test]
fn insert_blocked_at_max_length() {
    let mut h = TextInputHandler::new("abc".to_string(), true, Some(3), true);
    h.cursor.idx = 3;
    h.insert_at_cursor(false, "d".to_string());
    assert_eq!(h.content, "abc");
    let mut h = TextInputHandler::new("ab".to_string(), true, Some(3), true);
    h.cursor.idx = 2;
    h.insert_at_cursor(false, "c".to_string());
    assert_eq!(h.content, "abc");
}

#[test]
fn tab_fills_to_next_stop() {
    let mut h = handler("a\nbcdef");
    h.cursor.idx = 1;
    h.cursors.push(Cursor::new(6));
    h.tab_at_cursor();
    assert_eq!(h.content, "a   \nbcde    f");
    assert_eq!(h.cursor.idx, 4);
    assert_eq!(h.cursors[0].idx, 13);
}

#[test]
fn tab_at_stop_inserts_four() {
    let mut h = handler("");
    h.tab_at_cursor();
    assert_eq!(h.content, "    ");
    assert_eq!(h.cursor.idx, 4);
}

#[test]
fn typing_class_change_marks_history() {
    let mut h = handler("");
    h.insert_at_cursor(false, "a".to_string());
    assert!(h.should_update_history());
    assert!(!h.should_update_history());
    h.insert_at_cursor(false, "b".to_string());
    assert!(!h.should_update_history());
    h.insert_at_cursor(false, "1".to_string());
    assert!(h.should_update_history());
    h.insert_at_cursor(false, "é".to_string());
    assert!(h.should_update_history());
    h.insert_at_cursor(false, "-".to_string());
    assert!(h.should_update_history());
    assert_eq!(h.content, "ab1é-");
}

#[test]
fn backspace_records_class_after_removed_span() {
    let mut h = handler("a1");
    h.cursor.idx = 1;
    h.backspace_at_cursor();
    assert_eq!(h.content, "1");
    assert!(h.should_update_history());
}

#[test]
fn focus_flag_reads_once() {
    let mut h = handler("ab");
    assert!(!h.should_focus_cursor());
    h.set_focus_cursor(true);
    assert!(h.should_focus_cursor());
    assert!(!h.should_focus_cursor());
}

#[test]
fn set_cursor_index_clamps_and_clears() {
    let mut h = handler("abc");
    h.cursors.push(Cursor::new(1));
    h.cursor = Cursor::selection(2, 0);
    h.set_cursor_index(10);
    assert_eq!(h.cursor.idx, 3);
    assert_eq!(h.cursor.selection_idx, None);
    assert!(h.cursors.is_empty());
}

#[test]
fn move_cursors_keeps_preferred_column() {
    let mut h = handler("abcdef\nab\nabcdef");
    h.cursor.idx = 5;
    h.set_cursor_preference();
    assert_eq!(h.cursor.preferred_column, 5);
    h.move_cursors(false);
    assert_eq!(h.cursor.idx, 9);
    h.move_cursors(false);
    assert_eq!(h.cursor.idx, 15);
    h.move_cursors(true);
    h.move_cursors(true);
    assert_eq!(h.cursor.idx, 5);
    h.move_cursors(true);
    assert_eq!(h.cursor.idx, 0);
    assert_eq!(h.cursor.preferred_column, 0);
}

#[test]
fn move_down_past_last_line_goes_to_end() {
    let mut h = handler("ab\ncde");
    h.cursor.idx = 4;
    h.move_cursors(false);
    assert_eq!(h.cursor.idx, 6);
    assert_eq!(h.cursor.preferred_column, 3);
}

#[test]
fn ctrl_move_jumps_words() {
    let mut h = handler("hello world");
    h.cursor.idx = 8;
    h.ctrl_move(true);
    assert_eq!(h.cursor.idx, 6);
    h.ctrl_move(true);
    assert_eq!(h.cursor.idx, 0);
    h.ctrl_move(false);
    assert_eq!(h.cursor.idx, 5);
    h.ctrl_move(false);
    assert_eq!(h.cursor.idx, 11);
    h.ctrl_move(false);
    assert_eq!(h.cursor.idx, 11);
}

#[test]
fn ctrl_move_on_second_line_and_punctuation() {
    let mut h = handler("x\nfoo.bar  baz");
    h.cursor.idx = 2;
    h.ctrl_move(false);
    assert_eq!(h.cursor.idx, 5);
    h.ctrl_move(false);
    assert_eq!(h.cursor.idx, 6);
    h.ctrl_move(false);
    assert_eq!(h.cursor.idx, 9);
    h.ctrl_move(false);
    assert_eq!(h.cursor.idx, 14);
    h.ctrl_move(true);
    assert_eq!(h.cursor.idx, 11);
}

#[test]
fn ctrl_move_treats_unicode_letters_as_word() {
    let mut h = handler("héllo wörld");
    h.cursor.idx = 0;
    h.ctrl_move(false);
    assert_eq!(h.cursor.idx, 5);
}

#[test]
fn deselect_directional_snaps_to_edges() {
    let mut h = handler("abcdef");
    h.cursor = Cursor::selection(4, 1);
    h.cursors.push(Cursor::new(2));
    h.deselect_all_directional(true, true);
    assert_eq!(h.cursor.idx, 1);
    assert_eq!(h.cursors[0].idx, 1);
    h.cursor = Cursor::selection(1, 4);
    h.deselect_all_directional(false, true);
    assert_eq!(h.cursor.idx, 4);
    assert_eq!(h.cursor.selection_idx, None);
}

#[test]
fn deselect_all_keeps_positions() {
    let mut h = handler("abcdef");
    h.cursor = Cursor::selection(4, 1);
    h.cursors.push(Cursor::selection(5, 6));
    h.deselect_all();
    assert_eq!(h.cursor.idx, 4);
    assert_eq!(h.cursor.selection_idx, None);
    assert_eq!(h.cursors[0].selection_idx, None);
}

#[test]
fn truncate_cursors_sorts_and_drops_duplicates() {
    let mut h = handler("abcdef");
    h.cursor.idx = 2;
    h.cursors.push(Cursor::new(5));
    h.cursors.push(Cursor::new(2));
    h.cursors.push(Cursor::new(1));
    h.cursors.push(Cursor::new(5));
    h.truncate_cursors();
    let idx: Vec<usize> = h.cursors.iter().map(|c| c.idx).collect();
    assert_eq!(idx, vec![1, 5]);
}

#[test]
fn selections_are_merged() {
    let mut h = handler("abcdefghij");
    h.cursor = Cursor::selection(2, 5);
    h.cursors.push(Cursor::selection(4, 7));
    h.cursors.push(Cursor::new(9));
    h.cursors.push(Cursor::selection(9, 8));
    assert_eq!(h.get_selections(), vec![(2, 7), (8, 9)]);
}

#[test]
fn clipboard_actions_leave_text() {
    let mut h = handler("abc");
    assert_eq!(h.copy_at_cursor(), "");
    assert_eq!(h.cut_at_cursor(), "");
    h.paste_at_cursor();
    assert_eq!(h.content, "abc");
}

#[test]
fn process_types_and_deletes() {
    let mut h = handler("");
    let mut kb = Keyboard::new();
    kb.triggered_keys = vec!["h".to_string(), "i".to_string(), "Backspace".to_string(), "o".to_string()];
    assert!(h.process(&kb, &no_bindings()));
    assert_eq!(h.content, "ho");
    assert!(h.should_focus_cursor());
}

#[test]
fn process_shift_arrows_select() {
    let mut h = handler("abcd");
    h.cursor.idx = 1;
    let mut kb = Keyboard::new();
    kb.shift_held = true;
    kb.triggered_keys = vec!["Right".to_string(), "Right".to_string()];
    assert!(!h.process(&kb, &no_bindings()));
    assert_eq!(h.cursor.idx, 3);
    assert_eq!(h.cursor.selection_idx, Some(1));
    let mut kb = Keyboard::new();
    kb.triggered_keys = vec!["Delete".to_string()];
    h.process(&kb, &no_bindings());
    assert_eq!(h.content, "ad");
}

#[test]
fn process_swallows_keys_under_binding() {
    let mut h = handler("ab");
    let mut kb = Keyboard::new();
    kb.triggered_keys = vec!["x".to_string()];
    let b = Bindings { copy: false, cut: false, paste: false, select_all: false, any: true };
    assert!(!h.process(&kb, &b));
    assert_eq!(h.content, "ab");
}

#[test]
fn process_return_respects_newline_setting() {
    let mut h = TextInputHandler::new("ab".to_string(), false, None, true);
    h.cursor.idx = 1;
    let mut kb = Keyboard::new();
    kb.triggered_keys = vec!["Return".to_string()];
    assert!(!h.process(&kb, &no_bindings()));
    assert_eq!(h.content, "ab");
    assert!(h.should_update_history());
    let mut h = handler("ab");
    h.cursor.idx = 1;
    assert!(h.process(&kb, &no_bindings()));
    assert_eq!(h.content, "a\nb");
}

#[test]
fn process_select_all_then_type() {
    let mut h = handler("abc");
    let kb = Keyboard::new();
    let b = Bindings { copy: false, cut: false, paste: false, select_all: true, any: false };
    h.process(&kb, &b);
    assert_eq!(h.cursor.idx, 3);
    assert_eq!(h.cursor.selection_idx, Some(0));
    let mut kb = Keyboard::new();
    kb.triggered_keys = vec!["z".to_string()];
    h.process(&kb, &no_bindings());
    assert_eq!(h.content, "z");
}

#[test]
fn process_ignores_unknown_keys_and_editing_off() {
    let mut h = handler("ab");
    let mut kb = Keyboard::new();
    kb.triggered_keys = vec!["F5".to_string()];
    assert!(!h.process(&kb, &no_bindings()));
    let mut h = TextInputHandler::new("ab".to_string(), true, None, false);
    kb.triggered_keys = vec!["x".to_string()];
    assert!(!h.process(&kb, &no_bindings()));
    assert_eq!(h.content, "ab");
}

#[test]
fn backspace_primary_selection_edge() {
    let mut h = handler("This is tes   t #3");
    h.cursor = Cursor::selection(14, 11);
    h.backspace_at_cursor();
    assert_eq!(h.content, "This is test #3");
    assert_eq!(h.cursor.idx, 11);
}

#[test]
fn backspace_primary_selection_with_inner_caret() {
    let mut h = handler("This is tes      t #4");
    h.cursor = Cursor::selection(17, 11);
    h.cursors.push(Cursor::new(14));
    h.backspace_at_cursor();
    assert_eq!(h.content, "This is test #4");
    assert_eq!(h.cursor.idx, 11);
    assert!(h.cursors.is_empty());
}

#[test]
fn insert_refused_when_text_would_pass_limit() {
    let mut h = TextInputHandler::new(String::new(), true, Some(1), true);
    h.insert_at_cursor(true, "ab".to_string());
    assert_eq!(h.content, "");
    h.tab_at_cursor();
    assert_eq!(h.content, "");
    let mut h = TextInputHandler::new("ab".to_string(), true, Some(3), true);
    h.cursors.push(Cursor::new(2));
    h.insert_at_cursor(false, "x".to_string());
    assert_eq!(h.content, "ab");
    assert_eq!(h.cursors.len(), 1);
}

#[test]
fn insert_fits_after_selection_is_deleted() {
    let mut h = TextInputHandler::new("abc".to_string(), true, Some(3), true);
    h.cursor = Cursor::selection(3, 1);
    h.insert_at_cursor(false, "x".to_string());
    assert_eq!(h.content, "ax");
}

#[test]
fn process_tab_refused_at_limit() {
    let mut h = TextInputHandler::new(String::new(), true, Some(1), true);
    let mut kb = Keyboard::new();
    kb.triggered_keys = vec!["Tab".to_string()];
    assert!(!h.process(&kb, &no_bindings()));
    assert_eq!(h.content, "");
    kb.triggered_keys = vec!["Return".to_string()];
    assert!(h.process(&kb, &no_bindings()));
    assert_eq!(h.content, "\n");
}

#[test]
fn process_reports_only_text_changes() {
    let mut h = handler("ab");
    let mut kb = Keyboard::new();
    kb.triggered_keys = vec!["Left".to_string(), "Backspace".to_string()];
    assert!(!h.process(&kb, &no_bindings()));
    kb.triggered_keys = vec!["Delete".to_string()];
    assert!(h.process(&kb, &no_bindings()));
    assert_eq!(h.content, "b");
}

#[test]
fn multi_cursor_edits_equal_single_cursor_edits_from_highest() {
    let mut h = handler("abcdefgh");
    h.cursor.idx = 1;
    h.cursors.push(Cursor::new(4));
    h.cursors.push(Cursor::selection(6, 8));
    h.delete_at_cursor();

    let mut text = String::from("abcdefgh");
    for c in [Cursor::selection(6, 8), Cursor::new(4), Cursor::new(1)] {
        let mut one = handler(&text);
        one.cursor = c;
        one.delete_at_cursor();
        text = one.content;
    }
    assert_eq!(h.content, text);

    let mut h = handler("abc");
    h.cursor.idx = 0;
    h.cursors.push(Cursor::new(2));
    h.insert_at_cursor(false, "x".to_string());
    let mut text = String::from("abc");
    for at in [2usize, 0] {
        let mut one = handler(&text);
        one.cursor.idx = at;
        one.insert_at_cursor(false, "x".to_string());
        text = one.content;
    }
    assert_eq!(h.content, text);
    assert_eq!(h.content, "xabxc");
}
