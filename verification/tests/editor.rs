use piecetext::editor::{DisplayInformation, Editor, Mode, Request, MATCHING_INPUT_TIMEOUT};
use piecetext::keys::SpecialKey;

fn window() -> DisplayInformation {
    DisplayInformation { window_height_in_characters: 20 }
}

fn editor_over(text: &str) -> Editor {
    let mut editor = Editor::new();
    editor.load(String::from("notes.txt"), text);
    editor
}

fn type_keys(editor: &mut Editor, keys: &str) -> Request {
    let mut last = Request::Nothing;
    for key in keys.chars() {
        last = editor.handle_input(&key.to_string(), true, &window());
    }
    last
}

#[test]
fn new_editor_is_empty_and_in_normal_mode() {
    let editor = Editor::new();
    assert_eq!(editor.mode, Mode::NORMAL);
    assert_eq!(editor.buffer.to_string(), "");
    assert_eq!(editor.buffer.cursor(), (0, 0));
    assert_eq!(editor.y_render_offset, 0);
    assert_eq!(editor.editing_file_path, "");
    assert_eq!(editor.matching_input, "");
    assert_eq!(editor.matching_input_timeout, 1_000_000_000);
    assert_eq!(editor.current_display_info.window_height_in_characters, 0);
}

#[test]
fn load_replaces_text_and_path() {
    let mut editor = Editor::new();
    type_keys(&mut editor, "ihello");
    editor.load(String::from("a.txt"), "x\ny");
    assert_eq!(editor.buffer.to_string(), "x\ny");
    assert_eq!(editor.buffer.cursor(), (0, 0));
    assert_eq!(editor.editing_file_path, "a.txt");
    assert_eq!(editor.mode, Mode::INSERT);
}

#[test]
fn typing_in_insert_mode_inserts() {
    let mut editor = Editor::new();
    assert_eq!(type_keys(&mut editor, "i"), Request::Nothing);
    assert_eq!(editor.mode, Mode::INSERT);
    type_keys(&mut editor, "abc\nd");
    assert_eq!(editor.buffer.to_string(), "abc\nd");
    assert_eq!(editor.buffer.cursor(), (1, 1));
    assert_eq!(editor.matching_input, "");
}

#[test]
fn backspace_and_escape_in_insert_mode() {
    let mut editor = Editor::new();
    type_keys(&mut editor, "iab\nc");
    type_keys(&mut editor, "\x08\x08");
    assert_eq!(editor.buffer.to_string(), "ab");
    assert_eq!(editor.buffer.cursor(), (2, 0));
    assert_eq!(editor.mode, Mode::INSERT);
    type_keys(&mut editor, "\x1b");
    assert_eq!(editor.mode, Mode::NORMAL);
    assert_eq!(editor.buffer.to_string(), "ab");
}

#[test]
fn input_that_is_no_text_waits_in_insert_mode() {
    let mut editor = Editor::new();
    type_keys(&mut editor, "i");
    editor.handle_input("\u{fdd0}", false, &window());
    assert_eq!(editor.buffer.to_string(), "");
    assert_eq!(editor.matching_input, "\u{fdd0}");
    editor.handle_input("x", true, &window());
    assert_eq!(editor.buffer.to_string(), "x");
    assert_eq!(editor.matching_input, "");
}

#[test]
fn normal_mode_moves_the_cursor() {
    let mut editor = editor_over("hello\nworld");
    assert_eq!(type_keys(&mut editor, "l"), Request::CursorMoved);
    assert_eq!(editor.buffer.cursor(), (1, 0));
    assert_eq!(type_keys(&mut editor, "j"), Request::CursorMoved);
    assert_eq!(editor.buffer.cursor(), (1, 1));
    type_keys(&mut editor, "ll");
    assert_eq!(editor.buffer.cursor(), (3, 1));
    type_keys(&mut editor, "k");
    assert_eq!(editor.buffer.cursor(), (3, 0));
    type_keys(&mut editor, "hhhhh");
    assert_eq!(editor.buffer.cursor(), (0, 0));
    assert_eq!(editor.mode, Mode::NORMAL);
    assert_eq!(editor.buffer.to_string(), "hello\nworld");
}

#[test]
fn a_appends_behind_the_cursor() {
    let mut editor = editor_over("ab");
    assert_eq!(type_keys(&mut editor, "a"), Request::CursorMoved);
    assert_eq!(editor.mode, Mode::INSERT);
    assert_eq!(editor.buffer.cursor(), (1, 0));
    type_keys(&mut editor, "X");
    assert_eq!(editor.buffer.to_string(), "aXb");
}

#[test]
fn e_goes_to_the_end_of_the_word() {
    let mut editor = editor_over("hello big world");
    type_keys(&mut editor, "e");
    assert_eq!(editor.buffer.cursor(), (4, 0));
    type_keys(&mut editor, "l");
    assert_eq!(editor.buffer.cursor(), (5, 0));
    type_keys(&mut editor, "e");
    assert_eq!(editor.buffer.cursor(), (4, 0));
    type_keys(&mut editor, "ll");
    type_keys(&mut editor, "e");
    assert_eq!(editor.buffer.cursor(), (8, 0));
    type_keys(&mut editor, "lll");
    type_keys(&mut editor, "e");
    assert_eq!(editor.buffer.cursor(), (14, 0));
    type_keys(&mut editor, "e");
    assert_eq!(editor.buffer.cursor(), (14, 0));
}

#[test]
fn e_stays_where_there_is_no_cluster() {
    let mut editor = editor_over("");
    assert_eq!(type_keys(&mut editor, "e"), Request::CursorMoved);
    assert_eq!(editor.buffer.cursor(), (0, 0));
    let mut editor = editor_over(" x");
    type_keys(&mut editor, "e");
    assert_eq!(editor.buffer.cursor(), (0, 0));
}

#[test]
fn keys_of_two_wait_for_each_other() {
    let mut editor = editor_over("text");
    assert_eq!(editor.handle_input("d", true, &window()), Request::Nothing);
    assert_eq!(editor.matching_input, "d");
    assert_eq!(editor.handle_input("d", true, &window()), Request::Announce);
    assert_eq!(editor.matching_input, "");
    assert_eq!(type_keys(&mut editor, " s"), Request::Save);
    assert_eq!(type_keys(&mut editor, "  "), Request::Open);
    assert_eq!(editor.buffer.to_string(), "text");
}

#[test]
fn save_without_a_path_asks_for_nothing() {
    let mut editor = Editor::new();
    assert_eq!(type_keys(&mut editor, " s"), Request::Nothing);
    assert_eq!(editor.matching_input, "");
}

#[test]
fn keys_that_are_no_command_are_kept() {
    let mut editor = editor_over("text");
    type_keys(&mut editor, "xy");
    assert_eq!(editor.matching_input, "xy");
    type_keys(&mut editor, "i");
    assert_eq!(editor.matching_input, "xyi");
    assert_eq!(editor.mode, Mode::NORMAL);
    editor.fade_matching_input(MATCHING_INPUT_TIMEOUT + 1);
    assert_eq!(editor.matching_input, "");
    type_keys(&mut editor, "i");
    assert_eq!(editor.mode, Mode::INSERT);
}

#[test]
fn matching_input_fades() {
    let mut editor = editor_over("text");
    type_keys(&mut editor, "d");
    editor.fade_matching_input(400_000_000);
    assert_eq!(editor.matching_input, "d");
    assert_eq!(editor.matching_input_timeout, 600_000_000);
    editor.fade_matching_input(600_000_000);
    assert_eq!(editor.matching_input, "d");
    assert_eq!(editor.matching_input_timeout, 0);
    editor.fade_matching_input(1);
    assert_eq!(editor.matching_input, "");
    assert_eq!(editor.matching_input_timeout, 0);
    type_keys(&mut editor, "d");
    assert_eq!(editor.matching_input_timeout, MATCHING_INPUT_TIMEOUT);
}

#[test]
fn handle_input_takes_the_window_along() {
    let mut editor = Editor::new();
    editor.handle_input("x", true, &DisplayInformation { window_height_in_characters: 33 });
    assert_eq!(editor.current_display_info.window_height_in_characters, 33);
}

#[test]
fn the_window_follows_the_cursor() {
    let text = "\n".repeat(40);
    let mut editor = editor_over(&text);
    editor.handle_input("x", false, &window());
    editor.fade_matching_input(MATCHING_INPUT_TIMEOUT + 1);
    for _ in 0..13 {
        editor.move_cursor_vertical(1);
    }
    assert_eq!(editor.buffer.cursor(), (0, 13));
    assert_eq!(editor.y_render_offset, 0);
    editor.move_cursor_vertical(1);
    assert_eq!(editor.buffer.cursor(), (0, 14));
    assert_eq!(editor.y_render_offset, 1);
    editor.move_cursor_vertical(3);
    assert_eq!(editor.y_render_offset, 4);
    editor.move_cursor_vertical(-1);
    assert_eq!(editor.buffer.cursor(), (0, 16));
    assert_eq!(editor.y_render_offset, 4);
    editor.move_cursor_vertical(-8);
    assert_eq!(editor.buffer.cursor(), (0, 8));
    assert_eq!(editor.y_render_offset, 4);
    editor.move_cursor_vertical(-3);
    assert_eq!(editor.buffer.cursor(), (0, 5));
    assert_eq!(editor.y_render_offset, 1);
    editor.move_cursor_vertical(-2);
    assert_eq!(editor.buffer.cursor(), (0, 3));
    assert_eq!(editor.y_render_offset, 1);
    editor.move_cursor_vertical(-1);
    assert_eq!(editor.y_render_offset, 0);
    editor.move_cursor_vertical(-1);
    assert_eq!(editor.y_render_offset, 0);
}

#[test]
fn horizontal_moves_leave_the_window() {
    let mut editor = editor_over("abc");
    editor.move_cursor_horizontal(2);
    assert_eq!(editor.buffer.cursor(), (2, 0));
    assert_eq!(editor.y_render_offset, 0);
    assert_eq!(editor.mode, Mode::NORMAL);
}

#[test]
fn special_keys_have_their_texts() {
    assert_eq!(SpecialKey::Backspace.text(), "\x08");
    assert_eq!(SpecialKey::Escape.text(), "\x1B");
    assert_eq!(SpecialKey::Return.text(), "\n");
    assert_eq!(SpecialKey::Left.text(), "\u{00FDD0}");
    assert_eq!(SpecialKey::Right.text(), "\u{00FDD1}");
    assert_eq!(SpecialKey::Up.text(), "\u{00FDD2}");
    assert_eq!(SpecialKey::Down.text(), "\u{00FDD3}");
}

#[test]
fn special_keys_drive_insert_mode() {
    let mut editor = Editor::new();
    type_keys(&mut editor, "iab");
    editor.handle_input(SpecialKey::Return.text(), true, &window());
    type_keys(&mut editor, "c");
    editor.handle_input(SpecialKey::Backspace.text(), false, &window());
    editor.handle_input(SpecialKey::Backspace.text(), false, &window());
    assert_eq!(editor.buffer.to_string(), "ab");
    editor.handle_input(SpecialKey::Escape.text(), false, &window());
    assert_eq!(editor.mode, Mode::NORMAL);
    editor.handle_input(SpecialKey::Left.text(), false, &window());
    assert_eq!(editor.matching_input, "\u{fdd0}");
}

#[test]
fn an_editor_is_sound_until_its_buffer_is_not() {
    let mut editor = editor_over("ab\ncd");
    assert!(editor.is_sound());
    editor.move_cursor_vertical(1);
    assert!(editor.is_sound());
    editor.buffer.erase(2, 1);
    assert!(!editor.is_sound());
    editor.buffer.move_cursor_vertical(0);
    assert!(editor.is_sound());
    editor.buffer.insert("\u{e9}", 0);
    editor.buffer.insert("x", 1);
    assert!(!editor.is_sound());
}
