use piecetext::buffer::Buffer;
use piecetext::cursor::{
    column_of_offset, horizontal_step, offset_of_column, row_layout, settle, vertical_step,
};
use piecetext::rows::{find_row, find_row_of, line_end};
use piecetext::segment::cluster_lengths;

#[test]
fn vertical_then_horizontal_move() {
    let mut buffer = Buffer::from("hello\nworld");
    buffer.move_cursor_vertical(1);
    buffer.move_cursor_horizontal(2);
    assert_eq!(buffer.cursor(), (2, 1));
}

#[test]
fn horizontal_moves_stop_at_the_ends_of_the_row() {
    let mut buffer = Buffer::from("hello\nhi");
    buffer.move_cursor_horizontal(-1);
    assert_eq!(buffer.cursor(), (0, 0));
    buffer.move_cursor_horizontal(3);
    assert_eq!(buffer.cursor(), (3, 0));
    buffer.move_cursor_horizontal(10);
    assert_eq!(buffer.cursor(), (4, 0));
    buffer.move_cursor_horizontal(1);
    assert_eq!(buffer.cursor(), (4, 0));
    buffer.move_cursor_horizontal(-2);
    assert_eq!(buffer.cursor(), (2, 0));
    buffer.move_cursor_horizontal(-10);
    assert_eq!(buffer.cursor(), (0, 0));
    buffer.move_cursor_horizontal(i64::MIN);
    assert_eq!(buffer.cursor(), (0, 0));
    buffer.move_cursor_horizontal(i64::MAX);
    assert_eq!(buffer.cursor(), (4, 0));
}

#[test]
fn horizontal_move_in_an_empty_row_is_refused() {
    let mut buffer = Buffer::from("");
    buffer.move_cursor_horizontal(1);
    assert_eq!(buffer.cursor(), (0, 0));
    buffer.move_cursor_horizontal(-1);
    assert_eq!(buffer.cursor(), (0, 0));
}

#[test]
fn horizontal_moves_count_clusters() {
    let mut buffer = Buffer::from("e\u{301}\u{1F1F7}\u{1F1FA}x");
    buffer.move_cursor_horizontal(1);
    assert_eq!(buffer.cursor(), (1, 0));
    assert_eq!(buffer.cursor_position_in_buffer(), 3);
    buffer.move_cursor_horizontal(1);
    assert_eq!(buffer.cursor(), (2, 0));
    assert_eq!(buffer.cursor_position_in_buffer(), 11);
    buffer.move_cursor_horizontal(1);
    assert_eq!(buffer.cursor(), (2, 0));
}

#[test]
fn vertical_moves_stop_at_the_first_and_last_row() {
    let mut buffer = Buffer::from("a\nb\nc");
    buffer.move_cursor_vertical(-1);
    assert_eq!(buffer.cursor(), (0, 0));
    buffer.move_cursor_vertical(5);
    assert_eq!(buffer.cursor(), (0, 2));
    buffer.move_cursor_vertical(1);
    assert_eq!(buffer.cursor(), (0, 2));
    buffer.move_cursor_vertical(-1);
    assert_eq!(buffer.cursor(), (0, 1));
    buffer.move_cursor_vertical(i64::MIN);
    assert_eq!(buffer.cursor(), (0, 0));
    buffer.move_cursor_vertical(i64::MAX);
    assert_eq!(buffer.cursor(), (0, 2));
}

#[test]
fn vertical_moves_come_back_to_the_sticky_column() {
    let mut buffer = Buffer::from("a long line\nab\n\nanother long line");
    buffer.move_cursor_horizontal(7);
    assert_eq!(buffer.cursor(), (7, 0));
    buffer.move_cursor_vertical(1);
    assert_eq!(buffer.cursor(), (1, 1));
    buffer.move_cursor_vertical(1);
    assert_eq!(buffer.cursor(), (0, 2));
    buffer.move_cursor_vertical(1);
    assert_eq!(buffer.cursor(), (7, 3));
    buffer.move_cursor_vertical(-3);
    assert_eq!(buffer.cursor(), (7, 0));
}

#[test]
fn a_trailing_newline_makes_an_empty_last_row() {
    let mut buffer = Buffer::from("ab\n");
    buffer.move_cursor_horizontal(1);
    buffer.move_cursor_vertical(1);
    assert_eq!(buffer.cursor(), (0, 1));
    assert_eq!(buffer.cursor_position_in_buffer(), 3);
}

#[test]
fn cursor_offset_adds_rows_and_clusters() {
    let mut buffer = Buffer::from("h\u{e9}llo\nw\u{f6}rld\nend");
    assert_eq!(buffer.cursor_position_in_buffer(), 0);
    buffer.move_cursor_vertical(1);
    assert_eq!(buffer.cursor_position_in_buffer(), 7);
    buffer.move_cursor_horizontal(3);
    assert_eq!(buffer.cursor(), (3, 1));
    assert_eq!(buffer.cursor_position_in_buffer(), 11);
    buffer.move_cursor_vertical(1);
    assert_eq!(buffer.cursor(), (2, 2));
    assert_eq!(buffer.cursor_position_in_buffer(), 16);
}

#[test]
fn move_cursor_to_finds_row_and_column() {
    let mut buffer = Buffer::from("h\u{e9}llo\nw\u{f6}rld\nend");
    buffer.move_cursor_to(0);
    assert_eq!(buffer.cursor(), (0, 0));
    buffer.move_cursor_to(6);
    assert_eq!(buffer.cursor(), (5, 0));
    buffer.move_cursor_to(7);
    assert_eq!(buffer.cursor(), (0, 1));
    buffer.move_cursor_to(11);
    assert_eq!(buffer.cursor(), (3, 1));
    assert_eq!(buffer.cursor_position_in_buffer(), 11);
    buffer.move_cursor_to(9);
    assert_eq!(buffer.cursor(), (2, 1));
    assert_eq!(buffer.cursor_position_in_buffer(), 10);
    buffer.move_cursor_to(17);
    assert_eq!(buffer.cursor(), (3, 2));
    buffer.move_cursor_vertical(-1);
    assert_eq!(buffer.cursor(), (3, 1));
}

#[test]
fn get_under_cursor_returns_the_cluster() {
    let mut buffer = Buffer::from("ae\u{301}\nz");
    assert_eq!(buffer.get_under_cursor(), "a");
    assert_eq!(buffer.grapheme_under_cursor(), Some("a".to_string()));
    buffer.move_cursor_horizontal(1);
    assert_eq!(buffer.get_under_cursor(), "e\u{301}");
    buffer.move_cursor_vertical(1);
    assert_eq!(buffer.get_under_cursor(), "z");
}

#[test]
fn grapheme_under_cursor_is_none_behind_the_row() {
    let mut buffer = Buffer::from("");
    assert_eq!(buffer.grapheme_under_cursor(), None);
    buffer.insert_under_cursor("ab");
    assert_eq!(buffer.cursor(), (2, 0));
    assert_eq!(buffer.grapheme_under_cursor(), None);
    buffer.move_cursor_horizontal(-1);
    assert_eq!(buffer.grapheme_under_cursor(), Some("b".to_string()));
}

#[test]
fn get_under_cursor_sees_a_cluster_across_pieces() {
    let mut buffer = Buffer::from("");
    buffer.insert("e", 0);
    buffer.insert("\u{301}", 1);
    assert_eq!(buffer.get_under_cursor(), "e\u{301}");
    assert_eq!(buffer.get(0), Some("e"));
}

#[test]
fn insert_under_cursor_moves_behind_the_text() {
    let mut buffer = Buffer::from("hello\nworld");
    buffer.move_cursor_vertical(1);
    buffer.move_cursor_horizontal(2);
    buffer.insert_under_cursor("XY");
    assert_eq!(buffer.to_string(), "hello\nwoXYrld");
    assert_eq!(buffer.cursor(), (4, 1));
    buffer.move_cursor_vertical(-1);
    assert_eq!(buffer.cursor(), (4, 0));
}

#[test]
fn insert_under_cursor_of_a_newline_opens_a_row() {
    let mut buffer = Buffer::from("hello");
    buffer.move_cursor_horizontal(2);
    buffer.insert_under_cursor("\n");
    assert_eq!(buffer.to_string(), "he\nllo");
    assert_eq!(buffer.cursor(), (0, 1));
    buffer.insert_under_cursor("a\nbc");
    assert_eq!(buffer.to_string(), "he\na\nbcllo");
    assert_eq!(buffer.cursor(), (2, 2));
}

#[test]
fn insert_under_cursor_of_a_combining_mark_stays_behind_the_cluster() {
    let mut buffer = Buffer::from("");
    buffer.insert_under_cursor("e");
    assert_eq!(buffer.cursor(), (1, 0));
    buffer.insert_under_cursor("\u{301}");
    assert_eq!(buffer.cursor(), (1, 0));
    assert_eq!(buffer.cursor_position_in_buffer(), 3);
    assert_eq!(buffer.to_string(), "e\u{301}");
}

#[test]
fn insert_under_cursor_of_nothing_keeps_the_text() {
    let mut buffer = Buffer::from("ab");
    buffer.move_cursor_horizontal(1);
    buffer.insert_under_cursor("");
    assert_eq!(buffer.to_string(), "ab");
    assert_eq!(buffer.cursor(), (1, 0));
}

#[test]
fn delete_under_cursor_takes_the_cluster_in_front() {
    let mut buffer = Buffer::from("ae\u{301}b");
    buffer.move_cursor_horizontal(2);
    buffer.delete_under_cursor();
    assert_eq!(buffer.to_string(), "ab");
    assert_eq!(buffer.cursor(), (1, 0));
    buffer.delete_under_cursor();
    assert_eq!(buffer.to_string(), "b");
    assert_eq!(buffer.cursor(), (0, 0));
}

#[test]
fn delete_under_cursor_at_the_start_of_the_text_does_nothing() {
    let mut buffer = Buffer::from("ab\ncd");
    let pieces = buffer.to_pieces();
    buffer.delete_under_cursor();
    assert_eq!(buffer.to_string(), "ab\ncd");
    assert_eq!(buffer.cursor(), (0, 0));
    assert_eq!(buffer.to_pieces(), pieces);
}

#[test]
fn delete_under_cursor_joins_two_rows() {
    let mut buffer = Buffer::from("ab\ncd");
    buffer.move_cursor_horizontal(1);
    buffer.move_cursor_vertical(1);
    buffer.move_cursor_horizontal(-1);
    assert_eq!(buffer.cursor(), (0, 1));
    buffer.delete_under_cursor();
    assert_eq!(buffer.to_string(), "abcd");
    assert_eq!(buffer.cursor(), (2, 0));
}

#[test]
fn delete_under_cursor_keeps_the_sticky_column_when_it_joins() {
    let mut buffer = Buffer::from("abcdef\n\nabcdef");
    buffer.move_cursor_horizontal(4);
    buffer.move_cursor_vertical(1);
    assert_eq!(buffer.cursor(), (0, 1));
    buffer.delete_under_cursor();
    assert_eq!(buffer.to_string(), "abcdef\nabcdef");
    assert_eq!(buffer.cursor(), (6, 0));
    buffer.move_cursor_vertical(1);
    assert_eq!(buffer.cursor(), (4, 1));
}

#[test]
fn delete_under_cursor_after_typing() {
    let mut buffer = Buffer::from("");
    buffer.insert_under_cursor("a");
    buffer.insert_under_cursor("b");
    buffer.insert_under_cursor("c");
    buffer.delete_under_cursor();
    assert_eq!(buffer.to_string(), "ab");
    assert_eq!(buffer.cursor(), (2, 0));
    buffer.insert_under_cursor("\n");
    buffer.delete_under_cursor();
    assert_eq!(buffer.to_string(), "ab");
    assert_eq!(buffer.cursor(), (2, 0));
}

#[test]
fn moves_never_leave_the_text() {
    let text = "ab\n\ncdef\ng";
    let rows: Vec<&str> = text.split('\n').collect();
    for dy in [-3i64, -1, 0, 1, 2, 7] {
        for dx in [-5i64, -1, 0, 1, 3, 9] {
            let mut buffer = Buffer::from(text);
            buffer.move_cursor_vertical(2);
            buffer.move_cursor_horizontal(2);
            buffer.move_cursor_vertical(dy);
            let (column, row) = buffer.cursor();
            assert!(row < rows.len());
            assert!(column <= rows[row].len());
            assert!(buffer.has_cursor_in_text());
            buffer.move_cursor_horizontal(dx);
            let (column, row) = buffer.cursor();
            assert!(row < rows.len());
            assert!(column <= rows[row].len());
            assert!(buffer.has_cursor_in_text());
        }
    }
}

#[test]
fn steps_follow_the_rules() {
    assert_eq!(horizontal_step(0, -1, 5), 0);
    assert_eq!(horizontal_step(3, -1, 5), 2);
    assert_eq!(horizontal_step(3, -7, 5), 0);
    assert_eq!(horizontal_step(3, 1, 5), 4);
    assert_eq!(horizontal_step(4, 1, 5), 4);
    assert_eq!(horizontal_step(5, 1, 5), 5);
    assert_eq!(horizontal_step(5, -1, 5), 4);
    assert_eq!(horizontal_step(1, 9, 5), 4);
    assert_eq!(horizontal_step(2, 0, 5), 2);
    assert_eq!(horizontal_step(0, 1, 0), 0);
    assert_eq!(horizontal_step(0, 1, 1), 0);
    assert_eq!(vertical_step(0, -1, 3), 0);
    assert_eq!(vertical_step(1, 1, 3), 2);
    assert_eq!(vertical_step(3, 1, 3), 3);
    assert_eq!(vertical_step(1, 9, 3), 3);
    assert_eq!(vertical_step(9, 0, 3), 3);
    assert_eq!(vertical_step(9, -2, 3), 3);
    assert_eq!(vertical_step(2, -1, 3), 1);
    assert_eq!(settle(4, 0), 0);
    assert_eq!(settle(4, 3), 2);
    assert_eq!(settle(1, 3), 1);
    assert_eq!(settle(2, 3), 2);
}

#[test]
fn columns_and_offsets() {
    let lens = vec![1usize, 3, 8, 1];
    assert_eq!(offset_of_column(&lens, 0), 0);
    assert_eq!(offset_of_column(&lens, 1), 1);
    assert_eq!(offset_of_column(&lens, 2), 4);
    assert_eq!(offset_of_column(&lens, 3), 12);
    assert_eq!(offset_of_column(&lens, 4), 13);
    assert_eq!(offset_of_column(&lens, 9), 13);
    assert_eq!(column_of_offset(&lens, 0), 0);
    assert_eq!(column_of_offset(&lens, 1), 1);
    assert_eq!(column_of_offset(&lens, 2), 2);
    assert_eq!(column_of_offset(&lens, 4), 2);
    assert_eq!(column_of_offset(&lens, 5), 3);
    assert_eq!(column_of_offset(&lens, 12), 3);
    assert_eq!(column_of_offset(&lens, 13), 4);
    assert_eq!(column_of_offset(&lens, 99), 4);
    assert_eq!(column_of_offset(&Vec::new(), 3), 0);
    for column in 0..=lens.len() {
        assert_eq!(column_of_offset(&lens, offset_of_column(&lens, column)), column);
    }
}

#[test]
fn rows_are_found_by_number_and_by_offset() {
    let text = b"ab\n\ncdef\n";
    assert_eq!(line_end(text, 0), 2);
    assert_eq!(line_end(text, 3), 3);
    assert_eq!(line_end(text, 5), 8);
    assert_eq!(line_end(text, 9), 9);
    assert_eq!(find_row(text, 0), (0, 0, 2));
    assert_eq!(find_row(text, 1), (1, 3, 3));
    assert_eq!(find_row(text, 2), (2, 4, 8));
    assert_eq!(find_row(text, 3), (3, 9, 9));
    assert_eq!(find_row(text, 4), (3, 9, 9));
    assert_eq!(find_row(text, usize::MAX), (3, 9, 9));
    assert_eq!(find_row(b"", 0), (0, 0, 0));
    assert_eq!(find_row(b"", 5), (0, 0, 0));
    assert_eq!(find_row_of(text, 0), (0, 0, 2));
    assert_eq!(find_row_of(text, 2), (0, 0, 2));
    assert_eq!(find_row_of(text, 3), (1, 3, 3));
    assert_eq!(find_row_of(text, 4), (2, 4, 8));
    assert_eq!(find_row_of(text, 8), (2, 4, 8));
    assert_eq!(find_row_of(text, 9), (3, 9, 9));
}

#[test]
fn clusters_are_measured_in_bytes() {
    assert_eq!(cluster_lengths(b""), Some(vec![]));
    assert_eq!(cluster_lengths(b"abc"), Some(vec![1, 1, 1]));
    assert_eq!(cluster_lengths("e\u{301}\r\nb\u{1F1F7}\u{1F1FA}".as_bytes()), Some(vec![3, 2, 1, 8]));
    assert_eq!(cluster_lengths(&[0xc3]), None);
    assert_eq!(cluster_lengths(&[b'a', 0xff]), None);
    let (row, start, end, lens) = row_layout("x\ne\u{301}y\nz".as_bytes(), 1);
    assert_eq!((row, start, end), (1, 2, 6));
    assert_eq!(lens, vec![3, 1]);
}

#[test]
fn a_cursor_can_be_left_behind_by_an_edit() {
    let mut buffer = Buffer::from("abc\ndef");
    buffer.move_cursor_vertical(1);
    buffer.move_cursor_horizontal(2);
    assert!(buffer.has_cursor_in_text());
    assert!(buffer.has_cursor_row());
    buffer.erase(5, 2);
    assert_eq!(buffer.to_string(), "abc\nd");
    assert_eq!(buffer.cursor(), (2, 1));
    assert!(!buffer.has_cursor_in_text());
    assert!(buffer.has_cursor_row());
    buffer.move_cursor_horizontal(1);
    assert_eq!(buffer.cursor(), (2, 1));
    buffer.move_cursor_horizontal(-1);
    assert_eq!(buffer.cursor(), (1, 1));
    assert!(buffer.has_cursor_in_text());
    buffer.erase(3, 2);
    assert_eq!(buffer.to_string(), "abc");
    assert!(!buffer.has_cursor_row());
    assert!(!buffer.has_cursor_in_text());
    buffer.move_cursor_horizontal(1);
    assert_eq!(buffer.cursor(), (1, 1));
    buffer.move_cursor_vertical(0);
    assert_eq!(buffer.cursor(), (1, 0));
    assert!(buffer.has_cursor_in_text());
}
