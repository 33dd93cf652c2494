use piecetext::buffer::Buffer;
use piecetext::line_separator::LineSeparatorFormat;
use piecetext::piece::{Piece, PieceSource};

fn piece_lengths(buffer: &Buffer) -> usize {
    buffer.to_pieces().iter().map(|piece| piece.length).sum()
}

fn assert_arena_invariant(buffer: &Buffer) {
    let pieces = buffer.to_pieces();
    assert!(pieces.iter().all(|piece| piece.length > 0));
    assert_eq!(piece_lengths(buffer), buffer.to_bytes().len());
    assert_eq!(buffer.len(), buffer.to_bytes().len());
}

#[test]
fn should_insert_at_start_of_line() {
    let mut buffer = Buffer::from("");
    buffer.insert_under_cursor("a");
    buffer.insert_under_cursor("b");
    buffer.insert_under_cursor("c");
    assert_eq!("abc", buffer.to_string());
}

#[test]
fn round_trip_keeps_text() {
    for text in ["", "a", "hello\nworld", "caf\u{e9}", "a\r\nb\r\n", "e\u{301}\n\u{1F1F7}\u{1F1FA}"] {
        let buffer = Buffer::from(text);
        assert_eq!(buffer.to_string(), text);
        assert_eq!(buffer.as_string(), text);
        assert_eq!(buffer.to_bytes(), text.as_bytes());
        assert_eq!(buffer.len(), text.len());
        assert!(buffer.holds_text());
    }
}

#[test]
fn from_makes_one_piece_over_the_original() {
    let buffer = Buffer::from("hello");
    assert_eq!(
        buffer.to_pieces(),
        vec![Piece { start: 0, length: 5, source: PieceSource::Original }]
    );
    assert_eq!(buffer.cursor(), (0, 0));
}

#[test]
fn from_empty_text_makes_no_piece() {
    let buffer = Buffer::from("");
    assert!(buffer.to_pieces().is_empty());
    assert_eq!(buffer.len(), 0);
    assert_eq!(buffer.to_string(), "");
}

#[test]
fn inserts_build_abc() {
    let mut buffer = Buffer::from("");
    buffer.insert("a", 0);
    buffer.insert("b", 1);
    buffer.insert("c", 2);
    assert_eq!(buffer.to_string(), "abc");
    assert_arena_invariant(&buffer);
}

#[test]
fn insert_puts_text_between_the_halves() {
    let text = "hello world";
    for position in 0..=text.len() {
        let mut buffer = Buffer::from(text);
        buffer.insert("<>", position);
        let expected = format!("{}<>{}", &text[..position], &text[position..]);
        assert_eq!(buffer.to_string(), expected);
        assert_arena_invariant(&buffer);
    }
}

#[test]
fn insert_splits_the_piece_it_lands_in() {
    let mut buffer = Buffer::from("abcd");
    buffer.insert("XY", 2);
    assert_eq!(
        buffer.to_pieces(),
        vec![
            Piece { start: 0, length: 2, source: PieceSource::Original },
            Piece { start: 0, length: 2, source: PieceSource::Append },
            Piece { start: 2, length: 2, source: PieceSource::Original },
        ]
    );
}

#[test]
fn insert_at_a_piece_end_splits_nothing() {
    let mut buffer = Buffer::from("ab");
    buffer.insert("cd", 2);
    buffer.insert("ef", 2);
    assert_eq!(buffer.to_string(), "abefcd");
    assert_eq!(
        buffer.to_pieces(),
        vec![
            Piece { start: 0, length: 2, source: PieceSource::Original },
            Piece { start: 2, length: 2, source: PieceSource::Append },
            Piece { start: 0, length: 2, source: PieceSource::Append },
        ]
    );
}

#[test]
fn insert_of_nothing_changes_nothing() {
    let mut buffer = Buffer::from("hello");
    buffer.insert("X", 2);
    let pieces = buffer.to_pieces();
    for position in 0..=buffer.len() {
        buffer.insert("", position);
        assert_eq!(buffer.to_string(), "heXllo");
        assert_eq!(buffer.to_pieces(), pieces);
    }
}

#[test]
fn insert_leaves_the_cursor_alone() {
    let mut buffer = Buffer::from("hello\nworld");
    buffer.move_cursor_vertical(1);
    buffer.move_cursor_horizontal(3);
    buffer.insert("xx", 0);
    assert_eq!(buffer.cursor(), (3, 1));
}

#[test]
fn remove_takes_a_two_byte_character() {
    let mut buffer = Buffer::from("caf\u{e9}");
    buffer.remove(3);
    assert_eq!(buffer.to_string(), "caf");
    assert_arena_invariant(&buffer);
}

#[test]
fn remove_takes_a_cluster_that_two_inserts_built() {
    let mut buffer = Buffer::from("");
    buffer.insert("e", 0);
    buffer.insert("\u{301}", 1);
    assert_eq!(buffer.to_pieces().len(), 2);
    assert_eq!(buffer.to_string(), "e\u{301}");
    buffer.remove(0);
    assert_eq!(buffer.to_string(), "");
    assert!(buffer.to_pieces().is_empty());
}

#[test]
fn remove_takes_a_cluster_out_of_the_middle() {
    let mut buffer = Buffer::from("xy");
    buffer.insert("e", 1);
    buffer.insert("\u{301}", 2);
    assert_eq!(buffer.to_string(), "xe\u{301}y");
    buffer.remove(1);
    assert_eq!(buffer.to_string(), "xy");
    assert_arena_invariant(&buffer);
}

#[test]
fn remove_takes_one_ascii_character_at_each_place() {
    let text = "hello";
    for position in 0..text.len() {
        let mut buffer = Buffer::from(text);
        buffer.remove(position);
        let expected = format!("{}{}", &text[..position], &text[position + 1..]);
        assert_eq!(buffer.to_string(), expected);
        assert_arena_invariant(&buffer);
    }
}

#[test]
fn remove_takes_carriage_return_and_newline_together() {
    let mut buffer = Buffer::from("a\r\nb");
    buffer.remove(1);
    assert_eq!(buffer.to_string(), "ab");
}

#[test]
fn remove_splits_the_piece_and_reuses_its_slot() {
    let mut buffer = Buffer::from("abcd");
    buffer.remove(1);
    assert_eq!(
        buffer.to_pieces(),
        vec![
            Piece { start: 0, length: 1, source: PieceSource::Original },
            Piece { start: 2, length: 2, source: PieceSource::Original },
        ]
    );
}

#[test]
fn erase_runs_over_piece_ends() {
    let mut buffer = Buffer::from("abcdef");
    buffer.insert("123", 3);
    buffer.insert("xyz", 6);
    assert_eq!(buffer.to_string(), "abc123xyzdef");
    buffer.erase(2, 8);
    assert_eq!(buffer.to_string(), "abef");
    assert_arena_invariant(&buffer);
    buffer.erase(0, 4);
    assert_eq!(buffer.to_string(), "");
    assert!(buffer.to_pieces().is_empty());
}

#[test]
fn erase_of_nothing_changes_nothing() {
    let mut buffer = Buffer::from("abc");
    let pieces = buffer.to_pieces();
    buffer.erase(3, 0);
    buffer.erase(0, 0);
    assert_eq!(buffer.to_string(), "abc");
    assert_eq!(buffer.to_pieces(), pieces);
}

#[test]
fn edits_keep_the_arena_invariant() {
    let mut buffer = Buffer::from("one\ntwo\nthree");
    buffer.insert("A", 0);
    assert_arena_invariant(&buffer);
    buffer.insert("BB", 5);
    assert_arena_invariant(&buffer);
    buffer.remove(2);
    assert_arena_invariant(&buffer);
    buffer.insert("", 1);
    assert_arena_invariant(&buffer);
    buffer.remove(0);
    assert_arena_invariant(&buffer);
    buffer.insert("CCC", buffer.len());
    assert_arena_invariant(&buffer);
    assert_eq!(buffer.to_string(), "oe\nBBtwo\nthreeCCC");
}

#[test]
fn insert_inside_a_character_leaves_no_text() {
    let mut buffer = Buffer::from("\u{e9}");
    buffer.insert("a", 1);
    assert!(!buffer.holds_text());
    assert_eq!(buffer.to_bytes(), vec![0xc3, b'a', 0xa9]);
    assert_eq!(buffer.grapheme_under_cursor(), None);
}

#[test]
fn get_finds_the_character_at_an_offset() {
    let buffer = Buffer::from("hello");
    assert_eq!(buffer.get(0), Some("h"));
    assert_eq!(buffer.get(4), Some("o"));
    assert_eq!(buffer.get(5), None);
    assert_eq!(buffer.get(100), None);
}

#[test]
fn get_counts_within_the_piece_of_the_offset() {
    let mut buffer = Buffer::from("abcd");
    buffer.insert("XY", 2);
    assert_eq!(buffer.get(1), Some("b"));
    assert_eq!(buffer.get(2), Some("X"));
    assert_eq!(buffer.get(3), Some("Y"));
    assert_eq!(buffer.get(5), Some("d"));
    assert_eq!(buffer.get(6), None);
}

#[test]
fn get_counts_clusters_not_bytes() {
    let buffer = Buffer::from("e\u{301}x");
    assert_eq!(buffer.get(0), Some("e\u{301}"));
    assert_eq!(buffer.get(1), Some("x"));
    assert_eq!(buffer.get(2), None);
    assert_eq!(buffer.get(3), None);
}

#[test]
fn get_finds_nothing_in_a_piece_that_is_no_text() {
    let mut buffer = Buffer::from("\u{e9}");
    buffer.insert("a", 1);
    assert_eq!(buffer.get(0), None);
    assert_eq!(buffer.get(1), Some("a"));
    assert_eq!(buffer.get(2), None);
}

#[test]
fn line_separator_is_found_at_creation() {
    assert_eq!(Buffer::from("a\nb\nc").line_separator_format(), LineSeparatorFormat::UNIX);
    assert_eq!(Buffer::from("a\r\nb\r\nc").line_separator_format(), LineSeparatorFormat::DOS);
    assert_eq!(Buffer::from("a\r\nb\nc").line_separator_format(), LineSeparatorFormat::UNIX);
    assert_eq!(Buffer::from("\nb").line_separator_format(), LineSeparatorFormat::UNIX);
    assert_eq!(Buffer::from("abc").line_separator_format(), LineSeparatorFormat::DOS);
    assert_eq!(Buffer::from("").line_separator_format(), LineSeparatorFormat::DOS);
    assert_eq!(Buffer::from("a\r\nb\r").line_separator_format(), LineSeparatorFormat::DOS);
}

#[test]
fn line_separator_is_kept_through_edits() {
    let mut buffer = Buffer::from("a\r\nb");
    buffer.insert("x\ny", 0);
    assert_eq!(buffer.line_separator_format(), LineSeparatorFormat::DOS);
    assert_eq!(buffer.to_string(), "x\nya\r\nb");
}

#[test]
fn separators_and_names() {
    assert_eq!(LineSeparatorFormat::UNIX.separator(), "\n");
    assert_eq!(LineSeparatorFormat::DOS.separator(), "\r\n");
    assert_eq!(LineSeparatorFormat::UNIX.name(), "UNIX");
    assert_eq!(LineSeparatorFormat::DOS.name(), "DOS");
    assert_eq!(LineSeparatorFormat::detect(b"a\r\nb"), LineSeparatorFormat::DOS);
    assert_eq!(LineSeparatorFormat::detect(b"a\nb"), LineSeparatorFormat::UNIX);
}
