//! A piece-table text buffer with a grapheme-aware cursor, and a modal
//! editor on top of it.
//!
//! The logical text is the concatenation of byte ranges ("pieces") taken from
//! two stores: the text the buffer was created from, which never changes, and
//! an append-only log of everything inserted since. The pieces live in an
//! index-linked arena. On top of the text sits a cursor that moves in rows and
//! grapheme columns. The editor turns keys into moves and edits.

pub mod bindings;
pub mod buffer;
pub mod cursor;
pub mod editor;
pub mod keys;
pub mod laws;
pub mod line_separator;
pub mod piece;
pub mod piece_list;
pub mod rows;
pub mod segment;
pub mod table;
