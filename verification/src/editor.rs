//! Modal editing on top of the buffer: which keys do what in which mode.
//!
//! The editor decides and edits; it reads no keyboard, shows nothing and
//! touches no file. Keys come in through `handle_input`, and what only the
//! surrounding program can do comes back from it as a `Request`.

use vstd::prelude::*;
use vstd::string::StringExecFns;
use vstd::utf8::*;
use crate::buffer::Buffer;
use crate::keys::spells;
use crate::rows::{lemma_rows_nonempty, rows};
use crate::segment::{clusters, offset_of};

verus! {

/// The two modes of the editor.
#[derive(Clone, Copy, Debug, PartialEq, Eq, Structural)]
pub enum Mode {
    /// Keys are commands.
    NORMAL,
    /// Keys are text.
    INSERT,
}

/// What the editor has to know of the window.
#[derive(Clone, Copy, Debug)]
pub struct DisplayInformation {
    pub window_height_in_characters: usize,
}

/// What an input leaves for the surrounding program to do.
#[derive(Clone, Copy, Debug, PartialEq, Eq, Structural)]
pub enum Request {
    /// Nothing.
    Nothing,
    /// A command has moved the cursor, or tried to: let it blink anew.
    CursorMoved,
    /// Say that `dd` was typed.
    Announce,
    /// Write the text to the file being edited.
    Save,
    /// Ask for a file and load it.
    Open,
}

/// The time, in nanoseconds, for which keys typed so far wait for more.
pub const MATCHING_INPUT_TIMEOUT: u128 = 1_000_000_000;

/// An editor: a buffer, a mode, the first row shown, and the keys typed so
/// far that are not a command yet.
pub struct Editor {
    pub mode: Mode,
    pub buffer: Buffer,
    pub y_render_offset: usize,
    pub editing_file_path: String,
    pub current_display_info: DisplayInformation,
    pub matching_input: String,
    /// Nanoseconds left until `matching_input` is forgotten.
    pub matching_input_timeout: u128,
}

/// The first row shown after a vertical move by `y` that has brought the
/// cursor to row `row`, in a window of `height` rows whose first row was
/// `offset`. The window follows a move downwards once the cursor is within
/// seven rows of its end, and a move upwards once the cursor is within five
/// rows of its start, unless that would take it above the first row.
pub open spec fn scrolled(offset: int, y: int, row: int, height: int) -> int {
    if y > 0 && row > offset + height - 7 {
        if offset + y > usize::MAX {
            usize::MAX as int
        } else {
            offset + y
        }
    } else if y < 0 && row < offset + 5 && offset + y >= 0 {
        offset + y
    } else {
        offset
    }
}

/// The cluster is a space or a newline.
pub open spec fn is_blank(cluster: Seq<char>) -> bool {
    cluster == " "@ || cluster == "\n"@
}

/// The characters of cluster `column` of `row`.
pub open spec fn cluster_chars(row: Seq<u8>, column: int) -> Seq<char> {
    decode_utf8(row.subrange(offset_of(clusters(row), column), offset_of(clusters(row), column + 1)))
}

/// Where the word-end motion takes a cursor that stands in column `column`
/// of `row`. From a blank it steps back one column; otherwise it goes
/// right until it stands on a blank, and then steps back, or until it stands
/// on the last cluster of the row. A cursor that stands on no cluster stays.
pub open spec fn word_end(row: Seq<u8>, column: int) -> int
    decreases clusters(row).len() - column,
{
    if column < 0 || column >= clusters(row).len() {
        column
    } else if is_blank(cluster_chars(row, column)) {
        if column == 0 {
            0
        } else {
            column - 1
        }
    } else if column + 1 >= clusters(row).len() {
        column
    } else {
        word_end(row, column + 1)
    }
}

/// Whether the word-end motion makes any step from column `column` of `row`.
pub open spec fn word_end_steps(row: Seq<u8>, column: int) -> bool {
    &&& 0 <= column < clusters(row).len()
    &&& if is_blank(cluster_chars(row, column)) {
        column > 0
    } else {
        column + 1 < clusters(row).len()
    }
}

impl Editor {
    /// The buffer is well-formed, holds text, and has the row of the cursor.
    pub open spec fn wf(&self) -> bool {
        &&& self.buffer.wf()
        &&& valid_utf8(self.buffer@)
        &&& self.buffer.row() < self.buffer.num_rows()
    }

    /// `self` differs from `before` in the buffer at most.
    pub open spec fn same_but_buffer(&self, before: &Editor) -> bool {
        &&& self.mode == before.mode
        &&& self.y_render_offset == before.y_render_offset
        &&& self.editing_file_path == before.editing_file_path
        &&& self.current_display_info == before.current_display_info
        &&& self.matching_input == before.matching_input
        &&& self.matching_input_timeout == before.matching_input_timeout
    }

    /// `self` is what the word-end motion makes of `before`.
    pub open spec fn at_word_end(&self, before: &Editor) -> bool {
        let row = rows(before.buffer@)[before.buffer.row()];
        &&& self.buffer.same_text(&before.buffer)
        &&& self.buffer.row() == before.buffer.row()
        &&& self.buffer.column() == word_end(row, before.buffer.column())
        &&& self.buffer.sticky_column() == if word_end_steps(row, before.buffer.column()) {
            self.buffer.column()
        } else {
            before.buffer.sticky_column()
        }
    }

    /// `self` is what a command in normal mode makes of `before`, where
    /// `typed` are the keys typed so far, the last one included, and
    /// `request` is what is handed back. The keys `i a h l k j e dd`, space
    /// and `s`, and two spaces are commands, and are forgotten once they have
    /// been carried out; other keys are kept to wait for more. The commands
    /// that move the cursor hand back `CursorMoved`.
    pub open spec fn normal_outcome(&self, before: &Editor, typed: Seq<char>, request: Request) -> bool {
        let forgotten = self.matching_input@ == Seq::<char>::empty();
        let stays = self.y_render_offset == before.y_render_offset;
        if typed == "i"@ {
            &&& self.mode == Mode::INSERT
            &&& self.buffer == before.buffer
            &&& stays
            &&& forgotten
            &&& request == Request::Nothing
        } else if typed == "a"@ {
            &&& self.mode == Mode::INSERT
            &&& self.buffer.stepped_horizontally(&before.buffer, 1)
            &&& stays
            &&& forgotten
            &&& request == Request::CursorMoved
        } else if typed == "h"@ || typed == "l"@ {
            &&& self.mode == before.mode
            &&& self.buffer.stepped_horizontally(
                &before.buffer,
                if typed == "h"@ {
                    -1
                } else {
                    1
                },
            )
            &&& stays
            &&& forgotten
            &&& request == Request::CursorMoved
        } else if typed == "k"@ || typed == "j"@ {
            let y = if typed == "k"@ {
                -1
            } else {
                1
            };
            &&& self.mode == before.mode
            &&& self.buffer.stepped_vertically(&before.buffer, y)
            &&& self.y_render_offset == scrolled(
                before.y_render_offset as int,
                y,
                self.buffer.row(),
                self.current_display_info.window_height_in_characters as int,
            )
            &&& forgotten
            &&& request == Request::CursorMoved
        } else if typed == "e"@ {
            &&& self.mode == before.mode
            &&& self.at_word_end(before)
            &&& stays
            &&& forgotten
            &&& request == Request::CursorMoved
        } else if typed == "dd"@ || typed == " s"@ || typed == "  "@ {
            &&& self.mode == before.mode
            &&& self.buffer == before.buffer
            &&& stays
            &&& forgotten
            &&& request == if typed == "dd"@ {
                Request::Announce
            } else if typed == " s"@ {
                if before.editing_file_path@.len() == 0 {
                    Request::Nothing
                } else {
                    Request::Save
                }
            } else {
                Request::Open
            }
        } else {
            &&& self.mode == before.mode
            &&& self.buffer == before.buffer
            &&& stays
            &&& self.matching_input@ == typed
            &&& request == Request::Nothing
        }
    }

    /// `self` is what an input in insert mode makes of `before`, where
    /// `typed` are the keys typed so far, the last input `text` included.
    /// Backspace deletes backwards, escape leads back to normal mode, and
    /// return opens a row; any other input is inserted as it is if it is
    /// text, and kept to wait for more if it is not.
    pub open spec fn insert_outcome(
        &self,
        before: &Editor,
        typed: Seq<char>,
        text: Seq<char>,
        is_text_input: bool,
    ) -> bool {
        let forgotten = self.matching_input@ == Seq::<char>::empty();
        &&& self.y_render_offset == before.y_render_offset
        &&& if typed == "\x08"@ {
            &&& self.mode == before.mode
            &&& self.buffer.deleted_back(&before.buffer)
            &&& forgotten
        } else if typed == "\x1b"@ {
            &&& self.mode == Mode::NORMAL
            &&& self.buffer == before.buffer
            &&& forgotten
        } else if typed == "\n"@ || is_text_input {
            &&& self.mode == before.mode
            &&& self.buffer.typed_in(
                &before.buffer,
                if typed == "\n"@ {
                    "\n"@
                } else {
                    text
                },
            )
            &&& forgotten
        } else {
            &&& self.mode == before.mode
            &&& self.buffer == before.buffer
            &&& self.matching_input@ == typed
        }
    }

    /// An editor in normal mode over an empty text.
    pub fn new() -> (editor: Editor)
        ensures
            editor.wf(),
            editor.mode == Mode::NORMAL,
            editor.buffer.made_from(Seq::<char>::empty()),
            editor.buffer@ == Seq::<u8>::empty(),
            editor.y_render_offset == 0,
            editor.editing_file_path@ == Seq::<char>::empty(),
            editor.current_display_info.window_height_in_characters == 0,
            editor.matching_input@ == Seq::<char>::empty(),
            editor.matching_input_timeout == MATCHING_INPUT_TIMEOUT,
    {
        let buffer = Buffer::from("");
        proof {
            reveal_strlit("");
            assert(""@ =~= Seq::<char>::empty());
            encode_utf8_valid_utf8(""@);
            lemma_rows_nonempty(buffer@);
        }
        Editor {
            mode: Mode::NORMAL,
            buffer,
            y_render_offset: 0,
            editing_file_path: String::new(),
            current_display_info: DisplayInformation { window_height_in_characters: 0 },
            matching_input: String::new(),
            matching_input_timeout: MATCHING_INPUT_TIMEOUT,
        }
    }

    /// Whether the editor is in order; see [`Editor::wf`].
    pub fn is_sound(&self) -> (sound: bool)
        requires
            self.buffer.wf(),
        ensures
            sound == self.wf(),
    {
        self.buffer.holds_text() && self.buffer.has_cursor_row()
    }

    /// Puts the text of a file, and its path, in place of what was edited.
    /// The cursor goes to the start of the text.
    pub fn load(&mut self, path: String, text: &str)
        requires
            old(self).wf(),
        ensures
            final(self).wf(),
            final(self).buffer.made_from(text@),
            final(self).buffer@ == encode_utf8(text@),
            final(self).editing_file_path == path,
            final(self).mode == old(self).mode,
            final(self).y_render_offset == old(self).y_render_offset,
            final(self).current_display_info == old(self).current_display_info,
            final(self).matching_input == old(self).matching_input,
            final(self).matching_input_timeout == old(self).matching_input_timeout,
    {
        self.editing_file_path = path;
        self.buffer = Buffer::from(text);
        proof {
            encode_utf8_valid_utf8(text@);
            lemma_rows_nonempty(self.buffer@);
        }
    }

    /// Moves the cursor by `x` columns; see
    /// [`Buffer::move_cursor_horizontal`].
    pub fn move_cursor_horizontal(&mut self, x: i64)
        requires
            old(self).wf(),
        ensures
            final(self).wf(),
            final(self).buffer.stepped_horizontally(&old(self).buffer, x as int),
            final(self).same_but_buffer(old(self)),
    {
        self.buffer.move_cursor_horizontal(x);
    }

    /// Moves the cursor by `y` rows, see [`Buffer::move_cursor_vertical`],
    /// and lets the window follow it; see [`scrolled`].
    pub fn move_cursor_vertical(&mut self, y: i64)
        requires
            old(self).wf(),
        ensures
            final(self).wf(),
            final(self).buffer.stepped_vertically(&old(self).buffer, y as int),
            final(self).y_render_offset == scrolled(
                old(self).y_render_offset as int,
                y as int,
                final(self).buffer.row(),
                old(self).current_display_info.window_height_in_characters as int,
            ),
            final(self).mode == old(self).mode,
            final(self).editing_file_path == old(self).editing_file_path,
            final(self).current_display_info == old(self).current_display_info,
            final(self).matching_input == old(self).matching_input,
            final(self).matching_input_timeout == old(self).matching_input_timeout,
    {
        self.buffer.move_cursor_vertical(y);
        let (_, row) = self.buffer.cursor();
        let offset = self.y_render_offset as i128;
        let height = self.current_display_info.window_height_in_characters as i128;
        let by = y as i128;
        if by > 0 && row as i128 > offset + height - 7 {
            let target = offset + by;
            self.y_render_offset = if target > usize::MAX as i128 {
                usize::MAX
            } else {
                target as usize
            };
        } else if by < 0 && (row as i128) < offset + 5 && offset + by >= 0 {
            self.y_render_offset = (offset + by) as usize;
        }
    }

    /// Forgets the keys typed so far once they have waited longer than
    /// their time, and otherwise takes `delta` nanoseconds off that time.
    pub fn fade_matching_input(&mut self, delta: u128)
        ensures
            delta > old(self).matching_input_timeout ==> {
                &&& final(self).matching_input@ == Seq::<char>::empty()
                &&& final(self).matching_input_timeout == old(self).matching_input_timeout
            },
            delta <= old(self).matching_input_timeout ==> {
                &&& final(self).matching_input == old(self).matching_input
                &&& final(self).matching_input_timeout == old(self).matching_input_timeout - delta
            },
            final(self).mode == old(self).mode,
            final(self).buffer == old(self).buffer,
            final(self).y_render_offset == old(self).y_render_offset,
            final(self).editing_file_path == old(self).editing_file_path,
            final(self).current_display_info == old(self).current_display_info,
    {
        if delta > self.matching_input_timeout {
            self.matching_input = String::new();
        } else {
            self.matching_input_timeout = self.matching_input_timeout - delta;
        }
    }

    /// Takes one input: the keys `text`, which are typed text if
    /// `is_text_input` says so, in a window as `info` describes it. The
    /// input is added to the keys typed so far, which get their full time
    /// to wait again, and the mode decides what they do: see
    /// [`Editor::normal_outcome`] and [`Editor::insert_outcome`]. What is
    /// handed back is for the caller to do; in insert mode that is nothing.
    pub fn handle_input(&mut self, text: &str, is_text_input: bool, info: &DisplayInformation) -> (request:
        Request)
        requires
            old(self).wf(),
            old(self).buffer@.len() + encode_utf8(text@).len() < usize::MAX,
        ensures
            final(self).wf(),
            final(self).current_display_info == *info,
            final(self).matching_input_timeout == MATCHING_INPUT_TIMEOUT,
            final(self).editing_file_path == old(self).editing_file_path,
            match old(self).mode {
                Mode::NORMAL => final(self).normal_outcome(
                    old(self),
                    old(self).matching_input@ + text@,
                    request,
                ),
                Mode::INSERT => request == Request::Nothing && final(self).insert_outcome(
                    old(self),
                    old(self).matching_input@ + text@,
                    text@,
                    is_text_input,
                ),
            },
    {
        self.current_display_info = *info;
        self.matching_input.append(text);
        self.matching_input_timeout = MATCHING_INPUT_TIMEOUT;
        match self.mode {
            Mode::NORMAL => self.handle_input_in_normal_mode(Ghost(*old(self))),
            Mode::INSERT => {
                self.handle_input_in_insert_mode(text, is_text_input, Ghost(*old(self)));
                Request::Nothing
            },
        }
    }

    /// Carries out the command that the keys typed so far spell, if any.
    fn handle_input_in_normal_mode(&mut self, Ghost(before): Ghost<Editor>) -> (request: Request)
        requires
            old(self).wf(),
            old(self).mode == Mode::NORMAL,
            before.mode == old(self).mode,
            before.buffer == old(self).buffer,
            before.y_render_offset == old(self).y_render_offset,
            before.editing_file_path == old(self).editing_file_path,
        ensures
            final(self).wf(),
            final(self).current_display_info == old(self).current_display_info,
            final(self).matching_input_timeout == old(self).matching_input_timeout,
            final(self).editing_file_path == old(self).editing_file_path,
            final(self).normal_outcome(&before, old(self).matching_input@, request),
    {
        let mut request = Request::Nothing;
        let mut matched = true;
        if spells(self.matching_input.as_str(), "i") {
            self.mode = Mode::INSERT;
        } else if spells(self.matching_input.as_str(), "a") {
            self.move_cursor_horizontal(1);
            self.mode = Mode::INSERT;
            request = Request::CursorMoved;
        } else if spells(self.matching_input.as_str(), "h") {
            self.move_cursor_horizontal(-1);
            request = Request::CursorMoved;
        } else if spells(self.matching_input.as_str(), "l") {
            self.move_cursor_horizontal(1);
            request = Request::CursorMoved;
        } else if spells(self.matching_input.as_str(), "k") {
            self.move_cursor_vertical(-1);
            request = Request::CursorMoved;
        } else if spells(self.matching_input.as_str(), "j") {
            self.move_cursor_vertical(1);
            request = Request::CursorMoved;
        } else if spells(self.matching_input.as_str(), "e") {
            self.move_to_word_end();
            request = Request::CursorMoved;
        } else if spells(self.matching_input.as_str(), "dd") {
            request = Request::Announce;
        } else if spells(self.matching_input.as_str(), " s") {
            if !self.editing_file_path.as_str().is_empty() {
                request = Request::Save;
            }
        } else if spells(self.matching_input.as_str(), "  ") {
            request = Request::Open;
        } else {
            matched = false;
        }
        if matched {
            self.matching_input = String::new();
        }
        request
    }

    /// Carries out the insert-mode command that the keys typed so far spell,
    /// or inserts `input` if there is none and it is text.
    fn handle_input_in_insert_mode(
        &mut self,
        input: &str,
        is_text_input: bool,
        Ghost(before): Ghost<Editor>,
    )
        requires
            old(self).wf(),
            old(self).mode == Mode::INSERT,
            old(self).buffer@.len() + encode_utf8(input@).len() < usize::MAX,
            before.mode == old(self).mode,
            before.buffer == old(self).buffer,
            before.y_render_offset == old(self).y_render_offset,
        ensures
            final(self).wf(),
            final(self).current_display_info == old(self).current_display_info,
            final(self).matching_input_timeout == old(self).matching_input_timeout,
            final(self).editing_file_path == old(self).editing_file_path,
            final(self).insert_outcome(&before, old(self).matching_input@, input@, is_text_input),
    {
        let mut matched = true;
        if spells(self.matching_input.as_str(), "\x08") {
            self.buffer.delete_under_cursor();
        } else if spells(self.matching_input.as_str(), "\x1b") {
            self.mode = Mode::NORMAL;
        } else if spells(self.matching_input.as_str(), "\n") {
            proof {
                reveal_strlit("\n");
                assert(is_ascii_chars("\n"@));
                is_ascii_chars_encode_utf8("\n"@);
            }
            self.buffer.insert_under_cursor("\n");
        } else if is_text_input {
            self.buffer.insert_under_cursor(input);
        } else {
            matched = false;
        }
        if matched {
            self.matching_input = String::new();
        }
    }

    /// The word-end motion; see [`word_end`].
    fn move_to_word_end(&mut self)
        requires
            old(self).wf(),
        ensures
            final(self).wf(),
            final(self).at_word_end(old(self)),
            final(self).same_but_buffer(old(self)),
    {
        let ghost row = rows(self.buffer@)[self.buffer.row()];
        let ghost mut stepped = false;
        loop
            invariant
                self.wf(),
                self.same_but_buffer(old(self)),
                self.buffer.same_text(&old(self).buffer),
                self.buffer@ == old(self).buffer@,
                self.buffer.row() == old(self).buffer.row(),
                row == rows(self.buffer@)[self.buffer.row()],
                word_end(row, self.buffer.column()) == word_end(row, old(self).buffer.column()),
                stepped ==> word_end_steps(row, old(self).buffer.column()),
                stepped ==> self.buffer.sticky_column() == self.buffer.column(),
                !stepped ==> self.buffer.sticky_column() == old(self).buffer.sticky_column(),
                !stepped ==> self.buffer.column() == old(self).buffer.column(),
            decreases clusters(row).len() - self.buffer.column(),
        {
            match self.buffer.grapheme_under_cursor() {
                None => {
                    return ;
                },
                Some(cluster) => {
                    if spells(cluster.as_str(), " ") || spells(cluster.as_str(), "\n") {
                        self.buffer.move_cursor_horizontal(-1);
                        return ;
                    }
                    let (column, _) = self.buffer.cursor();
                    self.buffer.move_cursor_horizontal(1);
                    let (reached, _) = self.buffer.cursor();
                    if reached == column {
                        return ;
                    }
                    proof {
                        stepped = true;
                    }
                },
            }
        }
    }
}

} // verus!
