//! The piece-table buffer: the logical text, the operations that edit it,
//! and the cursor that moves in it.

use vstd::prelude::*;
use vstd::slice::slice_subrange;
use vstd::utf8::*;
use crate::cursor::{
    column_of, column_of_offset, horizontal_refused, horizontal_step, horizontal_target,
    lemma_column_at_bounds, lemma_offset_in_row, offset_of_column, row_layout, settle,
    settled_column, vertical_step, vertical_target,
};
use crate::line_separator::{format_of, LineSeparatorFormat};
use crate::piece::{Piece, PieceSource};
use crate::piece_list::{PieceList, Slots, SENTINEL};
use crate::rows::{
    find_row, find_row_of, lemma_newline_is_boundary, lemma_row_span, lemma_row_valid,
    lemma_rows_nonempty, row_end, row_of, row_start, rows,
};
use crate::segment::{
    cluster_len_at, cluster_lengths, clusters, lemma_cluster, lemma_first_cluster, offset_of,
};
use crate::table::{
    erased, flatten, inserted, lemma_erased, lemma_flatten_grow, lemma_flatten_len,
    lemma_flatten_one, lemma_flatten_replaced, lemma_inserted, lemma_piece_at,
    lemma_total_length_monotonic, lemma_total_length_take, lemma_within_take, part, piece_at,
    piece_bytes, pieces_nonempty, pieces_within, replaced, slots_erased, slots_inserted,
    store_of, total_length,
};

verus! {

/// An editable text with a cursor.
///
/// The text is kept as a list of pieces over two byte stores: `original`,
/// which holds the text the buffer was created from and never changes, and
/// `append`, to which inserted text is added and from which nothing is ever
/// taken away. The cursor is a row and a grapheme column within that row.
pub struct Buffer {
    original: Vec<u8>,
    append: Vec<u8>,
    pieces: PieceList,
    reminder_cursor_x: usize,
    cursor_x: usize,
    cursor_y: usize,
    line_separator_format: LineSeparatorFormat,
}

impl View for Buffer {
    type V = Seq<u8>;

    /// The logical text, as bytes.
    open spec fn view(&self) -> Seq<u8> {
        flatten(self.pieces(), self.original(), self.append())
    }
}

impl Buffer {
    /// The pieces of the table, in text order.
    pub closed spec fn pieces(&self) -> Seq<Piece> {
        self.pieces@
    }

    /// The slots of the arena in which the pieces are kept.
    pub closed spec fn slots(&self) -> Slots {
        self.pieces.slots()
    }

    /// The store of the text the buffer was created from.
    pub closed spec fn original(&self) -> Seq<u8> {
        self.original@
    }

    /// The store of inserted text.
    pub closed spec fn append(&self) -> Seq<u8> {
        self.append@
    }

    /// The state of the cursor: its row, its column, and the sticky column.
    pub closed spec fn cursor_state(&self) -> (nat, nat, nat) {
        (self.cursor_y as nat, self.cursor_x as nat, self.reminder_cursor_x as nat)
    }

    /// The row of the cursor.
    pub open spec fn row(&self) -> int {
        self.cursor_state().0 as int
    }

    /// The grapheme column of the cursor.
    pub open spec fn column(&self) -> int {
        self.cursor_state().1 as int
    }

    /// The column that vertical moves try to come back to.
    pub open spec fn sticky_column(&self) -> int {
        self.cursor_state().2 as int
    }

    /// The number of rows of the text.
    pub open spec fn num_rows(&self) -> int {
        rows(self@).len() as int
    }

    /// The number of grapheme clusters in row `r`.
    pub open spec fn row_len(&self, r: int) -> int {
        clusters(rows(self@)[r]).len() as int
    }

    /// The cursor stands in a row of the text, on one of its graphemes or
    /// behind the last.
    pub open spec fn cursor_in_text(&self) -> bool {
        &&& 0 <= self.row() < self.num_rows()
        &&& 0 <= self.column() <= self.row_len(self.row())
    }

    /// The byte offset of the cursor: the start of its row, and the lengths
    /// of the clusters of that row that lie in front of its column.
    pub open spec fn cursor_offset(&self) -> int {
        row_start(self@, self.row()) + offset_of(clusters(rows(self@)[self.row()]), self.column())
    }

    /// The bytes of the grapheme cluster on which the cursor stands.
    pub open spec fn bytes_under_cursor(&self) -> Seq<u8> {
        rows(self@)[self.row()].subrange(
            offset_of(clusters(rows(self@)[self.row()]), self.column()),
            offset_of(clusters(rows(self@)[self.row()]), self.column() + 1),
        )
    }

    /// The stretch of the text that `delete_under_cursor` takes out, as
    /// offset and length: the cluster in front of the cursor, where the
    /// cursor stands behind one (a column behind the end of the row counts as
    /// the end of the row); else the newline in front of the row, where
    /// there is one; else nothing.
    pub open spec fn span_before_cursor(&self) -> (int, int) {
        let lens = clusters(rows(self@)[self.row()]);
        let column = if self.column() < lens.len() {
            self.column()
        } else {
            lens.len() as int
        };
        if column > 0 {
            (row_start(self@, self.row()) + offset_of(lens, column - 1), lens[column - 1] as int)
        } else if self.row() > 0 {
            (row_start(self@, self.row()) - 1, 1)
        } else {
            (0, 0)
        }
    }

    /// What `get` finds for byte offset `idx`: the piece in which the offset
    /// lies is taken by itself, and of its clusters the one is returned whose
    /// number is the distance from the start of the piece to `idx`. There is
    /// none where the text is not that long, where the piece by itself is not
    /// well-formed UTF-8, or where it has no cluster of that number.
    pub open spec fn grapheme_in_piece(&self, idx: int) -> Option<Seq<u8>> {
        let k = piece_at(self.pieces(), idx);
        let slice = piece_bytes(self.pieces()[k], self.original(), self.append());
        let n = idx - total_length(self.pieces().take(k));
        if idx < 0 || idx >= self@.len() || !valid_utf8(slice) || n >= clusters(slice).len() {
            None
        } else {
            Some(slice.subrange(offset_of(clusters(slice), n), offset_of(clusters(slice), n + 1)))
        }
    }

    /// `self` is what a horizontal move by `x` makes of `before`: the same
    /// text, the same row, and the column that the step rule gives for the
    /// length of that row (a row that the text does not have counts as
    /// empty); the sticky column has followed the cursor unless the move was
    /// refused.
    pub open spec fn stepped_horizontally(&self, before: &Buffer, x: int) -> bool {
        let row_len = if before.row() < before.num_rows() {
            before.row_len(before.row())
        } else {
            0
        };
        &&& self.same_text(before)
        &&& self.row() == before.row()
        &&& self.column() == horizontal_target(before.column(), x, row_len)
        &&& self.sticky_column() == if horizontal_refused(before.column(), x, row_len) {
            before.sticky_column()
        } else {
            self.column()
        }
    }

    /// `self` is what a vertical move by `y` makes of `before`: the same
    /// text, the row that the step rule gives, the column in which the
    /// sticky column settles in that row, and the sticky column unchanged.
    pub open spec fn stepped_vertically(&self, before: &Buffer, y: int) -> bool {
        &&& self.same_text(before)
        &&& self.row() == vertical_target(before.row(), y, before.num_rows())
        &&& self.column() == settled_column(before.sticky_column(), before.row_len(self.row()))
        &&& self.sticky_column() == before.sticky_column()
    }

    /// `self` has the text of `before` and the cursor, with the sticky
    /// column, at byte offset `offset` of it.
    pub open spec fn placed_at(&self, before: &Buffer, offset: int) -> bool {
        &&& self.same_text(before)
        &&& self.row() == row_of(before@, offset)
        &&& self.column() == column_of(before@, offset)
        &&& self.sticky_column() == self.column()
    }

    /// `self` is a buffer as it is made from the characters `source`: their
    /// bytes are the original store, the log is empty, and one piece stands
    /// for all of the original store, in the first slot of the arena, unless
    /// `source` is empty, in which case there is no piece and no slot. The
    /// cursor stands at the start, and the line endings are those found in
    /// `source`.
    pub open spec fn made_from(&self, source: Seq<char>) -> bool {
        &&& self.original() == encode_utf8(source)
        &&& self.append() == Seq::<u8>::empty()
        &&& self.pieces() == if source.len() == 0 {
            Seq::<Piece>::empty()
        } else {
            seq![
                Piece {
                    start: 0,
                    length: encode_utf8(source).len() as usize,
                    source: PieceSource::Original,
                },
            ]
        }
        &&& self.slots() == if source.len() == 0 {
            Slots { order: Seq::empty(), spare: Seq::empty(), capacity: 0 }
        } else {
            Slots { order: seq![0usize], spare: Seq::empty(), capacity: 1 }
        }
        &&& self.row() == 0
        &&& self.column() == 0
        &&& self.sticky_column() == 0
        &&& self.format() == format_of(encode_utf8(source))
    }

    /// `self` has the text of `before` with the characters `text` inserted in
    /// front of byte offset `position`: the bytes of `text` have been added
    /// to the log, and a piece that stands for them has been laid into the
    /// piece table there (see [`inserted`] and [`slots_inserted`]). Nothing
    /// is different where `text` is empty. The cursor is not spoken of.
    pub open spec fn inserted_at(&self, before: &Buffer, text: Seq<char>, position: int) -> bool {
        let fresh = Piece {
            start: before.append().len() as usize,
            length: encode_utf8(text).len() as usize,
            source: PieceSource::Append,
        };
        &&& self@ == before@.subrange(0, position) + encode_utf8(text) + before@.subrange(
            position,
            before@.len() as int,
        )
        &&& self.original() == before.original()
        &&& self.append() == before.append() + encode_utf8(text)
        &&& self.format() == before.format()
        &&& self.pieces() == if text.len() == 0 {
            before.pieces()
        } else {
            inserted(before.pieces(), position, fresh)
        }
        &&& self.slots() == if text.len() == 0 {
            before.slots()
        } else {
            slots_inserted(before.slots(), before.pieces(), position, fresh)
        }
    }

    /// `self` has the text of `before` without the `length` bytes from byte
    /// offset `position` on: the stores are as they were, and the pieces that
    /// held those bytes have given way to what is left of them (see
    /// [`erased`] and [`slots_erased`]). The cursor is not spoken of.
    pub open spec fn erased_at(&self, before: &Buffer, position: int, length: int) -> bool {
        &&& self@ == before@.subrange(0, position) + before@.subrange(
            position + length,
            before@.len() as int,
        )
        &&& self.original() == before.original()
        &&& self.append() == before.append()
        &&& self.format() == before.format()
        &&& self.pieces() == erased(before.pieces(), position, length)
        &&& self.slots() == slots_erased(before.slots(), before.pieces(), position, length)
    }

    /// The cursor, with the sticky column, is where it is in `before`.
    pub open spec fn same_cursor(&self, before: &Buffer) -> bool {
        &&& self.row() == before.row()
        &&& self.column() == before.column()
        &&& self.sticky_column() == before.sticky_column()
    }

    /// `self` is what inserting the characters `text` at the cursor makes of
    /// `before`: the text with the new characters at the offset of the
    /// cursor, and the cursor, with the sticky column, behind them.
    pub open spec fn typed_in(&self, before: &Buffer, text: Seq<char>) -> bool {
        let position = before.cursor_offset();
        &&& self.inserted_at(before, text, position)
        &&& self.row() == row_of(self@, position + encode_utf8(text).len())
        &&& self.column() == column_of(self@, position + encode_utf8(text).len())
        &&& self.sticky_column() == self.column()
    }

    /// `self` is what deleting backwards from the cursor makes of `before`:
    /// the text without the stretch in front of the cursor (see
    /// [`Buffer::span_before_cursor`]) and the cursor where that stretch
    /// was; with the sticky column there too if a cluster was deleted, and
    /// where it was if two rows were joined. Where there was nothing to
    /// delete, nothing is different.
    pub open spec fn deleted_back(&self, before: &Buffer) -> bool {
        let (position, length) = before.span_before_cursor();
        &&& length > 0 ==> {
            &&& self.erased_at(before, position, length)
            &&& self.row() == row_of(self@, position)
            &&& self.column() == column_of(self@, position)
        }
        &&& length == 0 ==> {
            &&& self.same_text(before)
            &&& self.row() == before.row()
            &&& self.column() == before.column()
        }
        &&& self.sticky_column() == if length > 0 && position >= row_start(before@, before.row()) {
            self.column()
        } else {
            before.sticky_column()
        }
    }

    /// `self` and `other` hold the same pieces in the same slots over the
    /// same stores, so the same text; they may differ in their cursors.
    pub open spec fn same_text(&self, other: &Buffer) -> bool {
        &&& self.pieces() == other.pieces()
        &&& self.slots() == other.slots()
        &&& self.original() == other.original()
        &&& self.append() == other.append()
        &&& self.format() == other.format()
    }

    /// The line-ending convention found in the text the buffer was created
    /// from.
    pub closed spec fn format(&self) -> LineSeparatorFormat {
        self.line_separator_format
    }

    /// The invariant of the buffer: the arena is well-formed, no piece is
    /// empty, every piece lies within its store, and the text is no longer
    /// than a `usize` can say.
    pub closed spec fn wf(&self) -> bool {
        &&& self.shape_ok()
        &&& flatten(self.pieces@, self.original@, self.append@).len() <= usize::MAX
    }

    /// The arena is well-formed and every piece lies within its store.
    spec fn shape_ok(&self) -> bool {
        &&& self.pieces.wf()
        &&& pieces_within(self.pieces@, self.original@, self.append@)
    }

    /// Everything but the pieces is the same in `self` and `other`.
    spec fn same_but_pieces(&self, other: &Buffer) -> bool {
        &&& self.original@ == other.original@
        &&& self.append@ == other.append@
        &&& self.cursor_x == other.cursor_x
        &&& self.cursor_y == other.cursor_y
        &&& self.reminder_cursor_x == other.reminder_cursor_x
        &&& self.line_separator_format == other.line_separator_format
    }

    /// What the invariant says of the pieces: none is empty, each lies within
    /// its store, their lengths add up to the length of the text, and there
    /// is no piece at all exactly where the text is empty.
    pub proof fn lemma_pieces(&self)
        requires
            self.wf(),
        ensures
            pieces_nonempty(self.pieces()),
            pieces_within(self.pieces(), self.original(), self.append()),
            total_length(self.pieces()) == self@.len(),
            self@.len() <= usize::MAX,
            self@.len() == 0 <==> self.pieces().len() == 0,
    {
        self.pieces.lemma_wf_facts();
        lemma_flatten_len(self.pieces@, self.original@, self.append@);
        if self.pieces@.len() > 0 {
            lemma_total_length_take(self.pieces@, 1);
            lemma_total_length_monotonic(self.pieces@, 1);
            assert(self.pieces@.take(0) =~= Seq::<Piece>::empty());
        }
    }

    /// A buffer that holds `source`, with the cursor at the start of the
    /// text.
    pub fn from(source: &str) -> (buffer: Buffer)
        ensures
            buffer.wf(),
            buffer.made_from(source@),
            buffer@ == encode_utf8(source@),
            valid_utf8(buffer@),
            decode_utf8(buffer@) == source@,
    {
        let bytes = source.as_bytes();
        let line_separator_format = LineSeparatorFormat::detect(bytes);
        let mut original: Vec<u8> = Vec::new();
        let mut i: usize = 0;
        while i < bytes.len()
            invariant
                i <= bytes@.len(),
                original@ == bytes@.take(i as int),
            decreases bytes@.len() - i,
        {
            original.push(bytes[i]);
            i += 1;
            assert(original@ =~= bytes@.take(i as int));
        }
        assert(original@ =~= bytes@);
        let length = original.len();
        let pieces = if length == 0 {
            PieceList::empty()
        } else {
            PieceList::new(Piece { start: 0, length, source: PieceSource::Original })
        };
        let buffer = Buffer {
            original,
            append: Vec::new(),
            pieces,
            reminder_cursor_x: 0,
            cursor_x: 0,
            cursor_y: 0,
            line_separator_format,
        };
        proof {
            encode_utf8_valid_utf8(source@);
            encode_utf8_decode_utf8(source@);
            if length > 0 {
                let piece = Piece { start: 0, length, source: PieceSource::Original };
                lemma_flatten_one(piece, buffer.original@, buffer.append@);
                assert(piece_bytes(piece, buffer.original@, buffer.append@) =~= bytes@);
            } else {
                assert(encode_utf8(source@).len() == 0);
                assert(source@.len() == 0) by {
                    if source@.len() > 0 {
                        encode_utf8_first_scalar(source@);
                    }
                }
            }
            if source@.len() == 0 {
                reveal_with_fuel(encode_utf8, 1);
                assert(encode_utf8(source@) =~= Seq::<u8>::empty());
            }
        }
        buffer
    }

    /// The line-ending convention found in the text the buffer was created
    /// from.
    pub fn line_separator_format(&self) -> (format: LineSeparatorFormat)
        ensures
            format == self.format(),
    {
        self.line_separator_format
    }

    /// The store that a piece of the given source points into.
    fn store(&self, source: PieceSource) -> (store: &Vec<u8>)
        ensures
            store@ == match source {
                PieceSource::Original => self.original@,
                PieceSource::Append => self.append@,
            },
    {
        match source {
            PieceSource::Original => &self.original,
            PieceSource::Append => &self.append,
        }
    }

    /// The logical text, piece by piece.
    pub fn to_bytes(&self) -> (bytes: Vec<u8>)
        requires
            self.wf(),
        ensures
            bytes@ == self@,
    {
        let mut bytes: Vec<u8> = Vec::new();
        let mut slot = self.pieces.first();
        let ghost mut k: int = 0;
        proof {
            self.pieces.lemma_wf_facts();
            assert(self.pieces@.take(0) =~= Seq::<Piece>::empty());
        }
        while slot != SENTINEL
            invariant
                self.wf(),
                0 <= k <= self.pieces@.len(),
                slot == self.pieces.slot_at(k),
                bytes@ == flatten(self.pieces@.take(k), self.original@, self.append@),
            decreases self.pieces@.len() - k,
        {
            proof {
                self.pieces.lemma_wf_facts();
                self.pieces.lemma_position(k);
            }
            let piece = self.pieces.piece(slot);
            let store = self.store(piece.source);
            let ghost before = bytes@;
            let mut i: usize = 0;
            while i < piece.length
                invariant
                    i <= piece.length,
                    piece.start + piece.length <= store.len(),
                    bytes@ == before + store@.subrange(piece.start as int, piece.start + i),
                decreases piece.length - i,
            {
                bytes.push(store[piece.start + i]);
                i += 1;
                assert(bytes@ =~= before + store@.subrange(piece.start as int, piece.start + i));
            }
            proof {
                let upto = self.pieces@.take(k + 1);
                assert(upto.drop_last() =~= self.pieces@.take(k));
                assert(upto.last() == piece);
            }
            slot = self.pieces.next(slot);
            proof {
                k = k + 1;
            }
        }
        proof {
            self.pieces.lemma_wf_facts();
            assert(self.pieces@.take(k) =~= self.pieces@);
        }
        bytes
    }

    /// The pieces of the table, in text order.
    pub fn to_pieces(&self) -> (pieces: Vec<Piece>)
        requires
            self.wf(),
        ensures
            pieces@ == self.pieces(),
    {
        let mut pieces: Vec<Piece> = Vec::new();
        let mut walk = self.pieces.iter();
        loop
            invariant
                walk.wf(),
                pieces@ + walk.remaining() == self.pieces@,
            decreases walk.remaining().len(),
        {
            match walk.next() {
                Some(piece) => {
                    pieces.push(*piece);
                    assert(pieces@ + walk.remaining() =~= self.pieces@);
                },
                None => {
                    assert(pieces@ + walk.remaining() =~= pieces@);
                    return pieces;
                },
            }
        }
    }

    /// The length of the logical text in bytes.
    pub fn len(&self) -> (length: usize)
        requires
            self.wf(),
        ensures
            length == self@.len(),
    {
        let mut length: usize = 0;
        let mut slot = self.pieces.first();
        let ghost mut k: int = 0;
        proof {
            self.pieces.lemma_wf_facts();
            assert(self.pieces@.take(0) =~= Seq::<Piece>::empty());
            lemma_flatten_len(self.pieces@, self.original@, self.append@);
        }
        while slot != SENTINEL
            invariant
                self.wf(),
                0 <= k <= self.pieces@.len(),
                slot == self.pieces.slot_at(k),
                length == total_length(self.pieces@.take(k)),
                total_length(self.pieces@) <= usize::MAX,
            decreases self.pieces@.len() - k,
        {
            proof {
                self.pieces.lemma_wf_facts();
                self.pieces.lemma_position(k);
                lemma_total_length_take(self.pieces@, k + 1);
                lemma_total_length_monotonic(self.pieces@, k + 1);
            }
            let piece = self.pieces.piece(slot);
            length = length + piece.length;
            slot = self.pieces.next(slot);
            proof {
                k = k + 1;
            }
        }
        proof {
            self.pieces.lemma_wf_facts();
            assert(self.pieces@.take(k) =~= self.pieces@);
        }
        length
    }

    /// Whether the logical text is well-formed UTF-8.
    pub fn holds_text(&self) -> (valid: bool)
        requires
            self.wf(),
        ensures
            valid == valid_utf8(self@),
    {
        let bytes = self.to_bytes();
        core::str::from_utf8(bytes.as_slice()).is_ok()
    }

    /// The logical text as a string.
    pub fn to_string(&self) -> (text: String)
        requires
            self.wf(),
            valid_utf8(self@),
        ensures
            text@ == decode_utf8(self@),
            encode_utf8(text@) == self@,
    {
        let bytes = self.to_bytes();
        match core::str::from_utf8(bytes.as_slice()) {
            Ok(text) => {
                proof {
                    encode_utf8_decode_utf8(text@);
                }
                text.to_owned()
            },
            Err(_) => String::new(),
        }
    }

    /// The logical text as a string, for saving: the same as `to_string`.
    pub fn as_string(&self) -> (text: String)
        requires
            self.wf(),
            valid_utf8(self@),
        ensures
            text@ == decode_utf8(self@),
            encode_utf8(text@) == self@,
    {
        self.to_string()
    }

    /// The piece in which byte offset `position` lies, and the offset at
    /// which that piece starts. With `inclusive`, an offset at the end of a
    /// piece belongs to that piece, so that the first piece that reaches
    /// `position` is found; without, to the piece after it.
    fn locate(&self, position: usize, inclusive: bool) -> (found: (usize, usize))
        requires
            self.wf(),
            position <= self@.len(),
            self@.len() > 0,
            !inclusive ==> position < self@.len(),
        ensures
            self.pieces.linked(found.0),
            0 <= self.pieces.position(found.0) < self.pieces@.len(),
            found.1 == total_length(self.pieces@.take(self.pieces.position(found.0))),
            found.1 <= position <= found.1 + self.pieces@[self.pieces.position(found.0)].length,
            found.1 + self.pieces@[self.pieces.position(found.0)].length <= self@.len(),
            inclusive && self.pieces.position(found.0) > 0 ==> found.1 < position,
            !inclusive ==> position < found.1 + self.pieces@[self.pieces.position(found.0)].length,
    {
        let mut slot = self.pieces.first();
        let mut start: usize = 0;
        let ghost mut k: int = 0;
        proof {
            self.pieces.lemma_wf_facts();
            assert(self.pieces@.take(0) =~= Seq::<Piece>::empty());
        }
        loop
            invariant
                self.wf(),
                position <= self@.len(),
                !inclusive ==> position < self@.len(),
                0 <= k < self.pieces@.len(),
                slot == self.pieces.slot_at(k),
                start == total_length(self.pieces@.take(k)),
                start <= position,
                inclusive && k > 0 ==> start < position,
            decreases self.pieces@.len() - k,
        {
            proof {
                self.pieces.lemma_wf_facts();
                self.pieces.lemma_position(k);
                lemma_total_length_take(self.pieces@, k + 1);
                lemma_total_length_monotonic(self.pieces@, k + 1);
                lemma_flatten_len(self.pieces@, self.original@, self.append@);
                if k + 1 == self.pieces@.len() {
                    assert(self.pieces@.take(k + 1) =~= self.pieces@);
                }
            }
            let piece = self.pieces.piece(slot);
            let end = start + piece.length;
            if position < end || (inclusive && position == end) {
                return (slot, start);
            }
            slot = self.pieces.next(slot);
            start = end;
            proof {
                k = k + 1;
            }
        }
    }

    /// Inserts `text` in front of byte offset `position` of the logical text.
    /// Nothing at all changes if `text` is empty. The cursor stays where it
    /// was.
    pub fn insert(&mut self, text: &str, position: usize)
        requires
            old(self).wf(),
            position <= old(self)@.len(),
            old(self)@.len() + encode_utf8(text@).len() <= usize::MAX,
        ensures
            final(self).wf(),
            final(self).inserted_at(old(self), text@, position as int),
            final(self).same_cursor(old(self)),
            text@.len() == 0 ==> final(self)@ == old(self)@ && final(self).append() == old(
                self,
            ).append(),
    {
        let bytes = text.as_bytes();
        let length = bytes.len();
        let ghost before = self@;
        if length == 0 {
            proof {
                assert(text@.len() == 0) by {
                    if text@.len() > 0 {
                        encode_utf8_first_scalar(text@);
                    }
                }
                assert(before.subrange(0, position as int) + bytes@ + before.subrange(
                    position as int,
                    before.len() as int,
                ) =~= before);
                assert(self.append@ + bytes@ =~= self.append@);
            }
            return ;
        }
        assert(text@.len() > 0) by {
            if text@.len() == 0 {
                reveal_with_fuel(encode_utf8, 1);
            }
        }
        let start = self.log(bytes);
        let fresh = Piece { start, length, source: PieceSource::Append };
        assert(piece_bytes(fresh, self.original@, self.append@) =~= bytes@);
        if self.pieces.first() == SENTINEL {
            proof {
                self.pieces.lemma_wf_facts();
                assert(self.pieces@ =~= Seq::<Piece>::empty());
                assert(before =~= Seq::<u8>::empty());
            }
            self.pieces.insert_before(SENTINEL, start, length, PieceSource::Append);
            proof {
                assert(self.pieces@ =~= seq![fresh]);
                lemma_flatten_one(fresh, self.original@, self.append@);
                assert(before.subrange(0, position as int) + bytes@ + before.subrange(
                    position as int,
                    before.len() as int,
                ) =~= bytes@);
            }
            return ;
        }
        proof {
            self.pieces.lemma_wf_facts();
            self.lemma_pieces();
        }
        let (slot, piece_start) = self.locate(position, true);
        proof {
            assert(self.original.len() == self.original@.len());
            lemma_inserted(
                self.pieces@,
                self.pieces.position(slot),
                position as int,
                fresh,
                self.original@,
                self.append@,
            );
        }
        self.split_piece(slot, position - piece_start, fresh, position - piece_start);
    }

    /// Adds `bytes` to the end of the log and returns the offset at which
    /// they begin there. The text stays as it is.
    fn log(&mut self, bytes: &[u8]) -> (start: usize)
        requires
            old(self).wf(),
        ensures
            final(self).wf(),
            final(self)@ == old(self)@,
            final(self).pieces == old(self).pieces,
            final(self).original@ == old(self).original@,
            final(self).append@ == old(self).append@ + bytes@,
            start == old(self).append@.len(),
            start + bytes@.len() <= usize::MAX,
            final(self).cursor_x == old(self).cursor_x,
            final(self).cursor_y == old(self).cursor_y,
            final(self).reminder_cursor_x == old(self).reminder_cursor_x,
            final(self).line_separator_format == old(self).line_separator_format,
    {
        let ghost log = self.append@;
        let start = self.append.len();
        let mut i: usize = 0;
        while i < bytes.len()
            invariant
                i <= bytes@.len(),
                self.append@ == log + bytes@.take(i as int),
                self.pieces == old(self).pieces,
                self.original == old(self).original,
                self.cursor_x == old(self).cursor_x,
                self.cursor_y == old(self).cursor_y,
                self.reminder_cursor_x == old(self).reminder_cursor_x,
                self.line_separator_format == old(self).line_separator_format,
            decreases bytes@.len() - i,
        {
            self.append.push(bytes[i]);
            i += 1;
            assert(self.append@ =~= log + bytes@.take(i as int));
        }
        proof {
            assert(bytes@.take(bytes@.len() as int) =~= bytes@);
            assert(self.append@.take(log.len() as int) =~= log);
            lemma_flatten_grow(self.pieces@, self.original@, log, self.append@);
            assert(self.append@.len() == self.append.len());
        }
        start
    }

    /// Takes the `length` bytes from byte offset `position` on out of the
    /// logical text, whichever pieces they lie in. The cursor stays where it
    /// was.
    pub fn erase(&mut self, position: usize, length: usize)
        requires
            old(self).wf(),
            position + length <= old(self)@.len(),
        ensures
            final(self).wf(),
            final(self).erased_at(old(self), position as int, length as int),
            final(self).same_cursor(old(self)),
    {
        let ghost before = self@;
        let mut remaining: usize = length;
        assert(before.subrange(0, position as int) + before.subrange(
            position + length - remaining,
            before.len() as int,
        ) =~= before);
        while remaining > 0
            invariant
                self.wf(),
                self.same_but_pieces(old(self)),
                remaining <= length,
                position + length <= before.len(),
                before == old(self)@,
                self@ == before.subrange(0, position as int) + before.subrange(
                    position + length - remaining,
                    before.len() as int,
                ),
                erased(self.pieces@, position as int, remaining as int) == erased(
                    old(self).pieces@,
                    position as int,
                    length as int,
                ),
                slots_erased(
                    self.pieces.slots(),
                    self.pieces@,
                    position as int,
                    remaining as int,
                ) == slots_erased(
                    old(self).pieces.slots(),
                    old(self).pieces@,
                    position as int,
                    length as int,
                ),
            decreases remaining,
        {
            let cut = self.erase_within_piece(position, remaining);
            remaining = remaining - cut;
            assert(self@ =~= before.subrange(0, position as int) + before.subrange(
                position + length - remaining,
                before.len() as int,
            ));
        }
    }

    /// Takes bytes from byte offset `position` on out of the piece in which
    /// that offset lies: `wanted` of them, or as many as the piece has from
    /// there on, if those are fewer. Returns how many were taken.
    fn erase_within_piece(&mut self, position: usize, wanted: usize) -> (cut: usize)
        requires
            old(self).wf(),
            wanted > 0,
            position + wanted <= old(self)@.len(),
        ensures
            final(self).wf(),
            final(self).same_but_pieces(old(self)),
            0 < cut <= wanted,
            final(self)@ == old(self)@.subrange(0, position as int) + old(self)@.subrange(
                position + cut,
                old(self)@.len() as int,
            ),
            erased(final(self).pieces@, position as int, wanted - cut) == erased(
                old(self).pieces@,
                position as int,
                wanted as int,
            ),
            slots_erased(
                final(self).pieces.slots(),
                final(self).pieces@,
                position as int,
                wanted - cut,
            ) == slots_erased(
                old(self).pieces.slots(),
                old(self).pieces@,
                position as int,
                wanted as int,
            ),
    {
        let (slot, piece_start) = self.locate(position, false);
        let piece = self.pieces.piece(slot);
        let offset = position - piece_start;
        let reach = piece.length - offset;
        let cut = if wanted < reach {
            wanted
        } else {
            reach
        };
        proof {
            assert(self.original.len() == self.original@.len());
            assert(self.append.len() == self.append@.len());
            lemma_erased(
                self.pieces@,
                self.pieces.position(slot),
                position as int,
                wanted as int,
                self.original@,
                self.append@,
            );
        }
        let nothing = Piece { start: 0, length: 0, source: PieceSource::Original };
        self.split_piece(slot, offset, nothing, offset + cut);
        cut
    }

    /// Takes the grapheme cluster that starts at byte offset `position` out
    /// of the logical text: the first cluster of the text from that offset
    /// on, whichever pieces it lies in. The cursor stays where it was.
    pub fn remove(&mut self, position: usize)
        requires
            old(self).wf(),
            position < old(self)@.len(),
            valid_utf8(old(self)@.skip(position as int)),
        ensures
            final(self).wf(),
            0 < cluster_len_at(old(self)@, position as int) <= old(self)@.len() - position,
            final(self).erased_at(
                old(self),
                position as int,
                cluster_len_at(old(self)@, position as int),
            ),
            final(self).same_cursor(old(self)),
            valid_utf8(old(self)@.take(position as int)) ==> valid_utf8(final(self)@),
    {
        let bytes = self.to_bytes();
        let rest = slice_subrange(bytes.as_slice(), position, bytes.len());
        assert(rest@ =~= self@.skip(position as int));
        let length = match cluster_lengths(rest) {
            Some(lens) => {
                proof {
                    lemma_first_cluster(lens@, rest@);
                }
                lens[0]
            },
            None => 0,
        };
        self.erase(position, length);
        proof {
            let text = old(self)@;
            if valid_utf8(text.take(position as int)) {
                assert(rest@.skip(length as int) =~= text.subrange(
                    position + length,
                    text.len() as int,
                ));
                valid_utf8_concat(
                    text.take(position as int),
                    text.subrange(position + length, text.len() as int),
                );
            }
        }
    }

    /// Whether the buffer holds text and the cursor stands in it: the text is
    /// well-formed UTF-8, it has the row of the cursor, and the column of the
    /// cursor is one of that row or the one behind its last.
    pub fn has_cursor_in_text(&self) -> (sound: bool)
        requires
            self.wf(),
        ensures
            sound == (valid_utf8(self@) && self.cursor_in_text()),
    {
        let bytes = self.to_bytes();
        if core::str::from_utf8(bytes.as_slice()).is_err() {
            return false;
        }
        let (at, _, _, lens) = row_layout(bytes.as_slice(), self.cursor_y);
        at == self.cursor_y && self.cursor_x <= lens.len()
    }

    /// Whether the text has the row of the cursor.
    pub fn has_cursor_row(&self) -> (found: bool)
        requires
            self.wf(),
        ensures
            found == (self.row() < self.num_rows()),
    {
        let bytes = self.to_bytes();
        let (at, _, _) = find_row(bytes.as_slice(), self.cursor_y);
        at == self.cursor_y
    }

    /// The cursor, as column and row.
    pub fn cursor(&self) -> (at: (usize, usize))
        ensures
            at.0 == self.column(),
            at.1 == self.row(),
    {
        (self.cursor_x, self.cursor_y)
    }

    /// Moves the cursor by `x` columns within its row. The move is refused,
    /// and nothing changes, where the cursor stands at column 0 and `x` is
    /// negative, or on or behind the last grapheme of the row and `x` is
    /// positive. Otherwise the cursor goes as far as `x` says, but not beyond
    /// column 0 or the last grapheme, and the sticky column follows it. A
    /// cursor whose row the text does not have is in a row of no graphemes.
    pub fn move_cursor_horizontal(&mut self, x: i64)
        requires
            old(self).wf(),
            valid_utf8(old(self)@),
        ensures
            final(self).wf(),
            final(self).stepped_horizontally(old(self), x as int),
            old(self).cursor_in_text() ==> final(self).cursor_in_text(),
    {
        let bytes = self.to_bytes();
        let (at, _, _, lens) = row_layout(bytes.as_slice(), self.cursor_y);
        let row_len: usize = if at == self.cursor_y {
            lens.len()
        } else {
            0
        };
        let refused = (x < 0 && self.cursor_x == 0) || (x > 0 && (row_len == 0 || self.cursor_x
            >= row_len - 1));
        if !refused {
            self.cursor_x = horizontal_step(self.cursor_x, x, row_len);
            self.reminder_cursor_x = self.cursor_x;
        }
    }

    /// Moves the cursor by `y` rows, but not beyond the first or the last
    /// row, and puts it in the sticky column of the row it reaches, or on the
    /// last grapheme of that row where the row is shorter. The sticky column
    /// itself stays.
    pub fn move_cursor_vertical(&mut self, y: i64)
        requires
            old(self).wf(),
            valid_utf8(old(self)@),
        ensures
            final(self).wf(),
            final(self).stepped_vertically(old(self), y as int),
            final(self).cursor_in_text(),
    {
        let bytes = self.to_bytes();
        let (last_row, _, _) = find_row(bytes.as_slice(), usize::MAX);
        proof {
            lemma_rows_nonempty(bytes@);
        }
        let target = vertical_step(self.cursor_y, y, last_row);
        let (_, _, _, lens) = row_layout(bytes.as_slice(), target);
        self.cursor_y = target;
        self.cursor_x = settle(self.reminder_cursor_x, lens.len());
    }

    /// The byte offset of the cursor in the logical text. A column behind the
    /// end of the row counts as the end of the row.
    pub fn cursor_position_in_buffer(&self) -> (offset: usize)
        requires
            self.wf(),
            valid_utf8(self@),
            self.row() < self.num_rows(),
        ensures
            offset == self.cursor_offset(),
            row_start(self@, self.row()) <= offset <= row_end(self@, self.row()),
            offset <= self@.len(),
            valid_utf8(self@.take(offset as int)),
            valid_utf8(self@.skip(offset as int)),
    {
        let bytes = self.to_bytes();
        let (_, start, _, lens) = row_layout(bytes.as_slice(), self.cursor_y);
        let within = offset_of_column(&lens, self.cursor_x);
        proof {
            lemma_offset_in_row(self@, self.row(), lens@, self.column());
        }
        start + within
    }

    /// Puts the cursor at byte offset `offset` of the text: in the row in
    /// which the offset lies, and in the column of that row that begins at
    /// the offset, or the next one where none does. The sticky column follows
    /// it.
    pub fn move_cursor_to(&mut self, offset: usize)
        requires
            old(self).wf(),
            valid_utf8(old(self)@),
            offset <= old(self)@.len(),
        ensures
            final(self).wf(),
            final(self).placed_at(old(self), offset as int),
            final(self).cursor_in_text(),
    {
        let bytes = self.to_bytes();
        let (row, start, _) = find_row_of(bytes.as_slice(), offset);
        let (_, _, _, lens) = row_layout(bytes.as_slice(), row);
        let column = column_of_offset(&lens, offset - start);
        proof {
            lemma_column_at_bounds(lens@, offset - start);
        }
        self.cursor_y = row;
        self.cursor_x = column;
        self.reminder_cursor_x = column;
    }

    /// The grapheme cluster on which the cursor stands.
    pub fn get_under_cursor(&self) -> (grapheme: String)
        requires
            self.wf(),
            valid_utf8(self@),
            0 <= self.row() < self.num_rows(),
            0 <= self.column() < self.row_len(self.row()),
        ensures
            encode_utf8(grapheme@) == self.bytes_under_cursor(),
            grapheme@ == decode_utf8(self.bytes_under_cursor()),
    {
        let bytes = self.to_bytes();
        let (_, start, _, lens) = row_layout(bytes.as_slice(), self.cursor_y);
        proof {
            lemma_cluster(lens@, rows(self@)[self.row()], self.column());
            lemma_row_span(self@, self.row());
            lemma_row_valid(self@, self.row());
        }
        let from = start + offset_of_column(&lens, self.cursor_x);
        let upto = from + lens[self.cursor_x];
        let cluster = slice_subrange(bytes.as_slice(), from, upto);
        assert(cluster@ =~= self.bytes_under_cursor());
        match core::str::from_utf8(cluster) {
            Ok(text) => {
                proof {
                    encode_utf8_decode_utf8(text@);
                }
                text.to_owned()
            },
            Err(_) => String::new(),
        }
    }

    /// The grapheme cluster on which the cursor stands, if the text is
    /// well-formed UTF-8 and the cursor stands on one.
    pub fn grapheme_under_cursor(&self) -> (grapheme: Option<String>)
        requires
            self.wf(),
        ensures
            grapheme is Some <==> {
                &&& valid_utf8(self@)
                &&& 0 <= self.row() < self.num_rows()
                &&& 0 <= self.column() < self.row_len(self.row())
            },
            grapheme matches Some(found) ==> found@ == decode_utf8(self.bytes_under_cursor()),
    {
        let bytes = self.to_bytes();
        if core::str::from_utf8(bytes.as_slice()).is_err() {
            return None;
        }
        let (at, _, _, lens) = row_layout(bytes.as_slice(), self.cursor_y);
        if at != self.cursor_y || self.cursor_x >= lens.len() {
            return None;
        }
        Some(self.get_under_cursor())
    }

    /// Inserts `text` at the cursor and puts the cursor behind it.
    pub fn insert_under_cursor(&mut self, text: &str)
        requires
            old(self).wf(),
            valid_utf8(old(self)@),
            old(self).row() < old(self).num_rows(),
            old(self)@.len() + encode_utf8(text@).len() <= usize::MAX,
        ensures
            final(self).wf(),
            valid_utf8(final(self)@),
            final(self).typed_in(old(self), text@),
            final(self).cursor_in_text(),
    {
        let position = self.cursor_position_in_buffer();
        let ghost before = self@;
        self.insert(text, position);
        proof {
            encode_utf8_valid_utf8(text@);
            valid_utf8_concat(before.take(position as int), encode_utf8(text@));
            valid_utf8_concat(
                before.take(position as int) + encode_utf8(text@),
                before.skip(position as int),
            );
            assert(before.take(position as int) =~= before.subrange(0, position as int));
            assert(before.skip(position as int) =~= before.subrange(
                position as int,
                before.len() as int,
            ));
        }
        self.move_cursor_to(position + text.len());
    }

    /// Deletes backwards from the cursor: the grapheme cluster in front of
    /// it, or, at the start of a row, the newline that parts the row from the
    /// one above, and does nothing at the start of the text. The cursor
    /// comes to stand where the deleted bytes were; the sticky column
    /// follows it, except where two rows were joined.
    pub fn delete_under_cursor(&mut self)
        requires
            old(self).wf(),
            valid_utf8(old(self)@),
            old(self).row() < old(self).num_rows(),
        ensures
            final(self).wf(),
            valid_utf8(final(self)@),
            final(self).deleted_back(old(self)),
            0 <= old(self).span_before_cursor().0,
            0 <= old(self).span_before_cursor().1,
            old(self).span_before_cursor().0 + old(self).span_before_cursor().1 <= old(self)@.len(),
            final(self).row() < final(self).num_rows(),
            old(self).cursor_in_text() ==> final(self).cursor_in_text(),
            old(self).span_before_cursor().1 > 0 ==> final(self).cursor_in_text(),
    {
        let (position, length, joins) = self.find_span_before_cursor();
        if length > 0 {
            let sticky = self.reminder_cursor_x;
            self.erase_and_follow(position, length);
            if joins {
                self.reminder_cursor_x = sticky;
            }
        }
    }

    /// The stretch that `delete_under_cursor` takes out, as offset and
    /// length, and whether it is the newline in front of the row of the
    /// cursor.
    fn find_span_before_cursor(&self) -> (span: (usize, usize, bool))
        requires
            self.wf(),
            valid_utf8(self@),
            self.row() < self.num_rows(),
        ensures
            span.0 == self.span_before_cursor().0,
            span.1 == self.span_before_cursor().1,
            span.2 == (span.0 < row_start(self@, self.row())),
            span.0 + span.1 <= self@.len(),
            span.1 > 0 ==> valid_utf8(self@.take(span.0 as int)) && valid_utf8(
                self@.skip(span.0 + span.1),
            ),
    {
        let ghost before = self@;
        let bytes = self.to_bytes();
        let (_, start, _, lens) = row_layout(bytes.as_slice(), self.cursor_y);
        let column: usize = if self.cursor_x < lens.len() {
            self.cursor_x
        } else {
            lens.len()
        };
        proof {
            lemma_row_span(before, self.row());
        }
        if column > 0 {
            proof {
                lemma_cluster(lens@, rows(before)[self.row()], column - 1);
                lemma_offset_in_row(before, self.row(), lens@, column - 1);
                lemma_offset_in_row(before, self.row(), lens@, column as int);
            }
            (start + offset_of_column(&lens, column - 1), lens[column - 1], false)
        } else if self.cursor_y > 0 {
            proof {
                lemma_row_span(before, self.row() - 1);
                lemma_newline_is_boundary(before, start - 1);
                assert(before.take(start - 1) =~= before.subrange(0, start - 1));
                assert(before.skip(start as int) =~= before.subrange(
                    start as int,
                    before.len() as int,
                ));
            }
            (start - 1, 1, true)
        } else {
            (0, 0, false)
        }
    }

    /// Takes the `length` bytes from byte offset `position` on out of the
    /// text and puts the cursor, with the sticky column, where they were.
    fn erase_and_follow(&mut self, position: usize, length: usize)
        requires
            old(self).wf(),
            position + length <= old(self)@.len(),
            valid_utf8(old(self)@.take(position as int)),
            valid_utf8(old(self)@.skip(position + length)),
        ensures
            final(self).wf(),
            valid_utf8(final(self)@),
            final(self).erased_at(old(self), position as int, length as int),
            final(self).row() == row_of(final(self)@, position as int),
            final(self).column() == column_of(final(self)@, position as int),
            final(self).sticky_column() == final(self).column(),
            final(self).cursor_in_text(),
    {
        let ghost before = self@;
        self.erase(position, length);
        proof {
            valid_utf8_concat(before.take(position as int), before.skip(position + length));
            assert(before.take(position as int) + before.skip(position + length) =~= self@);
        }
        self.move_cursor_to(position);
    }

    /// The grapheme cluster that belongs to byte offset `idx`, looked for
    /// within the one piece in which the offset lies; see
    /// [`Buffer::grapheme_in_piece`]. A cluster that runs over the end of
    /// that piece is not found whole.
    pub fn get(&self, idx: usize) -> (grapheme: Option<&str>)
        requires
            self.wf(),
        ensures
            match grapheme {
                Some(found) => self.grapheme_in_piece(idx as int) == Some(encode_utf8(found@)),
                None => self.grapheme_in_piece(idx as int) is None,
            },
    {
        if idx >= self.len() {
            return None;
        }
        let (slot, piece_start) = self.locate(idx, false);
        let piece = self.pieces.piece(slot);
        proof {
            let k = self.pieces.position(slot);
            self.pieces.lemma_wf_facts();
            lemma_within_take(self.pieces@, k, self.original@, self.append@);
            lemma_within_take(self.pieces@, k + 1, self.original@, self.append@);
            lemma_flatten_len(self.pieces@.take(k), self.original@, self.append@);
            lemma_flatten_len(self.pieces@.take(k + 1), self.original@, self.append@);
            lemma_total_length_take(self.pieces@, k + 1);
            lemma_piece_at(self.pieces@, k, idx as int);
            assert(self.original.len() == self.original@.len());
            assert(self.append.len() == self.append@.len());
        }
        let store = self.store(piece.source);
        let slice = slice_subrange(store.as_slice(), piece.start, piece.start + piece.length);
        let number = idx - piece_start;
        match cluster_lengths(slice) {
            Some(lens) => {
                if number >= lens.len() {
                    return None;
                }
                proof {
                    lemma_cluster(lens@, slice@, number as int);
                }
                let from = offset_of_column(&lens, number);
                let upto = from + lens[number];
                match core::str::from_utf8(slice_subrange(slice, from, upto)) {
                    Ok(found) => Some(found),
                    Err(_) => None,
                }
            },
            None => None,
        }
    }

    /// Links the piece `(start, length, source)` in front of `pivot`, unless
    /// it is empty. The pieces in front of `pivot` are known as `front`,
    /// those from `pivot` on as `back`.
    fn splice_in(
        &mut self,
        pivot: usize,
        start: usize,
        length: usize,
        source: PieceSource,
        Ghost(front): Ghost<Seq<Piece>>,
        Ghost(back): Ghost<Seq<Piece>>,
    )
        requires
            old(self).pieces.wf(),
            pivot == SENTINEL || old(self).pieces.linked(pivot),
            old(self).pieces@ == front + back,
            old(self).pieces.place_before(pivot) == front.len(),
        ensures
            final(self).pieces.wf(),
            final(self).same_but_pieces(old(self)),
            pivot == SENTINEL || final(self).pieces.linked(pivot),
            final(self).pieces@ == front + part(start as int, length as int, source) + back,
            final(self).pieces.slots() == old(self).pieces.slots().link_if(
                front.len() as int,
                length > 0,
            ),
            final(self).pieces.place_before(pivot) == (front + part(
                start as int,
                length as int,
                source,
            )).len(),
    {
        if length > 0 {
            self.pieces.insert_before(pivot, start, length, source);
            assert(self.pieces@ =~= front + part(start as int, length as int, source) + back);
        } else {
            assert(front + back =~= front + part(start as int, length as int, source) + back);
        }
    }

    /// Replaces the piece in `slot` by its first `head` bytes, the piece
    /// `middle`, and its bytes from `tail` on, leaving out what is empty.
    fn split_piece(&mut self, slot: usize, head: usize, middle: Piece, tail: usize)
        requires
            old(self).shape_ok(),
            old(self).pieces.linked(slot),
            0 <= old(self).pieces.position(slot) < old(self).pieces@.len(),
            head <= tail <= old(self).pieces@[old(self).pieces.position(slot)].length,
            middle.within(store_of(middle, old(self).original@, old(self).append@).len() as int),
        ensures
            final(self).shape_ok(),
            final(self).same_but_pieces(old(self)),
            final(self).pieces@ == replaced(
                old(self).pieces@,
                old(self).pieces.position(slot),
                head as int,
                middle,
                tail as int,
            ),
            final(self).pieces.slots() == old(self).pieces.slots().replace(
                old(self).pieces.position(slot),
                head > 0,
                middle.length > 0,
                old(self).pieces@[old(self).pieces.position(slot)].length - tail > 0,
            ),
    {
        proof {
            self.pieces.lemma_wf_facts();
            assert(self.original.len() == self.original@.len());
            assert(self.append.len() == self.append@.len());
            lemma_flatten_replaced(
                self.pieces@,
                self.pieces.position(slot),
                head as int,
                middle,
                tail as int,
                self.original@,
                self.append@,
            );
        }
        let piece = self.pieces.piece(slot);
        let first = Piece { start: piece.start, length: head, source: piece.source };
        let third = Piece {
            start: piece.start + tail,
            length: piece.length - tail,
            source: piece.source,
        };
        self.swap_piece(slot, first, middle, third);
    }

    /// Unlinks the piece in `slot` and links `first`, `second` and `third` in
    /// its place, leaving out what is empty.
    fn swap_piece(&mut self, slot: usize, first: Piece, second: Piece, third: Piece)
        requires
            old(self).pieces.wf(),
            old(self).pieces.linked(slot),
            0 <= old(self).pieces.position(slot) < old(self).pieces@.len(),
        ensures
            final(self).pieces.wf(),
            final(self).same_but_pieces(old(self)),
            final(self).pieces@ == old(self).pieces@.take(old(self).pieces.position(slot)) + part(
                first.start as int,
                first.length as int,
                first.source,
            ) + part(second.start as int, second.length as int, second.source) + part(
                third.start as int,
                third.length as int,
                third.source,
            ) + old(self).pieces@.skip(old(self).pieces.position(slot) + 1),
            final(self).pieces.slots() == old(self).pieces.slots().replace(
                old(self).pieces.position(slot),
                first.length > 0,
                second.length > 0,
                third.length > 0,
            ),
    {
        let ghost k = self.pieces.position(slot);
        let ghost pieces = self.pieces@;
        let ghost front = pieces.take(k);
        let ghost back = pieces.skip(k + 1);
        let ghost one = front + part(first.start as int, first.length as int, first.source);
        let ghost two = one + part(second.start as int, second.length as int, second.source);
        proof {
            self.pieces.lemma_wf_facts();
        }
        let pivot = self.pieces.next(slot);
        self.pieces.remove(slot);
        assert(self.pieces@ =~= front + back);
        self.splice_in(pivot, first.start, first.length, first.source, Ghost(front), Ghost(back));
        self.splice_in(pivot, second.start, second.length, second.source, Ghost(one), Ghost(back));
        self.splice_in(pivot, third.start, third.length, third.source, Ghost(two), Ghost(back));
    }
}

} // verus!
