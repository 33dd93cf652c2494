//! What holds of the buffer's operations taken together, stated over the
//! text as the contracts of the operations speak of it.

use vstd::prelude::*;
use vstd::utf8::*;
use crate::buffer::Buffer;
use crate::cursor::lemma_steps_stay;
use crate::rows::lemma_rows_nonempty;
use crate::segment::lemma_boundary_between;
use crate::table::{pieces_nonempty, total_length};

verus! {

/// Round trip: a buffer that holds the bytes of a string, as `Buffer::from`
/// leaves it, holds well-formed UTF-8, and the string that `to_string` reads
/// from it is the string it was made from.
pub proof fn lemma_round_trip(buffer: Buffer, source: Seq<char>)
    requires
        buffer@ == encode_utf8(source),
    ensures
        valid_utf8(buffer@),
        decode_utf8(buffer@) == source,
{
    encode_utf8_valid_utf8(source);
    encode_utf8_decode_utf8(source);
}

/// Insertion, read as text: where `text` is well-formed UTF-8 and `position`
/// is a character boundary of it, the bytes that `insert` leaves are
/// well-formed UTF-8 again, and they read as the characters in front of
/// `position`, the inserted characters, and the characters behind
/// `position`.
pub proof fn lemma_insert_reads(text: Seq<u8>, inserted: Seq<char>, position: int)
    requires
        valid_utf8(text),
        0 <= position <= text.len(),
        is_char_boundary(text, position),
    ensures
        valid_utf8(
            text.subrange(0, position) + encode_utf8(inserted) + text.subrange(
                position,
                text.len() as int,
            ),
        ),
        decode_utf8(
            text.subrange(0, position) + encode_utf8(inserted) + text.subrange(
                position,
                text.len() as int,
            ),
        ) == decode_utf8(text.subrange(0, position)) + inserted + decode_utf8(
            text.subrange(position, text.len() as int),
        ),
{
    let front = text.subrange(0, position);
    let back = text.subrange(position, text.len() as int);
    let middle = encode_utf8(inserted);
    let whole = front + middle + back;
    valid_utf8_split(text, position);
    encode_utf8_valid_utf8(inserted);
    encode_utf8_decode_utf8(inserted);
    valid_utf8_concat(front, middle);
    valid_utf8_concat(front + middle, back);
    let cut = front.len() + middle.len();
    assert(whole.subrange(0, cut as int) =~= front + middle);
    assert(whole.subrange(cut as int, whole.len() as int) =~= back);
    lemma_boundary_between(whole, cut as int);
    decode_utf8_split(whole, cut as int);
    let head = front + middle;
    assert(head.subrange(0, front.len() as int) =~= front);
    assert(head.subrange(front.len() as int, head.len() as int) =~= middle);
    lemma_boundary_between(head, front.len() as int);
    decode_utf8_split(head, front.len() as int);
}

/// Inserting nothing changes nothing: whatever the position, the text that
/// `insert` leaves for an empty string is the text it found.
pub proof fn lemma_insert_nothing(text: Seq<u8>, position: int)
    requires
        0 <= position <= text.len(),
    ensures
        text.subrange(0, position) + encode_utf8(Seq::<char>::empty()) + text.subrange(
            position,
            text.len() as int,
        ) == text,
{
    reveal_with_fuel(encode_utf8, 1);
    assert(encode_utf8(Seq::<char>::empty()) =~= Seq::<u8>::empty());
    assert(text.subrange(0, position) + Seq::<u8>::empty() + text.subrange(
        position,
        text.len() as int,
    ) =~= text);
}

/// Removal, read as text: where `text` is well-formed UTF-8 and both ends of
/// the removed stretch are character boundaries of it, the bytes that
/// `remove` and `erase` leave are well-formed UTF-8 again, and they read as
/// the characters in front of the stretch followed by the characters behind
/// it.
pub proof fn lemma_erase_reads(text: Seq<u8>, position: int, length: int)
    requires
        valid_utf8(text),
        0 <= position,
        0 <= length,
        position + length <= text.len(),
        is_char_boundary(text, position),
        is_char_boundary(text, position + length),
    ensures
        valid_utf8(
            text.subrange(0, position) + text.subrange(position + length, text.len() as int),
        ),
        decode_utf8(
            text.subrange(0, position) + text.subrange(position + length, text.len() as int),
        ) == decode_utf8(text.subrange(0, position)) + decode_utf8(
            text.subrange(position + length, text.len() as int),
        ),
{
    let front = text.subrange(0, position);
    let back = text.subrange(position + length, text.len() as int);
    let whole = front + back;
    valid_utf8_split(text, position);
    valid_utf8_split(text, position + length);
    valid_utf8_concat(front, back);
    assert(whole.subrange(0, position) =~= front);
    assert(whole.subrange(position, whole.len() as int) =~= back);
    lemma_boundary_between(whole, position);
    decode_utf8_split(whole, position);
}

/// The arena invariant: in every buffer that the operations of this library
/// can leave, the lengths of the pieces add up to the length of the text, and
/// no piece is empty.
pub proof fn lemma_arena_invariant(buffer: Buffer)
    requires
        buffer.wf(),
    ensures
        total_length(buffer.pieces()) == buffer@.len(),
        pieces_nonempty(buffer.pieces()),
{
    buffer.lemma_pieces();
}

/// Horizontal moves stay in the text: a cursor that stands in a row of the
/// text, on one of its graphemes or behind the last, still does so after a
/// horizontal move, however far the move was to go.
pub proof fn lemma_horizontal_move_stays(before: Buffer, after: Buffer, x: int)
    requires
        before.cursor_in_text(),
        after.stepped_horizontally(&before, x),
    ensures
        after.cursor_in_text(),
{
    lemma_steps_stay(before.column(), before.row(), 0, x, before.row_len(before.row()), 1);
}

/// Vertical moves end in the text: wherever the cursor was, after a vertical
/// move it stands in a row of the text, on one of its graphemes or behind the
/// last.
pub proof fn lemma_vertical_move_stays(before: Buffer, after: Buffer, y: int)
    requires
        after.stepped_vertically(&before, y),
    ensures
        after.cursor_in_text(),
{
    lemma_rows_nonempty(before@);
    lemma_steps_stay(
        0,
        before.row(),
        before.sticky_column(),
        y,
        before.row_len(after.row()),
        before.num_rows(),
    );
}

} // verus!
