//! The logical text of a piece table: the bytes that a sequence of pieces
//! stands for, given the two stores.

use vstd::prelude::*;
use crate::piece::{Piece, PieceSource};
use crate::piece_list::Slots;

verus! {

/// The store that pieces of the given source point into.
pub open spec fn store_for(source: PieceSource, original: Seq<u8>, append: Seq<u8>) -> Seq<u8> {
    match source {
        PieceSource::Original => original,
        PieceSource::Append => append,
    }
}

/// The store that `piece` points into.
pub open spec fn store_of(piece: Piece, original: Seq<u8>, append: Seq<u8>) -> Seq<u8> {
    store_for(piece.source, original, append)
}

/// The bytes that `piece` stands for.
pub open spec fn piece_bytes(piece: Piece, original: Seq<u8>, append: Seq<u8>) -> Seq<u8> {
    piece.bytes(store_of(piece, original, append))
}

/// The text of a sequence of pieces: their bytes, one piece after the other.
pub open spec fn flatten(pieces: Seq<Piece>, original: Seq<u8>, append: Seq<u8>) -> Seq<u8>
    decreases pieces.len(),
{
    if pieces.len() == 0 {
        Seq::empty()
    } else {
        flatten(pieces.drop_last(), original, append) + piece_bytes(pieces.last(), original, append)
    }
}

/// The sum of the lengths of the pieces.
pub open spec fn total_length(pieces: Seq<Piece>) -> int
    decreases pieces.len(),
{
    if pieces.len() == 0 {
        0
    } else {
        total_length(pieces.drop_last()) + pieces.last().length
    }
}

/// The piece in which byte offset `offset` of the text lies: the last piece
/// in front of which no more than `offset` bytes stand.
pub open spec fn piece_at(pieces: Seq<Piece>, offset: int) -> int
    decreases pieces.len(),
{
    if pieces.len() <= 1 || offset >= total_length(pieces.drop_last()) {
        pieces.len() - 1
    } else {
        piece_at(pieces.drop_last(), offset)
    }
}

/// The first piece that reaches byte offset `position`: the piece in which
/// the byte in front of `position` lies, and the first piece for offset 0.
pub open spec fn piece_reaching(pieces: Seq<Piece>, position: int) -> int {
    if position <= 0 {
        0
    } else {
        piece_at(pieces, position - 1)
    }
}

/// The range `[start, start + length)` of a store as a sequence of pieces:
/// one piece, or none where the range is empty.
pub open spec fn part(start: int, length: int, source: PieceSource) -> Seq<Piece> {
    if length > 0 {
        seq![Piece { start: start as usize, length: length as usize, source }]
    } else {
        Seq::empty()
    }
}

/// The pieces with piece `k` replaced by its first `head` bytes, the piece
/// `middle`, and its bytes from `tail` on, of which those that are empty are
/// left out.
pub open spec fn replaced(pieces: Seq<Piece>, k: int, head: int, middle: Piece, tail: int) -> Seq<
    Piece,
> {
    pieces.take(k) + part(pieces[k].start as int, head, pieces[k].source) + part(
        middle.start as int,
        middle.length as int,
        middle.source,
    ) + part(pieces[k].start + tail, pieces[k].length - tail, pieces[k].source) + pieces.skip(k + 1)
}

/// The pieces after `fresh` has been inserted in front of byte offset
/// `position`: the first piece that reaches `position` gives way to its
/// bytes in front of `position`, `fresh`, and its bytes from `position` on.
/// Where there was no piece, `fresh` is the only one.
pub open spec fn inserted(pieces: Seq<Piece>, position: int, fresh: Piece) -> Seq<Piece> {
    if pieces.len() == 0 {
        seq![fresh]
    } else {
        let k = piece_reaching(pieces, position);
        let offset = position - total_length(pieces.take(k));
        replaced(pieces, k, offset, fresh, offset)
    }
}

/// A piece of no bytes, which stands for nothing being put in.
pub open spec fn no_piece() -> Piece {
    Piece { start: 0, length: 0, source: PieceSource::Original }
}

/// The pieces after the `length` bytes from byte offset `position` on have
/// been taken out: the piece in which `position` lies gives way to its bytes
/// in front of `position` and its bytes behind the stretch, and where the
/// stretch runs over the end of that piece, the same is done for the rest of
/// it with the pieces that follow.
pub open spec fn erased(pieces: Seq<Piece>, position: int, length: int) -> Seq<Piece>
    decreases length,
{
    let k = piece_at(pieces, position);
    let offset = position - total_length(pieces.take(k));
    let reach = pieces[k].length - offset;
    let cut = if length < reach {
        length
    } else {
        reach
    };
    if length <= 0 || cut <= 0 {
        pieces
    } else {
        erased(replaced(pieces, k, offset, no_piece(), offset + cut), position, length - cut)
    }
}

/// The slots of the arena after `fresh` has been inserted in front of byte
/// offset `position`: the piece that gives way has been unlinked, and its
/// parts and `fresh` have been linked in its place, one after the other.
/// Where there was no piece, `fresh` has been linked as the only one.
pub open spec fn slots_inserted(slots: Slots, pieces: Seq<Piece>, position: int, fresh: Piece) -> Slots {
    if pieces.len() == 0 {
        slots.link(0)
    } else {
        let k = piece_reaching(pieces, position);
        let offset = position - total_length(pieces.take(k));
        slots.replace(k, offset > 0, fresh.length > 0, pieces[k].length - offset > 0)
    }
}

/// The slots of the arena after the `length` bytes from byte offset
/// `position` on have been taken out: each piece that gives way has been
/// unlinked, and what is left of it has been linked in its place.
pub open spec fn slots_erased(slots: Slots, pieces: Seq<Piece>, position: int, length: int) -> Slots
    decreases length,
{
    let k = piece_at(pieces, position);
    let offset = position - total_length(pieces.take(k));
    let reach = pieces[k].length - offset;
    let cut = if length < reach {
        length
    } else {
        reach
    };
    if length <= 0 || cut <= 0 {
        slots
    } else {
        slots_erased(
            slots.replace(k, offset > 0, false, reach - cut > 0),
            replaced(pieces, k, offset, no_piece(), offset + cut),
            position,
            length - cut,
        )
    }
}

/// Every piece lies within the store it points into.
pub open spec fn pieces_within(pieces: Seq<Piece>, original: Seq<u8>, append: Seq<u8>) -> bool {
    forall|i: int|
        0 <= i < pieces.len() ==> (#[trigger] pieces[i]).within(
            store_of(pieces[i], original, append).len() as int,
        )
}

/// No piece is empty.
pub open spec fn pieces_nonempty(pieces: Seq<Piece>) -> bool {
    forall|i: int| 0 <= i < pieces.len() ==> (#[trigger] pieces[i]).length > 0
}

/// The text of two sequences of pieces put together is their two texts put
/// together.
pub proof fn lemma_flatten_add(a: Seq<Piece>, b: Seq<Piece>, original: Seq<u8>, append: Seq<u8>)
    ensures
        flatten(a + b, original, append) == flatten(a, original, append) + flatten(
            b,
            original,
            append,
        ),
    decreases b.len(),
{
    if b.len() == 0 {
        assert(a + b =~= a);
        assert(flatten(a, original, append) + flatten(b, original, append) =~= flatten(
            a,
            original,
            append,
        ));
    } else {
        assert((a + b).drop_last() =~= a + b.drop_last());
        assert((a + b).last() == b.last());
        lemma_flatten_add(a, b.drop_last(), original, append);
        assert(flatten(a + b, original, append) =~= flatten(a, original, append) + flatten(
            b,
            original,
            append,
        ));
    }
}

/// The text of one piece.
pub proof fn lemma_flatten_one(piece: Piece, original: Seq<u8>, append: Seq<u8>)
    ensures
        flatten(seq![piece], original, append) == piece_bytes(piece, original, append),
{
    let one = seq![piece];
    assert(one.drop_last() =~= Seq::<Piece>::empty());
    assert(one.last() == piece);
    assert(flatten(one.drop_last(), original, append) =~= Seq::<u8>::empty());
    assert(flatten(one, original, append) =~= piece_bytes(piece, original, append));
}

/// The text is the text of the first `k` pieces followed by the text of the
/// others.
pub proof fn lemma_flatten_split(pieces: Seq<Piece>, k: int, original: Seq<u8>, append: Seq<u8>)
    requires
        0 <= k <= pieces.len(),
    ensures
        flatten(pieces, original, append) == flatten(pieces.take(k), original, append) + flatten(
            pieces.skip(k),
            original,
            append,
        ),
{
    assert(pieces =~= pieces.take(k) + pieces.skip(k));
    lemma_flatten_add(pieces.take(k), pieces.skip(k), original, append);
}

/// The text is as long as the pieces say, where they lie within their stores.
pub proof fn lemma_flatten_len(pieces: Seq<Piece>, original: Seq<u8>, append: Seq<u8>)
    requires
        pieces_within(pieces, original, append),
    ensures
        flatten(pieces, original, append).len() == total_length(pieces),
    decreases pieces.len(),
{
    if pieces.len() > 0 {
        assert(pieces.last() == pieces[pieces.len() - 1]);
        assert forall|i: int| 0 <= i < pieces.drop_last().len() implies (
        #[trigger] pieces.drop_last()[i]).within(
            store_of(pieces.drop_last()[i], original, append).len() as int,
        ) by {
            assert(pieces.drop_last()[i] == pieces[i]);
        }
        lemma_flatten_len(pieces.drop_last(), original, append);
    }
}

/// Bytes added at the end of the log change nothing of the text.
pub proof fn lemma_flatten_grow(
    pieces: Seq<Piece>,
    original: Seq<u8>,
    append: Seq<u8>,
    longer: Seq<u8>,
)
    requires
        pieces_within(pieces, original, append),
        append.len() <= longer.len(),
        longer.take(append.len() as int) == append,
    ensures
        flatten(pieces, original, longer) == flatten(pieces, original, append),
        pieces_within(pieces, original, longer),
    decreases pieces.len(),
{
    if pieces.len() > 0 {
        let last = pieces.last();
        assert(last == pieces[pieces.len() - 1]);
        assert forall|i: int| 0 <= i < pieces.drop_last().len() implies (
        #[trigger] pieces.drop_last()[i]).within(
            store_of(pieces.drop_last()[i], original, append).len() as int,
        ) by {
            assert(pieces.drop_last()[i] == pieces[i]);
        }
        lemma_flatten_grow(pieces.drop_last(), original, append, longer);
        assert(piece_bytes(last, original, longer) =~= piece_bytes(last, original, append)) by {
            assert forall|j: int| 0 <= j < append.len() implies longer[j] == append[j] by {
                assert(longer.take(append.len() as int)[j] == longer[j]);
            }
        }
        assert forall|i: int| 0 <= i < pieces.len() implies (#[trigger] pieces[i]).within(
            store_of(pieces[i], original, longer).len() as int,
        ) by {
            if i < pieces.len() - 1 {
                assert(pieces.drop_last()[i] == pieces[i]);
            }
        }
    }
}

/// The lengths of the first `k` pieces: those of the first `k - 1`, and that
/// of piece `k - 1`.
pub proof fn lemma_total_length_take(pieces: Seq<Piece>, k: int)
    requires
        0 < k <= pieces.len(),
    ensures
        total_length(pieces.take(k)) == total_length(pieces.take(k - 1)) + pieces[k - 1].length,
{
    assert(pieces.take(k).drop_last() =~= pieces.take(k - 1));
}

/// The first `k` pieces are together no longer than all of them.
pub proof fn lemma_total_length_monotonic(pieces: Seq<Piece>, k: int)
    requires
        0 <= k <= pieces.len(),
    ensures
        0 <= total_length(pieces.take(k)) <= total_length(pieces),
    decreases pieces.len() - k,
{
    if k == pieces.len() {
        assert(pieces.take(k) =~= pieces);
        lemma_total_length_nonnegative(pieces);
    } else {
        lemma_total_length_take(pieces, k + 1);
        lemma_total_length_monotonic(pieces, k + 1);
        lemma_total_length_nonnegative(pieces.take(k));
    }
}

/// Lengths add up to no less than nothing.
pub proof fn lemma_total_length_nonnegative(pieces: Seq<Piece>)
    ensures
        0 <= total_length(pieces),
    decreases pieces.len(),
{
    if pieces.len() > 0 {
        lemma_total_length_nonnegative(pieces.drop_last());
    }
}

/// A text `a + whole + c`, cut `d` bytes into `whole`, with `put` laid into
/// the cut.
pub proof fn lemma_cut_and_put(a: Seq<u8>, whole: Seq<u8>, c: Seq<u8>, put: Seq<u8>, d: int)
    requires
        0 <= d <= whole.len(),
    ensures
        a + whole.subrange(0, d) + put + whole.subrange(d, whole.len() as int) + c == (a + whole
            + c).subrange(0, a.len() + d) + put + (a + whole + c).subrange(
            a.len() + d,
            (a + whole + c).len() as int,
        ),
{
    let t = a + whole + c;
    assert(a + whole.subrange(0, d) =~= t.subrange(0, a.len() + d));
    assert(whole.subrange(d, whole.len() as int) + c =~= t.subrange(a.len() + d, t.len() as int));
    assert(a + whole.subrange(0, d) + put + whole.subrange(d, whole.len() as int) + c =~= (a
        + whole.subrange(0, d)) + put + (whole.subrange(d, whole.len() as int) + c));
}

/// A text `a + whole + c` without the `n` bytes that follow the first `d`
/// bytes of `whole`.
pub proof fn lemma_cut_out(a: Seq<u8>, whole: Seq<u8>, c: Seq<u8>, d: int, n: int)
    requires
        0 <= d,
        0 <= n,
        d + n <= whole.len(),
    ensures
        a + whole.subrange(0, d) + whole.subrange(d + n, whole.len() as int) + c == (a + whole
            + c).subrange(0, a.len() + d) + (a + whole + c).subrange(
            a.len() + d + n,
            (a + whole + c).len() as int,
        ),
{
    let t = a + whole + c;
    assert(a + whole.subrange(0, d) =~= t.subrange(0, a.len() + d));
    assert(whole.subrange(d + n, whole.len() as int) + c =~= t.subrange(
        a.len() + d + n,
        t.len() as int,
    ));
    assert(a + whole.subrange(0, d) + whole.subrange(d + n, whole.len() as int) + c =~= (a
        + whole.subrange(0, d)) + (whole.subrange(d + n, whole.len() as int) + c));
}

/// The text around piece `k`: what the pieces in front of it say, what it
/// says, and what the pieces behind it say.
pub proof fn lemma_flatten_around(pieces: Seq<Piece>, k: int, original: Seq<u8>, append: Seq<u8>)
    requires
        0 <= k < pieces.len(),
    ensures
        flatten(pieces, original, append) == flatten(pieces.take(k), original, append) + piece_bytes(
            pieces[k],
            original,
            append,
        ) + flatten(pieces.skip(k + 1), original, append),
{
    lemma_flatten_split(pieces, k, original, append);
    lemma_flatten_split(pieces.skip(k), 1, original, append);
    assert(pieces.skip(k).take(1) =~= seq![pieces[k]]);
    assert(pieces.skip(k).skip(1) =~= pieces.skip(k + 1));
    lemma_flatten_one(pieces[k], original, append);
    assert(flatten(pieces, original, append) =~= flatten(pieces.take(k), original, append)
        + piece_bytes(pieces[k], original, append) + flatten(pieces.skip(k + 1), original, append));
}

/// The piece whose bytes begin at or in front of `offset` and end behind it
/// is the piece in which `offset` lies.
pub proof fn lemma_piece_at(pieces: Seq<Piece>, k: int, offset: int)
    requires
        0 <= k < pieces.len(),
        total_length(pieces.take(k)) <= offset < total_length(pieces.take(k + 1)),
    ensures
        piece_at(pieces, offset) == k,
    decreases pieces.len(),
{
    if k == pieces.len() - 1 {
        assert(pieces.take(k) =~= pieces.drop_last());
    } else {
        let front = pieces.drop_last();
        lemma_total_length_monotonic(front, k + 1);
        assert(front.take(k + 1) =~= pieces.take(k + 1));
        assert(front.take(k) =~= pieces.take(k));
        lemma_piece_at(front, k, offset);
    }
}

/// The first `k` of pieces that lie within their stores lie within their
/// stores.
pub proof fn lemma_within_take(pieces: Seq<Piece>, k: int, original: Seq<u8>, append: Seq<u8>)
    requires
        pieces_within(pieces, original, append),
        0 <= k <= pieces.len(),
    ensures
        pieces_within(pieces.take(k), original, append),
{
    assert forall|i: int| 0 <= i < pieces.take(k).len() implies (#[trigger] pieces.take(k)[i]).within(
        store_of(pieces.take(k)[i], original, append).len() as int,
    ) by {
        assert(pieces.take(k)[i] == pieces[i]);
    }
}

/// Two sequences of pieces put together lie within their stores if both do,
/// and hold no empty piece if neither does.
pub proof fn lemma_pieces_add(a: Seq<Piece>, b: Seq<Piece>, original: Seq<u8>, append: Seq<u8>)
    ensures
        pieces_within(a, original, append) && pieces_within(b, original, append)
            ==> pieces_within(a + b, original, append),
        pieces_nonempty(a) && pieces_nonempty(b) ==> pieces_nonempty(a + b),
{
    if pieces_within(a, original, append) && pieces_within(b, original, append) {
        assert forall|i: int| 0 <= i < (a + b).len() implies (#[trigger] (a + b)[i]).within(
            store_of((a + b)[i], original, append).len() as int,
        ) by {
            if i < a.len() {
                assert((a + b)[i] == a[i]);
            } else {
                assert((a + b)[i] == b[i - a.len()]);
            }
        }
    }
    if pieces_nonempty(a) && pieces_nonempty(b) {
        assert forall|i: int| 0 <= i < (a + b).len() implies (#[trigger] (a + b)[i]).length > 0 by {
            if i < a.len() {
                assert((a + b)[i] == a[i]);
            } else {
                assert((a + b)[i] == b[i - a.len()]);
            }
        }
    }
}

/// The pieces behind the first `k` of pieces that lie within their stores lie
/// within their stores.
pub proof fn lemma_within_skip(pieces: Seq<Piece>, k: int, original: Seq<u8>, append: Seq<u8>)
    requires
        0 <= k <= pieces.len(),
    ensures
        pieces_within(pieces, original, append) ==> pieces_within(pieces.skip(k), original, append),
        pieces_nonempty(pieces) ==> pieces_nonempty(pieces.skip(k)) && pieces_nonempty(
            pieces.take(k),
        ),
{
    if pieces_within(pieces, original, append) {
        assert forall|i: int| 0 <= i < pieces.skip(k).len() implies (
        #[trigger] pieces.skip(k)[i]).within(
            store_of(pieces.skip(k)[i], original, append).len() as int,
        ) by {
            assert(pieces.skip(k)[i] == pieces[i + k]);
        }
    }
    if pieces_nonempty(pieces) {
        assert forall|i: int| 0 <= i < pieces.skip(k).len() implies (
        #[trigger] pieces.skip(k)[i]).length > 0 by {
            assert(pieces.skip(k)[i] == pieces[i + k]);
        }
        assert forall|i: int| 0 <= i < pieces.take(k).len() implies (
        #[trigger] pieces.take(k)[i]).length > 0 by {
            assert(pieces.take(k)[i] == pieces[i]);
        }
    }
}

/// A range of a store given as pieces: its text is the bytes of the range,
/// it lies within the store if the range does, and it holds no empty piece.
pub proof fn lemma_part(
    start: int,
    length: int,
    source: PieceSource,
    original: Seq<u8>,
    append: Seq<u8>,
)
    requires
        0 <= start,
        0 <= length,
        start + length <= store_for(source, original, append).len() <= usize::MAX,
    ensures
        flatten(part(start, length, source), original, append) == store_for(
            source,
            original,
            append,
        ).subrange(start, start + length),
        pieces_within(part(start, length, source), original, append),
        pieces_nonempty(part(start, length, source)),
{
    if length > 0 {
        let piece = Piece { start: start as usize, length: length as usize, source };
        lemma_flatten_one(piece, original, append);
        assert(part(start, length, source) =~= seq![piece]);
        assert(piece_bytes(piece, original, append) == store_for(source, original, append).subrange(
            start,
            start + length,
        ));
    } else {
        assert(store_for(source, original, append).subrange(start, start + length)
            =~= Seq::<u8>::empty());
    }
}

/// The text of five sequences of pieces put together, and that they lie
/// within their stores and hold no empty piece if each of them does.
proof fn lemma_flatten_five(
    a: Seq<Piece>,
    b: Seq<Piece>,
    c: Seq<Piece>,
    d: Seq<Piece>,
    e: Seq<Piece>,
    original: Seq<u8>,
    append: Seq<u8>,
)
    ensures
        flatten(a + b + c + d + e, original, append) == flatten(a, original, append) + flatten(
            b,
            original,
            append,
        ) + flatten(c, original, append) + flatten(d, original, append) + flatten(
            e,
            original,
            append,
        ),
        pieces_within(a, original, append) && pieces_within(b, original, append) && pieces_within(
            c,
            original,
            append,
        ) && pieces_within(d, original, append) && pieces_within(e, original, append)
            ==> pieces_within(a + b + c + d + e, original, append),
        pieces_nonempty(a) && pieces_nonempty(b) && pieces_nonempty(c) && pieces_nonempty(d)
            && pieces_nonempty(e) ==> pieces_nonempty(a + b + c + d + e),
{
    lemma_flatten_add(a, b, original, append);
    lemma_pieces_add(a, b, original, append);
    lemma_flatten_add(a + b, c, original, append);
    lemma_pieces_add(a + b, c, original, append);
    lemma_flatten_add(a + b + c, d, original, append);
    lemma_pieces_add(a + b + c, d, original, append);
    lemma_flatten_add(a + b + c + d, e, original, append);
    lemma_pieces_add(a + b + c + d, e, original, append);
}

/// What replacing a piece by parts of itself and a piece in their middle does
/// to the text: in place of the bytes of the piece stand its first `head`
/// bytes, the bytes of `middle`, and its bytes from `tail` on. The pieces
/// still lie within their stores, and none is empty if none was.
pub proof fn lemma_flatten_replaced(
    pieces: Seq<Piece>,
    k: int,
    head: int,
    middle: Piece,
    tail: int,
    original: Seq<u8>,
    append: Seq<u8>,
)
    requires
        pieces_within(pieces, original, append),
        0 <= k < pieces.len(),
        0 <= head <= tail <= pieces[k].length,
        middle.within(store_of(middle, original, append).len() as int),
        original.len() <= usize::MAX,
        append.len() <= usize::MAX,
    ensures
        flatten(replaced(pieces, k, head, middle, tail), original, append) == flatten(
            pieces.take(k),
            original,
            append,
        ) + piece_bytes(pieces[k], original, append).subrange(0, head) + piece_bytes(
            middle,
            original,
            append,
        ) + piece_bytes(pieces[k], original, append).subrange(tail, pieces[k].length as int)
            + flatten(pieces.skip(k + 1), original, append),
        pieces_within(replaced(pieces, k, head, middle, tail), original, append),
        pieces_nonempty(pieces) ==> pieces_nonempty(replaced(pieces, k, head, middle, tail)),
{
    let whole = pieces[k];
    let store = store_for(whole.source, original, append);
    let first = part(whole.start as int, head, whole.source);
    let second = part(middle.start as int, middle.length as int, middle.source);
    let third = part(whole.start + tail, whole.length - tail, whole.source);
    let front = pieces.take(k);
    let back = pieces.skip(k + 1);
    assert(whole.within(store_of(whole, original, append).len() as int));
    assert(store_of(whole, original, append) == store);
    assert(store_of(middle, original, append) == store_for(middle.source, original, append));
    lemma_part(whole.start as int, head, whole.source, original, append);
    lemma_part(middle.start as int, middle.length as int, middle.source, original, append);
    lemma_part(whole.start + tail, whole.length - tail, whole.source, original, append);
    lemma_within_take(pieces, k, original, append);
    lemma_within_skip(pieces, k, original, append);
    lemma_within_skip(pieces, k + 1, original, append);
    lemma_flatten_five(front, first, second, third, back, original, append);
    let bytes = piece_bytes(whole, original, append);
    assert(bytes == store.subrange(whole.start as int, whole.start + whole.length));
    assert(flatten(first, original, append) == bytes.subrange(0, head)) by {
        assert(store.subrange(whole.start as int, whole.start + head) =~= bytes.subrange(0, head));
    }
    assert(flatten(second, original, append) == piece_bytes(middle, original, append));
    assert(flatten(third, original, append) == bytes.subrange(tail, whole.length as int)) by {
        assert(store.subrange(whole.start + tail, whole.start + tail + (whole.length - tail))
            =~= bytes.subrange(tail, whole.length as int));
    }
}

/// The bytes in front of piece `k` are as many as the pieces in front of it
/// are long, and piece `k` adds as many as it is long.
pub proof fn lemma_start_of_piece(pieces: Seq<Piece>, k: int, original: Seq<u8>, append: Seq<u8>)
    requires
        pieces_within(pieces, original, append),
        0 <= k < pieces.len(),
    ensures
        flatten(pieces.take(k), original, append).len() == total_length(pieces.take(k)),
        total_length(pieces.take(k + 1)) == total_length(pieces.take(k)) + pieces[k].length,
        piece_bytes(pieces[k], original, append).len() == pieces[k].length,
{
    lemma_within_take(pieces, k, original, append);
    lemma_flatten_len(pieces.take(k), original, append);
    lemma_total_length_take(pieces, k + 1);
    assert(pieces[k].within(store_of(pieces[k], original, append).len() as int));
}

/// One step of an insertion: where piece `k` is the first that reaches
/// `position`, the pieces after the insertion are the pieces with piece `k`
/// cut at `position` and `fresh` laid into the cut, and their text is the
/// text with the bytes of `fresh` in front of `position`.
pub proof fn lemma_inserted(
    pieces: Seq<Piece>,
    k: int,
    position: int,
    fresh: Piece,
    original: Seq<u8>,
    append: Seq<u8>,
)
    requires
        pieces_within(pieces, original, append),
        original.len() <= usize::MAX,
        append.len() <= usize::MAX,
        fresh.within(store_of(fresh, original, append).len() as int),
        0 <= k < pieces.len(),
        total_length(pieces.take(k)) <= position <= total_length(pieces.take(k)) + pieces[k].length,
        k > 0 ==> total_length(pieces.take(k)) < position,
    ensures
        inserted(pieces, position, fresh) == replaced(
            pieces,
            k,
            position - total_length(pieces.take(k)),
            fresh,
            position - total_length(pieces.take(k)),
        ),
        flatten(inserted(pieces, position, fresh), original, append) == flatten(
            pieces,
            original,
            append,
        ).subrange(0, position) + piece_bytes(fresh, original, append) + flatten(
            pieces,
            original,
            append,
        ).subrange(position, flatten(pieces, original, append).len() as int),
        pieces_within(inserted(pieces, position, fresh), original, append),
        forall|slots: Slots| #[trigger]
            slots_inserted(slots, pieces, position, fresh) == slots.replace(
                k,
                position - total_length(pieces.take(k)) > 0,
                fresh.length > 0,
                pieces[k].length - (position - total_length(pieces.take(k))) > 0,
            ),
{
    let offset = position - total_length(pieces.take(k));
    lemma_start_of_piece(pieces, k, original, append);
    if position > 0 {
        lemma_piece_at(pieces, k, position - 1);
    } else {
        assert(pieces.take(0) =~= Seq::<Piece>::empty());
    }
    lemma_flatten_replaced(pieces, k, offset, fresh, offset, original, append);
    lemma_flatten_around(pieces, k, original, append);
    lemma_cut_and_put(
        flatten(pieces.take(k), original, append),
        piece_bytes(pieces[k], original, append),
        flatten(pieces.skip(k + 1), original, append),
        piece_bytes(fresh, original, append),
        offset,
    );
}

/// One step of an erasure: where `position` lies in piece `k`, taking
/// `wanted` bytes out from there on comes to taking out of piece `k` what it
/// has of them, and then the rest from what follows. The text after that
/// first step is the text without the bytes taken so far.
pub proof fn lemma_erased(
    pieces: Seq<Piece>,
    k: int,
    position: int,
    wanted: int,
    original: Seq<u8>,
    append: Seq<u8>,
)
    requires
        pieces_within(pieces, original, append),
        original.len() <= usize::MAX,
        append.len() <= usize::MAX,
        0 <= k < pieces.len(),
        total_length(pieces.take(k)) <= position < total_length(pieces.take(k)) + pieces[k].length,
        wanted > 0,
    ensures
        ({
            let offset = position - total_length(pieces.take(k));
            let reach = pieces[k].length - offset;
            let cut = if wanted < reach {
                wanted
            } else {
                reach
            };
            let rest = replaced(pieces, k, offset, no_piece(), offset + cut);
            &&& erased(pieces, position, wanted) == erased(rest, position, wanted - cut)
            &&& flatten(rest, original, append) == flatten(pieces, original, append).subrange(
                0,
                position,
            ) + flatten(pieces, original, append).subrange(
                position + cut,
                flatten(pieces, original, append).len() as int,
            )
            &&& pieces_within(rest, original, append)
            &&& forall|slots: Slots| #[trigger]
                slots_erased(slots, pieces, position, wanted) == slots_erased(
                    slots.replace(k, offset > 0, false, reach - cut > 0),
                    rest,
                    position,
                    wanted - cut,
                )
        }),
{
    let offset = position - total_length(pieces.take(k));
    let reach = pieces[k].length - offset;
    let cut = if wanted < reach { wanted } else { reach };
    lemma_start_of_piece(pieces, k, original, append);
    lemma_piece_at(pieces, k, position);
    lemma_flatten_replaced(pieces, k, offset, no_piece(), offset + cut, original, append);
    lemma_flatten_around(pieces, k, original, append);
    lemma_cut_out(
        flatten(pieces.take(k), original, append),
        piece_bytes(pieces[k], original, append),
        flatten(pieces.skip(k + 1), original, append),
        offset,
        cut,
    );
    assert(piece_bytes(no_piece(), original, append) =~= Seq::<u8>::empty());
    let whole = piece_bytes(pieces[k], original, append);
    assert(flatten(pieces.take(k), original, append) + whole.subrange(0, offset) + Seq::<
        u8,
    >::empty() + whole.subrange(offset + cut, whole.len() as int) =~= flatten(
        pieces.take(k),
        original,
        append,
    ) + whole.subrange(0, offset) + whole.subrange(offset + cut, whole.len() as int));
}

} // verus!
