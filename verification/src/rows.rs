//! Rows: the stretches into which the newline byte cuts a text.
//!
//! A text of `n` newlines has `n + 1` rows; the empty text has one empty row.

use vstd::prelude::*;
use vstd::utf8::*;
use crate::segment::lemma_boundary_between;

verus! {

/// The byte that ends a row.
pub const NEWLINE: u8 = 10;

/// The number of bytes in front of the first newline of `t`, or the length of
/// `t` if it has none.
pub open spec fn line_len(t: Seq<u8>) -> nat
    decreases t.len(),
{
    if t.len() == 0 || t[0] == NEWLINE {
        0
    } else {
        1 + line_len(t.drop_first())
    }
}

/// The rows of `t`, without their newlines.
pub open spec fn rows(t: Seq<u8>) -> Seq<Seq<u8>>
    decreases t.len(),
{
    let n = line_len(t) as int;
    if n >= t.len() {
        seq![t]
    } else {
        seq![t.take(n)] + rows(t.skip(n + 1))
    }
}

/// The byte offset at which row `r` starts: the lengths of the rows in front
/// of it, and one more for each of their newlines.
pub open spec fn row_start(t: Seq<u8>, r: int) -> int
    decreases r,
{
    if r <= 0 {
        0
    } else {
        row_start(t, r - 1) + rows(t)[r - 1].len() + 1
    }
}

/// The byte offset at which row `r` ends, in front of its newline.
pub open spec fn row_end(t: Seq<u8>, r: int) -> int {
    row_start(t, r) + rows(t)[r].len()
}

/// The number of newlines in `t`.
pub open spec fn newline_count(t: Seq<u8>) -> nat
    decreases t.len(),
{
    if t.len() == 0 {
        0
    } else {
        newline_count(t.drop_last()) + if t.last() == NEWLINE {
            1nat
        } else {
            0nat
        }
    }
}

/// The row in which byte offset `offset` of `t` lies: the number of newlines
/// in front of it.
pub open spec fn row_of(t: Seq<u8>, offset: int) -> int {
    newline_count(t.take(offset)) as int
}

/// `line_len` stops at the first newline and not earlier.
pub proof fn lemma_line_len(t: Seq<u8>)
    ensures
        line_len(t) <= t.len(),
        forall|j: int| 0 <= j < line_len(t) ==> t[j] != NEWLINE,
        line_len(t) < t.len() ==> t[line_len(t) as int] == NEWLINE,
    decreases t.len(),
{
    if t.len() == 0 || t[0] == NEWLINE {
    } else {
        let rest = t.drop_first();
        lemma_line_len(rest);
        assert forall|j: int| 0 <= j < line_len(t) implies t[j] != NEWLINE by {
            if j > 0 {
                assert(t[j] == rest[j - 1]);
            }
        }
        if line_len(t) < t.len() {
            assert(t[line_len(t) as int] == rest[line_len(rest) as int]);
        }
    }
}

/// A newline-free stretch that ends at a newline or at the end of `t` is the
/// first row of `t`.
pub proof fn lemma_line_len_is(t: Seq<u8>, n: int)
    requires
        0 <= n <= t.len(),
        forall|j: int| 0 <= j < n ==> t[j] != NEWLINE,
        n == t.len() || t[n] == NEWLINE,
    ensures
        line_len(t) == n,
    decreases n,
{
    if n > 0 {
        let rest = t.drop_first();
        assert forall|j: int| 0 <= j < n - 1 implies rest[j] != NEWLINE by {
            assert(rest[j] == t[j + 1]);
        }
        lemma_line_len_is(rest, n - 1);
    }
}

/// There is always a first row.
pub proof fn lemma_rows_nonempty(t: Seq<u8>)
    ensures
        rows(t).len() >= 1,
        rows(t).len() <= t.len() + 1,
    decreases t.len(),
{
    lemma_line_len(t);
    let n = line_len(t) as int;
    if n < t.len() {
        lemma_rows_nonempty(t.skip(n + 1));
    }
}

/// Where row `r` lies in `t`: it is the stretch from `row_start` to
/// `row_end`, it holds no newline, a newline follows it unless it is the last
/// row, and the rows of what follows its start are the rows from `r` on.
pub proof fn lemma_row_span(t: Seq<u8>, r: int)
    requires
        0 <= r < rows(t).len(),
    ensures
        0 <= row_start(t, r) <= row_end(t, r) <= t.len(),
        t.subrange(row_start(t, r), row_end(t, r)) == rows(t)[r],
        rows(t.skip(row_start(t, r))) == rows(t).skip(r),
        line_len(t.skip(row_start(t, r))) == rows(t)[r].len(),
        forall|j: int| 0 <= j < rows(t)[r].len() ==> rows(t)[r][j] != NEWLINE,
        r + 1 < rows(t).len() ==> row_end(t, r) < t.len() && t[row_end(t, r)] == NEWLINE,
        r + 1 == rows(t).len() ==> row_end(t, r) == t.len(),
        row_of(t, row_start(t, r)) == r,
    decreases r,
{
    if r == 0 {
        lemma_line_len(t);
        assert(t.skip(0) =~= t);
        assert(rows(t).skip(0) =~= rows(t));
        let n = line_len(t) as int;
        assert(t.subrange(0, n) =~= rows(t)[0]);
        assert(t.take(0) =~= Seq::<u8>::empty());
        if n < t.len() {
            lemma_rows_nonempty(t.skip(n + 1));
        }
    } else {
        lemma_row_span(t, r - 1);
        let s = row_start(t, r - 1);
        let tail = t.skip(s);
        lemma_line_len(tail);
        assert(rows(tail) == rows(t).skip(r - 1));
        assert(rows(tail).len() >= 2);
        let n = line_len(tail) as int;
        assert(rows(tail) == seq![tail.take(n)] + rows(tail.skip(n + 1)));
        assert(tail.skip(n + 1) =~= t.skip(row_start(t, r)));
        let rest = t.skip(row_start(t, r));
        assert(rows(rest) =~= rows(t).skip(r)) by {
            assert(rows(rest) =~= rows(tail).skip(1));
            assert(rows(t).skip(r - 1).skip(1) =~= rows(t).skip(r));
        }
        lemma_line_len(rest);
        let m = line_len(rest) as int;
        assert(rows(rest)[0] == rows(t)[r]);
        assert(rows(rest)[0] =~= rest.take(m)) by {
            if m >= rest.len() {
                assert(rest.take(m) =~= rest);
            }
        }
        assert(t.subrange(row_start(t, r), row_end(t, r)) =~= rows(t)[r]);
        assert forall|j: int| 0 <= j < rows(t)[r].len() implies rows(t)[r][j] != NEWLINE by {
            assert(rows(t)[r][j] == rest[j]);
        }
        if r + 1 < rows(t).len() {
            assert(rows(rest).len() >= 2);
            assert(t[row_end(t, r)] == rest[m]);
        } else {
            assert(rows(rest).len() == 1);
            if m < rest.len() {
                lemma_rows_nonempty(rest.skip(m + 1));
            }
        }
        lemma_newlines_in_row(t, r - 1);
    }
}

/// Counting newlines is additive over concatenation.
pub proof fn lemma_newline_count_add(a: Seq<u8>, b: Seq<u8>)
    ensures
        newline_count(a + b) == newline_count(a) + newline_count(b),
    decreases b.len(),
{
    if b.len() == 0 {
        assert(a + b =~= a);
    } else {
        assert((a + b).drop_last() =~= a + b.drop_last());
        lemma_newline_count_add(a, b.drop_last());
    }
}

/// A stretch that holds no newline counts none.
pub proof fn lemma_newline_count_none(a: Seq<u8>)
    requires
        forall|j: int| 0 <= j < a.len() ==> a[j] != NEWLINE,
    ensures
        newline_count(a) == 0,
    decreases a.len(),
{
    if a.len() > 0 {
        lemma_newline_count_none(a.drop_last());
    }
}

/// Every offset of row `r`, its end included, has `r` newlines in front of
/// it, if its start has; and the start of the next row has one more.
proof fn lemma_newlines_in_row(t: Seq<u8>, r: int)
    requires
        0 <= r < rows(t).len(),
        0 <= row_start(t, r) <= row_end(t, r) <= t.len(),
        t.subrange(row_start(t, r), row_end(t, r)) == rows(t)[r],
        forall|j: int| 0 <= j < rows(t)[r].len() ==> rows(t)[r][j] != NEWLINE,
        r + 1 < rows(t).len() ==> row_end(t, r) < t.len() && t[row_end(t, r)] == NEWLINE,
        r + 1 == rows(t).len() ==> row_end(t, r) == t.len(),
        row_of(t, row_start(t, r)) == r,
    ensures
        forall|offset: int| row_start(t, r) <= offset <= row_end(t, r) ==> #[trigger] row_of(t, offset) == r,
        r + 1 < rows(t).len() ==> row_of(t, row_start(t, r + 1)) == r + 1,
{
    let s = row_start(t, r);
    let e = row_end(t, r);
    assert forall|offset: int| s <= offset <= e implies #[trigger] row_of(t, offset) == r by {
        let stretch = t.subrange(s, offset);
        assert forall|j: int| 0 <= j < stretch.len() implies stretch[j] != NEWLINE by {
            assert(stretch[j] == rows(t)[r][j]);
        }
        lemma_newline_count_none(stretch);
        lemma_newline_count_add(t.take(s), stretch);
        assert(t.take(s) + stretch =~= t.take(offset));
    }
    if r + 1 < rows(t).len() {
        assert(row_of(t, e) == r);
        assert(t.take(e + 1).drop_last() =~= t.take(e));
    }
}

/// The row of an offset is the one row that the offset lies in.
pub proof fn lemma_row_of(t: Seq<u8>, r: int, offset: int)
    requires
        0 <= r < rows(t).len(),
        row_start(t, r) <= offset <= row_end(t, r),
    ensures
        row_of(t, offset) == r,
{
    lemma_row_span(t, r);
    lemma_newlines_in_row(t, r);
}

/// The newline byte is a whole character: in well-formed UTF-8 a character
/// boundary lies in front of it and behind it.
pub proof fn lemma_newline_is_boundary(t: Seq<u8>, i: int)
    requires
        valid_utf8(t),
        0 <= i < t.len(),
        t[i] == NEWLINE,
    ensures
        is_char_boundary(t, i),
        valid_utf8(t.subrange(0, i)),
        valid_utf8(t.subrange(i + 1, t.len() as int)),
{
    assert(!is_continuation_byte(NEWLINE)) by (bit_vector);
    assert(is_leading_byte_width_1(NEWLINE)) by (bit_vector);
    is_char_boundary_iff_not_is_continuation_byte(t, i);
    valid_utf8_split(t, i);
    let tail = t.subrange(i, t.len() as int);
    assert(tail[0] == NEWLINE);
    assert(length_of_first_scalar(tail) == 1);
    assert(pop_first_scalar(tail) =~= t.subrange(i + 1, t.len() as int));
}

/// The rows of well-formed UTF-8 are well-formed UTF-8, and so is what
/// follows the start of a row.
pub proof fn lemma_row_valid(t: Seq<u8>, r: int)
    requires
        valid_utf8(t),
        0 <= r < rows(t).len(),
    ensures
        valid_utf8(rows(t)[r]),
        valid_utf8(t.skip(row_start(t, r))),
        is_char_boundary(t, row_start(t, r)),
        is_char_boundary(t, row_end(t, r)),
    decreases r,
{
    lemma_row_span(t, r);
    let s = row_start(t, r);
    let e = row_end(t, r);
    if r == 0 {
        assert(t.skip(0) =~= t);
    } else {
        lemma_row_valid(t, r - 1);
        lemma_row_span(t, r - 1);
        lemma_newline_is_boundary(t, s - 1);
        assert(t.skip(s) =~= t.subrange(s, t.len() as int));
        let front = t.subrange(0, s - 1);
        let nl = t.subrange(s - 1, s);
        assert(nl =~= seq![NEWLINE]);
        assert(is_leading_byte_width_1(NEWLINE)) by (bit_vector);
        assert(valid_utf8(nl)) by {
            reveal_with_fuel(valid_utf8, 2);
            assert(length_of_first_scalar(nl) == 1);
            assert(pop_first_scalar(nl) =~= Seq::<u8>::empty());
        }
        valid_utf8_concat(front, nl);
        assert(front + nl =~= t.subrange(0, s));
        lemma_boundary_between(t, s);
    }
    let tail = t.skip(s);
    if e < t.len() {
        lemma_newline_is_boundary(tail, e - s);
        assert(tail.subrange(0, e - s) =~= rows(t)[r]);
        lemma_newline_is_boundary(t, e);
    } else {
        assert(tail =~= rows(t)[r]);
        is_char_boundary_start_end_of_seq(t);
    }
}

/// The end of the row that starts at offset `start`.
pub fn line_end(bytes: &[u8], start: usize) -> (end: usize)
    requires
        start <= bytes@.len(),
    ensures
        end == start + line_len(bytes@.skip(start as int)),
        start <= end <= bytes@.len(),
{
    let mut end: usize = start;
    while end < bytes.len() && bytes[end] != NEWLINE
        invariant
            start <= end <= bytes@.len(),
            forall|j: int| start <= j < end ==> bytes@[j] != NEWLINE,
        decreases bytes@.len() - end,
    {
        end += 1;
    }
    proof {
        lemma_line_len_is(bytes@.skip(start as int), end - start);
    }
    end
}

/// Row `row` of `bytes`, or its last row if it has no row `row`: the row
/// found, and the offsets at which it starts and ends.
pub fn find_row(bytes: &[u8], row: usize) -> (found: (usize, usize, usize))
    ensures
        found.0 == if row < rows(bytes@).len() {
            row as int
        } else {
            rows(bytes@).len() - 1
        },
        found.1 == row_start(bytes@, found.0 as int),
        found.2 == row_end(bytes@, found.0 as int),
        found.1 <= found.2 <= bytes@.len(),
{
    let ghost t = bytes@;
    let mut k: usize = 0;
    let mut start: usize = 0;
    proof {
        lemma_rows_nonempty(t);
    }
    loop
        invariant
            t == bytes@,
            k <= row,
            k < rows(t).len(),
            k <= start <= t.len(),
            start == row_start(t, k as int),
        decreases t.len() - start,
    {
        proof {
            lemma_row_span(t, k as int);
        }
        let end = line_end(bytes, start);
        if k == row || end == bytes.len() {
            return (k, start, end);
        }
        start = end + 1;
        k = k + 1;
    }
}

/// The row in which byte offset `offset` of `bytes` lies, and the offsets at
/// which that row starts and ends.
pub fn find_row_of(bytes: &[u8], offset: usize) -> (found: (usize, usize, usize))
    requires
        offset <= bytes@.len(),
    ensures
        found.0 == row_of(bytes@, offset as int),
        found.0 < rows(bytes@).len(),
        found.1 == row_start(bytes@, found.0 as int),
        found.2 == row_end(bytes@, found.0 as int),
        found.1 <= offset <= found.2 <= bytes@.len(),
{
    let ghost t = bytes@;
    let mut k: usize = 0;
    let mut start: usize = 0;
    proof {
        lemma_rows_nonempty(t);
    }
    loop
        invariant
            t == bytes@,
            offset <= t.len(),
            k < rows(t).len(),
            k <= start <= offset,
            start == row_start(t, k as int),
        decreases t.len() - start,
    {
        proof {
            lemma_row_span(t, k as int);
        }
        let end = line_end(bytes, start);
        if offset <= end {
            proof {
                lemma_row_of(t, k as int, offset as int);
            }
            return (k, start, end);
        }
        start = end + 1;
        k = k + 1;
    }
}

} // verus!
