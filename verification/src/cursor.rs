//! The rules by which the cursor moves: clamped steps in rows and grapheme
//! columns, and the column that belongs to a byte offset within a row.

use vstd::prelude::*;
use vstd::slice::slice_subrange;
use vstd::utf8::*;
use crate::rows::{
    find_row, lemma_row_span, lemma_row_valid, row_end, row_of, row_start, rows,
};
use crate::segment::{cluster_lengths, clusters, lemma_total_take, offset_of, tiles, total};

verus! {

/// A horizontal step is refused where there is nowhere to go: to the left at
/// column 0, and to the right on or behind the last grapheme of the row.
pub open spec fn horizontal_refused(column: int, dx: int, row_len: int) -> bool {
    (dx < 0 && column == 0) || (dx > 0 && column + 1 >= row_len)
}

/// The column after a horizontal step by `dx` in a row of `row_len`
/// graphemes: unchanged where the step is refused, otherwise `column + dx`,
/// but no further left than column 0 and no further right than the last
/// grapheme.
pub open spec fn horizontal_target(column: int, dx: int, row_len: int) -> int {
    if horizontal_refused(column, dx, row_len) {
        column
    } else if dx < 0 {
        if column + dx < 0 {
            0
        } else {
            column + dx
        }
    } else if dx > 0 {
        if column + dx > row_len - 1 {
            row_len - 1
        } else {
            column + dx
        }
    } else {
        column
    }
}

/// The row after a vertical step by `dy` in a text of `num_rows` rows:
/// `row + dy`, but no row before the first and none behind the last.
pub open spec fn vertical_target(row: int, dy: int, num_rows: int) -> int {
    if row + dy < 0 {
        0
    } else if row + dy > num_rows - 1 {
        num_rows - 1
    } else {
        row + dy
    }
}

/// The column in which the cursor comes to stand in a row of `row_len`
/// graphemes that it enters vertically: the sticky column, but no further
/// right than the last grapheme, and column 0 in an empty row.
pub open spec fn settled_column(sticky: int, row_len: int) -> int {
    if row_len == 0 {
        0
    } else if sticky < row_len - 1 {
        sticky
    } else {
        row_len - 1
    }
}

/// The column that belongs to byte offset `offset` of a row whose clusters
/// have the lengths `lens`: the number of clusters that begin in front of
/// that offset. This is the first column whose own offset is not less than
/// `offset`, and the last column where there is none.
pub open spec fn column_at(lens: Seq<usize>, offset: int) -> int
    decreases lens.len(),
{
    if lens.len() == 0 || offset <= 0 {
        0
    } else {
        1 + column_at(lens.drop_first(), offset - lens[0])
    }
}

/// The column of byte offset `offset` of the text `t`, within the row in
/// which that offset lies.
pub open spec fn column_of(t: Seq<u8>, offset: int) -> int {
    column_at(clusters(rows(t)[row_of(t, offset)]), offset - row_start(t, row_of(t, offset)))
}

/// A column found for an offset is a column of the row.
pub proof fn lemma_column_at_bounds(lens: Seq<usize>, offset: int)
    ensures
        0 <= column_at(lens, offset) <= lens.len(),
    decreases lens.len(),
{
    if lens.len() > 0 && offset > 0 {
        lemma_column_at_bounds(lens.drop_first(), offset - lens[0]);
    }
}

/// No step leaves the text: a horizontal step from a column of the row ends
/// in a column of the row, a vertical step ends in a row of the text, and the
/// column in which the cursor settles there is a column of that row.
pub proof fn lemma_steps_stay(column: int, row: int, sticky: int, by: int, row_len: int, num_rows: int)
    requires
        0 <= column <= row_len,
        0 <= sticky,
        1 <= num_rows,
    ensures
        0 <= horizontal_target(column, by, row_len) <= row_len,
        0 <= vertical_target(row, by, num_rows) <= num_rows - 1,
        0 <= settled_column(sticky, row_len) <= row_len,
{
}

/// The offset of a column lies within its row, and cuts a well-formed text
/// into two well-formed halves.
pub proof fn lemma_offset_in_row(t: Seq<u8>, r: int, lens: Seq<usize>, column: int)
    requires
        valid_utf8(t),
        0 <= r < rows(t).len(),
        tiles(lens, rows(t)[r]),
        0 <= column,
    ensures
        0 <= offset_of(lens, column) <= rows(t)[r].len(),
        row_start(t, r) + offset_of(lens, column) <= row_end(t, r) <= t.len(),
        valid_utf8(t.take(row_start(t, r) + offset_of(lens, column))),
        valid_utf8(t.skip(row_start(t, r) + offset_of(lens, column))),
{
    let row = rows(t)[r];
    let start = row_start(t, r);
    let end = row_end(t, r);
    let within = offset_of(lens, column);
    lemma_row_span(t, r);
    lemma_row_valid(t, r);
    if column < lens.len() {
        lemma_total_take(lens, column);
    }
    let c = if column < lens.len() { column } else { lens.len() as int };
    assert(offset_of(lens, c) == within) by {
        if c == lens.len() && c > 0 {
        }
        if c == 0 {
            assert(lens.take(0) =~= Seq::<usize>::empty());
            if lens.len() == 0 {
            }
        }
    }
    assert(is_char_boundary(row, offset_of(lens, c)));
    valid_utf8_split(row, within);
    valid_utf8_split(t, start);
    valid_utf8_split(t, end);
    valid_utf8_concat(t.subrange(0, start), row.subrange(0, within));
    assert(t.subrange(0, start) + row.subrange(0, within) =~= t.take(start + within));
    valid_utf8_concat(row.subrange(within, row.len() as int), t.subrange(end, t.len() as int));
    assert(row.subrange(within, row.len() as int) + t.subrange(end, t.len() as int) =~= t.skip(
        start + within,
    ));
}

/// The sum of lengths, taken from the front.
proof fn lemma_total_front(lens: Seq<usize>)
    requires
        lens.len() > 0,
    ensures
        total(lens) == lens[0] + total(lens.drop_first()),
    decreases lens.len(),
{
    if lens.len() == 1 {
        assert(lens.drop_first() =~= Seq::<usize>::empty());
        assert(lens.drop_last() =~= Seq::<usize>::empty());
    } else {
        lemma_total_front(lens.drop_last());
        assert(lens.drop_last().drop_first() =~= lens.drop_first().drop_last());
        assert(lens.drop_first().last() == lens.last());
    }
}

/// The column that belongs to the offset of column `k` is `k` again, where no
/// cluster is empty.
pub proof fn lemma_column_at_offset(lens: Seq<usize>, k: int)
    requires
        0 <= k <= lens.len(),
        forall|i: int| 0 <= i < lens.len() ==> #[trigger] lens[i] > 0,
    ensures
        column_at(lens, offset_of(lens, k)) == k,
    decreases lens.len(),
{
    if k == 0 {
    } else {
        let rest = lens.drop_first();
        assert forall|i: int| 0 <= i < rest.len() implies #[trigger] rest[i] > 0 by {
            assert(rest[i] == lens[i + 1]);
        }
        lemma_column_at_offset(rest, k - 1);
        lemma_total_front(lens);
        if k < lens.len() {
            lemma_total_front(lens.take(k));
            assert(lens.take(k).drop_first() =~= rest.take(k - 1));
        }
        if k - 1 == 0 {
            assert(offset_of(rest, 0) == 0);
        }
        lemma_total_take(lens, 1);
        lemma_total_take(lens, 0);
        assert(lens.take(0) =~= Seq::<usize>::empty());
        lemma_total_take(lens, k);
        assert(lens[0] > 0);
        assert(offset_of(lens, k) == lens[0] + offset_of(rest, k - 1));
    }
}

/// The column after a horizontal step; see [`horizontal_target`].
pub fn horizontal_step(column: usize, dx: i64, row_len: usize) -> (target: usize)
    ensures
        target == horizontal_target(column as int, dx as int, row_len as int),
{
    if dx < 0 {
        if column == 0 {
            return column;
        }
        let back: u64 = if dx == i64::MIN {
            0x8000_0000_0000_0000u64
        } else {
            (-dx) as u64
        };
        if back >= column as u64 {
            0
        } else {
            column - back as usize
        }
    } else if dx > 0 {
        if row_len == 0 || column >= row_len - 1 {
            return column;
        }
        let room: usize = row_len - 1 - column;
        let forward: u64 = dx as u64;
        if forward >= room as u64 {
            row_len - 1
        } else {
            column + forward as usize
        }
    } else {
        column
    }
}

/// The row after a vertical step; see [`vertical_target`]. `last_row` is the
/// number of the last row.
pub fn vertical_step(row: usize, dy: i64, last_row: usize) -> (target: usize)
    ensures
        target == vertical_target(row as int, dy as int, last_row + 1),
{
    if dy < 0 {
        let back: u64 = if dy == i64::MIN {
            0x8000_0000_0000_0000u64
        } else {
            (-dy) as u64
        };
        let reached: usize = if back >= row as u64 {
            0
        } else {
            row - back as usize
        };
        if reached > last_row {
            last_row
        } else {
            reached
        }
    } else {
        if row >= last_row {
            return last_row;
        }
        let room: usize = last_row - row;
        let forward: u64 = dy as u64;
        if forward >= room as u64 {
            last_row
        } else {
            row + forward as usize
        }
    }
}

/// The column in which the cursor settles; see [`settled_column`].
pub fn settle(sticky: usize, row_len: usize) -> (column: usize)
    ensures
        column == settled_column(sticky as int, row_len as int),
{
    if row_len == 0 {
        0
    } else if sticky < row_len - 1 {
        sticky
    } else {
        row_len - 1
    }
}

/// The byte offset of column `column` in a row whose clusters have the
/// lengths `lens`: the sum of the first `column` lengths, or of all of them
/// where there are fewer.
pub fn offset_of_column(lens: &Vec<usize>, column: usize) -> (offset: usize)
    requires
        total(lens@) <= usize::MAX,
    ensures
        offset == offset_of(lens@, column as int),
{
    let mut offset: usize = 0;
    let mut k: usize = 0;
    proof {
        assert(lens@.take(0) =~= Seq::<usize>::empty());
    }
    while k < lens.len() && k < column
        invariant
            k <= lens@.len(),
            k <= column,
            offset == total(lens@.take(k as int)),
            total(lens@) <= usize::MAX,
        decreases lens@.len() - k,
    {
        proof {
            lemma_total_take(lens@, k as int);
            lemma_total_take(lens@, k + 1);
        }
        offset = offset + lens[k];
        k = k + 1;
    }
    proof {
        if k == lens@.len() {
            assert(lens@.take(k as int) =~= lens@);
        }
    }
    offset
}

/// The column that belongs to a byte offset; see [`column_at`].
pub fn column_of_offset(lens: &Vec<usize>, offset: usize) -> (column: usize)
    requires
        total(lens@) <= usize::MAX,
    ensures
        column == column_at(lens@, offset as int),
{
    let mut reached: usize = 0;
    let mut k: usize = 0;
    proof {
        assert(lens@.skip(0) =~= lens@);
        assert(lens@.take(0) =~= Seq::<usize>::empty());
    }
    while k < lens.len() && reached < offset
        invariant
            k <= lens@.len(),
            reached == total(lens@.take(k as int)),
            total(lens@) <= usize::MAX,
            column_at(lens@, offset as int) == k + column_at(lens@.skip(k as int), offset - reached),
        decreases lens@.len() - k,
    {
        proof {
            lemma_total_take(lens@, k as int);
            lemma_total_take(lens@, k + 1);
            assert(lens@.skip(k as int).drop_first() =~= lens@.skip(k + 1));
            assert(lens@.skip(k as int)[0] == lens@[k as int]);
        }
        reached = reached + lens[k];
        k = k + 1;
    }
    k
}

/// Row `row` of the text `bytes`, or its last row if it has no such row: the
/// row found, the offsets at which it starts and ends, and the lengths of its
/// clusters.
pub fn row_layout(bytes: &[u8], row: usize) -> (found: (usize, usize, usize, Vec<usize>))
    requires
        valid_utf8(bytes@),
    ensures
        found.0 == if row < rows(bytes@).len() {
            row as int
        } else {
            rows(bytes@).len() - 1
        },
        found.1 == row_start(bytes@, found.0 as int),
        found.2 == row_end(bytes@, found.0 as int),
        found.1 <= found.2 <= bytes@.len(),
        found.3@ == clusters(rows(bytes@)[found.0 as int]),
        tiles(found.3@, rows(bytes@)[found.0 as int]),
{
    let (at, start, end) = find_row(bytes, row);
    proof {
        lemma_row_span(bytes@, at as int);
        lemma_row_valid(bytes@, at as int);
    }
    let lens = match cluster_lengths(slice_subrange(bytes, start, end)) {
        Some(lens) => lens,
        None => Vec::new(),
    };
    (at, start, end, lens)
}

} // verus!
