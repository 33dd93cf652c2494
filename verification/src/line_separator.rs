//! The line-ending convention of a text.

use vstd::prelude::*;
use crate::rows::{lemma_row_span, lemma_rows_nonempty, line_end, row_start, rows};

verus! {

/// The carriage return that precedes the newline in DOS line endings.
pub const CARRIAGE_RETURN: u8 = 13;

/// How the lines of a text are separated.
#[derive(Clone, Copy, Debug, PartialEq, Eq, Structural)]
pub enum LineSeparatorFormat {
    /// A newline.
    UNIX,
    /// A carriage return and a newline.
    DOS,
}

/// The row ends in a carriage return.
pub open spec fn ends_in_cr(row: Seq<u8>) -> bool {
    row.len() > 0 && row.last() == CARRIAGE_RETURN
}

/// The convention that a text follows: DOS if every row but the last ends in
/// a carriage return (so also if there is one row only), UNIX otherwise.
pub open spec fn format_of(t: Seq<u8>) -> LineSeparatorFormat {
    if forall|r: int| 0 <= r < rows(t).len() - 1 ==> ends_in_cr(#[trigger] rows(t)[r]) {
        LineSeparatorFormat::DOS
    } else {
        LineSeparatorFormat::UNIX
    }
}

impl LineSeparatorFormat {
    /// The characters that separate two lines.
    pub open spec fn separator_chars(&self) -> Seq<char> {
        match self {
            LineSeparatorFormat::UNIX => seq!['\n'],
            LineSeparatorFormat::DOS => seq!['\r', '\n'],
        }
    }

    /// The name of the convention.
    pub open spec fn name_chars(&self) -> Seq<char> {
        match self {
            LineSeparatorFormat::UNIX => seq!['U', 'N', 'I', 'X'],
            LineSeparatorFormat::DOS => seq!['D', 'O', 'S'],
        }
    }

    /// The separator as a string: `"\n"` or `"\r\n"`.
    pub fn separator(&self) -> (s: &'static str)
        ensures
            s@ == self.separator_chars(),
    {
        match self {
            LineSeparatorFormat::UNIX => {
                proof {
                    reveal_strlit("\n");
                }
                assert("\n"@ =~= seq!['\n']);
                "\n"
            },
            LineSeparatorFormat::DOS => {
                proof {
                    reveal_strlit("\r\n");
                }
                assert("\r\n"@ =~= seq!['\r', '\n']);
                "\r\n"
            },
        }
    }

    /// The name of the convention: `"UNIX"` or `"DOS"`.
    pub fn name(&self) -> (s: &'static str)
        ensures
            s@ == self.name_chars(),
    {
        match self {
            LineSeparatorFormat::UNIX => {
                proof {
                    reveal_strlit("UNIX");
                }
                assert("UNIX"@ =~= seq!['U', 'N', 'I', 'X']);
                "UNIX"
            },
            LineSeparatorFormat::DOS => {
                proof {
                    reveal_strlit("DOS");
                }
                assert("DOS"@ =~= seq!['D', 'O', 'S']);
                "DOS"
            },
        }
    }

    /// The convention that `bytes` follows.
    pub fn detect(bytes: &[u8]) -> (format: LineSeparatorFormat)
        ensures
            format == format_of(bytes@),
    {
        let ghost t = bytes@;
        let mut k: usize = 0;
        let mut start: usize = 0;
        proof {
            lemma_rows_nonempty(t);
        }
        loop
            invariant
                t == bytes@,
                k < rows(t).len(),
                k <= start <= t.len(),
                start == row_start(t, k as int),
                forall|r: int| 0 <= r < k ==> ends_in_cr(#[trigger] rows(t)[r]),
            decreases t.len() - start,
        {
            proof {
                lemma_row_span(t, k as int);
            }
            let end = line_end(bytes, start);
            if end == bytes.len() {
                return LineSeparatorFormat::DOS;
            }
            if end == start || bytes[end - 1] != CARRIAGE_RETURN {
                assert(!ends_in_cr(rows(t)[k as int])) by {
                    if end > start {
                        assert(rows(t)[k as int].last() == t[end - 1]);
                    }
                }
                return LineSeparatorFormat::UNIX;
            }
            assert(ends_in_cr(rows(t)[k as int])) by {
                assert(rows(t)[k as int].last() == t[end - 1]);
            }
            start = end + 1;
            k = k + 1;
        }
    }
}

} // verus!
