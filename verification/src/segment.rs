//! Grapheme clusters and UTF-8: what the buffer takes from outside.
//!
//! Cluster boundaries are computed by the `unicode-segmentation` crate. The
//! library never looks inside that computation: it gives the sequence of
//! cluster lengths of a text a name, and assumes of it only that the clusters
//! tile the text.

use unicode_segmentation::UnicodeSegmentation;
use vstd::prelude::*;
use vstd::utf8::*;

verus! {

/// The byte lengths of the extended grapheme clusters of `text`, in order, as
/// `unicode-segmentation` computes them.
pub uninterp spec fn grapheme_lengths(text: Seq<char>) -> Seq<usize>;

/// The sum of a sequence of lengths.
pub open spec fn total(lens: Seq<usize>) -> int
    decreases lens.len(),
{
    if lens.len() == 0 {
        0
    } else {
        total(lens.drop_last()) + lens.last()
    }
}

/// The byte offset at which cluster `k` starts, when the clusters have the
/// lengths `lens`: the sum of the first `k` lengths, or of all of them where
/// there are fewer.
pub open spec fn offset_of(lens: Seq<usize>, k: int) -> int {
    if k <= 0 {
        0
    } else if k >= lens.len() {
        total(lens)
    } else {
        total(lens.take(k))
    }
}

/// The lengths `lens` cut `bytes` into clusters: none is empty, together they
/// cover `bytes` exactly, and each begins on a character boundary.
pub open spec fn tiles(lens: Seq<usize>, bytes: Seq<u8>) -> bool {
    &&& forall|i: int| 0 <= i < lens.len() ==> #[trigger] lens[i] > 0
    &&& total(lens) == bytes.len()
    &&& forall|k: int| 0 <= k <= lens.len() ==> is_char_boundary(bytes, #[trigger] offset_of(lens, k))
}

/// The cluster lengths of a text given as UTF-8 bytes.
pub open spec fn clusters(bytes: Seq<u8>) -> Seq<usize> {
    grapheme_lengths(decode_utf8(bytes))
}

/// The length of the cluster that starts at byte offset `position` of `t`:
/// the first cluster of what follows that offset.
pub open spec fn cluster_len_at(t: Seq<u8>, position: int) -> int {
    clusters(t.skip(position))[0] as int
}

/// The first `k` lengths are together no longer than all of them, and a
/// length more adds that length.
pub proof fn lemma_total_take(lens: Seq<usize>, k: int)
    requires
        0 <= k <= lens.len(),
    ensures
        0 <= total(lens.take(k)) <= total(lens),
        k < lens.len() ==> total(lens.take(k + 1)) == total(lens.take(k)) + lens[k],
    decreases lens.len() - k,
{
    if k == lens.len() {
        assert(lens.take(k) =~= lens);
        lemma_total_nonnegative(lens);
    } else {
        assert(lens.take(k + 1).drop_last() =~= lens.take(k));
        lemma_total_take(lens, k + 1);
        lemma_total_nonnegative(lens.take(k));
    }
}

/// Lengths add up to no less than nothing.
pub proof fn lemma_total_nonnegative(lens: Seq<usize>)
    ensures
        0 <= total(lens),
    decreases lens.len(),
{
    if lens.len() > 0 {
        lemma_total_nonnegative(lens.drop_last());
    }
}

/// Where the clusters tile a text that is not empty, there is a first
/// cluster, it is not empty and no longer than the text, and what follows it
/// is well-formed UTF-8 if the text is.
pub proof fn lemma_first_cluster(lens: Seq<usize>, bytes: Seq<u8>)
    requires
        tiles(lens, bytes),
        bytes.len() > 0,
    ensures
        lens.len() > 0,
        0 < lens[0] <= bytes.len(),
        valid_utf8(bytes) ==> valid_utf8(bytes.skip(lens[0] as int)),
{
    lemma_total_take(lens, 0);
    assert(lens.take(0) =~= Seq::<usize>::empty());
    lemma_total_take(lens, 1);
    assert(lens[0] > 0);
    if lens.len() == 1 {
        assert(lens.take(1) =~= lens);
    }
    assert(offset_of(lens, 1) == lens[0]);
    if valid_utf8(bytes) {
        assert(is_char_boundary(bytes, offset_of(lens, 1)));
        valid_utf8_split(bytes, lens[0] as int);
        assert(bytes.skip(lens[0] as int) =~= bytes.subrange(lens[0] as int, bytes.len() as int));
    }
}

/// An offset that cuts well-formed UTF-8 into two well-formed halves is a
/// character boundary.
pub proof fn lemma_boundary_between(t: Seq<u8>, i: int)
    requires
        0 <= i <= t.len(),
        valid_utf8(t.subrange(0, i)),
        valid_utf8(t.subrange(i, t.len() as int)),
    ensures
        valid_utf8(t),
        is_char_boundary(t, i),
    decreases i,
{
    let front = t.subrange(0, i);
    let back = t.subrange(i, t.len() as int);
    valid_utf8_concat(front, back);
    assert(front + back =~= t);
    if i > 0 {
        let n = length_of_first_scalar(front);
        assert(valid_first_scalar(front));
        assert(0 < n <= i);
        assert(length_of_first_scalar(t) == n);
        let rest = pop_first_scalar(t);
        assert(rest.subrange(0, i - n) =~= pop_first_scalar(front));
        assert(rest.subrange(i - n, rest.len() as int) =~= back);
        lemma_boundary_between(rest, i - n);
    }
}

/// The stretch between two character boundaries of well-formed UTF-8 is
/// well-formed UTF-8.
pub proof fn lemma_valid_between(t: Seq<u8>, a: int, b: int)
    requires
        valid_utf8(t),
        0 <= a <= b <= t.len(),
        is_char_boundary(t, a),
        is_char_boundary(t, b),
    ensures
        valid_utf8(t.subrange(a, b)),
        is_char_boundary(t.subrange(0, b), a),
{
    valid_utf8_split(t, b);
    let front = t.subrange(0, b);
    if a < b {
        is_char_boundary_iff_not_is_continuation_byte(t, a);
        is_char_boundary_iff_not_is_continuation_byte(front, a);
    } else {
        is_char_boundary_start_end_of_seq(front);
    }
    valid_utf8_split(front, a);
    assert(front.subrange(a, front.len() as int) =~= t.subrange(a, b));
}

/// Cluster `k` of a tiled text: it is not empty, it lies within the text, and
/// it is well-formed UTF-8 if the text is.
pub proof fn lemma_cluster(lens: Seq<usize>, bytes: Seq<u8>, k: int)
    requires
        tiles(lens, bytes),
        0 <= k < lens.len(),
    ensures
        0 <= offset_of(lens, k) < offset_of(lens, k + 1) <= bytes.len(),
        offset_of(lens, k + 1) == offset_of(lens, k) + lens[k],
        is_char_boundary(bytes, offset_of(lens, k)),
        is_char_boundary(bytes, offset_of(lens, k + 1)),
        valid_utf8(bytes) ==> valid_utf8(
            bytes.subrange(offset_of(lens, k), offset_of(lens, k + 1)),
        ),
{
    lemma_total_take(lens, k);
    lemma_total_take(lens, k + 1);
    assert(lens.take(0) =~= Seq::<usize>::empty());
    assert(lens.take(lens.len() as int) =~= lens);
    assert(lens[k] > 0);
    if valid_utf8(bytes) {
        lemma_valid_between(bytes, offset_of(lens, k), offset_of(lens, k + 1));
    }
}

/// `core::str::Utf8Error`, the error that `core::str::from_utf8` returns.
/// Nothing is said of what it holds.
#[verifier::external_type_specification]
#[verifier::external_body]
pub struct ExUtf8Error(core::str::Utf8Error);

/// `core::str::from_utf8` succeeds exactly on well-formed UTF-8, and the
/// string it returns consists of the bytes it was given.
pub assume_specification[ core::str::from_utf8 ](v: &[u8]) -> (r: Result<&str, core::str::Utf8Error>)
    ensures
        r is Ok <==> valid_utf8(v@),
        r matches Ok(s) ==> encode_utf8(s@) == v@,
;

/// Calls `UnicodeSegmentation::graphemes` for the extended grapheme clusters
/// of `s` and returns the byte length of each. Assumed of the outside crate:
/// the result depends on the characters of `s` alone, and the clusters are
/// non-empty substrings of `s` that follow one another from its start to its
/// end.
#[verifier::external_body]
fn grapheme_lengths_of(s: &str) -> (lens: Vec<usize>)
    ensures
        lens@ == grapheme_lengths(s@),
        tiles(lens@, encode_utf8(s@)),
{
    let mut lens = Vec::new();
    for cluster in UnicodeSegmentation::graphemes(s, true) {
        lens.push(cluster.len());
    }
    lens
}

/// The byte lengths of the grapheme clusters of `bytes`, in order, if
/// `bytes` are well-formed UTF-8, and `None` if they are not.
pub fn cluster_lengths(bytes: &[u8]) -> (lens: Option<Vec<usize>>)
    ensures
        lens is Some <==> valid_utf8(bytes@),
        lens matches Some(found) ==> found@ == clusters(bytes@) && tiles(found@, bytes@),
{
    match core::str::from_utf8(bytes) {
        Ok(s) => {
            proof {
                encode_utf8_decode_utf8(s@);
            }
            Some(grapheme_lengths_of(s))
        },
        Err(_) => None,
    }
}

} // verus!
