//! Grapheme clusters and the cells they draw in.
//!
//! Segmentation is `unicode-segmentation`'s and width is `unicode-width`'s;
//! both are reached through one trusted wrapper each, and everything built on
//! them here — a line's table of clusters, their starts, their cells — is
//! verified against what those two wrappers promise.
use vstd::prelude::*;
use vstd::utf8::*;
use crate::utf8_text::{boundary, bytes_of, slice, utf8};
use unicode_segmentation::UnicodeSegmentation;
use unicode_width::UnicodeWidthStr;

verus! {

/// The byte lengths of the extended grapheme clusters of a string, in order —
/// the result of `unicode-segmentation`'s segmentation, named.
pub uninterp spec fn grapheme_lengths(s: Seq<char>) -> Seq<usize>;

/// The columns `unicode-width` says a string draws in, named.
pub uninterp spec fn display_width(s: Seq<char>) -> usize;

/// The sum of the first `k` lengths.
pub open spec fn prefix_sum(lens: Seq<usize>, k: int) -> int
    decreases k,
{
    if k <= 0 || k > lens.len() {
        0
    } else {
        prefix_sum(lens, k - 1) + lens[k - 1]
    }
}

/// Lengths that cut `bytes` into non-empty runs, end to end, at character
/// boundaries.
pub open spec fn tiles(lens: Seq<usize>, bytes: Seq<u8>) -> bool {
    &&& forall|i: int| 0 <= i < lens.len() ==> lens[i] > 0
    &&& prefix_sum(lens, lens.len() as int) == bytes.len()
    &&& forall|k: int| 0 <= k <= lens.len() ==> boundary(bytes, prefix_sum(lens, k))
}

/// `str::graphemes(true)`, as the byte length of each cluster.
///
/// The contract claims the result is the named segmentation of the string and
/// that the clusters are what the iterator yields: non-empty slices of the
/// string, contiguous from its start to its end, so every cut is a character
/// boundary. Which cuts the segmentation makes is left unsaid.
#[verifier::external_body]
fn grapheme_cluster_lengths(s: &str) -> (r: Vec<usize>)
    ensures
        r@ == grapheme_lengths(s@),
        tiles(r@, utf8(s@)),
{
    s.graphemes(true).map(|g| g.len()).collect()
}

/// `UnicodeWidthStr::width`: how many columns a string draws in.
///
/// The contract names the result and says nothing more of it.
#[verifier::external_body]
pub(crate) fn str_display_width(s: &str) -> (r: usize)
    ensures
        r == display_width(s@),
{
    UnicodeWidthStr::width(s)
}

/// One grapheme cluster of a line: where it starts, how long it is, how many
/// cells it draws in, and whether it is a tab or a space.
#[derive(Clone, Copy, Debug, PartialEq, Eq)]
pub struct Cluster {
    pub start: usize,
    pub len: usize,
    pub cells: usize,
    pub tab: bool,
    pub space: bool,
}

/// The bytes of the `i`th cluster of `s`.
pub open spec fn cluster_bytes(s: Seq<char>, i: int) -> Seq<u8> {
    let lens = grapheme_lengths(s);
    utf8(s).subrange(prefix_sum(lens, i), prefix_sum(lens, i) + lens[i])
}

/// The `i`th cluster of `s`.
pub open spec fn cluster_at(s: Seq<char>, i: int) -> Cluster {
    let piece = cluster_bytes(s, i);
    Cluster {
        start: prefix_sum(grapheme_lengths(s), i) as usize,
        len: grapheme_lengths(s)[i],
        cells: display_width(decode_utf8(piece)),
        tab: piece == seq![9u8],
        space: piece == seq![32u8],
    }
}

/// Every cluster of `s`, in order.
pub open spec fn clusters(s: Seq<char>) -> Seq<Cluster> {
    Seq::new(grapheme_lengths(s).len(), |i: int| cluster_at(s, i))
}

/// The shape a cluster table of `n` bytes has: non-empty clusters, end to end
/// from byte zero to byte `n`, each starting at a character boundary.
pub open spec fn table_tiles(t: Seq<Cluster>, bytes: Seq<u8>) -> bool {
    &&& forall|i: int| 0 <= i < t.len() ==> #[trigger] t[i].len > 0
    &&& forall|i: int| 0 <= i < t.len() ==> boundary(bytes, #[trigger] t[i].start as int)
    &&& forall|i: int|
        0 <= i < t.len() - 1 ==> #[trigger] t[i + 1].start == t[i].start + t[i].len
    &&& t.len() == 0 ==> bytes.len() == 0
    &&& t.len() > 0 ==> t[0].start == 0 && t.last().start + t.last().len == bytes.len()
}

proof fn lemma_prefix_sum_mono(lens: Seq<usize>, j: int, k: int)
    requires
        0 <= j <= k <= lens.len(),
    ensures
        prefix_sum(lens, j) <= prefix_sum(lens, k),
    decreases k - j,
{
    if j < k {
        lemma_prefix_sum_mono(lens, j, k - 1);
    }
}

/// Every cluster of a string: the table all of this crate's column arithmetic
/// reads.
pub fn cluster_table(s: &str) -> (t: Vec<Cluster>)
    ensures
        t@ == clusters(s@),
        table_tiles(t@, utf8(s@)),
{
    let lens = grapheme_cluster_lengths(s);
    let bytes = bytes_of(s);
    let ghost b = utf8(s@);
    let n = bytes.len();
    let mut t: Vec<Cluster> = Vec::new();
    let mut at: usize = 0;
    let mut i: usize = 0;
    while i < lens.len()
        invariant
            lens@ == grapheme_lengths(s@),
            tiles(lens@, b),
            bytes@ == b,
            b == utf8(s@),
            n == b.len(),
            0 <= i <= lens.len(),
            at == prefix_sum(lens@, i as int),
            t.len() == i,
            forall|k: int| 0 <= k < i ==> t@[k] == cluster_at(s@, k),
        decreases lens.len() - i,
    {
        proof {
            lemma_prefix_sum_mono(lens@, i + 1, lens@.len() as int);
            assert(prefix_sum(lens@, i + 1) == at + lens@[i as int]);
            assert(prefix_sum(lens@, lens@.len() as int) == b.len());
            assert(at + lens@[i as int] <= b.len());
            assert(boundary(b, prefix_sum(lens@, i as int)));
            assert(boundary(b, prefix_sum(lens@, i + 1)));
        }
        let end = at + lens[i];
        let piece = slice(s, at, end);
        let cells = str_display_width(piece);
        let piece_bytes = bytes_of(piece);
        let tab = piece_bytes.len() == 1 && piece_bytes[0] == 9u8;
        let space = piece_bytes.len() == 1 && piece_bytes[0] == 32u8;
        proof {
            encode_utf8_decode_utf8(piece@);
            assert(cluster_bytes(s@, i as int) == utf8(piece@));
            assert(tab == (utf8(piece@) == seq![9u8])) by {
                if utf8(piece@) == seq![9u8] {
                    assert(piece_bytes@[0] == 9u8);
                }
                if tab {
                    assert(piece_bytes@ =~= seq![9u8]);
                }
            }
            assert(space == (utf8(piece@) == seq![32u8])) by {
                if utf8(piece@) == seq![32u8] {
                    assert(piece_bytes@[0] == 32u8);
                }
                if space {
                    assert(piece_bytes@ =~= seq![32u8]);
                }
            }
        }
        t.push(Cluster { start: at, len: lens[i], cells, tab, space });
        at = end;
        i = i + 1;
    }
    proof {
        assert(t@ =~= clusters(s@));
        assert forall|k: int| 0 <= k < t@.len() implies boundary(b, #[trigger] t@[k].start as int) by {
            assert(boundary(b, prefix_sum(lens@, k)));
        }
        if t@.len() > 0 {
            assert(t@[0].start == 0);
        }
    }
    t
}

} // verus!
