//! The parsed shape of a Markdown document, as the selection and provenance
//! models read it, and the one drawing rule they share with the source face:
//! a tab is spaces to the next stop.
use vstd::prelude::*;
use crate::preview_edit::{cells_at, sat, sat_add, TAB_WIDTH};
use crate::unicode::{cluster_table, clusters, table_tiles, Cluster};
use crate::utf8_text::{push_str, slice, utf8};

verus! {

/// One run of a paragraph's text. What is read is `text`.
#[derive(Clone, Debug, PartialEq, Eq)]
pub struct Span {
    pub text: String,
}

impl Span {
    /// A run with nothing but its text.
    pub fn plain(text: &str) -> (span: Span)
        ensures
            span.text@ == text@,
    {
        Span { text: String::from_str(text) }
    }
}

/// A table column's alignment.
#[derive(Clone, Copy, Debug, PartialEq, Eq)]
pub enum Alignment {
    Default,
    Left,
    Center,
    Right,
}

/// One block of a parsed document.
#[derive(Clone, Debug, PartialEq, Eq)]
pub enum MarkdownBlock {
    Heading { level: u8, spans: Vec<Span> },
    Paragraph(Vec<Span>),
    /// `ordered` is the number the list starts at, for a numbered list.
    List { ordered: Option<u64>, items: Vec<Vec<Span>> },
    Quote(Vec<Vec<Span>>),
    Code { lang: Option<String>, text: String },
    Table { rows: Vec<Vec<Vec<Span>>>, alignments: Vec<Alignment> },
    /// A display formula; `source` is its LaTeX without the delimiters.
    Math { source: String },
    Rule,
}

/// `n` spaces.
pub open spec fn spaces(n: int) -> Seq<u8> {
    Seq::new(n as nat, |i: int| 32u8)
}

/// The bytes a line draws as, from cluster `k` on, standing at `column`.
pub open spec fn expand_walk(t: Seq<Cluster>, b: Seq<u8>, k: int, column: int) -> Seq<u8>
    decreases t.len() - k,
{
    if k < 0 || k >= t.len() {
        Seq::empty()
    } else if t[k].tab {
        spaces(cells_at(t[k], column)) + expand_walk(t, b, k + 1, sat(column + cells_at(t[k], column)))
    } else {
        b.subrange(t[k].start as int, t[k].start + t[k].len) + expand_walk(
            t,
            b,
            k + 1,
            sat(column + cells_at(t[k], column)),
        )
    }
}

/// The bytes a line draws as: every tab the spaces to the next stop.
pub open spec fn expanded(line: Seq<char>) -> Seq<u8> {
    expand_walk(clusters(line), utf8(line), 0, 0)
}

fn one_space() -> (s: &'static str)
    ensures
        utf8(s@) == seq![32u8],
{
    proof {
        reveal_strlit(" ");
    }
    let s = " ";
    proof {
        assert(s@ =~= seq![' ']);
        crate::utf8_text::lemma_ascii_literal(s@);
        assert(utf8(s@) =~= seq![32u8]);
    }
    s
}

/// A line as it is drawn — every tab already the spaces it stands in for, up
/// to the next stop of four cells.
///
/// The crate's own expansion, over its own grapheme clusters and widths. The
/// Markdown renderer's expansion and its tab width are not part of this crate;
/// the two agree only as far as the renderer also stops every four cells.
pub fn expand_tabs(line: &str) -> (out: String)
    ensures
        utf8(out@) == expanded(line@),
{
    let t = cluster_table(line);
    let ghost b = utf8(line@);
    let n_bytes = crate::utf8_text::byte_len(line);
    let mut out = String::new();
    let mut column: usize = 0;
    let mut k: usize = 0;
    proof {
        assert(utf8(out@) =~= Seq::<u8>::empty());
    }
    while k < t.len()
        invariant
            t@ == clusters(line@),
            table_tiles(t@, b),
            b == utf8(line@),
            n_bytes == b.len(),
            0 <= k <= t.len(),
            utf8(out@) + expand_walk(t@, b, k as int, column as int) == expand_walk(t@, b, 0, 0),
        decreases t.len() - k,
    {
        let c = t[k];
        if c.tab {
            let n = TAB_WIDTH - column % TAB_WIDTH;
            let ghost base = utf8(out@);
            let mut j: usize = 0;
            while j < n
                invariant
                    0 <= j <= n,
                    utf8(out@) == base + spaces(j as int),
                decreases n - j,
            {
                push_str(&mut out, one_space());
                assert(spaces(j as int) + seq![32u8] =~= spaces(j + 1));
                j = j + 1;
            }
            proof {
                assert(base + spaces(n as int) + expand_walk(t@, b, k + 1, sat(column + n))
                    =~= base + (spaces(n as int) + expand_walk(t@, b, k + 1, sat(column + n))));
            }
            column = sat_add(column, n);
        } else {
            proof {
                crate::preview_edit::lemma_table_bounds(t@, b, k as int);
                let e = c.start + c.len;
                crate::utf8_text::lemma_utf8_ends(line@);
                if (k + 1) < t@.len() {
                    assert(t@[k + 1].start == e);
                    assert(crate::utf8_text::boundary(b, t@[k + 1].start as int));
                } else {
                    assert(e == b.len());
                }
                assert(crate::utf8_text::boundary(b, t@[k as int].start as int));
            }
            let piece = slice(line, c.start, c.start + c.len);
            let ghost base = utf8(out@);
            push_str(&mut out, piece);
            proof {
                assert(base + utf8(piece@) + expand_walk(t@, b, k + 1, sat(column + c.cells))
                    =~= base + (utf8(piece@) + expand_walk(t@, b, k + 1, sat(column + c.cells))));
            }
            column = sat_add(column, c.cells);
        }
        k = k + 1;
    }
    proof {
        assert(utf8(out@) + Seq::<u8>::empty() =~= utf8(out@));
    }
    out
}

} // verus!
