//! Selecting the words of a rendered document.
//!
//! A rendered Markdown page is a tree of blocks, some of which hold several
//! runs of text apiece (a list's items, a quote's lines, a table's cells, a
//! fence's lines). The unit here is the piece — one run of text set as one
//! paragraph — and a place is which block, which piece and how far into it.
//! Places compare in the order the page is read in.
//!
//! What copies is what was read: a heading without its hashes, a quote without
//! its `>`. The two exceptions are a list item's mark, which copies as the
//! document's own `- ` or `3. `, and a formula, which copies as its source.
use std::ops::Range;
use vstd::prelude::*;
use crate::markdown::{expand_tabs, expanded, MarkdownBlock, Span};
use crate::preview_edit::lemma_table_bounds;
use crate::unicode::{cluster_table, clusters, table_tiles, Cluster};
use crate::utf8_text::{boundary, byte_len, bytes_of, concat, lemma_after_ascii, push_str, slice, utf8};

verus! {

broadcast use vstd::utf8::encode_utf8_valid_utf8;

/// Where one end of a selection stands in a rendered document.
///
/// The field order is document order: block, then piece, then offset.
#[derive(Clone, Copy, Debug, Default, PartialEq, Eq, Structural, PartialOrd, Ord)]
pub struct Place {
    /// Index into the document's blocks.
    pub block: usize,
    /// Which piece of that block, numbered as [`pieces`] numbers them.
    pub piece: usize,
    /// Byte offset into that piece's text.
    pub offset: usize,
}

/// `a` comes strictly before `b` on the page.
pub open spec fn place_lt(a: Place, b: Place) -> bool {
    a.block < b.block || (a.block == b.block && (a.piece < b.piece || (a.piece == b.piece && a.offset
        < b.offset)))
}

/// `a` comes no later than `b` on the page.
pub open spec fn place_le(a: Place, b: Place) -> bool {
    a == b || place_lt(a, b)
}

/// The same piece, at its beginning.
pub open spec fn piece_start(p: Place) -> Place {
    Place { offset: 0, ..p }
}

/// Whether `a` comes no later than `b`, compared field by field.
pub fn place_le_exec(a: Place, b: Place) -> (r: bool)
    ensures
        r == place_le(a, b),
{
    if a.block != b.block {
        a.block < b.block
    } else if a.piece != b.piece {
        a.piece < b.piece
    } else {
        a.offset <= b.offset
    }
}

impl Place {
    pub fn new(block: usize, piece: usize, offset: usize) -> (p: Self)
        ensures
            p == (Place { block, piece, offset }),
    {
        Place { block, piece, offset }
    }
}

/// How much of the document one gesture takes at a time.
#[derive(Clone, Copy, Debug, Default, PartialEq, Eq, Structural)]
pub enum Grain {
    /// One character at a time — a press and a drag.
    #[default]
    Character,
    /// Whole words — a double click, and the drag that continues from it.
    Word,
    /// Whole pieces — a triple click: a paragraph, not one fold of it.
    Piece,
}

/// A selection over a rendered document: where the drag began, where it is
/// now, and how much it takes at a time. Unnormalized on purpose; readers ask
/// [`Selection::range`].
#[derive(Clone, Copy, Debug, PartialEq, Eq, Structural)]
pub struct Selection {
    pub anchor: Place,
    pub head: Place,
    pub grain: Grain,
}

/// The two ends of a selection in document order, before either has grown.
pub open spec fn ordered(s: Selection) -> (Place, Place) {
    if place_le(s.anchor, s.head) {
        (s.anchor, s.head)
    } else {
        (s.head, s.anchor)
    }
}

/// What separates a piece from the one before it, when both are copied.
#[derive(Clone, Copy, Debug, PartialEq, Eq, Structural)]
pub enum Lead {
    /// A new block — a blank line.
    Block,
    /// Another row of the same block.
    Line,
    /// The next cell of the same table row — a tab.
    Cell,
}

/// The bytes a lead writes.
pub open spec fn lead_bytes(l: Lead) -> Seq<u8> {
    match l {
        Lead::Block => seq![10u8, 10u8],
        Lead::Line => seq![10u8],
        Lead::Cell => seq![9u8],
    }
}

impl Lead {
    fn text(self) -> (s: &'static str)
        ensures
            utf8(s@) == lead_bytes(self),
    {
        match self {
            Lead::Block => {
                proof {
                    reveal_strlit("\n\n");
                }
                let s = "\n\n";
                proof {
                    crate::utf8_text::lemma_ascii_literal(s@);
                    assert(utf8(s@) =~= seq![10u8, 10u8]);
                }
                s
            },
            Lead::Line => {
                proof {
                    reveal_strlit("\n");
                }
                let s = "\n";
                proof {
                    crate::utf8_text::lemma_ascii_literal(s@);
                    assert(utf8(s@) =~= seq![10u8]);
                }
                s
            },
            Lead::Cell => {
                proof {
                    reveal_strlit("\t");
                }
                let s = "\t";
                proof {
                    crate::utf8_text::lemma_ascii_literal(s@);
                    assert(utf8(s@) =~= seq![9u8]);
                }
                s
            },
        }
    }
}

/// One run of a document's text that a selection can stand inside.
#[derive(Clone, Debug, PartialEq, Eq)]
pub struct Piece {
    /// This piece's own beginning; its offset is always zero.
    pub at: Place,
    pub lead: Lead,
    /// Written in front of the text when the selection reaches this piece's
    /// beginning: a list item's mark, and nothing else.
    pub prefix: String,
    /// What is read here, exactly as it is set on the glass.
    pub text: String,
    /// Any touch takes all of it — a display formula.
    pub atomic: bool,
}

/// A piece as a value: its text and prefix as bytes.
pub struct PieceView {
    pub at: Place,
    pub lead: Lead,
    pub prefix: Seq<u8>,
    pub text: Seq<u8>,
    pub atomic: bool,
}

impl View for Piece {
    type V = PieceView;

    open spec fn view(&self) -> PieceView {
        PieceView {
            at: self.at,
            lead: self.lead,
            prefix: utf8(self.prefix@),
            text: utf8(self.text@),
            atomic: self.atomic,
        }
    }
}

// ── words ───────────────────────────────────────────────────────────────────

/// What kind of thing a cluster is, as a double click reads it.
#[derive(Clone, Copy, Debug, PartialEq, Eq, Structural)]
pub enum WordClass {
    /// Blank space: a space, a tab, a line break.
    Space,
    /// Letters, digits, `_`, and every character outside ASCII.
    Word,
    /// The rest of ASCII: the punctuation a word stops at.
    Punct,
}

/// The class of a cluster, read off its first byte.
///
/// This is the crate's own rule. The word classifier the viewport uses for a
/// double click elsewhere in the product is not part of this crate, so nothing
/// here ties the two together: in particular, every character outside ASCII
/// counts as a word character here, punctuation and spaces of other scripts
/// included.
pub open spec fn class_of_byte(x: u8) -> WordClass {
    if x == 32u8 || x == 9u8 || x == 10u8 || x == 13u8 || x == 11u8 || x == 12u8 {
        WordClass::Space
    } else if x >= 128u8 || (48u8 <= x <= 57u8) || (65u8 <= x <= 90u8) || (97u8 <= x <= 122u8) || x
        == 95u8 {
        WordClass::Word
    } else {
        WordClass::Punct
    }
}

fn class_of(x: u8) -> (c: WordClass)
    ensures
        c == class_of_byte(x),
{
    if x == 32u8 || x == 9u8 || x == 10u8 || x == 13u8 || x == 11u8 || x == 12u8 {
        WordClass::Space
    } else if x >= 128u8 || (48u8 <= x && x <= 57u8) || (65u8 <= x && x <= 90u8) || (97u8 <= x && x
        <= 122u8) || x == 95u8 {
        WordClass::Word
    } else {
        WordClass::Punct
    }
}

/// The class of the `k`th cluster of a table over `b`.
pub open spec fn cluster_class(t: Seq<Cluster>, b: Seq<u8>, k: int) -> WordClass {
    class_of_byte(b[t[k].start as int])
}

/// The last cluster among the first `k` that starts at or before `offset`, or
/// zero.
pub open spec fn last_at_or_before(t: Seq<Cluster>, offset: int, k: int) -> int
    decreases k,
{
    if k <= 0 {
        0
    } else if t[k - 1].start <= offset {
        k - 1
    } else {
        last_at_or_before(t, offset, k - 1)
    }
}

/// The cluster an offset stands on: the one it is in, or the last one when it
/// is at or past the end.
pub open spec fn cluster_index(t: Seq<Cluster>, n: int, offset: int) -> int {
    if offset >= n {
        t.len() - 1
    } else {
        last_at_or_before(t, offset, t.len() as int)
    }
}

/// The first cluster of the run of `class` that ends at cluster `k`.
pub open spec fn run_back(t: Seq<Cluster>, b: Seq<u8>, class: WordClass, k: int) -> int
    decreases k,
{
    if k > 0 && cluster_class(t, b, k - 1) == class {
        run_back(t, b, class, k - 1)
    } else {
        k
    }
}

/// The last cluster of the run of `class` that starts at cluster `k`.
pub open spec fn run_fwd(t: Seq<Cluster>, b: Seq<u8>, class: WordClass, k: int) -> int
    decreases t.len() - k,
{
    if 0 <= k && k + 1 < t.len() && cluster_class(t, b, k + 1) == class {
        run_fwd(t, b, class, k + 1)
    } else {
        k
    }
}

/// The smaller of two integers.
pub open spec fn min(a: int, b: int) -> int {
    if a < b {
        a
    } else {
        b
    }
}

/// Where the word around `offset` begins.
pub open spec fn word_start_spec(text: Seq<char>, offset: int) -> int {
    let t = clusters(text);
    let b = utf8(text);
    if t.len() == 0 {
        min(offset, b.len() as int)
    } else {
        let at = cluster_index(t, b.len() as int, offset);
        t[run_back(t, b, cluster_class(t, b, at), at)].start as int
    }
}

/// Where the word around `offset` ends.
pub open spec fn word_end_spec(text: Seq<char>, offset: int) -> int {
    let t = clusters(text);
    let b = utf8(text);
    let clamped = min(offset, b.len() as int);
    if t.len() == 0 {
        clamped
    } else {
        let at = cluster_index(t, b.len() as int, offset);
        let e = run_fwd(t, b, cluster_class(t, b, at), at);
        let next = if e + 1 < t.len() {
            t[e + 1].start as int
        } else {
            b.len() as int
        };
        if next > clamped {
            next
        } else {
            clamped
        }
    }
}

proof fn lemma_last_at_or_before(t: Seq<Cluster>, offset: int, k: int)
    requires
        0 < k <= t.len(),
    ensures
        0 <= last_at_or_before(t, offset, k) < k,
        forall|j: int| last_at_or_before(t, offset, k) < j < k ==> #[trigger] t[j].start > offset,
        t[0].start <= offset ==> t[last_at_or_before(t, offset, k)].start <= offset,
    decreases k,
{
    if t[k - 1].start > offset {
        if k > 1 {
            lemma_last_at_or_before(t, offset, k - 1);
        } else {
            assert(last_at_or_before(t, offset, 0) == 0);
        }
    }
}

proof fn lemma_run_back(t: Seq<Cluster>, b: Seq<u8>, class: WordClass, k: int)
    requires
        0 <= k < t.len(),
    ensures
        0 <= run_back(t, b, class, k) <= k,
    decreases k,
{
    if k > 0 && cluster_class(t, b, k - 1) == class {
        lemma_run_back(t, b, class, k - 1);
    }
}

proof fn lemma_run_fwd(t: Seq<Cluster>, b: Seq<u8>, class: WordClass, k: int)
    requires
        0 <= k < t.len(),
    ensures
        k <= run_fwd(t, b, class, k) < t.len(),
    decreases t.len() - k,
{
    if k + 1 < t.len() && cluster_class(t, b, k + 1) == class {
        lemma_run_fwd(t, b, class, k + 1);
    }
}

/// Cluster starts climb: a later cluster starts after an earlier one.
proof fn lemma_starts_climb(t: Seq<Cluster>, b: Seq<u8>, j: int, k: int)
    requires
        table_tiles(t, b),
        0 <= j < k < t.len(),
    ensures
        t[j].start < t[k].start,
    decreases k - j,
{
    assert(t[(k - 1) + 1].start == t[k - 1].start + t[k - 1].len);
    if j < k - 1 {
        lemma_starts_climb(t, b, j, k - 1);
    }
}

/// The class of the `k`th cluster.
fn class_at(bytes: &[u8], t: &Vec<Cluster>, k: usize) -> (c: WordClass)
    requires
        table_tiles(t@, bytes@),
        k < t@.len(),
    ensures
        c == cluster_class(t@, bytes@, k as int),
{
    proof {
        lemma_table_bounds(t@, bytes@, k as int);
    }
    class_of(bytes[t[k].start])
}

/// The cluster an offset stands on, in the table of a string of `n` bytes.
fn cluster_index_exec(t: &Vec<Cluster>, n: usize, offset: usize) -> (at: usize)
    requires
        t@.len() > 0,
    ensures
        at == cluster_index(t@, n as int, offset as int),
        at < t@.len(),
{
    if offset >= n {
        return t.len() - 1;
    }
    let mut k = t.len();
    while k > 0 && t[k - 1].start > offset
        invariant
            0 <= k <= t@.len(),
            last_at_or_before(t@, offset as int, k as int) == last_at_or_before(
                t@,
                offset as int,
                t@.len() as int,
            ),
        decreases k,
    {
        k = k - 1;
    }
    if k == 0 {
        0
    } else {
        k - 1
    }
}

/// The word around an offset lies either side of it: its start at or before
/// the offset (or the end, for an offset past it), its end at or after, and on
/// a text with anything in it the word is never empty.
proof fn lemma_word_around(text: Seq<char>, offset: int)
    requires
        table_tiles(clusters(text), utf8(text)),
        offset >= 0,
    ensures
        word_start_spec(text, offset) <= min(offset, utf8(text).len() as int) <= word_end_spec(
            text,
            offset,
        ),
        utf8(text).len() > 0 ==> word_start_spec(text, offset) < word_end_spec(text, offset),
{
    let t = clusters(text);
    let b = utf8(text);
    if t.len() > 0 {
        let at = cluster_index(t, b.len() as int, offset);
        lemma_last_at_or_before(t, offset, t.len() as int);
        assert(0 <= at < t.len());
        let class = cluster_class(t, b, at);
        lemma_run_back(t, b, class, at);
        let first = run_back(t, b, class, at);
        if first < at {
            lemma_starts_climb(t, b, first, at);
        }
        lemma_table_bounds(t, b, at);
        let e = run_fwd(t, b, class, at);
        lemma_run_fwd(t, b, class, at);
        if e + 1 < t.len() {
            lemma_starts_climb(t, b, at, e + 1);
        }
    }
}

/// Where the word around `offset` begins.
///
/// Grapheme clusters are classed as space, word or punctuation, and a word is
/// a run of one class; a double click takes the run it landed in.
pub fn word_start(text: &str, offset: usize) -> (r: usize)
    ensures
        r == word_start_spec(text@, offset as int),
        r <= utf8(text@).len(),
        boundary(utf8(text@), r as int),
        r <= offset,
        utf8(text@).len() > 0 ==> r < word_end_spec(text@, offset as int),
{
    let t = cluster_table(text);
    proof {
        lemma_word_around(text@, offset as int);
    }
    let bytes = bytes_of(text);
    let n = bytes.len();
    if t.len() == 0 {
        proof {
            assert(n == 0);
        }
        return if offset < n {
            offset
        } else {
            n
        };
    }
    let at = cluster_index_exec(&t, n, offset);
    let class = class_at(bytes, &t, at);
    let mut start = at;
    while start > 0 && class_at(bytes, &t, start - 1) == class
        invariant
            t@ == clusters(text@),
            table_tiles(t@, bytes@),
            bytes@ == utf8(text@),
            0 <= start <= at < t@.len(),
            class == cluster_class(t@, bytes@, at as int),
            run_back(t@, bytes@, class, start as int) == run_back(t@, bytes@, class, at as int),
        decreases start,
    {
        start = start - 1;
    }
    proof {
        lemma_table_bounds(t@, bytes@, start as int);
    }
    t[start].start
}

/// Where the word around `offset` ends — `word_start`'s other side.
pub fn word_end(text: &str, offset: usize) -> (r: usize)
    ensures
        r == word_end_spec(text@, offset as int),
        r <= utf8(text@).len(),
        boundary(utf8(text@), r as int),
        r >= min(offset as int, utf8(text@).len() as int),
        utf8(text@).len() > 0 ==> word_start_spec(text@, offset as int) < r,
{
    let t = cluster_table(text);
    proof {
        lemma_word_around(text@, offset as int);
    }
    let bytes = bytes_of(text);
    let n = bytes.len();
    let clamped = if offset < n {
        offset
    } else {
        n
    };
    if t.len() == 0 {
        proof {
            assert(n == 0);
        }
        return clamped;
    }
    let at = cluster_index_exec(&t, n, offset);
    let class = class_at(bytes, &t, at);
    let mut end = at;
    while end + 1 < t.len() && class_at(bytes, &t, end + 1) == class
        invariant
            t@ == clusters(text@),
            table_tiles(t@, bytes@),
            bytes@ == utf8(text@),
            0 <= at <= end < t@.len(),
            class == cluster_class(t@, bytes@, at as int),
            run_fwd(t@, bytes@, class, end as int) == run_fwd(t@, bytes@, class, at as int),
        decreases t@.len() - end,
    {
        end = end + 1;
    }
    let next = if end + 1 < t.len() {
        proof {
            lemma_table_bounds(t@, bytes@, end + 1);
        }
        t[end + 1].start
    } else {
        n
    };
    proof {
        if offset < n {
            lemma_last_at_or_before(t@, offset as int, t@.len() as int);
            if end + 1 < t@.len() {
                assert(t@[end + 1].start > offset);
            }
        }
    }
    if next > clamped {
        next
    } else {
        clamped
    }
}

// ── the pieces ──────────────────────────────────────────────────────────────

/// One paragraph's spans as the bytes a reader sees.
pub open spec fn spans_text(spans: Seq<Span>) -> Seq<u8>
    decreases spans.len(),
{
    if spans.len() == 0 {
        Seq::empty()
    } else {
        spans_text(spans.drop_last()) + utf8(spans.last().text@)
    }
}

/// The decimal digits of `n`, most significant first.
pub open spec fn decimal(n: nat) -> Seq<u8>
    decreases n,
{
    if n < 10 {
        seq![(48 + n) as u8]
    } else {
        decimal(n / 10) + seq![(48 + n % 10) as u8]
    }
}

/// `a + b` for a `u64`, stopping at the largest one.
pub open spec fn sat_add_u64(a: int, b: int) -> int {
    if a + b > u64::MAX {
        u64::MAX as int
    } else {
        a + b
    }
}

/// What a list item copies in front of its words: `3. ` counting from the
/// number the document wrote, or `- `.
pub open spec fn list_prefix_spec(ordered: Option<u64>, index: int) -> Seq<u8> {
    match ordered {
        Some(first) => decimal(sat_add_u64(first as int, index) as nat) + seq![46u8, 32u8],
        None => seq![45u8, 32u8],
    }
}

/// A row of a multi-row block: the first opens the block, the rest are lines.
pub open spec fn row_lead(index: int) -> Lead {
    if index == 0 {
        Lead::Block
    } else {
        Lead::Line
    }
}

/// The piece view of a run of text with no prefix.
pub open spec fn plain_piece(block: int, index: int, lead: Lead, text: Seq<u8>) -> PieceView {
    PieceView {
        at: Place { block: block as usize, piece: index as usize, offset: 0 },
        lead,
        prefix: Seq::empty(),
        text,
        atomic: false,
    }
}

/// The first `\n` at or after `i`, or the end.
pub open spec fn next_break(b: Seq<u8>, i: int) -> int
    decreases b.len() - i,
{
    if i < 0 || i >= b.len() {
        b.len() as int
    } else if b[i] == 10u8 {
        i
    } else {
        next_break(b, i + 1)
    }
}

pub proof fn lemma_next_break(b: Seq<u8>, i: int)
    requires
        0 <= i <= b.len(),
    ensures
        i <= next_break(b, i) <= b.len(),
        next_break(b, i) < b.len() ==> b[next_break(b, i)] == 10u8,
        forall|k: int| i <= k < next_break(b, i) ==> b[k] != 10u8,
    decreases b.len() - i,
{
    if i < b.len() && b[i] != 10u8 {
        lemma_next_break(b, i + 1);
    }
}

/// The lines of a fence from byte `i` on, as `str::lines` cuts them: at every
/// `\n`, a `\r` before it dropped too, and no empty line after a final break.
pub open spec fn code_lines_from(b: Seq<u8>, i: int) -> Seq<(int, int)>
    decreases b.len() - i,
{
    if i < 0 || i >= b.len() {
        Seq::empty()
    } else {
        let nl = next_break(b, i);
        let end = if nl < b.len() && nl > i && b[nl - 1] == 13u8 {
            nl - 1
        } else {
            nl
        };
        if nl >= b.len() {
            seq![(i, end)]
        } else if nl < i {
            Seq::empty()
        } else {
            seq![(i, end)] + code_lines_from(b, nl + 1)
        }
    }
}

/// A fence's pieces, one per line from line `k` on, with the tabs already
/// spent.
pub open spec fn code_pieces(b: Seq<u8>, lines: Seq<(int, int)>, block: int) -> Seq<PieceView> {
    Seq::new(
        lines.len(),
        |k: int|
            plain_piece(
                block,
                k,
                row_lead(k),
                expanded(vstd::utf8::decode_utf8(b.subrange(lines[k].0, lines[k].1))),
            ),
    )
}

/// What separates a table cell from the one before it.
pub open spec fn cell_lead(row: int, column: int) -> Lead {
    if row == 0 && column == 0 {
        Lead::Block
    } else if column == 0 {
        Lead::Line
    } else {
        Lead::Cell
    }
}

/// The pieces of one table row, numbered on from `base`.
pub open spec fn row_pieces(cells: Seq<Vec<Span>>, block: int, row: int, base: int) -> Seq<PieceView> {
    Seq::new(
        cells.len(),
        |c: int| plain_piece(block, base + c, cell_lead(row, c), spans_text(cells[c]@)),
    )
}

/// The pieces of a table from row `r` on, numbered on from `base`: one per
/// cell, row by row.
pub open spec fn table_pieces(rows: Seq<Vec<Vec<Span>>>, block: int, r: int, base: int) -> Seq<PieceView>
    decreases rows.len() - r,
{
    if r < 0 || r >= rows.len() {
        Seq::empty()
    } else {
        row_pieces(rows[r]@, block, r, base) + table_pieces(rows, block, r + 1, base + rows[r]@.len())
    }
}

/// `$$`, twice over: the delimiters a formula copies with.
pub open spec fn dollars() -> Seq<u8> {
    seq![36u8, 36u8]
}

/// One block's pieces, numbered — the authority the layout agrees with.
pub open spec fn block_pieces_spec(content: MarkdownBlock, block: int) -> Seq<PieceView> {
    match content {
        MarkdownBlock::Heading { spans, .. } => seq![plain_piece(block, 0, Lead::Block, spans_text(spans@))],
        MarkdownBlock::Paragraph(spans) => seq![plain_piece(block, 0, Lead::Block, spans_text(spans@))],
        MarkdownBlock::List { ordered, items } => Seq::new(
            items@.len(),
            |i: int|
                PieceView {
                    at: Place { block: block as usize, piece: i as usize, offset: 0 },
                    lead: row_lead(i),
                    prefix: list_prefix_spec(ordered, i),
                    text: spans_text(items@[i]@),
                    atomic: false,
                },
        ),
        MarkdownBlock::Quote(lines) => Seq::new(
            lines@.len(),
            |i: int| plain_piece(block, i, row_lead(i), spans_text(lines@[i]@)),
        ),
        MarkdownBlock::Code { text, .. } => code_pieces(utf8(text@), code_lines_from(utf8(text@), 0), block),
        MarkdownBlock::Table { rows, .. } => table_pieces(rows@, block, 0, 0),
        MarkdownBlock::Math { source } => seq![
            PieceView {
                at: Place { block: block as usize, piece: 0, offset: 0 },
                lead: Lead::Block,
                prefix: Seq::empty(),
                text: dollars() + utf8(source@) + dollars(),
                atomic: true,
            },
        ],
        MarkdownBlock::Rule => Seq::empty(),
    }
}

/// The pieces of the first `n` blocks, in the order the page is read in.
pub open spec fn pieces_upto(blocks: Seq<MarkdownBlock>, n: int) -> Seq<PieceView>
    decreases n,
{
    if n <= 0 || n > blocks.len() {
        Seq::empty()
    } else {
        pieces_upto(blocks, n - 1) + block_pieces_spec(blocks[n - 1], n - 1)
    }
}

/// Every piece of a rendered document, in the order the page is read in.
pub open spec fn pieces_of(blocks: Seq<MarkdownBlock>) -> Seq<PieceView> {
    pieces_upto(blocks, blocks.len() as int)
}

/// The views of a list of pieces.
pub open spec fn views(ps: Seq<Piece>) -> Seq<PieceView> {
    ps.map_values(|p: Piece| p@)
}

proof fn lemma_views_push(ps: Seq<Piece>, p: Piece)
    ensures
        views(ps.push(p)) == views(ps).push(p@),
{
    assert(views(ps.push(p)) =~= views(ps).push(p@));
}

/// One paragraph's spans as the string a reader sees.
fn span_text(spans: &Vec<Span>) -> (out: String)
    ensures
        utf8(out@) == spans_text(spans@),
{
    let mut out = String::new();
    let mut i: usize = 0;
    proof {
        assert(utf8(out@) =~= Seq::<u8>::empty());
        assert(spans@.take(0) =~= Seq::<Span>::empty());
    }
    while i < spans.len()
        invariant
            0 <= i <= spans@.len(),
            utf8(out@) == spans_text(spans@.take(i as int)),
        decreases spans@.len() - i,
    {
        push_str(&mut out, spans[i].text.as_str());
        proof {
            assert(spans@.take(i + 1).drop_last() =~= spans@.take(i as int));
        }
        i = i + 1;
    }
    proof {
        assert(spans@.take(i as int) =~= spans@);
    }
    out
}

/// The one-digit string of `d`.
pub(crate) fn digit(d: u64) -> (s: &'static str)
    requires
        d < 10,
    ensures
        utf8(s@) == seq![(48 + d) as u8],
{
    proof {
        reveal_strlit("0123456789");
    }
    let all = "0123456789";
    proof {
        crate::utf8_text::lemma_ascii_literal(all@);
        let b = utf8(all@);
        assert(b[d as int] == 48 + d);
        crate::utf8_text::lemma_ascii_is_boundary(b, d as int);
        if d + 1 < 10 {
            crate::utf8_text::lemma_ascii_is_boundary(b, d + 1);
        }
    }
    let s = slice(all, d as usize, (d + 1) as usize);
    proof {
        assert(utf8(s@) =~= seq![(48 + d) as u8]);
    }
    s
}

/// `n` in decimal.
pub(crate) fn decimal_string(n: u64) -> (s: String)
    ensures
        utf8(s@) == decimal(n as nat),
    decreases n,
{
    if n < 10 {
        String::from_str(digit(n))
    } else {
        let mut s = decimal_string(n / 10);
        push_str(&mut s, digit(n % 10));
        s
    }
}

/// `". "`, the mark after a list number.
fn dot_space() -> (r: &'static str)
    ensures
        utf8(r@) == seq![46u8, 32u8],
{
    proof {
        reveal_strlit(". ");
    }
    let s = ". ";
    proof {
        crate::utf8_text::lemma_ascii_literal(s@);
        assert(utf8(s@) =~= seq![46u8, 32u8]);
    }
    s
}

/// `"- "`, a bullet as the document writes it.
fn dash_space() -> (r: &'static str)
    ensures
        utf8(r@) == seq![45u8, 32u8],
{
    proof {
        reveal_strlit("- ");
    }
    let s = "- ";
    proof {
        crate::utf8_text::lemma_ascii_literal(s@);
        assert(utf8(s@) =~= seq![45u8, 32u8]);
    }
    s
}

/// What a list item copies in front of its words.
fn list_prefix(ordered: Option<u64>, index: usize) -> (out: String)
    ensures
        utf8(out@) == list_prefix_spec(ordered, index as int),
{
    match ordered {
        Some(first) => {
            let n = first.saturating_add(index as u64);
            let mut out = decimal_string(n);
            push_str(&mut out, dot_space());
            out
        },
        None => {
            String::from_str(dash_space())
        },
    }
}

/// Push one piece onto a list of them.
fn push_piece(pieces: &mut Vec<Piece>, p: Piece)
    ensures
        views(final(pieces)@) == views(old(pieces)@).push(p@),
        final(pieces)@.len() == old(pieces)@.len() + 1,
{
    proof {
        lemma_views_push(pieces@, p);
    }
    pieces.push(p);
}

/// The empty string.
fn nothing() -> (s: String)
    ensures
        utf8(s@) == Seq::<u8>::empty(),
{
    let s = String::new();
    proof {
        assert(utf8(s@) =~= Seq::<u8>::empty());
    }
    s
}

/// `"$$"`.
fn dollar_pair() -> (r: &'static str)
    ensures
        utf8(r@) == dollars(),
{
    proof {
        reveal_strlit("$$");
    }
    let s = "$$";
    proof {
        crate::utf8_text::lemma_ascii_literal(s@);
        assert(utf8(s@) =~= dollars());
    }
    s
}

/// The pieces of a fence, one per line, pushed in order.
fn code_pieces_into(text: &str, block: usize, pieces: &mut Vec<Piece>)
    ensures
        views(final(pieces)@) == views(old(pieces)@) + code_pieces(
            utf8(text@),
            code_lines_from(utf8(text@), 0),
            block as int,
        ),
{
    let bytes = bytes_of(text);
    let n = bytes.len();
    let ghost b = bytes@;
    let ghost base = views(pieces@);
    let ghost mut done: Seq<(int, int)> = Seq::empty();
    let start_len = pieces.len();
    let mut i: usize = 0;
    let mut k: usize = 0;
    proof {
        assert(code_lines_from(b, 0) =~= done + code_lines_from(b, 0));
        assert(code_pieces(b, done, block as int) =~= Seq::<PieceView>::empty());
        assert(views(pieces@) =~= base + code_pieces(b, done, block as int));
    }
    while i < n
        invariant
            b == bytes@,
            b == utf8(text@),
            n == b.len(),
            0 <= i <= n,
            boundary(b, i as int),
            k == done.len(),
            code_lines_from(b, 0) == done + code_lines_from(b, i as int),
            views(pieces@) == base + code_pieces(b, done, block as int),
            pieces@.len() == start_len + k,
        decreases n - i,
    {
        let mut nl = i;
        while nl < n && bytes[nl] != 10u8
            invariant
                b == bytes@,
                n == b.len(),
                i <= nl <= n,
                next_break(b, nl as int) == next_break(b, i as int),
            decreases n - nl,
        {
            nl = nl + 1;
        }
        proof {
            lemma_next_break(b, i as int);
        }
        let end = if nl < n && nl > i && bytes[nl - 1] == 13u8 {
            nl - 1
        } else {
            nl
        };
        proof {
            if end < n {
                crate::utf8_text::lemma_ascii_is_boundary(b, end as int);
            }
        }
        let line = slice(text, i, end);
        let drawn = expand_tabs(line);
        proof {
            crate::preview_edit::lemma_piece_chars(line@, utf8(line@));
        }
        let p = Piece {
            at: Place { block, piece: k, offset: 0 },
            lead: if k == 0 {
                Lead::Block
            } else {
                Lead::Line
            },
            prefix: nothing(),
            text: drawn,
            atomic: false,
        };
        let ghost before = views(pieces@);
        push_piece(pieces, p);
        proof {
            let nd = done.push((i as int, end as int));
            assert(code_pieces(b, nd, block as int) =~= code_pieces(b, done, block as int).push(p@));
            assert(views(pieces@) =~= base + code_pieces(b, nd, block as int));
            if nl < n {
                assert(code_lines_from(b, i as int) == seq![(i as int, end as int)] + code_lines_from(
                    b,
                    nl + 1,
                ));
                assert(done + code_lines_from(b, i as int) =~= nd + code_lines_from(b, nl + 1));
                lemma_after_ascii(b, nl as int);
            } else {
                assert(code_lines_from(b, i as int) == seq![(i as int, end as int)]);
                assert(code_lines_from(b, n as int) =~= Seq::<(int, int)>::empty());
                assert(done + code_lines_from(b, i as int) =~= nd + code_lines_from(b, n as int));
            }
            done = nd;
        }
        let count = pieces.len();
        k = count - start_len;
        i = if nl < n {
            nl + 1
        } else {
            n
        };
    }
    proof {
        assert(code_lines_from(b, i as int) =~= Seq::<(int, int)>::empty());
        assert(done + code_lines_from(b, i as int) =~= done);
    }
}

/// The pieces of a table, one per cell, row by row.
fn table_pieces_into(rows: &Vec<Vec<Vec<Span>>>, block: usize, pieces: &mut Vec<Piece>)
    ensures
        views(final(pieces)@) == views(old(pieces)@) + table_pieces(rows@, block as int, 0, 0),
{
    let start_len = pieces.len();
    let ghost target = views(pieces@) + table_pieces(rows@, block as int, 0, 0);
    let mut r: usize = 0;
    proof {
        assert(views(pieces@) + table_pieces(rows@, block as int, 0, 0) =~= target);
    }
    while r < rows.len()
        invariant
            0 <= r <= rows@.len(),
            start_len <= pieces@.len(),
            views(pieces@) + table_pieces(rows@, block as int, r as int, pieces@.len() - start_len) == target,
        decreases rows@.len() - r,
    {
        let cells = &rows[r];
        let ghost base = pieces@.len() - start_len;
        let ghost row = row_pieces(cells@, block as int, r as int, base);
        let ghost rest = table_pieces(rows@, block as int, r + 1, base + cells@.len());
        proof {
            assert(table_pieces(rows@, block as int, r as int, base) == row + rest);
            assert(views(pieces@) + row.skip(0) + rest =~= target);
        }
        let mut c: usize = 0;
        while c < cells.len()
            invariant
                0 <= c <= cells@.len(),
                cells@ == rows@[r as int]@,
                start_len <= pieces@.len(),
                pieces@.len() - start_len == base + c,
                row == row_pieces(cells@, block as int, r as int, base),
                views(pieces@) + row.skip(c as int) + rest == target,
            decreases cells@.len() - c,
        {
            let text = span_text(&cells[c]);
            let lead = if r == 0 && c == 0 {
                Lead::Block
            } else if c == 0 {
                Lead::Line
            } else {
                Lead::Cell
            };
            let index = pieces.len() - start_len;
            let p = Piece {
                at: Place { block, piece: index, offset: 0 },
                lead,
                prefix: nothing(),
                text,
                atomic: false,
            };
            let ghost before = views(pieces@);
            push_piece(pieces, p);
            proof {
                assert(p@ == row[c as int]);
                assert(row.skip(c as int) =~= seq![row[c as int]] + row.skip(c + 1));
                assert(before + row.skip(c as int) + rest =~= before.push(p@) + row.skip(c + 1) + rest);
            }
            c = c + 1;
        }
        proof {
            assert(row.skip(c as int) =~= Seq::<PieceView>::empty());
            assert(views(pieces@) + row.skip(c as int) =~= views(pieces@));
        }
        r = r + 1;
    }
    proof {
        assert(table_pieces(rows@, block as int, r as int, pieces@.len() - start_len) =~= Seq::<PieceView>::empty());
        assert(views(pieces@) + Seq::<PieceView>::empty() =~= views(pieces@));
    }
}

/// One block's pieces, numbered, pushed in order.
fn block_pieces(content: &MarkdownBlock, block: usize, pieces: &mut Vec<Piece>)
    ensures
        views(final(pieces)@) == views(old(pieces)@) + block_pieces_spec(*content, block as int),
{
    let ghost base = views(pieces@);
    match content {
        MarkdownBlock::Heading { spans, .. } => {
            let text = span_text(spans);
            let p = Piece { at: Place { block, piece: 0, offset: 0 }, lead: Lead::Block, prefix: nothing(), text, atomic: false };
            push_piece(pieces, p);
            assert(views(pieces@) =~= base + block_pieces_spec(*content, block as int));
        },
        MarkdownBlock::Paragraph(spans) => {
            let text = span_text(spans);
            let p = Piece { at: Place { block, piece: 0, offset: 0 }, lead: Lead::Block, prefix: nothing(), text, atomic: false };
            push_piece(pieces, p);
            assert(views(pieces@) =~= base + block_pieces_spec(*content, block as int));
        },
        MarkdownBlock::List { ordered, items } => {
            let ghost all = block_pieces_spec(*content, block as int);
            let mut i: usize = 0;
            proof {
                assert(views(pieces@) =~= base + all.take(0));
            }
            while i < items.len()
                invariant
                    0 <= i <= items@.len(),
                    all == block_pieces_spec(*content, block as int),
                    all.len() == items@.len(),
                    *content == (MarkdownBlock::List { ordered: *ordered, items: *items }),
                    views(pieces@) == base + all.take(i as int),
                decreases items@.len() - i,
            {
                let text = span_text(&items[i]);
                let prefix = list_prefix(*ordered, i);
                let p = Piece {
                    at: Place { block, piece: i, offset: 0 },
                    lead: if i == 0 {
                        Lead::Block
                    } else {
                        Lead::Line
                    },
                    prefix,
                    text,
                    atomic: false,
                };
                push_piece(pieces, p);
                proof {
                    assert(p@ == all[i as int]);
                    assert(all.take(i + 1) =~= all.take(i as int).push(all[i as int]));
                    assert(views(pieces@) =~= base + all.take(i + 1));
                }
                i = i + 1;
            }
            proof {
                assert(all.take(i as int) =~= all);
            }
        },
        MarkdownBlock::Quote(lines) => {
            let ghost all = block_pieces_spec(*content, block as int);
            let mut i: usize = 0;
            proof {
                assert(views(pieces@) =~= base + all.take(0));
            }
            while i < lines.len()
                invariant
                    0 <= i <= lines@.len(),
                    all == block_pieces_spec(*content, block as int),
                    all.len() == lines@.len(),
                    *content == MarkdownBlock::Quote(*lines),
                    views(pieces@) == base + all.take(i as int),
                decreases lines@.len() - i,
            {
                let text = span_text(&lines[i]);
                let p = Piece {
                    at: Place { block, piece: i, offset: 0 },
                    lead: if i == 0 {
                        Lead::Block
                    } else {
                        Lead::Line
                    },
                    prefix: nothing(),
                    text,
                    atomic: false,
                };
                push_piece(pieces, p);
                proof {
                    assert(p@ == all[i as int]);
                    assert(all.take(i + 1) =~= all.take(i as int).push(all[i as int]));
                    assert(views(pieces@) =~= base + all.take(i + 1));
                }
                i = i + 1;
            }
            proof {
                assert(all.take(i as int) =~= all);
            }
        },
        MarkdownBlock::Code { text, .. } => {
            code_pieces_into(text.as_str(), block, pieces);
        },
        MarkdownBlock::Table { rows, .. } => {
            table_pieces_into(rows, block, pieces);
        },
        MarkdownBlock::Math { source } => {
            let mut text = String::from_str(dollar_pair());
            push_str(&mut text, source.as_str());
            push_str(&mut text, dollar_pair());
            let p = Piece { at: Place { block, piece: 0, offset: 0 }, lead: Lead::Block, prefix: nothing(), text, atomic: true };
            push_piece(pieces, p);
            assert(views(pieces@) =~= base + block_pieces_spec(*content, block as int));
        },
        MarkdownBlock::Rule => {
            assert(views(pieces@) =~= base + block_pieces_spec(*content, block as int));
        },
    }
}

/// Every piece of a rendered document, in the order the page is read in.
///
/// This function is the authority on the numbering: a place's piece index is
/// the one it gives.
pub fn pieces(blocks: &[MarkdownBlock]) -> (r: Vec<Piece>)
    ensures
        views(r@) == pieces_of(blocks@),
{
    let mut out: Vec<Piece> = Vec::new();
    let mut i: usize = 0;
    proof {
        assert(views(out@) =~= pieces_upto(blocks@, 0));
    }
    while i < blocks.len()
        invariant
            0 <= i <= blocks@.len(),
            views(out@) == pieces_upto(blocks@, i as int),
        decreases blocks@.len() - i,
    {
        block_pieces(&blocks[i], i, &mut out);
        i = i + 1;
    }
    out
}

// ── reading a selection ─────────────────────────────────────────────────────

/// The index of the first piece, from `k` on, that stands at this block and
/// piece number, or the count.
pub open spec fn first_match(ps: Seq<PieceView>, block: int, piece: int, k: int) -> int
    decreases ps.len() - k,
{
    if k < 0 || k >= ps.len() {
        ps.len() as int
    } else if ps[k].at.block == block && ps[k].at.piece == piece {
        k
    } else {
        first_match(ps, block, piece, k + 1)
    }
}

proof fn lemma_first_match(ps: Seq<PieceView>, block: int, piece: int, k: int)
    requires
        0 <= k <= ps.len(),
    ensures
        k <= first_match(ps, block, piece, k) <= ps.len(),
        first_match(ps, block, piece, k) < ps.len() ==> ps[first_match(ps, block, piece, k)].at.block
            == block && ps[first_match(ps, block, piece, k)].at.piece == piece,
    decreases ps.len() - k,
{
    if k < ps.len() && !(ps[k].at.block == block && ps[k].at.piece == piece) {
        lemma_first_match(ps, block, piece, k + 1);
    }
}

/// The piece a place stands in, if the list still has one there.
pub open spec fn piece_at_spec(ps: Seq<PieceView>, place: Place) -> Option<PieceView> {
    let k = first_match(ps, place.block as int, place.piece as int, 0);
    if k < ps.len() {
        Some(ps[k])
    } else {
        None
    }
}

/// The piece a place stands in, built from its own block alone.
pub open spec fn piece_in_spec(blocks: Seq<MarkdownBlock>, place: Place) -> Option<PieceView> {
    if place.block < blocks.len() {
        piece_at_spec(block_pieces_spec(blocks[place.block as int], place.block as int), place)
    } else {
        None
    }
}

/// One end of a selection grown out to its grain's own boundary. An atom is
/// all or nothing whatever the grain.
pub open spec fn grow_spec(piece: Option<PieceView>, place: Place, grain: Grain, start_side: bool) -> Place {
    match piece {
        None => place,
        Some(p) => if p.atomic {
            if start_side {
                piece_start(place)
            } else {
                Place { offset: p.text.len() as usize, ..place }
            }
        } else {
            let text = vstd::utf8::decode_utf8(p.text);
            let offset = match grain {
                Grain::Character => place.offset as int,
                Grain::Word => if start_side {
                    word_start_spec(text, place.offset as int)
                } else {
                    word_end_spec(text, place.offset as int)
                },
                Grain::Piece => if start_side {
                    0
                } else {
                    p.text.len() as int
                },
            };
            Place { offset: offset as usize, ..place }
        },
    }
}

/// The two ends of a selection in document order, grown to its grain.
pub open spec fn range_spec(s: Selection, ps: Seq<PieceView>) -> (Place, Place) {
    let (start, end) = ordered(s);
    (
        grow_spec(piece_at_spec(ps, start), start, s.grain, true),
        grow_spec(piece_at_spec(ps, end), end, s.grain, false),
    )
}

/// The same, built from the document's blocks rather than its pieces.
pub open spec fn range_in_spec(s: Selection, blocks: Seq<MarkdownBlock>) -> (Place, Place) {
    let (start, end) = ordered(s);
    (
        grow_spec(piece_in_spec(blocks, start), start, s.grain, true),
        grow_spec(piece_in_spec(blocks, end), end, s.grain, false),
    )
}

/// The piece a place stands in, if the document still has one there.
pub fn piece_at(pieces: &[Piece], place: Place) -> (r: Option<&Piece>)
    ensures
        match r {
            Some(p) => piece_at_spec(views(pieces@), place) == Some(p@),
            None => piece_at_spec(views(pieces@), place).is_none(),
        },
{
    let ghost ps = views(pieces@);
    let mut k: usize = 0;
    while k < pieces.len()
        invariant
            ps == views(pieces@),
            ps.len() == pieces@.len(),
            0 <= k <= pieces@.len(),
            first_match(ps, place.block as int, place.piece as int, 0) == first_match(
                ps,
                place.block as int,
                place.piece as int,
                k as int,
            ),
        decreases pieces@.len() - k,
    {
        if pieces[k].at.block == place.block && pieces[k].at.piece == place.piece {
            assert(ps[k as int] == pieces@[k as int]@);
            return Some(&pieces[k]);
        }
        assert(ps[k as int] == pieces@[k as int]@);
        k = k + 1;
    }
    None
}

/// The piece one place stands in, built from the document without building
/// the rest of it.
pub fn piece_in(blocks: &[MarkdownBlock], place: Place) -> (r: Option<Piece>)
    ensures
        match r {
            Some(p) => piece_in_spec(blocks@, place) == Some(p@),
            None => piece_in_spec(blocks@, place).is_none(),
        },
{
    if place.block >= blocks.len() {
        return None;
    }
    let mut built: Vec<Piece> = Vec::new();
    block_pieces(&blocks[place.block], place.block, &mut built);
    proof {
        assert(views(built@) =~= block_pieces_spec(blocks@[place.block as int], place.block as int));
    }
    let ghost ps = views(built@);
    let mut k: usize = 0;
    while k < built.len()
        invariant
            ps == views(built@),
            ps == block_pieces_spec(blocks@[place.block as int], place.block as int),
            place.block < blocks@.len(),
            ps.len() == built@.len(),
            0 <= k <= built@.len(),
            first_match(ps, place.block as int, place.piece as int, 0) == first_match(
                ps,
                place.block as int,
                place.piece as int,
                k as int,
            ),
        decreases built@.len() - k,
    {
        if built[k].at.block == place.block && built[k].at.piece == place.piece {
            assert(ps[k as int] == built@[k as int]@);
            let p = built.remove(k);
            return Some(p);
        }
        assert(ps[k as int] == built@[k as int]@);
        k = k + 1;
    }
    None
}

/// Grow one end of a selection out to its grain's own boundary.
fn grow(piece: Option<&Piece>, place: Place, grain: Grain, start_side: bool) -> (r: Place)
    ensures
        r == grow_spec(
            match piece {
                Some(p) => Some(p@),
                None => None,
            },
            place,
            grain,
            start_side,
        ),
        match piece {
            Some(p) => !p@.atomic && grain == Grain::Word ==> (if start_side {
                r.offset <= min(place.offset as int, p@.text.len() as int)
            } else {
                min(place.offset as int, p@.text.len() as int) <= r.offset
            }),
            None => true,
        },
{
    let piece = match piece {
        Some(p) => p,
        None => return place,
    };
    let len = byte_len(piece.text.as_str());
    if piece.atomic {
        return if start_side {
            Place { offset: 0, ..place }
        } else {
            Place { offset: len, ..place }
        };
    }
    proof {
        crate::preview_edit::lemma_piece_chars(piece.text@, utf8(piece.text@));
    }
    let offset = match grain {
        Grain::Character => place.offset,
        Grain::Word => if start_side {
            word_start(piece.text.as_str(), place.offset)
        } else {
            word_end(piece.text.as_str(), place.offset)
        },
        Grain::Piece => if start_side {
            0
        } else {
            len
        },
    };
    Place { offset, ..place }
}

impl Selection {
    /// A selection that has been pressed and not yet dragged.
    pub fn collapsed(at: Place, grain: Grain) -> (s: Self)
        ensures
            s == (Selection { anchor: at, head: at, grain }),
    {
        Selection { anchor: at, head: at, grain }
    }

    /// The two ends in document order, before either has grown.
    fn ordered(&self) -> (r: (Place, Place))
        ensures
            r == ordered(*self),
    {
        if place_le_exec(self.anchor, self.head) {
            (self.anchor, self.head)
        } else {
            (self.head, self.anchor)
        }
    }

    /// The two ends in document order, already grown to the drag's grain.
    ///
    /// Grown here rather than at the press: a double click that then drags
    /// backwards keeps the whole of the word it started on.
    pub fn range(&self, pieces: &[Piece]) -> (r: (Place, Place))
        ensures
            r == range_spec(*self, views(pieces@)),
            place_le(r.0, r.1),
    {
        let (start, end) = self.ordered();
        let first = piece_at(pieces, start);
        let last = piece_at(pieces, end);
        let a = grow(first, start, self.grain, true);
        let b = grow(last, end, self.grain, false);
        proof {
            if start.block == end.block && start.piece == end.piece {
                assert(piece_at_spec(views(pieces@), start) == piece_at_spec(views(pieces@), end));
            }
        }
        (a, b)
    }

    /// `range` for a caller holding the document rather than its pieces: only
    /// the two blocks the ends stand in are built.
    pub fn range_in(&self, blocks: &[MarkdownBlock]) -> (r: (Place, Place))
        ensures
            r == range_in_spec(*self, blocks@),
            place_le(r.0, r.1),
    {
        let (start, end) = self.ordered();
        let first = piece_in(blocks, start);
        let last = piece_in(blocks, end);
        let a = grow(first.as_ref(), start, self.grain, true);
        let b = grow(last.as_ref(), end, self.grain, false);
        proof {
            if start.block == end.block && start.piece == end.piece {
                assert(piece_in_spec(blocks@, start) == piece_in_spec(blocks@, end));
            }
        }
        (a, b)
    }
}

/// How much of one piece a selection covers, in that piece's own bytes:
/// `None` outside it, all of an atom or none of it.
pub open spec fn piece_range_spec(p: PieceView, start: Place, end: Place) -> Option<(int, int)> {
    let at = piece_start(p.at);
    let len = p.text.len() as int;
    if place_lt(at, piece_start(start)) || place_lt(piece_start(end), at) {
        None
    } else if p.atomic {
        Some((0, len))
    } else {
        let from = if at == piece_start(start) {
            min(start.offset as int, len)
        } else {
            0
        };
        let to = if at == piece_start(end) {
            min(end.offset as int, len)
        } else {
            len
        };
        Some((from, to))
    }
}

/// How much of one piece a selection covers, in that piece's own bytes.
pub fn piece_range(piece: &Piece, start: Place, end: Place) -> (r: Option<Range<usize>>)
    ensures
        match r {
            Some(range) => piece_range_spec(piece@, start, end) == Some((range.start as int, range.end as int)),
            None => piece_range_spec(piece@, start, end).is_none(),
        },
{
    let at = Place { offset: 0, ..piece.at };
    let first = Place { offset: 0, ..start };
    let last = Place { offset: 0, ..end };
    if !place_le_exec(first, at) || !place_le_exec(at, last) {
        return None;
    }
    let len = byte_len(piece.text.as_str());
    if piece.atomic {
        return Some(0..len);
    }
    let from = if at == first {
        if start.offset < len {
            start.offset
        } else {
            len
        }
    } else {
        0
    };
    let to = if at == last {
        if end.offset < len {
            end.offset
        } else {
            len
        }
    } else {
        len
    };
    Some(from..to)
}

/// Whether the part of a piece a selection covers starts and ends where
/// characters do — which a selection grown from places a pointer named does.
pub open spec fn covers_whole_characters(p: PieceView, start: Place, end: Place) -> bool {
    match piece_range_spec(p, start, end) {
        Some((from, to)) => from < to ==> boundary(p.text, from) && boundary(p.text, to),
        None => true,
    }
}

/// The plain text of every piece from `k` on, between two places; `written`
/// says whether anything has been written before them.
pub open spec fn copied_from(ps: Seq<PieceView>, start: Place, end: Place, k: int, written: bool) -> Seq<u8>
    decreases ps.len() - k,
{
    if k < 0 || k >= ps.len() {
        Seq::empty()
    } else {
        let p = ps[k];
        match piece_range_spec(p, start, end) {
            Some((from, to)) => if from < to {
                (if written {
                    lead_bytes(p.lead)
                } else {
                    Seq::empty()
                }) + (if from == 0 {
                    p.prefix
                } else {
                    Seq::empty()
                }) + p.text.subrange(from, to) + copied_from(ps, start, end, k + 1, true)
            } else {
                copied_from(ps, start, end, k + 1, written)
            },
            None => copied_from(ps, start, end, k + 1, written),
        }
    }
}

/// The plain text of everything between two places.
///
/// Walks the document rather than the glass, so a selection running off the
/// bottom of the pane copies the blocks it reached. Pieces are parted by their
/// lead — a blank line between blocks, a break between rows, a tab between
/// cells — and a list item's mark is written when the selection reaches the
/// item's first byte.
pub fn copy_text(pieces: &[Piece], start: Place, end: Place) -> (out: String)
    requires
        forall|k: int| 0 <= k < pieces@.len() ==> covers_whole_characters(#[trigger] pieces@[k]@, start, end),
    ensures
        utf8(out@) == copied_from(views(pieces@), start, end, 0, false),
{
    let ghost ps = views(pieces@);
    let mut out = String::new();
    let mut written = false;
    let mut k: usize = 0;
    proof {
        assert(utf8(out@) =~= Seq::<u8>::empty());
    }
    while k < pieces.len()
        invariant
            ps == views(pieces@),
            ps.len() == pieces@.len(),
            0 <= k <= pieces@.len(),
            forall|j: int| 0 <= j < pieces@.len() ==> covers_whole_characters(#[trigger] pieces@[j]@, start, end),
            utf8(out@) + copied_from(ps, start, end, k as int, written) == copied_from(ps, start, end, 0, false),
        decreases pieces@.len() - k,
    {
        let piece = &pieces[k];
        assert(ps[k as int] == piece@);
        let range = match piece_range(piece, start, end) {
            Some(range) => range,
            None => {
                k = k + 1;
                continue;
            },
        };
        if range.start >= range.end {
            k = k + 1;
            continue;
        }
        let ghost before = utf8(out@);
        let ghost lead = if written {
            lead_bytes(piece.lead)
        } else {
            Seq::<u8>::empty()
        };
        if written {
            push_str(&mut out, piece.lead.text());
        }
        assert(utf8(out@) == before + lead);
        let ghost with_lead = utf8(out@);
        if range.start == 0 {
            push_str(&mut out, piece.prefix.as_str());
        }
        let ghost pre = if range.start == 0 {
            piece@.prefix
        } else {
            Seq::<u8>::empty()
        };
        assert(utf8(out@) == with_lead + pre);
        proof {
            assert(covers_whole_characters(pieces@[k as int]@, start, end));
        }
        let part = slice(piece.text.as_str(), range.start, range.end);
        push_str(&mut out, part);
        proof {
            assert(before + lead + pre + piece@.text.subrange(range.start as int, range.end as int) + copied_from(
                ps,
                start,
                end,
                k + 1,
                true,
            ) =~= before + (lead + pre + piece@.text.subrange(range.start as int, range.end as int)
                + copied_from(ps, start, end, k + 1, true)));
        }
        written = true;
        k = k + 1;
    }
    proof {
        assert(utf8(out@) + Seq::<u8>::empty() =~= utf8(out@));
    }
    out
}

/// Every piece of the document, from its first byte to its last — `Ctrl+A`.
///
/// `None` for a document with no text in it at all.
pub fn select_all(pieces: &[Piece]) -> (r: Option<Selection>)
    ensures
        match r {
            Some(s) => pieces@.len() > 0 && s == (Selection {
                anchor: pieces@[0].at,
                head: Place { offset: utf8(pieces@.last().text@).len() as usize, ..pieces@.last().at },
                grain: Grain::Character,
            }),
            None => pieces@.len() == 0,
        },
{
    if pieces.len() == 0 {
        return None;
    }
    let first = &pieces[0];
    let last = &pieces[pieces.len() - 1];
    let len = byte_len(last.text.as_str());
    Some(Selection { anchor: first.at, head: Place { offset: len, ..last.at }, grain: Grain::Character })
}

// ── laws ────────────────────────────────────────────────────────────────────

/// A drag reads the same whichever way it ran: swapping a selection's anchor
/// and head changes neither end of its range.
pub proof fn law_range_ignores_direction(a: Place, b: Place, grain: Grain, ps: Seq<PieceView>)
    ensures
        range_spec(Selection { anchor: a, head: b, grain }, ps) == range_spec(
            Selection { anchor: b, head: a, grain },
            ps,
        ),
{
    let f = Selection { anchor: a, head: b, grain };
    let r = Selection { anchor: b, head: a, grain };
    if a != b {
        assert(place_le(a, b) != place_le(b, a));
    }
    assert(ordered(f) == ordered(r));
}

proof fn lemma_first_match_shift(x: Seq<PieceView>, y: Seq<PieceView>, block: int, piece: int, j: int)
    requires
        0 <= j <= y.len(),
    ensures
        first_match(x + y, block, piece, x.len() + j) == x.len() + first_match(y, block, piece, j),
    decreases y.len() - j,
{
    if j < y.len() {
        assert((x + y)[x.len() + j] == y[j]);
        lemma_first_match_shift(x, y, block, piece, j + 1);
    }
}

proof fn lemma_first_match_concat(x: Seq<PieceView>, y: Seq<PieceView>, block: int, piece: int, k: int)
    requires
        0 <= k <= x.len(),
    ensures
        first_match(x + y, block, piece, k) == (if first_match(x, block, piece, k) < x.len() {
            first_match(x, block, piece, k)
        } else {
            x.len() + first_match(y, block, piece, 0)
        }),
    decreases x.len() - k,
{
    if k < x.len() {
        assert((x + y)[k] == x[k]);
        lemma_first_match_concat(x, y, block, piece, k + 1);
    } else {
        lemma_first_match_shift(x, y, block, piece, 0);
    }
}

/// The piece a place stands in, over two lists one after the other: the first
/// list's if it has one, else the second's.
proof fn lemma_piece_at_concat(x: Seq<PieceView>, y: Seq<PieceView>, place: Place)
    ensures
        piece_at_spec(x + y, place) == (if piece_at_spec(x, place).is_some() {
            piece_at_spec(x, place)
        } else {
            piece_at_spec(y, place)
        }),
{
    let (b, p) = (place.block as int, place.piece as int);
    lemma_first_match_concat(x, y, b, p, 0);
    lemma_first_match(x, b, p, 0);
    lemma_first_match(y, b, p, 0);
    let k = first_match(x, b, p, 0);
    if k < x.len() {
        assert((x + y)[k] == x[k]);
    } else {
        let j = first_match(y, b, p, 0);
        if j < y.len() {
            assert((x + y)[x.len() + j] == y[j]);
        }
    }
}

/// Every piece of a list stands in one block.
pub open spec fn all_in_block(ps: Seq<PieceView>, block: int) -> bool {
    forall|k: int| 0 <= k < ps.len() ==> #[trigger] ps[k].at.block == block
}

proof fn lemma_table_in_block(rows: Seq<Vec<Vec<Span>>>, block: int, r: int, base: int)
    requires
        0 <= block <= usize::MAX,
    ensures
        all_in_block(table_pieces(rows, block, r, base), block),
    decreases rows.len() - r,
{
    if 0 <= r < rows.len() {
        lemma_table_in_block(rows, block, r + 1, base + rows[r]@.len());
        let x = row_pieces(rows[r]@, block, r, base);
        let y = table_pieces(rows, block, r + 1, base + rows[r]@.len());
        assert forall|k: int| 0 <= k < (x + y).len() implies #[trigger] (x + y)[k].at.block == block by {
            if k < x.len() {
                assert((x + y)[k] == x[k]);
            } else {
                assert((x + y)[k] == y[k - x.len()]);
            }
        }
    }
}

proof fn lemma_block_pieces_in_block(content: MarkdownBlock, block: int)
    requires
        0 <= block <= usize::MAX,
    ensures
        all_in_block(block_pieces_spec(content, block), block),
{
    match content {
        MarkdownBlock::Table { rows, .. } => lemma_table_in_block(rows@, block, 0, 0),
        _ => {},
    }
}

proof fn lemma_piece_at_other_block(ps: Seq<PieceView>, block: int, place: Place)
    requires
        all_in_block(ps, block),
        place.block != block,
    ensures
        piece_at_spec(ps, place).is_none(),
{
    lemma_first_match(ps, place.block as int, place.piece as int, 0);
}

proof fn lemma_piece_at_upto(blocks: Seq<MarkdownBlock>, n: int, place: Place)
    requires
        0 <= n <= blocks.len(),
        blocks.len() <= usize::MAX,
    ensures
        piece_at_spec(pieces_upto(blocks, n), place) == (if place.block < n {
            piece_at_spec(block_pieces_spec(blocks[place.block as int], place.block as int), place)
        } else {
            None
        }),
    decreases n,
{
    if n == 0 {
        lemma_first_match(pieces_upto(blocks, 0), place.block as int, place.piece as int, 0);
    } else {
        lemma_piece_at_upto(blocks, n - 1, place);
        let x = pieces_upto(blocks, n - 1);
        let y = block_pieces_spec(blocks[n - 1], n - 1);
        lemma_piece_at_concat(x, y, place);
        lemma_block_pieces_in_block(blocks[n - 1], n - 1);
        if place.block != n - 1 {
            lemma_piece_at_other_block(y, n - 1, place);
        }
    }
}

/// Asking the document's blocks gives the same range as asking its full list
/// of pieces: the shortcut that builds only two blocks reads the page exactly
/// as the whole list does.
pub proof fn law_range_in_agrees_with_range(s: Selection, blocks: Seq<MarkdownBlock>)
    requires
        blocks.len() <= usize::MAX,
    ensures
        range_in_spec(s, blocks) == range_spec(s, pieces_of(blocks)),
{
    let (start, end) = ordered(s);
    lemma_piece_at_upto(blocks, blocks.len() as int, start);
    lemma_piece_at_upto(blocks, blocks.len() as int, end);
}

/// Whether any piece standing at this place's block and piece number is an
/// atom.
pub open spec fn atom_at(ps: Seq<PieceView>, p: Place) -> bool {
    exists|k: int|
        0 <= k < ps.len() && #[trigger] ps[k].at.block == p.block && ps[k].at.piece == p.piece
            && ps[k].atomic
}

proof fn lemma_nothing_copied(ps: Seq<PieceView>, p: Place, k: int)
    requires
        0 <= k <= ps.len(),
        !atom_at(ps, p),
    ensures
        copied_from(ps, p, p, k, false) == Seq::<u8>::empty(),
    decreases ps.len() - k,
{
    if k < ps.len() {
        lemma_nothing_copied(ps, p, k + 1);
        let q = ps[k];
        if piece_start(q.at) == piece_start(p) {
            assert(q.at.block == p.block && q.at.piece == p.piece);
        }
    }
}

/// A click that never travelled selects nothing: a collapsed selection of
/// single characters keeps its one place at both ends and copies nothing —
/// wherever it stands, short of inside a formula, which is taken whole.
pub proof fn law_click_selects_nothing(ps: Seq<PieceView>, p: Place)
    requires
        !atom_at(ps, p),
    ensures
        range_spec(Selection { anchor: p, head: p, grain: Grain::Character }, ps) == (p, p),
        copied_from(ps, p, p, 0, false) == Seq::<u8>::empty(),
{
    lemma_first_match(ps, p.block as int, p.piece as int, 0);
    lemma_nothing_copied(ps, p, 0);
}

} // verus!
