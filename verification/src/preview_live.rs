//! The live preview's one rule: the block whose source range contains the
//! caret is drawn as source, and every other block is drawn rendered.
//!
//! A block's range runs from the first byte of its first line to the end of
//! its last line, that line's own ending included, so the bytes between two
//! ranges belong to no block. A caret standing there is in a gap, drawn as one
//! empty source line under the block in front of it.
//!
//! Every function here is a function of the ranges, the bytes and an offset:
//! which block is the caret's block is a fact about the document and the
//! caret, and it cannot change because somebody dragged a window edge.
use std::ops::Range;
use vstd::prelude::*;
use crate::preview_edit::{
    byte_at_column, byte_at_column_spec, column_of, column_of_spec, healed, lemma_healed, lemma_line_bounds,
    lemma_line_of, lemma_normalized, lemma_own_starts_readable, lemma_piece_chars, lemma_starts_shape, line_bounds, line_bounds_of,
    line_chars, line_columns, line_index, line_of, line_starts, line_starts_of, line_text, normalize,
    normalized, offset_at, offset_at_spec, row_of_spec, row_span_spec, sorted, EditCaret, Motion,
    WrapLayout,
};
use crate::utf8_text::{boundary, byte_len, bytes_of, lemma_utf8_ends, slice, utf8};

verus! {

broadcast use vstd::utf8::encode_utf8_valid_utf8;

/// Where the caret is standing, in the document's own terms.
///
/// One answer rather than two functions: "which block is source" and "which
/// gap is the caret in" are the two arms of a single walk.
#[derive(Clone, Copy, Debug, PartialEq, Eq, Structural)]
pub enum CaretSeat {
    /// The caret is inside this block's source range: this is the source
    /// block.
    Block(usize),
    /// The caret is between two blocks and no block is source. `after` is the
    /// block the gap's empty line stands under, or `None` in front of the first
    /// block (and in a document with no blocks at all).
    Gap { after: Option<usize> },
}

impl CaretSeat {
    /// The block drawn as source, when there is one.
    pub fn block(self) -> (r: Option<usize>)
        ensures
            r == (match self {
                CaretSeat::Block(index) => Some(index),
                CaretSeat::Gap { .. } => None,
            }),
    {
        match self {
            CaretSeat::Block(index) => Some(index),
            CaretSeat::Gap { .. } => None,
        }
    }
}

/// Block ranges as the parser hands them over: each one in order, none
/// overlapping the next.
pub open spec fn ranges_ordered(r: Seq<Range<usize>>) -> bool {
    &&& forall|i: int| 0 <= i < r.len() ==> #[trigger] r[i].start <= r[i].end
    &&& forall|i: int, j: int| #![trigger r[i], r[j]] 0 <= i < j < r.len() ==> r[i].end <= r[j].start
}

/// The first range from `i` on that has not ended by `caret`, or the count.
pub open spec fn first_open_from(r: Seq<Range<usize>>, caret: int, i: int) -> int
    decreases r.len() - i,
{
    if i < 0 || i >= r.len() {
        r.len() as int
    } else if r[i].end > caret {
        i
    } else {
        first_open_from(r, caret, i + 1)
    }
}

/// Whether the body's last byte is a `\n`.
pub open spec fn ends_with_break(b: Seq<u8>) -> bool {
    b.len() > 0 && b[b.len() - 1] == 10u8
}

/// Which block a caret stands in.
///
/// Ranges are half-open: a caret at a range's start is in that block, and one
/// at its end belongs to the block that begins there or to the gap. The one
/// exception is the end of an unterminated last block, which is that block's.
pub open spec fn seat_of(b: Seq<u8>, r: Seq<Range<usize>>, caret: int) -> CaretSeat {
    let next = first_open_from(r, caret, 0);
    if next < r.len() && r[next].start <= caret {
        CaretSeat::Block(next as usize)
    } else if next > 0 && next == r.len() && r[next - 1].end == caret && caret == b.len()
        && !ends_with_break(b) {
        CaretSeat::Block((next - 1) as usize)
    } else {
        CaretSeat::Gap { after: if next > 0 { Some((next - 1) as usize) } else { None } }
    }
}

proof fn lemma_first_open(r: Seq<Range<usize>>, caret: int, p: int, i: int)
    requires
        0 <= i <= p <= r.len(),
        forall|k: int| 0 <= k < p ==> #[trigger] r[k].end <= caret,
        p < r.len() ==> r[p].end > caret,
    ensures
        first_open_from(r, caret, i) == p,
    decreases p - i,
{
    if i < p {
        lemma_first_open(r, caret, p, i + 1);
    }
}

/// The first block whose range has not ended by `caret`: a binary search,
/// because the ranges are ordered and this is asked on every keystroke.
fn first_open(ranges: &[Range<usize>], caret: usize) -> (p: usize)
    requires
        ranges_ordered(ranges@),
    ensures
        p == first_open_from(ranges@, caret as int, 0),
        p <= ranges@.len(),
{
    let mut lo: usize = 0;
    let mut hi: usize = ranges.len();
    while lo < hi
        invariant
            0 <= lo <= hi <= ranges@.len(),
            ranges_ordered(ranges@),
            forall|k: int| 0 <= k < lo ==> #[trigger] ranges@[k].end <= caret,
            forall|k: int| hi <= k < ranges@.len() ==> #[trigger] ranges@[k].end > caret,
        decreases hi - lo,
    {
        let mid = lo + (hi - lo) / 2;
        if ranges[mid].end <= caret {
            proof {
                assert forall|k: int| 0 <= k < mid + 1 implies #[trigger] ranges@[k].end <= caret by {
                    if k < mid {
                        assert(ranges@[k].end <= ranges@[mid as int].start);
                    }
                }
            }
            lo = mid + 1;
        } else {
            proof {
                assert forall|k: int| mid <= k < ranges@.len() implies #[trigger] ranges@[k].end > caret by {
                    if k > mid {
                        assert(ranges@[mid as int].end <= ranges@[k].start);
                    }
                }
            }
            hi = mid;
        }
    }
    proof {
        lemma_first_open(ranges@, caret as int, lo as int, 0);
    }
    lo
}

/// Which block a caret stands in — the one rule, as a function.
///
/// `ranges` is one byte range per block, in block order, ordered and never
/// overlapping.
pub fn caret_seat(content: &str, ranges: &[Range<usize>], caret: usize) -> (seat: CaretSeat)
    requires
        ranges_ordered(ranges@),
    ensures
        seat == seat_of(utf8(content@), ranges@, caret as int),
{
    let next = first_open(ranges, caret);
    if next < ranges.len() && ranges[next].start <= caret {
        return CaretSeat::Block(next);
    }
    if next > 0 {
        let last = next - 1;
        if next == ranges.len() && ranges[last].end == caret {
            let bytes = bytes_of(content);
            if caret == bytes.len() && !(bytes.len() > 0 && bytes[bytes.len() - 1] == 10u8) {
                return CaretSeat::Block(last);
            }
        }
        CaretSeat::Gap { after: Some(last) }
    } else {
        CaretSeat::Gap { after: None }
    }
}

/// The smaller of two integers.
pub open spec fn min_int(a: int, b: int) -> int {
    if a < b {
        a
    } else {
        b
    }
}

/// The byte span a block is drawn from: its range clamped to the body, its own
/// trailing line ending off (both bytes of a CRLF together).
pub open spec fn block_span(b: Seq<u8>, range: Range<usize>) -> (int, int) {
    let start = min_int(range.start as int, b.len() as int);
    let end0 = min_int(range.end as int, b.len() as int);
    let end = if end0 < start {
        start
    } else {
        end0
    };
    if end > start && b[end - 1] == 10u8 {
        if end - 1 > start && b[end - 2] == 13u8 {
            (start, end - 2)
        } else {
            (start, end - 1)
        }
    } else {
        (start, end)
    }
}

/// Whether a range, clamped to the body, starts and ends where characters do.
pub open spec fn range_on_boundaries(b: Seq<u8>, range: Range<usize>) -> bool {
    let start = min_int(range.start as int, b.len() as int);
    let end0 = min_int(range.end as int, b.len() as int);
    &&& boundary(b, start)
    &&& boundary(b, if end0 < start { start } else { end0 })
}

/// The bytes one block is drawn from, its own trailing line ending off.
///
/// Everything else survives untouched, trailing whitespace and blank lines
/// inside a fence included, because this is the file and not a rendering of
/// it.
pub fn block_source<'a>(content: &'a str, range: &Range<usize>) -> (text: &'a str)
    requires
        range_on_boundaries(utf8(content@), *range),
    ensures
        utf8(text@) == utf8(content@).subrange(
            block_span(utf8(content@), *range).0,
            block_span(utf8(content@), *range).1,
        ),
{
    let bytes = bytes_of(content);
    let len = bytes.len();
    let start = if range.start < len {
        range.start
    } else {
        len
    };
    let end0 = if range.end < len {
        range.end
    } else {
        len
    };
    let end = if end0 < start {
        start
    } else {
        end0
    };
    let mut stop = end;
    if end > start && bytes[end - 1] == 10u8 {
        if end - 1 > start && bytes[end - 2] == 13u8 {
            stop = end - 2;
        } else {
            stop = end - 1;
        }
    }
    slice(content, start, stop)
}

/// Where a byte of the file sits inside its block's source: the block's own
/// line it is on, and how far into that line it is in drawn columns.
pub open spec fn place_in_block_spec(b: Seq<u8>, r: Seq<Range<usize>>, block: int, offset: int) -> Option<
    (int, int),
> {
    if block < 0 || block >= r.len() {
        None
    } else {
        let range = r[block];
        let o = normalized(b, offset);
        let (s, e) = block_span(b, range);
        let t = b.subrange(s, e);
        let last = range.start + t.len();
        if o < range.start || o > last {
            None
        } else {
            let local = min_int(o - range.start, t.len() as int);
            let starts = line_starts_of(t);
            let line = line_of(starts, local);
            let (from, _) = line_bounds_of(t, starts, line);
            Some((line, column_of_spec(line_chars(t, line), local - from)))
        }
    }
}

/// Where a byte of the file sits inside its block's source.
///
/// The line is the block's own — zero is its first line — and the column is
/// in drawn cells. `None` when the offset is not in that block (or there is
/// no such block). The offset is first put where a caret may stand, so a
/// caret between the two bytes of a CRLF is pulled off the break.
pub fn place_in_block(content: &str, ranges: &[Range<usize>], block: usize, offset: usize) -> (r: Option<
    (usize, usize),
>)
    requires
        forall|i: int| 0 <= i < ranges@.len() ==> range_on_boundaries(utf8(content@), #[trigger] ranges@[i]),
    ensures
        match r {
            Some((line, column)) => place_in_block_spec(utf8(content@), ranges@, block as int, offset as int)
                == Some((line as int, column as int)),
            None => place_in_block_spec(utf8(content@), ranges@, block as int, offset as int).is_none(),
        },
{
    if block >= ranges.len() {
        return None;
    }
    let range = &ranges[block];
    let _ = byte_len(content);
    let offset = normalize(content, offset);
    proof {
        assert(range_on_boundaries(utf8(content@), ranges@[block as int]));
    }
    let text = block_source(content, range);
    let tlen = byte_len(text);
    proof {
        let b = utf8(content@);
        let (s, e) = block_span(b, *range);
        assert(s <= e <= b.len());
        assert(range.start as int + tlen as int <= usize::MAX) by {
            if range.start as int <= b.len() {
                assert(s == range.start);
            } else {
                assert(s == b.len());
                assert(tlen == 0);
            }
        }
    }
    let last = range.start + tlen;
    if offset < range.start || offset > last {
        return None;
    }
    let local = offset - range.start;
    let local = if local < tlen {
        local
    } else {
        tlen
    };
    let starts = line_starts(text);
    proof {
        lemma_starts_shape(utf8(text@), utf8(text@).len() as int);
        lemma_line_of(utf8(text@), local as int);
        lemma_line_bounds(utf8(text@), line_of(starts@, local as int));
    }
    let line = line_index(starts.as_slice(), local);
    let (start, _) = line_bounds(text, starts.as_slice(), line);
    let piece = line_text(text, starts.as_slice(), line);
    proof {
        lemma_piece_chars(piece@, utf8(piece@));
        assert(start <= local);
    }
    let column = column_of(piece, local - start);
    Some((line, column))
}

/// The source block as something a caret can be walked through: its bytes,
/// where they begin in the file, and how they fold into the width they are
/// drawn in.
#[derive(Clone, Copy, Debug)]
pub struct BlockRows<'a> {
    /// The block's own bytes, its trailing line ending off.
    pub text: &'a str,
    /// The file offset those bytes begin at.
    pub start: usize,
    /// How they fold, at the width the block is drawn in.
    pub wrap: &'a WrapLayout,
}

/// `x - y`, or zero when `y` is the larger.
pub open spec fn sat_sub(x: int, y: int) -> int {
    if x >= y {
        x - y
    } else {
        0
    }
}

impl<'a> BlockRows<'a> {
    /// A layout that was built, and a block whose last byte has a file offset.
    pub open spec fn valid(&self) -> bool {
        &&& self.wrap.wf()
        &&& self.start + utf8(self.text@).len() <= usize::MAX
    }

    /// The file offsets the block holds: its first byte through the end of its
    /// last line.
    pub open spec fn holds_spec(&self, offset: int) -> bool {
        self.start <= offset <= self.start + utf8(self.text@).len()
    }

    /// Where a file offset is drawn: the row of this block, and how far into
    /// that row it stands.
    pub open spec fn row_of_block(&self, offset: int) -> Option<(int, int)> {
        if !self.holds_spec(offset) {
            None
        } else {
            let t = utf8(self.text@);
            let local = normalized(t, offset - self.start);
            let starts = line_starts_of(t);
            let line = line_of(starts, local);
            let (from, _) = line_bounds_of(t, starts, line);
            let column = column_of_spec(line_chars(t, line), sat_sub(local, from));
            let (row, row_start) = row_of_spec(*self.wrap, line, column);
            Some((row, sat_sub(column, row_start)))
        }
    }

    /// The file byte a drawn row and a column inside it name.
    pub open spec fn offset_at_block(&self, row: int, column: int) -> int {
        let t = utf8(self.text@);
        match row_span_spec(*self.wrap, row) {
            None => self.start + t.len(),
            Some((line, from, to)) => {
                let starts = line_starts_of(t);
                let chars = line_chars(t, line);
                let wanted = from + min_int(column, sat_sub(to, from));
                let c = min_int(wanted, column_of_spec(chars, utf8(chars).len() as int));
                let (line_start, _) = line_bounds_of(t, starts, line);
                self.start + line_start + byte_at_column_spec(chars, c)
            },
        }
    }

    /// Whether a file offset stands inside these bytes.
    ///
    /// Inclusive at both ends: the end of the last line is where a caret at
    /// the end of a paragraph stands.
    pub fn holds(&self, offset: usize) -> (r: bool)
        requires
            self.valid(),
        ensures
            r == self.holds_spec(offset as int),
    {
        let len = byte_len(self.text);
        self.start <= offset && offset <= self.start + len
    }

    /// Where a file offset is drawn: the row of this block, and how far into
    /// that row it stands.
    ///
    /// The column is measured inside the row rather than inside the line, so
    /// a walk down a folded paragraph keeps its place in the row.
    pub fn row_of(&self, offset: usize) -> (r: Option<(usize, usize)>)
        requires
            self.valid(),
        ensures
            match r {
                Some((row, column)) => self.row_of_block(offset as int) == Some((row as int, column as int)),
                None => self.row_of_block(offset as int).is_none(),
            },
            r is Some == self.holds_spec(offset as int),
    {
        if !self.holds(offset) {
            return None;
        }
        let _ = byte_len(self.text);
        let local = normalize(self.text, offset - self.start);
        let starts = line_starts(self.text);
        proof {
            let t = utf8(self.text@);
            lemma_normalized(t, (offset - self.start) as int);
            lemma_starts_shape(t, t.len() as int);
        }
        let line = line_index(starts.as_slice(), local);
        proof {
            lemma_own_starts_readable(utf8(self.text@), line as int);
        }
        let (from, _) = line_bounds(self.text, starts.as_slice(), line);
        let piece = line_text(self.text, starts.as_slice(), line);
        proof {
            lemma_piece_chars(piece@, utf8(piece@));
        }
        let column = column_of(piece, if local >= from {
            local - from
        } else {
            0
        });
        let (row, row_start) = self.wrap.row_of(line, column);
        Some((row, if column >= row_start {
            column - row_start
        } else {
            0
        }))
    }

    /// The file byte a drawn row and a column inside it name — `row_of` read
    /// backwards, and the whole of a click landing in the source block.
    ///
    /// A column past the end of the row lands at the end of the row's text; a
    /// row past the end of the block is the end of the block.
    pub fn offset_at(&self, row: usize, column: usize) -> (offset: usize)
        requires
            self.valid(),
        ensures
            offset == self.offset_at_block(row as int, column as int),
    {
        let len = byte_len(self.text);
        let (line, from, to) = match self.wrap.row_span(row) {
            Some(span) => span,
            None => return self.start + len,
        };
        let starts = line_starts(self.text);
        proof {
            lemma_starts_shape(utf8(self.text@), utf8(self.text@).len() as int);
            lemma_line_bounds(utf8(self.text@), line as int);
        }
        let piece = line_text(self.text, starts.as_slice(), line);
        proof {
            lemma_piece_chars(piece@, utf8(piece@));
        }
        let room = if to >= from {
            to - from
        } else {
            0
        };
        let wanted = from + if column < room {
            column
        } else {
            room
        };
        let columns = line_columns(piece);
        let c = if wanted < columns {
            wanted
        } else {
            columns
        };
        let (line_start, line_end) = line_bounds(self.text, starts.as_slice(), line);
        let at = byte_at_column(piece, c);
        proof {
            assert(utf8(piece@).len() == line_end - line_start);
        }
        self.start + line_start + at
    }
}

/// **A row and an offset read each other back**: the byte a block draws at
/// a row and a column is the byte that was asked where it is drawn, so a
/// click on a caret lands on the caret's own byte.
///
/// It holds for an offset that starts a grapheme cluster of its line's own
/// table, or ends the line's text, when every cluster of that line draws at
/// least one cell (a zero-width cluster shares its column with the byte
/// before it), the fold has one line for each line of the block, drawing the
/// line's own width, and that width is short of the largest column.
pub proof fn law_a_row_and_an_offset_read_each_other_back<'a>(rows: BlockRows<'a>, offset: int)
    requires
        rows.valid(),
        rows.holds_spec(offset),
        ({
            let t = utf8(rows.text@);
            let local = offset - rows.start;
            let s = line_starts_of(t);
            let line = line_of(s, local);
            let from = line_bounds_of(t, s, line).0;
            let chars = line_chars(t, line);
            let ct = crate::unicode::clusters(chars);
            &&& local <= line_bounds_of(t, s, line).1
            &&& rows.wrap.breaks_spec().len() == s.len()
            &&& rows.wrap.widths_spec()[line] == column_of_spec(chars, utf8(chars).len() as int)
            &&& rows.wrap.widths_spec()[line] < usize::MAX
            &&& crate::unicode::table_tiles(ct, utf8(chars))
            &&& crate::preview_edit::draws_each(ct)
            &&& (local - from == utf8(chars).len() || exists|m: int|
                0 <= m < ct.len() && #[trigger] ct[m].start == local - from)
        }),
    ensures
        rows.row_of_block(offset) is Some,
        rows.offset_at_block(rows.row_of_block(offset).unwrap().0, rows.row_of_block(offset).unwrap().1)
            == offset,
{
    let t = utf8(rows.text@);
    let local = offset - rows.start;
    let s = line_starts_of(t);
    lemma_line_of(t, local);
    let line = line_of(s, local);
    lemma_line_bounds(t, line);
    lemma_starts_shape(t, t.len() as int);
    let (from, end) = line_bounds_of(t, s, line);
    let chars = line_chars(t, line);
    crate::utf8_text::lemma_slice_valid(t, from, end);
    assert(utf8(chars) == t.subrange(from, end));
    let n = utf8(chars).len() as int;
    let k = local - from;
    let ct = crate::unicode::clusters(chars);
    crate::preview_edit::lemma_column_walk_mono(ct, 0, k, n, 0);
    let col = column_of_spec(chars, k);
    crate::preview_edit::lemma_walk_back(ct, utf8(chars), 0, k, 0);
    crate::preview_edit::lemma_row_of_lands_in_span(*rows.wrap, line, col);
}

/// Whether a motion is one row up or down (a line or a page).
pub open spec fn is_vertical(motion: Motion) -> bool {
    motion == Motion::Up || motion == Motion::Down || motion == Motion::PageUp || motion == Motion::PageDown
}

/// How far a vertical motion steps, signed: a page is a screenful, and never
/// less than one row.
pub open spec fn row_step(motion: Motion, page_rows: int) -> int {
    let page = if page_rows < 1 {
        1
    } else {
        page_rows
    };
    if motion == Motion::Up {
        -1
    } else if motion == Motion::Down {
        1
    } else if motion == Motion::PageUp {
        -page
    } else {
        page
    }
}

/// **A page steps as far up as down**: Up and Down step one row, PageUp and
/// PageDown step a page — the rows the body shows, at least one — PageUp as
/// far back as PageDown goes forward.
pub proof fn law_a_page_up_undoes_a_page_down(page_rows: int)
    ensures
        row_step(Motion::Up, page_rows) == -1,
        row_step(Motion::Down, page_rows) == 1,
        row_step(Motion::PageDown, page_rows) == (if page_rows < 1 {
            1
        } else {
            page_rows
        }),
        row_step(Motion::PageUp, page_rows) == -row_step(Motion::PageDown, page_rows),
{
}

/// The caret after one step of the file's own lines, keeping `wanted`.
pub open spec fn stepped_by_line(b: Seq<u8>, c: EditCaret, step: int, wanted: int) -> EditCaret {
    let starts = line_starts_of(b);
    let line = line_of(starts, c.caret as int);
    let target = line + step;
    let landed = if target < 0 {
        0
    } else if target >= starts.len() {
        b.len() as int
    } else {
        offset_at_spec(b, target, wanted)
    };
    EditCaret { caret: normalized(b, landed) as usize, desired_column: Some(wanted as usize), ..c }
}

/// **A step of the file's lines lands on the line it names**: stepping `step`
/// lines from the caret's line lands on that line — inside it, from its first
/// byte on — or, off the top, at the start of the body, and off the bottom at
/// its end; the anchor stays and the column wanted is kept. It holds for any
/// landing line whose grapheme table tiles it, as every table the segmenter
/// gives does.
pub proof fn law_a_line_step_lands_on_the_line_it_names(b: Seq<u8>, c: EditCaret, step: int, wanted: int)
    requires
        vstd::utf8::valid_utf8(b),
        b.len() <= usize::MAX,
        0 <= wanted <= usize::MAX,
        ({
            let s = line_starts_of(b);
            let target = line_of(s, c.caret as int) + step;
            0 <= target < s.len() ==> crate::unicode::table_tiles(
                crate::unicode::clusters(line_chars(b, target)),
                utf8(line_chars(b, target)),
            )
        }),
    ensures
        ({
            let s = line_starts_of(b);
            let target = line_of(s, c.caret as int) + step;
            let r = stepped_by_line(b, c, step, wanted);
            &&& target < 0 ==> r.caret == 0
            &&& target >= s.len() ==> r.caret == b.len()
            &&& 0 <= target < s.len() ==> s[target] <= r.caret && line_of(s, r.caret as int) == target
            &&& r.anchor == c.anchor
            &&& r.desired_column == Some(wanted as usize)
        }),
{
    let s = line_starts_of(b);
    lemma_line_of(b, c.caret as int);
    lemma_starts_shape(b, b.len() as int);
    crate::utf8_text::lemma_valid_starts_at_boundary(b);
    let target = line_of(s, c.caret as int) + step;
    assert(crate::preview_edit::back_to_boundary(b, 0) == 0);
    assert(crate::preview_edit::back_to_boundary(b, b.len() as int) == b.len());
    if 0 <= target < s.len() {
        lemma_line_bounds(b, target);
        let (start, end) = line_bounds_of(b, s, target);
        assert(start == s[target]);
        let chars = line_chars(b, target);
        crate::utf8_text::lemma_slice_valid(b, start, end);
        assert(utf8(chars) == b.subrange(start, end));
        crate::preview_edit::lemma_byte_walk_bound(crate::unicode::clusters(chars), utf8(chars), 0, wanted, 0);
        assert(target < s.len() - 1 || target == s.len() - 1);
        let x = offset_at_spec(b, target, wanted);
        assert(start <= x <= end);
        lemma_normalized(b, x);
        crate::preview_edit::lemma_back_to_boundary_ge(b, x, start);
        if start > 0 {
            assert(b[start - 1] == 10u8);
        }
        let y = normalized(b, x);
        assert(start <= y <= end);
        if target + 1 < s.len() {
            assert(s[target] < s[target + 1]);
            assert(b[s[target + 1] - 1] == 10u8);
        }
        assert forall|i: int| 0 <= i < target + 1 implies s[i] <= y by {
            if i < target {
                assert(s[i] < s[target]);
            }
        }
        assert forall|i: int| target + 1 <= i < s.len() implies s[i] > y by {
            if i > target + 1 {
                assert(s[target + 1] < s[i]);
            }
        }
        crate::preview_edit::lemma_count_le_unique(s, y, target + 1);
    }
}

/// The column the caret stands at on the file's own line.
pub open spec fn file_column(b: Seq<u8>, caret: int) -> int {
    let starts = line_starts_of(b);
    let line = line_of(starts, caret);
    let (start, _) = line_bounds_of(b, starts, line);
    column_of_spec(line_chars(b, line), sat_sub(caret, start))
}

/// Where a vertical step on a live-preview page leaves the caret.
pub open spec fn stepped_by_row(
    b: Seq<u8>,
    block: Option<BlockRows>,
    c0: EditCaret,
    motion: Motion,
    page_rows: int,
) -> EditCaret {
    let step = row_step(motion, page_rows);
    let c = healed(c0, b);
    match block {
        Some(rows) if rows.holds_spec(c.caret as int) && rows.row_of_block(c.caret as int).is_some() => {
            let (row, column) = rows.row_of_block(c.caret as int).unwrap();
            let wanted = match c.desired_column {
                Some(d) => d as int,
                None => column,
            };
            let target = row + step;
            if 0 <= target < rows.wrap.rows_spec() {
                EditCaret {
                    caret: normalized(b, rows.offset_at_block(target, wanted)) as usize,
                    desired_column: Some(wanted as usize),
                    ..c
                }
            } else {
                stepped_by_line(b, c, step, wanted)
            }
        },
        _ => {
            let wanted = match c.desired_column {
                Some(d) => d as int,
                None => file_column(b, c.caret as int),
            };
            stepped_by_line(b, c, step, wanted)
        },
    }
}

/// The file's own line model, stepped: off either end of the file is that
/// end, and the desired column is kept either way.
fn step_by_line(content: &str, caret: &mut EditCaret, up: bool, by: usize, wanted: usize)
    requires
        old(caret).caret <= utf8(content@).len(),
    ensures
        *final(caret) == stepped_by_line(utf8(content@), *old(caret), if up { -(by as int) } else { by as int }, wanted as int),
{
    let len = byte_len(content);
    let starts = line_starts(content);
    proof {
        lemma_starts_shape(utf8(content@), utf8(content@).len() as int);
        lemma_line_of(utf8(content@), caret.caret as int);
    }
    let line = line_index(starts.as_slice(), caret.caret);
    let landed = if up {
        if by > line {
            0
        } else {
            offset_at(content, line - by, wanted)
        }
    } else {
        match line.checked_add(by) {
            Some(target) => if target >= starts.len() {
                len
            } else {
                offset_at(content, target, wanted)
            },
            None => len,
        }
    };
    caret.caret = normalize(content, landed);
    caret.desired_column = Some(wanted);
}

/// One row up or down on a live-preview page, wherever the caret stands.
///
/// `true` when the motion was a vertical one and the caret has been moved;
/// `false` for every other motion, which the file's own line model answers.
///
/// Inside the source block (drawn on the monospace grid) a row is a folded
/// row of that block. Off its top or bottom row — and in a gap, or with no
/// source block — the step is a step of the file's own lines, which lands in
/// the block above, the block below, or the blank line between them.
pub fn step_by_row(
    content: &str,
    block: Option<BlockRows>,
    caret: &mut EditCaret,
    motion: Motion,
    page_rows: usize,
) -> (moved: bool)
    requires
        match block {
            Some(rows) => rows.valid(),
            None => true,
        },
    ensures
        moved == is_vertical(motion),
        moved ==> *final(caret) == stepped_by_row(utf8(content@), block, *old(caret), motion, page_rows as int),
        !moved ==> *final(caret) == *old(caret),
{
    let (up, by) = match motion {
        Motion::Up => (true, 1usize),
        Motion::Down => (false, 1usize),
        Motion::PageUp => (true, if page_rows < 1 {
            1
        } else {
            page_rows
        }),
        Motion::PageDown => (false, if page_rows < 1 {
            1
        } else {
            page_rows
        }),
        _ => return false,
    };
    let _ = byte_len(content);
    caret.heal(content);
    proof {
        lemma_healed(*old(caret), utf8(content@));
    }
    let ghost c = *caret;
    let ghost step = if up { -(by as int) } else { by as int };
    assert(step == row_step(motion, page_rows as int));
    assert(c == healed(*old(caret), utf8(content@)));
    if let Some(rows) = block {
        if rows.holds(caret.caret) {
            if let Some((row, column)) = rows.row_of(caret.caret) {
                let wanted = match caret.desired_column {
                    Some(d) => d,
                    None => column,
                };
                let count = rows.wrap.rows();
                let target = if up {
                    if by > row || row - by >= count {
                        None
                    } else {
                        Some(row - by)
                    }
                } else {
                    match row.checked_add(by) {
                        Some(t) => if t < count {
                            Some(t)
                        } else {
                            None
                        },
                        None => None,
                    }
                };
                assert(rows.row_of_block(c.caret as int) == Some((row as int, column as int)));
                assert(target.is_some() <==> 0 <= row + step < rows.wrap.rows_spec());
                match target {
                    Some(t) => {
                        assert(t == row + step);
                        let landed = rows.offset_at(t, wanted);
                        caret.caret = normalize(content, landed);
                        caret.desired_column = Some(wanted);
                    },
                    None => {
                        step_by_line(content, caret, up, by, wanted);
                    },
                }
                return true;
            }
        }
    }
    let starts = line_starts(content);
    proof {
        lemma_starts_shape(utf8(content@), utf8(content@).len() as int);
        lemma_line_of(utf8(content@), caret.caret as int);
        lemma_line_bounds(utf8(content@), line_of(starts@, caret.caret as int));
    }
    let line = line_index(starts.as_slice(), caret.caret);
    let (start, _) = line_bounds(content, starts.as_slice(), line);
    let piece = line_text(content, starts.as_slice(), line);
    proof {
        lemma_piece_chars(piece@, utf8(piece@));
    }
    let column = column_of(piece, if caret.caret >= start {
        caret.caret - start
    } else {
        0
    });
    let wanted = match caret.desired_column {
        Some(d) => d,
        None => column,
    };
    step_by_line(content, caret, up, by, wanted);
    true
}

} // verus!
