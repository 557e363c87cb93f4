//! The quick-edit surface's text model: where the caret is, what is selected,
//! and what one keystroke does to a body.
//!
//! Everything here is a function of a string and a byte offset. A caret is a
//! byte offset, always on a character boundary and never between a `\r` and
//! the `\n` it belongs to; [`normalize`] is where that is enforced. A column is
//! what is drawn — a tab is a stop every four cells, a wide character is two —
//! and a line break is the file's own.
use vstd::prelude::*;
use vstd::string::*;
use crate::unicode::{cluster_table, clusters, table_tiles, Cluster};
use crate::utf8_text::{
    boundary, byte_len, bytes_of, empty_str, is_boundary, lemma_after_ascii, lemma_utf8_ends, push_str,
    replace_range, slice, spliced, utf8,
};

verus! {

broadcast use vstd::utf8::encode_utf8_valid_utf8;

// ── the line model ──────────────────────────────────────────────────────────

/// The line starts of the first `n` bytes: zero, and one past every `\n`.
pub open spec fn starts_upto(b: Seq<u8>, n: int) -> Seq<usize>
    decreases n,
{
    if n <= 0 {
        seq![0usize]
    } else if b[n - 1] == 10u8 {
        starts_upto(b, n - 1).push(n as usize)
    } else {
        starts_upto(b, n - 1)
    }
}

/// Where every line of a body starts, in bytes.
pub open spec fn line_starts_of(b: Seq<u8>) -> Seq<usize> {
    starts_upto(b, b.len() as int)
}

/// The shape every list of line starts has.
pub open spec fn starts_shape(b: Seq<u8>, s: Seq<usize>, n: int) -> bool {
    &&& s.len() >= 1
    &&& s[0] == 0
    &&& forall|j: int, k: int| 0 <= j < k < s.len() ==> s[j] < s[k]
    &&& forall|k: int| 0 <= k < s.len() ==> s[k] <= n
    &&& forall|k: int| 1 <= k < s.len() ==> b[s[k] - 1] == 10u8
    &&& forall|i: int|
        0 <= i < n && b[i] == 10u8 ==> exists|k: int| 0 <= k < s.len() && s[k] == i + 1
}

pub proof fn lemma_starts_shape(b: Seq<u8>, n: int)
    requires
        0 <= n <= b.len(),
        b.len() <= usize::MAX,
    ensures
        starts_shape(b, starts_upto(b, n), n),
    decreases n,
{
    if n > 0 {
        lemma_starts_shape(b, n - 1);
        let s = starts_upto(b, n - 1);
        if b[n - 1] == 10u8 {
            let t = s.push(n as usize);
            assert forall|i: int| 0 <= i < n && b[i] == 10u8 implies exists|k: int|
                0 <= k < t.len() && t[k] == i + 1 by {
                if i == n - 1 {
                    assert(t[t.len() - 1] == i + 1);
                } else {
                    let k = choose|k: int| 0 <= k < s.len() && s[k] == i + 1;
                    assert(t[k] == i + 1);
                }
            }
        }
    }
}

/// Where every line of a body starts, in bytes.
///
/// Always at least one entry: an empty file is one empty line, and a body
/// ending in a break has an empty line after it.
pub fn line_starts(content: &str) -> (starts: Vec<usize>)
    ensures
        starts@ == line_starts_of(utf8(content@)),
{
    let bytes = bytes_of(content);
    let mut starts: Vec<usize> = Vec::new();
    starts.push(0);
    let mut index: usize = 0;
    while index < bytes.len()
        invariant
            bytes@ == utf8(content@),
            0 <= index <= bytes.len(),
            starts@ == starts_upto(bytes@, index as int),
        decreases bytes.len() - index,
    {
        if bytes[index] == 10u8 {
            starts.push(index + 1);
        }
        index = index + 1;
    }
    starts
}

/// How many of the first `n` entries of a sorted list are at most `x`.
pub open spec fn count_le(s: Seq<usize>, x: int, n: int) -> int
    decreases n,
{
    if n <= 0 {
        0
    } else {
        count_le(s, x, n - 1) + if s[n - 1] <= x {
            1int
        } else {
            0int
        }
    }
}

/// Whether a list never decreases.
pub open spec fn sorted(s: Seq<usize>) -> bool {
    forall|j: int, k: int| 0 <= j <= k < s.len() ==> s[j] <= s[k]
}

/// The line an offset is on: the last start at or before it.
pub open spec fn line_of(s: Seq<usize>, x: int) -> int {
    let p = count_le(s, x, s.len() as int);
    if p == 0 {
        0
    } else {
        p - 1
    }
}

proof fn lemma_count_le(s: Seq<usize>, x: int, n: int)
    requires
        sorted(s),
        0 <= n <= s.len(),
    ensures
        0 <= count_le(s, x, n) <= n,
        forall|i: int| 0 <= i < count_le(s, x, n) ==> s[i] <= x,
        forall|i: int| count_le(s, x, n) <= i < n ==> s[i] > x,
    decreases n,
{
    if n > 0 {
        lemma_count_le(s, x, n - 1);
        if s[n - 1] <= x {
            let c = count_le(s, x, n - 1);
            if c < n - 1 {
                assert(s[c] <= s[n - 1]);
            }
        }
    }
}

/// The first `p` entries are at most `x` and the rest are above it: then `p`
/// is the count.
pub proof fn lemma_count_le_unique(s: Seq<usize>, x: int, p: int)
    requires
        sorted(s),
        0 <= p <= s.len(),
        forall|i: int| 0 <= i < p ==> s[i] <= x,
        forall|i: int| p <= i < s.len() ==> s[i] > x,
    ensures
        count_le(s, x, s.len() as int) == p,
{
    let c = count_le(s, x, s.len() as int);
    lemma_count_le(s, x, s.len() as int);
    if c < p {
        assert(s[c] > x);
    } else if c > p {
        assert(s[p] <= x);
    }
}

/// How many entries of a sorted list are at most `x` — the list's partition
/// point, found by halving.
pub fn partition_le(s: &[usize], x: usize) -> (p: usize)
    requires
        sorted(s@),
    ensures
        p == count_le(s@, x as int, s@.len() as int),
        p <= s@.len(),
        forall|i: int| 0 <= i < p ==> s@[i] <= x,
        forall|i: int| p <= i < s@.len() ==> s@[i] > x,
{
    let mut lo: usize = 0;
    let mut hi: usize = s.len();
    while lo < hi
        invariant
            sorted(s@),
            0 <= lo <= hi <= s.len(),
            forall|i: int| 0 <= i < lo ==> s@[i] <= x,
            forall|i: int| hi <= i < s.len() ==> s@[i] > x,
        decreases hi - lo,
    {
        let mid = lo + (hi - lo) / 2;
        if s[mid] <= x {
            proof {
                assert forall|i: int| 0 <= i < mid + 1 implies s@[i] <= x by {
                    assert(s@[i] <= s@[mid as int]);
                }
            }
            lo = mid + 1;
        } else {
            proof {
                assert forall|i: int| mid <= i < s.len() implies s@[i] > x by {
                    assert(s@[mid as int] <= s@[i]);
                }
            }
            hi = mid;
        }
    }
    proof {
        lemma_count_le_unique(s@, x as int, lo as int);
    }
    lo
}

/// Which line an offset is on.
pub fn line_index(starts: &[usize], offset: usize) -> (line: usize)
    requires
        sorted(starts@),
    ensures
        line == line_of(starts@, offset as int),
{
    let p = partition_le(starts, offset);
    if p == 0 {
        0
    } else {
        p - 1
    }
}

/// One line's text bounds, the break excluded — including the `\r` of a CRLF.
pub open spec fn line_bounds_of(b: Seq<u8>, s: Seq<usize>, line: int) -> (int, int) {
    let start = if 0 <= line < s.len() {
        s[line] as int
    } else {
        b.len() as int
    };
    let end = if 0 <= line + 1 < s.len() {
        s[line + 1] - 1
    } else {
        b.len() as int
    };
    if end > start && b[end - 1] == 13u8 {
        (start, end - 1)
    } else {
        (start, end)
    }
}

/// The bounds of a line are character boundaries, in order, inside the body.
pub proof fn lemma_line_bounds(b: Seq<u8>, line: int)
    requires
        vstd::utf8::valid_utf8(b),
        b.len() <= usize::MAX,
        line >= 0,
    ensures
        ({
            let (start, end) = line_bounds_of(b, line_starts_of(b), line);
            &&& 0 <= start <= end <= b.len()
            &&& boundary(b, start)
            &&& boundary(b, end)
        }),
{
    let s = line_starts_of(b);
    lemma_starts_shape(b, b.len() as int);
    crate::utf8_text::lemma_valid_starts_at_boundary(b);
    if line < s.len() && line > 0 {
        lemma_after_ascii(b, s[line] - 1);
    }
    if line + 1 < s.len() {
        assert(s[line] < s[line + 1]);
        assert(b[s[line + 1] - 1] == 10u8);
        crate::utf8_text::lemma_ascii_is_boundary(b, s[line + 1] - 1);
    }
    let start = if 0 <= line < s.len() {
        s[line] as int
    } else {
        b.len() as int
    };
    let end = if 0 <= line + 1 < s.len() {
        s[line + 1] - 1
    } else {
        b.len() as int
    };
    if end > start && b[end - 1] == 13u8 {
        crate::utf8_text::lemma_ascii_is_boundary(b, end - 1);
    }
}

/// Whether a line's end can be found from `s`: the next line, if there is
/// one, starts after the body's first byte and no further than just past its
/// end.
pub open spec fn next_start_fits(b: Seq<u8>, s: Seq<usize>, line: int) -> bool {
    0 <= line + 1 < s.len() ==> 1 <= s[line + 1] <= b.len() + 1
}

/// Whether a line's text can be cut out of the body by `s`: its end can be
/// found, and it runs forward between two character boundaries.
pub open spec fn readable_line(b: Seq<u8>, s: Seq<usize>, line: int) -> bool {
    let (start, end) = line_bounds_of(b, s, line);
    &&& next_start_fits(b, s, line)
    &&& 0 <= start <= end <= b.len()
    &&& boundary(b, start)
    &&& boundary(b, end)
}

/// A body's own line starts read every line of it.
pub proof fn lemma_own_starts_readable(b: Seq<u8>, line: int)
    requires
        vstd::utf8::valid_utf8(b),
        b.len() <= usize::MAX,
        line >= 0,
    ensures
        readable_line(b, line_starts_of(b), line),
{
    lemma_line_bounds(b, line);
    let s = line_starts_of(b);
    lemma_starts_shape(b, b.len() as int);
    if 0 <= line + 1 < s.len() {
        assert(s[0] <= s[line] < s[line + 1]);
    }
}

/// One line's text bounds, the break excluded.
///
/// A caret at "the end of the line" is before the `\r` of a CRLF, not between
/// the two bytes.
pub fn line_bounds(content: &str, starts: &[usize], line: usize) -> (r: (usize, usize))
    requires
        next_start_fits(utf8(content@), starts@, line as int),
    ensures
        (r.0 as int, r.1 as int) == line_bounds_of(utf8(content@), starts@, line as int),
{
    let bytes = bytes_of(content);
    let len = bytes.len();
    let start = if line < starts.len() {
        starts[line]
    } else {
        len
    };
    let mut end = if line < starts.len() && line + 1 < starts.len() {
        starts[line + 1] - 1
    } else {
        len
    };
    if end > start && bytes[end - 1] == 13u8 {
        end = end - 1;
    }
    (start, end)
}

/// One line's text, without whatever ends it.
pub fn line_text<'a>(content: &'a str, starts: &[usize], line: usize) -> (text: &'a str)
    requires
        readable_line(utf8(content@), starts@, line as int),
    ensures
        utf8(text@) == utf8(content@).subrange(
            line_bounds_of(utf8(content@), starts@, line as int).0,
            line_bounds_of(utf8(content@), starts@, line as int).1,
        ),
{
    let (start, end) = line_bounds(content, starts, line);
    slice(content, start, end)
}

// ── the break this file uses ────────────────────────────────────────────────

/// Whether byte `i` is the first `\n` of the body.
pub open spec fn is_first_break(b: Seq<u8>, i: int) -> bool {
    0 <= i < b.len() && b[i] == 10u8 && forall|j: int| 0 <= j < i ==> b[j] != 10u8
}

/// Whether the file's first break is a CRLF.
pub open spec fn uses_crlf(b: Seq<u8>) -> bool {
    exists|i: int| #[trigger] is_first_break(b, i) && i >= 1 && b[i - 1] == 13u8
}

/// The break this file uses: `"\r\n"` when its first break is one, `"\n"`
/// otherwise.
///
/// Decided from the first one in the body: a file's first break is the one its
/// author chose, and a file with mixed breaks has no majority worth honouring.
pub fn eol_of(content: &str) -> (eol: &'static str)
    ensures
        eol@ == (if uses_crlf(utf8(content@)) {
            "\r\n"@
        } else {
            "\n"@
        }),
{
    let bytes = bytes_of(content);
    let mut i: usize = 0;
    while i < bytes.len()
        invariant
            bytes@ == utf8(content@),
            0 <= i <= bytes.len(),
            forall|j: int| 0 <= j < i ==> bytes@[j] != 10u8,
        decreases bytes.len() - i,
    {
        if bytes[i] == 10u8 {
            if i > 0 && bytes[i - 1] == 13u8 {
                assert(is_first_break(bytes@, i as int));
                return "\r\n";
            }
            proof {
                assert forall|k: int| #[trigger] is_first_break(bytes@, k) implies k == i by {
                    if k > i {
                        assert(bytes@[i as int] == 10u8);
                    }
                }
            }
            return "\n";
        }
        i = i + 1;
    }
    "\n"
}

// ── where a caret may stand ─────────────────────────────────────────────────

/// The nearest character boundary at or before `o`.
pub open spec fn back_to_boundary(b: Seq<u8>, o: int) -> int
    decreases o,
{
    if o <= 0 {
        0
    } else if boundary(b, o) {
        o
    } else {
        back_to_boundary(b, o - 1)
    }
}

/// Where a caret asked to stand at `offset` does stand: clamped to the body,
/// pulled back to a character boundary, and pulled off the middle of a CRLF.
pub open spec fn normalized(b: Seq<u8>, offset: int) -> int {
    let o = if offset < b.len() {
        offset
    } else {
        b.len() as int
    };
    let p = back_to_boundary(b, o);
    if p > 0 && p < b.len() && b[p - 1] == 13u8 && b[p] == 10u8 {
        p - 1
    } else {
        p
    }
}

proof fn lemma_back_to_boundary(b: Seq<u8>, o: int)
    requires
        0 <= o <= b.len(),
        boundary(b, 0),
    ensures
        0 <= back_to_boundary(b, o) <= o,
        boundary(b, back_to_boundary(b, o)),
        forall|i: int| back_to_boundary(b, o) < i <= o ==> !boundary(b, i),
    decreases o,
{
    if o > 0 && !boundary(b, o) {
        lemma_back_to_boundary(b, o - 1);
    }
}

/// A normalized offset is a character boundary inside the body.
/// Pulling back to a boundary never passes a boundary on the way.
pub proof fn lemma_back_to_boundary_ge(b: Seq<u8>, o: int, q: int)
    requires
        0 <= q <= o,
        boundary(b, q),
    ensures
        q <= back_to_boundary(b, o),
    decreases o,
{
    if o > 0 && !boundary(b, o) {
        lemma_back_to_boundary_ge(b, o - 1, q);
    }
}

pub proof fn lemma_normalized(b: Seq<u8>, offset: int)
    requires
        vstd::utf8::valid_utf8(b),
        offset >= 0,
    ensures
        0 <= normalized(b, offset) <= b.len(),
        normalized(b, offset) <= offset,
        boundary(b, normalized(b, offset)),
        !(normalized(b, offset) > 0 && normalized(b, offset) < b.len()
            && b[normalized(b, offset) - 1] == 13u8 && b[normalized(b, offset) as int] == 10u8),
{
    crate::utf8_text::lemma_valid_starts_at_boundary(b);
    let o = if offset < b.len() {
        offset
    } else {
        b.len() as int
    };
    lemma_back_to_boundary(b, o);
    let p = back_to_boundary(b, o);
    if p > 0 && p < b.len() && b[p - 1] == 13u8 && b[p] == 10u8 {
        crate::utf8_text::lemma_ascii_is_boundary(b, p - 1);
        if p - 1 > 0 {
            assert(b[p - 1] == 13u8);
        }
    }
}

/// `b` with every line break — `\r\n`, a lone `\r` or a `\n` — written as
/// `eol`.
pub open spec fn rebroken(b: Seq<u8>, eol: Seq<u8>) -> Seq<u8>
    decreases b.len(),
{
    if b.len() == 0 {
        b
    } else if b[0] == 13u8 && b.len() > 1 && b[1] == 10u8 {
        eol + rebroken(b.subrange(2, b.len() as int), eol)
    } else if b[0] == 13u8 || b[0] == 10u8 {
        eol + rebroken(b.subrange(1, b.len() as int), eol)
    } else {
        seq![b[0]] + rebroken(b.subrange(1, b.len() as int), eol)
    }
}

/// A break written as `eol` is read back as one break.
proof fn lemma_rebroken_eol(t: Seq<u8>, eol: Seq<u8>)
    requires
        eol == seq![10u8] || eol == seq![13u8, 10u8],
    ensures
        rebroken(eol + t, eol) == eol + rebroken(t, eol),
{
    let b = eol + t;
    assert(b.subrange(eol.len() as int, b.len() as int) =~= t);
    if eol == seq![13u8, 10u8] {
        assert(b[0] == 13u8 && b[1] == 10u8);
    } else {
        assert(b[0] == 10u8);
        assert(b.subrange(1, b.len() as int) =~= t);
    }
}

/// **Rewriting breaks twice is rewriting them once**: once every break is the
/// file's own `\n` or `\r\n`, there is nothing left to rewrite.
pub proof fn law_rebreaking_is_idempotent(b: Seq<u8>, eol: Seq<u8>)
    requires
        eol == seq![10u8] || eol == seq![13u8, 10u8],
    ensures
        rebroken(rebroken(b, eol), eol) == rebroken(b, eol),
    decreases b.len(),
{
    if b.len() > 0 {
        if b[0] == 13u8 && b.len() > 1 && b[1] == 10u8 {
            let rest = b.subrange(2, b.len() as int);
            law_rebreaking_is_idempotent(rest, eol);
            lemma_rebroken_eol(rebroken(rest, eol), eol);
        } else if b[0] == 13u8 || b[0] == 10u8 {
            let rest = b.subrange(1, b.len() as int);
            law_rebreaking_is_idempotent(rest, eol);
            lemma_rebroken_eol(rebroken(rest, eol), eol);
        } else {
            let rest = b.subrange(1, b.len() as int);
            law_rebreaking_is_idempotent(rest, eol);
            let r = seq![b[0]] + rebroken(rest, eol);
            assert(r[0] == b[0]);
            assert(r.subrange(1, r.len() as int) =~= rebroken(rest, eol));
        }
    }
}

/// Whether a byte is half of a line break.
pub open spec fn is_break_byte(x: u8) -> bool {
    x == 13u8 || x == 10u8
}

/// A run with no break in it passes through unchanged.
proof fn lemma_rebroken_run(b: Seq<u8>, eol: Seq<u8>, from: int, to: int)
    requires
        0 <= from <= to <= b.len(),
        forall|k: int| from <= k < to ==> !is_break_byte(#[trigger] b[k]),
    ensures
        rebroken(b.subrange(from, b.len() as int), eol) == b.subrange(from, to) + rebroken(
            b.subrange(to, b.len() as int),
            eol,
        ),
    decreases to - from,
{
    if from < to {
        let t = b.subrange(from, b.len() as int);
        assert(!is_break_byte(b[from]));
        assert(t[0] == b[from]);
        assert(t.subrange(1, t.len() as int) =~= b.subrange(from + 1, b.len() as int));
        lemma_rebroken_run(b, eol, from + 1, to);
        assert(seq![b[from]] + b.subrange(from + 1, to) =~= b.subrange(from, to));
    } else {
        assert(b.subrange(from, to) =~= Seq::<u8>::empty());
    }
}

/// The same text, with every line break rewritten as this file's.
///
/// A clipboard on this platform carries CRLF whatever it was copied from, so a
/// paste that went in verbatim would leave a bare-newline file with one CRLF
/// line in the middle of it.
pub fn with_eol(text: &str, eol: &str) -> (out: String)
    ensures
        utf8(out@) == rebroken(utf8(text@), utf8(eol@)),
{
    let bytes = bytes_of(text);
    let n = bytes.len();
    let ghost b = bytes@;
    let ghost e = utf8(eol@);
    let mut out = String::new();
    let mut run: usize = 0;
    let mut i: usize = 0;
    proof {
        assert(b.subrange(0, n as int) =~= b);
        assert(utf8(out@) =~= Seq::<u8>::empty());
    }
    while i < n
        invariant
            b == bytes@,
            b == utf8(text@),
            e == utf8(eol@),
            n == b.len(),
            run <= i <= n,
            boundary(b, run as int),
            forall|k: int| run <= k < i ==> !is_break_byte(#[trigger] b[k]),
            utf8(out@) + rebroken(b.subrange(run as int, n as int), e) == rebroken(b, e),
        decreases n - i,
    {
        if bytes[i] == 13u8 || bytes[i] == 10u8 {
            let piece = slice(text, run, i);
            proof {
                lemma_rebroken_run(b, e, run as int, i as int);
            }
            let ghost before = utf8(out@);
            push_str(&mut out, piece);
            push_str(&mut out, eol);
            let step: usize = if bytes[i] == 13u8 && i + 1 < n && bytes[i + 1] == 10u8 {
                2
            } else {
                1
            };
            proof {
                let t = b.subrange(i as int, n as int);
                assert(t[0] == b[i as int]);
                if t.len() > 1 {
                    assert(t[1] == b[i + 1]);
                }
                assert(t.subrange(step as int, t.len() as int) =~= b.subrange(i + step, n as int));
                assert(rebroken(t, e) == e + rebroken(b.subrange(i + step, n as int), e));
                assert(utf8(out@) == before + b.subrange(run as int, i as int) + e);
                assert((before + b.subrange(run as int, i as int) + e) + rebroken(
                    b.subrange(i + step, n as int),
                    e,
                ) =~= before + (b.subrange(run as int, i as int) + rebroken(t, e)));
                if step == 2 {
                    lemma_after_ascii(b, i as int);
                    if i + 2 < n {
                        lemma_after_ascii(b, i + 1);
                    }
                } else if i + 1 < n {
                    lemma_after_ascii(b, i as int);
                }
            }
            i = i + step;
            run = i;
        } else {
            i = i + 1;
        }
    }
    let piece = slice(text, run, n);
    proof {
        lemma_rebroken_run(b, e, run as int, n as int);
        assert(b.subrange(n as int, n as int) =~= Seq::<u8>::empty());
    }
    let ghost before = utf8(out@);
    push_str(&mut out, piece);
    proof {
        assert(before + b.subrange(run as int, n as int) =~= before + (b.subrange(run as int, n as int)
            + rebroken(b.subrange(n as int, n as int), e)));
    }
    out
}

/// Put an offset somewhere a caret may actually stand.
pub fn normalize(content: &str, offset: usize) -> (r: usize)
    ensures
        r == normalized(utf8(content@), offset as int),
{
    let bytes = bytes_of(content);
    let len = bytes.len();
    let mut o = if offset < len {
        offset
    } else {
        len
    };
    let ghost start = o as int;
    proof {
        lemma_utf8_ends(content@);
    }
    while o > 0 && !is_boundary(content, o)
        invariant
            bytes@ == utf8(content@),
            len == bytes@.len(),
            0 <= o <= start <= len,
            start == (if offset < len {
                offset as int
            } else {
                len as int
            }),
            back_to_boundary(bytes@, o as int) == back_to_boundary(bytes@, start),
        decreases o,
    {
        o = o - 1;
    }
    if o > 0 && o < len && bytes[o - 1] == 13u8 && bytes[o] == 10u8 {
        o = o - 1;
    }
    o
}

// ── the caret ───────────────────────────────────────────────────────────────

/// Where the caret is, what it has dragged over, and the column it is trying to
/// keep.
///
/// A view's property, not a buffer's: two panes on one buffer are one buffer
/// with two carets.
#[derive(Clone, Copy, Debug, PartialEq, Eq, Structural)]
pub struct EditCaret {
    /// Where the selection began. Equal to `caret` when nothing is selected.
    pub anchor: usize,
    pub caret: usize,
    /// The column Up and Down are trying to land on, kept across a run of
    /// vertical moves and nothing else.
    pub desired_column: Option<usize>,
    /// The same memory on a proportional face, in pixels.
    pub desired_x: Option<i32>,
}

/// A caret at `offset` with nothing selected and nothing remembered.
pub open spec fn collapsed_caret(offset: int) -> EditCaret {
    EditCaret { anchor: offset as usize, caret: offset as usize, desired_column: None, desired_x: None }
}

/// The start of the selected span.
pub open spec fn sel_start(c: EditCaret) -> int {
    if c.anchor <= c.caret {
        c.anchor as int
    } else {
        c.caret as int
    }
}

/// The end of the selected span.
pub open spec fn sel_end(c: EditCaret) -> int {
    if c.anchor <= c.caret {
        c.caret as int
    } else {
        c.anchor as int
    }
}

/// Both ends of a caret put back somewhere a caret may stand.
pub open spec fn healed(c: EditCaret, b: Seq<u8>) -> EditCaret {
    EditCaret {
        anchor: normalized(b, c.anchor as int) as usize,
        caret: normalized(b, c.caret as int) as usize,
        ..c
    }
}

impl Default for EditCaret {
    fn default() -> (c: Self)
        ensures
            c == collapsed_caret(0),
    {
        EditCaret { anchor: 0, caret: 0, desired_column: None, desired_x: None }
    }
}

impl EditCaret {
    /// The selected span, in order.
    pub fn range(&self) -> (r: std::ops::Range<usize>)
        ensures
            r.start == sel_start(*self),
            r.end == sel_end(*self),
    {
        if self.anchor <= self.caret {
            self.anchor..self.caret
        } else {
            self.caret..self.anchor
        }
    }

    /// Whether nothing is selected.
    pub fn is_empty(&self) -> (r: bool)
        ensures
            r == (self.anchor == self.caret),
    {
        self.anchor == self.caret
    }

    /// Both ends at one offset, and the vertical memory forgotten.
    pub fn collapse_to(&mut self, offset: usize)
        ensures
            *final(self) == collapsed_caret(offset as int),
    {
        self.anchor = offset;
        self.caret = offset;
        self.desired_column = None;
        self.desired_x = None;
    }

    /// Put the caret somewhere, taking the anchor with it unless the gesture is
    /// an extension.
    pub fn place(&mut self, content: &str, offset: usize, extend: bool)
        ensures
            final(self).caret == normalized(utf8(content@), offset as int),
            final(self).anchor == (if extend {
                old(self).anchor as int
            } else {
                normalized(utf8(content@), offset as int)
            }),
            final(self).desired_column.is_none(),
            final(self).desired_x.is_none(),
    {
        let offset = normalize(content, offset);
        self.caret = offset;
        if !extend {
            self.anchor = offset;
        }
        self.desired_column = None;
        self.desired_x = None;
    }

    /// Everything the caret has dragged over.
    pub fn selected<'a>(&self, content: &'a str) -> (text: &'a str)
        requires
            boundary(utf8(content@), vstd::math::min(sel_start(*self), utf8(content@).len() as int)),
            boundary(utf8(content@), vstd::math::min(sel_end(*self), utf8(content@).len() as int)),
        ensures
            utf8(text@) == utf8(content@).subrange(
                vstd::math::min(sel_start(*self), utf8(content@).len() as int),
                vstd::math::min(sel_end(*self), utf8(content@).len() as int),
            ),
    {
        let range = self.range();
        let len = byte_len(content);
        let start = if range.start < len {
            range.start
        } else {
            len
        };
        let end = if range.end < len {
            range.end
        } else {
            len
        };
        slice(content, start, end)
    }

    /// Put both ends back inside a body that may have changed under them.
    pub fn heal(&mut self, content: &str)
        ensures
            *final(self) == healed(*old(self), utf8(content@)),
    {
        self.anchor = normalize(content, self.anchor);
        self.caret = normalize(content, self.caret);
    }
}

/// A healed caret stands on boundaries of the body.
pub proof fn lemma_healed(c: EditCaret, b: Seq<u8>)
    requires
        vstd::utf8::valid_utf8(b),
        b.len() <= usize::MAX,
    ensures
        boundary(b, healed(c, b).anchor as int),
        boundary(b, healed(c, b).caret as int),
        healed(c, b).anchor <= b.len(),
        healed(c, b).caret <= b.len(),
{
    lemma_normalized(b, c.anchor as int);
    lemma_normalized(b, c.caret as int);
}

// ── the edits ───────────────────────────────────────────────────────────────

/// Put text where the caret is, replacing whatever it had dragged over.
///
/// Reports whether the body actually changed: an insert of nothing over
/// nothing is not an edit.
pub fn insert(content: &mut String, caret: &mut EditCaret, text: &str) -> (changed: bool)
    ensures
        ({
            let b = utf8(old(content)@);
            let h = healed(*old(caret), b);
            &&& changed == !(sel_start(h) == sel_end(h) && text@.len() == 0)
            &&& changed ==> utf8(final(content)@) == spliced(b, sel_start(h), sel_end(h), utf8(text@))
                && *final(caret) == collapsed_caret(sel_start(h) + utf8(text@).len())
            &&& !changed ==> final(content)@ == old(content)@ && *final(caret) == h
        }),
{
    caret.heal(content.as_str());
    let _ = byte_len(content.as_str());
    proof {
        lemma_healed(*old(caret), utf8(content@));
    }
    let range = caret.range();
    let text_len = byte_len(text);
    if range.start == range.end && text_len == 0 {
        return false;
    }
    let at = range.start;
    replace_range(content, range.start, range.end, text);
    let new_len = byte_len(content.as_str());
    caret.collapse_to(at + text_len);
    true
}

/// Everything, selected.
pub fn select_all(content: &str, caret: &mut EditCaret)
    ensures
        final(caret).anchor == 0,
        final(caret).caret == utf8(content@).len(),
        final(caret).desired_column.is_none(),
        final(caret).desired_x.is_none(),
{
    caret.anchor = 0;
    caret.caret = byte_len(content);
    caret.desired_column = None;
    caret.desired_x = None;
}

/// Where a move puts the caret: normalized, the anchor taken along unless the
/// move extends, and the vertical memory set to `desired`.
pub open spec fn moved(c: EditCaret, b: Seq<u8>, offset: int, extend: bool, desired: Option<usize>) -> EditCaret {
    EditCaret {
        anchor: if extend {
            c.anchor
        } else {
            normalized(b, offset) as usize
        },
        caret: normalized(b, offset) as usize,
        desired_column: desired,
        desired_x: None,
    }
}

fn finish_move(content: &str, caret: &mut EditCaret, offset: usize, extend: bool, desired: Option<usize>)
    ensures
        *final(caret) == moved(*old(caret), utf8(content@), offset as int, extend, desired),
{
    let offset = normalize(content, offset);
    caret.caret = offset;
    if !extend {
        caret.anchor = offset;
    }
    caret.desired_column = desired;
    caret.desired_x = None;
}

// ── columns ─────────────────────────────────────────────────────────────────

/// How many cells a tab stop is apart.
pub const TAB_WIDTH: usize = 4;

/// `x + y`, held at `usize::MAX`.
pub open spec fn sat(x: int) -> int {
    if x > usize::MAX {
        usize::MAX as int
    } else {
        x
    }
}

/// How wide one cluster draws, standing at `column`: a tab runs to the next
/// stop, anything else is as wide as it is.
pub open spec fn cells_at(c: Cluster, column: int) -> int {
    if c.tab {
        TAB_WIDTH - column % (TAB_WIDTH as int)
    } else {
        c.cells as int
    }
}

/// The column reached by walking clusters `k..` while they start before
/// `byte`.
pub open spec fn column_walk(t: Seq<Cluster>, k: int, byte: int, column: int) -> int
    decreases t.len() - k,
{
    if k < 0 || k >= t.len() || t[k].start >= byte {
        column
    } else {
        column_walk(t, k + 1, byte, sat(column + cells_at(t[k], column)))
    }
}

/// How far into a line, in drawn columns, a byte offset sits.
pub open spec fn column_of_spec(line: Seq<char>, byte: int) -> int {
    column_walk(clusters(line), 0, byte, 0)
}

/// The byte a drawn column names, walking clusters `k..`.
pub open spec fn byte_walk(t: Seq<Cluster>, k: int, column: int, drawn: int, n: int) -> int
    decreases t.len() - k,
{
    if k < 0 || k >= t.len() {
        n
    } else if drawn >= column {
        t[k].start as int
    } else {
        byte_walk(t, k + 1, column, sat(drawn + cells_at(t[k], drawn)), n)
    }
}

/// The byte offset a drawn column names in a line.
pub open spec fn byte_at_column_spec(line: Seq<char>, column: int) -> int {
    byte_walk(clusters(line), 0, column, 0, utf8(line).len() as int)
}

/// Cluster starts rise: a later cluster starts after an earlier one.
pub proof fn lemma_starts_rise(t: Seq<Cluster>, b: Seq<u8>, j: int, m: int)
    requires
        table_tiles(t, b),
        0 <= j < m < t.len(),
    ensures
        t[j].start < t[m].start,
    decreases m - j,
{
    assert(t[(m - 1) + 1].start == t[m - 1].start + t[m - 1].len);
    if j < m - 1 {
        lemma_starts_rise(t, b, j, m - 1);
    }
}

/// Walking columns goes no way but forward, and no less far for a later byte.
pub proof fn lemma_column_walk_mono(t: Seq<Cluster>, j: int, k1: int, k2: int, d: int)
    requires
        0 <= j,
        0 <= d <= usize::MAX,
        k1 <= k2,
    ensures
        d <= column_walk(t, j, k1, d) <= column_walk(t, j, k2, d) <= usize::MAX,
    decreases t.len() - j,
{
    if j < t.len() && t[j].start < k2 {
        let d2 = sat(d + cells_at(t[j], d));
        lemma_column_walk_mono(t, j + 1, k1, k2, d2);
    }
}

/// Every cluster of a table draws at least one cell: only a tab runs to a
/// stop, and a stop is never where it stands.
pub open spec fn draws_each(t: Seq<Cluster>) -> bool {
    forall|i: int| 0 <= i < t.len() && !(#[trigger] t[i]).tab ==> t[i].cells > 0
}

/// The byte a column names lies inside the line: at a cluster's start or at
/// the line's end.
pub proof fn lemma_byte_walk_bound(t: Seq<Cluster>, b: Seq<u8>, k: int, column: int, drawn: int)
    requires
        table_tiles(t, b),
        0 <= k,
    ensures
        0 <= byte_walk(t, k, column, drawn, b.len() as int) <= b.len(),
    decreases t.len() - k,
{
    if k < t.len() {
        lemma_table_bounds(t, b, k);
        lemma_byte_walk_bound(t, b, k + 1, column, sat(drawn + cells_at(t[k], drawn)));
    }
}

/// Reading a column back gives the byte it was measured from: the byte a
/// cluster start draws at names that start, when every cluster draws at least
/// one cell and the walk never reaches the largest column.
pub proof fn lemma_walk_back(t: Seq<Cluster>, b: Seq<u8>, j: int, k: int, d: int)
    requires
        table_tiles(t, b),
        draws_each(t),
        0 <= j <= t.len(),
        0 <= d <= usize::MAX,
        k == b.len() || exists|m: int| j <= m < t.len() && #[trigger] t[m].start == k,
        column_walk(t, j, k, d) < usize::MAX,
    ensures
        byte_walk(t, j, column_walk(t, j, k, d), d, b.len() as int) == k,
    decreases t.len() - j,
{
    if j == t.len() {
    } else if t[j].start >= k {
        lemma_table_bounds(t, b, j);
        if k != b.len() {
            let m = choose|m: int| j <= m < t.len() && #[trigger] t[m].start == k;
            if m > j {
                lemma_starts_rise(t, b, j, m);
            }
        }
    } else {
        let d2 = sat(d + cells_at(t[j], d));
        lemma_column_walk_mono(t, j + 1, k, k, d2);
        assert(cells_at(t[j], d) > 0);
        if k != b.len() {
            let m = choose|m: int| j <= m < t.len() && #[trigger] t[m].start == k;
            assert(m != j);
        }
        lemma_walk_back(t, b, j + 1, k, d2);
    }
}

/// How wide one cluster draws, standing at `column`.
fn cluster_columns(c: &Cluster, column: usize) -> (n: usize)
    ensures
        n == cells_at(*c, column as int),
{
    if c.tab {
        TAB_WIDTH - column % TAB_WIDTH
    } else {
        c.cells
    }
}

pub fn sat_add(x: usize, y: usize) -> (r: usize)
    ensures
        r == sat(x + y),
{
    x.saturating_add(y)
}

/// How far into a line, in drawn columns, a byte offset sits.
pub fn column_of(line: &str, byte: usize) -> (column: usize)
    ensures
        column == column_of_spec(line@, byte as int),
{
    let t = cluster_table(line);
    let mut column: usize = 0;
    let mut k: usize = 0;
    while k < t.len() && t[k].start < byte
        invariant
            t@ == clusters(line@),
            0 <= k <= t.len(),
            column_walk(t@, 0, byte as int, 0) == column_walk(t@, k as int, byte as int, column as int),
        decreases t.len() - k,
    {
        column = sat_add(column, cluster_columns(&t[k], column));
        k = k + 1;
    }
    column
}

/// The byte offset a drawn column names.
///
/// Rounds forward out of a cluster it lands inside: a click halfway through a
/// tab is a click after the tab.
pub fn byte_at_column(line: &str, column: usize) -> (at: usize)
    ensures
        at == byte_at_column_spec(line@, column as int),
        at <= utf8(line@).len(),
        boundary(utf8(line@), at as int),
{
    let t = cluster_table(line);
    let n = byte_len(line);
    proof {
        lemma_utf8_ends(line@);
    }
    let mut drawn: usize = 0;
    let mut k: usize = 0;
    while k < t.len()
        invariant
            t@ == clusters(line@),
            table_tiles(t@, utf8(line@)),
            n == utf8(line@).len(),
            0 <= k <= t.len(),
            byte_walk(t@, 0, column as int, 0, n as int) == byte_walk(t@, k as int, column as int, drawn as int, n as int),
        decreases t.len() - k,
    {
        if drawn >= column {
            proof {
                assert(t@[k as int].start <= n) by {
                    lemma_table_bounds(t@, utf8(line@), k as int);
                }
            }
            return t[k].start;
        }
        drawn = sat_add(drawn, cluster_columns(&t[k], drawn));
        k = k + 1;
    }
    n
}

/// Every cluster of a tiled table starts inside the bytes.
pub proof fn lemma_table_bounds(t: Seq<Cluster>, b: Seq<u8>, k: int)
    requires
        table_tiles(t, b),
        0 <= k < t.len(),
    ensures
        t[k].start + t[k].len <= b.len(),
        t[k].start < b.len(),
    decreases t.len() - k,
{
    if k + 1 < t.len() {
        assert(t[k + 1].start == t[k].start + t[k].len);
        lemma_table_bounds(t, b, k + 1);
    }
}

/// How wide a line draws, in the columns the caret is measured in.
pub fn line_columns(line: &str) -> (n: usize)
    ensures
        n == column_of_spec(line@, utf8(line@).len() as int),
{
    column_of(line, byte_len(line))
}

// ── cluster steps ───────────────────────────────────────────────────────────

/// Normalizing twice is normalizing once.
pub proof fn lemma_normalized_idempotent(b: Seq<u8>, offset: int)
    requires
        vstd::utf8::valid_utf8(b),
        offset >= 0,
    ensures
        normalized(b, normalized(b, offset)) == normalized(b, offset),
{
    lemma_normalized(b, offset);
}

/// A healed caret heals to itself.
pub proof fn lemma_healed_idempotent(c: EditCaret, b: Seq<u8>)
    requires
        vstd::utf8::valid_utf8(b),
        b.len() <= usize::MAX,
    ensures
        healed(healed(c, b), b) == healed(c, b),
{
    lemma_normalized_idempotent(b, c.anchor as int);
    lemma_normalized_idempotent(b, c.caret as int);
}

/// The index of the last `\n` among the first `o` bytes, or -1.
pub open spec fn last_break_before(b: Seq<u8>, o: int) -> int
    decreases o,
{
    if o <= 0 {
        -1
    } else if b[o - 1] == 10u8 {
        o - 1
    } else {
        last_break_before(b, o - 1)
    }
}

proof fn lemma_last_break_before(b: Seq<u8>, o: int)
    requires
        0 <= o <= b.len(),
    ensures
        -1 <= last_break_before(b, o) < o,
        last_break_before(b, o) >= 0 ==> b[last_break_before(b, o)] == 10u8,
        forall|i: int| last_break_before(b, o) < i < o ==> b[i] != 10u8,
    decreases o,
{
    if o > 0 && b[o - 1] != 10u8 {
        lemma_last_break_before(b, o - 1);
    }
}

/// The offset one cluster before `o`, a line break counted whole.
pub open spec fn previous_boundary_spec(b: Seq<u8>, o: int) -> int {
    if o >= 2 && b[o - 1] == 10u8 && b[o - 2] == 13u8 {
        o - 2
    } else if o >= 1 && (b[o - 1] == 10u8 || b[o - 1] == 13u8) {
        o - 1
    } else {
        let ls = last_break_before(b, o) + 1;
        let t = clusters(vstd::utf8::decode_utf8(b.subrange(ls, o)));
        if t.len() == 0 {
            ls
        } else {
            ls + t.last().start
        }
    }
}

/// The offset one cluster after `o`, a line break counted whole.
pub open spec fn next_boundary_spec(b: Seq<u8>, o: int) -> int {
    if o + 2 <= b.len() && b[o] == 13u8 && b[o + 1] == 10u8 {
        o + 2
    } else if o + 1 <= b.len() && (b[o] == 10u8 || b[o] == 13u8) {
        o + 1
    } else {
        let t = clusters(vstd::utf8::decode_utf8(b.subrange(o, b.len() as int)));
        if t.len() == 0 {
            o
        } else {
            o + t[0].len
        }
    }
}

/// A piece of a string taken at boundaries is the decoding of its bytes.
pub proof fn lemma_piece_chars(piece: Seq<char>, bytes: Seq<u8>)
    requires
        utf8(piece) == bytes,
    ensures
        piece == vstd::utf8::decode_utf8(bytes),
{
    vstd::utf8::encode_utf8_decode_utf8(piece);
}

/// The offset one cluster before `offset`, breaks counted whole.
pub fn previous_boundary(content: &str, offset: usize) -> (r: usize)
    requires
        offset <= utf8(content@).len(),
        boundary(utf8(content@), offset as int),
    ensures
        r == previous_boundary_spec(utf8(content@), offset as int),
        r <= offset,
        offset > 0 ==> r < offset,
        boundary(utf8(content@), r as int),
{
    let bytes = bytes_of(content);
    let ghost b = bytes@;
    if offset >= 2 && bytes[offset - 1] == 10u8 && bytes[offset - 2] == 13u8 {
        proof {
            crate::utf8_text::lemma_ascii_is_boundary(b, offset - 2);
        }
        return offset - 2;
    }
    if offset >= 1 && (bytes[offset - 1] == 10u8 || bytes[offset - 1] == 13u8) {
        proof {
            crate::utf8_text::lemma_ascii_is_boundary(b, offset - 1);
        }
        return offset - 1;
    }
    let mut ls: usize = offset;
    while ls > 0 && bytes[ls - 1] != 10u8
        invariant
            bytes@ == b,
            0 <= ls <= offset <= b.len(),
            last_break_before(b, ls as int) == last_break_before(b, offset as int),
        decreases ls,
    {
        ls = ls - 1;
    }
    proof {
        lemma_last_break_before(b, offset as int);
        crate::utf8_text::lemma_valid_starts_at_boundary(b);
        if ls > 0 {
            lemma_after_ascii(b, ls - 1);
        }
    }
    let piece = slice(content, ls, offset);
    let t = cluster_table(piece);
    proof {
        lemma_piece_chars(piece@, b.subrange(ls as int, offset as int));
    }
    if t.len() == 0 {
        return ls;
    }
    let last = t.len() - 1;
    proof {
        lemma_table_bounds(t@, utf8(piece@), last as int);
        let j = t@[last as int].start as int;
        assert(boundary(utf8(piece@), j));
        assert(utf8(piece@)[j] == b[ls + j]);
    }
    ls + t[last].start
}

/// The offset one cluster after `offset`.
pub fn next_boundary(content: &str, offset: usize) -> (r: usize)
    requires
        offset <= utf8(content@).len(),
        boundary(utf8(content@), offset as int),
    ensures
        r == next_boundary_spec(utf8(content@), offset as int),
        offset <= r <= utf8(content@).len(),
        offset < utf8(content@).len() ==> offset < r,
        boundary(utf8(content@), r as int),
{
    let bytes = bytes_of(content);
    let ghost b = bytes@;
    let len = bytes.len();
    proof {
        lemma_utf8_ends(content@);
    }
    if len - offset >= 2 && bytes[offset] == 13u8 && bytes[offset + 1] == 10u8 {
        proof {
            lemma_after_ascii(b, offset + 1);
        }
        return offset + 2;
    }
    if len - offset >= 1 && (bytes[offset] == 10u8 || bytes[offset] == 13u8) {
        proof {
            lemma_after_ascii(b, offset as int);
        }
        return offset + 1;
    }
    let rest = slice(content, offset, len);
    let t = cluster_table(rest);
    proof {
        lemma_piece_chars(rest@, b.subrange(offset as int, len as int));
    }
    if t.len() == 0 {
        return offset;
    }
    proof {
        lemma_table_bounds(t@, utf8(rest@), 0);
        let j = t@[0].len as int;
        if t@.len() > 1 {
            assert(t@[1].start == j);
            assert(boundary(utf8(rest@), t@[1].start as int));
        } else {
            assert(j == utf8(rest@).len());
        }
        if j < utf8(rest@).len() {
            assert(utf8(rest@)[j] == b[offset + j]);
        }
    }
    offset + t[0].len
}

/// Delete backwards: the selection if there is one, otherwise one cluster — or
/// one whole line break, `\r\n` included.
pub fn backspace(content: &mut String, caret: &mut EditCaret) -> (changed: bool)
    ensures
        ({
            let b = utf8(old(content)@);
            let h = healed(*old(caret), b);
            let p = previous_boundary_spec(b, h.caret as int);
            &&& sel_start(h) != sel_end(h) ==> changed && utf8(final(content)@) == spliced(
                b,
                sel_start(h),
                sel_end(h),
                Seq::empty(),
            ) && *final(caret) == collapsed_caret(sel_start(h))
            &&& sel_start(h) == sel_end(h) && h.caret == 0 ==> !changed && final(content)@
                == old(content)@ && *final(caret) == h
            &&& sel_start(h) == sel_end(h) && h.caret > 0 ==> changed && utf8(final(content)@)
                == spliced(b, p, h.caret as int, Seq::empty()) && *final(caret)
                == collapsed_caret(p)
        }),
{
    caret.heal(content.as_str());
    let _ = byte_len(content.as_str());
    proof {
        lemma_healed(*old(caret), utf8(content@));
        lemma_healed_idempotent(*old(caret), utf8(content@));
    }
    if !caret.is_empty() {
        let r = insert(content, caret, empty_str());
        return r;
    }
    if caret.caret == 0 {
        return false;
    }
    let previous = previous_boundary(content.as_str(), caret.caret);
    replace_range(content, previous, caret.caret, empty_str());
    caret.collapse_to(previous);
    true
}

/// Delete forwards, on the same terms.
pub fn delete_forward(content: &mut String, caret: &mut EditCaret) -> (changed: bool)
    ensures
        ({
            let b = utf8(old(content)@);
            let h = healed(*old(caret), b);
            let n = next_boundary_spec(b, h.caret as int);
            &&& sel_start(h) != sel_end(h) ==> changed && utf8(final(content)@) == spliced(
                b,
                sel_start(h),
                sel_end(h),
                Seq::empty(),
            ) && *final(caret) == collapsed_caret(sel_start(h))
            &&& sel_start(h) == sel_end(h) && h.caret >= b.len() ==> !changed && final(content)@
                == old(content)@ && *final(caret) == h
            &&& sel_start(h) == sel_end(h) && h.caret < b.len() ==> changed && utf8(
                final(content)@,
            ) == spliced(b, h.caret as int, n, Seq::empty()) && *final(caret)
                == collapsed_caret(h.caret as int)
        }),
{
    caret.heal(content.as_str());
    let _ = byte_len(content.as_str());
    proof {
        lemma_healed(*old(caret), utf8(content@));
        lemma_healed_idempotent(*old(caret), utf8(content@));
    }
    if !caret.is_empty() {
        let r = insert(content, caret, empty_str());
        return r;
    }
    if caret.caret >= byte_len(content.as_str()) {
        return false;
    }
    let next = next_boundary(content.as_str(), caret.caret);
    let at = caret.caret;
    replace_range(content, at, next, empty_str());
    caret.collapse_to(at);
    true
}

// ── the soft wrap ───────────────────────────────────────────────────────────

/// Whether every entry is below every later one.
pub open spec fn increasing(s: Seq<usize>) -> bool {
    forall|j: int, k: int| 0 <= j < k < s.len() ==> s[j] < s[k]
}

/// The soft breaks of clusters `k..`, given the row so far: greedy, breaking
/// after the last space that fits and hard-breaking a word too long to fit.
pub open spec fn wrap_walk(
    t: Seq<Cluster>,
    k: int,
    w: int,
    row_start: int,
    column: int,
    after: Option<int>,
    breaks: Seq<usize>,
) -> Seq<usize>
    decreases t.len() - k,
{
    if k < 0 || k >= t.len() {
        breaks
    } else {
        let cells = t[k].cells as int;
        let fold = column > row_start && sat(column + cells) > sat(row_start + w);
        let at = match after {
            Some(a) => if a > row_start && a <= column {
                a
            } else {
                column
            },
            None => column,
        };
        let column2 = sat(column + cells);
        let after2 = if t[k].space {
            Some(column2)
        } else if fold {
            None
        } else {
            after
        };
        if fold {
            wrap_walk(t, k + 1, w, at, column2, after2, breaks.push(at as usize))
        } else {
            wrap_walk(t, k + 1, w, row_start, column2, after2, breaks)
        }
    }
}

/// Where one display line's soft breaks fall, in drawn columns.
pub open spec fn wrap_columns_spec(line: Seq<char>, width: int) -> Seq<usize> {
    wrap_walk(clusters(line), 0, if width < 1 { 1 } else { width }, 0, 0, None, Seq::empty())
}

/// Where one display line's soft breaks fall, in drawn columns — greedy, after
/// the last space that fits, and through a word too long to fit at all.
fn wrap_columns(line: &str, width: usize) -> (breaks: Vec<usize>)
    ensures
        breaks@ == wrap_columns_spec(line@, width as int),
        breaks@.len() <= utf8(line@).len(),
        increasing(breaks@),
        forall|i: int| 0 <= i < breaks@.len() ==> breaks@[i] > 0,
{
    let width = if width < 1 {
        1
    } else {
        width
    };
    let t = cluster_table(line);
    proof {
        lemma_table_len(t@, utf8(line@));
    }
    let mut breaks: Vec<usize> = Vec::new();
    let mut row_start: usize = 0;
    let mut column: usize = 0;
    let mut after_space: Option<usize> = None;
    let mut k: usize = 0;
    while k < t.len()
        invariant
            t@ == clusters(line@),
            width >= 1,
            0 <= k <= t.len(),
            wrap_walk(t@, 0, width as int, 0, 0, None, Seq::empty()) == wrap_walk(
                t@,
                k as int,
                width as int,
                row_start as int,
                column as int,
                match after_space {
                    Some(a) => Some(a as int),
                    None => None,
                },
                breaks@,
            ),
            row_start <= column,
            breaks@.len() == 0 ==> row_start == 0,
            breaks@.len() > 0 ==> breaks@.last() == row_start,
            increasing(breaks@),
            forall|i: int| 0 <= i < breaks@.len() ==> breaks@[i] > 0,
            after_space matches Some(a) ==> a <= column,
            breaks@.len() <= k,
        decreases t.len() - k,
    {
        let cells = t[k].cells;
        let column2 = sat_add(column, cells);
        let fold = column > row_start && column2 > sat_add(row_start, width);
        let at = match after_space {
            Some(a) => if a > row_start && a <= column {
                a
            } else {
                column
            },
            None => column,
        };
        if fold {
            proof {
                assert forall|j: int, m: int| 0 <= j < m < breaks@.push(at).len() implies breaks@.push(
                    at,
                )[j] < breaks@.push(at)[m] by {
                    if m == breaks@.len() {
                        if breaks@.len() > 0 {
                            assert(breaks@[j] <= breaks@.last());
                        }
                    }
                }
            }
            breaks.push(at);
            row_start = at;
        }
        after_space = if t[k].space {
            Some(column2)
        } else if fold {
            None
        } else {
            after_space
        };
        column = column2;
        k = k + 1;
    }
    proof {
        lemma_table_len(t@, utf8(line@));
    }
    breaks
}

/// Every display line's soft breaks, and the visual rows they add up to — the
/// one authority for which row is which and which line a row is on.
#[derive(Clone, Debug)]
pub struct WrapLayout {
    /// How wide a row is, in columns; `None` for a surface that does not wrap.
    width: Option<usize>,
    /// Per line, the starting column of each row after its first.
    breaks: Vec<Vec<usize>>,
    /// Per line, the index of its first row; one longer than `breaks`, so the
    /// last entry is the total number of rows.
    firsts: Vec<usize>,
    /// Per line, the columns it draws in.
    widths: Vec<usize>,
}

impl WrapLayout {
    /// The row width, if the surface wraps.
    pub closed spec fn width_spec(&self) -> Option<usize> {
        self.width
    }

    /// Per line, its soft breaks.
    pub closed spec fn breaks_spec(&self) -> Seq<Seq<usize>> {
        self.breaks@.map_values(|b: Vec<usize>| b@)
    }

    /// Per line, its first row; the last entry is the number of rows.
    pub closed spec fn firsts_spec(&self) -> Seq<usize> {
        self.firsts@
    }

    /// Per line, the columns it draws in.
    pub closed spec fn widths_spec(&self) -> Seq<usize> {
        self.widths@
    }

    /// The shape every layout has.
    pub open spec fn wf(&self) -> bool {
        let b = self.breaks_spec();
        let f = self.firsts_spec();
        &&& f.len() == b.len() + 1
        &&& self.widths_spec().len() == b.len()
        &&& f[0] == 0
        &&& forall|i: int| 0 <= i < b.len() ==> f[i + 1] == f[i] + b[i].len() + 1
        &&& forall|i: int| 0 <= i < b.len() ==> increasing(#[trigger] b[i])
    }

    /// How many visual rows the whole body draws as.
    pub open spec fn rows_spec(&self) -> int {
        self.firsts_spec().last() as int
    }
}

/// The breaks one line gets, wrapping or not.
pub open spec fn line_breaks_spec(line: Seq<char>, width: Option<usize>) -> Seq<usize> {
    match width {
        Some(w) => wrap_columns_spec(line, w as int),
        None => Seq::empty(),
    }
}

/// One row per line and one more per byte: more than any layout of these
/// lines can have.
pub open spec fn rows_bound(lines: Seq<String>, n: int) -> int
    decreases n,
{
    if n <= 0 {
        0
    } else {
        rows_bound(lines, n - 1) + utf8(lines[n - 1]@).len() + 1
    }
}

proof fn lemma_rows_bound_step(lines: Seq<String>, i: int)
    requires
        0 <= i < lines.len(),
    ensures
        rows_bound(lines, i) + utf8(lines[i]@).len() + 1 <= rows_bound(lines, lines.len() as int),
    decreases lines.len() - i,
{
    if i + 1 < lines.len() {
        lemma_rows_bound_step(lines, i + 1);
    }
}

/// A table of clusters has no more clusters than bytes.
pub proof fn lemma_table_len(t: Seq<Cluster>, b: Seq<u8>)
    requires
        table_tiles(t, b),
    ensures
        t.len() <= b.len(),
{
    if t.len() > 0 {
        assert forall|i: int| 0 <= i < t.len() implies #[trigger] t[i].start >= i by {
            lemma_table_start_ge(t, b, i);
        }
        assert(t.last().start >= t.len() - 1);
    }
}

proof fn lemma_table_start_ge(t: Seq<Cluster>, b: Seq<u8>, i: int)
    requires
        table_tiles(t, b),
        0 <= i < t.len(),
    ensures
        t[i].start >= i,
    decreases i,
{
    if i > 0 {
        lemma_table_start_ge(t, b, i - 1);
        assert(t[(i - 1) + 1].start == t[i - 1].start + t[i - 1].len);
    }
}

proof fn lemma_firsts_increasing(f: Seq<usize>, b: Seq<Seq<usize>>, j: int, k: int)
    requires
        f.len() == b.len() + 1,
        forall|i: int| 0 <= i < b.len() ==> f[i + 1] == f[i] + b[i].len() + 1,
        0 <= j < k < f.len(),
    ensures
        f[j] + (k - j) <= f[k],
    decreases k - j,
{
    if j + 1 < k {
        lemma_firsts_increasing(f, b, j, k - 1);
    }
    assert(f[(k - 1) + 1] == f[k - 1] + b[k - 1].len() + 1);
}

impl WrapLayout {
    /// A surface that does not wrap: one row per line, whatever their length.
    pub fn unwrapped(lines: &[String]) -> (layout: Self)
        requires
            rows_bound(lines@, lines@.len() as int) <= usize::MAX,
        ensures
            layout.wf(),
            layout.width_spec().is_none(),
            layout.breaks_spec().len() == lines@.len(),
            forall|i: int| 0 <= i < lines@.len() ==> #[trigger] layout.breaks_spec()[i] == Seq::<usize>::empty(),
            forall|i: int| 0 <= i < lines@.len() ==> #[trigger] layout.widths_spec()[i] == column_of_spec(lines@[i]@, utf8(lines@[i]@).len() as int),
    {
        Self::build(lines, None)
    }

    /// A surface `width` columns across.
    pub fn wrapped(lines: &[String], width: usize) -> (layout: Self)
        requires
            rows_bound(lines@, lines@.len() as int) <= usize::MAX,
        ensures
            layout.wf(),
            layout.width_spec() == Some(if width < 1 { 1usize } else { width }),
            layout.breaks_spec().len() == lines@.len(),
            forall|i: int| 0 <= i < lines@.len() ==> #[trigger] layout.breaks_spec()[i] == wrap_columns_spec(lines@[i]@, if width < 1 { 1 } else { width as int }),
            forall|i: int| 0 <= i < lines@.len() ==> #[trigger] layout.widths_spec()[i] == column_of_spec(lines@[i]@, utf8(lines@[i]@).len() as int),
    {
        Self::build(lines, Some(if width < 1 { 1 } else { width }))
    }

    fn build(lines: &[String], width: Option<usize>) -> (layout: Self)
        requires
            rows_bound(lines@, lines@.len() as int) <= usize::MAX,
        ensures
            layout.wf(),
            layout.width_spec() == width,
            layout.breaks_spec().len() == lines@.len(),
            forall|i: int| 0 <= i < lines@.len() ==> #[trigger] layout.breaks_spec()[i] == line_breaks_spec(lines@[i]@, width),
            forall|i: int| 0 <= i < lines@.len() ==> #[trigger] layout.widths_spec()[i] == column_of_spec(lines@[i]@, utf8(lines@[i]@).len() as int),
    {
        let mut breaks: Vec<Vec<usize>> = Vec::new();
        let mut firsts: Vec<usize> = Vec::new();
        let mut widths: Vec<usize> = Vec::new();
        let mut row: usize = 0;
        let mut i: usize = 0;
        firsts.push(0);
        while i < lines.len()
            invariant
                0 <= i <= lines.len(),
                breaks.len() == i,
                widths.len() == i,
                firsts.len() == i + 1,
                firsts@[0] == 0,
                firsts@.last() == row,
                row <= rows_bound(lines@, i as int),
                rows_bound(lines@, lines@.len() as int) <= usize::MAX,
                forall|j: int| 0 <= j < i ==> firsts@[j + 1] == firsts@[j] + breaks@[j]@.len() + 1,
                forall|j: int| 0 <= j < i ==> increasing(#[trigger] breaks@[j]@),
                forall|j: int| 0 <= j < i ==> #[trigger] breaks@[j]@ == line_breaks_spec(lines@[j]@, width),
                forall|j: int| 0 <= j < i ==> #[trigger] widths@[j] == column_of_spec(lines@[j]@, utf8(lines@[j]@).len() as int),
            decreases lines.len() - i,
        {
            let line_breaks = match width {
                Some(w) => wrap_columns(lines[i].as_str(), w),
                None => Vec::new(),
            };
            proof {
                lemma_rows_bound_step(lines@, i as int);
            }
            let next = row + line_breaks.len() + 1;
            row = next;
            firsts.push(row);
            breaks.push(line_breaks);
            widths.push(line_columns(lines[i].as_str()));
            i = i + 1;
        }
        WrapLayout { width, breaks, firsts, widths }
    }
}

/// The line a visual row belongs to.
pub open spec fn line_of_row_spec(l: WrapLayout, row: int) -> Option<int> {
    if 0 <= row < l.rows_spec() {
        Some(count_le(l.firsts_spec(), row, l.firsts_spec().len() as int) - 1)
    } else {
        None
    }
}

/// The visual row a line's column stands on, and the column that row starts at.
pub open spec fn row_of_spec(l: WrapLayout, line: int, column: int) -> (int, int) {
    if line < 0 || line >= l.breaks_spec().len() {
        (if l.rows_spec() > 0 {
            l.rows_spec() - 1
        } else {
            0
        }, 0)
    } else {
        let b = l.breaks_spec()[line];
        let index = count_le(b, column, b.len() as int);
        (l.firsts_spec()[line] + index, if index == 0 {
            0
        } else {
            b[index - 1] as int
        })
    }
}

/// What one visual row holds: its line, and the half-open column range of that
/// line it draws. The last row of a line runs one column past its text, where
/// the break is drawn.
pub open spec fn row_span_spec(l: WrapLayout, row: int) -> Option<(int, int, int)> {
    match line_of_row_spec(l, row) {
        None => None,
        Some(line) => {
            let b = l.breaks_spec()[line];
            let index = row - l.firsts_spec()[line];
            let from = if index == 0 {
                0
            } else {
                b[index - 1] as int
            };
            let to = if index < b.len() {
                b[index] as int
            } else {
                sat(l.widths_spec()[line] + 1)
            };
            Some((line, from, to))
        },
    }
}

proof fn lemma_increasing_sorted(s: Seq<usize>)
    requires
        increasing(s),
    ensures
        sorted(s),
{
}

/// The line of a row is the line whose first row is the last at or before it.
proof fn lemma_line_of_row(l: WrapLayout, row: int)
    requires
        l.wf(),
        0 <= row < l.rows_spec(),
    ensures
        ({
            let line = count_le(l.firsts_spec(), row, l.firsts_spec().len() as int) - 1;
            &&& 0 <= line < l.breaks_spec().len()
            &&& l.firsts_spec()[line] <= row < l.firsts_spec()[line + 1]
        }),
{
    let f = l.firsts_spec();
    let b = l.breaks_spec();
    assert(sorted(f)) by {
        assert forall|j: int, k: int| 0 <= j <= k < f.len() implies f[j] <= f[k] by {
            if j < k {
                lemma_firsts_increasing(f, b, j, k);
            }
        }
    }
    lemma_count_le(f, row, f.len() as int);
    let c = count_le(f, row, f.len() as int);
    assert(f[0] <= row);
    assert(c >= 1);
    if c == f.len() {
        assert(f[f.len() - 1] <= row);
    }
}

impl WrapLayout {
    /// Whether this surface reflows at all.
    pub fn wraps(&self) -> (r: bool)
        ensures
            r == self.width_spec().is_some(),
    {
        self.width.is_some()
    }

    /// How many visual rows the whole body draws as.
    pub fn rows(&self) -> (n: usize)
        requires
            self.wf(),
        ensures
            n == self.rows_spec(),
    {
        self.firsts[self.firsts.len() - 1]
    }

    /// The visual row a line's column stands on, and the column that row starts
    /// at. A caret exactly on a break belongs to the row that break opens.
    pub fn row_of(&self, line: usize, column: usize) -> (r: (usize, usize))
        requires
            self.wf(),
        ensures
            (r.0 as int, r.1 as int) == row_of_spec(*self, line as int, column as int),
    {
        if line >= self.breaks.len() {
            let rows = self.rows();
            return (if rows > 0 {
                rows - 1
            } else {
                0
            }, 0);
        }
        let breaks = &self.breaks[line];
        proof {
            assert(self.breaks_spec()[line as int] == breaks@);
            lemma_increasing_sorted(breaks@);
        }
        let index = partition_le(breaks.as_slice(), column);
        let start = if index == 0 {
            0
        } else {
            breaks[index - 1]
        };
        proof {
            assert(self.firsts_spec()[(line as int) + 1] == self.firsts_spec()[line as int]
                + self.breaks_spec()[line as int].len() + 1);
        }
        (self.firsts[line] + index, start)
    }

    /// Which line a visual row belongs to.
    pub fn line_of_row(&self, row: usize) -> (r: Option<usize>)
        requires
            self.wf(),
        ensures
            match r {
                Some(x) => line_of_row_spec(*self, row as int) == Some(x as int),
                None => line_of_row_spec(*self, row as int).is_none(),
            },
    {
        if row < self.rows() {
            proof {
                lemma_line_of_row(*self, row as int);
                assert(sorted(self.firsts@)) by {
                    assert forall|j: int, k: int| 0 <= j <= k < self.firsts@.len() implies self.firsts@[j] <= self.firsts@[k] by {
                        if j < k {
                            lemma_firsts_increasing(self.firsts_spec(), self.breaks_spec(), j, k);
                        }
                    }
                }
            }
            Some(partition_le(self.firsts.as_slice(), row) - 1)
        } else {
            None
        }
    }

    /// What one visual row holds: its line, and the half-open column range of
    /// that line it draws.
    pub fn row_span(&self, row: usize) -> (r: Option<(usize, usize, usize)>)
        requires
            self.wf(),
        ensures
            match r {
                Some((a, b, c)) => row_span_spec(*self, row as int) == Some((a as int, b as int, c as int)),
                None => row_span_spec(*self, row as int).is_none(),
            },
    {
        let line = match self.line_of_row(row) {
            Some(line) => line,
            None => return None,
        };
        proof {
            lemma_line_of_row(*self, row as int);
            assert(self.breaks_spec()[line as int] == self.breaks@[line as int]@);
            assert(self.firsts_spec()[(line as int) + 1] == self.firsts_spec()[line as int]
                + self.breaks_spec()[line as int].len() + 1);
        }
        let breaks = &self.breaks[line];
        let index = row - self.firsts[line];
        let from = if index == 0 {
            0
        } else {
            breaks[index - 1]
        };
        let to = if index < breaks.len() {
            breaks[index]
        } else {
            sat_add(self.widths[line], 1)
        };
        Some((line, from, to))
    }
}

/// **A row and a column inside its span name each other**: every column of a
/// row's span is answered, by `row_of`, with that row and the column the row
/// starts at. This is what makes a caret drawn at a click land back on the
/// byte that was clicked.
pub proof fn law_row_of_inverts_row_span(l: WrapLayout, row: int, column: int)
    requires
        l.wf(),
        0 <= row < l.rows_spec(),
        ({
            let (line, from, to) = row_span_spec(l, row).unwrap();
            from <= column < to
        }),
    ensures
        row_span_spec(l, row) is Some,
        ({
            let (line, from, to) = row_span_spec(l, row).unwrap();
            &&& 0 <= line < l.breaks_spec().len()
            &&& row_of_spec(l, line, column) == (row, from)
        }),
{
    lemma_line_of_row(l, row);
    let line = line_of_row_spec(l, row).unwrap();
    let b = l.breaks_spec()[line];
    let f = l.firsts_spec();
    assert(f[line + 1] == f[line] + b.len() + 1);
    let index = row - f[line];
    let (_, from, to) = row_span_spec(l, row).unwrap();
    assert(increasing(b));
    assert forall|i: int| 0 <= i < index implies b[i] <= column by {
        if i < index - 1 {
            assert(b[i] < b[index - 1]);
        }
    }
    assert forall|i: int| index <= i < b.len() implies b[i] > column by {
        if i > index {
            assert(b[index] < b[i]);
        }
    }
    lemma_increasing_sorted(b);
    lemma_count_le_unique(b, column, index);
}

proof fn lemma_firsts_mono(l: WrapLayout, i: int, j: int)
    requires
        l.wf(),
        0 <= i <= j < l.firsts_spec().len(),
    ensures
        l.firsts_spec()[i] + (j - i) <= l.firsts_spec()[j],
    decreases j - i,
{
    if i < j {
        lemma_firsts_mono(l, i, j - 1);
        assert(l.firsts_spec()[j] == l.firsts_spec()[j - 1] + l.breaks_spec()[j - 1].len() + 1);
    }
}

/// `row_of` answers a row whose span holds the column: a row of the same
/// line, starting at the column `row_of` reports, and running past the
/// column — for any column of the line's text or its break.
pub proof fn lemma_row_of_lands_in_span(l: WrapLayout, line: int, column: int)
    requires
        l.wf(),
        0 <= line < l.breaks_spec().len(),
        0 <= column <= l.widths_spec()[line],
        l.widths_spec()[line] < usize::MAX,
    ensures
        ({
            let (row, start) = row_of_spec(l, line, column);
            &&& 0 <= row < l.rows_spec()
            &&& row_span_spec(l, row) is Some
            &&& row_span_spec(l, row).unwrap().0 == line
            &&& row_span_spec(l, row).unwrap().1 == start
            &&& start <= column < row_span_spec(l, row).unwrap().2
        }),
{
    let b = l.breaks_spec()[line];
    let f = l.firsts_spec();
    assert(increasing(b));
    lemma_increasing_sorted(b);
    lemma_count_le(b, column, b.len() as int);
    let index = count_le(b, column, b.len() as int);
    assert(f[line + 1] == f[line] + b.len() + 1);
    let row = f[line] + index;
    lemma_row_line(l, line, row);
    lemma_firsts_mono(l, line + 1, l.breaks_spec().len() as int);
}

/// Every row from a line's first to the next line's first belongs to that line.
proof fn lemma_row_line(l: WrapLayout, line: int, r: int)
    requires
        l.wf(),
        0 <= line < l.breaks_spec().len(),
        l.firsts_spec()[line] <= r < l.firsts_spec()[line + 1],
    ensures
        line_of_row_spec(l, r) == Some(line),
{
    let f = l.firsts_spec();
    let n = l.breaks_spec().len() as int;
    lemma_firsts_mono(l, line + 1, n);
    lemma_line_of_row(l, r);
    let other = count_le(f, r, f.len() as int) - 1;
    if other < line {
        lemma_firsts_mono(l, other + 1, line);
    } else if other > line {
        lemma_firsts_mono(l, line + 1, other);
    }
}

/// **A line's rows tile it**: its rows are the ones from its first row to the
/// next line's first, every one of them names this line, the first starts at
/// column 0, each row ends where the next begins — no gap and no overlap —
/// and the last runs one column past the line's text, where the break is
/// drawn. A row outside the layout has no span.
pub proof fn law_a_lines_rows_tile_it(l: WrapLayout, line: int, row: int)
    requires
        l.wf(),
        0 <= line < l.breaks_spec().len(),
    ensures
        ({
            let f = l.firsts_spec();
            &&& row_span_spec(l, f[line] as int) is Some
            &&& row_span_spec(l, f[line] as int).unwrap().0 == line
            &&& row_span_spec(l, f[line] as int).unwrap().1 == 0
            &&& forall|r: int|
                f[line] <= r < f[line + 1] ==> (#[trigger] row_span_spec(l, r)) is Some && row_span_spec(
                    l,
                    r,
                ).unwrap().0 == line
            &&& forall|r: int|
                f[line] <= r < f[line + 1] - 1 ==> (#[trigger] row_span_spec(l, r)).unwrap().2
                    == row_span_spec(l, r + 1).unwrap().1
            &&& row_span_spec(l, f[line + 1] - 1).unwrap().2 == sat(l.widths_spec()[line] + 1)
            &&& l.widths_spec()[line] < usize::MAX ==> row_span_spec(l, f[line + 1] - 1).unwrap().2
                == l.widths_spec()[line] + 1
        }),
        (row_span_spec(l, row) is None) == !(0 <= row < l.rows_spec()),
{
    let f = l.firsts_spec();
    let b = l.breaks_spec()[line];
    assert(f[line + 1] == f[line] + b.len() + 1);
    lemma_row_line(l, line, f[line] as int);
    lemma_row_line(l, line, f[line + 1] - 1);
    assert forall|r: int| f[line] <= r < f[line + 1] implies (#[trigger] row_span_spec(l, r)) is Some
        && row_span_spec(l, r).unwrap().0 == line by {
        lemma_row_line(l, line, r);
    }
    assert forall|r: int| f[line] <= r < f[line + 1] - 1 implies (#[trigger] row_span_spec(l, r)).unwrap().2
        == row_span_spec(l, r + 1).unwrap().1 by {
        lemma_row_line(l, line, r);
        lemma_row_line(l, line, r + 1);
    }
}

// ── the painter's lines ─────────────────────────────────────────────────────

/// The characters of one line, the break excluded.
pub open spec fn line_chars(b: Seq<u8>, line: int) -> Seq<char> {
    let (start, end) = line_bounds_of(b, line_starts_of(b), line);
    vstd::utf8::decode_utf8(b.subrange(start, end))
}

/// Every line of a body as it is drawn — tabs already the spaces they stand in
/// for.
pub fn display_lines(content: &str) -> (lines: Vec<String>)
    ensures
        lines@.len() == line_starts_of(utf8(content@)).len(),
        forall|i: int|
            0 <= i < lines@.len() ==> utf8(#[trigger] lines@[i]@) == crate::markdown::expanded(
                line_chars(utf8(content@), i),
            ),
{
    let starts = line_starts(content);
    let mut lines: Vec<String> = Vec::new();
    let mut i: usize = 0;
    while i < starts.len()
        invariant
            starts@ == line_starts_of(utf8(content@)),
            0 <= i <= starts.len(),
            lines@.len() == i,
            forall|j: int|
                0 <= j < i ==> utf8(#[trigger] lines@[j]@) == crate::markdown::expanded(
                    line_chars(utf8(content@), j),
                ),
        decreases starts.len() - i,
    {
        let _ = byte_len(content);
        proof {
            lemma_own_starts_readable(utf8(content@), i as int);
        }
        let text = line_text(content, starts.as_slice(), i);
        proof {
            lemma_piece_chars(text@, utf8(text@));
        }
        lines.push(crate::markdown::expand_tabs(text));
        i = i + 1;
    }
    lines
}

// ── motion ──────────────────────────────────────────────────────────────────

/// One direction a caret travels.
#[derive(Clone, Copy, Debug, PartialEq, Eq, Structural)]
pub enum Motion {
    Left,
    Right,
    Up,
    Down,
    LineStart,
    LineEnd,
    PageUp,
    PageDown,
    DocStart,
    DocEnd,
}

/// The line an offset is on lies inside the list of starts, and starts at or
/// before the offset.
pub proof fn lemma_line_of(b: Seq<u8>, x: int)
    requires
        b.len() <= usize::MAX,
        x >= 0,
    ensures
        ({
            let s = line_starts_of(b);
            let line = line_of(s, x);
            &&& 0 <= line < s.len()
            &&& s[line] <= x
            &&& line + 1 < s.len() ==> s[line + 1] > x
            &&& sorted(s)
        }),
{
    let s = line_starts_of(b);
    lemma_starts_shape(b, b.len() as int);
    assert(sorted(s));
    lemma_count_le(s, x, s.len() as int);
    assert(s[0] <= x);
}

/// Where a caret asked to move goes.
pub open spec fn moved_caret(b: Seq<u8>, c0: EditCaret, motion: Motion, extend: bool, page_rows: int) -> EditCaret {
    let c = healed(c0, b);
    let s = line_starts_of(b);
    let line = line_of(s, c.caret as int);
    let (start, _) = line_bounds_of(b, s, line);
    if motion == Motion::Up || motion == Motion::Down || motion == Motion::PageUp || motion
        == Motion::PageDown {
        let step = if motion == Motion::Up || motion == Motion::Down {
            1
        } else if page_rows < 1 {
            1
        } else {
            page_rows
        };
        let column = match c.desired_column {
            Some(d) => d as int,
            None => column_of_spec(line_chars(b, line), c.caret - start),
        };
        let wanted = if motion == Motion::Up || motion == Motion::PageUp {
            line - step
        } else {
            line + step
        };
        let offset = if wanted < 0 {
            0
        } else if wanted >= s.len() {
            b.len() as int
        } else {
            line_bounds_of(b, s, wanted).0 + byte_at_column_spec(line_chars(b, wanted), column)
        };
        moved(c, b, offset, extend, Some(column as usize))
    } else {
        let target = if motion == Motion::Left && !extend && c.anchor != c.caret {
            sel_start(c)
        } else if motion == Motion::Right && !extend && c.anchor != c.caret {
            sel_end(c)
        } else if motion == Motion::Left {
            previous_boundary_spec(b, c.caret as int)
        } else if motion == Motion::Right {
            next_boundary_spec(b, c.caret as int)
        } else if motion == Motion::LineStart {
            start
        } else if motion == Motion::LineEnd {
            line_bounds_of(b, s, line).1
        } else if motion == Motion::DocStart {
            0
        } else {
            b.len() as int
        };
        moved(c, b, target, extend, None)
    }
}

/// **Home goes to the start of the caret's own line**: the caret lands on the
/// first byte of the line it stood on — right after the break that ends the
/// line before, or the start of the body — with no break between it and
/// where it stood, never further back; without Shift the selection collapses
/// there.
pub proof fn law_home_goes_to_the_start_of_the_line(b: Seq<u8>, c: EditCaret, extend: bool, page_rows: int)
    requires
        vstd::utf8::valid_utf8(b),
        b.len() <= usize::MAX,
    ensures
        ({
            let s = line_starts_of(b);
            let at = healed(c, b).caret as int;
            let r = moved_caret(b, c, Motion::LineStart, extend, page_rows);
            &&& r.caret == s[line_of(s, at)]
            &&& r.caret <= at
            &&& r.caret == 0 || b[r.caret - 1] == 10u8
            &&& forall|i: int| r.caret <= i < at ==> b[i] != 10u8
            &&& !extend ==> r.anchor == r.caret
        }),
{
    let s = line_starts_of(b);
    lemma_healed(c, b);
    let at = healed(c, b).caret as int;
    lemma_line_of(b, at);
    let line = line_of(s, at);
    lemma_line_bounds(b, line);
    lemma_starts_shape(b, b.len() as int);
    let start = s[line] as int;
    assert(line_bounds_of(b, s, line).0 == start);
    assert(back_to_boundary(b, start) == start);
    if start > 0 {
        assert(b[start - 1] == 10u8);
    }
    assert(normalized(b, start) == start);
    assert forall|i: int| start <= i < at implies b[i] != 10u8 by {
        if b[i] == 10u8 {
            let k = choose|k: int| 0 <= k < s.len() && s[k] == i + 1;
            if k <= line {
                if k < line {
                    assert(s[k] < s[line]);
                }
            } else {
                if k > line + 1 {
                    assert(s[line + 1] < s[k]);
                }
            }
        }
    }
}

/// **End goes to the end of the caret's own line**: the caret lands where the
/// line's text ends — at the break that ends it, before the `\r` of a CRLF,
/// or at the end of the body — with no break between the line's start and
/// there; without Shift the selection collapses there.
pub proof fn law_end_goes_to_the_end_of_the_line(b: Seq<u8>, c: EditCaret, extend: bool, page_rows: int)
    requires
        vstd::utf8::valid_utf8(b),
        b.len() <= usize::MAX,
    ensures
        ({
            let s = line_starts_of(b);
            let at = healed(c, b).caret as int;
            let line = line_of(s, at);
            let r = moved_caret(b, c, Motion::LineEnd, extend, page_rows);
            &&& r.caret == line_bounds_of(b, s, line).1
            &&& s[line] <= r.caret <= b.len()
            &&& forall|i: int| s[line] <= i < r.caret ==> b[i] != 10u8
            &&& r.caret == b.len() || b[r.caret as int] == 10u8 || b[r.caret as int] == 13u8
            &&& !extend ==> r.anchor == r.caret
        }),
{
    let s = line_starts_of(b);
    lemma_healed(c, b);
    let at = healed(c, b).caret as int;
    lemma_line_of(b, at);
    let line = line_of(s, at);
    lemma_line_bounds(b, line);
    lemma_starts_shape(b, b.len() as int);
    let start = s[line] as int;
    let end = line_bounds_of(b, s, line).1;
    let e0 = if line + 1 < s.len() {
        s[line + 1] - 1
    } else {
        b.len() as int
    };
    if line + 1 < s.len() {
        assert(b[e0] == 10u8);
        assert(s[line] < s[line + 1]);
    }
    if start > 0 {
        assert(b[start - 1] == 10u8);
    }
    assert(back_to_boundary(b, end) == end);
    assert(normalized(b, end) == end);
    assert forall|i: int| start <= i < end implies b[i] != 10u8 by {
        if b[i] == 10u8 {
            let k = choose|k: int| 0 <= k < s.len() && s[k] == i + 1;
            if k < line {
                assert(s[k] < s[line]);
            } else if k > line + 1 {
                assert(s[line + 1] < s[k]);
            }
        }
    }
}

/// **The document's ends**: Ctrl+Home puts the caret at the first byte of the
/// body and Ctrl+End after its last; Up on the first line goes to the start,
/// Down on the last line to the end.
pub proof fn law_the_document_ends(b: Seq<u8>, c: EditCaret, extend: bool, page_rows: int)
    requires
        vstd::utf8::valid_utf8(b),
        b.len() <= usize::MAX,
    ensures
        moved_caret(b, c, Motion::DocStart, extend, page_rows).caret == 0,
        moved_caret(b, c, Motion::DocEnd, extend, page_rows).caret == b.len(),
        line_of(line_starts_of(b), healed(c, b).caret as int) == 0 ==> moved_caret(
            b,
            c,
            Motion::Up,
            extend,
            page_rows,
        ).caret == 0,
        line_of(line_starts_of(b), healed(c, b).caret as int) == line_starts_of(b).len() - 1 ==> moved_caret(
            b,
            c,
            Motion::Down,
            extend,
            page_rows,
        ).caret == b.len(),
{
    crate::utf8_text::lemma_valid_starts_at_boundary(b);
    assert(back_to_boundary(b, 0) == 0);
    assert(back_to_boundary(b, b.len() as int) == b.len());
    assert(normalized(b, 0) == 0);
    assert(normalized(b, b.len() as int) == b.len());
}

/// Move the caret, dragging the anchor with it unless the key wore Shift.
///
/// `page_rows` is how many lines the body can show: a page is a screenful.
/// A vertical run keeps the column it started in; off the top is the top and
/// off the bottom is the end.
#[verifier::spinoff_prover]
#[verifier::rlimit(40)]
pub fn move_caret(content: &str, caret: &mut EditCaret, motion: Motion, extend: bool, page_rows: usize)
    ensures
        *final(caret) == moved_caret(utf8(content@), *old(caret), motion, extend, page_rows as int),
{
    let len = byte_len(content);
    caret.heal(content);
    let ghost b = utf8(content@);
    proof {
        lemma_healed(*old(caret), b);
        lemma_line_of(b, caret.caret as int);
    }
    let starts = line_starts(content);
    let line = line_index(starts.as_slice(), caret.caret);
    proof {
        lemma_own_starts_readable(b, line as int);
    }
    let vertical = match motion {
        Motion::Up | Motion::Down | Motion::PageUp | Motion::PageDown => true,
        _ => false,
    };
    if vertical {
        let step = match motion {
            Motion::Up | Motion::Down => 1,
            _ => if page_rows < 1 {
                1
            } else {
                page_rows
            },
        };
        let (start, _) = line_bounds(content, starts.as_slice(), line);
        let column = match caret.desired_column {
            Some(d) => d,
            None => {
                let text = line_text(content, starts.as_slice(), line);
                proof {
                    lemma_piece_chars(text@, utf8(text@));
                }
                column_of(text, caret.caret - start)
            },
        };
        let up = match motion {
            Motion::Up | Motion::PageUp => true,
            _ => false,
        };
        if up && step > line {
            finish_move(content, caret, 0, extend, Some(column));
            return;
        }
        let wanted = if up {
            Some(line - step)
        } else {
            line.checked_add(step)
        };
        let wanted = match wanted {
            Some(w) => if w < starts.len() {
                w
            } else {
                finish_move(content, caret, len, extend, Some(column));
                return;
            },
            None => {
                finish_move(content, caret, len, extend, Some(column));
                return;
            },
        };
        proof {
            lemma_own_starts_readable(utf8(content@), wanted as int);
        }
        let (wstart, _) = line_bounds(content, starts.as_slice(), wanted);
        let text = line_text(content, starts.as_slice(), wanted);
        proof {
            lemma_piece_chars(text@, utf8(text@));
        }
        let offset = wstart + byte_at_column(text, column);
        finish_move(content, caret, offset, extend, Some(column));
        return;
    }
    let target = if motion == Motion::Left && !extend && !caret.is_empty() {
        caret.range().start
    } else if motion == Motion::Right && !extend && !caret.is_empty() {
        caret.range().end
    } else if motion == Motion::Left {
        previous_boundary(content, caret.caret)
    } else if motion == Motion::Right {
        next_boundary(content, caret.caret)
    } else if motion == Motion::LineStart {
        line_bounds(content, starts.as_slice(), line).0
    } else if motion == Motion::LineEnd {
        line_bounds(content, starts.as_slice(), line).1
    } else if motion == Motion::DocStart {
        0
    } else {
        len
    };
    finish_move(content, caret, target, extend, None);
}

/// The offset a row and a drawn column name — the click's own question.
pub open spec fn offset_at_spec(b: Seq<u8>, line: int, column: int) -> int {
    let s = line_starts_of(b);
    let l = if line < s.len() - 1 {
        line
    } else {
        s.len() - 1
    };
    line_bounds_of(b, s, l).0 + byte_at_column_spec(line_chars(b, l), column)
}

/// The offset a row and a drawn column name — the click's own question.
pub fn offset_at(content: &str, line: usize, column: usize) -> (offset: usize)
    ensures
        offset == offset_at_spec(utf8(content@), line as int, column as int),
        offset <= utf8(content@).len(),
{
    let _ = byte_len(content);
    let starts = line_starts(content);
    proof {
        lemma_starts_shape(utf8(content@), utf8(content@).len() as int);
    }
    let line = if line < starts.len() - 1 {
        line
    } else {
        starts.len() - 1
    };
    proof {
        lemma_own_starts_readable(utf8(content@), line as int);
    }
    let (start, end) = line_bounds(content, starts.as_slice(), line);
    let text = line_text(content, starts.as_slice(), line);
    proof {
        lemma_piece_chars(text@, utf8(text@));
    }
    start + byte_at_column(text, column)
}

/// Which columns of one line a selection covers, if any.
pub open spec fn selected_columns_spec(b: Seq<u8>, s: Seq<usize>, line: int, lo: int, hi: int) -> Option<(int, int)> {
    let (start, end) = line_bounds_of(b, s, line);
    let break_end = if 0 <= line + 1 < s.len() {
        s[line + 1] as int
    } else {
        b.len() as int
    };
    let text = vstd::utf8::decode_utf8(b.subrange(start, end));
    if lo >= hi {
        None
    } else if hi <= start || lo > break_end {
        None
    } else if lo == break_end && break_end != end {
        None
    } else {
        let from = column_of_spec(
            text,
            vstd::math::min(if lo > start { lo - start } else { 0 }, end - start),
        );
        let to = if hi > end {
            sat(column_of_spec(text, end - start) + 1)
        } else {
            column_of_spec(text, hi - start)
        };
        if to > from {
            Some((from, to))
        } else {
            None
        }
    }
}

/// Which columns of one line a selection covers, if any.
///
/// The far end of a line inside the selection runs one column past its text:
/// the break is selected too.
pub fn selected_columns(content: &str, starts: &[usize], line: usize, range: &std::ops::Range<usize>) -> (r: Option<(usize, usize)>)
    requires
        readable_line(utf8(content@), starts@, line as int),
    ensures
        match r {
            Some((a, c)) => selected_columns_spec(utf8(content@), starts@, line as int, range.start as int, range.end as int)
                == Some((a as int, c as int)),
            None => selected_columns_spec(utf8(content@), starts@, line as int, range.start as int, range.end as int).is_none(),
        },
{
    if range.start >= range.end {
        return None;
    }
    let len = byte_len(content);
    let (start, end) = line_bounds(content, starts, line);
    let break_end = if line < starts.len() && line + 1 < starts.len() {
        starts[line + 1]
    } else {
        len
    };
    if range.end <= start || range.start > break_end {
        return None;
    }
    if range.start == break_end && break_end != end {
        return None;
    }
    let text = line_text(content, starts, line);
    proof {
        lemma_piece_chars(text@, utf8(text@));
    }
    let rel = if range.start > start {
        range.start - start
    } else {
        0
    };
    let from = column_of(text, if rel < end - start {
        rel
    } else {
        end - start
    });
    let to = if range.end > end {
        sat_add(line_columns(text), 1)
    } else {
        column_of(text, range.end - start)
    };
    if to > from {
        Some((from, to))
    } else {
        None
    }
}

// ── the keys ────────────────────────────────────────────────────────────────

/// The named keys the edit surface has a verb for, and `Other` for the rest.
#[derive(Clone, Copy, Debug, PartialEq, Eq, Structural)]
pub enum NamedKey {
    ArrowLeft,
    ArrowRight,
    ArrowUp,
    ArrowDown,
    Home,
    End,
    PageUp,
    PageDown,
    Enter,
    Tab,
    Backspace,
    Delete,
    Space,
    Escape,
    Other,
}

/// One key, as far as the edit surface reads it.
#[derive(Clone, Debug, PartialEq, Eq)]
pub enum Key {
    Named(NamedKey),
    /// A key that types this text.
    Character(String),
    /// A key the platform could not name (a dead key, an unidentified one).
    Unidentified,
}

/// The modifier keys held when a key arrives.
#[derive(Clone, Copy, Debug, PartialEq, Eq, Structural)]
pub struct Modifiers {
    pub control: bool,
    pub alt: bool,
    pub shift: bool,
}

/// What one keystroke means to the edit surface.
///
/// Every key that reaches the surface has one, including the ones with nothing
/// to do: the editor owns the keyboard while it is focused, so a key with no
/// verb is [`EditCommand::Ignore`] and is swallowed, not passed down.
#[derive(Clone, Debug, PartialEq, Eq)]
pub enum EditCommand {
    Insert(String),
    /// Enter — the file's own break, not a chosen one.
    Newline,
    /// A literal tab: one byte stored, a stop drawn.
    Tab,
    Backspace,
    Delete,
    Move { motion: Motion, extend: bool },
    SelectAll,
    Copy,
    Cut,
    Paste,
    Save,
    /// Esc — the keyboard goes back to the terminal.
    Release,
    /// The editor's key, with nothing for it to do.
    Ignore,
}

/// Whether `t` is exactly the letter `lower`, in either case.
pub open spec fn is_letter(t: Seq<char>, lower: char, upper: char) -> bool {
    t.len() == 1 && (t[0] == lower || t[0] == upper)
}

/// What a Ctrl chord on a character means.
pub open spec fn chord_command(t: Seq<char>) -> EditCommand {
    if is_letter(t, 's', 'S') {
        EditCommand::Save
    } else if is_letter(t, 'c', 'C') {
        EditCommand::Copy
    } else if is_letter(t, 'x', 'X') {
        EditCommand::Cut
    } else if is_letter(t, 'v', 'V') {
        EditCommand::Paste
    } else if is_letter(t, 'a', 'A') {
        EditCommand::SelectAll
    } else {
        EditCommand::Ignore
    }
}

/// **The clipboard chords are three different verbs**: with Ctrl held (and
/// not Alt), C copies, X cuts and V pastes, in either case of the letter; and
/// no two of them do the same thing.
pub proof fn law_the_clipboard_chords(t: Seq<char>)
    ensures
        t == seq!['c'] || t == seq!['C'] ==> chord_command(t) == EditCommand::Copy,
        t == seq!['x'] || t == seq!['X'] ==> chord_command(t) == EditCommand::Cut,
        t == seq!['v'] || t == seq!['V'] ==> chord_command(t) == EditCommand::Paste,
        chord_command(seq!['c']) != chord_command(seq!['x']),
        chord_command(seq!['x']) != chord_command(seq!['v']),
        chord_command(seq!['c']) != chord_command(seq!['v']),
{
}

/// **The chord table**: with Ctrl held and not Alt, S saves and A selects
/// everything, in either case of the letter; any other text is no chord.
/// No two chord letters share a verb.
pub proof fn law_the_chord_table(t: Seq<char>)
    ensures
        t == seq!['s'] || t == seq!['S'] ==> chord_command(t) == EditCommand::Save,
        t == seq!['a'] || t == seq!['A'] ==> chord_command(t) == EditCommand::SelectAll,
        !(is_letter(t, 's', 'S') || is_letter(t, 'c', 'C') || is_letter(t, 'x', 'X') || is_letter(t, 'v', 'V')
            || is_letter(t, 'a', 'A')) ==> chord_command(t) == EditCommand::Ignore,
        forall|p: char, q: char|
            #![trigger chord_command(seq![p]), chord_command(seq![q])]
            (p == 's' || p == 'c' || p == 'x' || p == 'v' || p == 'a') && (q == 's' || q == 'c' || q == 'x' || q
                == 'v' || q == 'a') && p != q ==> chord_command(seq![p]) != chord_command(seq![q]),
{
}

/// The motion a named key makes, when it makes one.
pub open spec fn key_motion(n: NamedKey) -> Option<Motion> {
    match n {
        NamedKey::ArrowLeft => Some(Motion::Left),
        NamedKey::ArrowRight => Some(Motion::Right),
        NamedKey::ArrowUp => Some(Motion::Up),
        NamedKey::ArrowDown => Some(Motion::Down),
        NamedKey::Home => Some(Motion::LineStart),
        NamedKey::End => Some(Motion::LineEnd),
        NamedKey::PageUp => Some(Motion::PageUp),
        NamedKey::PageDown => Some(Motion::PageDown),
        _ => None,
    }
}

/// **The motion keys**: each arrow, Home, End, PageUp and PageDown moves the
/// caret its own way — the arrows by their direction, Home and End to the
/// line's ends, the page keys by a page — no two keys the same way, and
/// Shift extends the selection along the very same motion.
pub proof fn law_the_motion_keys(n: NamedKey, m: NamedKey)
    ensures
        key_motion(NamedKey::ArrowLeft) == Some(Motion::Left),
        key_motion(NamedKey::ArrowRight) == Some(Motion::Right),
        key_motion(NamedKey::ArrowUp) == Some(Motion::Up),
        key_motion(NamedKey::ArrowDown) == Some(Motion::Down),
        key_motion(NamedKey::Home) == Some(Motion::LineStart),
        key_motion(NamedKey::End) == Some(Motion::LineEnd),
        key_motion(NamedKey::PageUp) == Some(Motion::PageUp),
        key_motion(NamedKey::PageDown) == Some(Motion::PageDown),
        n != m && key_motion(n) is Some ==> key_motion(n) != key_motion(m),
        key_motion(n) matches Some(motion) ==> named_command(n, true) == (EditCommand::Move {
            motion,
            extend: true,
        }) && named_command(n, false) == (EditCommand::Move { motion, extend: false }),
        ctrl_named_command(NamedKey::Home, false) == (EditCommand::Move { motion: Motion::DocStart, extend: false }),
        ctrl_named_command(NamedKey::End, false) == (EditCommand::Move { motion: Motion::DocEnd, extend: false }),
{
}

/// What a named key means without Ctrl, Space aside (it types a space).
pub open spec fn named_command(n: NamedKey, shift: bool) -> EditCommand {
    match key_motion(n) {
        Some(motion) => EditCommand::Move { motion, extend: shift },
        None => match n {
            NamedKey::Enter => EditCommand::Newline,
            NamedKey::Tab => EditCommand::Tab,
            NamedKey::Backspace => EditCommand::Backspace,
            NamedKey::Delete => EditCommand::Delete,
            NamedKey::Escape => EditCommand::Release,
            _ => EditCommand::Ignore,
        },
    }
}

/// What a named key means under Ctrl (and not Alt).
pub open spec fn ctrl_named_command(n: NamedKey, shift: bool) -> EditCommand {
    match n {
        NamedKey::Home => EditCommand::Move { motion: Motion::DocStart, extend: shift },
        NamedKey::End => EditCommand::Move { motion: Motion::DocEnd, extend: shift },
        _ => EditCommand::Ignore,
    }
}

fn letter_is(text: &str, lower: char, upper: char) -> (r: bool)
    ensures
        r == is_letter(text@, lower, upper),
{
    if text.unicode_len() != 1 {
        return false;
    }
    let c = text.get_char(0);
    c == lower || c == upper
}

/// What one key means with the edit surface focused.
///
/// Total: an editor is a thing to type into, so every key it receives is its
/// own. AltGr arrives as Ctrl+Alt and is typing — the one chord where a Ctrl
/// means nothing; Alt alone is a menu accelerator and types nothing.
pub fn command(key: &Key, modifiers: Modifiers) -> (r: EditCommand)
    ensures
        ({
            let ctrl = modifiers.control;
            let alt = modifiers.alt;
            let shift = modifiers.shift;
            match *key {
                Key::Character(t) => if ctrl && !alt {
                    r == chord_command(t@)
                } else if !alt || ctrl {
                    r matches EditCommand::Insert(s) && s@ == t@
                } else {
                    r == EditCommand::Ignore
                },
                Key::Named(n) => if ctrl && !alt {
                    r == ctrl_named_command(n, shift)
                } else if n == NamedKey::Space {
                    r matches EditCommand::Insert(s) && s@ == seq![' ']
                } else {
                    r == named_command(n, shift)
                },
                Key::Unidentified => r == EditCommand::Ignore,
            }
        }),
{
    let ctrl = modifiers.control;
    let alt = modifiers.alt;
    let shift = modifiers.shift;
    let altgr = ctrl && alt;
    if ctrl && !alt {
        return match key {
            Key::Character(text) => {
                let text = text.as_str();
                if letter_is(text, 's', 'S') {
                    EditCommand::Save
                } else if letter_is(text, 'c', 'C') {
                    EditCommand::Copy
                } else if letter_is(text, 'x', 'X') {
                    EditCommand::Cut
                } else if letter_is(text, 'v', 'V') {
                    EditCommand::Paste
                } else if letter_is(text, 'a', 'A') {
                    EditCommand::SelectAll
                } else {
                    EditCommand::Ignore
                }
            },
            Key::Named(NamedKey::Home) => EditCommand::Move { motion: Motion::DocStart, extend: shift },
            Key::Named(NamedKey::End) => EditCommand::Move { motion: Motion::DocEnd, extend: shift },
            _ => EditCommand::Ignore,
        };
    }
    match key {
        Key::Named(named) => {
            let motion = match named {
                NamedKey::ArrowLeft => Some(Motion::Left),
                NamedKey::ArrowRight => Some(Motion::Right),
                NamedKey::ArrowUp => Some(Motion::Up),
                NamedKey::ArrowDown => Some(Motion::Down),
                NamedKey::Home => Some(Motion::LineStart),
                NamedKey::End => Some(Motion::LineEnd),
                NamedKey::PageUp => Some(Motion::PageUp),
                NamedKey::PageDown => Some(Motion::PageDown),
                _ => None,
            };
            if let Some(motion) = motion {
                return EditCommand::Move { motion, extend: shift };
            }
            match named {
                NamedKey::Enter => EditCommand::Newline,
                NamedKey::Tab => EditCommand::Tab,
                NamedKey::Backspace => EditCommand::Backspace,
                NamedKey::Delete => EditCommand::Delete,
                NamedKey::Space => {
                    proof {
                        reveal_strlit(" ");
                    }
                    EditCommand::Insert(String::from_str(" "))
                },
                NamedKey::Escape => EditCommand::Release,
                _ => EditCommand::Ignore,
            }
        },
        Key::Character(text) => if !alt || altgr {
            EditCommand::Insert(String::from_str(text.as_str()))
        } else {
            EditCommand::Ignore
        },
        Key::Unidentified => EditCommand::Ignore,
    }
}

} // verus!
