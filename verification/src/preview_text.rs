//! Text ownership and replacement records for the preview editor.
//!
//! A [`LineIndex`] keeps where every line of a body starts and how wide every
//! line draws, and is kept up to date from replacements rather than rebuilt:
//! a replacement rescans only the bytes it inserted and measures only the
//! lines it touched, and what it leaves is exactly the index of the new body.
use vstd::prelude::*;
use std::collections::BTreeMap;
use crate::markdown::{expand_tabs, expanded};
use crate::preview_edit::{
    lemma_line_of, lemma_piece_chars, lemma_starts_shape, line_chars, line_index, line_of,
    line_starts, line_starts_of, line_text, sorted, starts_shape,
};
use crate::unicode::{display_width, str_display_width};
use crate::utf8_text::{byte_len, bytes_of, spliced, utf8};

verus! {

broadcast use vstd::utf8::encode_utf8_valid_utf8;

// ── what an index holds ─────────────────────────────────────────────────────

/// The columns one line of a body draws in: its tabs expanded to the spaces
/// they stand for, then measured.
pub open spec fn line_width(b: Seq<u8>, line: int) -> usize {
    display_width(vstd::utf8::decode_utf8(expanded(line_chars(b, line))))
}

/// The width of every line of a body, in order.
pub open spec fn line_widths(b: Seq<u8>) -> Seq<usize> {
    Seq::new(line_starts_of(b).len(), |line: int| line_width(b, line))
}

/// How many entries of a list equal `w`.
pub open spec fn occurrences(s: Seq<usize>, w: usize) -> nat
    decreases s.len(),
{
    if s.len() == 0 {
        0
    } else {
        occurrences(s.drop_last(), w) + if s.last() == w {
            1nat
        } else {
            0nat
        }
    }
}

/// How many entries have each value, for the values that occur.
pub open spec fn tally(s: Seq<usize>) -> Map<usize, usize> {
    Map::new(|w: usize| occurrences(s, w) > 0, |w: usize| occurrences(s, w) as usize)
}

/// The greatest entry of a list; zero for an empty one.
pub open spec fn greatest(s: Seq<usize>) -> usize
    decreases s.len(),
{
    if s.len() == 0 {
        0
    } else if s.last() > greatest(s.drop_last()) {
        s.last()
    } else {
        greatest(s.drop_last())
    }
}

proof fn lemma_occurrences_concat(a: Seq<usize>, b: Seq<usize>, w: usize)
    ensures
        occurrences(a + b, w) == occurrences(a, w) + occurrences(b, w),
    decreases b.len(),
{
    if b.len() == 0 {
        assert(a + b =~= a);
    } else {
        assert((a + b).drop_last() =~= a + b.drop_last());
        lemma_occurrences_concat(a, b.drop_last(), w);
    }
}

proof fn lemma_occurrences_bound(s: Seq<usize>, w: usize)
    ensures
        occurrences(s, w) <= s.len(),
        occurrences(s, w) > 0 <==> s.contains(w),
    decreases s.len(),
{
    if s.len() > 0 {
        lemma_occurrences_bound(s.drop_last(), w);
        if s.drop_last().contains(w) {
            let i = choose|i: int| 0 <= i < s.drop_last().len() && s.drop_last()[i] == w;
            assert(s[i] == w);
        }
        if s.contains(w) && s.last() != w {
            let i = choose|i: int| 0 <= i < s.len() && s[i] == w;
            assert(s.drop_last()[i] == w);
        }
    }
}

/// The greatest entry is an entry, and no entry is above it.
proof fn lemma_greatest(s: Seq<usize>)
    ensures
        s.len() > 0 ==> s.contains(greatest(s)),
        forall|i: int| 0 <= i < s.len() ==> s[i] <= greatest(s),
    decreases s.len(),
{
    if s.len() > 0 {
        let d = s.drop_last();
        lemma_greatest(d);
        assert forall|i: int| 0 <= i < s.len() implies s[i] <= greatest(s) by {
            if i < s.len() - 1 {
                assert(s[i] == d[i]);
            }
        }
        if s.last() <= greatest(d) && d.len() > 0 {
            let i = choose|i: int| 0 <= i < d.len() && d[i] == greatest(d);
            assert(s[i] == greatest(s));
        } else {
            assert(s[s.len() - 1] == greatest(s));
        }
    }
}

/// `usize` keys are ordered the way a `BTreeMap` needs them to be.
proof fn lemma_usize_keys_ordered()
    ensures
        vstd::laws_cmp::obeys_cmp::<usize>(),
{
    broadcast use vstd::laws_cmp::group_laws_cmp;

}

/// `BTreeMap::last_key_value`, as an owned pair: the entry with the greatest
/// key, and `None` for an empty map.
///
/// The contract claims what the standard library documents: the key returned
/// is the map's maximum, with its value.
#[verifier::external_body]
fn last_entry(m: &BTreeMap<usize, usize>) -> (r: Option<(usize, usize)>)
    ensures
        match r {
            Some((k, v)) => {
                &&& m@.contains_key(k)
                &&& m@[k] == v
                &&& forall|j: usize| m@.contains_key(j) ==> j <= k
            },
            None => m@.dom().is_empty(),
        },
{
    match m.last_key_value() {
        Some((k, v)) => Some((*k, *v)),
        None => None,
    }
}

/// One more entry of width `w`.
fn tally_add(counts: &mut BTreeMap<usize, usize>, w: usize)
    requires
        old(counts)@.contains_key(w) ==> old(counts)@[w] < usize::MAX,
    ensures
        final(counts)@ == old(counts)@.insert(
            w,
            if old(counts)@.contains_key(w) {
                (old(counts)@[w] + 1) as usize
            } else {
                1usize
            },
        ),
{
    proof {
        lemma_usize_keys_ordered();
    }
    let n = match counts.get(&w) {
        Some(c) => *c + 1,
        None => 1,
    };
    counts.insert(w, n);
}

/// One fewer entry of width `w`; the width leaves when none is left.
fn tally_take(counts: &mut BTreeMap<usize, usize>, w: usize)
    requires
        old(counts)@.contains_key(w),
        old(counts)@[w] >= 1,
    ensures
        final(counts)@ == if old(counts)@[w] == 1 {
            old(counts)@.remove(w)
        } else {
            old(counts)@.insert(w, (old(counts)@[w] - 1) as usize)
        },
{
    proof {
        lemma_usize_keys_ordered();
    }
    let n = match counts.get(&w) {
        Some(c) => *c,
        None => 1,
    };
    if n == 1 {
        counts.remove(&w);
    } else {
        counts.insert(w, n - 1);
    }
}

/// The columns a line draws in, tabs expanded.
fn width(line: &str) -> (w: usize)
    ensures
        w == display_width(vstd::utf8::decode_utf8(expanded(line@))),
{
    let drawn = expand_tabs(line);
    proof {
        vstd::utf8::encode_utf8_decode_utf8(drawn@);
    }
    str_display_width(drawn.as_str())
}

// ── where lines start after a replacement ───────────────────────────────────

/// The line starts a run of inserted bytes opens, the run placed at `at`:
/// one past each `\n` among its first `n` bytes.
pub open spec fn breaks_upto(ins: Seq<u8>, at: int, n: int) -> Seq<usize>
    decreases n,
{
    if n <= 0 {
        Seq::empty()
    } else if ins[n - 1] == 10u8 {
        breaks_upto(ins, at, n - 1).push((at + n) as usize)
    } else {
        breaks_upto(ins, at, n - 1)
    }
}

/// Every entry moved by what a replacement took out and put in.
pub open spec fn shifted(s: Seq<usize>, removed: int, inserted: int) -> Seq<usize> {
    Seq::new(s.len(), |j: int| (s[j] - removed + inserted) as usize)
}

/// The starts of a body after `removed` bytes at `at` were replaced by
/// `ins`, from the starts before: the lines up to the one holding `at` keep
/// their starts, the inserted breaks open new ones, and the lines after the
/// one holding the end of the removed bytes move by the difference.
pub open spec fn respliced_starts(old_starts: Seq<usize>, at: int, removed: int, ins: Seq<u8>) -> Seq<usize> {
    let first = line_of(old_starts, at);
    let last = line_of(old_starts, at + removed);
    old_starts.subrange(0, first + 1) + breaks_upto(ins, at, ins.len() as int) + shifted(
        old_starts.subrange(last + 1, old_starts.len() as int),
        removed,
        ins.len() as int,
    )
}

proof fn lemma_breaks_shape(ins: Seq<u8>, at: int, n: int)
    requires
        0 <= n <= ins.len(),
        0 <= at,
        at + ins.len() <= usize::MAX,
    ensures
        ({
            let bs = breaks_upto(ins, at, n);
            &&& forall|j: int, k: int| 0 <= j < k < bs.len() ==> bs[j] < bs[k]
            &&& forall|k: int|
                0 <= k < bs.len() ==> at + 1 <= #[trigger] bs[k] <= at + n && ins[bs[k] - at - 1]
                    == 10u8
            &&& forall|i: int|
                0 <= i < n && ins[i] == 10u8 ==> exists|k: int| 0 <= k < bs.len() && bs[k] == at + i + 1
        }),
    decreases n,
{
    if n > 0 {
        lemma_breaks_shape(ins, at, n - 1);
        let s = breaks_upto(ins, at, n - 1);
        if ins[n - 1] == 10u8 {
            let t = s.push((at + n) as usize);
            assert forall|i: int| 0 <= i < n && ins[i] == 10u8 implies exists|k: int|
                0 <= k < t.len() && t[k] == at + i + 1 by {
                if i == n - 1 {
                    assert(t[t.len() - 1] == at + i + 1);
                } else {
                    let k = choose|k: int| 0 <= k < s.len() && s[k] == at + i + 1;
                    assert(t[k] == at + i + 1);
                }
            }
        }
    }
}

proof fn lemma_starts_agree(b: Seq<u8>, s: Seq<usize>, t: Seq<usize>, n: int)
    requires
        starts_shape(b, s, b.len() as int),
        starts_shape(b, t, b.len() as int),
        0 <= n <= s.len(),
        n <= t.len(),
    ensures
        forall|k: int| 0 <= k < n ==> s[k] == t[k],
    decreases n,
{
    if n > 0 {
        lemma_starts_agree(b, s, t, n - 1);
        let k = n - 1;
        if k > 0 {
            if s[k] < t[k] {
                let i = s[k] - 1;
                assert(b[i] == 10u8);
                let m = choose|m: int| 0 <= m < t.len() && t[m] == i + 1;
                if m > k {
                    assert(t[k] < t[m]);
                }
                assert(s[m] < s[k]);
            } else if t[k] < s[k] {
                let i = t[k] - 1;
                assert(b[i] == 10u8);
                let m = choose|m: int| 0 <= m < s.len() && s[m] == i + 1;
                if m > k {
                    assert(s[k] < s[m]);
                }
                assert(t[m] < t[k]);
            }
        }
    }
}

/// A list with the shape of a body's line starts is its line starts.
proof fn lemma_starts_unique(b: Seq<u8>, s: Seq<usize>)
    requires
        b.len() <= usize::MAX,
        starts_shape(b, s, b.len() as int),
    ensures
        s == line_starts_of(b),
{
    let t = line_starts_of(b);
    lemma_starts_shape(b, b.len() as int);
    let n = if s.len() < t.len() {
        s.len() as int
    } else {
        t.len() as int
    };
    lemma_starts_agree(b, s, t, n);
    if s.len() > t.len() {
        let m = t.len() as int;
        assert(b[s[m] - 1] == 10u8);
        let q = choose|q: int| 0 <= q < t.len() && t[q] == s[m] - 1 + 1;
        assert(s[q] < s[m]);
    }
    if t.len() > s.len() {
        let m = s.len() as int;
        assert(b[t[m] - 1] == 10u8);
        let q = choose|q: int| 0 <= q < s.len() && s[q] == t[m] - 1 + 1;
        assert(t[q] < t[m]);
    }
    assert(s =~= t);
}

/// The starts after a replacement, from the starts before it, are the
/// starts of the new body.
#[verifier::spinoff_prover]
#[verifier::rlimit(40)]
proof fn lemma_respliced_starts(ob: Seq<u8>, at: int, removed: int, ins: Seq<u8>)
    requires
        0 <= at,
        0 <= removed,
        at + removed <= ob.len(),
        ob.len() <= usize::MAX,
        spliced(ob, at, at + removed, ins).len() <= usize::MAX,
    ensures
        respliced_starts(line_starts_of(ob), at, removed, ins) == line_starts_of(
            spliced(ob, at, at + removed, ins),
        ),
{
    let nb = spliced(ob, at, at + removed, ins);
    let os = line_starts_of(ob);
    let l = ins.len() as int;
    lemma_starts_shape(ob, ob.len() as int);
    lemma_line_of(ob, at);
    lemma_line_of(ob, at + removed);
    let first = line_of(os, at);
    let last = line_of(os, at + removed);
    lemma_breaks_shape(ins, at, l);
    let p = os.subrange(0, first + 1);
    let m = breaks_upto(ins, at, l);
    let q = shifted(os.subrange(last + 1, os.len() as int), removed, l);
    let r = p + m + q;
    assert(r == respliced_starts(os, at, removed, ins));
    assert(nb.len() == ob.len() - removed + l);
    assert forall|i: int| 0 <= i < at implies nb[i] == ob[i] by {}
    assert forall|i: int| at <= i < at + l implies nb[i] == ins[i - at] by {}
    assert forall|i: int| at + l <= i < nb.len() implies nb[i] == ob[i - l + removed] by {}
    // the lines up to `first` start at or before `at`, the lines after `last`
    // after the end of what was removed
    assert forall|j: int| 0 <= j <= first implies os[j] <= at by {
        assert(os[j] <= os[first]);
    }
    assert forall|j: int| last < j < os.len() implies os[j] > at + removed by {
        assert(os[last + 1] <= os[j]);
    }
    assert(first <= last) by {
        if first > last {
            assert(os[last + 1] <= os[first]);
        }
    }
    // where each piece lies
    assert forall|x: int| 0 <= x < p.len() implies r[x] == os[x] && r[x] <= at by {}
    assert forall|x: int| p.len() <= x < p.len() + m.len() implies r[x] == m[x - p.len()] && at + 1
        <= r[x] <= at + l by {}
    assert forall|x: int| p.len() + m.len() <= x < r.len() implies r[x] == os[x - p.len() - m.len()
        + last + 1] - removed + l && r[x] > at + l && r[x] <= nb.len() by {
        let j = x - p.len() - m.len() + last + 1;
        assert(os[j] <= ob.len());
    }
    assert(starts_shape(nb, r, nb.len() as int)) by {
        assert(r[0] == 0);
        assert forall|j: int, k: int| 0 <= j < k < r.len() implies r[j] < r[k] by {
            if k < p.len() {
                assert(os[j] < os[k]);
            } else if j >= p.len() + m.len() {
                let jj = j - p.len() - m.len() + last + 1;
                let kk = k - p.len() - m.len() + last + 1;
                assert(os[jj] < os[kk]);
            } else if j >= p.len() && k < p.len() + m.len() {
                assert(m[j - p.len()] < m[k - p.len()]);
            }
        }
        assert forall|k: int| 0 <= k < r.len() implies r[k] <= nb.len() by {}
        assert forall|k: int| 1 <= k < r.len() implies nb[r[k] - 1] == 10u8 by {
            if k < p.len() {
                assert(ob[os[k] - 1] == 10u8);
            } else if k < p.len() + m.len() {
                let y = m[k - p.len()];
                assert(ins[y - at - 1] == 10u8);
            } else {
                let j = k - p.len() - m.len() + last + 1;
                assert(ob[os[j] - 1] == 10u8);
            }
        }
        assert forall|i: int| 0 <= i < nb.len() && nb[i] == 10u8 implies exists|k: int|
            0 <= k < r.len() && r[k] == i + 1 by {
            if i < at {
                assert(ob[i] == 10u8);
                let k = choose|k: int| 0 <= k < os.len() && os[k] == i + 1;
                if k > first {
                    assert(os[first + 1] <= os[k]);
                }
                assert(r[k] == i + 1);
            } else if i < at + l {
                let k = choose|k: int| 0 <= k < m.len() && m[k] == at + (i - at) + 1;
                assert(r[p.len() + k] == i + 1);
            } else {
                let oi = i - l + removed;
                assert(ob[oi] == 10u8);
                let k = choose|k: int| 0 <= k < os.len() && os[k] == oi + 1;
                if k <= last {
                    assert(os[k] <= os[last]);
                }
                assert(r[p.len() + m.len() + (k - last - 1)] == i + 1);
            }
        }
    }
    lemma_starts_unique(nb, r);
}

/// What a replacement leaves of a body: the bytes before it, and the bytes
/// after it, moved.
proof fn lemma_spliced_bytes(ob: Seq<u8>, at: int, removed: int, ins: Seq<u8>)
    requires
        0 <= at,
        0 <= removed,
        at + removed <= ob.len(),
    ensures
        ({
            let nb = spliced(ob, at, at + removed, ins);
            &&& nb.len() == ob.len() - removed + ins.len()
            &&& forall|i: int| 0 <= i < at ==> nb[i] == ob[i]
            &&& forall|i: int| at <= i < at + ins.len() ==> nb[i] == ins[i - at]
            &&& forall|i: int| at + ins.len() <= i < nb.len() ==> nb[i] == ob[i - ins.len() + removed]
        }),
{
}

/// A line before the one holding `at` draws as it did.
#[verifier::spinoff_prover]
#[verifier::rlimit(40)]
proof fn lemma_width_before(ob: Seq<u8>, at: int, removed: int, ins: Seq<u8>, j: int)
    requires
        0 <= at,
        0 <= removed,
        at + removed <= ob.len(),
        ob.len() <= usize::MAX,
        spliced(ob, at, at + removed, ins).len() <= usize::MAX,
        0 <= j < line_of(line_starts_of(ob), at),
    ensures
        line_width(spliced(ob, at, at + removed, ins), j) == line_width(ob, j),
{
    let nb = spliced(ob, at, at + removed, ins);
    let os = line_starts_of(ob);
    let ns = line_starts_of(nb);
    lemma_respliced_starts(ob, at, removed, ins);
    lemma_spliced_bytes(ob, at, removed, ins);
    lemma_starts_shape(ob, ob.len() as int);
    lemma_line_of(ob, at);
    let first = line_of(os, at);
    assert(os[j + 1] <= os[first]);
    assert(ns[j] == os[j]);
    assert(ns[j + 1] == os[j + 1]);
    let end = os[j + 1] - 1;
    assert(end < at);
    assert(nb.subrange(os[j] as int, end) =~= ob.subrange(os[j] as int, end));
    if end > os[j] {
        assert(nb.subrange(os[j] as int, end - 1) =~= ob.subrange(os[j] as int, end - 1));
    }
    assert(line_chars(nb, j) == line_chars(ob, j));
}

/// A line after the one holding the end of the removed bytes draws as it
/// did, moved by the lines the replacement added or took away.
#[verifier::spinoff_prover]
#[verifier::rlimit(40)]
proof fn lemma_width_after(ob: Seq<u8>, at: int, removed: int, ins: Seq<u8>, j: int)
    requires
        0 <= at,
        0 <= removed,
        at + removed <= ob.len(),
        ob.len() <= usize::MAX,
        spliced(ob, at, at + removed, ins).len() <= usize::MAX,
        line_of(line_starts_of(ob), at + removed) < j < line_starts_of(ob).len(),
    ensures
        line_width(
            spliced(ob, at, at + removed, ins),
            j + line_of(line_starts_of(ob), at) + breaks_upto(ins, at, ins.len() as int).len()
                - line_of(line_starts_of(ob), at + removed),
        ) == line_width(ob, j),
{
    let nb = spliced(ob, at, at + removed, ins);
    let os = line_starts_of(ob);
    let ns = line_starts_of(nb);
    let l = ins.len() as int;
    lemma_respliced_starts(ob, at, removed, ins);
    lemma_spliced_bytes(ob, at, removed, ins);
    lemma_starts_shape(ob, ob.len() as int);
    lemma_line_of(ob, at);
    lemma_line_of(ob, at + removed);
    let first = line_of(os, at);
    let last = line_of(os, at + removed);
    let added = breaks_upto(ins, at, l).len() as int;
    assert(os[last + 1] <= os[j]);
    let jj = j + first + added - last;
    let d = l - removed;
    assert(ns[jj] == os[j] - removed + l);
    let start = os[j] as int;
    let end = if j + 1 < os.len() {
        os[j + 1] - 1
    } else {
        ob.len() as int
    };
    let end2 = if jj + 1 < ns.len() {
        ns[jj + 1] - 1
    } else {
        nb.len() as int
    };
    if j + 1 < os.len() {
        assert(ns[jj + 1] == os[j + 1] - removed + l);
        assert(os[j] < os[j + 1]);
    }
    assert(end2 == end + d);
    assert(start <= end);
    if end > start {
        assert(nb[end2 - 1] == ob[end - 1]);
        assert(nb.subrange(start + d, end + d - 1) =~= ob.subrange(start, end - 1));
    }
    assert(nb.subrange(start + d, end + d) =~= ob.subrange(start, end));
    assert(line_chars(nb, jj) == line_chars(ob, j));
}

/// Taking the first of the entries still counted takes one off its tally.
proof fn lemma_occurrences_front(pre: Seq<usize>, s: Seq<usize>, j: int, x: usize)
    requires
        0 <= j < s.len(),
    ensures
        occurrences(pre + s.subrange(j, s.len() as int), x) == occurrences(
            pre + s.subrange(j + 1, s.len() as int),
            x,
        ) + if s[j] == x {
            1nat
        } else {
            0nat
        },
{
    let one = seq![s[j]];
    assert(one.drop_last() =~= Seq::<usize>::empty());
    assert(occurrences(Seq::<usize>::empty(), x) == 0);
    assert(occurrences(one, x) == if s[j] == x {
        1nat
    } else {
        0nat
    });
    assert(s.subrange(j, s.len() as int) =~= one + s.subrange(j + 1, s.len() as int));
    lemma_occurrences_concat(pre, s.subrange(j, s.len() as int), x);
    lemma_occurrences_concat(one, s.subrange(j + 1, s.len() as int), x);
    lemma_occurrences_concat(pre, s.subrange(j + 1, s.len() as int), x);
}

/// Counting the next entry of a middle run adds one to its tally.
proof fn lemma_occurrences_middle(pre: Seq<usize>, mid: Seq<usize>, post: Seq<usize>, i: int, x: usize)
    requires
        0 <= i < mid.len(),
    ensures
        occurrences(pre + mid.subrange(0, i + 1) + post, x) == occurrences(
            pre + mid.subrange(0, i) + post,
            x,
        ) + if mid[i] == x {
            1nat
        } else {
            0nat
        },
        occurrences(pre + mid.subrange(0, i + 1) + post, x) <= occurrences(pre + mid + post, x),
{
    let one = seq![mid[i]];
    assert(one.drop_last() =~= Seq::<usize>::empty());
    assert(occurrences(Seq::<usize>::empty(), x) == 0);
    assert(occurrences(one, x) == if mid[i] == x {
        1nat
    } else {
        0nat
    });
    assert(mid.subrange(0, i + 1) =~= mid.subrange(0, i) + one);
    lemma_occurrences_concat(pre + mid.subrange(0, i + 1), post, x);
    lemma_occurrences_concat(pre + mid.subrange(0, i), post, x);
    lemma_occurrences_concat(pre, mid.subrange(0, i + 1), x);
    lemma_occurrences_concat(pre, mid.subrange(0, i), x);
    lemma_occurrences_concat(mid.subrange(0, i), one, x);
    assert(mid =~= mid.subrange(0, i + 1) + mid.subrange(i + 1, mid.len() as int));
    lemma_occurrences_concat(mid.subrange(0, i + 1), mid.subrange(i + 1, mid.len() as int), x);
    lemma_occurrences_concat(pre + mid, post, x);
    lemma_occurrences_concat(pre, mid, x);
}

/// Take the widths of lines `first..=last` out of the tally of all of them.
fn untally(counts: &mut BTreeMap<usize, usize>, widths: &Vec<usize>, first: usize, last: usize)
    requires
        first <= last < widths@.len(),
        old(counts)@ == tally(widths@),
    ensures
        final(counts)@ == tally(
            widths@.subrange(0, first as int) + widths@.subrange(last + 1, widths@.len() as int),
        ),
{
    let n = widths.len();
    let ghost ow = widths@;
    let ghost pre = ow.subrange(0, first as int);
    proof {
        assert(pre + ow.subrange(first as int, ow.len() as int) =~= ow);
    }
    let mut j: usize = first;
    while j <= last
        invariant
            first <= j <= last + 1,
            last < n,
            n == ow.len(),
            ow == widths@,
            pre == ow.subrange(0, first as int),
            counts@ == tally(pre + ow.subrange(j as int, ow.len() as int)),
        decreases last + 1 - j,
    {
        let w = widths[j];
        proof {
            let now = pre + ow.subrange(j as int, ow.len() as int);
            assert(now[pre.len() as int] == w);
            lemma_occurrences_bound(now, w);
            lemma_occurrences_front(pre, ow, j as int, w);
        }
        tally_take(counts, w);
        proof {
            assert forall|x: usize| #[trigger]
                occurrences(pre + ow.subrange(j as int, ow.len() as int), x) == occurrences(
                    pre + ow.subrange(j + 1, ow.len() as int),
                    x,
                ) + (if ow[j as int] == x {
                    1nat
                } else {
                    0nat
                }) by {
                lemma_occurrences_front(pre, ow, j as int, x);
            }
            assert(counts@ =~= tally(pre + ow.subrange(j + 1, ow.len() as int)));
        }
        j = j + 1;
    }
    proof {
        assert(ow.subrange(last + 1, ow.len() as int) == ow.subrange(j as int, ow.len() as int));
    }
}

/// Add the widths of the middle run of `widths` to a tally of the rest.
fn retally(
    counts: &mut BTreeMap<usize, usize>,
    widths: &Vec<usize>,
    first: usize,
    end: usize,
    pre: Ghost<Seq<usize>>,
    post: Ghost<Seq<usize>>,
)
    requires
        first <= end <= widths@.len(),
        pre@.len() == first,
        widths@ == pre@ + widths@.subrange(first as int, end as int) + post@,
        old(counts)@ == tally(pre@ + post@),
    ensures
        final(counts)@ == tally(widths@),
{
    let n = widths.len();
    let ghost mid = widths@.subrange(first as int, end as int);
    proof {
        assert(pre@ + mid.subrange(0, 0) + post@ =~= pre@ + post@);
    }
    let mut i: usize = first;
    while i < end
        invariant
            first <= i <= end,
            end <= n,
            n == widths@.len(),
            mid == widths@.subrange(first as int, end as int),
            widths@ == pre@ + mid + post@,
            pre@.len() == first,
            counts@ == tally(pre@ + mid.subrange(0, i - first) + post@),
        decreases end - i,
    {
        let w = widths[i];
        proof {
            assert(mid[i - first] == w);
            lemma_occurrences_middle(pre@, mid, post@, i - first, w);
            lemma_occurrences_bound(pre@ + mid + post@, w);
            lemma_occurrences_bound(pre@ + mid.subrange(0, i - first) + post@, w);
        }
        tally_add(counts, w);
        proof {
            assert forall|x: usize| #[trigger]
                occurrences(pre@ + mid.subrange(0, i - first + 1) + post@, x) == occurrences(
                    pre@ + mid.subrange(0, i - first) + post@,
                    x,
                ) + (if w == x {
                    1nat
                } else {
                    0nat
                }) by {
                lemma_occurrences_middle(pre@, mid, post@, i - first, x);
            }
            assert(counts@ =~= tally(pre@ + mid.subrange(0, i - first + 1) + post@));
        }
        i = i + 1;
    }
    proof {
        assert(mid.subrange(0, mid.len() as int) =~= mid);
    }
}

/// The starts after a replacement, built from the starts before it.
fn respliced(
    starts: &Vec<usize>,
    first: usize,
    last: usize,
    at: usize,
    removed: usize,
    ins: &[u8],
    new_len: usize,
) -> (r: Vec<usize>)
    requires
        first <= last < starts@.len(),
        at + ins@.len() <= new_len,
        forall|k: int|
            last < k < starts@.len() ==> starts@[k] > at + removed && starts@[k] - removed
                + ins@.len() <= new_len,
    ensures
        r@ == starts@.subrange(0, first + 1) + breaks_upto(ins@, at as int, ins@.len() as int)
            + shifted(starts@.subrange(last + 1, starts@.len() as int), removed as int, ins@.len() as int),
{
    let ins_len = ins.len();
    let n = starts.len();
    let mut out: Vec<usize> = Vec::new();
    let mut j: usize = 0;
    while j <= first
        invariant
            first < n,
            n == starts@.len(),
            0 <= j <= first + 1,
            out@ == starts@.subrange(0, j as int),
        decreases first + 1 - j,
    {
        out.push(starts[j]);
        proof {
            assert(out@ =~= starts@.subrange(0, j + 1));
        }
        j = j + 1;
    }
    let mut i: usize = 0;
    while i < ins_len
        invariant
            ins_len == ins@.len(),
            0 <= i <= ins_len,
            at + ins_len <= new_len,
            out@ == starts@.subrange(0, first + 1) + breaks_upto(ins@, at as int, i as int),
        decreases ins_len - i,
    {
        if ins[i] == 10u8 {
            out.push(at + i + 1);
            proof {
                assert(out@ =~= starts@.subrange(0, first + 1) + breaks_upto(ins@, at as int, i + 1));
            }
        }
        i = i + 1;
    }
    let ghost head = out@;
    let mut j: usize = last + 1;
    while j < n
        invariant
            n == starts@.len(),
            last + 1 <= j <= n,
            ins_len == ins@.len(),
            forall|k: int|
                last < k < starts@.len() ==> starts@[k] > at + removed && starts@[k] - removed
                    + ins@.len() <= new_len,
            out@ == head + shifted(starts@.subrange(last + 1, j as int), removed as int, ins_len as int),
        decreases n - j,
    {
        let x = starts[j];
        out.push(x - removed + ins_len);
        proof {
            assert(out@ =~= head + shifted(starts@.subrange(last + 1, j + 1), removed as int, ins_len as int));
        }
        j = j + 1;
    }
    out
}

/// The widths after a replacement: the lines before `first` and after
/// `last` keep theirs, at their new numbers, and the lines between are
/// measured in the new body.
fn rewidth(
    widths: &Vec<usize>,
    first: usize,
    last: usize,
    new_last: usize,
    text: &str,
    starts: &Vec<usize>,
) -> (r: Vec<usize>)
    requires
        first <= last < widths@.len(),
        first <= new_last < starts@.len(),
        starts@ == line_starts_of(utf8(text@)),
        starts@.len() == new_last + 1 + widths@.len() - last - 1,
        forall|k: int| 0 <= k < first ==> widths@[k] == line_width(utf8(text@), k),
        forall|j: int|
            last < j < widths@.len() ==> widths@[j] == line_width(utf8(text@), j + new_last - last),
    ensures
        r@.len() == starts@.len(),
        forall|k: int| 0 <= k < r@.len() ==> r@[k] == line_width(utf8(text@), k),
        r@ == widths@.subrange(0, first as int) + r@.subrange(first as int, new_last + 1)
            + widths@.subrange(last + 1, widths@.len() as int),
{
    let ghost nb = utf8(text@);
    let n = widths.len();
    let ns = starts.len();
    let mut out: Vec<usize> = Vec::new();
    let mut j: usize = 0;
    while j < first
        invariant
            first < n,
            n == widths@.len(),
            0 <= j <= first,
            out@ == widths@.subrange(0, j as int),
            forall|k: int| 0 <= k < first ==> widths@[k] == line_width(nb, k),
        decreases first - j,
    {
        out.push(widths[j]);
        proof {
            assert(out@ =~= widths@.subrange(0, j + 1));
        }
        j = j + 1;
    }
    let ghost pre = out@;
    let mut line: usize = first;
    while line <= new_last
        invariant
            starts@ == line_starts_of(nb),
            nb == utf8(text@),
            new_last < ns,
            ns == starts@.len(),
            first <= line <= new_last + 1,
            out@.len() == line,
            out@.subrange(0, first as int) == pre,
            pre == widths@.subrange(0, first as int),
            forall|k: int| 0 <= k < first ==> widths@[k] == line_width(nb, k),
            forall|k: int| first <= k < line ==> out@[k] == line_width(nb, k),
        decreases new_last + 1 - line,
    {
        let _ = byte_len(text);
        proof {
            crate::preview_edit::lemma_own_starts_readable(nb, line as int);
        }
        let piece = line_text(text, starts.as_slice(), line);
        proof {
            lemma_piece_chars(piece@, utf8(piece@));
        }
        out.push(width(piece));
        proof {
            assert(out@.subrange(0, first as int) =~= pre);
        }
        line = line + 1;
    }
    let ghost upto = out@;
    let mut j: usize = last + 1;
    while j < n
        invariant
            n == widths@.len(),
            last + 1 <= j <= n,
            upto.len() == new_last + 1,
            out@ == upto + widths@.subrange(last + 1, j as int),
        decreases n - j,
    {
        out.push(widths[j]);
        proof {
            assert(out@ =~= upto + widths@.subrange(last + 1, j + 1));
        }
        j = j + 1;
    }
    proof {
        assert forall|k: int| 0 <= k < out@.len() implies out@[k] == line_width(nb, k) by {
            if k < first {
                assert(out@[k] == pre[k]);
            } else if k > new_last {
                let oj = k - new_last + last;
                assert(out@[k] == widths@[oj]);
            }
        }
        assert(upto =~= pre + out@.subrange(first as int, new_last + 1));
        assert(out@ =~= widths@.subrange(0, first as int) + out@.subrange(first as int, new_last + 1)
            + widths@.subrange(last + 1, widths@.len() as int));
    }
    out
}

// ── the index ───────────────────────────────────────────────────────────────

/// Byte positions are maintained from replacements, never rediscovered by an
/// arrow key. Updating positions scans inserted bytes and shifts line entries;
/// width measurement reads only the affected lines.
#[derive(Clone, Debug, Default, PartialEq, Eq)]
pub struct LineIndex {
    pub starts: Vec<usize>,
    widths: Vec<usize>,
    width_counts: BTreeMap<usize, usize>,
}

impl LineIndex {
    /// The width of every line, as the index holds them.
    pub closed spec fn widths_spec(&self) -> Seq<usize> {
        self.widths@
    }

    /// Where every line starts, as the index holds them.
    pub closed spec fn starts_spec(&self) -> Seq<usize> {
        self.starts@
    }

    /// The index agrees with itself: a width for every line, and the tally of
    /// widths counting exactly the widths it holds.
    pub closed spec fn wf(&self) -> bool {
        &&& self.widths@.len() == self.starts@.len()
        &&& self.width_counts@ == tally(self.widths@)
    }

    /// The index is the index of the body `b`: its line starts, and the
    /// width of each of its lines.
    pub open spec fn indexes(&self, b: Seq<u8>) -> bool {
        &&& self.wf()
        &&& self.starts_spec() == line_starts_of(b)
        &&& self.widths_spec() == line_widths(b)
    }

    /// Index a whole body.
    pub fn new(text: &str) -> (index: Self)
        ensures
            index.indexes(utf8(text@)),
    {
        let ghost b = utf8(text@);
        let starts = line_starts(text);
        let mut widths: Vec<usize> = Vec::new();
        let mut line: usize = 0;
        while line < starts.len()
            invariant
                starts@ == line_starts_of(b),
                b == utf8(text@),
                0 <= line <= starts.len(),
                widths@.len() == line,
                forall|j: int| 0 <= j < line ==> widths@[j] == line_width(b, j),
            decreases starts.len() - line,
        {
            let _ = byte_len(text);
            proof {
                crate::preview_edit::lemma_own_starts_readable(b, line as int);
            }
            let piece = line_text(text, starts.as_slice(), line);
            proof {
                lemma_piece_chars(piece@, utf8(piece@));
            }
            widths.push(width(piece));
            line = line + 1;
        }
        let mut width_counts: BTreeMap<usize, usize> = BTreeMap::new();
        let mut k: usize = 0;
        while k < widths.len()
            invariant
                0 <= k <= widths.len(),
                width_counts@ == tally(widths@.subrange(0, k as int)),
            decreases widths.len() - k,
        {
            let w = widths[k];
            proof {
                let before = widths@.subrange(0, k as int);
                let after = widths@.subrange(0, k + 1);
                assert(after.drop_last() =~= before);
                lemma_occurrences_bound(before, w);
                lemma_occurrences_bound(widths@, w);
                lemma_occurrences_concat(after, widths@.subrange(k + 1, widths@.len() as int), w);
                assert(after + widths@.subrange(k + 1, widths@.len() as int) =~= widths@);
            }
            tally_add(&mut width_counts, w);
            proof {
                let before = widths@.subrange(0, k as int);
                let after = widths@.subrange(0, k + 1);
                assert(after.drop_last() =~= before);
                assert forall|x: usize| occurrences(after, x) == occurrences(before, x) + (
                if x == w {
                    1nat
                } else {
                    0nat
                }) by {}
                assert(width_counts@ =~= tally(after));
            }
            k = k + 1;
        }
        proof {
            assert(widths@.subrange(0, widths@.len() as int) =~= widths@);
            assert(widths@ =~= line_widths(b));
        }
        LineIndex { starts, widths, width_counts }
    }

    /// Bring the index level with a replacement: `removed` bytes at `at` gave
    /// way to `inserted`, and `text` is the body after it.
    ///
    /// What it leaves is the index [`LineIndex::new`] would build from
    /// `text`, found by moving the starts after the replacement and measuring
    /// only the lines the replacement touched.
    #[verifier::spinoff_prover]
    #[verifier::rlimit(60)]
    pub fn replace(&mut self, text: &str, at: usize, removed: usize, inserted: &str)
        requires
            exists|b: Seq<u8>|
                old(self).indexes(b) && b.len() <= usize::MAX && at + removed <= b.len() && utf8(text@)
                    == spliced(b, at as int, at + removed, utf8(inserted@)),
        ensures
            final(self).indexes(utf8(text@)),
    {
        let ghost ob = choose|b: Seq<u8>|
            self.indexes(b) && b.len() <= usize::MAX && at + removed <= b.len() && utf8(text@)
                == spliced(b, at as int, at + removed, utf8(inserted@));
        let ghost nb = utf8(text@);
        let ins = bytes_of(inserted);
        let new_len = byte_len(text);
        proof {
            lemma_starts_shape(ob, ob.len() as int);
            lemma_line_of(ob, at as int);
            lemma_line_of(ob, at + removed);
            lemma_respliced_starts(ob, at as int, removed as int, ins@);
            lemma_spliced_bytes(ob, at as int, removed as int, ins@);
        }
        let first = line_index(self.starts.as_slice(), at);
        let last = line_index(self.starts.as_slice(), at + removed);
        proof {
            let os = self.starts@;
            assert(first <= last) by {
                if first > last {
                    assert(os[last + 1] <= os[first as int]);
                }
            }
            assert forall|k: int| last < k < os.len() implies os[k] > at + removed && os[k]
                - removed + ins@.len() <= new_len by {
                assert(os[last + 1] <= os[k]);
            }
        }
        untally(&mut self.width_counts, &self.widths, first, last);
        let starts = respliced(&self.starts, first, last, at, removed, ins, new_len);
        proof {
            assert(starts@ == line_starts_of(nb));
        }
        let new_last = starts.len() - (self.starts.len() - last);
        proof {
            assert forall|k: int| 0 <= k < first implies self.widths@[k] == line_width(nb, k) by {
                lemma_width_before(ob, at as int, removed as int, ins@, k);
            }
            assert forall|j: int| last < j < self.widths@.len() implies self.widths@[j] == line_width(
                nb,
                j + new_last - last,
            ) by {
                lemma_width_after(ob, at as int, removed as int, ins@, j);
            }
        }
        let widths = rewidth(&self.widths, first, last, new_last, text, &starts);
        retally(
            &mut self.width_counts,
            &widths,
            first,
            new_last + 1,
            Ghost(self.widths@.subrange(0, first as int)),
            Ghost(self.widths@.subrange(last + 1, self.widths@.len() as int)),
        );
        proof {
            assert(widths@ =~= line_widths(nb));
        }
        self.starts = starts;
        self.widths = widths;
    }

    /// The widest line's width.
    pub fn max_columns(&self) -> (columns: usize)
        requires
            self.wf(),
        ensures
            columns == greatest(self.widths_spec()),
    {
        proof {
            lemma_greatest(self.widths@);
            let g = greatest(self.widths@);
            if self.widths@.len() > 0 {
                lemma_occurrences_bound(self.widths@, g);
                assert(self.width_counts@.contains_key(g));
            }
        }
        match last_entry(&self.width_counts) {
            Some((columns, _)) => {
                proof {
                    let g = greatest(self.widths@);
                    lemma_occurrences_bound(self.widths@, columns);
                    let i = choose|i: int| 0 <= i < self.widths@.len() && self.widths@[i] == columns;
                    assert(columns <= g);
                    lemma_occurrences_bound(self.widths@, g);
                    assert(self.width_counts@.contains_key(g));
                }
                columns
            },
            None => {
                proof {
                    if self.widths@.len() > 0 {
                        let g = greatest(self.widths@);
                        assert(self.width_counts@.dom().contains(g));
                    }
                }
                0
            },
        }
    }
}

} // verus!

verus! {

/// Every mutation uses this one replacement operation. There is no untracked
/// mutable `String` reference on the keyboard's door.
pub trait EditTarget: core::ops::Deref<Target = str> {
    /// The body, as bytes.
    spec fn body(&self) -> Seq<u8>;

    /// Whether `range` may be replaced: in order, inside the body, at
    /// character boundaries, and whatever else the target asks.
    spec fn takes(&self, range: std::ops::Range<usize>) -> bool;

    /// Replace the bytes of `range` with `inserted`.
    fn replace(&mut self, range: std::ops::Range<usize>, inserted: &str)
        requires
            old(self).takes(range),
        ensures
            final(self).body() == spliced(
                old(self).body(),
                range.start as int,
                range.end as int,
                utf8(inserted@),
            ),
    ;
}

impl EditTarget for String {
    open spec fn body(&self) -> Seq<u8> {
        utf8(self@)
    }

    open spec fn takes(&self, range: std::ops::Range<usize>) -> bool {
        &&& range.start <= range.end <= utf8(self@).len()
        &&& crate::utf8_text::boundary(utf8(self@), range.start as int)
        &&& crate::utf8_text::boundary(utf8(self@), range.end as int)
    }

    fn replace(&mut self, range: std::ops::Range<usize>, inserted: &str) {
        crate::utf8_text::replace_range(self, range.start, range.end, inserted);
    }
}

/// What one replacement records for undo: the smallest span that differs
/// between the removed text and the inserted text, placed at `offset` in the
/// body, with nothing remembered of the caret; or nothing, when the two are
/// the same.
pub open spec fn records(
    change: Option<crate::preview_undo::Change>,
    was: Seq<u8>,
    now: Seq<u8>,
    offset: int,
) -> bool {
    let (head, was_end, now_end) = crate::preview_undo::change_span(was, now);
    match change {
        Some(c) => {
            &&& c.at == offset + head
            &&& utf8(c.removed@) == was.subrange(head, was_end)
            &&& utf8(c.inserted@) == now.subrange(head, now_end)
            &&& c.before == crate::preview_edit::collapsed_caret(0)
            &&& c.after == crate::preview_edit::collapsed_caret(0)
            &&& !(was_end == head && now_end == head)
        },
        None => was == now,
    }
}

/// A body being edited by one keyboard command, and the change the command
/// made to it.
pub struct EditText<'a> {
    text: &'a mut String,
    pub change: Option<crate::preview_undo::Change>,
}

impl<'a> EditText<'a> {
    /// The change the replacement made, once it has made one.
    pub closed spec fn change_spec(&self) -> Option<crate::preview_undo::Change> {
        self.change
    }

    /// The string being edited.
    pub closed spec fn target(&self) -> &'a mut String {
        self.text
    }

    pub fn new(text: &'a mut String) -> (r: Self)
        ensures
            r.change_spec() is None,
            *r.target() == *old(text),
            *final(r.target()) == *final(text),
    {
        EditText { text, change: None }
    }
}

impl<'a> core::ops::Deref for EditText<'a> {
    type Target = str;

    fn deref(&self) -> (r: &str)
        ensures
            r@ == self.target()@,
    {
        self.text.as_str()
    }
}

impl<'a> EditTarget for EditText<'a> {
    open spec fn body(&self) -> Seq<u8> {
        utf8(self.target()@)
    }

    /// One replacement per keyboard command.
    open spec fn takes(&self, range: std::ops::Range<usize>) -> bool {
        &&& self.change_spec() is None
        &&& range.start <= range.end <= utf8(self.target()@).len()
        &&& crate::utf8_text::boundary(utf8(self.target()@), range.start as int)
        &&& crate::utf8_text::boundary(utf8(self.target()@), range.end as int)
    }

    fn replace(&mut self, range: std::ops::Range<usize>, inserted: &str)
        ensures
            records(
                final(self).change_spec(),
                utf8(old(self).target()@).subrange(range.start as int, range.end as int),
                utf8(inserted@),
                range.start as int,
            ),
    {
        let start = range.start;
        let end = range.end;
        let removed = crate::utf8_text::slice(self.text.as_str(), start, end);
        let found = crate::preview_undo::Change::between(
            removed,
            inserted,
            crate::preview_edit::EditCaret::default(),
            crate::preview_edit::EditCaret::default(),
        );
        self.change = match found {
            Some(c) => {
                let mut c = c;
                c.at = c.at + start;
                Some(c)
            },
            None => None,
        };
        crate::utf8_text::replace_range(self.text, start, end, inserted);
    }
}

/// `Arc::make_mut`: the shared string, copied first if anyone else holds it.
///
/// The contract claims what the standard library documents: the reference
/// handed out reads what the `Arc` held, and what is written through it is
/// what the `Arc` holds afterwards.
#[verifier::external_body]
fn arc_make_mut(a: &mut std::sync::Arc<String>) -> (r: &mut String)
    ensures
        *r == **old(a),
        **final(a) == *final(r),
{
    std::sync::Arc::make_mut(a)
}

/// Short-lived read snapshots share storage. The event loop drops its
/// snapshots before the next edit; a retained snapshot still gets normal
/// copy-on-write semantics.
#[derive(Clone, Debug, Default, PartialEq, Eq)]
pub struct Text(std::sync::Arc<String>);

impl Text {
    /// The text.
    pub closed spec fn text_spec(&self) -> String {
        *self.0
    }

    /// The text, to write to: a snapshot still held elsewhere keeps what it
    /// had.
    pub fn make_mut(&mut self) -> (r: &mut String)
        ensures
            *r == old(self).text_spec(),
            final(self).text_spec() == *final(r),
    {
        arc_make_mut(&mut self.0)
    }
}

impl From<String> for Text {
    fn from(text: String) -> (r: Self)
        ensures
            r.text_spec() == text,
    {
        Text(std::sync::Arc::new(text))
    }
}

impl vstd::std_specs::convert::FromSpecImpl<String> for Text {
    open spec fn obeys_from_spec() -> bool {
        true
    }

    closed spec fn from_spec(text: String) -> Self {
        Text(std::sync::Arc::new(text))
    }
}

impl core::ops::Deref for Text {
    type Target = str;

    fn deref(&self) -> (r: &str)
        ensures
            r@ == self.text_spec()@,
    {
        self.0.as_str()
    }
}

} // verus!
