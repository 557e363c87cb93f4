//! A byte on the page, and the byte of the file it was copied from.
//!
//! A rendered page is read in pieces, addressed by [`Place`]; the file is
//! bytes. [`TextOrigin`] stands between them: one drawn string, and for each of
//! its bytes either the source byte it is a copy of ([`Origin::File`]) or the
//! statement that the page draws it and the source does not spell it
//! ([`Origin::Drawn`]). [`file_offset_of`] takes a place to a file byte and
//! [`place_of`] takes a file byte to a place.
//!
//! Which way a caret rounds:
//!
//! * A place at a drawn copy answers with the byte it was copied from; one at
//!   a synthesised byte, or at the very end of a piece, answers one past the
//!   last copy before it — so a caret just after a bold word lands after the
//!   closing `**` — and failing that the first copy after it.
//! * A file byte the page draws answers with the place it is drawn at. An
//!   undrawn one answers with the nearest drawn position inside its block: one
//!   past the last drawn byte before it, or else the first drawn byte after
//!   it. A byte between two blocks answers with the start of the next block
//!   that has words.
use std::ops::Range;
use vstd::prelude::*;
use crate::markdown::MarkdownBlock;
use crate::preview_select::Place;

verus! {

/// Where one byte of drawn text came from.
#[derive(Clone, Copy, Debug, PartialEq, Eq, Structural)]
pub enum Origin {
    /// A byte-for-byte copy of this byte of the source.
    File(usize),
    /// The page draws it and the source does not spell it.
    Drawn,
}

/// One run of drawn bytes with one answer between them: `len` bytes from
/// `start` in the drawn text, copied from `source` on (or drawn).
#[derive(Clone, Copy, Debug, PartialEq, Eq, Structural)]
struct OriginRun {
    start: usize,
    len: usize,
    source: Option<usize>,
}

/// The origins of one run's bytes.
spec fn run_bytes(r: OriginRun) -> Seq<Origin> {
    Seq::new(
        r.len as nat,
        |j: int|
            match r.source {
                Some(s) => Origin::File((s + j) as usize),
                None => Origin::Drawn,
            },
    )
}

/// The origins of every byte of a list of runs, in order.
spec fn runs_bytes(runs: Seq<OriginRun>) -> Seq<Origin>
    decreases runs.len(),
{
    if runs.len() == 0 {
        Seq::empty()
    } else {
        runs_bytes(runs.drop_last()) + run_bytes(runs.last())
    }
}

/// Runs that tile their text: each non-empty, each beginning where the one
/// before it ended, the first at zero and the last at `len`; and no source
/// position past the largest offset.
spec fn runs_wf(runs: Seq<OriginRun>, len: int) -> bool {
    &&& forall|k: int| 0 <= k < runs.len() ==> #[trigger] runs[k].len > 0
    &&& forall|k: int| 0 <= k < runs.len() ==> runs[k].start + runs[k].len <= usize::MAX
    &&& forall|k: int|
        0 <= k < runs.len() ==> (#[trigger] runs[k].source matches Some(s) ==> s + runs[k].len
            <= usize::MAX)
    &&& forall|k: int| 0 < k < runs.len() ==> #[trigger] runs[k].start == runs[k - 1].start + runs[k - 1].len
    &&& runs.len() > 0 ==> runs[0].start == 0
    &&& runs.len() == 0 ==> len == 0
    &&& runs.len() > 0 ==> runs.last().start + runs.last().len == len
}

/// Whether run `b`, drawn straight after run `a`, continues it in both
/// spaces: both copies with `b` starting where `a`'s source ends, or both
/// drawn.
spec fn continues(a: OriginRun, b: OriginRun) -> bool {
    match (a.source, b.source) {
        (Some(x), Some(y)) => x + a.len == y,
        (None, None) => true,
        _ => false,
    }
}

/// Runs in their one canonical form: no run continues the one before it, so
/// contiguous copies are always one run.
spec fn runs_canonical(runs: Seq<OriginRun>) -> bool {
    forall|k: int| 0 < k < runs.len() ==> !continues(runs[k - 1], #[trigger] runs[k])
}

/// The runs a byte sequence is in canonical form: each byte joins the last
/// run when it continues it, and opens a run of its own otherwise.
spec fn canon(v: Seq<Origin>) -> Seq<OriginRun>
    decreases v.len(),
{
    if v.len() == 0 {
        Seq::empty()
    } else {
        grown_by(canon(v.drop_last()), v.len() - 1, v.last())
    }
}

/// The runs after one more byte, at `at`.
spec fn grown_by(runs: Seq<OriginRun>, at: int, o: Origin) -> Seq<OriginRun> {
    let run = OriginRun {
        start: at as usize,
        len: 1,
        source: match o {
            Origin::File(s) => Some(s),
            Origin::Drawn => None,
        },
    };
    if runs.len() > 0 && continues(runs.last(), run) {
        runs.update(
            runs.len() - 1,
            OriginRun { start: runs.last().start, len: (runs.last().len + 1) as usize, source: runs.last().source },
        )
    } else {
        runs.push(run)
    }
}

/// Where each byte of one drawn string came from.
#[derive(Clone, Debug, Default, PartialEq, Eq)]
pub struct TextOrigin {
    runs: Vec<OriginRun>,
    len: usize,
}

impl View for TextOrigin {
    type V = Seq<Origin>;

    closed spec fn view(&self) -> Seq<Origin> {
        runs_bytes(self.runs@)
    }
}

proof fn lemma_runs_bytes_len(runs: Seq<OriginRun>, len: int)
    requires
        runs_wf(runs, len),
    ensures
        runs_bytes(runs).len() == len,
    decreases runs.len(),
{
    if runs.len() > 0 {
        let init = runs.drop_last();
        if init.len() > 0 {
            assert(runs[runs.len() - 1].start == runs[runs.len() - 2].start + runs[runs.len() - 2].len);
            assert(init.last() == runs[runs.len() - 2]);
        }
        lemma_runs_bytes_len(init, runs.last().start as int);
    }
}

/// Byte `j` of run `k` is byte `start + j` of the whole.
proof fn lemma_runs_bytes_index(runs: Seq<OriginRun>, len: int, k: int, j: int)
    requires
        runs_wf(runs, len),
        0 <= k < runs.len(),
        0 <= j < runs[k].len,
    ensures
        runs[k].start + j < len,
        runs_bytes(runs)[runs[k].start + j] == run_bytes(runs[k])[j],
    decreases runs.len(),
{
    let init = runs.drop_last();
    let n = runs.len();
    if n > 1 {
        assert(runs[n - 1].start == runs[n - 2].start + runs[n - 2].len);
        assert(init.last() == runs[n - 2]);
    }
    lemma_runs_bytes_len(init, runs.last().start as int);
    if k < n - 1 {
        lemma_runs_bytes_index(init, runs.last().start as int, k, j);
        assert(init[k] == runs[k]);
    }
}

proof fn lemma_push_run(runs: Seq<OriginRun>, len: int, run: OriginRun)
    requires
        runs_wf(runs, len),
        run.start == len,
        run.len > 0,
        run.start + run.len <= usize::MAX,
        run.source matches Some(s) ==> s + run.len <= usize::MAX,
    ensures
        runs_wf(runs.push(run), len + run.len),
        runs_bytes(runs.push(run)) == runs_bytes(runs) + run_bytes(run),
{
    let r = runs.push(run);
    assert(r.drop_last() =~= runs);
    assert forall|k: int| 0 < k < r.len() implies #[trigger] r[k].start == r[k - 1].start + r[k - 1].len by {
        if k < r.len() - 1 {
            assert(runs[k].start == runs[k - 1].start + runs[k - 1].len);
        }
    }
    assert forall|k: int| 0 <= k < r.len() implies (#[trigger] r[k].source matches Some(s) ==> s + r[k].len
        <= usize::MAX) by {
        if k < r.len() - 1 {
            assert(runs[k] == r[k]);
        }
    }
}

proof fn lemma_grow_last(runs: Seq<OriginRun>, len: int, grown: OriginRun)
    requires
        runs_wf(runs, len),
        runs.len() > 0,
        grown.start == runs.last().start,
        grown.len >= runs.last().len,
        grown.source == runs.last().source,
        grown.start + grown.len <= usize::MAX,
        grown.source matches Some(s) ==> s + grown.len <= usize::MAX,
    ensures
        runs_wf(runs.update(runs.len() - 1, grown), len + (grown.len - runs.last().len)),
        runs_bytes(runs.update(runs.len() - 1, grown)) == runs_bytes(runs.drop_last()) + run_bytes(grown),
{
    let n = runs.len();
    let r = runs.update(n - 1, grown);
    assert(r.drop_last() =~= runs.drop_last());
    assert forall|k: int| 0 < k < r.len() implies #[trigger] r[k].start == r[k - 1].start + r[k - 1].len by {
        assert(runs[k].start == runs[k - 1].start + runs[k - 1].len);
    }
    assert forall|k: int| 0 <= k < r.len() implies (#[trigger] r[k].source matches Some(s) ==> s + r[k].len
        <= usize::MAX) by {
        if k < n - 1 {
            assert(runs[k] == r[k]);
        }
    }
}

/// The first index from `i` on that holds `target`.
pub open spec fn first_at(v: Seq<Origin>, target: Origin, i: int) -> Option<int>
    decreases v.len() - i,
{
    if i < 0 || i >= v.len() {
        None
    } else if v[i] == target {
        Some(i)
    } else {
        first_at(v, target, i + 1)
    }
}

proof fn lemma_first_at(v: Seq<Origin>, target: Origin, i: int, p: int)
    requires
        0 <= i <= p <= v.len(),
        forall|j: int| i <= j < p ==> v[j] != target,
        p < v.len() ==> v[p] == target,
    ensures
        first_at(v, target, i) == (if p < v.len() {
            Some(p)
        } else {
            None::<int>
        }),
    decreases p - i,
{
    if i < p {
        lemma_first_at(v, target, i + 1, p);
    }
}

/// A prefix of tiling runs tiles the text up to where the next run starts.
proof fn lemma_prefix_wf(runs: Seq<OriginRun>, len: int, k: int)
    requires
        runs_wf(runs, len),
        0 <= k <= runs.len(),
    ensures
        runs_wf(runs.take(k), if k < runs.len() { runs[k].start as int } else { len }),
        runs_bytes(runs.take(k)).len() == (if k < runs.len() { runs[k].start as int } else { len }),
{
    let t = runs.take(k);
    if k > 0 && k < runs.len() {
        assert(runs[k].start == runs[k - 1].start + runs[k - 1].len);
    }
    assert forall|m: int| 0 < m < t.len() implies #[trigger] t[m].start == t[m - 1].start + t[m - 1].len by {
        assert(runs[m].start == runs[m - 1].start + runs[m - 1].len);
    }
    if k == runs.len() {
        assert(t =~= runs);
    }
    lemma_runs_bytes_len(t, if k < runs.len() { runs[k].start as int } else { len });
}

proof fn lemma_append_step(runs: Seq<OriginRun>, len: int, k: int)
    requires
        runs_wf(runs, len),
        0 <= k < runs.len(),
    ensures
        runs_bytes(runs.take(k + 1)) == runs_bytes(runs.take(k)) + run_bytes(runs[k]),
        runs_bytes(runs.take(k)).len() == runs[k].start,
        runs[k].start + runs[k].len <= len,
        runs[k].len > 0,
        runs[k].source matches Some(s) ==> s + runs[k].len <= usize::MAX,
{
    lemma_take_step(runs, k);
    lemma_prefix_wf(runs, len, k);
    lemma_runs_bytes_index(runs, len, k, runs[k].len - 1);
}

proof fn lemma_take_step(runs: Seq<OriginRun>, k: int)
    requires
        0 <= k < runs.len(),
    ensures
        runs_bytes(runs.take(k + 1)) == runs_bytes(runs.take(k)) + run_bytes(runs[k]),
{
    assert(runs.take(k + 1).drop_last() =~= runs.take(k));
    assert(runs.take(k + 1).last() == runs[k]);
}

/// Every offset of the text lies in some run.
proof fn lemma_cover(runs: Seq<OriginRun>, len: int, offset: int) -> (k: int)
    requires
        runs_wf(runs, len),
        0 <= offset < len,
    ensures
        0 <= k < runs.len(),
        runs[k].start <= offset < runs[k].start + runs[k].len,
    decreases runs.len(),
{
    let n = runs.len();
    if offset >= runs[n - 1].start {
        n - 1
    } else {
        let init = runs.drop_last();
        if n > 1 {
            assert(runs[n - 1].start == runs[n - 2].start + runs[n - 2].len);
            assert(init.last() == runs[n - 2]);
        }
        let k = lemma_cover(init, runs[n - 1].start as int, offset);
        assert(init[k] == runs[k]);
        k
    }
}

/// Runs in canonical form are the canonical runs of the bytes they describe.
#[verifier::spinoff_prover]
#[verifier::rlimit(40)]
proof fn lemma_canon(runs: Seq<OriginRun>, len: int)
    requires
        runs_wf(runs, len),
        runs_canonical(runs),
    ensures
        runs == canon(runs_bytes(runs)),
    decreases len,
{
    lemma_runs_bytes_len(runs, len);
    let v = runs_bytes(runs);
    if runs.len() == 0 {
        assert(v.len() == 0);
    } else {
        let n = runs.len();
        let last = runs.last();
        let init = runs.drop_last();
        if n > 1 {
            assert(runs[n - 1].start == runs[n - 2].start + runs[n - 2].len);
            assert(init.last() == runs[n - 2]);
        }
        assert(runs[n - 1].len > 0);
        assert(last.source matches Some(x) ==> x + last.len <= usize::MAX);
        assert(v == runs_bytes(init) + run_bytes(last));
        lemma_runs_bytes_len(init, last.start as int);
        let byte = run_bytes(last)[last.len - 1];
        assert(v.last() == byte);
        if last.len > 1 {
            let shrunk = OriginRun { start: last.start, len: (last.len - 1) as usize, source: last.source };
            let r2 = runs.update(n - 1, shrunk);
            assert(r2.drop_last() =~= init);
            assert(runs_wf(r2, len - 1)) by {
                assert forall|k: int| 0 < k < r2.len() implies #[trigger] r2[k].start == r2[k - 1].start
                    + r2[k - 1].len by {
                    assert(runs[k].start == runs[k - 1].start + runs[k - 1].len);
                }
                assert forall|k: int| 0 <= k < r2.len() implies #[trigger] r2[k].len > 0 by {
                    assert(runs[k].len > 0);
                }
                assert forall|k: int| 0 <= k < r2.len() implies (#[trigger] r2[k].source matches Some(x)
                    ==> x + r2[k].len <= usize::MAX) by {
                    if k < n - 1 {
                        assert(runs[k] == r2[k]);
                    }
                }
            }
            assert(runs_canonical(r2)) by {
                assert forall|k: int| 0 < k < r2.len() implies !continues(r2[k - 1], #[trigger] r2[k]) by {
                    assert(!continues(runs[k - 1], runs[k]));
                }
            }
            assert(run_bytes(last) =~= run_bytes(shrunk).push(byte));
            assert(runs_bytes(r2) == runs_bytes(init) + run_bytes(shrunk));
            assert(v.drop_last() =~= runs_bytes(r2));
            lemma_canon(r2, len - 1);
            lemma_runs_bytes_len(r2, len - 1);
            assert(r2.last() == shrunk);
            assert(grown_by(r2, len - 1, byte) =~= runs);
        } else {
            assert(runs_wf(init, last.start as int)) by {
                assert forall|k: int| 0 < k < init.len() implies #[trigger] init[k].start == init[k - 1].start
                    + init[k - 1].len by {
                    assert(runs[k].start == runs[k - 1].start + runs[k - 1].len);
                }
            }
            assert(runs_canonical(init)) by {
                assert forall|k: int| 0 < k < init.len() implies !continues(init[k - 1], #[trigger] init[k]) by {
                    assert(!continues(runs[k - 1], runs[k]));
                }
            }
            assert(run_bytes(last) =~= seq![byte]);
            assert(v.drop_last() =~= runs_bytes(init));
            lemma_canon(init, last.start as int);
            if n > 1 {
                assert(!continues(runs[n - 2], runs[n - 1]));
            }
            assert(grown_by(init, len - 1, byte) =~= runs);
        }
    }
}

/// A record is determined by the bytes it describes: two well-formed records
/// of the same bytes keep the same runs — so copies contiguous in both the
/// drawn text and the source are always one run, however they were added.
pub proof fn law_a_record_is_its_bytes(a: TextOrigin, b: TextOrigin)
    requires
        a.wf(),
        b.wf(),
        a@ == b@,
    ensures
        a.parts() == b.parts(),
        a.len_spec() == b.len_spec(),
{
    lemma_canon(a.runs@, a.len as int);
    lemma_canon(b.runs@, b.len as int);
    lemma_runs_bytes_len(a.runs@, a.len as int);
    lemma_runs_bytes_len(b.runs@, b.len as int);
}

impl TextOrigin {
    /// Runs that tile the text, in canonical form.
    pub closed spec fn wf(&self) -> bool {
        runs_wf(self.runs@, self.len as int) && runs_canonical(self.runs@)
    }

    /// The runs the record keeps: for each, where it starts in the drawn
    /// text, how long it is, and the source byte it is copied from on (or
    /// nothing, for drawn bytes).
    pub closed spec fn parts(&self) -> Seq<(usize, usize, Option<usize>)> {
        self.runs@.map_values(|r: OriginRun| (r.start, r.len, r.source))
    }

    /// How many bytes of drawn text this describes.
    pub closed spec fn len_spec(&self) -> int {
        self.len as int
    }

    proof fn lemma_view_len(&self)
        requires
            self.wf(),
        ensures
            self@.len() == self.len_spec(),
    {
        lemma_runs_bytes_len(self.runs@, self.len as int);
    }

    /// A description of nothing.
    pub fn new() -> (o: Self)
        ensures
            o.wf(),
            o@ == Seq::<Origin>::empty(),
    {
        TextOrigin { runs: Vec::new(), len: 0 }
    }

    /// How many bytes of drawn text this describes.
    pub fn len(&self) -> (n: usize)
        requires
            self.wf(),
        ensures
            n == self@.len(),
    {
        proof {
            self.lemma_view_len();
        }
        self.len
    }

    /// Whether it describes no bytes at all.
    pub fn is_empty(&self) -> (r: bool)
        requires
            self.wf(),
        ensures
            r == (self@.len() == 0),
    {
        proof {
            self.lemma_view_len();
        }
        self.len == 0
    }

    /// Push a run onto the end, or lengthen the last one when the new bytes
    /// continue it in both spaces.
    #[verifier::spinoff_prover]
    #[verifier::rlimit(40)]
    fn extend(&mut self, source: Option<usize>, len: usize)
        requires
            old(self).wf(),
            len > 0,
            old(self).len + len <= usize::MAX,
            source matches Some(s) ==> s + len <= usize::MAX,
        ensures
            final(self).wf(),
            final(self)@ == old(self)@ + run_bytes(OriginRun { start: 0, len, source }),
    {
        let ghost new_bytes = run_bytes(OriginRun { start: 0, len, source });
        let ghost old_runs = self.runs@;
        let n = self.runs.len();
        if n > 0 {
            let last = self.runs[n - 1];
            let joins = match (last.source, source) {
                (Some(start), Some(s)) => start.checked_add(last.len) == Some(s),
                (None, None) => true,
                _ => false,
            };
            if joins {
                proof {
                    assert(old_runs.last() == last);
                    assert(last.start + last.len == self.len);
                }
                let grown = OriginRun { start: last.start, len: last.len + len, source: last.source };
                proof {
                    lemma_grow_last(old_runs, self.len as int, grown);
                    assert(run_bytes(grown) =~= run_bytes(last) + new_bytes);
                    assert(runs_bytes(old_runs) == runs_bytes(old_runs.drop_last()) + run_bytes(last));
                }
                self.runs.set(n - 1, grown);
                self.len = self.len + len;
                return;
            }
        }
        let run = OriginRun { start: self.len, len, source };
        proof {
            lemma_push_run(old_runs, self.len as int, run);
            assert(run_bytes(run) =~= new_bytes);
        }
        self.runs.push(run);
        self.len = self.len + len;
    }

    /// `len` more bytes, copied from `source` onwards.
    ///
    /// Joined to the run before it when the two are contiguous in both spaces,
    /// so a walk depositing a character at a time still leaves one run.
    pub fn copied(&mut self, source: usize, len: usize)
        requires
            old(self).wf(),
            old(self)@.len() + len <= usize::MAX,
            source + len <= usize::MAX,
        ensures
            final(self).wf(),
            final(self)@ == old(self)@ + Seq::new(len as nat, |j: int| Origin::File((source + j) as usize)),
            len == 0 ==> *final(self) == *old(self),
    {
        proof {
            self.lemma_view_len();
        }
        if len == 0 {
            assert(self@ =~= self@ + Seq::new(len as nat, |j: int| Origin::File((source + j) as usize)));
            return;
        }
        self.extend(Some(source), len);
        assert(run_bytes(OriginRun { start: 0, len, source: Some(source) }) =~= Seq::new(
            len as nat,
            |j: int| Origin::File((source + j) as usize),
        ));
    }

    /// `len` more bytes the page draws that the source does not spell.
    pub fn drawn(&mut self, len: usize)
        requires
            old(self).wf(),
            old(self)@.len() + len <= usize::MAX,
        ensures
            final(self).wf(),
            final(self)@ == old(self)@ + Seq::new(len as nat, |j: int| Origin::Drawn),
            len == 0 ==> *final(self) == *old(self),
    {
        proof {
            self.lemma_view_len();
        }
        if len == 0 {
            assert(self@ =~= self@ + Seq::new(len as nat, |j: int| Origin::Drawn));
            return;
        }
        self.extend(None, len);
        assert(run_bytes(OriginRun { start: 0, len, source: None }) =~= Seq::new(
            len as nat,
            |j: int| Origin::Drawn,
        ));
    }

    /// One string that is a copy of `len` bytes of the source from `source` on.
    pub fn slice(source: usize, len: usize) -> (o: Self)
        requires
            source + len <= usize::MAX,
        ensures
            o.wf(),
            o@ == Seq::new(len as nat, |j: int| Origin::File((source + j) as usize)),
    {
        let mut o = Self::new();
        o.copied(source, len);
        assert(o@ =~= Seq::new(len as nat, |j: int| Origin::File((source + j) as usize)));
        o
    }
}

impl TextOrigin {
    /// Everything `other` describes, drawn after everything this describes.
    pub fn append(&mut self, other: &Self)
        requires
            old(self).wf(),
            other.wf(),
            old(self)@.len() + other@.len() <= usize::MAX,
        ensures
            final(self).wf(),
            final(self)@ == old(self)@ + other@,
    {
        proof {
            self.lemma_view_len();
            other.lemma_view_len();
        }
        let mut k: usize = 0;
        proof {
            lemma_prefix_wf(other.runs@, other.len as int, 0);
            assert(self@ =~= old(self)@ + runs_bytes(other.runs@.take(0)));
        }
        while k < other.runs.len()
            invariant
                0 <= k <= other.runs@.len(),
                other.wf(),
                self.wf(),
                old(self)@.len() + other@.len() <= usize::MAX,
                other@.len() == other.len,
                self@ == old(self)@ + runs_bytes(other.runs@.take(k as int)),
            decreases other.runs@.len() - k,
        {
            let run = other.runs[k];
            proof {
                lemma_append_step(other.runs@, other.len as int, k as int);
                self.lemma_view_len();
            }
            match run.source {
                Some(source) => {
                    self.copied(source, run.len);
                    assert(run_bytes(run) =~= Seq::new(run.len as nat, |j: int| Origin::File((source + j) as usize)));
                },
                None => {
                    self.drawn(run.len);
                    assert(run_bytes(run) =~= Seq::new(run.len as nat, |j: int| Origin::Drawn));
                },
            }
            k = k + 1;
        }
        proof {
            assert(other.runs@.take(k as int) =~= other.runs@);
        }
    }

    /// The run an offset of the text stands in.
    fn run_at(&self, offset: usize) -> (k: Option<usize>)
        requires
            self.wf(),
        ensures
            match k {
                Some(k) => k < self.runs@.len() && self.runs@[k as int].start <= offset < self.runs@[k as int].start
                    + self.runs@[k as int].len,
                None => offset >= self@.len(),
            },
    {
        let mut k: usize = 0;
        while k < self.runs.len()
            invariant
                self.wf(),
                0 <= k <= self.runs@.len(),
                forall|m: int| 0 <= m < k ==> !(#[trigger] self.runs@[m].start <= offset < self.runs@[m].start + self.runs@[m].len),
            decreases self.runs@.len() - k,
        {
            let run = self.runs[k];
            if run.start <= offset && offset < run.start + run.len {
                return Some(k);
            }
            k = k + 1;
        }
        proof {
            self.lemma_view_len();
            if offset < self.len {
                let m = lemma_cover(self.runs@, self.len as int, offset as int);
            }
        }
        None
    }

    /// Where the byte at `offset` came from, or `None` past the end.
    pub fn origin_of(&self, offset: usize) -> (r: Option<Origin>)
        requires
            self.wf(),
        ensures
            r == (if offset < self@.len() {
                Some(self@[offset as int])
            } else {
                None
            }),
    {
        proof {
            self.lemma_view_len();
        }
        match self.run_at(offset) {
            None => None,
            Some(k) => {
                let run = self.runs[k];
                proof {
                    lemma_runs_bytes_index(self.runs@, self.len as int, k as int, offset - run.start);
                }
                Some(
                    match run.source {
                        Some(source) => Origin::File(source + (offset - run.start)),
                        None => Origin::Drawn,
                    },
                )
            },
        }
    }

    /// Where the source byte `source` is drawn — its first drawn copy — or
    /// `None` if it is not drawn.
    #[verifier::spinoff_prover]
    #[verifier::rlimit(40)]
    pub fn text_of(&self, source: usize) -> (r: Option<usize>)
        requires
            self.wf(),
        ensures
            match r {
                Some(i) => first_at(self@, Origin::File(source), 0) == Some(i as int),
                None => first_at(self@, Origin::File(source), 0).is_none(),
            },
    {
        proof {
            self.lemma_view_len();
        }
        let ghost v = self@;
        let mut k: usize = 0;
        while k < self.runs.len()
            invariant
                self.wf(),
                v == self@,
                v.len() == self.len,
                0 <= k <= self.runs@.len(),
                forall|j: int|
                    0 <= j < (if k < self.runs@.len() { self.runs@[k as int].start as int } else { self.len as int })
                        ==> v[j] != Origin::File(source),
            decreases self.runs@.len() - k,
        {
            let run = self.runs[k];
            proof {
                if k + 1 < self.runs@.len() {
                    assert(self.runs@[k + 1].start == run.start + run.len);
                } else {
                    assert(self.runs@.last() == run);
                }
            }
            if let Some(start) = run.source {
                if source >= start && source < start + run.len {
                    let at = run.start + (source - start);
                    proof {
                        assert forall|j: int| 0 <= j < at implies v[j] != Origin::File(source) by {
                            if j >= run.start {
                                lemma_runs_bytes_index(self.runs@, self.len as int, k as int, j - run.start);
                            }
                        }
                        lemma_runs_bytes_index(self.runs@, self.len as int, k as int, (source - start) as int);
                        lemma_first_at(v, Origin::File(source), 0, at as int);
                    }
                    return Some(at);
                }
            }
            proof {
                assert forall|j: int| run.start <= j < run.start + run.len implies v[j] != Origin::File(source) by {
                    lemma_runs_bytes_index(self.runs@, self.len as int, k as int, j - run.start);
                }
            }
            k = k + 1;
        }
        proof {
            lemma_first_at(v, Origin::File(source), 0, v.len() as int);
        }
        None
    }
}

/// One byte's origin read through an outer map: a copy of a byte the outer
/// map describes takes that byte's answer; anything else is drawn.
pub open spec fn through_one(o: Origin, outer: Seq<Origin>) -> Origin {
    match o {
        Origin::Drawn => Origin::Drawn,
        Origin::File(s) => if s < outer.len() {
            outer[s as int]
        } else {
            Origin::Drawn
        },
    }
}

/// A map read through another: what the inner map copies from the outer
/// string, the outer map takes on to the file.
pub open spec fn composed(inner: Seq<Origin>, outer: Seq<Origin>) -> Seq<Origin> {
    Seq::new(inner.len(), |i: int| through_one(inner[i], outer))
}

impl TextOrigin {
    /// This text's bytes in the space the string it was cut from is written in:
    /// `self` maps a drawn string to the text of `outer`, `outer` maps that text
    /// to the file, and the answer maps the drawn string to the file.
    ///
    /// A copied run is split wherever `outer` changes its answer, so a bold
    /// phrase running across a line join comes out as two copies with a drawn
    /// space between them.
    #[verifier::spinoff_prover]
    #[verifier::rlimit(80)]
    pub fn through(&self, outer: &Self) -> (out: Self)
        requires
            self.wf(),
            outer.wf(),
        ensures
            out.wf(),
            out@ == composed(self@, outer@),
    {
        proof {
            self.lemma_view_len();
            outer.lemma_view_len();
        }
        let ghost want = composed(self@, outer@);
        let mut out = Self::new();
        let mut k: usize = 0;
        proof {
            assert(out@ =~= want.take(0));
        }
        while k < self.runs.len()
            invariant
                self.wf(),
                outer.wf(),
                self@.len() == self.len,
                outer@.len() == outer.len,
                want == composed(self@, outer@),
                out.wf(),
                0 <= k <= self.runs@.len(),
                out@ == want.take(if k < self.runs@.len() { self.runs@[k as int].start as int } else { self.len as int }),
            decreases self.runs@.len() - k,
        {
            let run = self.runs[k];
            proof {
                lemma_append_step(self.runs@, self.len as int, k as int);
                if k + 1 < self.runs@.len() {
                    assert(self.runs@[k + 1].start == run.start + run.len);
                } else {
                    assert(self.runs@.last() == run);
                }
            }
            match run.source {
                None => {
                    proof {
                        out.lemma_view_len();
                    }
                    out.drawn(run.len);
                    proof {
                        assert forall|i: int| run.start <= i < run.start + run.len implies #[trigger] want[i] == Origin::Drawn by {
                            lemma_runs_bytes_index(self.runs@, self.len as int, k as int, i - run.start);
                        }
                        assert(out@ =~= want.take(run.start + run.len));
                    }
                },
                Some(start) => {
                    let mut taken: usize = 0;
                    while taken < run.len
                        invariant
                            self.wf(),
                            outer.wf(),
                            self@.len() == self.len,
                            outer@.len() == outer.len,
                            want == composed(self@, outer@),
                            out.wf(),
                            k < self.runs@.len(),
                            run == self.runs@[k as int],
                            run.source == Some(start),
                            start + run.len <= usize::MAX,
                            run.start + run.len <= self.len,
                            0 <= taken <= run.len,
                            out@ == want.take(run.start + taken),
                        decreases run.len - taken,
                    {
                        let at = start + taken;
                        proof {
                            out.lemma_view_len();
                            assert forall|i: int| run.start + taken <= i < run.start + run.len implies #[trigger] self@[i]
                                == Origin::File((at + (i - run.start - taken)) as usize) by {
                                lemma_runs_bytes_index(self.runs@, self.len as int, k as int, i - run.start);
                            }
                        }
                        match outer.run_at(at) {
                            None => {
                                let rest = run.len - taken;
                                out.drawn(rest);
                                proof {
                                    assert forall|i: int| run.start + taken <= i < run.start + run.len implies #[trigger] want[i] == Origin::Drawn by {
                                        assert(self@[i] == Origin::File((at + (i - run.start - taken)) as usize));
                                    }
                                    assert(out@ =~= want.take(run.start + run.len));
                                }
                                taken = run.len;
                            },
                            Some(m) => {
                                let orun = outer.runs[m];
                                let room = orun.start + orun.len - at;
                                let take = if room < run.len - taken {
                                    room
                                } else {
                                    run.len - taken
                                };
                                proof {
                                    lemma_append_step(outer.runs@, outer.len as int, m as int);
                                }
                                match orun.source {
                                    Some(osrc) => {
                                        let from = osrc + (at - orun.start);
                                        out.copied(from, take);
                                        proof {
                                            assert forall|i: int| run.start + taken <= i < run.start + taken + take implies #[trigger] want[i]
                                                == Origin::File((from + (i - run.start - taken)) as usize) by {
                                                let d = i - run.start - taken;
                                                assert(self@[i] == Origin::File((at + d) as usize));
                                                lemma_runs_bytes_index(outer.runs@, outer.len as int, m as int, at - orun.start + d);
                                            }
                                            assert(out@ =~= want.take(run.start + taken + take));
                                        }
                                    },
                                    None => {
                                        out.drawn(take);
                                        proof {
                                            assert forall|i: int| run.start + taken <= i < run.start + taken + take implies #[trigger] want[i]
                                                == Origin::Drawn by {
                                                let d = i - run.start - taken;
                                                assert(self@[i] == Origin::File((at + d) as usize));
                                                lemma_runs_bytes_index(outer.runs@, outer.len as int, m as int, at - orun.start + d);
                                            }
                                            assert(out@ =~= want.take(run.start + taken + take));
                                        }
                                    },
                                }
                                taken = taken + take;
                            },
                        }
                    }
                },
            }
            k = k + 1;
        }
        proof {
            assert(want.take(self.len as int) =~= want);
        }
        out
    }
}

/// The last index before `i` that holds a copy.
pub open spec fn last_copy_before(v: Seq<Origin>, i: int) -> Option<int>
    decreases i,
{
    if i <= 0 || i > v.len() {
        None
    } else if v[i - 1] is File {
        Some(i - 1)
    } else {
        last_copy_before(v, i - 1)
    }
}

/// The first index from `i` on that holds a copy.
pub open spec fn first_copy_from(v: Seq<Origin>, i: int) -> Option<int>
    decreases v.len() - i,
{
    if i < 0 || i >= v.len() {
        None
    } else if v[i] is File {
        Some(i)
    } else {
        first_copy_from(v, i + 1)
    }
}

/// The file byte a place in a drawn text resolves to: the byte it stands on
/// when that is a copy; else one past the last copy before it; else the first
/// copy after it. `offset` may be the text's length.
pub open spec fn file_offset_at_spec(v: Seq<Origin>, offset: int) -> Option<int> {
    if offset < 0 || offset > v.len() {
        None
    } else if offset < v.len() && v[offset] is File {
        Some(v[offset]->File_0 as int)
    } else {
        match last_copy_before(v, offset) {
            Some(j) => Some(v[j]->File_0 + 1),
            None => match first_copy_from(v, offset) {
                Some(k) => Some(v[k]->File_0 as int),
                None => None,
            },
        }
    }
}

proof fn lemma_last_copy_drawn(v: Seq<Origin>, a: int, b: int)
    requires
        0 <= a <= b <= v.len(),
        forall|j: int| a <= j < b ==> v[j] == Origin::Drawn,
    ensures
        last_copy_before(v, b) == last_copy_before(v, a),
    decreases b - a,
{
    if a < b {
        lemma_last_copy_drawn(v, a, b - 1);
    }
}

proof fn lemma_first_copy(v: Seq<Origin>, i: int, p: int)
    requires
        0 <= i <= p <= v.len(),
        forall|j: int| i <= j < p ==> v[j] == Origin::Drawn,
        p < v.len() ==> v[p] is File,
    ensures
        first_copy_from(v, i) == (if p < v.len() {
            Some(p)
        } else {
            None::<int>
        }),
    decreases p - i,
{
    if i < p {
        lemma_first_copy(v, i + 1, p);
    }
}

impl TextOrigin {
    /// The file byte a place in this text resolves to, rounding as the module
    /// says; `offset` may be the text's length.
    #[verifier::spinoff_prover]
    #[verifier::rlimit(60)]
    fn file_offset_at(&self, offset: usize) -> (r: Option<usize>)
        requires
            self.wf(),
        ensures
            match r {
                Some(x) => file_offset_at_spec(self@, offset as int) == Some(x as int),
                None => file_offset_at_spec(self@, offset as int).is_none(),
            },
    {
        proof {
            self.lemma_view_len();
        }
        let ghost v = self@;
        if offset > self.len {
            return None;
        }
        if let Some(Origin::File(source)) = self.origin_of(offset) {
            return Some(source);
        }
        let n = self.runs.len();
        let mut before: Option<usize> = None;
        let mut k: usize = 0;
        while k < n
            invariant
                runs_wf(self.runs@, self.len as int),
                v == self@,
                v.len() == self.len,
                n == self.runs@.len(),
                offset <= self.len,
                0 <= k <= n,
                ({
                    let bound = if k < n { self.runs@[k as int].start as int } else { self.len as int };
                    let upto = if bound < offset { bound } else { offset as int };
                    match last_copy_before(v, upto) {
                        Some(j) => v[j] is File && before == Some((v[j]->File_0 + 1) as usize) && v[j]->File_0 + 1 <= usize::MAX,
                        None => before.is_none(),
                    }
                }),
            decreases n - k,
        {
            let run = self.runs[k];
            proof {
                lemma_append_step(self.runs@, self.len as int, k as int);
                if k + 1 < n {
                    assert(self.runs@[k + 1].start == run.start + run.len);
                } else {
                    assert(self.runs@.last() == run);
                }
            }
            if run.start < offset {
                let end = if run.start + run.len < offset {
                    run.start + run.len
                } else {
                    offset
                };
                match run.source {
                    Some(source) => {
                        proof {
                            lemma_runs_bytes_index(self.runs@, self.len as int, k as int, end - 1 - run.start);
                        }
                        before = Some(source + (end - run.start));
                    },
                    None => {
                        proof {
                            assert forall|j: int| run.start <= j < end implies v[j] == Origin::Drawn by {
                                lemma_runs_bytes_index(self.runs@, self.len as int, k as int, j - run.start);
                            }
                            lemma_last_copy_drawn(v, run.start as int, end as int);
                        }
                    },
                }
            }
            k = k + 1;
        }
        if before.is_some() {
            return before;
        }
        let mut m: usize = 0;
        while m < n
            invariant
                self.wf(),
                v == self@,
                v.len() == self.len,
                n == self.runs@.len(),
                offset <= self.len,
                offset < self.len ==> v[offset as int] == Origin::Drawn,
                last_copy_before(v, offset as int).is_none(),
                0 <= m <= n,
                forall|j: int|
                    offset <= j < (if m < n { self.runs@[m as int].start as int } else { self.len as int })
                        ==> v[j] == Origin::Drawn,
            decreases n - m,
        {
            let run = self.runs[m];
            proof {
                lemma_append_step(self.runs@, self.len as int, m as int);
                if m + 1 < n {
                    assert(self.runs@[m + 1].start == run.start + run.len);
                } else {
                    assert(self.runs@.last() == run);
                }
            }
            if let Some(source) = run.source {
                if run.start >= offset {
                    proof {
                        lemma_runs_bytes_index(self.runs@, self.len as int, m as int, 0);
                        lemma_first_copy(v, offset as int, run.start as int);
                    }
                    return Some(source);
                }
            }
            proof {
                assert forall|j: int| offset <= j < run.start + run.len implies v[j] == Origin::Drawn by {
                    if j >= run.start {
                        lemma_runs_bytes_index(self.runs@, self.len as int, m as int, j - run.start);
                        if run.source is Some {
                            assert(run.start < offset);
                            lemma_runs_bytes_index(self.runs@, self.len as int, m as int, offset - run.start);
                        }
                    }
                }
            }
            m = m + 1;
        }
        proof {
            lemma_first_copy(v, offset as int, v.len() as int);
        }
        None
    }
}

/// Every piece of one block, in the numbering the selection model gives them.
#[derive(Clone, Debug, Default, PartialEq, Eq)]
pub struct BlockOrigins {
    pub pieces: Vec<TextOrigin>,
}

impl BlockOrigins {
    /// Every piece's map tiles its text.
    pub open spec fn wf(&self) -> bool {
        forall|p: int| 0 <= p < self.pieces@.len() ==> #[trigger] self.pieces@[p].wf()
    }

    /// A block whose pieces are these, in order.
    pub fn new(pieces: Vec<TextOrigin>) -> (b: Self)
        ensures
            b.pieces == pieces,
    {
        BlockOrigins { pieces }
    }

    /// A block of one piece.
    pub fn one(piece: TextOrigin) -> (b: Self)
        ensures
            b.pieces@ == seq![piece],
    {
        let mut pieces = Vec::new();
        pieces.push(piece);
        assert(pieces@ =~= seq![piece]);
        Self::new(pieces)
    }

    /// A block with no text in it at all — a rule.
    pub fn none() -> (b: Self)
        ensures
            b.pieces@ == Seq::<TextOrigin>::empty(),
    {
        Self::new(Vec::new())
    }
}

/// Every block's map tiles every one of its pieces.
pub open spec fn maps_wf(maps: Seq<BlockOrigins>) -> bool {
    forall|b: int| 0 <= b < maps.len() ==> #[trigger] maps[b].wf()
}

/// The file byte a place on the page stands at.
pub open spec fn file_offset_of_spec(
    place: Place,
    n_blocks: int,
    ranges: Seq<Range<usize>>,
    maps: Seq<BlockOrigins>,
) -> Option<int> {
    let b = place.block as int;
    if b >= n_blocks || b >= ranges.len() || b >= maps.len() || place.piece >= maps[b].pieces@.len() {
        None
    } else {
        match file_offset_at_spec(maps[b].pieces@[place.piece as int]@, place.offset as int) {
            Some(x) => Some(x),
            None => Some(ranges[b].start as int),
        }
    }
}

/// The file byte a place on the page stands at.
///
/// `None` when the place names a block or a piece the document does not have;
/// a piece that draws nothing the file spells answers with its block's first
/// byte.
pub fn file_offset_of(
    place: &Place,
    blocks: &[MarkdownBlock],
    ranges: &[Range<usize>],
    maps: &[BlockOrigins],
) -> (r: Option<usize>)
    requires
        maps_wf(maps@),
    ensures
        match r {
            Some(x) => file_offset_of_spec(*place, blocks@.len() as int, ranges@, maps@) == Some(x as int),
            None => file_offset_of_spec(*place, blocks@.len() as int, ranges@, maps@).is_none(),
        },
{
    let b = place.block;
    if b >= blocks.len() || b >= ranges.len() || b >= maps.len() {
        return None;
    }
    let map = &maps[b];
    if place.piece >= map.pieces.len() {
        return None;
    }
    proof {
        assert(maps@[b as int].wf());
    }
    let piece = &map.pieces[place.piece];
    match piece.file_offset_at(place.offset) {
        Some(x) => Some(x),
        None => Some(ranges[b].start),
    }
}

// ── a file byte to a place ──────────────────────────────────────────────────

/// What a walk over a block's drawn bytes has found so far: the place drawing
/// the byte itself; the nearest copy ending at or before it (as the end and
/// the place one past it); and the nearest copy starting after it.
pub struct Scan {
    pub hit: Option<Place>,
    pub before: Option<(int, Place)>,
    pub after: Option<(int, Place)>,
}

/// Nothing found yet.
pub open spec fn scan_start() -> Scan {
    Scan { hit: None, before: None, after: None }
}

/// One more drawn byte — byte `i` of piece `p`, with origin `o` — walked
/// towards the file byte `f`. The first copy of `f` ends the walk; otherwise
/// a copy before `f` is kept when it ends later than the best so far, and one
/// after `f` when it starts earlier.
pub open spec fn scan_byte(acc: Scan, block: int, p: int, i: int, o: Origin, f: int) -> Scan {
    if acc.hit is Some {
        acc
    } else {
        match o {
            Origin::Drawn => acc,
            Origin::File(s) => {
                let place = Place { block: block as usize, piece: p as usize, offset: i as usize };
                if s == f {
                    Scan { hit: Some(place), ..acc }
                } else if s < f {
                    if acc.before matches Some((at, _)) && at >= s + 1 {
                        acc
                    } else {
                        Scan {
                            before: Some(((s + 1) as int, Place { offset: (i + 1) as usize, ..place })),
                            ..acc
                        }
                    }
                } else {
                    if acc.after matches Some((at, _)) && at <= s {
                        acc
                    } else {
                        Scan { after: Some((s as int, place)), ..acc }
                    }
                }
            },
        }
    }
}

/// The first `j` bytes of piece `p` walked.
pub open spec fn scan_upto(acc: Scan, block: int, p: int, v: Seq<Origin>, f: int, j: int) -> Scan
    decreases j,
{
    if j <= 0 || j > v.len() {
        acc
    } else {
        scan_byte(scan_upto(acc, block, p, v, f, j - 1), block, p, j - 1, v[j - 1], f)
    }
}

/// The first `n` pieces of a block walked, in order.
pub open spec fn scan_pieces(block: int, pieces: Seq<TextOrigin>, f: int, n: int) -> Scan
    decreases n,
{
    if n <= 0 || n > pieces.len() {
        scan_start()
    } else {
        let v = pieces[n - 1]@;
        scan_upto(scan_pieces(block, pieces, f, n - 1), block, n - 1, v, f, v.len() as int)
    }
}

/// The nearest drawn position to `f` inside one block: the place drawing it,
/// or one past the last copy ending at or before it, or the first copy after
/// it; `None` when the block draws nothing the file spells.
pub open spec fn place_in_block_spec(f: int, block: int, pieces: Seq<TextOrigin>) -> Option<Place> {
    let acc = scan_pieces(block, pieces, f, pieces.len() as int);
    if acc.hit is Some {
        acc.hit
    } else if acc.before is Some {
        Some(acc.before.unwrap().1)
    } else if acc.after is Some {
        Some(acc.after.unwrap().1)
    } else {
        None
    }
}

proof fn lemma_scan_upto_hit(acc: Scan, block: int, p: int, v: Seq<Origin>, f: int, j: int)
    requires
        acc.hit is Some,
    ensures
        scan_upto(acc, block, p, v, f, j) == acc,
    decreases j,
{
    if 0 < j <= v.len() {
        lemma_scan_upto_hit(acc, block, p, v, f, j - 1);
    }
}

proof fn lemma_scan_pieces_hit(block: int, pieces: Seq<TextOrigin>, f: int, n: int, m: int)
    requires
        0 <= n <= m <= pieces.len(),
        scan_pieces(block, pieces, f, n).hit is Some,
    ensures
        scan_pieces(block, pieces, f, m) == scan_pieces(block, pieces, f, n),
    decreases m - n,
{
    if n < m {
        lemma_scan_pieces_hit(block, pieces, f, n, m - 1);
        let v = pieces[m - 1]@;
        lemma_scan_upto_hit(scan_pieces(block, pieces, f, m - 1), block, m - 1, v, f, v.len() as int);
    }
}

/// The walk's state, as executable values.
struct ScanState {
    hit: Option<Place>,
    before: Option<(usize, Place)>,
    after: Option<(usize, Place)>,
}

spec fn scan_state_view(s: ScanState) -> Scan {
    Scan {
        hit: s.hit,
        before: match s.before {
            Some((at, p)) => Some((at as int, p)),
            None => None,
        },
        after: match s.after {
            Some((at, p)) => Some((at as int, p)),
            None => None,
        },
    }
}

/// The nearest drawn position to `file_offset` inside one block, or `None`
/// when the block draws nothing the file spells.
#[verifier::spinoff_prover]
#[verifier::rlimit(60)]
fn place_in_block(file_offset: usize, block: usize, map: &BlockOrigins) -> (r: Option<Place>)
    requires
        map.wf(),
    ensures
        r == place_in_block_spec(file_offset as int, block as int, map.pieces@),
{
    let ghost f = file_offset as int;
    let ghost pieces = map.pieces@;
    let mut st = ScanState { hit: None, before: None, after: None };
    let mut p: usize = 0;
    while p < map.pieces.len()
        invariant
            map.wf(),
            pieces == map.pieces@,
            f == file_offset,
            0 <= p <= pieces.len(),
            st.hit is None,
            scan_state_view(st) == scan_pieces(block as int, pieces, f, p as int),
        decreases pieces.len() - p,
    {
        let piece = &map.pieces[p];
        proof {
            assert(pieces[p as int].wf());
            piece.lemma_view_len();
        }
        let ghost v = piece@;
        let ghost base = scan_state_view(st);
        let mut k: usize = 0;
        while k < piece.runs.len()
            invariant
                piece.wf(),
                v == piece@,
                v.len() == piece.len,
                pieces == map.pieces@,
                p < pieces.len(),
                pieces[p as int] == *piece,
                f == file_offset,
                base == scan_pieces(block as int, pieces, f, p as int),
                st.hit is None,
                0 <= k <= piece.runs@.len(),
                scan_state_view(st) == scan_upto(
                    base,
                    block as int,
                    p as int,
                    v,
                    f,
                    if k < piece.runs@.len() { piece.runs@[k as int].start as int } else { piece.len as int },
                ),
            decreases piece.runs@.len() - k,
        {
            let run = piece.runs[k];
            proof {
                lemma_append_step(piece.runs@, piece.len as int, k as int);
                if k + 1 < piece.runs@.len() {
                    assert(piece.runs@[k + 1].start == run.start + run.len);
                } else {
                    assert(piece.runs@.last() == run);
                }
            }
            let mut j: usize = 0;
            while j < run.len
                invariant
                    piece.wf(),
                    v == piece@,
                    v.len() == piece.len,
                    pieces == map.pieces@,
                    p < pieces.len(),
                    pieces[p as int] == *piece,
                    f == file_offset,
                    base == scan_pieces(block as int, pieces, f, p as int),
                    k < piece.runs@.len(),
                    run == piece.runs@[k as int],
                    run.start + run.len <= piece.len,
                    run.source matches Some(s) ==> s + run.len <= usize::MAX,
                    st.hit is None,
                    0 <= j <= run.len,
                    scan_state_view(st) == scan_upto(base, block as int, p as int, v, f, run.start + j),
                decreases run.len - j,
            {
                let i = run.start + j;
                proof {
                    lemma_runs_bytes_index(piece.runs@, piece.len as int, k as int, j as int);
                    assert(v[i as int] == run_bytes(run)[j as int]);
                }
                let ghost prev = scan_state_view(st);
                if let Some(src) = run.source {
                    let s = src + j;
                    assert(v[i as int] == Origin::File(s));
                    let place = Place { block, piece: p, offset: i };
                    if s == file_offset {
                        proof {
                            let now = scan_upto(base, block as int, p as int, v, f, i + 1);
                            assert(now == scan_byte(prev, block as int, p as int, i as int, v[i as int], f));
                            assert(now.hit == Some(place));
                            lemma_scan_upto_hit(now, block as int, p as int, v, f, v.len() as int);
                            assert(scan_upto(base, block as int, p as int, v, f, v.len() as int) == now) by {
                                lemma_scan_upto_split(base, block as int, p as int, v, f, i + 1, v.len() as int);
                            }
                            assert(pieces[p as int]@ == v);
                            assert(scan_pieces(block as int, pieces, f, p + 1) == scan_upto(base, block as int, p as int, v, f, v.len() as int));
                            lemma_scan_pieces_hit(block as int, pieces, f, p + 1, pieces.len() as int);
                        }
                        return Some(place);
                    } else if s < file_offset {
                        let keep = match st.before {
                            Some((at, _)) => at >= s + 1,
                            None => false,
                        };
                        if !keep {
                            st.before = Some((s + 1, Place { block, piece: p, offset: i + 1 }));
                        }
                    } else {
                        let keep = match st.after {
                            Some((at, _)) => at <= s,
                            None => false,
                        };
                        if !keep {
                            st.after = Some((s, place));
                        }
                    }
                } else {
                    assert(v[i as int] == Origin::Drawn);
                }
                assert(scan_state_view(st) == scan_byte(prev, block as int, p as int, i as int, v[i as int], f));
                j = j + 1;
            }
            k = k + 1;
        }
        proof {
            assert(pieces[p as int]@ == v);
        }
        p = p + 1;
    }
    if st.before.is_some() {
        let (_, place) = st.before.unwrap();
        return Some(place);
    }
    if st.after.is_some() {
        let (_, place) = st.after.unwrap();
        return Some(place);
    }
    None
}

proof fn lemma_scan_upto_split(acc: Scan, block: int, p: int, v: Seq<Origin>, f: int, i: int, j: int)
    requires
        0 <= i <= j <= v.len(),
        scan_upto(acc, block, p, v, f, i).hit is Some,
    ensures
        scan_upto(acc, block, p, v, f, j) == scan_upto(acc, block, p, v, f, i),
    decreases j - i,
{
    if i < j {
        lemma_scan_upto_split(acc, block, p, v, f, i, j - 1);
    }
}

/// The first range from `k` on that holds byte `f`, or the count.
pub open spec fn first_containing(r: Seq<Range<usize>>, f: int, k: int) -> int
    decreases r.len() - k,
{
    if k < 0 || k >= r.len() {
        r.len() as int
    } else if r[k].start <= f < r[k].end {
        k
    } else {
        first_containing(r, f, k + 1)
    }
}

/// The first range from `k` on that starts after byte `f`, or the count.
pub open spec fn first_after(r: Seq<Range<usize>>, f: int, k: int) -> int
    decreases r.len() - k,
{
    if k < 0 || k >= r.len() {
        r.len() as int
    } else if r[k].start > f {
        k
    } else {
        first_after(r, f, k + 1)
    }
}

/// The first block from `k` on that has words, or the count.
pub open spec fn first_with_words(maps: Seq<BlockOrigins>, k: int) -> int
    decreases maps.len() - k,
{
    if k < 0 || k >= maps.len() {
        maps.len() as int
    } else if maps[k].pieces@.len() > 0 {
        k
    } else {
        first_with_words(maps, k + 1)
    }
}

/// The last block before `end` that has words, or -1.
pub open spec fn last_with_words(maps: Seq<BlockOrigins>, end: int) -> int
    decreases end,
{
    if end <= 0 || end > maps.len() {
        -1
    } else if maps[end - 1].pieces@.len() > 0 {
        end - 1
    } else {
        last_with_words(maps, end - 1)
    }
}

/// The place on the page a file byte stands at.
pub open spec fn place_of_spec(f: int, n_blocks: int, ranges: Seq<Range<usize>>, maps: Seq<BlockOrigins>) -> Option<
    Place,
> {
    let c = first_containing(ranges, f, 0);
    let found = c < ranges.len() && c < n_blocks && c < maps.len();
    let inside = if found {
        match place_in_block_spec(f, c, maps[c].pieces@) {
            Some(p) => Some(p),
            None => if maps[c].pieces@.len() > 0 {
                Some(Place { block: c as usize, piece: 0, offset: 0 })
            } else {
                None
            },
        }
    } else {
        None
    };
    if inside is Some {
        inside
    } else {
        let fa = first_after(ranges, f, 0);
        let from = if found {
            c + 1
        } else if fa < ranges.len() {
            fa
        } else {
            maps.len() as int
        };
        let next = first_with_words(maps, from);
        if next < maps.len() {
            Some(Place { block: next as usize, piece: 0, offset: 0 })
        } else {
            let end = if from < maps.len() {
                from
            } else {
                maps.len() as int
            };
            let last = last_with_words(maps, end);
            if last >= 0 {
                let pc = maps[last].pieces@.len() - 1;
                Some(
                    Place {
                        block: last as usize,
                        piece: pc as usize,
                        offset: maps[last].pieces@[pc]@.len() as usize,
                    },
                )
            } else {
                None
            }
        }
    }
}

/// The place on the page a file byte stands at, rounded as the module says
/// when the byte is one the page does not draw. `None` only for a document
/// with no drawn text in it at all.
pub fn place_of(
    file_offset: usize,
    blocks: &[MarkdownBlock],
    ranges: &[Range<usize>],
    maps: &[BlockOrigins],
) -> (r: Option<Place>)
    requires
        maps_wf(maps@),
    ensures
        r == place_of_spec(file_offset as int, blocks@.len() as int, ranges@, maps@),
{
    let ghost f = file_offset as int;
    let mut c: usize = 0;
    while c < ranges.len() && !(ranges[c].start <= file_offset && file_offset < ranges[c].end)
        invariant
            0 <= c <= ranges@.len(),
            first_containing(ranges@, f, c as int) == first_containing(ranges@, f, 0),
            f == file_offset,
        decreases ranges@.len() - c,
    {
        c = c + 1;
    }
    let found = c < ranges.len() && c < blocks.len() && c < maps.len();
    if found {
        proof {
            assert(maps@[c as int].wf());
        }
        if let Some(place) = place_in_block(file_offset, c, &maps[c]) {
            return Some(place);
        }
        if maps[c].pieces.len() > 0 {
            return Some(Place { block: c, piece: 0, offset: 0 });
        }
    }
    let from = if found {
        c + 1
    } else {
        let mut a: usize = 0;
        while a < ranges.len() && ranges[a].start <= file_offset
            invariant
                0 <= a <= ranges@.len(),
                first_after(ranges@, f, a as int) == first_after(ranges@, f, 0),
                f == file_offset,
            decreases ranges@.len() - a,
        {
            a = a + 1;
        }
        if a < ranges.len() {
            a
        } else {
            maps.len()
        }
    };
    let mut next = from;
    while next < maps.len() && maps[next].pieces.len() == 0
        invariant
            from <= next,
            next < maps@.len() ==> first_with_words(maps@, next as int) == first_with_words(maps@, from as int),
            next >= maps@.len() ==> first_with_words(maps@, from as int) == maps@.len(),
        decreases maps@.len() - next,
    {
        assert(first_with_words(maps@, next as int) == first_with_words(maps@, next + 1));
        next = next + 1;
    }
    if next < maps.len() {
        return Some(Place { block: next, piece: 0, offset: 0 });
    }
    let end = if from < maps.len() {
        from
    } else {
        maps.len()
    };
    let mut last = end;
    while last > 0 && maps[last - 1].pieces.len() == 0
        invariant
            0 <= last <= end <= maps@.len(),
            last_with_words(maps@, last as int) == last_with_words(maps@, end as int),
        decreases last,
    {
        last = last - 1;
    }
    if last == 0 {
        return None;
    }
    let block = last - 1;
    proof {
        assert(maps@[block as int].wf());
    }
    let pc = maps[block].pieces.len() - 1;
    proof {
        assert(maps@[block as int].pieces@[pc as int].wf());
    }
    let len = maps[block].pieces[pc].len();
    Some(Place { block, piece: pc, offset: len })
}

// ── laws ────────────────────────────────────────────────────────────────────

/// Reading through is associative: a map read through a second and then a
/// third is the map read through the second already read through the third.
pub proof fn law_through_is_associative(a: Seq<Origin>, b: Seq<Origin>, c: Seq<Origin>)
    ensures
        composed(composed(a, b), c) == composed(a, composed(b, c)),
{
    assert(composed(composed(a, b), c) =~= composed(a, composed(b, c)));
}

/// A drawn byte comes back to the byte that drew it: the first place a source
/// byte is copied to is where `text_of` finds it, and `origin_of` there names
/// the source byte again.
pub proof fn law_text_of_finds_the_first_copy(v: Seq<Origin>, i: int, source: usize)
    requires
        0 <= i < v.len(),
        v[i] == Origin::File(source),
        forall|j: int| 0 <= j < i ==> v[j] != Origin::File(source),
    ensures
        first_at(v, Origin::File(source), 0) == Some(i),
{
    lemma_first_at(v, Origin::File(source), 0, i);
}

proof fn lemma_scan_upto_no_hit(acc: Scan, block: int, p: int, v: Seq<Origin>, f: int, j: int)
    requires
        acc.hit is None,
        0 <= j <= v.len(),
        forall|k: int| 0 <= k < j ==> v[k] != Origin::File(f as usize),
        0 <= f <= usize::MAX,
    ensures
        scan_upto(acc, block, p, v, f, j).hit is None,
    decreases j,
{
    if j > 0 {
        lemma_scan_upto_no_hit(acc, block, p, v, f, j - 1);
        assert(v[j - 1] != Origin::File(f as usize));
    }
}

proof fn lemma_scan_pieces_no_hit(block: int, pieces: Seq<TextOrigin>, f: int, n: int)
    requires
        0 <= n <= pieces.len(),
        0 <= f <= usize::MAX,
        forall|q: int, k: int| 0 <= q < n && 0 <= k < pieces[q]@.len() ==> pieces[q]@[k] != Origin::File(f as usize),
    ensures
        scan_pieces(block, pieces, f, n).hit is None,
    decreases n,
{
    if n > 0 {
        lemma_scan_pieces_no_hit(block, pieces, f, n - 1);
        let v = pieces[n - 1]@;
        assert forall|k: int| 0 <= k < v.len() implies v[k] != Origin::File(f as usize) by {
            assert(pieces[n - 1]@[k] != Origin::File(f as usize));
        }
        lemma_scan_upto_no_hit(scan_pieces(block, pieces, f, n - 1), block, n - 1, v, f, v.len() as int);
    }
}

/// The two directions are inverse on every drawn byte: a place standing on a
/// copy of file byte `x` answers `x`, and `x` answers that place — when the
/// place is the first in its block to draw `x` and `x` lies in that block's
/// range and no earlier one.
pub proof fn law_places_and_file_bytes_are_inverse_on_copies(
    place: Place,
    n_blocks: int,
    ranges: Seq<Range<usize>>,
    maps: Seq<BlockOrigins>,
    x: usize,
)
    requires
        maps_wf(maps),
        place.block < n_blocks,
        place.block < ranges.len(),
        place.block < maps.len(),
        place.piece < maps[place.block as int].pieces@.len(),
        place.offset < maps[place.block as int].pieces@[place.piece as int]@.len(),
        maps[place.block as int].pieces@[place.piece as int]@[place.offset as int] == Origin::File(x),
        first_containing(ranges, x as int, 0) == place.block,
        forall|q: int, k: int|
            0 <= q < place.piece && 0 <= k < maps[place.block as int].pieces@[q]@.len()
                ==> maps[place.block as int].pieces@[q]@[k] != Origin::File(x),
        forall|k: int|
            0 <= k < place.offset ==> maps[place.block as int].pieces@[place.piece as int]@[k] != Origin::File(x),
    ensures
        file_offset_of_spec(place, n_blocks, ranges, maps) == Some(x as int),
        place_of_spec(x as int, n_blocks, ranges, maps) == Some(place),
{
    let b = place.block as int;
    let pc = place.piece as int;
    let i = place.offset as int;
    let pieces = maps[b].pieces@;
    let v = pieces[pc]@;
    let f = x as int;
    lemma_scan_pieces_no_hit(b, pieces, f, pc);
    let base = scan_pieces(b, pieces, f, pc);
    lemma_scan_upto_no_hit(base, b, pc, v, f, i);
    let now = scan_upto(base, b, pc, v, f, i + 1);
    assert(now == scan_byte(scan_upto(base, b, pc, v, f, i), b, pc, i, v[i], f));
    assert(now.hit == Some(place));
    lemma_scan_upto_split(base, b, pc, v, f, i + 1, v.len() as int);
    assert(scan_pieces(b, pieces, f, pc + 1) == scan_upto(base, b, pc, v, f, v.len() as int));
    lemma_scan_pieces_hit(b, pieces, f, pc + 1, pieces.len() as int);
}

/// A place answers a byte of its own block: when every copy a block's pieces
/// make lies inside the block's range, every place in that block resolves to
/// a byte from the range's start to its end.
pub proof fn law_file_offset_stays_in_its_block(
    place: Place,
    n_blocks: int,
    ranges: Seq<Range<usize>>,
    maps: Seq<BlockOrigins>,
)
    requires
        maps_wf(maps),
        place.block < n_blocks,
        place.block < ranges.len(),
        place.block < maps.len(),
        place.piece < maps[place.block as int].pieces@.len(),
        ranges[place.block as int].start <= ranges[place.block as int].end,
        forall|k: int|
            #![trigger maps[place.block as int].pieces@[place.piece as int]@[k]]
            0 <= k < maps[place.block as int].pieces@[place.piece as int]@.len() ==> (
            maps[place.block as int].pieces@[place.piece as int]@[k] matches Origin::File(s) ==> ranges[place.block as int].start
                <= s < ranges[place.block as int].end),
    ensures
        file_offset_of_spec(place, n_blocks, ranges, maps) matches Some(x) && ranges[place.block as int].start <= x
            <= ranges[place.block as int].end,
{
    let b = place.block as int;
    let v = maps[b].pieces@[place.piece as int]@;
    let o = place.offset as int;
    if 0 <= o <= v.len() && !(o < v.len() && v[o] is File) {
        lemma_last_copy_before(v, o);
        lemma_first_copy_from(v, o);
    }
}

proof fn lemma_last_copy_before(v: Seq<Origin>, i: int)
    ensures
        last_copy_before(v, i) matches Some(j) ==> 0 <= j < i && j < v.len() && v[j] is File,
    decreases i,
{
    if 0 < i <= v.len() && !(v[i - 1] is File) {
        lemma_last_copy_before(v, i - 1);
    }
}

proof fn lemma_first_copy_from(v: Seq<Origin>, i: int)
    ensures
        first_copy_from(v, i) matches Some(k) ==> i <= k < v.len() && 0 <= k && v[k] is File,
    decreases v.len() - i,
{
    if 0 <= i < v.len() && !(v[i] is File) {
        lemma_first_copy_from(v, i + 1);
    }
}

} // verus!
