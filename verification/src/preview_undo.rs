//! The preview editor's undo log: what changed, in what order, and how much of
//! it one press takes back.
//!
//! The log belongs to the buffer, never to a pane: a file open in two panes is
//! one buffer, and an entry carries the caret of whoever typed it. Everything
//! here is a function of a string, an offset and a caret.
//!
//! A run of typing is one entry. Consecutive single-character insertions, or
//! consecutive single-character deletions in one direction, coalesce; the run
//! is broken by a caret jump, a line break, a change of direction, a save, or
//! the disk's copy arriving. A paste is one entry however long it is.
use vstd::prelude::*;
use vstd::string::*;
use crate::preview_edit::{healed, lemma_healed, EditCaret};
use crate::utf8_text::{
    boundary, byte_len, bytes_of, concat, is_boundary, lemma_utf8_concat, lemma_utf8_ends,
    lemma_valid_starts_at_boundary, push_str, replace_range, slice, spliced, utf8,
};

verus! {

broadcast use vstd::utf8::encode_utf8_valid_utf8;

/// What shape of edit made a change, and therefore what it may join.
#[derive(Clone, Copy, Debug, PartialEq, Eq, Structural)]
pub enum EditGrain {
    /// One character typed in.
    Insert,
    /// One character taken back — Backspace.
    DeleteBack,
    /// One character taken forward — Delete.
    DeleteForward,
    /// Everything else, standing alone: a paste, a line break, a selection
    /// replaced.
    Solid,
}

/// One change to a body, before it is filed: where it starts, what came out,
/// what went in, and the caret on each side of it.
#[derive(Clone, Debug, PartialEq, Eq)]
pub struct Change {
    /// The first byte the change touched.
    pub at: usize,
    /// The text that was there.
    pub removed: String,
    /// The text that is there now.
    pub inserted: String,
    /// Where the caret was before the keystroke.
    pub before: EditCaret,
    /// Where it ended up.
    pub after: EditCaret,
}

/// A change as a value.
pub struct ChangeView {
    pub at: int,
    pub removed: Seq<char>,
    pub inserted: Seq<char>,
    pub before: EditCaret,
    pub after: EditCaret,
}

impl View for Change {
    type V = ChangeView;

    open spec fn view(&self) -> ChangeView {
        ChangeView {
            at: self.at as int,
            removed: self.removed@,
            inserted: self.inserted@,
            before: self.before,
            after: self.after,
        }
    }
}

// ── the smallest span that differs ──────────────────────────────────────────

/// The length of the longest common prefix of `a` and `b`, counted from `i`.
pub open spec fn common_prefix_from(a: Seq<u8>, b: Seq<u8>, i: int) -> int
    decreases a.len() - i,
{
    if 0 <= i < a.len() && i < b.len() && a[i] == b[i] {
        common_prefix_from(a, b, i + 1)
    } else {
        i
    }
}

/// `h`, pulled back until it is a character boundary in both.
pub open spec fn back_to_both(a: Seq<u8>, b: Seq<u8>, h: int) -> int
    decreases h,
{
    if h > 0 && !(boundary(a, h) && boundary(b, h)) {
        back_to_both(a, b, h - 1)
    } else {
        h
    }
}

/// How many leading bytes two bodies share, ending on a boundary in both.
pub open spec fn common_head_spec(a: Seq<u8>, b: Seq<u8>) -> int {
    back_to_both(a, b, common_prefix_from(a, b, 0))
}

/// The length of the longest common suffix, counted from `t`, at most `limit`.
pub open spec fn common_suffix_from(a: Seq<u8>, b: Seq<u8>, limit: int, t: int) -> int
    decreases limit - t,
{
    if 0 <= t < limit && a[a.len() - 1 - t] == b[b.len() - 1 - t] {
        common_suffix_from(a, b, limit, t + 1)
    } else {
        t
    }
}

/// `t`, pulled back until `len - t` is a character boundary in both.
pub open spec fn back_tail(a: Seq<u8>, b: Seq<u8>, t: int) -> int
    decreases t,
{
    if t > 0 && !(boundary(a, a.len() - t) && boundary(b, b.len() - t)) {
        back_tail(a, b, t - 1)
    } else {
        t
    }
}

/// How many trailing bytes they share, never reaching back past `head`.
pub open spec fn common_tail_spec(a: Seq<u8>, b: Seq<u8>, head: int) -> int {
    let limit = (if a.len() < b.len() {
        a.len()
    } else {
        b.len()
    }) - head;
    back_tail(a, b, common_suffix_from(a, b, limit, 0))
}

proof fn lemma_common_prefix(a: Seq<u8>, b: Seq<u8>, i: int)
    requires
        0 <= i <= a.len(),
        i <= b.len(),
        a.subrange(0, i) == b.subrange(0, i),
    ensures
        i <= common_prefix_from(a, b, i) <= a.len(),
        common_prefix_from(a, b, i) <= b.len(),
        a.subrange(0, common_prefix_from(a, b, i)) == b.subrange(0, common_prefix_from(a, b, i)),
    decreases a.len() - i,
{
    if i < a.len() && i < b.len() && a[i] == b[i] {
        assert(a.subrange(0, i + 1) =~= a.subrange(0, i).push(a[i]));
        assert(b.subrange(0, i + 1) =~= b.subrange(0, i).push(b[i]));
        lemma_common_prefix(a, b, i + 1);
    }
}

proof fn lemma_back_to_both(a: Seq<u8>, b: Seq<u8>, h: int)
    requires
        vstd::utf8::valid_utf8(a),
        vstd::utf8::valid_utf8(b),
        0 <= h <= a.len(),
        h <= b.len(),
    ensures
        0 <= back_to_both(a, b, h) <= h,
        boundary(a, back_to_both(a, b, h)),
        boundary(b, back_to_both(a, b, h)),
    decreases h,
{
    if h > 0 && !(boundary(a, h) && boundary(b, h)) {
        lemma_back_to_both(a, b, h - 1);
    } else if h == 0 {
        lemma_valid_starts_at_boundary(a);
        lemma_valid_starts_at_boundary(b);
    }
}

proof fn lemma_common_suffix(a: Seq<u8>, b: Seq<u8>, limit: int, t: int)
    requires
        0 <= t <= limit,
        limit <= a.len(),
        limit <= b.len(),
        a.subrange(a.len() - t, a.len() as int) == b.subrange(b.len() - t, b.len() as int),
    ensures
        t <= common_suffix_from(a, b, limit, t) <= limit,
        a.subrange(a.len() - common_suffix_from(a, b, limit, t), a.len() as int) == b.subrange(
            b.len() - common_suffix_from(a, b, limit, t),
            b.len() as int,
        ),
    decreases limit - t,
{
    if t < limit && a[a.len() - 1 - t] == b[b.len() - 1 - t] {
        assert(a.subrange(a.len() - (t + 1), a.len() as int) =~= seq![a[a.len() - 1 - t]] + a.subrange(
            a.len() - t,
            a.len() as int,
        ));
        assert(b.subrange(b.len() - (t + 1), b.len() as int) =~= seq![b[b.len() - 1 - t]] + b.subrange(
            b.len() - t,
            b.len() as int,
        ));
        lemma_common_suffix(a, b, limit, t + 1);
    }
}

proof fn lemma_back_tail(a: Seq<u8>, b: Seq<u8>, t: int)
    requires
        0 <= t <= a.len(),
        t <= b.len(),
    ensures
        0 <= back_tail(a, b, t) <= t,
        boundary(a, a.len() - back_tail(a, b, t)),
        boundary(b, b.len() - back_tail(a, b, t)),
    decreases t,
{
    if t > 0 && !(boundary(a, a.len() - t) && boundary(b, b.len() - t)) {
        lemma_back_tail(a, b, t - 1);
    }
}

proof fn lemma_prefix_of_itself(a: Seq<u8>, i: int)
    requires
        0 <= i <= a.len(),
    ensures
        common_prefix_from(a, a, i) == a.len(),
    decreases a.len() - i,
{
    if i < a.len() {
        lemma_prefix_of_itself(a, i + 1);
    }
}

/// A body differs from itself nowhere: its span is empty, at its end.
proof fn lemma_span_of_itself(a: Seq<u8>)
    ensures
        change_span(a, a) == (a.len() as int, a.len() as int, a.len() as int),
{
    lemma_prefix_of_itself(a, 0);
}

/// How many leading bytes the two bodies share, ending on a character boundary
/// in both.
fn common_head(was: &str, now: &str) -> (head: usize)
    ensures
        head == common_head_spec(utf8(was@), utf8(now@)),
{
    let a = bytes_of(was);
    let b = bytes_of(now);
    let limit = if a.len() < b.len() {
        a.len()
    } else {
        b.len()
    };
    let mut head: usize = 0;
    while head < limit && a[head] == b[head]
        invariant
            a@ == utf8(was@),
            b@ == utf8(now@),
            limit == (if a@.len() < b@.len() {
                a@.len()
            } else {
                b@.len()
            }),
            0 <= head <= limit,
            common_prefix_from(a@, b@, head as int) == common_prefix_from(a@, b@, 0),
        decreases limit - head,
    {
        head = head + 1;
    }
    while head > 0 && !(is_boundary(was, head) && is_boundary(now, head))
        invariant
            a@ == utf8(was@),
            b@ == utf8(now@),
            0 <= head <= limit,
            limit <= a@.len(),
            limit <= b@.len(),
            back_to_both(a@, b@, head as int) == common_head_spec(a@, b@),
        decreases head,
    {
        head = head - 1;
    }
    head
}

/// How many trailing bytes they share, never reaching back past `head`.
fn common_tail(was: &str, now: &str, head: usize) -> (tail: usize)
    requires
        head <= utf8(was@).len(),
        head <= utf8(now@).len(),
    ensures
        tail == common_tail_spec(utf8(was@), utf8(now@), head as int),
{
    let a = bytes_of(was);
    let b = bytes_of(now);
    let limit = (if a.len() < b.len() {
        a.len()
    } else {
        b.len()
    }) - head;
    let mut tail: usize = 0;
    while tail < limit && a[a.len() - 1 - tail] == b[b.len() - 1 - tail]
        invariant
            a@ == utf8(was@),
            b@ == utf8(now@),
            limit <= a@.len(),
            limit <= b@.len(),
            limit == (if a@.len() < b@.len() {
                a@.len()
            } else {
                b@.len()
            }) - head,
            0 <= tail <= limit,
            common_suffix_from(a@, b@, limit as int, tail as int) == common_suffix_from(
                a@,
                b@,
                limit as int,
                0,
            ),
        decreases limit - tail,
    {
        tail = tail + 1;
    }
    while tail > 0 && !(is_boundary(was, a.len() - tail) && is_boundary(now, b.len() - tail))
        invariant
            a@ == utf8(was@),
            b@ == utf8(now@),
            0 <= tail <= limit,
            limit <= a@.len(),
            limit <= b@.len(),
            back_tail(a@, b@, tail as int) == common_tail_spec(a@, b@, head as int),
        decreases tail,
    {
        tail = tail - 1;
    }
    tail
}

/// The change between two bodies: the head and tail they share trimmed off,
/// both ends on a character boundary in both bodies.
pub open spec fn change_span(a: Seq<u8>, b: Seq<u8>) -> (int, int, int) {
    let head = common_head_spec(a, b);
    let tail = common_tail_spec(a, b, head);
    (head, a.len() - tail, b.len() - tail)
}

impl Change {
    /// The change between two bodies, with the caret the keystroke reported.
    ///
    /// The common head and tail are trimmed off, so a change is the smallest
    /// span that differs, and both ends are pulled back to a character boundary
    /// in both bodies. `None` when the bodies are identical.
    ///
    /// Splicing the change's removed text back over its inserted text gives
    /// the old body again, and the other way round gives the new one.
    pub fn between(was: &str, now: &str, before: EditCaret, after: EditCaret) -> (r: Option<Self>)
        ensures
            ({
                let (a, b) = (utf8(was@), utf8(now@));
                let (head, a_end, b_end) = change_span(a, b);
                match r {
                    Some(c) => {
                        &&& 0 <= head <= a_end <= a.len()
                        &&& head <= b_end <= b.len()
                        &&& c.at == head
                        &&& boundary(a, head) && boundary(a, a_end)
                        &&& boundary(b, head) && boundary(b, b_end)
                        &&& utf8(c.removed@) == a.subrange(head, a_end)
                        &&& utf8(c.inserted@) == b.subrange(head, b_end)
                        &&& c.before == before
                        &&& c.after == after
                        &&& !(a_end == head && b_end == head)
                        &&& spliced(b, c.at as int, c.at + utf8(c.inserted@).len(), utf8(c.removed@)) == a
                        &&& spliced(a, c.at as int, c.at + utf8(c.removed@).len(), utf8(c.inserted@)) == b
                        &&& made_between(c@, a, b)
                    },
                    None => a_end == head && b_end == head && a == b,
                }
            }),
            (r is None) == (utf8(was@) == utf8(now@)),
    {
        let ghost a = utf8(was@);
        let ghost b = utf8(now@);
        let la = byte_len(was);
        let lb = byte_len(now);
        let head = common_head(was, now);
        proof {
            assert(a.subrange(0, 0) =~= b.subrange(0, 0));
            lemma_common_prefix(a, b, 0);
            lemma_back_to_both(a, b, common_prefix_from(a, b, 0));
            let p = common_prefix_from(a, b, 0);
            assert(a.subrange(0, head as int) =~= a.subrange(0, p).subrange(0, head as int));
            assert(b.subrange(0, head as int) =~= b.subrange(0, p).subrange(0, head as int));
        }
        let tail = common_tail(was, now, head);
        proof {
            let limit = (if a.len() < b.len() {
                a.len()
            } else {
                b.len()
            }) - head;
            assert(a.subrange(a.len() - 0, a.len() as int) =~= b.subrange(b.len() - 0, b.len() as int));
            lemma_common_suffix(a, b, limit, 0);
            let s = common_suffix_from(a, b, limit, 0);
            lemma_back_tail(a, b, s);
            assert(a.subrange(a.len() - tail, a.len() as int) =~= a.subrange(a.len() - s, a.len() as int).subrange(
                s - tail,
                s as int,
            ));
            assert(b.subrange(b.len() - tail, b.len() as int) =~= b.subrange(b.len() - s, b.len() as int).subrange(
                s - tail,
                s as int,
            ));
        }
        let removed = slice(was, head, la - tail);
        let inserted = slice(now, head, lb - tail);
        proof {
            assert(a =~= a.subrange(0, head as int) + a.subrange(head as int, la - tail) + a.subrange(
                la - tail,
                la as int,
            ));
            assert(b =~= b.subrange(0, head as int) + b.subrange(head as int, lb - tail) + b.subrange(
                lb - tail,
                lb as int,
            ));
        }
        if la - tail == head && lb - tail == head {
            return None;
        }
        proof {
            if a == b {
                lemma_span_of_itself(a);
            }
        }
        Some(
            Change {
                at: head,
                removed: String::from_str(removed),
                inserted: String::from_str(inserted),
                before,
                after,
            },
        )
    }

    /// The same, for an edit that has no caret to tell: the caret filed is the
    /// one the change implies — collapsed at the end of what came out before,
    /// and at the end of what went in after.
    pub fn implied(was: &str, now: &str) -> (r: Option<Self>)
        ensures
            match r {
                Some(c) => ({
                    let (head, a_end, b_end) = change_span(utf8(was@), utf8(now@));
                    &&& c.at == head
                    &&& utf8(c.removed@) == utf8(was@).subrange(head, a_end)
                    &&& utf8(c.inserted@) == utf8(now@).subrange(head, b_end)
                    &&& c.before == crate::preview_edit::collapsed_caret(a_end)
                    &&& c.after == crate::preview_edit::collapsed_caret(b_end)
                    &&& !(a_end == head && b_end == head)
                    &&& made_between(c@, utf8(was@), utf8(now@))
                }),
                None => utf8(was@) == utf8(now@),
            },
            (r is None) == (utf8(was@) == utf8(now@)),
    {
        let _ = byte_len(was);
        let _ = byte_len(now);
        let zero = EditCaret { anchor: 0, caret: 0, desired_column: None, desired_x: None };
        let change = Self::between(was, now, zero, zero);
        match change {
            None => None,
            Some(mut c) => {
                let ra = byte_len(c.removed.as_str());
                let ia = byte_len(c.inserted.as_str());
                let end_removed = c.at + ra;
                let end_inserted = c.at + ia;
                c.before = EditCaret { anchor: end_removed, caret: end_removed, desired_column: None, desired_x: None };
                c.after = EditCaret { anchor: end_inserted, caret: end_inserted, desired_column: None, desired_x: None };
                Some(c)
            },
        }
    }
}

// ── runs ────────────────────────────────────────────────────────────────────

/// Whether some byte is half of a line break.
pub open spec fn has_break(b: Seq<u8>) -> bool {
    exists|i: int| 0 <= i < b.len() && (b[i] == 10u8 || b[i] == 13u8)
}

/// Which run, if any, a change belongs to.
///
/// A break in either direction stands alone, which is how a line break breaks
/// a run. One character typed is an insert; one character taken with nothing
/// selected is a deletion in the direction the caret says; anything else —
/// a paste, a selection replaced — stands alone.
pub open spec fn change_grain(c: ChangeView) -> EditGrain {
    if has_break(utf8(c.removed)) || has_break(utf8(c.inserted)) {
        EditGrain::Solid
    } else if c.removed.len() == 0 && c.inserted.len() == 1 {
        EditGrain::Insert
    } else if c.inserted.len() == 0 && c.removed.len() == 1 {
        if c.before.anchor != c.before.caret {
            EditGrain::Solid
        } else if c.before.caret == c.at + utf8(c.removed).len() {
            EditGrain::DeleteBack
        } else if c.before.caret == c.at {
            EditGrain::DeleteForward
        } else {
            EditGrain::Solid
        }
    } else {
        EditGrain::Solid
    }
}

fn breaks(text: &str) -> (r: bool)
    ensures
        r == has_break(utf8(text@)),
{
    let b = bytes_of(text);
    let mut i: usize = 0;
    while i < b.len()
        invariant
            b@ == utf8(text@),
            0 <= i <= b@.len(),
            forall|j: int| 0 <= j < i ==> !(b@[j] == 10u8 || b@[j] == 13u8),
        decreases b@.len() - i,
    {
        if b[i] == 10u8 || b[i] == 13u8 {
            return true;
        }
        i = i + 1;
    }
    false
}

impl Change {
    fn grain(&self) -> (g: EditGrain)
        ensures
            g == change_grain(self@),
    {
        if breaks(self.removed.as_str()) || breaks(self.inserted.as_str()) {
            return EditGrain::Solid;
        }
        let removed_chars = self.removed.as_str().unicode_len();
        let inserted_chars = self.inserted.as_str().unicode_len();
        if removed_chars == 0 && inserted_chars == 1 {
            EditGrain::Insert
        } else if inserted_chars == 0 && removed_chars == 1 {
            if !self.before.is_empty() {
                return EditGrain::Solid;
            }
            let len = byte_len(self.removed.as_str());
            if self.at.checked_add(len) == Some(self.before.caret) {
                EditGrain::DeleteBack
            } else if self.before.caret == self.at {
                EditGrain::DeleteForward
            } else {
                EditGrain::Solid
            }
        } else {
            EditGrain::Solid
        }
    }
}

/// One change, as the log remembers it.
#[derive(Clone, Debug, PartialEq, Eq)]
struct Entry {
    at: usize,
    removed: String,
    inserted: String,
    before: EditCaret,
    after: EditCaret,
    grain: EditGrain,
}

/// An entry as a value.
pub struct EntryView {
    pub at: int,
    pub removed: Seq<char>,
    pub inserted: Seq<char>,
    pub before: EditCaret,
    pub after: EditCaret,
    pub grain: EditGrain,
}

impl View for Entry {
    type V = EntryView;

    closed spec fn view(&self) -> EntryView {
        EntryView {
            at: self.at as int,
            removed: self.removed@,
            inserted: self.inserted@,
            before: self.before,
            after: self.after,
            grain: self.grain,
        }
    }
}

/// The entry a change starts.
pub open spec fn entry_of(c: ChangeView, grain: EditGrain) -> EntryView {
    EntryView { at: c.at, removed: c.removed, inserted: c.inserted, before: c.before, after: c.after, grain }
}

/// The entry with one more keystroke taken into it, or `None` when the
/// keystroke must start its own: the grain must match, the caret must have
/// started where the entry left it, and the bytes must abut in the direction
/// the run is running.
pub open spec fn absorbed(e: EntryView, c: ChangeView, grain: EditGrain) -> Option<EntryView> {
    if e.grain != grain {
        None
    } else if e.after.anchor != c.before.anchor || e.after.caret != c.before.caret {
        None
    } else {
        match grain {
            EditGrain::Insert => if e.removed.len() != 0 || c.at != e.at + utf8(e.inserted).len() {
                None
            } else {
                Some(EntryView { inserted: e.inserted + c.inserted, after: c.after, ..e })
            },
            EditGrain::DeleteBack => if e.inserted.len() != 0 || c.at + utf8(c.removed).len() != e.at {
                None
            } else {
                Some(EntryView { at: c.at, removed: c.removed + e.removed, after: c.after, ..e })
            },
            EditGrain::DeleteForward => if e.inserted.len() != 0 || c.at != e.at {
                None
            } else {
                Some(EntryView { removed: e.removed + c.removed, after: c.after, ..e })
            },
            EditGrain::Solid => None,
        }
    }
}

impl Entry {
    fn new(change: Change, grain: EditGrain) -> (e: Self)
        ensures
            e@ == entry_of(change@, grain),
    {
        Entry {
            at: change.at,
            removed: change.removed,
            inserted: change.inserted,
            before: change.before,
            after: change.after,
            grain,
        }
    }

    /// Take one more keystroke into this entry, or refuse and leave it as it
    /// was.
    fn absorb(&mut self, change: &Change, grain: EditGrain) -> (taken: bool)
        ensures
            taken == absorbed(old(self)@, change@, grain).is_some(),
            taken ==> final(self)@ == absorbed(old(self)@, change@, grain).unwrap(),
            !taken ==> final(self)@ == old(self)@,
    {
        if self.grain != grain {
            return false;
        }
        if self.after.anchor != change.before.anchor || self.after.caret != change.before.caret {
            return false;
        }
        match grain {
            EditGrain::Insert => {
                let len = byte_len(self.inserted.as_str());
                if byte_len(self.removed.as_str()) != 0 || self.at.checked_add(len) != Some(change.at) {
                    proof {
                        crate::utf8_text::lemma_utf8_empty(self.removed@);
                    }
                    return false;
                }
                proof {
                    crate::utf8_text::lemma_utf8_empty(self.removed@);
                }
                push_str(&mut self.inserted, change.inserted.as_str());
            },
            EditGrain::DeleteBack => {
                let len = byte_len(change.removed.as_str());
                if byte_len(self.inserted.as_str()) != 0 || change.at.checked_add(len) != Some(self.at) {
                    proof {
                        crate::utf8_text::lemma_utf8_empty(self.inserted@);
                    }
                    return false;
                }
                proof {
                    crate::utf8_text::lemma_utf8_empty(self.inserted@);
                }
                self.at = change.at;
                self.removed = concat(change.removed.as_str(), self.removed.as_str());
            },
            EditGrain::DeleteForward => {
                if byte_len(self.inserted.as_str()) != 0 || change.at != self.at {
                    proof {
                        crate::utf8_text::lemma_utf8_empty(self.inserted@);
                    }
                    return false;
                }
                proof {
                    crate::utf8_text::lemma_utf8_empty(self.inserted@);
                }
                push_str(&mut self.removed, change.removed.as_str());
            },
            EditGrain::Solid => {
                return false;
            },
        }
        self.after = change.after;
        true
    }
}

// ── the log ─────────────────────────────────────────────────────────────────

/// How far back the log reaches, in entries — each a whole typing run.
pub const UNDO_DEPTH: usize = 4096;

/// A body's changes, in the order they were made.
///
/// The first `cursor` entries stand applied to the body and the rest are the
/// redo tail. There is no snapshot of the text: the body is the truth and this
/// is the road back through it.
#[derive(Clone, Debug, PartialEq, Eq)]
pub struct UndoLog {
    entries: Vec<Entry>,
    /// How many entries stand applied to the body.
    cursor: usize,
    /// The cursor at the last save, while that position is still reachable.
    saved: Option<usize>,
    /// Whether the newest entry may still take another keystroke.
    open: bool,
}

/// The log as a value.
pub struct LogView {
    pub entries: Seq<EntryView>,
    pub cursor: int,
    pub saved: Option<int>,
    pub open: bool,
}

impl View for UndoLog {
    type V = LogView;

    closed spec fn view(&self) -> LogView {
        LogView {
            entries: self.entries@.map_values(|e: Entry| e@),
            cursor: self.cursor as int,
            saved: match self.saved {
                Some(s) => Some(s as int),
                None => None,
            },
            open: self.open,
        }
    }
}

/// The shape every log has: the applied entries and the saved position are
/// inside the list.
pub open spec fn log_wf(l: LogView) -> bool {
    &&& 0 <= l.cursor <= l.entries.len()
    &&& l.entries.len() <= UNDO_DEPTH
    &&& match l.saved {
        Some(s) => 0 <= s <= l.entries.len(),
        None => true,
    }
}

/// An empty log over a body that matches its file.
pub open spec fn empty_log() -> LogView {
    LogView { entries: Seq::empty(), cursor: 0, saved: Some(0), open: false }
}

/// The oldest entries dropped once the log is over its cap; a saved position
/// that falls off the front can no longer be returned to.
pub open spec fn trimmed(l: LogView) -> LogView {
    if l.entries.len() <= UNDO_DEPTH {
        l
    } else {
        let over = l.entries.len() - UNDO_DEPTH;
        LogView {
            entries: l.entries.skip(over),
            cursor: if l.cursor >= over {
                l.cursor - over
            } else {
                0
            },
            saved: match l.saved {
                Some(s) => if s >= over {
                    Some(s - over)
                } else {
                    None
                },
                None => None,
            },
            ..l
        }
    }
}

/// The log with a change filed.
///
/// A new edit discards the redo tail, and the saved position with it if it
/// was on that branch. An open run takes the change if it can; otherwise the
/// change is a new entry, open unless it stands alone.
pub open spec fn recorded(l: LogView, c: ChangeView) -> LogView {
    let l1 = if l.cursor < l.entries.len() {
        LogView {
            entries: l.entries.take(l.cursor),
            saved: match l.saved {
                Some(s) => if s > l.cursor {
                    None
                } else {
                    Some(s)
                },
                None => None,
            },
            open: false,
            ..l
        }
    } else {
        l
    };
    let g = change_grain(c);
    if l1.open && g != EditGrain::Solid && l1.entries.len() > 0 && absorbed(l1.entries.last(), c, g).is_some() {
        LogView { entries: l1.entries.drop_last().push(absorbed(l1.entries.last(), c, g).unwrap()), ..l1 }
    } else {
        trimmed(
            LogView {
                entries: l1.entries.push(entry_of(c, g)),
                cursor: (l1.entries.len() + 1) as int,
                open: g != EditGrain::Solid,
                ..l1
            },
        )
    }
}

/// The entry an undo takes back: the newest applied one.
pub open spec fn undo_entry(l: LogView) -> EntryView {
    l.entries[l.cursor - 1]
}

/// Whether an undo can put its entry's bytes back into `b`: the text the entry
/// put in stands inside `b`, on character boundaries.
pub open spec fn undo_fits(l: LogView, b: Seq<u8>) -> bool {
    l.cursor > 0 ==> {
        let e = undo_entry(l);
        let end = e.at + utf8(e.inserted).len();
        &&& end <= b.len()
        &&& boundary(b, e.at)
        &&& boundary(b, end)
    }
}

/// The body after an undo.
pub open spec fn undone(l: LogView, b: Seq<u8>) -> Seq<u8> {
    let e = undo_entry(l);
    spliced(b, e.at, e.at + utf8(e.inserted).len(), utf8(e.removed))
}

/// The log after an undo.
pub open spec fn undo_log(l: LogView) -> LogView {
    LogView { cursor: l.cursor - 1, open: false, ..l }
}

/// The entry a redo plays forward: the first of the redo tail.
pub open spec fn redo_entry(l: LogView) -> EntryView {
    l.entries[l.cursor]
}

/// Whether a redo can play its entry forward in `b`.
pub open spec fn redo_fits(l: LogView, b: Seq<u8>) -> bool {
    l.cursor < l.entries.len() ==> {
        let e = redo_entry(l);
        let end = e.at + utf8(e.removed).len();
        &&& end <= b.len()
        &&& boundary(b, e.at)
        &&& boundary(b, end)
    }
}

/// The body after a redo.
pub open spec fn redone(l: LogView, b: Seq<u8>) -> Seq<u8> {
    let e = redo_entry(l);
    spliced(b, e.at, e.at + utf8(e.removed).len(), utf8(e.inserted))
}

/// The log after a redo.
pub open spec fn redo_log(l: LogView) -> LogView {
    LogView { cursor: l.cursor + 1, open: false, ..l }
}

proof fn lemma_views_push(es: Seq<Entry>, e: Entry)
    ensures
        es.push(e).map_values(|x: Entry| x@) == es.map_values(|x: Entry| x@).push(e@),
{
    assert(es.push(e).map_values(|x: Entry| x@) =~= es.map_values(|x: Entry| x@).push(e@));
}

impl Default for UndoLog {
    /// An empty log over a body that matches its file — which is what a body
    /// just read off a disk is.
    fn default() -> (log: Self)
        ensures
            log@ == empty_log(),
            log_wf(log@),
    {
        let log = UndoLog { entries: Vec::new(), cursor: 0, saved: Some(0), open: false };
        assert(log@.entries =~= Seq::<EntryView>::empty());
        log
    }
}

impl UndoLog {
    /// How far back the log reaches, in entries.
    pub const DEPTH: usize = 4096;

    /// Drop the oldest entries once the log is over its cap.
    fn trim(&mut self)
        requires
            0 <= old(self)@.cursor <= old(self)@.entries.len(),
            match old(self)@.saved {
                Some(s) => 0 <= s <= old(self)@.entries.len(),
                None => true,
            },
        ensures
            final(self)@ == trimmed(old(self)@),
            log_wf(final(self)@),
    {
        if self.entries.len() <= UNDO_DEPTH {
            return;
        }
        let over = self.entries.len() - UNDO_DEPTH;
        let ghost start = self.entries@;
        let mut k: usize = 0;
        while k < over
            invariant
                0 <= k <= over,
                over == start.len() - UNDO_DEPTH,
                start == old(self).entries@,
                self.entries@ == start.skip(k as int),
                self.cursor == old(self).cursor,
                self.saved == old(self).saved,
                self.open == old(self).open,
            decreases over - k,
        {
            self.entries.remove(0);
            assert(start.skip(k as int).remove(0) =~= start.skip(k + 1));
            k = k + 1;
        }
        self.cursor = if self.cursor >= over {
            self.cursor - over
        } else {
            0
        };
        self.saved = match self.saved {
            Some(s) => if s >= over {
                Some(s - over)
            } else {
                None
            },
            None => None,
        };
        assert(self@.entries =~= old(self)@.entries.skip(over as int));
    }

    /// File a change.
    ///
    /// A new edit discards the redo tail: once the road has forked, the branch
    /// nobody took is gone, and the saved state with it if it was on it.
    pub fn record(&mut self, change: Change)
        requires
            log_wf(old(self)@),
        ensures
            final(self)@ == recorded(old(self)@, change@),
            log_wf(final(self)@),
    {
        let ghost c = change@;
        if self.cursor < self.entries.len() {
            self.entries.truncate(self.cursor);
            self.saved = match self.saved {
                Some(s) => if s > self.cursor {
                    None
                } else {
                    Some(s)
                },
                None => None,
            };
            self.open = false;
            assert(self@.entries =~= old(self)@.entries.take(old(self)@.cursor));
        }
        let ghost l1 = self@;
        let grain = change.grain();
        if self.open && grain != EditGrain::Solid && self.entries.len() > 0 {
            let ghost whole = self.entries@;
            let mut last = self.entries.pop().unwrap();
            let ghost popped = self.entries@;
            proof {
                assert(whole =~= popped.push(last));
                lemma_views_push(popped, last);
                assert(l1.entries.last() == last@);
                assert(l1.entries.drop_last() =~= popped.map_values(|x: Entry| x@));
            }
            let taken = last.absorb(&change, grain);
            self.entries.push(last);
            proof {
                lemma_views_push(popped, last);
            }
            if taken {
                return;
            }
            assert(self@ == l1);
        }
        let len = self.entries.len();
        let ghost before = self.entries@;
        self.entries.push(Entry::new(change, grain));
        proof {
            lemma_views_push(before, self.entries@.last());
            assert(before.push(self.entries@.last()) =~= self.entries@);
        }
        self.cursor = len + 1;
        self.open = grain != EditGrain::Solid;
        self.trim();
    }
}

impl UndoLog {
    /// Put the newest entry's bytes back, and answer with the caret of whoever
    /// typed it, put where a caret may stand. `None`, and nothing changed,
    /// when there is nothing to take back.
    pub fn undo(&mut self, content: &mut String) -> (r: Option<EditCaret>)
        requires
            log_wf(old(self)@),
            undo_fits(old(self)@, utf8(old(content)@)),
        ensures
            log_wf(final(self)@),
            old(self)@.cursor == 0 ==> r.is_none() && final(self)@ == old(self)@ && final(content)@ == old(
                content,
            )@,
            old(self)@.cursor > 0 ==> {
                let b = undone(old(self)@, utf8(old(content)@));
                &&& utf8(final(content)@) == b
                &&& r == Some(healed(undo_entry(old(self)@).before, b))
                &&& final(self)@ == undo_log(old(self)@)
            },
    {
        if self.cursor == 0 {
            return None;
        }
        let index = self.cursor - 1;
        let entry = &self.entries[index];
        proof {
            assert(self@.entries[index as int] == entry@);
        }
        let _ = byte_len(content.as_str());
        let len = byte_len(entry.inserted.as_str());
        let removed = entry.removed.as_str();
        replace_range(content, entry.at, entry.at + len, removed);
        let mut caret = entry.before;
        self.cursor = index;
        self.open = false;
        caret.heal(content.as_str());
        Some(caret)
    }

    /// Play the next entry forward again. `None`, and nothing changed, when
    /// there is nothing to redo.
    pub fn redo(&mut self, content: &mut String) -> (r: Option<EditCaret>)
        requires
            log_wf(old(self)@),
            redo_fits(old(self)@, utf8(old(content)@)),
        ensures
            log_wf(final(self)@),
            old(self)@.cursor >= old(self)@.entries.len() ==> r.is_none() && final(self)@ == old(self)@
                && final(content)@ == old(content)@,
            old(self)@.cursor < old(self)@.entries.len() ==> {
                let b = redone(old(self)@, utf8(old(content)@));
                &&& utf8(final(content)@) == b
                &&& r == Some(healed(redo_entry(old(self)@).after, b))
                &&& final(self)@ == redo_log(old(self)@)
            },
    {
        if self.cursor >= self.entries.len() {
            return None;
        }
        let index = self.cursor;
        let entry = &self.entries[index];
        proof {
            assert(self@.entries[index as int] == entry@);
        }
        let _ = byte_len(content.as_str());
        let len = byte_len(entry.removed.as_str());
        let inserted = entry.inserted.as_str();
        replace_range(content, entry.at, entry.at + len, inserted);
        let mut caret = entry.after;
        self.cursor = index + 1;
        self.open = false;
        caret.heal(content.as_str());
        Some(caret)
    }

    /// The body was written to its file here: the saved state is this
    /// position in the log.
    pub fn mark_saved(&mut self)
        requires
            log_wf(old(self)@),
        ensures
            final(self)@ == (LogView { saved: Some(old(self)@.cursor), open: false, ..old(self)@ }),
            log_wf(final(self)@),
    {
        self.saved = Some(self.cursor);
        self.open = false;
    }

    /// Forget everything: the body under this log has been replaced by the
    /// file's, so the log starts empty and clean.
    pub fn forget(&mut self)
        ensures
            final(self)@ == empty_log(),
            log_wf(final(self)@),
    {
        *self = Self::default();
    }

    /// Whether the body has moved away from the last state the disk saw.
    pub fn is_dirty(&self) -> (r: bool)
        ensures
            r == (self@.saved != Some(self@.cursor)),
    {
        match self.saved {
            Some(s) => s != self.cursor,
            None => true,
        }
    }

    /// Whether there is an entry to take back.
    pub fn can_undo(&self) -> (r: bool)
        ensures
            r == (self@.cursor > 0),
    {
        self.cursor > 0
    }

    /// Whether there is an entry to play forward again.
    pub fn can_redo(&self) -> (r: bool)
        ensures
            r == (self@.cursor < self@.entries.len()),
    {
        self.cursor < self.entries.len()
    }

    /// How many entries the log holds, redo tail included.
    pub fn depth(&self) -> (n: usize)
        ensures
            n == self@.entries.len(),
    {
        self.entries.len()
    }

    /// Close the run, the way a save or a reload does.
    pub fn seal(&mut self)
        ensures
            final(self)@ == (LogView { open: false, ..old(self)@ }),
    {
        self.open = false;
    }
}

// ── laws ────────────────────────────────────────────────────────────────────

/// Splicing `r` over `i` and then `i` back over `r` at the same place gives
/// the bytes back, when `i` was what stood there.
proof fn lemma_splice_back(b: Seq<u8>, at: int, i: Seq<u8>, r: Seq<u8>)
    requires
        0 <= at,
        at + i.len() <= b.len(),
        b.subrange(at, at + i.len()) == i,
    ensures
        spliced(spliced(b, at, at + i.len(), r), at, at + r.len(), i) == b,
{
    let nb = spliced(b, at, at + i.len(), r);
    assert(nb.subrange(0, at) =~= b.subrange(0, at));
    assert(nb.subrange(at + r.len(), nb.len() as int) =~= b.subrange(at + i.len(), b.len() as int));
    assert(b =~= b.subrange(0, at) + i + b.subrange(at + i.len(), b.len() as int));
}

/// Splicing valid text between two boundaries leaves both ends of the new text
/// on boundaries.
proof fn lemma_splice_boundaries(b: Seq<u8>, at: int, end: int, r: Seq<char>)
    requires
        0 <= at <= end <= b.len(),
        boundary(b, at),
        boundary(b, end),
    ensures
        boundary(spliced(b, at, end, utf8(r)), at),
        boundary(spliced(b, at, end, utf8(r)), at + utf8(r).len()),
{
    let rb = utf8(r);
    let nb = spliced(b, at, end, rb);
    if rb.len() > 0 {
        lemma_valid_starts_at_boundary(rb);
        assert(nb[at] == rb[0]);
    } else if end < b.len() {
        assert(nb[at] == b[end]);
    }
    if at + rb.len() < nb.len() {
        assert(nb[at + rb.len()] == b[end]);
    }
}

/// Redo undoes an undo: taking the newest entry back and playing it forward
/// again gives the body and the log back (with the run closed), whenever the
/// entry's text is what stands in the body where it says.
pub proof fn law_redo_after_undo(l: LogView, text: Seq<char>)
    requires
        log_wf(l),
        l.cursor > 0,
        undo_fits(l, utf8(text)),
        utf8(text).subrange(
            undo_entry(l).at,
            undo_entry(l).at + utf8(undo_entry(l).inserted).len(),
        ) == utf8(undo_entry(l).inserted),
    ensures
        redo_fits(undo_log(l), undone(l, utf8(text))),
        redone(undo_log(l), undone(l, utf8(text))) == utf8(text),
        redo_log(undo_log(l)) == (LogView { open: false, ..l }),
{
    let b = utf8(text);
    let e = undo_entry(l);
    let end = e.at + utf8(e.inserted).len();
    assert(redo_entry(undo_log(l)) == e);
    lemma_splice_boundaries(b, e.at, end, e.removed);
    lemma_splice_back(b, e.at, utf8(e.inserted), utf8(e.removed));
    assert(redo_log(undo_log(l)).entries =~= l.entries);
}

/// Undo undoes a redo: playing the next entry forward and taking it back again
/// gives the body and the log back (with the run closed), whenever the entry's
/// removed text is what stands in the body where it says.
pub proof fn law_undo_after_redo(l: LogView, text: Seq<char>)
    requires
        log_wf(l),
        l.cursor < l.entries.len(),
        redo_fits(l, utf8(text)),
        utf8(text).subrange(
            redo_entry(l).at,
            redo_entry(l).at + utf8(redo_entry(l).removed).len(),
        ) == utf8(redo_entry(l).removed),
    ensures
        undo_fits(redo_log(l), redone(l, utf8(text))),
        undone(redo_log(l), redone(l, utf8(text))) == utf8(text),
        undo_log(redo_log(l)) == (LogView { open: false, ..l }),
{
    let b = utf8(text);
    let e = redo_entry(l);
    let end = e.at + utf8(e.removed).len();
    assert(undo_entry(redo_log(l)) == e);
    lemma_splice_boundaries(b, e.at, end, e.inserted);
    lemma_splice_back(b, e.at, utf8(e.removed), utf8(e.inserted));
    assert(undo_log(redo_log(l)).entries =~= l.entries);
}

/// What is recorded is what one undo takes back: filing a change on a log
/// whose run is closed, then undoing on the body the change produced, gives
/// the body it was made from and the caret of the keystroke.
///
/// The premises are what [`Change::between`] promises of the change it
/// computes from the two bodies.
pub proof fn law_undo_takes_back_the_recorded_change(l: LogView, c: ChangeView, was: Seq<u8>, now: Seq<u8>)
    requires
        log_wf(l),
        !l.open,
        0 <= c.at,
        c.at + utf8(c.inserted).len() <= now.len(),
        boundary(now, c.at),
        boundary(now, c.at + utf8(c.inserted).len()),
        was == spliced(now, c.at, c.at + utf8(c.inserted).len(), utf8(c.removed)),
    ensures
        recorded(l, c).cursor > 0,
        undo_fits(recorded(l, c), now),
        undone(recorded(l, c), now) == was,
        undo_entry(recorded(l, c)).before == c.before,
{
    let r = recorded(l, c);
    let l1 = if l.cursor < l.entries.len() {
        LogView {
            entries: l.entries.take(l.cursor),
            saved: match l.saved {
                Some(s) => if s > l.cursor {
                    None
                } else {
                    Some(s)
                },
                None => None,
            },
            open: false,
            ..l
        }
    } else {
        l
    };
    let pushed = LogView {
        entries: l1.entries.push(entry_of(c, change_grain(c))),
        cursor: (l1.entries.len() + 1) as int,
        open: change_grain(c) != EditGrain::Solid,
        ..l1
    };
    assert(r == trimmed(pushed));
    assert(undo_entry(r) == entry_of(c, change_grain(c)));
}

/// The dirty bit is the log's position at the last save: saving, editing and
/// then undoing the edit is clean again, and the edit in between is dirty —
/// as long as the log has room, so that the saved position stays reachable.
pub proof fn law_undo_back_to_the_save_is_clean(l: LogView, c: ChangeView)
    requires
        log_wf(l),
        l.cursor < UNDO_DEPTH,
    ensures
        ({
            let saved = LogView { saved: Some(l.cursor), open: false, ..l };
            let edited = recorded(saved, c);
            &&& edited.saved != Some(edited.cursor)
            &&& undo_log(edited).saved == Some(undo_log(edited).cursor)
        }),
{
}


// ── a whole history ─────────────────────────────────────────────────────────

/// `now` is `was` with the text `removed` at byte `at` replaced by `inserted`,
/// both ends of the span on character boundaries in both bodies.
pub open spec fn splice_between(at: int, removed: Seq<char>, inserted: Seq<char>, was: Seq<u8>, now: Seq<u8>) -> bool {
    let r = utf8(removed);
    let i = utf8(inserted);
    &&& 0 <= at
    &&& at + r.len() <= was.len()
    &&& at + i.len() <= now.len()
    &&& boundary(was, at) && boundary(was, at + r.len())
    &&& boundary(now, at) && boundary(now, at + i.len())
    &&& was == spliced(now, at, at + i.len(), r)
    &&& now == spliced(was, at, at + r.len(), i)
}

/// A change made the body `now` out of the body `was`: what
/// [`Change::between`] promises of the change it computes.
pub open spec fn made_between(c: ChangeView, was: Seq<u8>, now: Seq<u8>) -> bool {
    splice_between(c.at, c.removed, c.inserted, was, now)
}

/// The log after each change in turn is filed on an empty one.
pub open spec fn history(cs: Seq<ChangeView>) -> LogView
    decreases cs.len(),
{
    if cs.len() == 0 {
        empty_log()
    } else {
        recorded(history(cs.drop_last()), cs.last())
    }
}

/// The first `k` entries lead, one by one, from the body `first` to the body
/// `now`: each made the body after it out of the body before it.
pub open spec fn leads_to(es: Seq<EntryView>, k: int, first: Seq<u8>, now: Seq<u8>) -> bool
    decreases k,
{
    if k <= 0 {
        now == first
    } else {
        let e = es[k - 1];
        let was = spliced(now, e.at, e.at + utf8(e.inserted).len(), utf8(e.removed));
        splice_between(e.at, e.removed, e.inserted, was, now) && leads_to(es, k - 1, first, was)
    }
}

/// `n` undos in a row from the body `b`: the body they reach, or `None` when
/// one of them on the way would not be admitted.
pub open spec fn undo_walk(l: LogView, b: Seq<u8>, n: nat) -> Option<Seq<u8>>
    decreases n,
{
    if n == 0 {
        Some(b)
    } else if l.cursor > 0 && undo_fits(l, b) {
        undo_walk(undo_log(l), undone(l, b), (n - 1) as nat)
    } else {
        None
    }
}

/// The log after `n` redos.
pub open spec fn redo_log_n(l: LogView, n: nat) -> LogView {
    if n == 0 {
        l
    } else {
        LogView { cursor: l.cursor + n, open: false, ..l }
    }
}

/// `n` redos in a row from the body `b`, likewise.
pub open spec fn redo_walk(l: LogView, b: Seq<u8>, n: nat) -> Option<Seq<u8>>
    decreases n,
{
    if n == 0 {
        Some(b)
    } else {
        match redo_walk(l, b, (n - 1) as nat) {
            None => None,
            Some(x) => {
                let m = redo_log_n(l, (n - 1) as nat);
                if m.cursor < m.entries.len() && redo_fits(m, x) {
                    Some(redone(m, x))
                } else {
                    None
                }
            },
        }
    }
}

proof fn lemma_leads_to_prefix(es: Seq<EntryView>, fs: Seq<EntryView>, k: int, first: Seq<u8>, now: Seq<u8>)
    requires
        0 <= k <= es.len(),
        k <= fs.len(),
        forall|i: int| 0 <= i < k ==> es[i] == fs[i],
    ensures
        leads_to(es, k, first, now) == leads_to(fs, k, first, now),
    decreases k,
{
    if k > 0 {
        let e = es[k - 1];
        let was = spliced(now, e.at, e.at + utf8(e.inserted).len(), utf8(e.removed));
        lemma_leads_to_prefix(es, fs, k - 1, first, was);
    }
}

/// Two insertions back to back undo as one.
proof fn lemma_joined_inserts(at: int, ie: Seq<u8>, ic: Seq<u8>, p: Seq<u8>, b1: Seq<u8>, b2: Seq<u8>)
    requires
        0 <= at <= p.len(),
        boundary(p, at),
        boundary(b1, at),
        b1 == spliced(p, at, at, ie),
        boundary(b2, at + ie.len()),
        boundary(b2, at + ie.len() + ic.len()),
        at + ie.len() <= b1.len(),
        b2 == spliced(b1, at + ie.len(), at + ie.len(), ic),
    ensures
        spliced(b2, at, at + (ie + ic).len(), Seq::<u8>::empty()) == p,
        b2 == spliced(p, at, at, ie + ic),
        boundary(b2, at),
        at + (ie + ic).len() <= b2.len(),
{
    let x = p.subrange(0, at);
    let y = p.subrange(at, p.len() as int);
    assert(b1 =~= x + ie + y);
    assert(b1.subrange(0, at + ie.len()) =~= x + ie);
    assert(b1.subrange(at + ie.len(), b1.len() as int) =~= y);
    assert(b2 =~= x + ie + ic + y);
    assert(spliced(b2, at, at + (ie + ic).len(), Seq::<u8>::empty()) =~= p);
    assert(b2 =~= spliced(p, at, at, ie + ic));
    if ie.len() > 0 {
        assert(b2[at] == b1[at]);
    }
}

/// Two deletions that meet, the later one before the earlier, undo as one.
proof fn lemma_joined_deletions(at: int, rc: Seq<u8>, re: Seq<u8>, p: Seq<u8>, b1: Seq<u8>, b2: Seq<u8>)
    requires
        0 <= at <= b2.len(),
        at + rc.len() <= b1.len(),
        at + rc.len() + re.len() <= p.len(),
        boundary(b1, at),
        boundary(p, at + rc.len()),
        boundary(p, at + rc.len() + re.len()),
        b1 == spliced(b2, at, at, rc),
        p == spliced(b1, at + rc.len(), at + rc.len(), re),
    ensures
        spliced(b2, at, at, rc + re) == p,
        b2 == spliced(p, at, at + (rc + re).len(), Seq::<u8>::empty()),
        boundary(p, at),
        boundary(p, at + (rc + re).len()),
{
    let x = b2.subrange(0, at);
    let z = b2.subrange(at, b2.len() as int);
    assert(b1 =~= x + rc + z);
    assert(b1.subrange(0, at + rc.len()) =~= x + rc);
    assert(b1.subrange(at + rc.len(), b1.len() as int) =~= z);
    assert(p =~= x + rc + re + z);
    assert(spliced(b2, at, at, rc + re) =~= p);
    assert(b2 =~= spliced(p, at, at + (rc + re).len(), Seq::<u8>::empty()));
    if rc.len() > 0 {
        assert(p[at] == b1[at]);
    }
}

/// A keystroke taken into the entry before it undoes as the two did one after
/// the other.
proof fn lemma_absorbed_leads(e: EntryView, c: ChangeView, p: Seq<u8>, b1: Seq<u8>, b2: Seq<u8>)
    requires
        splice_between(e.at, e.removed, e.inserted, p, b1),
        made_between(c, b1, b2),
        absorbed(e, c, change_grain(c)).is_some(),
    ensures
        ({
            let m = absorbed(e, c, change_grain(c)).unwrap();
            &&& spliced(b2, m.at, m.at + utf8(m.inserted).len(), utf8(m.removed)) == p
            &&& splice_between(m.at, m.removed, m.inserted, p, b2)
        }),
{
    let g = change_grain(c);
    let m = absorbed(e, c, g).unwrap();
    crate::utf8_text::lemma_utf8_empty(e.inserted);
    crate::utf8_text::lemma_utf8_empty(e.removed);
    crate::utf8_text::lemma_utf8_empty(c.inserted);
    crate::utf8_text::lemma_utf8_empty(c.removed);
    assert(utf8(Seq::<char>::empty()) =~= Seq::<u8>::empty());
    match g {
        EditGrain::Insert => {
            lemma_utf8_concat(e.inserted, c.inserted);
            assert(utf8(e.removed) =~= Seq::<u8>::empty());
            assert(utf8(c.removed) =~= Seq::<u8>::empty());
            lemma_joined_inserts(e.at, utf8(e.inserted), utf8(c.inserted), p, b1, b2);
        },
        EditGrain::DeleteBack => {
            lemma_utf8_concat(c.removed, e.removed);
            assert(utf8(e.inserted) =~= Seq::<u8>::empty());
            assert(utf8(c.inserted) =~= Seq::<u8>::empty());
            lemma_joined_deletions(c.at, utf8(c.removed), utf8(e.removed), p, b1, b2);
        },
        EditGrain::DeleteForward => {
            lemma_utf8_concat(e.removed, c.removed);
            assert(utf8(e.inserted) =~= Seq::<u8>::empty());
            assert(utf8(c.inserted) =~= Seq::<u8>::empty());
            lemma_joined_forward(e.at, utf8(e.removed), utf8(c.removed), p, b1, b2);
        },
        EditGrain::Solid => {},
    }
}

/// Two forward deletions at one place undo as one.
proof fn lemma_joined_forward(at: int, re: Seq<u8>, rc: Seq<u8>, p: Seq<u8>, b1: Seq<u8>, b2: Seq<u8>)
    requires
        0 <= at <= b2.len(),
        at + rc.len() <= b1.len(),
        at + re.len() <= p.len(),
        boundary(p, at),
        boundary(b1, at + rc.len()),
        b1 == spliced(b2, at, at, rc),
        p == spliced(b1, at, at, re),
    ensures
        spliced(b2, at, at, re + rc) == p,
        b2 == spliced(p, at, at + (re + rc).len(), Seq::<u8>::empty()),
        boundary(p, at + (re + rc).len()),
        at + (re + rc).len() <= p.len(),
{
    let x = b2.subrange(0, at);
    let z = b2.subrange(at, b2.len() as int);
    assert(b1 =~= x + rc + z);
    assert(b1.subrange(0, at) =~= x);
    assert(b1.subrange(at, b1.len() as int) =~= rc + z);
    assert(p =~= x + re + rc + z);
    assert(spliced(b2, at, at, re + rc) =~= p);
    assert(b2 =~= spliced(p, at, at + (re + rc).len(), Seq::<u8>::empty()));
    if at + re.len() + rc.len() < p.len() {
        assert(p[at + re.len() + rc.len()] == b1[at + rc.len()]);
    }
}

/// Filing a history keeps the whole of it as a road back: every change, run
/// into its entry, leads from the first body to the last.
proof fn lemma_history(cs: Seq<ChangeView>, bs: Seq<Seq<u8>>)
    requires
        bs.len() == cs.len() + 1,
        cs.len() <= UNDO_DEPTH,
        forall|i: int| 0 <= i < cs.len() ==> made_between(#[trigger] cs[i], bs[i], bs[i + 1]),
    ensures
        log_wf(history(cs)),
        history(cs).cursor == history(cs).entries.len(),
        history(cs).entries.len() <= cs.len(),
        leads_to(history(cs).entries, history(cs).cursor, bs[0], bs.last()),
        cs.len() > 0 ==> history(cs).entries.len() > 0 && history(cs).entries.last().after == cs.last().after,
    decreases cs.len(),
{
    if cs.len() == 0 {
        return;
    }
    let n = cs.len() - 1;
    let cs1 = cs.drop_last();
    let bs1 = bs.drop_last();
    assert forall|i: int| 0 <= i < cs1.len() implies made_between(#[trigger] cs1[i], bs1[i], bs1[i + 1]) by {
        assert(cs1[i] == cs[i]);
        assert(made_between(cs[i], bs[i], bs[i + 1]));
    }
    lemma_history(cs1, bs1);
    let l = history(cs1);
    let c = cs.last();
    assert(c == cs[n]);
    assert(made_between(cs[n], bs[n], bs[n + 1]));
    let b1 = bs[n];
    let b2 = bs.last();
    assert(bs1.last() == b1);
    assert(bs1[0] == bs[0]);
    let g = change_grain(c);
    let k = l.entries.len() as int;
    if l.open && g != EditGrain::Solid && l.entries.len() > 0 && absorbed(l.entries.last(), c, g).is_some() {
        let e = l.entries.last();
        assert(e == l.entries[k - 1]);
        let p = spliced(b1, e.at, e.at + utf8(e.inserted).len(), utf8(e.removed));
        lemma_absorbed_leads(e, c, p, b1, b2);
        let m = absorbed(e, c, g).unwrap();
        let es2 = l.entries.drop_last().push(m);
        assert(history(cs).entries == es2);
        lemma_leads_to_prefix(l.entries, es2, k - 1, bs[0], p);
        assert(es2[k - 1] == m);
    } else {
        let e = entry_of(c, g);
        let es2 = l.entries.push(e);
        assert(history(cs).entries == es2);
        lemma_leads_to_prefix(l.entries, es2, k, bs[0], b1);
        assert(es2[k] == e);
    }
}

proof fn lemma_undo_walk(l: LogView, first: Seq<u8>, now: Seq<u8>)
    requires
        log_wf(l),
        leads_to(l.entries, l.cursor, first, now),
    ensures
        undo_walk(l, now, l.cursor as nat) == Some(first),
    decreases l.cursor,
{
    if l.cursor > 0 {
        let e = undo_entry(l);
        let was = spliced(now, e.at, e.at + utf8(e.inserted).len(), utf8(e.removed));
        assert(undo_fits(l, now));
        lemma_undo_walk(undo_log(l), first, was);
    }
}

proof fn lemma_redo_walk(l: LogView, k: int, first: Seq<u8>, now: Seq<u8>)
    requires
        l.cursor == 0,
        0 <= k <= l.entries.len(),
        leads_to(l.entries, k, first, now),
    ensures
        redo_walk(l, first, k as nat) == Some(now),
    decreases k,
{
    if k > 0 {
        let e = l.entries[k - 1];
        let was = spliced(now, e.at, e.at + utf8(e.inserted).len(), utf8(e.removed));
        lemma_redo_walk(l, k - 1, first, was);
        let m = redo_log_n(l, (k - 1) as nat);
        assert(m.cursor == k - 1);
        assert(redo_entry(m) == e);
        assert(redo_fits(m, was));
        assert(redone(m, was) == now);
    }
}

/// A whole edit session runs back and forth through its log: file each change
/// of the session, in order, on an empty log (no more of them than the log
/// keeps), and as many undos as the log then holds, every one of them
/// admitted, lead from the last body back to the first; from there, as many
/// redos, every one admitted, lead to the last body again. The newest entry
/// ends at the last keystroke's caret, which is the caret the last redo
/// answers with.
pub proof fn law_a_whole_history_runs_back_and_forth(cs: Seq<ChangeView>, bodies: Seq<Seq<u8>>)
    requires
        bodies.len() == cs.len() + 1,
        cs.len() <= UNDO_DEPTH,
        forall|i: int| 0 <= i < cs.len() ==> made_between(#[trigger] cs[i], bodies[i], bodies[i + 1]),
    ensures
        ({
            let l = history(cs);
            &&& log_wf(l)
            &&& l.cursor == l.entries.len()
            &&& undo_walk(l, bodies.last(), l.cursor as nat) == Some(bodies[0])
            &&& redo_walk(LogView { cursor: 0, open: false, ..l }, bodies[0], l.cursor as nat) == Some(
                bodies.last(),
            )
            &&& cs.len() > 0 ==> l.entries.len() > 0 && l.entries.last().after == cs.last().after
        }),
{
    lemma_history(cs, bodies);
    let l = history(cs);
    lemma_undo_walk(l, bodies[0], bodies.last());
    let z = LogView { cursor: 0, open: false, ..l };
    lemma_redo_walk(z, l.cursor, bodies[0], bodies.last());
}

} // verus!
