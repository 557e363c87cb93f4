//! A gesture on a rendered page is answered when it ends, not when it begins.
//!
//! A press on a rendered page records what it would do and does nothing; the
//! release spends the record. A press names one of two things ([`Pressed`]),
//! and the release turns that and the shape of the gesture into one answer
//! ([`Spend`]). One press is answered where it stands: a caret moving inside
//! the source the page is already drawing changes no face, and
//! [`keeps_the_span`] is that question.
use std::ops::Range;
use vstd::prelude::*;
use crate::preview_live::{caret_seat, ranges_ordered, seat_of, CaretSeat};
use crate::preview_select::Grain;
use crate::utf8_text::utf8;

verus! {

/// Whether a press may be answered where it stands: the byte it named is in
/// the source the page is already drawing.
///
/// `caret` is the caret the page is drawing from — `None` for a page nobody
/// has entered, which keeps nothing. `drawn` lists the blocks the page draws
/// as source. A byte in one of those keeps the span; a byte in a gap keeps it
/// only when the caret is already in that same gap.
pub open spec fn keeps_the_span_spec(
    b: Seq<u8>,
    r: Seq<Range<usize>>,
    drawn: Option<Seq<usize>>,
    caret: Option<usize>,
    offset: int,
) -> bool {
    match caret {
        None => false,
        Some(c) => match seat_of(b, r, offset) {
            CaretSeat::Block(index) => match drawn {
                Some(d) => d.contains(index),
                None => false,
            },
            CaretSeat::Gap { .. } => seat_of(b, r, offset) == seat_of(b, r, c as int),
        },
    }
}

/// Whether a press may be answered where it stands.
///
/// `drawn` is the list of blocks the standing span draws as source (a table
/// it only sweeps is rendered, and is not in it).
pub fn keeps_the_span(
    content: &str,
    ranges: &[Range<usize>],
    drawn: Option<&[usize]>,
    caret: Option<usize>,
    offset: usize,
) -> (r: bool)
    requires
        ranges_ordered(ranges@),
    ensures
        r == keeps_the_span_spec(
            utf8(content@),
            ranges@,
            match drawn {
                Some(d) => Some(d@),
                None => None,
            },
            caret,
            offset as int,
        ),
{
    let caret = match caret {
        Some(c) => c,
        None => return false,
    };
    match caret_seat(content, ranges, offset) {
        CaretSeat::Block(index) => match drawn {
            Some(d) => lists(d, index),
            None => false,
        },
        gap => gap == caret_seat(content, ranges, caret),
    }
}

/// With nothing selected, the span rule is the seat rule: when the page draws,
/// for a caret with nothing selected, exactly the caret's own block (and no
/// block while the caret stands in a gap), a press keeps the span exactly
/// when it lands in the caret's own seat. A page nobody has entered keeps
/// nothing.
pub proof fn law_a_collapsed_caret_keeps_exactly_its_own_seat(
    b: Seq<u8>,
    r: Seq<Range<usize>>,
    drawn: Option<Seq<usize>>,
    caret: usize,
    offset: int,
)
    requires
        forall|i: usize|
            (match drawn {
                Some(d) => d.contains(i),
                None => false,
            }) <==> seat_of(b, r, caret as int) == CaretSeat::Block(i),
    ensures
        keeps_the_span_spec(b, r, drawn, Some(caret), offset) == (seat_of(b, r, offset) == seat_of(
            b,
            r,
            caret as int,
        )),
        !keeps_the_span_spec(b, r, drawn, None, offset),
{
    match seat_of(b, r, offset) {
        CaretSeat::Block(i) => {
            assert((match drawn {
                Some(d) => d.contains(i),
                None => false,
            }) <==> seat_of(b, r, caret as int) == CaretSeat::Block(i));
        },
        CaretSeat::Gap { .. } => {},
    }
}

/// Whether `x` is in the list.
fn lists(d: &[usize], x: usize) -> (r: bool)
    ensures
        r == d@.contains(x),
{
    let mut k: usize = 0;
    while k < d.len()
        invariant
            0 <= k <= d@.len(),
            forall|j: int| 0 <= j < k ==> d@[j] != x,
        decreases d@.len() - k,
    {
        if d[k] == x {
            assert(d@[k as int] == x);
            return true;
        }
        k = k + 1;
    }
    false
}

/// The span a page draws while a gesture may be in flight: the one it was
/// drawing when the button went down (`standing`) while a gesture is in
/// flight, and otherwise what the caret and its selection draw now.
///
/// `fresh` is only asked when nothing is in flight.
pub fn held_span<T: Clone, F: FnOnce() -> Option<T>>(in_flight: bool, standing: Option<&T>, fresh: F) -> (r:
    Option<T>)
    requires
        !in_flight ==> fresh.requires(()),
    ensures
        in_flight ==> match standing {
            Some(s) => r is Some && cloned::<T>(*s, r->0),
            None => r is None,
        },
        !in_flight ==> fresh.ensures((), r),
{
    if in_flight {
        match standing {
            Some(s) => Some(s.clone()),
            None => None,
        }
    } else {
        fresh()
    }
}

/// What a press on a rendered page named, kept until the gesture it began
/// has ended.
#[derive(Clone, Copy, Debug, PartialEq, Eq, Structural)]
pub enum Pressed {
    /// The byte of the file the pointer named, the grain a repeated press asks
    /// for, and whether the gesture extends what is already standing.
    Byte { offset: usize, grain: Grain, extend: bool },
    /// No byte at all: the page's empty ground.
    Ground,
}

/// What the release does with the record.
#[derive(Clone, Copy, Debug, PartialEq, Eq, Structural)]
pub enum Spend {
    /// Put the caret in the page: at `offset`, grown to `grain`, keeping the
    /// standing anchor when `extend`, then drawn out to `head` when the hand
    /// travelled before it let go.
    Caret { offset: usize, grain: Grain, extend: bool, head: Option<usize> },
    /// Take the caret out of the page and draw every block rendered again.
    Ground,
}

impl Pressed {
    /// A press that named a byte. A shift-press is an extension and takes
    /// single characters whatever the repeat count asked for.
    pub fn byte(offset: usize, grain: Grain, extend: bool) -> (p: Self)
        ensures
            p == (Pressed::Byte {
                offset,
                grain: if extend {
                    Grain::Character
                } else {
                    grain
                },
                extend,
            }),
    {
        Pressed::Byte {
            offset,
            grain: if extend {
                Grain::Character
            } else {
                grain
            },
            extend,
        }
    }

    /// The record, spent.
    ///
    /// A press that held still is a click and spends no head — which keeps a
    /// double click's word from being collapsed by the release landing a byte
    /// away; a press that travelled spends the head it reached.
    pub fn spend(self, travelled: bool, head: Option<usize>) -> (s: Spend)
        ensures
            s == (match self {
                Pressed::Byte { offset, grain, extend } => Spend::Caret {
                    offset,
                    grain,
                    extend,
                    head: if travelled {
                        head
                    } else {
                        None
                    },
                },
                Pressed::Ground => Spend::Ground,
            }),
    {
        match self {
            Pressed::Byte { offset, grain, extend } => Spend::Caret {
                offset,
                grain,
                extend,
                head: if travelled {
                    head
                } else {
                    None
                },
            },
            Pressed::Ground => Spend::Ground,
        }
    }
}

} // verus!
