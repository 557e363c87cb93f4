//! The lines of the preview trace: what one markdown document cost to build,
//! what one re-flow cost and why it ran, and which picture a page asked the
//! disk for.
//!
//! Every line is a fixed station name followed by `field=value` pairs, and
//! every value is a decimal number or a short name, so a line is a function of
//! the record it reports. Durations are carried in nanoseconds, and a line
//! prints whole microseconds, the total taken from the exact sum.
use vstd::prelude::*;
use crate::preview_select::{decimal, digit};
use crate::utf8_text::{push_str, str_eq, utf8};

verus! {

/// Which part of a document's key moved, when the parse did not — the `why=`
/// of a `reflow` line.
///
/// Four names for the four halves of the key a re-flow can come from, and
/// `frame` when none of them moved and the wrap frame alone did.
#[derive(Clone, Copy, Debug, Default, Eq, PartialEq, Structural)]
pub struct ReflowCause {
    /// Another block is drawn as source — the caret crossed into it.
    pub source: bool,
    /// The pane's width or the window's scale.
    pub width: bool,
    /// A formula or a picture landed, the ink or the theme changed, or the
    /// reader scrolled into another band of pictures.
    pub art: bool,
    /// The installed fonts changed.
    pub font: bool,
}

/// The face the blocks now drawn as source wear, for a `reflow` line.
#[derive(Clone, Copy, Debug, Eq, PartialEq, Structural)]
pub enum SourceFace {
    /// A fence, a table, a formula, a rule or a picture: the monospace fold.
    Mono,
    /// A heading, a paragraph, a list or a quote: the body face.
    Prose,
    /// Some of each — a selection across a paragraph and a fence.
    Mixed,
}

/// The face a list of faces folds to: the one they all share, `Mixed` when
/// two differ, and nothing for an empty list.
pub open spec fn face_of(faces: Seq<SourceFace>) -> Option<SourceFace> {
    if faces.len() == 0 {
        None
    } else if forall|i: int| 0 <= i < faces.len() ==> #[trigger] faces[i] == faces[0] {
        Some(faces[0])
    } else {
        Some(SourceFace::Mixed)
    }
}

impl SourceFace {
    /// The face a set of source blocks wears, from each block's own; `None`
    /// for an empty set.
    pub fn of(faces: &[SourceFace]) -> (face: Option<SourceFace>)
        ensures
            face == face_of(faces@),
    {
        if faces.len() == 0 {
            return None;
        }
        let mut face = faces[0];
        let mut i: usize = 1;
        while i < faces.len()
            invariant
                1 <= i <= faces@.len(),
                face == if forall|k: int| 0 <= k < i ==> #[trigger] faces@[k] == faces@[0] {
                    faces@[0]
                } else {
                    SourceFace::Mixed
                },
            decreases faces@.len() - i,
        {
            let next = faces[i];
            if face != next {
                face = SourceFace::Mixed;
            }
            proof {
                if forall|k: int| 0 <= k < i + 1 ==> #[trigger] faces@[k] == faces@[0] {
                    assert(forall|k: int| 0 <= k < i ==> #[trigger] faces@[k] == faces@[0]);
                    assert(faces@[i as int] == faces@[0]);
                } else if forall|k: int| 0 <= k < i ==> #[trigger] faces@[k] == faces@[0] {
                    let k = choose|k: int| 0 <= k < i + 1 && #[trigger] faces@[k] != faces@[0];
                    assert(k == i);
                }
            }
            i = i + 1;
        }
        Some(face)
    }
}

/// What one markdown document cost to build: its size, which block was drawn
/// as source, the two counters of the intrinsic cache, and how long the
/// parse, the intrinsics and the layout took, in nanoseconds.
#[derive(Clone, Copy, Debug)]
pub struct DocumentBuild {
    pub bytes: usize,
    pub blocks: usize,
    /// Which block was drawn as source, if any.
    pub source: Option<usize>,
    pub hits: u64,
    pub misses: u64,
    pub parse: u128,
    pub intrinsic: u128,
    pub layout: u128,
}

/// What one re-flow cost: the document, what asked for it, the first block
/// drawn as source before and after, how many blocks were drawn as source
/// before and after, the face they wear, how many blocks were measured, and
/// the four passes' time in nanoseconds.
#[derive(Clone, Copy, Debug)]
pub struct ReflowBuild {
    pub bytes: usize,
    pub blocks: usize,
    pub cause: ReflowCause,
    pub source: (Option<usize>, Option<usize>),
    pub set: (usize, usize),
    pub face: Option<SourceFace>,
    pub realized: usize,
    pub math: u128,
    pub pictures: u128,
    pub reconcile: u128,
    pub realize: u128,
}

/// The longest time a `Duration` holds, in nanoseconds.
pub open spec fn longest_duration() -> int {
    18_446_744_073_709_551_615int * 1_000_000_000 + 999_999_999
}

/// Whole microseconds in a number of nanoseconds.
pub open spec fn micros(nanos: int) -> nat {
    (nanos / 1000) as nat
}

/// A block index, or `none`.
pub open spec fn index_text(at: Option<usize>) -> Seq<u8> {
    match at {
        Some(i) => decimal(i as nat),
        None => utf8("none"@),
    }
}

/// The names of the parts that moved, joined by `+`.
pub open spec fn joined(names: Seq<Seq<u8>>) -> Seq<u8>
    decreases names.len(),
{
    if names.len() == 0 {
        Seq::empty()
    } else if names.len() == 1 {
        names[0]
    } else {
        joined(names.drop_last()) + utf8("+"@) + names.last()
    }
}

/// The names of the parts of the key that moved, in order.
pub open spec fn moved_parts(c: ReflowCause) -> Seq<Seq<u8>> {
    (if c.source {
        seq![utf8("source"@)]
    } else {
        Seq::empty()
    }) + (if c.width {
        seq![utf8("width"@)]
    } else {
        Seq::empty()
    }) + (if c.art {
        seq![utf8("art"@)]
    } else {
        Seq::empty()
    }) + (if c.font {
        seq![utf8("font"@)]
    } else {
        Seq::empty()
    })
}

/// The `why=` of a re-flow: the parts that moved, or `frame` when none did.
pub open spec fn cause_names(c: ReflowCause) -> Seq<u8> {
    if moved_parts(c).len() == 0 {
        utf8("frame"@)
    } else {
        joined(moved_parts(c))
    }
}

/// The name of a face, or `none`.
pub open spec fn face_text(face: Option<SourceFace>) -> Seq<u8> {
    match face {
        Some(SourceFace::Mono) => utf8("mono"@),
        Some(SourceFace::Prose) => utf8("prose"@),
        Some(SourceFace::Mixed) => utf8("mixed"@),
        None => utf8("none"@),
    }
}

/// `document bytes=<n> blocks=<n> source=<index|none> parse_us=<n>
/// intrinsic_us=<n> layout_us=<n> total_us=<n> hits=<n> misses=<n>`
pub open spec fn document_line(b: DocumentBuild) -> Seq<u8> {
    utf8("document bytes="@) + decimal(b.bytes as nat) + utf8(" blocks="@) + decimal(b.blocks as nat)
        + utf8(" source="@) + index_text(b.source) + utf8(" parse_us="@) + decimal(micros(b.parse as int))
        + utf8(" intrinsic_us="@) + decimal(micros(b.intrinsic as int)) + utf8(" layout_us="@)
        + decimal(micros(b.layout as int)) + utf8(" total_us="@) + decimal(
        micros(b.parse + b.intrinsic + b.layout),
    ) + utf8(" hits="@) + decimal(b.hits as nat) + utf8(" misses="@) + decimal(b.misses as nat)
}

/// `reflow bytes=<n> blocks=<n> why=<…> source=<a>-><b> set=<n>-><n>
/// face=<mono|prose|mixed|none> realized=<n> math_us=<n> pictures_us=<n>
/// reconcile_us=<n> realize_us=<n> total_us=<n>`
pub open spec fn reflow_line(b: ReflowBuild) -> Seq<u8> {
    utf8("reflow bytes="@) + decimal(b.bytes as nat) + utf8(" blocks="@) + decimal(b.blocks as nat)
        + utf8(" why="@) + cause_names(b.cause) + utf8(" source="@) + index_text(b.source.0) + utf8(
        "->"@,
    ) + index_text(b.source.1) + utf8(" set="@) + decimal(b.set.0 as nat) + utf8("->"@) + decimal(
        b.set.1 as nat,
    ) + utf8(" face="@) + face_text(b.face) + utf8(" realized="@) + decimal(b.realized as nat)
        + utf8(" math_us="@) + decimal(micros(b.math as int)) + utf8(" pictures_us="@) + decimal(
        micros(b.pictures as int),
    ) + utf8(" reconcile_us="@) + decimal(micros(b.reconcile as int)) + utf8(" realize_us="@)
        + decimal(micros(b.realize as int)) + utf8(" total_us="@) + decimal(
        micros(b.math + b.pictures + b.reconcile + b.realize),
    )
}

/// `n` in decimal.
fn wide_decimal(n: u128) -> (s: String)
    ensures
        utf8(s@) == decimal(n as nat),
    decreases n,
{
    if n < 10 {
        String::from_str(digit(n as u64))
    } else {
        let mut s = wide_decimal(n / 10);
        push_str(&mut s, digit((n % 10) as u64));
        s
    }
}

/// Append a block index, or `none`.
fn push_index(out: &mut String, at: Option<usize>)
    ensures
        utf8(final(out)@) == utf8(old(out)@) + index_text(at),
{
    match at {
        Some(i) => {
            let digits = wide_decimal(i as u128);
            push_str(out, digits.as_str());
        },
        None => push_str(out, "none"),
    }
}

/// Append a number.
fn push_number(out: &mut String, n: u128)
    ensures
        utf8(final(out)@) == utf8(old(out)@) + decimal(n as nat),
{
    let digits = wide_decimal(n);
    push_str(out, digits.as_str());
}

/// Append one more name to a `+`-joined list of names.
fn add_part(out: &mut String, any: bool, word: &str, names: Ghost<Seq<Seq<u8>>>)
    requires
        utf8(old(out)@) == joined(names@),
        any == (names@.len() > 0),
    ensures
        utf8(final(out)@) == joined(names@.push(utf8(word@))),
{
    proof {
        assert(names@.push(utf8(word@)).drop_last() =~= names@);
    }
    if any {
        push_str(out, "+");
    }
    push_str(out, word);
}

impl ReflowCause {
    /// The `why=` of a re-flow line.
    fn names(self) -> (r: String)
        ensures
            utf8(r@) == cause_names(self),
    {
        let mut out = String::new();
        let mut any = false;
        let ghost mut names: Seq<Seq<u8>> = Seq::empty();
        proof {
            assert(utf8(out@) =~= Seq::<u8>::empty());
        }
        if self.source {
            add_part(&mut out, any, "source", Ghost(names));
            proof {
                names = names.push(utf8("source"@));
            }
            any = true;
        }
        proof {
            assert(names =~= (if self.source {
                seq![utf8("source"@)]
            } else {
                Seq::empty()
            }));
        }
        let ghost one = names;
        if self.width {
            add_part(&mut out, any, "width", Ghost(names));
            proof {
                names = names.push(utf8("width"@));
            }
            any = true;
        }
        proof {
            assert(names =~= one + (if self.width {
                seq![utf8("width"@)]
            } else {
                Seq::empty()
            }));
        }
        let ghost two = names;
        if self.art {
            add_part(&mut out, any, "art", Ghost(names));
            proof {
                names = names.push(utf8("art"@));
            }
            any = true;
        }
        proof {
            assert(names =~= two + (if self.art {
                seq![utf8("art"@)]
            } else {
                Seq::empty()
            }));
        }
        let ghost three = names;
        if self.font {
            add_part(&mut out, any, "font", Ghost(names));
            proof {
                names = names.push(utf8("font"@));
            }
            any = true;
        }
        proof {
            assert(names =~= three + (if self.font {
                seq![utf8("font"@)]
            } else {
                Seq::empty()
            }));
            assert(names == moved_parts(self));
        }
        if !any {
            out = String::from_str("frame");
        }
        out
    }
}

/// The name of a face, or `none`.
fn face_name(face: Option<SourceFace>) -> (r: &'static str)
    ensures
        utf8(r@) == face_text(face),
{
    match face {
        Some(SourceFace::Mono) => "mono",
        Some(SourceFace::Prose) => "prose",
        Some(SourceFace::Mixed) => "mixed",
        None => "none",
    }
}

/// The `document` line of a build.
///
/// The three durations add up to the total as `Duration`s do, so their sum
/// must be one.
pub fn document(build: &DocumentBuild) -> (line: String)
    requires
        build.parse + build.intrinsic + build.layout <= longest_duration(),
    ensures
        utf8(line@) == document_line(*build),
{
    let mut out = String::from_str("document bytes=");
    push_number(&mut out, build.bytes as u128);
    push_str(&mut out, " blocks=");
    push_number(&mut out, build.blocks as u128);
    push_str(&mut out, " source=");
    push_index(&mut out, build.source);
    push_str(&mut out, " parse_us=");
    push_number(&mut out, build.parse / 1000);
    push_str(&mut out, " intrinsic_us=");
    push_number(&mut out, build.intrinsic / 1000);
    push_str(&mut out, " layout_us=");
    push_number(&mut out, build.layout / 1000);
    push_str(&mut out, " total_us=");
    push_number(&mut out, (build.parse + build.intrinsic + build.layout) / 1000);
    push_str(&mut out, " hits=");
    push_number(&mut out, build.hits as u128);
    push_str(&mut out, " misses=");
    push_number(&mut out, build.misses as u128);
    out
}

/// The `reflow` line of a re-flow.
///
/// The four durations add up to the total as `Duration`s do, so their sum
/// must be one.
pub fn reflow(build: &ReflowBuild) -> (line: String)
    requires
        build.math + build.pictures + build.reconcile + build.realize <= longest_duration(),
    ensures
        utf8(line@) == reflow_line(*build),
{
    let mut out = String::from_str("reflow bytes=");
    push_number(&mut out, build.bytes as u128);
    push_str(&mut out, " blocks=");
    push_number(&mut out, build.blocks as u128);
    push_str(&mut out, " why=");
    let why = build.cause.names();
    push_str(&mut out, why.as_str());
    push_str(&mut out, " source=");
    push_index(&mut out, build.source.0);
    push_str(&mut out, "->");
    push_index(&mut out, build.source.1);
    push_str(&mut out, " set=");
    push_number(&mut out, build.set.0 as u128);
    push_str(&mut out, "->");
    push_number(&mut out, build.set.1 as u128);
    push_str(&mut out, " face=");
    push_str(&mut out, face_name(build.face));
    push_str(&mut out, " realized=");
    push_number(&mut out, build.realized as u128);
    push_str(&mut out, " math_us=");
    push_number(&mut out, build.math / 1000);
    push_str(&mut out, " pictures_us=");
    push_number(&mut out, build.pictures / 1000);
    push_str(&mut out, " reconcile_us=");
    push_number(&mut out, build.reconcile / 1000);
    push_str(&mut out, " realize_us=");
    push_number(&mut out, build.realize / 1000);
    push_str(&mut out, " total_us=");
    push_number(&mut out, (build.math + build.pictures + build.reconcile + build.realize) / 1000);
    out
}

/// `picture read=<file>` — one line per decode a window asks the disk for on
/// behalf of a page.
pub fn picture_read(file: &str) -> (line: String)
    ensures
        line@ == "picture read="@ + file@,
{
    let mut out = String::from_str("picture read=");
    push_str(&mut out, file);
    out
}

// ── the frame station ───────────────────────────────────────────────────────

/// What the renderer did with every preview body it holds in one frame: the
/// counts of bodies, paragraphs, quads and drawn glyph runs, whether its text
/// was prepared, the same for the layers, and the names of what it refused,
/// as the renderer spells them.
#[derive(Clone, Debug, Default, PartialEq, Eq)]
pub struct PreviewTextFrame {
    pub bodies: usize,
    pub paragraphs: usize,
    pub quads: usize,
    pub drawn: usize,
    pub prepared: bool,
    pub layers: usize,
    pub layer_bodies: usize,
    pub layer_labels: usize,
    pub layer_paragraphs: usize,
    pub layer_drawn: usize,
    pub layer_prepared: bool,
    pub refused: String,
}

/// A frame as a value.
pub struct FrameView {
    pub bodies: usize,
    pub paragraphs: usize,
    pub quads: usize,
    pub drawn: usize,
    pub prepared: bool,
    pub layers: usize,
    pub layer_bodies: usize,
    pub layer_labels: usize,
    pub layer_paragraphs: usize,
    pub layer_drawn: usize,
    pub layer_prepared: bool,
    pub refused: Seq<char>,
}

impl View for PreviewTextFrame {
    type V = FrameView;

    open spec fn view(&self) -> FrameView {
        FrameView {
            bodies: self.bodies,
            paragraphs: self.paragraphs,
            quads: self.quads,
            drawn: self.drawn,
            prepared: self.prepared,
            layers: self.layers,
            layer_bodies: self.layer_bodies,
            layer_labels: self.layer_labels,
            layer_paragraphs: self.layer_paragraphs,
            layer_drawn: self.layer_drawn,
            layer_prepared: self.layer_prepared,
            refused: self.refused@,
        }
    }
}

/// `0` or `1`.
pub open spec fn flag_text(b: bool) -> Seq<u8> {
    if b {
        utf8("1"@)
    } else {
        utf8("0"@)
    }
}

/// `frame bodies=<n> paragraphs=<n> quads=<n> drawn=<n> prepared=<0|1>
/// layers=<n> layer_bodies=<n> layer_labels=<n> layer_paragraphs=<n>
/// layer_drawn=<n> layer_prepared=<0|1> refused=<names>`
pub open spec fn frame_line(f: FrameView) -> Seq<u8> {
    utf8("frame bodies="@) + decimal(f.bodies as nat) + utf8(" paragraphs="@) + decimal(f.paragraphs as nat)
        + utf8(" quads="@) + decimal(f.quads as nat) + utf8(" drawn="@) + decimal(f.drawn as nat) + utf8(
        " prepared="@,
    ) + flag_text(f.prepared) + utf8(" layers="@) + decimal(f.layers as nat) + utf8(" layer_bodies="@)
        + decimal(f.layer_bodies as nat) + utf8(" layer_labels="@) + decimal(f.layer_labels as nat) + utf8(
        " layer_paragraphs="@,
    ) + decimal(f.layer_paragraphs as nat) + utf8(" layer_drawn="@) + decimal(f.layer_drawn as nat) + utf8(
        " layer_prepared="@,
    ) + flag_text(f.layer_prepared) + utf8(" refused="@) + utf8(f.refused)
}

fn flag_name(b: bool) -> (r: &'static str)
    ensures
        utf8(r@) == flag_text(b),
{
    if b {
        "1"
    } else {
        "0"
    }
}

/// The `frame` line of a frame.
pub fn frame(f: &PreviewTextFrame) -> (line: String)
    ensures
        utf8(line@) == frame_line(f@),
{
    let mut out = String::from_str("frame bodies=");
    push_number(&mut out, f.bodies as u128);
    push_str(&mut out, " paragraphs=");
    push_number(&mut out, f.paragraphs as u128);
    push_str(&mut out, " quads=");
    push_number(&mut out, f.quads as u128);
    push_str(&mut out, " drawn=");
    push_number(&mut out, f.drawn as u128);
    push_str(&mut out, " prepared=");
    push_str(&mut out, flag_name(f.prepared));
    push_str(&mut out, " layers=");
    push_number(&mut out, f.layers as u128);
    push_str(&mut out, " layer_bodies=");
    push_number(&mut out, f.layer_bodies as u128);
    push_str(&mut out, " layer_labels=");
    push_number(&mut out, f.layer_labels as u128);
    push_str(&mut out, " layer_paragraphs=");
    push_number(&mut out, f.layer_paragraphs as u128);
    push_str(&mut out, " layer_drawn=");
    push_number(&mut out, f.layer_drawn as u128);
    push_str(&mut out, " layer_prepared=");
    push_str(&mut out, flag_name(f.layer_prepared));
    push_str(&mut out, " refused=");
    push_str(&mut out, f.refused.as_str());
    out
}

/// Whether two frames say the same thing.
fn same_frame(a: &PreviewTextFrame, b: &PreviewTextFrame) -> (r: bool)
    ensures
        r == (a@ == b@),
{
    a.bodies == b.bodies && a.paragraphs == b.paragraphs && a.quads == b.quads && a.drawn == b.drawn
        && a.prepared == b.prepared && a.layers == b.layers && a.layer_bodies == b.layer_bodies
        && a.layer_labels == b.layer_labels && a.layer_paragraphs == b.layer_paragraphs && a.layer_drawn
        == b.layer_drawn && a.layer_prepared == b.layer_prepared && str_eq(a.refused.as_str(), b.refused.as_str())
}

/// The frame station's memory: the last frame it reported, so that it writes
/// only when the answer moves. One per window, since two windows draw two sets
/// of documents.
#[derive(Clone, Debug, Default)]
pub struct FrameEcho {
    last: Option<PreviewTextFrame>,
}

impl FrameEcho {
    /// The last frame reported, as a value.
    pub closed spec fn last_spec(&self) -> Option<FrameView> {
        match self.last {
            Some(f) => Some(f@),
            None => None,
        }
    }

    /// Report this frame if it says something the last one did not; it is the
    /// last one afterwards either way.
    pub fn changed(&mut self, frame: PreviewTextFrame) -> (r: bool)
        ensures
            r == (old(self).last_spec() != Some(frame@)),
            final(self).last_spec() == Some(frame@),
    {
        let same = match &self.last {
            Some(last) => same_frame(last, &frame),
            None => false,
        };
        if same {
            return false;
        }
        self.last = Some(frame);
        true
    }
}

} // verus!
