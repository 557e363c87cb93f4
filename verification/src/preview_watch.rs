//! Whether the file a preview seat is showing moved, judged from what the disk
//! says about it now and what it said when the seat last read it.
//!
//! A folder's notification speaks for every file in the folder, so it is not
//! an answer: when a folder has spoken, each watched file in it is asked for
//! its modified time and its length, and only a file whose answer differs from
//! the one recorded is news. A file that has gone is news too — its answer is
//! `None` — and so is one that comes back.
//!
//! The watch list follows the panes: it is handed every file the window's
//! preview panes show and owns the whole difference — a file no pane shows
//! any more is dropped, a new one is armed with what the disk says of it at
//! that moment, and a folder is held only while some shown file lives in it.
//! A folder no watch can be opened on is remembered as such, and its files are
//! asked directly on a gesture rather than on a clock.
use vstd::prelude::*;
use vstd::string::*;
use crate::utf8_text::str_eq;

verus! {

/// What a file looked like the last time a window read it: when it was last
/// modified, if the platform says, as nanoseconds from the Unix epoch (before
/// it, negative), and its length.
///
/// Two fields and not a hash: a hash is a read of the whole file, which is the
/// very thing this exists to schedule rather than to perform.
#[derive(Clone, Copy, Debug, Eq, PartialEq, Structural)]
pub struct Stamp {
    modified: Option<i128>,
    len: u64,
}

impl Stamp {
    /// A stamp from what the disk said.
    pub fn new(modified: Option<i128>, len: u64) -> (s: Stamp)
        ensures
            s.modified_spec() == modified,
            s.len_spec() == len,
    {
        Stamp { modified, len }
    }

    pub closed spec fn modified_spec(&self) -> Option<i128> {
        self.modified
    }

    pub closed spec fn len_spec(&self) -> u64 {
        self.len
    }
}

/// One file moved, and whether it is still there.
#[derive(Clone, Debug, Eq, PartialEq)]
pub struct FileNews {
    pub path: String,
    /// `false` when the disk says the file is not there any more.
    pub present: bool,
}

/// Judging an asked file: whether it is news — what the disk says now
/// differs from what was recorded — and the record afterwards.
pub open spec fn judged(fresh: Option<Stamp>, recorded: Option<Stamp>) -> (bool, Option<Stamp>) {
    if fresh == recorded {
        (false, recorded)
    } else {
        (true, fresh)
    }
}

/// Judge one asked file: news when what the disk says now differs from what
/// was recorded, and the record moves to the fresh answer; nothing, and the
/// record kept, when it does not.
pub fn news(path: &str, fresh: Option<Stamp>, recorded: &mut Option<Stamp>) -> (r: Option<FileNews>)
    ensures
        (r is Some) == judged(fresh, *old(recorded)).0,
        *final(recorded) == judged(fresh, *old(recorded)).1,
        r matches Some(n) ==> n.path@ == path@ && n.present == fresh is Some,
{
    let same = match (fresh, *recorded) {
        (Some(a), Some(b)) => a.modified == b.modified && a.len == b.len,
        (None, None) => true,
        _ => false,
    };
    if same {
        return None;
    }
    *recorded = fresh;
    Some(FileNews { path: String::from_str(path), present: fresh.is_some() })
}

/// A fresh answer is news exactly when it differs from the recorded one in
/// anything — its modified time or its length, or whether the file is there
/// at all — and after judging, the record is the fresh answer either way. So
/// a write inside the filesystem's time resolution that changed the length is
/// news, and so is one that kept the length and moved the time.
pub proof fn law_news_is_any_difference(fresh: Option<Stamp>, recorded: Option<Stamp>)
    ensures
        judged(fresh, recorded).0 == (fresh != recorded),
        judged(fresh, recorded).1 == fresh,
        (fresh, recorded) matches (Some(a), Some(b)) ==> (judged(fresh, recorded).0 == (a.modified_spec()
            != b.modified_spec() || a.len_spec() != b.len_spec())),
{
    if let (Some(a), Some(b)) = (fresh, recorded) {
        if a.modified_spec() == b.modified_spec() && a.len_spec() == b.len_spec() {
            assert(a == b);
        }
    }
}

/// One change is one piece of news: a file judged again with the answer it
/// was just judged on is not news a second time.
pub proof fn law_one_change_is_one_piece_of_news(fresh: Option<Stamp>, recorded: Option<Stamp>)
    ensures
        !judged(fresh, judged(fresh, recorded).1).0,
{
}

/// A file that goes away is news, and so is one that comes back.
pub proof fn law_a_delete_and_a_return_are_news(stamp: Stamp)
    ensures
        judged(None, Some(stamp)).0,
        judged(Some(stamp), None).0,
{
}

// ── which files are watched ─────────────────────────────────────────────────

/// A file some preview pane in the window is showing, with the folder whose
/// notifications speak for it (`None` for a path with no parent).
#[derive(Clone, Debug, PartialEq, Eq)]
pub struct Shown {
    pub path: String,
    pub folder: Option<String>,
}

/// A shown file as a value.
pub struct ShownView {
    pub path: Seq<char>,
    pub folder: Option<Seq<char>>,
}

/// An optional string as a value.
pub open spec fn opt_view(s: Option<String>) -> Option<Seq<char>> {
    match s {
        Some(t) => Some(t@),
        None => None,
    }
}

impl View for Shown {
    type V = ShownView;

    open spec fn view(&self) -> ShownView {
        ShownView { path: self.path@, folder: opt_view(self.folder) }
    }
}

/// One watched file: where it is, the folder that speaks for it, and what it
/// looked like when this window last acted on it (`None` before the first
/// look and after the file went away).
#[derive(Clone, Debug)]
struct Watched {
    path: String,
    folder: Option<String>,
    stamp: Option<Stamp>,
}

/// A watched file as a value.
pub struct WatchedView {
    pub path: Seq<char>,
    pub folder: Option<Seq<char>>,
    pub stamp: Option<Stamp>,
}

impl View for Watched {
    type V = WatchedView;

    closed spec fn view(&self) -> WatchedView {
        WatchedView { path: self.path@, folder: opt_view(self.folder), stamp: self.stamp }
    }
}

/// Every file this window's preview seats are watching, and the folders the
/// watches are held on.
///
/// The handles themselves, and the clocks their notifications feed, belong to
/// whoever opened them; this is the bookkeeping that decides which to open
/// and which to drop. A folder is in exactly one of two lists: the ones a
/// watch could be opened on, and the ones it could not.
///
/// Paths are held in lists, looked up by comparing their text: vstd gives
/// its ordered and hashed maps a key model for integers (and, ordered, tuples
/// of them) only, so a map keyed by a path would say nothing a proof could
/// use.
#[derive(Clone, Debug, Default)]
pub struct PreviewWatch {
    files: Vec<Watched>,
    folders: Vec<String>,
    unwatchable: Vec<String>,
}

/// The watch list as a value.
pub struct PreviewWatchView {
    pub files: Seq<WatchedView>,
    pub folders: Seq<Seq<char>>,
    pub unwatchable: Seq<Seq<char>>,
}

/// Strings as values.
pub open spec fn names(s: Seq<String>) -> Seq<Seq<char>> {
    s.map_values(|t: String| t@)
}

/// Shown files as values.
pub open spec fn shown_views(s: Seq<Shown>) -> Seq<ShownView> {
    s.map_values(|t: Shown| t@)
}

impl View for PreviewWatch {
    type V = PreviewWatchView;

    closed spec fn view(&self) -> PreviewWatchView {
        PreviewWatchView {
            files: self.files@.map_values(|w: Watched| w@),
            folders: names(self.folders@),
            unwatchable: names(self.unwatchable@),
        }
    }
}

/// Whether some pane shows `path`.
pub open spec fn shows(wanted: Seq<ShownView>, path: Seq<char>) -> bool {
    exists|i: int| 0 <= i < wanted.len() && #[trigger] wanted[i].path == path
}

/// Whether `path` is watched.
pub open spec fn watches(files: Seq<WatchedView>, path: Seq<char>) -> bool {
    exists|i: int| 0 <= i < files.len() && #[trigger] files[i].path == path
}

/// Whether some shown file lives in `folder`.
pub open spec fn needs(wanted: Seq<ShownView>, folder: Seq<char>) -> bool {
    exists|i: int| 0 <= i < wanted.len() && #[trigger] wanted[i].folder == Some(folder)
}

fn shows_exec(wanted: &[Shown], path: &str) -> (r: bool)
    ensures
        r == shows(shown_views(wanted@), path@),
{
    let ghost ws = shown_views(wanted@);
    let mut i: usize = 0;
    while i < wanted.len()
        invariant
            ws == shown_views(wanted@),
            0 <= i <= wanted@.len(),
            forall|j: int| 0 <= j < i ==> ws[j].path != path@,
        decreases wanted@.len() - i,
    {
        assert(ws[i as int] == wanted@[i as int]@);
        if str_eq(wanted[i].path.as_str(), path) {
            assert(ws[i as int].path == path@);
            return true;
        }
        i = i + 1;
    }
    false
}

fn needs_exec(wanted: &[Shown], folder: &str) -> (r: bool)
    ensures
        r == needs(shown_views(wanted@), folder@),
{
    let ghost ws = shown_views(wanted@);
    let mut i: usize = 0;
    while i < wanted.len()
        invariant
            ws == shown_views(wanted@),
            0 <= i <= wanted@.len(),
            forall|j: int| 0 <= j < i ==> ws[j].folder != Some(folder@),
        decreases wanted@.len() - i,
    {
        assert(ws[i as int] == wanted@[i as int]@);
        match &wanted[i].folder {
            Some(f) => {
                if str_eq(f.as_str(), folder) {
                    return true;
                }
            },
            None => {},
        }
        i = i + 1;
    }
    false
}

fn watches_exec(files: &Vec<Watched>, path: &str) -> (r: bool)
    ensures
        r == watches(files@.map_values(|w: Watched| w@), path@),
{
    let ghost fs = files@.map_values(|w: Watched| w@);
    let mut i: usize = 0;
    while i < files.len()
        invariant
            fs == files@.map_values(|w: Watched| w@),
            0 <= i <= files@.len(),
            forall|j: int| 0 <= j < i ==> fs[j].path != path@,
        decreases files@.len() - i,
    {
        assert(fs[i as int] == files@[i as int]@);
        if str_eq(files[i].path.as_str(), path) {
            assert(fs[i as int].path == path@);
            return true;
        }
        i = i + 1;
    }
    false
}

fn among(list: &Vec<String>, x: &str) -> (r: bool)
    ensures
        r == names(list@).contains(x@),
{
    let ghost ns = names(list@);
    let mut i: usize = 0;
    while i < list.len()
        invariant
            ns == names(list@),
            0 <= i <= list@.len(),
            forall|j: int| 0 <= j < i ==> ns[j] != x@,
        decreases list@.len() - i,
    {
        assert(ns[i as int] == list@[i as int]@);
        if str_eq(list[i].as_str(), x) {
            assert(ns.contains(x@));
            return true;
        }
        i = i + 1;
    }
    false
}

/// The watched files, from the first `k`, whose path is still shown, in
/// order.
pub open spec fn kept_upto(files: Seq<WatchedView>, wanted: Seq<ShownView>, k: int) -> Seq<WatchedView>
    decreases k,
{
    if k <= 0 {
        Seq::empty()
    } else {
        let p = kept_upto(files, wanted, k - 1);
        if shows(wanted, files[k - 1].path) {
            p.push(files[k - 1])
        } else {
            p
        }
    }
}

/// The first `k` shown files that were not watched yet, each armed with the
/// stamp read for it at that moment.
pub open spec fn arrived_upto(
    files: Seq<WatchedView>,
    wanted: Seq<ShownView>,
    stamps: Seq<Option<Stamp>>,
    k: int,
) -> Seq<WatchedView>
    decreases k,
{
    if k <= 0 {
        Seq::empty()
    } else {
        let p = arrived_upto(files, wanted, stamps, k - 1);
        let w = wanted[k - 1];
        if watches(files, w.path) {
            p
        } else {
            p.push(WatchedView { path: w.path, folder: w.folder, stamp: stamps[k - 1] })
        }
    }
}

/// The first `k` folders of `list` that some shown file still needs (with
/// `needed` false: that none does), in order.
pub open spec fn folders_upto(list: Seq<Seq<char>>, wanted: Seq<ShownView>, needed: bool, k: int) -> Seq<Seq<char>>
    decreases k,
{
    if k <= 0 {
        Seq::empty()
    } else {
        let p = folders_upto(list, wanted, needed, k - 1);
        if needs(wanted, list[k - 1]) == needed {
            p.push(list[k - 1])
        } else {
            p
        }
    }
}

/// The folders the first `k` shown files need that hold no watch and no
/// refusal yet, each once, in the order the files come.
pub open spec fn to_open_upto(wanted: Seq<ShownView>, held: Seq<Seq<char>>, k: int) -> Seq<Seq<char>>
    decreases k,
{
    if k <= 0 {
        Seq::empty()
    } else {
        let p = to_open_upto(wanted, held, k - 1);
        match wanted[k - 1].folder {
            Some(f) => if held.contains(f) || p.contains(f) {
                p
            } else {
                p.push(f)
            },
            None => p,
        }
    }
}

/// Whether a sync has nothing to do: no file is shown and none is watched.
pub open spec fn idle(l: PreviewWatchView, wanted: Seq<ShownView>) -> bool {
    wanted.len() == 0 && l.files.len() == 0
}

/// The watch list brought level with what the panes show: departures dropped,
/// arrivals armed with the stamp read for them, and only the folders some
/// shown file lives in kept.
pub open spec fn synced(l: PreviewWatchView, wanted: Seq<ShownView>, stamps: Seq<Option<Stamp>>) -> PreviewWatchView {
    if idle(l, wanted) {
        l
    } else {
        PreviewWatchView {
            files: kept_upto(l.files, wanted, l.files.len() as int) + arrived_upto(
                l.files,
                wanted,
                stamps,
                wanted.len() as int,
            ),
            folders: folders_upto(l.folders, wanted, true, l.folders.len() as int),
            unwatchable: folders_upto(l.unwatchable, wanted, true, l.unwatchable.len() as int),
        }
    }
}

/// The folders whose watches a sync lets go.
pub open spec fn sync_drops(l: PreviewWatchView, wanted: Seq<ShownView>) -> Seq<Seq<char>> {
    if idle(l, wanted) {
        Seq::empty()
    } else {
        folders_upto(l.folders, wanted, false, l.folders.len() as int)
    }
}

/// The folders a sync asks to have a watch opened on.
pub open spec fn sync_opens(l: PreviewWatchView, wanted: Seq<ShownView>) -> Seq<Seq<char>> {
    if idle(l, wanted) {
        Seq::empty()
    } else {
        to_open_upto(wanted, l.folders + l.unwatchable, wanted.len() as int)
    }
}

/// Whether a sync changed anything: a file or a folder left, or one came.
pub open spec fn sync_changed(l: PreviewWatchView, wanted: Seq<ShownView>, stamps: Seq<Option<Stamp>>) -> bool {
    let n = synced(l, wanted, stamps);
    if idle(l, wanted) {
        false
    } else {
        ||| kept_upto(l.files, wanted, l.files.len() as int).len() != l.files.len()
        ||| arrived_upto(l.files, wanted, stamps, wanted.len() as int).len() > 0
        ||| n.folders.len() != l.folders.len()
        ||| n.unwatchable.len() != l.unwatchable.len()
        ||| sync_opens(l, wanted).len() > 0
    }
}

/// What a sync asks of whoever holds the handles.
#[derive(Clone, Debug, PartialEq, Eq)]
pub struct SyncOrders {
    /// Folders whose watch is to be dropped — the drop is the cancellation.
    pub drop: Vec<String>,
    /// Folders a watch is to be opened on; each answer goes to
    /// [`PreviewWatch::opened`].
    pub open: Vec<String>,
    /// Whether the set of watched files or folders changed.
    pub changed: bool,
}

fn copy_watched(w: &Watched) -> (r: Watched)
    ensures
        r@ == w@,
{
    let folder = match &w.folder {
        Some(f) => Some(f.clone()),
        None => None,
    };
    Watched { path: w.path.clone(), folder, stamp: w.stamp }
}

proof fn lemma_names_push(s: Seq<String>, t: String)
    ensures
        names(s.push(t)) == names(s).push(t@),
{
    assert(names(s.push(t)) =~= names(s).push(t@));
}

proof fn lemma_watched_push(s: Seq<Watched>, t: Watched)
    ensures
        s.push(t).map_values(|w: Watched| w@) == s.map_values(|w: Watched| w@).push(t@),
{
    assert(s.push(t).map_values(|w: Watched| w@) =~= s.map_values(|w: Watched| w@).push(t@));
}

/// The first `k` of `list` that some shown file needs, or that none needs.
fn folders_where(list: &Vec<String>, wanted: &[Shown], needed: bool) -> (r: Vec<String>)
    ensures
        names(r@) == folders_upto(names(list@), shown_views(wanted@), needed, list@.len() as int),
{
    let ghost ns = names(list@);
    let ghost ws = shown_views(wanted@);
    let mut out: Vec<String> = Vec::new();
    let mut i: usize = 0;
    while i < list.len()
        invariant
            ns == names(list@),
            ws == shown_views(wanted@),
            0 <= i <= list@.len(),
            names(out@) == folders_upto(ns, ws, needed, i as int),
        decreases list@.len() - i,
    {
        assert(ns[i as int] == list@[i as int]@);
        if needs_exec(wanted, list[i].as_str()) == needed {
            proof {
                lemma_names_push(out@, list@[i as int]);
            }
            out.push(list[i].clone());
        }
        i = i + 1;
    }
    out
}

impl PreviewWatch {
    /// Bring the watch list level with what the panes show.
    ///
    /// `wanted` is every file some preview pane in the window has open, across
    /// tabs; `stamps` holds, beside each file not watched yet, what the disk
    /// said about it at this moment, so that the seat's own opening read is
    /// the baseline (beside a file already watched it is not read). Files
    /// that are no longer shown are dropped first; each new one is armed; a
    /// folder no shown file lives in is let go, and one that holds no watch
    /// and no refusal yet is to be opened. A window with no preview open and
    /// none watched touches nothing at all.
    pub fn sync(&mut self, wanted: &[Shown], stamps: &[Option<Stamp>]) -> (r: SyncOrders)
        requires
            stamps@.len() == wanted@.len(),
        ensures
            final(self)@ == synced(old(self)@, shown_views(wanted@), stamps@),
            names(r.drop@) == sync_drops(old(self)@, shown_views(wanted@)),
            names(r.open@) == sync_opens(old(self)@, shown_views(wanted@)),
            r.changed == sync_changed(old(self)@, shown_views(wanted@), stamps@),
    {
        let ghost l = self@;
        let ghost ws = shown_views(wanted@);
        if wanted.len() == 0 && self.files.len() == 0 {
            return SyncOrders { drop: Vec::new(), open: Vec::new(), changed: false };
        }
        let ghost fs = self.files@.map_values(|w: Watched| w@);
        let mut files: Vec<Watched> = Vec::new();
        let mut i: usize = 0;
        while i < self.files.len()
            invariant
                self@ == l,
                fs == self.files@.map_values(|w: Watched| w@),
                ws == shown_views(wanted@),
                0 <= i <= self.files@.len(),
                files@.map_values(|w: Watched| w@) == kept_upto(fs, ws, i as int),
            decreases self.files@.len() - i,
        {
            assert(fs[i as int] == self.files@[i as int]@);
            if shows_exec(wanted, self.files[i].path.as_str()) {
                let w = copy_watched(&self.files[i]);
                proof {
                    lemma_watched_push(files@, w);
                }
                files.push(w);
            }
            i = i + 1;
        }
        let ghost kept = files@.map_values(|w: Watched| w@);
        let kept_count = files.len();
        let mut arrived_any = false;
        let mut k: usize = 0;
        while k < wanted.len()
            invariant
                self@ == l,
                fs == self.files@.map_values(|w: Watched| w@),
                ws == shown_views(wanted@),
                stamps@.len() == wanted@.len(),
                0 <= k <= wanted@.len(),
                files@.map_values(|w: Watched| w@) == kept + arrived_upto(fs, ws, stamps@, k as int),
                arrived_any == (arrived_upto(fs, ws, stamps@, k as int).len() > 0),
            decreases wanted@.len() - k,
        {
            assert(ws[k as int] == wanted@[k as int]@);
            if !watches_exec(&self.files, wanted[k].path.as_str()) {
                let folder = match &wanted[k].folder {
                    Some(f) => Some(f.clone()),
                    None => None,
                };
                let w = Watched { path: wanted[k].path.clone(), folder, stamp: stamps[k] };
                proof {
                    lemma_watched_push(files@, w);
                    assert(kept + arrived_upto(fs, ws, stamps@, k + 1) =~= (kept + arrived_upto(
                        fs,
                        ws,
                        stamps@,
                        k as int,
                    )).push(w@));
                }
                files.push(w);
                arrived_any = true;
            }
            k = k + 1;
        }
        let kept_len_changed = kept_count != self.files.len();
        let folders = folders_where(&self.folders, wanted, true);
        let drop = folders_where(&self.folders, wanted, false);
        let unwatchable = folders_where(&self.unwatchable, wanted, true);
        let ghost held = names(self.folders@) + names(self.unwatchable@);
        let mut open: Vec<String> = Vec::new();
        let mut j: usize = 0;
        while j < wanted.len()
            invariant
                self@ == l,
                held == l.folders + l.unwatchable,
                l.folders == names(self.folders@),
                l.unwatchable == names(self.unwatchable@),
                ws == shown_views(wanted@),
                0 <= j <= wanted@.len(),
                names(open@) == to_open_upto(ws, held, j as int),
            decreases wanted@.len() - j,
        {
            assert(ws[j as int] == wanted@[j as int]@);
            match &wanted[j].folder {
                Some(f) => {
                    let s = f.as_str();
                    if !among(&self.folders, s) && !among(&self.unwatchable, s) && !among(&open, s) {
                        proof {
                            lemma_names_push(open@, *f);
                        }
                        open.push(f.clone());
                    } else {
                        proof {
                            if names(self.folders@).contains(f@) {
                                let x = choose|x: int| 0 <= x < names(self.folders@).len() && names(self.folders@)[x] == f@;
                                assert(held[x] == f@);
                            }
                            if names(self.unwatchable@).contains(f@) {
                                let x = choose|x: int| 0 <= x < names(self.unwatchable@).len() && names(self.unwatchable@)[x] == f@;
                                assert(held[names(self.folders@).len() + x] == f@);
                            }
                        }
                    }
                },
                None => {},
            }
            j = j + 1;
        }
        let changed = kept_len_changed || arrived_any || folders.len() != self.folders.len()
            || unwatchable.len() != self.unwatchable.len() || open.len() > 0;
        self.files = files;
        self.folders = folders;
        self.unwatchable = unwatchable;
        SyncOrders { drop, open, changed }
    }

    /// Record how opening a watch on a folder went: it holds one, or it is one
    /// this process could not watch.
    pub fn opened(&mut self, folder: String, watching: bool)
        ensures
            watching ==> final(self)@ == (PreviewWatchView {
                folders: old(self)@.folders.push(folder@),
                ..old(self)@
            }),
            !watching ==> final(self)@ == (PreviewWatchView {
                unwatchable: old(self)@.unwatchable.push(folder@),
                ..old(self)@
            }),
    {
        if watching {
            proof {
                lemma_names_push(self.folders@, folder);
            }
            self.folders.push(folder);
        } else {
            proof {
                lemma_names_push(self.unwatchable@, folder);
            }
            self.unwatchable.push(folder);
        }
    }
}

/// The paths, from the first `k` watched files, whose folder no watch could
/// be opened on — the files no kernel speaks for.
pub open spec fn unwatched_upto(files: Seq<WatchedView>, unwatchable: Seq<Seq<char>>, k: int) -> Seq<Seq<char>>
    decreases k,
{
    if k <= 0 {
        Seq::empty()
    } else {
        let p = unwatched_upto(files, unwatchable, k - 1);
        match files[k - 1].folder {
            Some(f) => if unwatchable.contains(f) {
                p.push(files[k - 1].path)
            } else {
                p
            },
            None => p,
        }
    }
}

/// The index of the first watched file, from `k` on, at `path`, or the count.
pub open spec fn file_at(files: Seq<WatchedView>, path: Seq<char>, k: int) -> int
    decreases files.len() - k,
{
    if k < 0 || k >= files.len() {
        files.len() as int
    } else if files[k].path == path {
        k
    } else {
        file_at(files, path, k + 1)
    }
}

proof fn lemma_file_at(files: Seq<WatchedView>, path: Seq<char>, k: int)
    requires
        0 <= k <= files.len(),
    ensures
        k <= file_at(files, path, k) <= files.len(),
        file_at(files, path, k) < files.len() ==> files[file_at(files, path, k)].path == path,
    decreases files.len() - k,
{
    if k < files.len() && files[k].path != path {
        lemma_file_at(files, path, k + 1);
    }
}

impl PreviewWatch {
    /// The files no kernel is speaking for, to be asked directly — on a
    /// gesture (the window given focus, a document brought to the front),
    /// never on a clock. Nothing when every folder holds a watch.
    pub fn unwatched(&self) -> (r: Vec<String>)
        ensures
            names(r@) == unwatched_upto(self@.files, self@.unwatchable, self@.files.len() as int),
    {
        let ghost fs = self@.files;
        let mut out: Vec<String> = Vec::new();
        let mut i: usize = 0;
        while i < self.files.len()
            invariant
                fs == self@.files,
                0 <= i <= self.files@.len(),
                names(out@) == unwatched_upto(fs, self@.unwatchable, i as int),
            decreases self.files@.len() - i,
        {
            assert(fs[i as int] == self.files@[i as int]@);
            match &self.files[i].folder {
                Some(f) => {
                    if among(&self.unwatchable, f.as_str()) {
                        proof {
                            lemma_names_push(out@, self.files@[i as int].path);
                        }
                        out.push(self.files[i].path.clone());
                    }
                },
                None => {},
            }
            i = i + 1;
        }
        out
    }

    /// Judge what the disk says now about one watched file: news when it
    /// differs from the record, and the record moves to it. Nothing, and
    /// nothing changed, for a path that is not watched.
    pub fn judge(&mut self, path: &str, fresh: Option<Stamp>) -> (r: Option<FileNews>)
        ensures
            ({
                let fs = old(self)@.files;
                let i = file_at(fs, path@, 0);
                if i >= fs.len() {
                    r is None && final(self)@ == old(self)@
                } else {
                    let (moved, stamp) = judged(fresh, fs[i].stamp);
                    &&& (r is Some) == moved
                    &&& final(self)@ == (PreviewWatchView {
                        files: fs.update(i, WatchedView { stamp, ..fs[i] }),
                        ..old(self)@
                    })
                    &&& r matches Some(n) ==> n.path@ == path@ && n.present == fresh is Some
                }
            }),
    {
        let ghost fs = self@.files;
        proof {
            lemma_file_at(fs, path@, 0);
        }
        let mut i: usize = 0;
        while i < self.files.len()
            invariant
                fs == self@.files,
                self@ == old(self)@,
                0 <= i <= self.files@.len(),
                file_at(fs, path@, 0) == file_at(fs, path@, i as int),
            decreases self.files@.len() - i,
        {
            assert(fs[i as int] == self.files@[i as int]@);
            if str_eq(self.files[i].path.as_str(), path) {
                let mut w = copy_watched(&self.files[i]);
                let r = news(path, fresh, &mut w.stamp);
                proof {
                    assert(self.files@.update(i as int, w).map_values(|x: Watched| x@) =~= fs.update(
                        i as int,
                        WatchedView { stamp: w.stamp, ..fs[i as int] },
                    ));
                }
                self.files.set(i, w);
                return r;
            }
            i = i + 1;
        }
        None
    }

    /// Whether a file is watched already.
    pub fn watching(&self, path: &str) -> (r: bool)
        ensures
            r == watches(self@.files, path@),
    {
        watches_exec(&self.files, path)
    }

    /// How many files are watched, and on how many folders a watch is held.
    pub fn counts(&self) -> (r: (usize, usize))
        ensures
            r == (self@.files.len() as usize, self@.folders.len() as usize),
    {
        (self.files.len(), self.folders.len())
    }
}

proof fn lemma_watches_concat(a: Seq<WatchedView>, b: Seq<WatchedView>, p: Seq<char>)
    ensures
        watches(a + b, p) == (watches(a, p) || watches(b, p)),
{
    if watches(a, p) {
        let i = choose|i: int| 0 <= i < a.len() && a[i].path == p;
        assert((a + b)[i].path == p);
    }
    if watches(b, p) {
        let i = choose|i: int| 0 <= i < b.len() && b[i].path == p;
        assert((a + b)[a.len() + i].path == p);
    }
    if watches(a + b, p) {
        let i = choose|i: int| 0 <= i < (a + b).len() && (a + b)[i].path == p;
        if i < a.len() {
            assert(a[i].path == p);
        } else {
            assert(b[i - a.len()].path == p);
        }
    }
}

proof fn lemma_kept(files: Seq<WatchedView>, wanted: Seq<ShownView>, k: int, p: Seq<char>)
    requires
        0 <= k <= files.len(),
    ensures
        watches(kept_upto(files, wanted, k), p) == (watches(files.subrange(0, k), p) && shows(wanted, p)),
    decreases k,
{
    if k > 0 {
        lemma_kept(files, wanted, k - 1, p);
        let prev = kept_upto(files, wanted, k - 1);
        assert(files.subrange(0, k) =~= files.subrange(0, k - 1).push(files[k - 1]));
        lemma_watches_concat(files.subrange(0, k - 1), seq![files[k - 1]], p);
        assert(files.subrange(0, k - 1).push(files[k - 1]) =~= files.subrange(0, k - 1) + seq![files[k - 1]]);
        if shows(wanted, files[k - 1].path) {
            lemma_watches_concat(prev, seq![files[k - 1]], p);
            assert(prev.push(files[k - 1]) =~= prev + seq![files[k - 1]]);
        }
        if watches(seq![files[k - 1]], p) {
            assert(seq![files[k - 1]][0].path == p);
        }
    }
}

proof fn lemma_arrived(
    files: Seq<WatchedView>,
    wanted: Seq<ShownView>,
    stamps: Seq<Option<Stamp>>,
    k: int,
    p: Seq<char>,
)
    requires
        0 <= k <= wanted.len(),
    ensures
        watches(arrived_upto(files, wanted, stamps, k), p) == (shows(wanted.subrange(0, k), p) && !watches(
            files,
            p,
        )),
    decreases k,
{
    if k > 0 {
        lemma_arrived(files, wanted, stamps, k - 1, p);
        let prev = arrived_upto(files, wanted, stamps, k - 1);
        let w = wanted[k - 1];
        let head = wanted.subrange(0, k - 1);
        let all = wanted.subrange(0, k);
        assert(all[k - 1] == w);
        if shows(all, p) {
            let i = choose|i: int| 0 <= i < all.len() && all[i].path == p;
            if i < k - 1 {
                assert(head[i].path == p);
            }
        }
        if shows(head, p) {
            let i = choose|i: int| 0 <= i < head.len() && head[i].path == p;
            assert(all[i].path == p);
        }
        if !watches(files, w.path) {
            let v = WatchedView { path: w.path, folder: w.folder, stamp: stamps[k - 1] };
            lemma_watches_concat(prev, seq![v], p);
            assert(prev.push(v) =~= prev + seq![v]);
            if watches(seq![v], p) {
                assert(seq![v][0].path == p);
            }
            assert(seq![v][0].path == w.path);
        }
    }
}

/// The watch follows the panes: after a sync, a file is watched exactly when
/// some pane shows it.
pub proof fn law_the_watch_follows_the_panes(
    l: PreviewWatchView,
    wanted: Seq<ShownView>,
    stamps: Seq<Option<Stamp>>,
    path: Seq<char>,
)
    ensures
        watches(synced(l, wanted, stamps).files, path) == shows(wanted, path),
{
    if !idle(l, wanted) {
        let kept = kept_upto(l.files, wanted, l.files.len() as int);
        let arrived = arrived_upto(l.files, wanted, stamps, wanted.len() as int);
        lemma_kept(l.files, wanted, l.files.len() as int, path);
        lemma_arrived(l.files, wanted, stamps, wanted.len() as int, path);
        lemma_watches_concat(kept, arrived, path);
        assert(l.files.subrange(0, l.files.len() as int) =~= l.files);
        assert(wanted.subrange(0, wanted.len() as int) =~= wanted);
    }
}

} // verus!
