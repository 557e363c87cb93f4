//! Remapping a byte position of a document through the replacements made to
//! it since.
use std::collections::HashMap;
use vstd::prelude::*;

verus! {

/// A replacement's coordinates in the document immediately before the edit.
/// No text snapshot: retaining one would make the next edit copy the whole
/// body.
#[derive(Clone, Copy, Debug, PartialEq, Eq, Structural)]
pub struct Edit {
    pub at: usize,
    pub removed: usize,
    pub inserted: usize,
}

/// Where a position lands after one replacement: before it, it stays; after
/// the removed bytes, it moves by the difference; inside them, it goes to the
/// start of the inserted bytes, or past them when it leans downstream. A
/// position exactly at the replacement stays unless it leans downstream.
pub open spec fn mapped(e: Edit, at: int, downstream: bool) -> int {
    if at < e.at || (at == e.at && !downstream) {
        at
    } else if at >= e.at + e.removed {
        at - e.removed + e.inserted
    } else {
        e.at + if downstream {
            e.inserted as int
        } else {
            0
        }
    }
}

/// Whether mapping `at` through `e` stays inside a `usize`.
pub open spec fn maps_within(e: Edit, at: int, downstream: bool) -> bool {
    !(at < e.at || (at == e.at && !downstream)) ==> e.at + e.removed <= usize::MAX && mapped(
        e,
        at,
        downstream,
    ) <= usize::MAX
}

/// Where a position lands after a run of replacements, the first applied
/// first.
pub open spec fn mapped_through(at: int, edits: Seq<Edit>, downstream: bool) -> int
    decreases edits.len(),
{
    if edits.len() == 0 {
        at
    } else {
        mapped(edits.last(), mapped_through(at, edits.drop_last(), downstream), downstream)
    }
}

/// Whether every step of mapping `at` through a run of replacements stays
/// inside a `usize`.
pub open spec fn maps_through_within(at: int, edits: Seq<Edit>, downstream: bool) -> bool {
    forall|k: int|
        0 <= k < edits.len() ==> maps_within(
            #[trigger] edits[k],
            mapped_through(at, edits.take(k), downstream),
            downstream,
        )
}

impl Edit {
    /// Where `at` lands after this replacement.
    pub fn map(self, at: usize, downstream: bool) -> (r: usize)
        requires
            maps_within(self, at as int, downstream),
        ensures
            r == mapped(self, at as int, downstream),
    {
        if at < self.at || (at == self.at && !downstream) {
            at
        } else if at >= self.at + self.removed {
            at - self.removed + self.inserted
        } else {
            self.at + if downstream {
                self.inserted
            } else {
                0
            }
        }
    }
}

/// Where `at` lands after every replacement of `edits`, in order.
pub fn map_byte(at: usize, edits: &[Edit], downstream: bool) -> (r: usize)
    requires
        maps_through_within(at as int, edits@, downstream),
    ensures
        r == mapped_through(at as int, edits@, downstream),
{
    let mut at = at;
    let ghost start = at as int;
    let mut k: usize = 0;
    while k < edits.len()
        invariant
            0 <= k <= edits@.len(),
            maps_through_within(start, edits@, downstream),
            at == mapped_through(start, edits@.take(k as int), downstream),
        decreases edits@.len() - k,
    {
        proof {
            assert(edits@.take(k + 1).drop_last() =~= edits@.take(k as int));
        }
        at = edits[k].map(at, downstream);
        k = k + 1;
    }
    proof {
        assert(edits@.take(edits@.len() as int) =~= edits@);
    }
    at
}

/// One replacement keeps positions in order: a position at or before another
/// lands at or before it.
pub proof fn law_a_replacement_keeps_positions_in_order(e: Edit, a: int, b: int, downstream: bool)
    requires
        0 <= a <= b,
    ensures
        mapped(e, a, downstream) <= mapped(e, b, downstream),
{
}

/// A run of replacements keeps positions in order.
pub proof fn law_replacements_keep_positions_in_order(
    edits: Seq<Edit>,
    a: int,
    b: int,
    downstream: bool,
)
    requires
        0 <= a <= b,
    ensures
        mapped_through(a, edits, downstream) <= mapped_through(b, edits, downstream),
    decreases edits.len(),
{
    if edits.len() > 0 {
        law_replacements_keep_positions_in_order(edits.drop_last(), a, b, downstream);
        lemma_mapped_through_nonnegative(edits.drop_last(), a, downstream);
        law_a_replacement_keeps_positions_in_order(
            edits.last(),
            mapped_through(a, edits.drop_last(), downstream),
            mapped_through(b, edits.drop_last(), downstream),
            downstream,
        );
    }
}

proof fn lemma_mapped_through_nonnegative(edits: Seq<Edit>, a: int, downstream: bool)
    requires
        0 <= a,
    ensures
        0 <= mapped_through(a, edits, downstream),
    decreases edits.len(),
{
    if edits.len() > 0 {
        lemma_mapped_through_nonnegative(edits.drop_last(), a, downstream);
    }
}

/// A position that leans downstream lands at or after the same position
/// leaning upstream.
pub proof fn law_downstream_lands_no_earlier(e: Edit, at: int)
    requires
        0 <= at,
    ensures
        mapped(e, at, false) <= mapped(e, at, true),
{
}

// ── finding the old blocks again ────────────────────────────────────────────

/// Where the edits moved each old block's start, leaning downstream.
pub open spec fn moved_starts(old: Seq<std::ops::Range<usize>>, edits: Seq<Edit>) -> Seq<int> {
    Seq::new(old.len(), |i: int| mapped_through(old[i].start as int, edits, true))
}

/// Where the edits moved each old block's end, leaning upstream.
pub open spec fn moved_ends(old: Seq<std::ops::Range<usize>>, edits: Seq<Edit>) -> Seq<int> {
    Seq::new(old.len(), |i: int| mapped_through(old[i].end as int, edits, false))
}

/// The old blocks that can be found again: one of the first `live`, with a
/// moved range that is not empty — a block the edits took out entirely is
/// nobody's occurrence.
pub open spec fn findable(old: Seq<std::ops::Range<usize>>, live: int, edits: Seq<Edit>) -> Seq<bool> {
    Seq::new(
        old.len(),
        |i: int| i < live && moved_ends(old, edits)[i] > moved_starts(old, edits)[i],
    )
}

/// The last findable old block among the first `n` whose moved range is
/// exactly `a..b`.
pub open spec fn exact_rep(ms: Seq<int>, me: Seq<int>, ok: Seq<bool>, a: int, b: int, n: int) -> Option<int>
    decreases n,
{
    if n <= 0 {
        None
    } else if ok[n - 1] && ms[n - 1] == a && me[n - 1] == b {
        Some(n - 1)
    } else {
        exact_rep(ms, me, ok, a, b, n - 1)
    }
}

/// The last findable old block among the first `n` whose moved range ends
/// at `b`.
pub open spec fn end_rep(me: Seq<int>, ok: Seq<bool>, b: int, n: int) -> Option<int>
    decreases n,
{
    if n <= 0 {
        None
    } else if ok[n - 1] && me[n - 1] == b {
        Some(n - 1)
    } else {
        end_rep(me, ok, b, n - 1)
    }
}

/// The last findable old block among the first `n` whose moved range starts
/// at `a`.
pub open spec fn start_rep(ms: Seq<int>, ok: Seq<bool>, a: int, n: int) -> Option<int>
    decreases n,
{
    if n <= 0 {
        None
    } else if ok[n - 1] && ms[n - 1] == a {
        Some(n - 1)
    } else {
        start_rep(ms, ok, a, n - 1)
    }
}

/// What the search remembers between new blocks: which exact ranges and
/// which ends have been spent, and which old blocks have been claimed.
pub struct RemapMemory {
    pub exact_gone: Seq<bool>,
    pub end_gone: Seq<bool>,
    pub used: Seq<bool>,
}

/// The old block a new block `a..b` claims: the one whose moved range is
/// exactly `a..b`; else the one that ends at `b` and starts inside the new
/// block; else the one that starts at `a` and ends inside it. An exact range
/// or an end answers once, and a claimed block is never claimed again.
pub open spec fn claim(ms: Seq<int>, me: Seq<int>, ok: Seq<bool>, m: RemapMemory, a: int, b: int) -> Option<int> {
    let n = ms.len() as int;
    let exact = match exact_rep(ms, me, ok, a, b, n) {
        Some(i) => if !m.exact_gone[i] && !m.used[i] {
            Some(i)
        } else {
            None
        },
        None => None,
    };
    if exact is Some {
        exact
    } else {
        let ending = match end_rep(me, ok, b, n) {
            Some(i) => if !m.end_gone[i] && !m.used[i] && a <= ms[i] && ms[i] < b {
                Some(i)
            } else {
                None
            },
            None => None,
        };
        if ending is Some {
            ending
        } else {
            match start_rep(ms, ok, a, n) {
                Some(i) => if !m.used[i] && a < me[i] && me[i] <= b {
                    Some(i)
                } else {
                    None
                },
                None => None,
            }
        }
    }
}

/// The memory after a new block `a..b` has been matched.
pub open spec fn remember(ms: Seq<int>, me: Seq<int>, ok: Seq<bool>, m: RemapMemory, a: int, b: int) -> RemapMemory {
    let n = ms.len() as int;
    let exact_gone = match exact_rep(ms, me, ok, a, b, n) {
        Some(i) => m.exact_gone.update(i, true),
        None => m.exact_gone,
    };
    match claim(ms, me, ok, m, a, b) {
        Some(i) => RemapMemory {
            exact_gone,
            end_gone: match end_rep(me, ok, b, n) {
                Some(j) => m.end_gone.update(j, true),
                None => m.end_gone,
            },
            used: m.used.update(i, true),
        },
        None => RemapMemory { exact_gone, end_gone: m.end_gone, used: m.used },
    }
}

/// The memory and the answers after the first `k` new blocks.
pub open spec fn remap_upto(
    ms: Seq<int>,
    me: Seq<int>,
    ok: Seq<bool>,
    ranges: Seq<std::ops::Range<usize>>,
    k: int,
) -> (RemapMemory, Seq<Option<usize>>)
    decreases k,
{
    if k <= 0 {
        (
            RemapMemory {
                exact_gone: Seq::new(ms.len(), |i: int| false),
                end_gone: Seq::new(ms.len(), |i: int| false),
                used: Seq::new(ms.len(), |i: int| false),
            },
            Seq::empty(),
        )
    } else {
        let (m, out) = remap_upto(ms, me, ok, ranges, k - 1);
        let a = ranges[k - 1].start as int;
        let b = ranges[k - 1].end as int;
        let found = match claim(ms, me, ok, m, a, b) {
            Some(i) => Some(i as usize),
            None => None,
        };
        (remember(ms, me, ok, m, a, b), out.push(found))
    }
}

/// New index → old index: for every new block, the old block it is the same
/// occurrence of, if any, found from edit coordinates and never from text.
pub open spec fn remapped(
    old: Seq<std::ops::Range<usize>>,
    live: int,
    ranges: Seq<std::ops::Range<usize>>,
    edits: Seq<Edit>,
) -> Seq<Option<usize>> {
    remap_upto(
        moved_starts(old, edits),
        moved_ends(old, edits),
        findable(old, live, edits),
        ranges,
        ranges.len() as int,
    ).1
}

/// A list of positions, as integers.
pub open spec fn ints(v: Seq<usize>) -> Seq<int> {
    Seq::new(v.len(), |i: int| v[i] as int)
}

fn find_exact(ms: &Vec<usize>, me: &Vec<usize>, ok: &Vec<bool>, a: usize, b: usize) -> (r: Option<usize>)
    requires
        ms@.len() == me@.len() == ok@.len(),
    ensures
        match r {
            Some(i) => i < ms@.len() && exact_rep(ints(ms@), ints(me@), ok@, a as int, b as int, ms@.len() as int) == Some(i as int),
            None => exact_rep(ints(ms@), ints(me@), ok@, a as int, b as int, ms@.len() as int) is None,
        },
{
    let ghost s = ints(ms@);
    let ghost e = ints(me@);
    let mut i = ms.len();
    while i > 0
        invariant
            ms@.len() == me@.len() == ok@.len(),
            s == ints(ms@),
            e == ints(me@),
            0 <= i <= ms@.len(),
            exact_rep(s, e, ok@, a as int, b as int, ms@.len() as int) == exact_rep(s, e, ok@, a as int, b as int, i as int),
        decreases i,
    {
        proof {
            assert(s[i - 1] == ms@[i - 1] as int);
            assert(e[i - 1] == me@[i - 1] as int);
        }
        if ok[i - 1] && ms[i - 1] == a && me[i - 1] == b {
            return Some(i - 1);
        }
        i = i - 1;
    }
    None
}

/// Each moved position with the last findable old block that stands at it: a
/// later block at the same position takes the key over, as an insert does.
fn last_at(keys: &Vec<usize>, ok: &Vec<bool>) -> (m: HashMap<usize, usize>)
    requires
        keys@.len() == ok@.len(),
    ensures
        forall|x: usize|
            #[trigger] m@.contains_key(x) == (end_rep(ints(keys@), ok@, x as int, keys@.len() as int) is Some),
        forall|x: usize|
            #[trigger] m@.contains_key(x) ==> end_rep(ints(keys@), ok@, x as int, keys@.len() as int) == Some(
                m@[x] as int,
            ) && m@[x] < keys@.len(),
{
    broadcast use vstd::std_specs::hash::group_hash_axioms;

    let ghost e = ints(keys@);
    let mut m: HashMap<usize, usize> = HashMap::new();
    let mut i: usize = 0;
    while i < keys.len()
        invariant
            e == ints(keys@),
            keys@.len() == ok@.len(),
            0 <= i <= keys@.len(),
            forall|x: usize| #[trigger] m@.contains_key(x) == (end_rep(e, ok@, x as int, i as int) is Some),
            forall|x: usize|
                #[trigger] m@.contains_key(x) ==> end_rep(e, ok@, x as int, i as int) == Some(m@[x] as int)
                    && m@[x] < i,
        decreases keys@.len() - i,
    {
        proof {
            assert(e[i as int] == keys@[i as int] as int);
        }
        if ok[i] {
            m.insert(keys[i], i);
        }
        i = i + 1;
    }
    m
}

/// The value a map holds for a key, if any.
fn value_at(m: &HashMap<usize, usize>, x: usize) -> (r: Option<usize>)
    ensures
        r == (if m@.contains_key(x) {
            Some(m@[x])
        } else {
            None::<usize>
        }),
{
    broadcast use vstd::std_specs::hash::group_hash_axioms;

    match m.get(&x) {
        Some(i) => Some(*i),
        None => None,
    }
}

/// A start is found as an end is: the last findable block at it.
proof fn lemma_start_rep_is_end_rep(ms: Seq<int>, ok: Seq<bool>, a: int, n: int)
    ensures
        start_rep(ms, ok, a, n) == end_rep(ms, ok, a, n),
    decreases n,
{
    if n > 0 {
        lemma_start_rep_is_end_rep(ms, ok, a, n - 1);
    }
}

/// New index → old index, for every block of a re-parsed document: the old
/// block each new block is the same occurrence of, found from where the
/// edits moved the old blocks' byte ranges and never from their text. Only
/// the first `live` old blocks can be found.
///
/// An old block whose moved range is exactly the new block's is taken first;
/// else one that ends where the new block ends and starts inside it; else one
/// that starts where it starts and ends inside it. Each old block is claimed
/// by one new block at most.
#[verifier::spinoff_prover]
pub fn remap_blocks(
    old_ranges: &[std::ops::Range<usize>],
    live: usize,
    ranges: &[std::ops::Range<usize>],
    edits: &[Edit],
) -> (remap: Vec<Option<usize>>)
    requires
        forall|i: int|
            0 <= i < old_ranges@.len() ==> maps_through_within(
                #[trigger] old_ranges@[i].start as int,
                edits@,
                true,
            ) && maps_through_within(old_ranges@[i].end as int, edits@, false),
    ensures
        remap@ == remapped(old_ranges@, live as int, ranges@, edits@),
{
    let ghost old = old_ranges@;
    let n = old_ranges.len();
    let mut ms: Vec<usize> = Vec::new();
    let mut me: Vec<usize> = Vec::new();
    let mut ok: Vec<bool> = Vec::new();
    let mut i: usize = 0;
    while i < n
        invariant
            n == old.len(),
            old == old_ranges@,
            0 <= i <= n,
            ms@.len() == i,
            me@.len() == i,
            ok@.len() == i,
            forall|j: int|
                0 <= j < old_ranges@.len() ==> maps_through_within(
                    #[trigger] old_ranges@[j].start as int,
                    edits@,
                    true,
                ) && maps_through_within(old_ranges@[j].end as int, edits@, false),
            forall|j: int|
                0 <= j < i ==> ms@[j] as int == mapped_through(old[j].start as int, edits@, true)
                    && me@[j] as int == mapped_through(old[j].end as int, edits@, false) && ok@[j]
                    == (j < live && me@[j] > ms@[j]),
        decreases n - i,
    {
        let start = map_byte(old_ranges[i].start, edits, true);
        let end = map_byte(old_ranges[i].end, edits, false);
        ms.push(start);
        me.push(end);
        ok.push(i < live && end > start);
        i = i + 1;
    }
    proof {
        assert(ints(ms@) =~= moved_starts(old, edits@));
        assert(ints(me@) =~= moved_ends(old, edits@));
        assert(ok@ =~= findable(old, live as int, edits@));
    }
    let ghost s = ints(ms@);
    let ghost e = ints(me@);
    let ends = last_at(&me, &ok);
    let starts = last_at(&ms, &ok);
    let mut exact_gone: Vec<bool> = Vec::new();
    let mut end_gone: Vec<bool> = Vec::new();
    let mut used: Vec<bool> = Vec::new();
    let mut i: usize = 0;
    while i < n
        invariant
            0 <= i <= n,
            exact_gone@ == Seq::new(i as nat, |j: int| false),
            end_gone@ == Seq::new(i as nat, |j: int| false),
            used@ == Seq::new(i as nat, |j: int| false),
        decreases n - i,
    {
        exact_gone.push(false);
        end_gone.push(false);
        used.push(false);
        proof {
            assert(exact_gone@ =~= Seq::new((i + 1) as nat, |j: int| false));
            assert(end_gone@ =~= Seq::new((i + 1) as nat, |j: int| false));
            assert(used@ =~= Seq::new((i + 1) as nat, |j: int| false));
        }
        i = i + 1;
    }
    let mut out: Vec<Option<usize>> = Vec::new();
    let mut k: usize = 0;
    while k < ranges.len()
        invariant
            ms@.len() == n && me@.len() == n && ok@.len() == n,
            s == ints(ms@),
            e == ints(me@),
            0 <= k <= ranges@.len(),
            exact_gone@ == remap_upto(s, e, ok@, ranges@, k as int).0.exact_gone,
            end_gone@ == remap_upto(s, e, ok@, ranges@, k as int).0.end_gone,
            used@ == remap_upto(s, e, ok@, ranges@, k as int).0.used,
            out@ == remap_upto(s, e, ok@, ranges@, k as int).1,
            exact_gone@.len() == n && end_gone@.len() == n && used@.len() == n,
            forall|x: usize| #[trigger] ends@.contains_key(x) == (end_rep(e, ok@, x as int, n as int) is Some),
            forall|x: usize|
                #[trigger] ends@.contains_key(x) ==> end_rep(e, ok@, x as int, n as int) == Some(ends@[x] as int)
                    && ends@[x] < n,
            forall|x: usize| #[trigger] starts@.contains_key(x) == (end_rep(s, ok@, x as int, n as int) is Some),
            forall|x: usize|
                #[trigger] starts@.contains_key(x) ==> end_rep(s, ok@, x as int, n as int) == Some(
                    starts@[x] as int,
                ) && starts@[x] < n,
        decreases ranges@.len() - k,
    {
        let ghost before = remap_upto(s, e, ok@, ranges@, k as int).0;
        let a = ranges[k].start;
        let b = ranges[k].end;
        let mut mapped: Option<usize> = None;
        let exact = find_exact(&ms, &me, &ok, a, b);
        match exact {
            Some(i) => {
                if !exact_gone[i] && !used[i] {
                    mapped = Some(i);
                }
                exact_gone.set(i, true);
            },
            None => {},
        }
        if mapped.is_none() {
            match value_at(&ends, b) {
                Some(i) => {
                    proof {
                        assert(s[i as int] == ms@[i as int] as int);
                    }
                    if !end_gone[i] && !used[i] && a <= ms[i] && ms[i] < b {
                        mapped = Some(i);
                    }
                },
                None => {},
            }
        }
        if mapped.is_none() {
            proof {
                lemma_start_rep_is_end_rep(s, ok@, a as int, n as int);
            }
            match value_at(&starts, a) {
                Some(i) => {
                    proof {
                        assert(e[i as int] == me@[i as int] as int);
                    }
                    if !used[i] && a < me[i] && me[i] <= b {
                        mapped = Some(i);
                    }
                },
                None => {},
            }
        }
        proof {
            let c = claim(s, e, ok@, before, a as int, b as int);
            assert(mapped == match c {
                Some(i) => Some(i as usize),
                None => None::<usize>,
            });
        }
        match mapped {
            Some(i) => {
                used.set(i, true);
                match value_at(&ends, b) {
                    Some(j) => end_gone.set(j, true),
                    None => {},
                }
            },
            None => {},
        }
        out.push(mapped);
        proof {
            let next = remap_upto(s, e, ok@, ranges@, k + 1);
            assert(exact_gone@ =~= next.0.exact_gone);
            assert(end_gone@ =~= next.0.end_gone);
            assert(used@ =~= next.0.used);
            assert(out@ =~= next.1);
        }
        k = k + 1;
    }
    out
}

proof fn lemma_reps(ms: Seq<int>, me: Seq<int>, ok: Seq<bool>, a: int, b: int, n: int)
    requires
        0 <= n <= ms.len(),
        ms.len() == me.len() == ok.len(),
    ensures
        exact_rep(ms, me, ok, a, b, n) matches Some(i) ==> 0 <= i < n && ok[i] && ms[i] == a && me[i]
            == b,
        end_rep(me, ok, b, n) matches Some(i) ==> 0 <= i < n && ok[i] && me[i] == b,
        start_rep(ms, ok, a, n) matches Some(i) ==> 0 <= i < n && ok[i] && ms[i] == a,
    decreases n,
{
    if n > 0 {
        lemma_reps(ms, me, ok, a, b, n - 1);
    }
}

/// What a claim is: an unclaimed findable old block whose moved range sits
/// inside the new block and shares an end with it.
proof fn lemma_claim(ms: Seq<int>, me: Seq<int>, ok: Seq<bool>, m: RemapMemory, a: int, b: int)
    requires
        ms.len() == me.len() == ok.len(),
        m.used.len() == ms.len(),
        m.exact_gone.len() == ms.len(),
        m.end_gone.len() == ms.len(),
    ensures
        claim(ms, me, ok, m, a, b) matches Some(i) ==> {
            &&& 0 <= i < ms.len()
            &&& ok[i]
            &&& !m.used[i]
            &&& a <= ms[i] && me[i] <= b
            &&& (ms[i] == a || me[i] == b)
        },
{
    lemma_reps(ms, me, ok, a, b, ms.len() as int);
}

proof fn lemma_remap_upto(ms: Seq<int>, me: Seq<int>, ok: Seq<bool>, ranges: Seq<std::ops::Range<usize>>, k: int)
    requires
        ms.len() == me.len() == ok.len(),
        ms.len() <= usize::MAX,
        0 <= k <= ranges.len(),
    ensures
        ({
            let (m, out) = remap_upto(ms, me, ok, ranges, k);
            &&& out.len() == k
            &&& m.used.len() == ms.len() && m.exact_gone.len() == ms.len() && m.end_gone.len()
                == ms.len()
            &&& forall|j: int|
                0 <= j < k && (#[trigger] out[j]) is Some ==> {
                    let i = out[j]->0 as int;
                    &&& 0 <= i < ms.len()
                    &&& m.used[i]
                    &&& ok[i]
                    &&& ranges[j].start <= ms[i] && me[i] <= ranges[j].end
                    &&& (ms[i] == ranges[j].start || me[i] == ranges[j].end)
                }
            &&& forall|j1: int, j2: int|
                0 <= j1 < j2 < k && (#[trigger] out[j1]) is Some && (#[trigger] out[j2]) is Some
                    ==> out[j1] != out[j2]
        }),
    decreases k,
{
    if k > 0 {
        lemma_remap_upto(ms, me, ok, ranges, k - 1);
        let (m, out) = remap_upto(ms, me, ok, ranges, k - 1);
        let a = ranges[k - 1].start as int;
        let b = ranges[k - 1].end as int;
        lemma_claim(ms, me, ok, m, a, b);
        lemma_reps(ms, me, ok, a, b, ms.len() as int);
        let (m2, out2) = remap_upto(ms, me, ok, ranges, k);
        let c = claim(ms, me, ok, m, a, b);
        assert(m2 == remember(ms, me, ok, m, a, b));
        if c is Some {
            assert(m2.used == m.used.update(c->0, true));
            assert((c->0 as usize) as int == c->0);
        } else {
            assert(m2.used == m.used);
        }
        assert(out2 == out.push(match claim(ms, me, ok, m, a, b) {
            Some(i) => Some(i as usize),
            None => None,
        }));
        assert forall|j: int| 0 <= j < k && (#[trigger] out2[j]) is Some implies {
            let i = out2[j]->0 as int;
            &&& 0 <= i < ms.len()
            &&& m2.used[i]
            &&& ok[i]
            &&& ranges[j].start <= ms[i] && me[i] <= ranges[j].end
            &&& (ms[i] == ranges[j].start || me[i] == ranges[j].end)
        } by {
            if j < k - 1 {
                assert(out2[j] == out[j]);
                let i = out[j]->0 as int;
                assert(m.used[i]);
                assert(m2.used[i]);
            }
        }
        assert forall|j1: int, j2: int|
            0 <= j1 < j2 < k && (#[trigger] out2[j1]) is Some && (#[trigger] out2[j2]) is Some
                implies out2[j1] != out2[j2] by {
            assert(out2[j1] == out[j1]);
            if j2 < k - 1 {
                assert(out2[j2] == out[j2]);
            } else {
                let i = out2[j2]->0 as int;
                assert(!m.used[i]);
                assert(m.used[out[j1]->0 as int]);
            }
        }
    }
}

/// Each old block is the occurrence of one new block at most.
pub proof fn law_each_old_block_is_found_once(
    old: Seq<std::ops::Range<usize>>,
    live: int,
    ranges: Seq<std::ops::Range<usize>>,
    edits: Seq<Edit>,
    j1: int,
    j2: int,
)
    requires
        old.len() <= usize::MAX,
        0 <= j1 < j2 < ranges.len(),
        remapped(old, live, ranges, edits)[j1] is Some,
        remapped(old, live, ranges, edits)[j2] is Some,
    ensures
        remapped(old, live, ranges, edits)[j1] != remapped(old, live, ranges, edits)[j2],
{
    lemma_remap_upto(
        moved_starts(old, edits),
        moved_ends(old, edits),
        findable(old, live, edits),
        ranges,
        ranges.len() as int,
    );
    let out = remapped(old, live, ranges, edits);
    assert(out[j1] is Some && out[j2] is Some);
}

/// An old block found again for a new block is one of the first `live`, the
/// edits left it a range, and that range lies inside the new block and starts
/// or ends where it does.
pub proof fn law_a_found_block_sits_inside_the_new_one(
    old: Seq<std::ops::Range<usize>>,
    live: int,
    ranges: Seq<std::ops::Range<usize>>,
    edits: Seq<Edit>,
    j: int,
)
    requires
        old.len() <= usize::MAX,
        0 <= j < ranges.len(),
        remapped(old, live, ranges, edits)[j] is Some,
    ensures
        ({
            let i = remapped(old, live, ranges, edits)[j]->0 as int;
            let start = mapped_through(old[i].start as int, edits, true);
            let end = mapped_through(old[i].end as int, edits, false);
            &&& 0 <= i < old.len()
            &&& i < live
            &&& ranges[j].start <= start < end <= ranges[j].end
            &&& (start == ranges[j].start || end == ranges[j].end)
        }),
{
    let ms = moved_starts(old, edits);
    let me = moved_ends(old, edits);
    let ok = findable(old, live, edits);
    lemma_remap_upto(ms, me, ok, ranges, ranges.len() as int);
    let out = remapped(old, live, ranges, edits);
    assert(out[j] is Some);
    let i = out[j]->0 as int;
    assert(ok[i]);
    assert(ms[i] == mapped_through(old[i].start as int, edits, true));
    assert(me[i] == mapped_through(old[i].end as int, edits, false));
}

// ── what a block keeps across a layout ──────────────────────────────────────

/// What the viewport remembers of one block between two layouts: the id a
/// reading anchor follows, whether the block's height is known exactly, and
/// whether its intrinsic widths are.
#[derive(Clone, Copy, Debug, PartialEq, Eq, Structural)]
pub struct Record {
    pub id: u64,
    pub exact: bool,
    pub intrinsic: bool,
}

/// The record a new block takes, and the next fresh id.
///
/// A block whose old self was found and parses the same keeps the old id; its
/// height stays exact only while its source, the frame and the art all stay
/// as they were, and its widths only while the frame's intrinsic measure does
/// and the art stays. Any other block is new and known for nothing; a fresh id
/// is drawn for it, though a block found by its range but parsed differently
/// keeps the old block's id.
pub open spec fn next_record_spec(
    reused: Option<Record>,
    found: Option<u64>,
    same_source: bool,
    same_frame: bool,
    same_measure: bool,
    art_changed: bool,
    next_id: u64,
) -> (Record, u64) {
    match reused {
        Some(old) => (
            Record {
                id: old.id,
                exact: old.exact && same_source && same_frame && !art_changed,
                intrinsic: old.intrinsic && same_measure && !art_changed,
            },
            next_id,
        ),
        None => {
            let fresh = (next_id + 1) as u64;
            (
                Record {
                    id: match found {
                        Some(id) => id,
                        None => fresh,
                    },
                    exact: false,
                    intrinsic: false,
                },
                fresh,
            )
        },
    }
}

/// The record a new block takes, and the next fresh id; see
/// [`next_record_spec`].
pub fn next_record(
    reused: Option<Record>,
    found: Option<u64>,
    same_source: bool,
    same_frame: bool,
    same_measure: bool,
    art_changed: bool,
    next_id: u64,
) -> (r: (Record, u64))
    requires
        reused.is_none() ==> next_id < u64::MAX,
    ensures
        r == next_record_spec(reused, found, same_source, same_frame, same_measure, art_changed, next_id),
{
    match reused {
        Some(old) => (
            Record {
                id: old.id,
                exact: old.exact && same_source && same_frame && !art_changed,
                intrinsic: old.intrinsic && same_measure && !art_changed,
            },
            next_id,
        ),
        None => {
            let fresh = next_id + 1;
            let id = match found {
                Some(id) => id,
                None => fresh,
            };
            (Record { id, exact: false, intrinsic: false }, fresh)
        },
    }
}

/// Which of a page's pictures are decoded: the `first`th image block through
/// the `last`th, counted among the image blocks alone.
#[derive(Clone, Copy, Debug, PartialEq, Eq, Structural)]
pub struct PictureReach {
    pub first: usize,
    pub last: usize,
}

/// The image blocks a reach takes: from its first image, as many as from
/// `first` through `last` (one, when `last` is not past `first`), as far as
/// there are images.
pub open spec fn band_of(images: Seq<usize>, r: PictureReach) -> Seq<usize> {
    let count = (if r.last >= r.first {
        r.last - r.first
    } else {
        0
    }) + 1;
    let lo = if r.first < images.len() {
        r.first as int
    } else {
        images.len() as int
    };
    let hi = if lo + count < images.len() {
        lo + count
    } else {
        images.len() as int
    };
    images.subrange(lo, hi)
}

/// A record whose height must be measured again.
pub open spec fn inexact(r: Record) -> Record {
    Record { exact: false, ..r }
}

/// The image blocks a reach takes.
pub fn band(images: &[usize], r: PictureReach) -> (b: Vec<usize>)
    requires
        !(r.first == 0 && r.last == usize::MAX),
    ensures
        b@ == band_of(images@, r),
{
    let count = (if r.last >= r.first {
        r.last - r.first
    } else {
        0
    }) + 1;
    let lo = if r.first < images.len() {
        r.first
    } else {
        images.len()
    };
    let hi = if count < images.len() - lo {
        lo + count
    } else {
        images.len()
    };
    let mut out: Vec<usize> = Vec::new();
    let mut i = lo;
    while i < hi
        invariant
            lo <= i <= hi <= images@.len(),
            out@ == images@.subrange(lo as int, i as int),
        decreases hi - i,
    {
        out.push(images[i]);
        proof {
            assert(out@ =~= images@.subrange(lo as int, i + 1));
        }
        i = i + 1;
    }
    out
}

/// Mark every listed block's height unknown.
fn mark_inexact(records: &mut Vec<Record>, blocks: &Vec<usize>)
    requires
        forall|k: int| 0 <= k < blocks@.len() ==> #[trigger] blocks@[k] < old(records)@.len(),
    ensures
        final(records)@.len() == old(records)@.len(),
        forall|i: int|
            0 <= i < old(records)@.len() ==> #[trigger] final(records)@[i] == (if blocks@.contains(i as usize) {
                inexact(old(records)@[i])
            } else {
                old(records)@[i]
            }),
{
    let ghost start = records@;
    let mut k: usize = 0;
    while k < blocks.len()
        invariant
            0 <= k <= blocks@.len(),
            records@.len() == start.len(),
            start == old(records)@,
            forall|j: int| 0 <= j < blocks@.len() ==> #[trigger] blocks@[j] < start.len(),
            forall|i: int|
                0 <= i < start.len() ==> #[trigger] records@[i] == (if blocks@.subrange(0, k as int).contains(
                    i as usize,
                ) {
                    inexact(start[i])
                } else {
                    start[i]
                }),
        decreases blocks@.len() - k,
    {
        let index = blocks[k];
        let r = records[index];
        records.set(index, Record { exact: false, ..r });
        let _ = records.len();
        proof {
            assert(0 <= index < start.len());
            assert forall|i: int| 0 <= i < start.len() implies #[trigger] records@[i] == (if blocks@.subrange(
                0,
                k + 1,
            ).contains(i as usize) {
                inexact(start[i])
            } else {
                start[i]
            }) by {
                let before = blocks@.subrange(0, k as int);
                let after = blocks@.subrange(0, k + 1);
                assert(after =~= before.push(index));
                if before.contains(i as usize) {
                    let x = choose|x: int| 0 <= x < before.len() && before[x] == i as usize;
                    assert(after[x] == i as usize);
                }
                assert(after[k as int] == index);
                assert(records@.len() <= usize::MAX);
                assert((i as usize) as int == i);
                if i == index as int {
                    assert(after.contains(i as usize));
                } else {
                    if after.contains(i as usize) {
                        let x = choose|x: int| 0 <= x < after.len() && after[x] == i as usize;
                        assert(x != k);
                        assert(before[x] == i as usize);
                    }
                    assert(after.contains(i as usize) == before.contains(i as usize));
                }
            }
        }
        k = k + 1;
    }
    proof {
        assert(blocks@.subrange(0, blocks@.len() as int) =~= blocks@);
    }
}

/// The pictures' reach moved: every image block in the band it was and in the
/// band it is now has its height measured again, since a picture arriving or
/// leaving changes it. Answers the blocks now unknown, the old band's first.
pub fn forget_bands(records: &mut Vec<Record>, images: &[usize], previous: PictureReach, reach: PictureReach) -> (unknown: Vec<usize>)
    requires
        !(previous.first == 0 && previous.last == usize::MAX),
        !(reach.first == 0 && reach.last == usize::MAX),
        forall|k: int| 0 <= k < images@.len() ==> #[trigger] images@[k] < old(records)@.len(),
    ensures
        unknown@ == band_of(images@, previous) + band_of(images@, reach),
        final(records)@.len() == old(records)@.len(),
        forall|i: int|
            0 <= i < old(records)@.len() ==> #[trigger] final(records)@[i] == (if unknown@.contains(i as usize) {
                inexact(old(records)@[i])
            } else {
                old(records)@[i]
            }),
{
    let mut unknown = band(images, previous);
    let later = band(images, reach);
    let mut k: usize = 0;
    let ghost first = unknown@;
    while k < later.len()
        invariant
            0 <= k <= later@.len(),
            unknown@ == first + later@.subrange(0, k as int),
        decreases later@.len() - k,
    {
        unknown.push(later[k]);
        proof {
            assert(unknown@ =~= first + later@.subrange(0, k + 1));
        }
        k = k + 1;
    }
    proof {
        assert(later@.subrange(0, later@.len() as int) =~= later@);
        assert forall|j: int| 0 <= j < unknown@.len() implies #[trigger] unknown@[j] < old(records)@.len() by {
            let r = band_of(images@, previous);
            let s = band_of(images@, reach);
            if j < r.len() {
                assert(unknown@[j] == r[j]);
            } else {
                assert(unknown@[j] == s[j - r.len()]);
            }
        }
    }
    mark_inexact(records, &unknown);
    unknown
}

// ── where the reading position goes ─────────────────────────────────────────

/// Where a reading anchor goes when the document is parsed again.
#[derive(Clone, Copy, Debug, PartialEq, Eq, Structural)]
pub enum AnchorMove {
    /// There are no blocks: the anchor goes back to the top of the page.
    Reset,
    /// Its own block is still there, with its byte inside it: it keeps its
    /// place in that block, which is now at `index`.
    Stay { index: usize },
    /// It moves to the block holding its byte, or the first one after it, or
    /// the last one; `forget` when its own block was deleted, so the place
    /// within the block and the byte go with it.
    Move { index: usize, id: u64, forget: bool },
    /// No block to move to: it is left as it was.
    Keep,
}

/// The first index of `ids` holding `id`, if any.
pub open spec fn first_holding(ids: Seq<u64>, id: u64) -> Option<int> {
    if exists|i: int| 0 <= i < ids.len() && ids[i] == id {
        Some(choose|i: int| 0 <= i < ids.len() && ids[i] == id && forall|j: int| 0 <= j < i ==> ids[j] != id)
    } else {
        None
    }
}

/// The ends of a list of ranges.
pub open spec fn range_ends(ranges: Seq<std::ops::Range<usize>>) -> Seq<usize> {
    Seq::new(ranges.len(), |i: int| ranges[i].end)
}

/// How many blocks end at or before `byte` — the first block that ends after
/// it.
pub open spec fn blocks_before(ranges: Seq<std::ops::Range<usize>>, byte: int) -> int {
    crate::preview_edit::count_le(range_ends(ranges), byte, ranges.len() as int)
}

/// Where a reading anchor goes: `ids` are the new blocks' identities, the
/// anchor was on old block `index` with identity `id`, at file byte `byte`
/// when it knew one.
pub open spec fn anchor_move_spec(
    ids: Seq<u64>,
    id: u64,
    index: int,
    byte: Option<usize>,
    old: Seq<std::ops::Range<usize>>,
    ranges: Seq<std::ops::Range<usize>>,
    edits: Seq<Edit>,
) -> AnchorMove {
    if ids.len() == 0 {
        AnchorMove::Reset
    } else {
        let moved = match byte {
            Some(b) => Some(mapped_through(b as int, edits, true)),
            None => None,
        };
        let own = first_holding(ids, id);
        if own is Some && match moved {
            Some(m) => ranges[own->0].start <= m <= ranges[own->0].end,
            None => true,
        } {
            AnchorMove::Stay { index: own->0 as usize }
        } else {
            let deleted = !(0 <= index < old.len()) || mapped_through(old[index].start as int, edits, true)
                >= mapped_through(old[index].end as int, edits, false);
            let at = match moved {
                Some(m) => m,
                None => mapped_through(
                    if 0 <= index < old.len() {
                        old[index].start as int
                    } else {
                        0
                    },
                    edits,
                    true,
                ),
            };
            let before = blocks_before(ranges, at);
            let to = if ranges.len() == 0 {
                0
            } else if before < ranges.len() - 1 {
                before
            } else {
                ranges.len() - 1
            };
            if to < ids.len() {
                AnchorMove::Move { index: to as usize, id: ids[to], forget: deleted }
            } else {
                AnchorMove::Keep
            }
        }
    }
}

/// Where a reading anchor goes after a re-parse, from the new blocks'
/// identities and ranges and the edits since the old parse.
pub fn remap_anchor(
    ids: &[u64],
    id: u64,
    index: usize,
    byte: Option<usize>,
    old_ranges: &[std::ops::Range<usize>],
    ranges: &[std::ops::Range<usize>],
    edits: &[Edit],
) -> (r: AnchorMove)
    requires
        ids@.len() <= ranges@.len(),
        crate::preview_edit::sorted(range_ends(ranges@)),
        byte matches Some(b) ==> maps_through_within(b as int, edits@, true),
        index < old_ranges@.len() ==> maps_through_within(old_ranges@[index as int].start as int, edits@, true)
            && maps_through_within(old_ranges@[index as int].end as int, edits@, false),
        index >= old_ranges@.len() ==> maps_through_within(0, edits@, true),
    ensures
        r == anchor_move_spec(ids@, id, index as int, byte, old_ranges@, ranges@, edits@),
{
    if ids.len() == 0 {
        return AnchorMove::Reset;
    }
    let moved = match byte {
        Some(b) => Some(map_byte(b, edits, true)),
        None => None,
    };
    let mut own: Option<usize> = None;
    let mut i: usize = 0;
    while i < ids.len()
        invariant
            0 <= i <= ids@.len(),
            own is None ==> forall|j: int| 0 <= j < i ==> ids@[j] != id,
            own matches Some(o) ==> o < i && ids@[o as int] == id && forall|j: int| 0 <= j < o ==> ids@[j] != id,
        decreases ids@.len() - i,
    {
        if own.is_none() && ids[i] == id {
            own = Some(i);
        }
        i = i + 1;
    }
    proof {
        match own {
            Some(o) => {
                assert(ids@[o as int] == id);
                let c = choose|c: int| 0 <= c < ids@.len() && ids@[c] == id && forall|j: int| 0 <= j < c ==> ids@[j] != id;
                if c < o {
                    assert(ids@[c] != id);
                } else if c > o {
                    assert(ids@[o as int] != id);
                }
                assert(first_holding(ids@, id) == Some(o as int));
            },
            None => {
                assert(!(exists|c: int| 0 <= c < ids@.len() && ids@[c] == id));
                assert(first_holding(ids@, id) is None);
            },
        }
    }
    if let Some(o) = own {
        let inside = match moved {
            Some(m) => ranges[o].start <= m && m <= ranges[o].end,
            None => true,
        };
        if inside {
            return AnchorMove::Stay { index: o };
        }
    }
    let deleted = if index < old_ranges.len() {
        map_byte(old_ranges[index].start, edits, true) >= map_byte(old_ranges[index].end, edits, false)
    } else {
        true
    };
    let at = match moved {
        Some(m) => m,
        None => map_byte(
            if index < old_ranges.len() {
                old_ranges[index].start
            } else {
                0
            },
            edits,
            true,
        ),
    };
    let mut ends: Vec<usize> = Vec::new();
    let mut k: usize = 0;
    while k < ranges.len()
        invariant
            0 <= k <= ranges@.len(),
            ends@ == range_ends(ranges@).subrange(0, k as int),
        decreases ranges@.len() - k,
    {
        ends.push(ranges[k].end);
        proof {
            assert(ends@ =~= range_ends(ranges@).subrange(0, k + 1));
        }
        k = k + 1;
    }
    proof {
        assert(ends@ =~= range_ends(ranges@));
    }
    let before = crate::preview_edit::partition_le(ends.as_slice(), at);
    let to = if before < ranges.len() - 1 {
        before
    } else {
        ranges.len() - 1
    };
    if to < ids.len() {
        AnchorMove::Move { index: to, id: ids[to], forget: deleted }
    } else {
        AnchorMove::Keep
    }
}

} // verus!
