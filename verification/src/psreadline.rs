//! The PSReadLine a Windows PowerShell can be given, and the decisions this
//! window makes about it.
//!
//! Windows PowerShell 5.1 ships PSReadLine 2.0.0, whose edit anchor does not
//! survive a resize; 2.4.6 is the first version whose anchor does. This module
//! holds the version arithmetic, the reading of the probe's answer, the
//! settings row's state and which of its actions can be taken, the
//! invitation's trigger table, and the order of Folio's own patch builds.
use vstd::prelude::*;
use vstd::string::*;
use crate::preview_select::{code_lines_from, decimal, decimal_string};
use crate::utf8_text::{byte_len, bytes_of, push_str, slice, str_eq, utf8};

verus! {

broadcast use vstd::utf8::encode_utf8_valid_utf8;

/// The module version this build carries and installs.
pub const PATCHED_VERSION: &'static str = "2.4.6";

/// The build stamp inside the module this build carries.
pub const PATCHED_BUILD: &'static str = "2.4.6-bt.2";

/// Where a per-user module for Windows PowerShell 5.1 lives, under Documents.
pub const MODULE_RELATIVE_PATH: &'static str = "WindowsPowerShell\\Modules\\PSReadLine";

// ── text ────────────────────────────────────────────────────────────────────

/// Whether a character has the Unicode `White_Space` property — what
/// `str::trim` takes off both ends.
pub open spec fn is_white_space(c: char) -> bool {
    let u = c as u32;
    (9 <= u <= 13) || u == 32 || u == 0x85 || u == 0xA0 || u == 0x1680 || (0x2000 <= u <= 0x200A) || u
        == 0x2028 || u == 0x2029 || u == 0x202F || u == 0x205F || u == 0x3000
}

fn white_space(c: char) -> (r: bool)
    ensures
        r == is_white_space(c),
{
    let u = c as u32;
    (9 <= u && u <= 13) || u == 32 || u == 0x85 || u == 0xA0 || u == 0x1680 || (0x2000 <= u && u <= 0x200A)
        || u == 0x2028 || u == 0x2029 || u == 0x202F || u == 0x205F || u == 0x3000
}

/// The first index from `i` on that is not white space, or the length.
pub open spec fn lead_end(t: Seq<char>, i: int) -> int
    decreases t.len() - i,
{
    if 0 <= i < t.len() && is_white_space(t[i]) {
        lead_end(t, i + 1)
    } else {
        i
    }
}

/// `j`, walked back over white space but not past `lo`.
pub open spec fn trail_start(t: Seq<char>, lo: int, j: int) -> int
    decreases j,
{
    if 0 <= lo < j <= t.len() && is_white_space(t[j - 1]) {
        trail_start(t, lo, j - 1)
    } else {
        j
    }
}

/// `t` with the white space at both ends taken off.
pub open spec fn trimmed(t: Seq<char>) -> Seq<char> {
    let lo = lead_end(t, 0);
    t.subrange(lo, trail_start(t, lo, t.len() as int))
}

proof fn lemma_lead_end(t: Seq<char>, i: int)
    requires
        0 <= i <= t.len(),
    ensures
        i <= lead_end(t, i) <= t.len(),
    decreases t.len() - i,
{
    if i < t.len() && is_white_space(t[i]) {
        lemma_lead_end(t, i + 1);
    }
}

proof fn lemma_trail_start(t: Seq<char>, lo: int, j: int)
    requires
        0 <= lo <= j <= t.len(),
    ensures
        lo <= trail_start(t, lo, j) <= j,
    decreases j,
{
    if j > lo && is_white_space(t[j - 1]) {
        lemma_trail_start(t, lo, j - 1);
    }
}

/// The string with the white space at both ends taken off.
fn trim(text: &str) -> (r: &str)
    ensures
        r@ == trimmed(text@),
{
    let n = text.unicode_len();
    let mut lo: usize = 0;
    while lo < n && white_space(text.get_char(lo))
        invariant
            n == text@.len(),
            0 <= lo <= n,
            lead_end(text@, lo as int) == lead_end(text@, 0),
        decreases n - lo,
    {
        lo = lo + 1;
    }
    let mut hi: usize = n;
    while hi > lo && white_space(text.get_char(hi - 1))
        invariant
            n == text@.len(),
            0 <= lo <= hi <= n,
            lead_end(text@, 0) == lo,
            trail_start(text@, lo as int, hi as int) == trail_start(text@, lo as int, n as int),
        decreases hi,
    {
        hi = hi - 1;
    }
    text.substring_char(lo, hi)
}

// ── numbers ─────────────────────────────────────────────────────────────────

/// Whether every character is an ASCII digit.
pub open spec fn all_digits(t: Seq<char>) -> bool {
    forall|i: int| 0 <= i < t.len() ==> '0' <= #[trigger] t[i] <= '9'
}

/// The number a run of ASCII digits spells.
pub open spec fn digits_value(t: Seq<char>) -> int
    decreases t.len(),
{
    if t.len() == 0 {
        0
    } else {
        digits_value(t.drop_last()) * 10 + (t.last() as int - 48)
    }
}

/// `u32::from_str`: an optional `+`, then one or more ASCII digits, naming a
/// value that fits.
pub open spec fn parse_u32_spec(t: Seq<char>) -> Option<u32> {
    let d = if t.len() > 0 && t[0] == '+' {
        t.subrange(1, t.len() as int)
    } else {
        t
    };
    if d.len() == 0 || !all_digits(d) || digits_value(d) > u32::MAX {
        None
    } else {
        Some(digits_value(d) as u32)
    }
}

proof fn lemma_digits_nonneg(t: Seq<char>)
    requires
        all_digits(t),
    ensures
        digits_value(t) >= 0,
    decreases t.len(),
{
    if t.len() > 0 {
        let init = t.drop_last();
        assert forall|m: int| 0 <= m < init.len() implies '0' <= #[trigger] init[m] <= '9' by {
            assert(init[m] == t[m]);
        }
        lemma_digits_nonneg(init);
        assert('0' <= t[t.len() - 1] <= '9');
    }
}

proof fn lemma_digits_grow(t: Seq<char>, j: int, k: int)
    requires
        0 <= j <= k <= t.len(),
        all_digits(t),
    ensures
        digits_value(t.take(j)) <= digits_value(t.take(k)),
    decreases k - j,
{
    if j < k {
        lemma_digits_grow(t, j, k - 1);
        assert(t.take(k).drop_last() =~= t.take(k - 1));
        let p = t.take(k - 1);
        assert forall|m: int| 0 <= m < p.len() implies '0' <= #[trigger] p[m] <= '9' by {
            assert(p[m] == t[m]);
        }
        lemma_digits_nonneg(p);
        assert('0' <= t[k - 1] <= '9');
        assert(t.take(k).last() == t[k - 1]);
    }
}

/// `text.parse::<u32>()`, as an option.
pub fn parse_u32(text: &str) -> (r: Option<u32>)
    ensures
        r == parse_u32_spec(text@),
{
    let n = text.unicode_len();
    let start: usize = if n > 0 && text.get_char(0) == '+' {
        1
    } else {
        0
    };
    let ghost d = if text@.len() > 0 && text@[0] == '+' {
        text@.subrange(1, text@.len() as int)
    } else {
        text@
    };
    if start == n {
        return None;
    }
    let mut value: u64 = 0;
    let mut i: usize = start;
    proof {
        assert(d.take(0) =~= Seq::<char>::empty());
    }
    while i < n
        invariant
            n == text@.len(),
            start <= i <= n,
            d == text@.subrange(start as int, n as int),
            d == (if text@.len() > 0 && text@[0] == '+' {
                text@.subrange(1, text@.len() as int)
            } else {
                text@
            }),
            value == digits_value(d.take(i - start)),
            value <= u32::MAX,
            all_digits(d.take(i - start)),
        decreases n - i,
    {
        let c = text.get_char(i);
        if !('0' <= c && c <= '9') {
            proof {
                assert(d[i - start] == c);
            }
            return None;
        }
        let digit = (c as u32 - 48) as u64;
        proof {
            let k = i - start;
            assert(d.take(k + 1).drop_last() =~= d.take(k));
            assert(d.take(k + 1).last() == c);
            assert(all_digits(d.take(k + 1))) by {
                assert forall|m: int| 0 <= m < k + 1 implies '0' <= #[trigger] d.take(k + 1)[m] <= '9' by {
                    if m < k {
                        assert(d.take(k + 1)[m] == d.take(k)[m]);
                    }
                }
            }
        }
        value = value * 10 + digit;
        if value > 0xFFFF_FFFF {
            proof {
                assert(d.take(d.len() as int) =~= d);
                if all_digits(d) {
                    lemma_digits_grow(d, i + 1 - start, d.len() as int);
                }
            }
            return None;
        }
        i = i + 1;
    }
    proof {
        assert(d.take(n - start) =~= d);
    }
    Some(value as u32)
}

// ── versions ────────────────────────────────────────────────────────────────

/// A `System.Version`, compared the way PowerShell compares one: by number,
/// component by component.
#[derive(Clone, Copy, Debug, Default, PartialEq, Eq, Structural, PartialOrd, Ord)]
pub struct Version {
    pub major: u32,
    pub minor: u32,
    pub build: u32,
}

/// `a` is at least `b`, component by component.
pub open spec fn version_ge(a: Version, b: Version) -> bool {
    a.major > b.major || (a.major == b.major && (a.minor > b.minor || (a.minor == b.minor && a.build >= b.build)))
}

/// The first `'.'` from `i` on, or the length.
pub open spec fn next_dot(t: Seq<char>, i: int) -> int
    decreases t.len() - i,
{
    if i < 0 || i >= t.len() {
        t.len() as int
    } else if t[i] == '.' {
        i
    } else {
        next_dot(t, i + 1)
    }
}

proof fn lemma_next_dot(t: Seq<char>, i: int)
    requires
        0 <= i <= t.len(),
    ensures
        i <= next_dot(t, i) <= t.len(),
    decreases t.len() - i,
{
    if i < t.len() && t[i] != '.' {
        lemma_next_dot(t, i + 1);
    }
}

/// `t` from `i` on, cut at every `'.'` — `str::split('.')`.
pub open spec fn dot_parts_from(t: Seq<char>, i: int) -> Seq<Seq<char>>
    decreases t.len() - i,
{
    let d = next_dot(t, i);
    if i < 0 || i > t.len() || d >= t.len() || d < i {
        seq![t.subrange(i, t.len() as int)]
    } else {
        seq![t.subrange(i, d)] + dot_parts_from(t, d + 1)
    }
}

/// One component of a version: the part trimmed and read as a number; a
/// missing part is zero.
pub open spec fn component(parts: Seq<Seq<char>>, k: int) -> Option<u32> {
    if k < parts.len() {
        parse_u32_spec(trimmed(parts[k]))
    } else {
        Some(0)
    }
}

/// `Major.Minor[.Build[.Revision]]`, every shape `System.Version` prints; the
/// revision is read and dropped, and a fifth part is refused.
pub open spec fn version_parse_spec(text: Seq<char>) -> Option<Version> {
    let parts = dot_parts_from(trimmed(text), 0);
    match (component(parts, 0), component(parts, 1), component(parts, 2)) {
        (Some(major), Some(minor), Some(build)) => if parts.len() > 3 && component(parts, 3).is_none() {
            None
        } else if parts.len() > 4 {
            None
        } else {
            Some(Version { major, minor, build })
        },
        _ => None,
    }
}

/// `text` cut at every `'.'`.
fn dot_parts(text: &str) -> (parts: Vec<&str>)
    ensures
        parts@.len() == dot_parts_from(text@, 0).len(),
        forall|k: int| 0 <= k < parts@.len() ==> #[trigger] parts@[k]@ == dot_parts_from(text@, 0)[k],
{
    let n = text.unicode_len();
    let ghost t = text@;
    let mut parts: Vec<&str> = Vec::new();
    let mut start: usize = 0;
    let mut more = true;
    while more
        invariant
            n == t.len(),
            t == text@,
            0 <= start <= n,
            more ==> (Seq::new(parts@.len(), |k: int| parts@[k]@) + dot_parts_from(t, start as int)
                == dot_parts_from(t, 0)),
            !more ==> Seq::new(parts@.len(), |k: int| parts@[k]@) == dot_parts_from(t, 0),
        decreases n - start + (if more { 1int } else { 0int }),
    {
        let mut d = start;
        while d < n && text.get_char(d) != '.'
            invariant
                n == t.len(),
                t == text@,
                start <= d <= n,
                next_dot(t, d as int) == next_dot(t, start as int),
            decreases n - d,
        {
            d = d + 1;
        }
        let ghost before = Seq::new(parts@.len(), |k: int| parts@[k]@);
        let piece = text.substring_char(start, d);
        parts.push(piece);
        proof {
            assert(Seq::new(parts@.len(), |k: int| parts@[k]@) =~= before.push(t.subrange(start as int, d as int)));
        }
        if d >= n {
            proof {
                assert(dot_parts_from(t, start as int) == seq![t.subrange(start as int, n as int)]);
                assert(before + dot_parts_from(t, start as int) =~= before.push(t.subrange(start as int, d as int)));
            }
            more = false;
        } else {
            proof {
                assert(dot_parts_from(t, start as int) == seq![t.subrange(start as int, d as int)] + dot_parts_from(
                    t,
                    d + 1,
                ));
                assert(before + dot_parts_from(t, start as int) =~= before.push(t.subrange(start as int, d as int))
                    + dot_parts_from(t, d + 1));
            }
            start = d + 1;
        }
    }
    proof {
        let views = Seq::new(parts@.len(), |k: int| parts@[k]@);
        assert forall|k: int| 0 <= k < parts@.len() implies #[trigger] parts@[k]@ == dot_parts_from(t, 0)[k] by {
            assert(views[k] == parts@[k]@);
        }
    }
    parts
}

impl Version {
    /// Parse `Major.Minor[.Build[.Revision]]`, which is every shape
    /// `System.Version` prints. A revision is read and discarded, so `2.4.6.0`
    /// is `2.4.6`.
    pub fn parse(text: &str) -> (r: Option<Self>)
        ensures
            r == version_parse_spec(text@),
    {
        let text = trim(text);
        let parts = dot_parts(text);
        let ghost ps = dot_parts_from(text@, 0);
        proof {
            if parts@.len() == 0 {
                assert(ps.len() > 0) by {
                    lemma_next_dot(text@, 0);
                }
            }
            assert(ps.len() > 0) by {
                lemma_next_dot(text@, 0);
            }
        }
        let major = match parse_u32(trim(parts[0])) {
            Some(v) => v,
            None => return None,
        };
        let minor = if parts.len() > 1 {
            match parse_u32(trim(parts[1])) {
                Some(v) => v,
                None => return None,
            }
        } else {
            0
        };
        let build = if parts.len() > 2 {
            match parse_u32(trim(parts[2])) {
                Some(v) => v,
                None => return None,
            }
        } else {
            0
        };
        if parts.len() > 3 {
            if parse_u32(trim(parts[3])).is_none() {
                return None;
            }
        }
        if parts.len() > 4 {
            return None;
        }
        Some(Version { major, minor, build })
    }
}

/// `"."`.
fn dot() -> (r: &'static str)
    ensures
        utf8(r@) == seq![46u8],
{
    proof {
        reveal_strlit(".");
    }
    let s = ".";
    proof {
        crate::utf8_text::lemma_ascii_literal(s@);
        assert(utf8(s@) =~= seq![46u8]);
    }
    s
}

/// The bytes `System.Version` prints a version as.
pub open spec fn version_text_spec(v: Version) -> Seq<u8> {
    decimal(v.major as nat) + seq![46u8] + decimal(v.minor as nat) + seq![46u8] + decimal(v.build as nat)
}

/// The decimal digits of `n`, as characters.
pub open spec fn decimal_chars(n: nat) -> Seq<char>
    decreases n,
{
    if n < 10 {
        seq![(48 + n) as char]
    } else {
        decimal_chars(n / 10).push((48 + n % 10) as char)
    }
}

proof fn lemma_decimal_chars(n: nat)
    ensures
        decimal_chars(n).len() >= 1,
        all_digits(decimal_chars(n)),
        digits_value(decimal_chars(n)) == n,
        utf8(decimal_chars(n)) == decimal(n),
    decreases n,
{
    let c = (48 + n % 10) as char;
    assert(c as int == 48 + n % 10);
    let one = seq![c];
    assert(vstd::utf8::is_ascii_chars(one));
    vstd::utf8::is_ascii_chars_encode_utf8(one);
    assert(utf8(one) =~= seq![(48 + n % 10) as u8]);
    if n < 10 {
        assert(one.drop_last() =~= Seq::<char>::empty());
        assert(decimal_chars(n) == one);
        assert(digits_value(Seq::<char>::empty()) == 0);
        assert(digits_value(one) == digits_value(one.drop_last()) * 10 + (c as int - 48));
    } else {
        lemma_decimal_chars(n / 10);
        let d = decimal_chars(n / 10);
        let t = decimal_chars(n);
        assert(t.drop_last() =~= d);
        assert(t.last() == c);
        assert forall|i: int| 0 <= i < t.len() implies '0' <= #[trigger] t[i] <= '9' by {
            if i < d.len() {
                assert(t[i] == d[i]);
            }
        }
        assert(t =~= d + one);
        crate::utf8_text::lemma_utf8_concat(d, one);
        assert(digits_value(t) == digits_value(d) * 10 + (c as int - 48));
        assert(n == (n / 10) * 10 + n % 10);
    }
}

/// A run of ASCII digits is not cut by `next_dot` before its end.
proof fn lemma_next_dot_run(t: Seq<char>, i: int, j: int)
    requires
        0 <= i <= j <= t.len(),
        forall|k: int| i <= k < j ==> t[k] != '.',
        j < t.len() ==> t[j] == '.',
    ensures
        next_dot(t, i) == j,
    decreases j - i,
{
    if i < j {
        lemma_next_dot_run(t, i + 1, j);
    }
}

/// A run that begins and ends with a digit has no white space to trim.
proof fn lemma_trim_digits_ends(t: Seq<char>)
    requires
        t.len() >= 1,
        '0' <= t[0] <= '9',
        '0' <= t[t.len() - 1] <= '9',
    ensures
        trimmed(t) == t,
{
    assert(!is_white_space(t[0]));
    assert(!is_white_space(t[t.len() - 1]));
    assert(lead_end(t, 0) == 0);
    assert(trail_start(t, 0, t.len() as int) == t.len());
    assert(t.subrange(0, t.len() as int) =~= t);
}

/// A version printed is the version it reads back as.
pub proof fn law_a_printed_version_reads_back(v: Version, shown: Seq<char>)
    requires
        utf8(shown) == version_text_spec(v),
    ensures
        version_parse_spec(shown) == Some(v),
{
    let a = decimal_chars(v.major as nat);
    let b = decimal_chars(v.minor as nat);
    let c = decimal_chars(v.build as nat);
    lemma_decimal_chars(v.major as nat);
    lemma_decimal_chars(v.minor as nat);
    lemma_decimal_chars(v.build as nat);
    let dot = seq!['.'];
    assert(vstd::utf8::is_ascii_chars(dot));
    vstd::utf8::is_ascii_chars_encode_utf8(dot);
    assert(utf8(dot) =~= seq![46u8]);
    let t = a + dot + b + dot + c;
    crate::utf8_text::lemma_utf8_concat(a, dot);
    crate::utf8_text::lemma_utf8_concat(a + dot, b);
    crate::utf8_text::lemma_utf8_concat(a + dot + b, dot);
    crate::utf8_text::lemma_utf8_concat(a + dot + b + dot, c);
    assert(utf8(t) == version_text_spec(v));
    crate::utf8_text::lemma_utf8_injective(shown, t);
    assert(t[0] == a[0]);
    assert(t[t.len() - 1] == c[c.len() - 1]);
    lemma_trim_digits_ends(t);
    let p = a.len() as int;
    let q = p + 1 + b.len();
    assert(t[p] == '.');
    assert(t[q] == '.');
    assert forall|k: int| 0 <= k < p implies t[k] != '.' by {
        assert(t[k] == a[k]);
    }
    assert forall|k: int| p + 1 <= k < q implies t[k] != '.' by {
        assert(t[k] == b[k - p - 1]);
    }
    assert forall|k: int| q + 1 <= k < t.len() implies t[k] != '.' by {
        assert(t[k] == c[k - q - 1]);
    }
    lemma_next_dot_run(t, 0, p);
    lemma_next_dot_run(t, p + 1, q);
    lemma_next_dot_run(t, q + 1, t.len() as int);
    assert(t.subrange(0, p) =~= a);
    assert(t.subrange(p + 1, q) =~= b);
    assert(t.subrange(q + 1, t.len() as int) =~= c);
    let parts = dot_parts_from(t, 0);
    assert(dot_parts_from(t, q + 1) == seq![c]);
    assert(dot_parts_from(t, p + 1) == seq![b] + seq![c]);
    assert(parts == seq![a] + (seq![b] + seq![c]));
    assert(parts =~= seq![a, b, c]);
    lemma_trim_digits_ends(a);
    lemma_trim_digits_ends(b);
    lemma_trim_digits_ends(c);
    assert(component(parts, 0) == Some(v.major));
    assert(component(parts, 1) == Some(v.minor));
    assert(component(parts, 2) == Some(v.build));
}

impl Version {
    /// The version as `System.Version` would print it.
    pub fn text(self) -> (r: String)
        ensures
            utf8(r@) == version_text_spec(self),
    {
        let mut out = decimal_string(self.major as u64);
        push_str(&mut out, dot());
        let minor = decimal_string(self.minor as u64);
        push_str(&mut out, minor.as_str());
        push_str(&mut out, dot());
        let build = decimal_string(self.build as u64);
        push_str(&mut out, build.as_str());
        out
    }
}

proof fn lemma_one_digit(c: char)
    requires
        '0' <= c <= '9',
    ensures
        parse_u32_spec(trimmed(seq![c])) == Some((c as u32 - 48) as u32),
{
    let t = seq![c];
    assert(lead_end(t, 1) == 1);
    assert(lead_end(t, 0) == 0);
    assert(trail_start(t, 0, 1) == 1);
    assert(trimmed(t) =~= t);
    assert(t.drop_last() =~= Seq::<char>::empty());
    assert(digits_value(t.drop_last()) == 0);
    assert(t.last() == c);
    assert(digits_value(t) == c as int - 48);
}

proof fn lemma_patched_version_parses()
    ensures
        version_parse_spec("2.4.6"@) == Some(Version { major: 2, minor: 4, build: 6 }),
{
    reveal_strlit("2.4.6");
    let t = seq!['2', '.', '4', '.', '6'];
    assert("2.4.6"@ =~= t);
    assert(lead_end(t, 0) == 0);
    assert(trail_start(t, 0, 5) == 5);
    assert(trimmed(t) =~= t);
    assert(next_dot(t, 5) == 5);
    assert(next_dot(t, 4) == 5);
    assert(next_dot(t, 3) == 3);
    assert(next_dot(t, 2) == 3);
    assert(next_dot(t, 1) == 1);
    assert(next_dot(t, 0) == 1);
    assert(dot_parts_from(t, 4) == seq![t.subrange(4, 5)]);
    assert(dot_parts_from(t, 2) == seq![t.subrange(2, 3)] + dot_parts_from(t, 4));
    assert(dot_parts_from(t, 0) == seq![t.subrange(0, 1)] + dot_parts_from(t, 2));
    let parts = dot_parts_from(t, 0);
    assert(t.subrange(0, 1) =~= seq!['2']);
    assert(t.subrange(2, 3) =~= seq!['4']);
    assert(t.subrange(4, 5) =~= seq!['6']);
    assert(parts =~= seq![seq!['2'], seq!['4'], seq!['6']]);
    lemma_one_digit('2');
    lemma_one_digit('4');
    lemma_one_digit('6');
}

/// The version this build installs, parsed.
pub fn patched_version() -> (v: Version)
    ensures
        v == (Version { major: 2, minor: 4, build: 6 }),
        Some(v) == version_parse_spec(PATCHED_VERSION@),
{
    proof {
        lemma_patched_version_parses();
    }
    match Version::parse(PATCHED_VERSION) {
        Some(v) => v,
        None => Version { major: 2, minor: 4, build: 6 },
    }
}

// ── the probe ───────────────────────────────────────────────────────────────

/// Windows' script execution policy, as `Get-ExecutionPolicy` reports it.
#[derive(Clone, Copy, Debug, Default, PartialEq, Eq, Structural)]
pub enum ExecutionPolicy {
    Restricted,
    AllSigned,
    RemoteSigned,
    Unrestricted,
    Bypass,
    /// No policy is set anywhere; `Get-ExecutionPolicy` prints `Undefined`.
    Undefined,
    /// The probe did not answer, or answered a word this build has no name
    /// for. Treated as permissive.
    #[default]
    Unknown,
}

/// The policy a word names, or `Unknown`.
pub open spec fn policy_named(t: Seq<char>) -> ExecutionPolicy {
    if t == "Restricted"@ {
        ExecutionPolicy::Restricted
    } else if t == "AllSigned"@ {
        ExecutionPolicy::AllSigned
    } else if t == "RemoteSigned"@ {
        ExecutionPolicy::RemoteSigned
    } else if t == "Unrestricted"@ {
        ExecutionPolicy::Unrestricted
    } else if t == "Bypass"@ {
        ExecutionPolicy::Bypass
    } else if t == "Undefined"@ {
        ExecutionPolicy::Undefined
    } else {
        ExecutionPolicy::Unknown
    }
}

/// `Get-ExecutionPolicy`'s own word for a policy.
pub open spec fn policy_name(p: ExecutionPolicy) -> Seq<char> {
    match p {
        ExecutionPolicy::Restricted => "Restricted"@,
        ExecutionPolicy::AllSigned => "AllSigned"@,
        ExecutionPolicy::RemoteSigned => "RemoteSigned"@,
        ExecutionPolicy::Unrestricted => "Unrestricted"@,
        ExecutionPolicy::Bypass => "Bypass"@,
        ExecutionPolicy::Undefined => "Undefined"@,
        ExecutionPolicy::Unknown => "Unknown"@,
    }
}

impl ExecutionPolicy {
    /// The policy a line names, white space at its ends ignored; `Unknown` for
    /// anything else.
    pub fn parse(text: &str) -> (p: Self)
        ensures
            p == policy_named(trimmed(text@)),
    {
        let t = trim(text);
        if str_eq(t, "Restricted") {
            ExecutionPolicy::Restricted
        } else if str_eq(t, "AllSigned") {
            ExecutionPolicy::AllSigned
        } else if str_eq(t, "RemoteSigned") {
            ExecutionPolicy::RemoteSigned
        } else if str_eq(t, "Unrestricted") {
            ExecutionPolicy::Unrestricted
        } else if str_eq(t, "Bypass") {
            ExecutionPolicy::Bypass
        } else if str_eq(t, "Undefined") {
            ExecutionPolicy::Undefined
        } else {
            ExecutionPolicy::Unknown
        }
    }

    /// `Get-ExecutionPolicy`'s own word, for the reason line.
    pub fn name(self) -> (r: &'static str)
        ensures
            r@ == policy_name(self),
    {
        match self {
            ExecutionPolicy::Restricted => "Restricted",
            ExecutionPolicy::AllSigned => "AllSigned",
            ExecutionPolicy::RemoteSigned => "RemoteSigned",
            ExecutionPolicy::Unrestricted => "Unrestricted",
            ExecutionPolicy::Bypass => "Bypass",
            ExecutionPolicy::Undefined => "Undefined",
            ExecutionPolicy::Unknown => "Unknown",
        }
    }

    /// Whether a module Folio writes could be imported at all: `AllSigned` and
    /// `Restricted` refuse an unsigned script module; `Undefined` as reported is
    /// the permissive case.
    pub fn refuses_unsigned_modules(self) -> (r: bool)
        ensures
            r == (self == ExecutionPolicy::AllSigned || self == ExecutionPolicy::Restricted),
    {
        match self {
            ExecutionPolicy::AllSigned | ExecutionPolicy::Restricted => true,
            _ => false,
        }
    }
}

/// Every policy's own word reads back as that policy: what `name` prints,
/// `parse` takes back to the same policy, `Unknown` included.
pub proof fn law_a_policy_name_reads_back(p: ExecutionPolicy)
    ensures
        policy_named(trimmed(policy_name(p))) == p,
{
    reveal_strlit("Restricted");
    reveal_strlit("AllSigned");
    reveal_strlit("RemoteSigned");
    reveal_strlit("Unrestricted");
    reveal_strlit("Bypass");
    reveal_strlit("Undefined");
    reveal_strlit("Unknown");
    let t = policy_name(p);
    assert(!is_white_space(t[0]));
    assert(!is_white_space(t[t.len() - 1]));
    assert(lead_end(t, 0) == 0);
    assert(trail_start(t, 0, t.len() as int) == t.len());
    assert(t.subrange(0, t.len() as int) =~= t);
}

// ── where the module goes ───────────────────────────────────────────────────

/// A path's components as values.
pub open spec fn component_texts(path: Seq<String>) -> Seq<Seq<char>> {
    path.map_values(|c: String| c@)
}

/// The components of the directory the module goes in, under a Documents
/// folder: the folder's own, then `tail` — the platform's components of
/// [`MODULE_RELATIVE_PATH`] joined with [`PATCHED_VERSION`].
pub fn module_directory(documents: &[String], tail: &[String]) -> (r: Vec<String>)
    ensures
        component_texts(r@) == component_texts(documents@) + component_texts(tail@),
{
    let mut out: Vec<String> = Vec::new();
    let mut i: usize = 0;
    while i < documents.len()
        invariant
            0 <= i <= documents@.len(),
            out@ == documents@.subrange(0, i as int),
        decreases documents@.len() - i,
    {
        out.push(documents[i].clone());
        proof {
            assert(out@ =~= documents@.subrange(0, i + 1));
        }
        i = i + 1;
    }
    let mut j: usize = 0;
    while j < tail.len()
        invariant
            0 <= j <= tail@.len(),
            out@ == documents@ + tail@.subrange(0, j as int),
        decreases tail@.len() - j,
    {
        out.push(tail[j].clone());
        proof {
            assert(out@ =~= documents@ + tail@.subrange(0, j + 1));
        }
        j = j + 1;
    }
    proof {
        assert(documents@.subrange(0, documents@.len() as int) =~= documents@);
        assert(out@ =~= documents@ + tail@);
        assert(component_texts(documents@ + tail@) =~= component_texts(documents@) + component_texts(tail@));
    }
    out
}

/// The Documents folder a module root was written under: the ancestor of the
/// root whose module directory is the root — the root with `tail` taken off
/// its end — and `None` for a root of any other shape.
pub open spec fn documents_of_root(root: Seq<Seq<char>>, tail: Seq<Seq<char>>) -> Option<Seq<Seq<char>>> {
    if root.len() >= tail.len() && root.subrange(root.len() - tail.len(), root.len() as int) == tail {
        Some(root.subrange(0, root.len() - tail.len()))
    } else {
        None
    }
}

/// The Documents folder a recorded module root was written under: roots must
/// have exactly the shape this writer owns.
pub fn documents_for_module_root(root: &[String], tail: &[String]) -> (r: Option<Vec<String>>)
    ensures
        match r {
            Some(d) => documents_of_root(component_texts(root@), component_texts(tail@)) == Some(
                component_texts(d@),
            ),
            None => documents_of_root(component_texts(root@), component_texts(tail@)) is None,
        },
{
    let ghost rt = component_texts(root@);
    let ghost tt = component_texts(tail@);
    let n = root.len();
    if n < tail.len() {
        return None;
    }
    let cut = n - tail.len();
    let mut j: usize = 0;
    while j < tail.len()
        invariant
            n == root@.len(),
            cut + tail@.len() == n,
            rt == component_texts(root@),
            tt == component_texts(tail@),
            0 <= j <= tail@.len(),
            forall|k: int| 0 <= k < j ==> rt[cut + k] == tt[k],
        decreases tail@.len() - j,
    {
        if !crate::utf8_text::str_eq(root[cut + j].as_str(), tail[j].as_str()) {
            proof {
                assert(rt.subrange(cut as int, rt.len() as int)[j as int] != tt[j as int]);
            }
            return None;
        }
        j = j + 1;
    }
    proof {
        assert(rt.subrange(cut as int, rt.len() as int) =~= tt);
    }
    let mut out: Vec<String> = Vec::new();
    let mut i: usize = 0;
    while i < cut
        invariant
            cut <= root@.len(),
            rt == component_texts(root@),
            0 <= i <= cut,
            out@ == root@.subrange(0, i as int),
        decreases cut - i,
    {
        out.push(root[i].clone());
        proof {
            assert(out@ =~= root@.subrange(0, i + 1));
        }
        i = i + 1;
    }
    proof {
        assert(component_texts(out@) =~= rt.subrange(0, cut as int));
    }
    Some(out)
}

/// What the out-of-band probe found.
#[derive(Clone, Copy, Debug, Default, PartialEq, Eq, Structural)]
pub struct Probe {
    /// The highest PSReadLine reported, or `None` if nothing was.
    pub version: Option<Version>,
    pub policy: ExecutionPolicy,
}

/// Whether the machine's own module is already the patched one or newer.
pub open spec fn already_current_spec(p: Probe) -> bool {
    match p.version {
        Some(found) => version_ge(found, Version { major: 2, minor: 4, build: 6 }),
        None => false,
    }
}

/// **Only the patched version or a later one is current**: a probe is current
/// exactly when it found a module at 2.4.6 or later, compared number by number
/// (major, then minor, then build); a module below it — 2.4.5, 2.3.9 — is
/// outdated, is offered the install on a first launch, and shows as such.
pub proof fn law_only_the_patched_version_or_later_is_current(p: Probe)
    ensures
        already_current_spec(p) == (match p.version {
            Some(v) => v.major > 2 || (v.major == 2 && v.minor > 4) || (v.major == 2 && v.minor == 4 && v.build
                >= 6),
            None => false,
        }),
        !already_current_spec(p) && p.version is Some ==> invite_decision_spec(
            Some(p),
            PsReadLineInvite::NotAsked,
            false,
        ) == InviteDecision::Show && row_state_spec(Some(p), PsReadLineInvite::NotAsked, InstalledCopy::Vacant)
            == RowState::Outdated,
        already_current_spec(p) ==> invite_decision_spec(Some(p), PsReadLineInvite::NotAsked, true)
            == InviteDecision::Stay && row_state_spec(Some(p), PsReadLineInvite::NotAsked, InstalledCopy::Vacant)
            == RowState::AlreadyCurrent,
{
}

/// **The trigger table**: a machine that has not been read, or whose module is
/// already current, is never asked. An outdated one is asked on the first
/// launch; after one refusal it is asked once more only on a launch after a
/// font-size change; after an install or a second refusal, never again.
pub proof fn law_the_trigger_table(probe: Option<Probe>, invite: PsReadLineInvite, after: bool)
    ensures
        invite_decision_spec(probe, invite, after) == InviteDecision::Show <==> (match probe {
            Some(p) => !already_current_spec(p) && (invite == PsReadLineInvite::NotAsked || (invite
                == PsReadLineInvite::Declined && after)),
            None => false,
        }),
{
}

/// **What is on the disk decides the row first**: this build's copy is
/// installed by Folio, an older Folio copy is an update, a module Folio did not
/// write is not Folio's — whatever the probe and the settings say. Only over an
/// empty place do the settings and then the probe decide.
pub proof fn law_the_disk_decides_the_row_first(probe: Option<Probe>, invite: PsReadLineInvite, copy: InstalledCopy)
    ensures
        copy == InstalledCopy::ThisBuild ==> row_state_spec(probe, invite, copy) == RowState::InstalledByFolio,
        copy == InstalledCopy::OlderBuild ==> row_state_spec(probe, invite, copy) == RowState::UpdateAvailable,
        copy == InstalledCopy::Foreign ==> row_state_spec(probe, invite, copy) == RowState::NotOurs,
        copy == InstalledCopy::Vacant && invite == PsReadLineInvite::Installed ==> row_state_spec(probe, invite, copy)
            == RowState::RemovedElsewhere,
        copy == InstalledCopy::Vacant && invite != PsReadLineInvite::Installed ==> row_state_spec(
            probe,
            invite,
            copy,
        ) == (match probe {
            None => RowState::Probing,
            Some(p) => if already_current_spec(p) {
                RowState::AlreadyCurrent
            } else {
                RowState::Outdated
            },
        }),
{
}

impl Probe {
    /// Whether the machine's own module already anchors itself.
    pub fn already_current(self) -> (r: bool)
        ensures
            r == already_current_spec(self),
    {
        match self.version {
            Some(found) => {
                let patched = patched_version();
                if found.major != patched.major {
                    found.major > patched.major
                } else if found.minor != patched.minor {
                    found.minor > patched.minor
                } else {
                    found.build >= patched.build
                }
            },
            None => false,
        }
    }
}

/// The probe's answer read from its output lines from `i` on: the first line
/// that is a version is the version; the first line after it that is not —
/// or a second version — is the policy's, and ends the reading. Empty lines
/// are skipped.
pub open spec fn probe_scan(b: Seq<u8>, ls: Seq<(int, int)>, i: int, version: Option<Version>) -> Probe
    decreases ls.len() - i,
{
    if i < 0 || i >= ls.len() {
        Probe { version, policy: ExecutionPolicy::Unknown }
    } else {
        let line = trimmed(vstd::utf8::decode_utf8(b.subrange(ls[i].0, ls[i].1)));
        if line.len() == 0 {
            probe_scan(b, ls, i + 1, version)
        } else {
            match version_parse_spec(line) {
                Some(p) if version is None => probe_scan(b, ls, i + 1, Some(p)),
                _ => Probe { version, policy: policy_named(trimmed(line)) },
            }
        }
    }
}

/// What the probe's two lines say, told apart by shape rather than position.
pub open spec fn parse_probe_spec(stdout: Seq<char>) -> Probe {
    probe_scan(utf8(stdout), code_lines_from(utf8(stdout), 0), 0, None)
}

/// Read the two lines the probe command writes: the highest installed
/// PSReadLine (absent when there is none) and the effective policy.
///
/// The version line may be missing entirely, so the policy can come first; a
/// version parses and a policy name does not.
pub fn parse_probe_output(stdout: &str) -> (p: Probe)
    ensures
        p == parse_probe_spec(stdout@),
{
    let bytes = bytes_of(stdout);
    let n = bytes.len();
    let ghost b = bytes@;
    let ghost ls = code_lines_from(b, 0);
    let ghost mut k: int = 0;
    let mut version: Option<Version> = None;
    let mut i: usize = 0;
    while i < n
        invariant
            b == bytes@,
            b == utf8(stdout@),
            n == b.len(),
            0 <= i <= n,
            crate::utf8_text::boundary(b, i as int),
            0 <= k <= ls.len(),
            ls == code_lines_from(b, 0),
            ls.skip(k) == code_lines_from(b, i as int),
            probe_scan(b, ls, k, version) == parse_probe_spec(stdout@),
        decreases n - i,
    {
        let mut nl = i;
        while nl < n && bytes[nl] != 10u8
            invariant
                b == bytes@,
                n == b.len(),
                i <= nl <= n,
                crate::preview_select::next_break(b, nl as int) == crate::preview_select::next_break(b, i as int),
            decreases n - nl,
        {
            nl = nl + 1;
        }
        proof {
            crate::preview_select::lemma_next_break(b, i as int);
        }
        let end = if nl < n && nl > i && bytes[nl - 1] == 13u8 {
            nl - 1
        } else {
            nl
        };
        proof {
            if end < n {
                crate::utf8_text::lemma_ascii_is_boundary(b, end as int);
            }
            if nl < n {
                assert(code_lines_from(b, i as int) == seq![(i as int, end as int)] + code_lines_from(b, nl + 1));
            } else {
                assert(code_lines_from(b, i as int) == seq![(i as int, end as int)]);
            }
            assert(ls.skip(k).len() > 0);
            assert(ls.skip(k)[0] == ls[k]);
            assert(ls[k] == (i as int, end as int));
        }
        let raw = slice(stdout, i, end);
        proof {
            crate::preview_edit::lemma_piece_chars(raw@, utf8(raw@));
        }
        let line = trim(raw);
        let next_i = if nl < n {
            nl + 1
        } else {
            n
        };
        proof {
            if nl < n {
                crate::utf8_text::lemma_after_ascii(b, nl as int);
                assert(code_lines_from(b, i as int) == seq![(i as int, end as int)] + code_lines_from(b, nl + 1));
                assert(ls.skip(k + 1) =~= ls.skip(k).skip(1));
                assert(code_lines_from(b, i as int).skip(1) =~= code_lines_from(b, nl + 1));
                assert(ls.skip(k + 1) =~= code_lines_from(b, next_i as int));
            } else {
                assert(code_lines_from(b, i as int) == seq![(i as int, end as int)]);
                assert(code_lines_from(b, n as int) =~= Seq::<(int, int)>::empty());
                assert(ls.skip(k + 1) =~= ls.skip(k).skip(1));
                assert(ls.skip(k + 1) =~= code_lines_from(b, next_i as int));
            }
        }
        if line.unicode_len() > 0 {
            let parsed = Version::parse(line);
            if parsed.is_some() && version.is_none() {
                version = parsed;
            } else {
                return Probe { version, policy: ExecutionPolicy::parse(line) };
            }
        }
        proof {
            k = k + 1;
        }
        i = next_i;
    }
    proof {
        assert(ls.skip(k).len() == 0);
    }
    Probe { version, policy: ExecutionPolicy::Unknown }
}

// ── the row on the Terminal page ────────────────────────────────────────────

/// What the Terminal page's PSReadLine row is describing.
#[derive(Clone, Copy, Debug, Default, PartialEq, Eq, Structural)]
pub enum RowState {
    /// The probe has not answered yet.
    #[default]
    Probing,
    /// Older than the patched module, and Folio did not put it there.
    Outdated,
    /// Folio wrote the module and it is still on disk.
    InstalledByFolio,
    /// A Folio build wrote the module and it was not this one.
    UpdateAvailable,
    /// The machine's own module is already new enough.
    AlreadyCurrent,
    /// Folio's settings say Folio installed it and it is not there any more.
    RemovedElsewhere,
    /// A module somebody else wrote stands where Folio installs.
    NotOurs,
}

/// Who owns the module directory under a Documents root.
#[derive(Clone, Copy, Debug, Default, PartialEq, Eq, Structural)]
pub enum InstalledCopy {
    /// The place is Folio's to write: nothing is there, or this build's own
    /// work in a state nothing vouches for.
    #[default]
    Vacant,
    /// What this executable carries.
    ThisBuild,
    /// A patched build of the same family that is not this one.
    OlderBuild,
    /// A module Folio did not write.
    Foreign,
}

/// What this user was told about the module, as Folio's settings store it.
#[derive(Clone, Copy, Debug, Default, PartialEq, Eq, Structural)]
pub enum PsReadLineInvite {
    #[default]
    NotAsked,
    Declined,
    Installed,
    Dismissed,
}

/// The row's state: what is on the disk first, then what the settings
/// remember, then what the probe read.
pub open spec fn row_state_spec(probe: Option<Probe>, invite: PsReadLineInvite, installed: InstalledCopy) -> RowState {
    match installed {
        InstalledCopy::ThisBuild => RowState::InstalledByFolio,
        InstalledCopy::OlderBuild => RowState::UpdateAvailable,
        InstalledCopy::Foreign => RowState::NotOurs,
        InstalledCopy::Vacant => if invite == PsReadLineInvite::Installed {
            RowState::RemovedElsewhere
        } else {
            match probe {
                None => RowState::Probing,
                Some(p) => if already_current_spec(p) {
                    RowState::AlreadyCurrent
                } else {
                    RowState::Outdated
                },
            }
        },
    }
}

/// Reconcile the probe with the stored state and the disk.
pub fn row_state(probe: Option<Probe>, invite: PsReadLineInvite, installed: InstalledCopy) -> (r: RowState)
    ensures
        r == row_state_spec(probe, invite, installed),
{
    match installed {
        InstalledCopy::ThisBuild => return RowState::InstalledByFolio,
        InstalledCopy::OlderBuild => return RowState::UpdateAvailable,
        InstalledCopy::Foreign => return RowState::NotOurs,
        InstalledCopy::Vacant => {},
    }
    if invite == PsReadLineInvite::Installed {
        return RowState::RemovedElsewhere;
    }
    match probe {
        None => RowState::Probing,
        Some(p) => if p.already_current() {
            RowState::AlreadyCurrent
        } else {
            RowState::Outdated
        },
    }
}

/// Whether the row's `On` item can be chosen: a probe has answered, its policy
/// would load the module, and the row is one an install changes.
pub open spec fn install_available_spec(probe: Option<Probe>, state: RowState) -> bool {
    match probe {
        None => false,
        Some(p) => !(p.policy == ExecutionPolicy::AllSigned || p.policy == ExecutionPolicy::Restricted) && (state
            == RowState::Outdated || state == RowState::RemovedElsewhere || state == RowState::UpdateAvailable),
    }
}

/// Whether the row's `On` item can be chosen.
pub fn install_available(probe: Option<Probe>, state: RowState) -> (r: bool)
    ensures
        r == install_available_spec(probe, state),
{
    match probe {
        None => false,
        Some(p) => !p.policy.refuses_unsigned_modules() && match state {
            RowState::Outdated | RowState::RemovedElsewhere | RowState::UpdateAvailable => true,
            _ => false,
        },
    }
}

/// Whether the row's `Off` item can be chosen: only ever over what Folio
/// wrote.
pub fn remove_available(state: RowState) -> (r: bool)
    ensures
        r == (state == RowState::InstalledByFolio || state == RowState::UpdateAvailable),
{
    match state {
        RowState::InstalledByFolio | RowState::UpdateAvailable => true,
        _ => false,
    }
}

// ── the invitation ──────────────────────────────────────────────────────────

/// Whether the invitation is owed.
#[derive(Clone, Copy, Debug, PartialEq, Eq, Structural)]
pub enum InviteDecision {
    /// Show the dialog.
    Show,
    /// Say nothing.
    Stay,
}

/// The trigger table: shown when the machine's module is older and nobody was
/// asked, or once more after a refusal when the font size has just changed;
/// never when the probe has not answered or the module is current.
pub open spec fn invite_decision_spec(probe: Option<Probe>, invite: PsReadLineInvite, after_font_size_change: bool) -> InviteDecision {
    match probe {
        None => InviteDecision::Stay,
        Some(p) => if already_current_spec(p) {
            InviteDecision::Stay
        } else {
            match invite {
                PsReadLineInvite::NotAsked => InviteDecision::Show,
                PsReadLineInvite::Declined => if after_font_size_change {
                    InviteDecision::Show
                } else {
                    InviteDecision::Stay
                },
                _ => InviteDecision::Stay,
            }
        },
    }
}

/// The trigger table.
pub fn invite_decision(probe: Option<Probe>, invite: PsReadLineInvite, after_font_size_change: bool) -> (r: InviteDecision)
    ensures
        r == invite_decision_spec(probe, invite, after_font_size_change),
{
    let p = match probe {
        None => return InviteDecision::Stay,
        Some(p) => p,
    };
    if p.already_current() {
        return InviteDecision::Stay;
    }
    match invite {
        PsReadLineInvite::NotAsked => InviteDecision::Show,
        PsReadLineInvite::Declined => if after_font_size_change {
            InviteDecision::Show
        } else {
            InviteDecision::Stay
        },
        PsReadLineInvite::Installed | PsReadLineInvite::Dismissed => InviteDecision::Stay,
    }
}

/// The state a refusal moves the settings to: the first refusal leaves one
/// more showing owed, the second ends the invitation, and the settled states
/// stay as they are.
pub open spec fn after_decline(invite: PsReadLineInvite) -> PsReadLineInvite {
    match invite {
        PsReadLineInvite::NotAsked => PsReadLineInvite::Declined,
        PsReadLineInvite::Declined => PsReadLineInvite::Dismissed,
        settled => settled,
    }
}

/// The state a refusal moves the settings to.
pub fn state_after_decline(invite: PsReadLineInvite) -> (r: PsReadLineInvite)
    ensures
        r == after_decline(invite),
{
    match invite {
        PsReadLineInvite::NotAsked => PsReadLineInvite::Declined,
        PsReadLineInvite::Declined => PsReadLineInvite::Dismissed,
        PsReadLineInvite::Installed => PsReadLineInvite::Installed,
        PsReadLineInvite::Dismissed => PsReadLineInvite::Dismissed,
    }
}

/// A refusal costs one strike and the second ends the invitation: after two
/// refusals, from any state, no font-size change brings the dialog back.
pub proof fn law_two_refusals_end_the_invitation(invite: PsReadLineInvite, probe: Option<Probe>, after_font_size_change: bool)
    ensures
        invite_decision_spec(probe, after_decline(after_decline(invite)), after_font_size_change) == InviteDecision::Stay,
{
}

// ── Folio's own patch builds ────────────────────────────────────────────────

/// The mark that sets a Folio patch stamp apart: `-bt.`.
pub open spec fn build_mark() -> Seq<char> {
    seq!['-', 'b', 't', '.']
}

/// The first place from `i` on where the mark begins, or -1.
pub open spec fn find_mark(t: Seq<char>, i: int) -> int
    decreases t.len() - i,
{
    if i < 0 || i + 4 > t.len() {
        -1
    } else if t.subrange(i, i + 4) == build_mark() {
        i
    } else {
        find_mark(t, i + 1)
    }
}

/// The part of a stamp after the mark.
#[derive(Clone, Debug, PartialEq, Eq)]
enum Patch {
    /// A build named before the numbering began.
    Named(String),
    /// `-bt.<N>`.
    Numbered(u32),
}

/// One Folio patch build, as the stamp in its DLL names it.
///
/// Two builds are ordered only when their module version is the same. A
/// numbered build is ordered by its number; a named build comes before every
/// numbered one, and two named builds are not ordered against each other.
#[derive(Clone, Debug, PartialEq, Eq)]
pub struct Build {
    version: Version,
    patch: Patch,
}

/// A patch as a value.
pub enum PatchView {
    Named(Seq<char>),
    Numbered(u32),
}

/// A build as a value.
pub struct BuildView {
    pub version: Version,
    pub patch: PatchView,
}

impl View for Build {
    type V = BuildView;

    closed spec fn view(&self) -> BuildView {
        BuildView {
            version: self.version,
            patch: match self.patch {
                Patch::Named(name) => PatchView::Named(name@),
                Patch::Numbered(n) => PatchView::Numbered(n),
            },
        }
    }
}

/// Parse `<version>-bt.<patch>`; `None` for a stamp without the mark, with an
/// empty patch, or with a version or a number that does not parse.
pub open spec fn build_parse_spec(stamp: Seq<char>) -> Option<BuildView> {
    let t = trimmed(stamp);
    let at = find_mark(t, 0);
    if at < 0 {
        None
    } else {
        let patch = t.subrange(at + 4, t.len() as int);
        match version_parse_spec(t.subrange(0, at)) {
            None => None,
            Some(version) => if patch.len() == 0 {
                None
            } else if all_digits(patch) {
                match parse_u32_spec(patch) {
                    Some(n) => Some(BuildView { version, patch: PatchView::Numbered(n) }),
                    None => None,
                }
            } else {
                Some(BuildView { version, patch: PatchView::Named(patch) })
            },
        }
    }
}

/// Whether build `a` came before build `b`.
pub open spec fn predates_spec(a: BuildView, b: BuildView) -> bool {
    a.version == b.version && match (a.patch, b.patch) {
        (PatchView::Numbered(x), PatchView::Numbered(y)) => x < y,
        (PatchView::Named(_), PatchView::Numbered(_)) => true,
        _ => false,
    }
}

/// The stamp as the DLL spells it.
pub open spec fn build_text_spec(b: BuildView) -> Seq<u8> {
    version_text_spec(b.version) + utf8(build_mark()) + match b.patch {
        PatchView::Named(name) => utf8(name),
        PatchView::Numbered(n) => decimal(n as nat),
    }
}

/// Where the mark first begins in `t`, or `None`.
fn find_mark_exec(t: &str) -> (r: Option<usize>)
    ensures
        match r {
            Some(i) => find_mark(t@, 0) == i as int && i + 4 <= t@.len(),
            None => find_mark(t@, 0) == -1,
        },
{
    let n = t.unicode_len();
    let mut i: usize = 0;
    while n >= 4 && i <= n - 4
        invariant
            n == t@.len(),
            0 <= i,
            i <= n || n < 4,
            find_mark(t@, i as int) == find_mark(t@, 0),
        decreases n - i,
    {
        if t.get_char(i) == '-' && t.get_char(i + 1) == 'b' && t.get_char(i + 2) == 't' && t.get_char(i + 3) == '.' {
            proof {
                assert(t@.subrange(i as int, i + 4) =~= build_mark());
            }
            return Some(i);
        }
        proof {
            if t@.subrange(i as int, i + 4) == build_mark() {
                assert(t@.subrange(i as int, i + 4)[0] == t@[i as int]);
                assert(t@.subrange(i as int, i + 4)[1] == t@[i + 1]);
                assert(t@.subrange(i as int, i + 4)[2] == t@[i + 2]);
                assert(t@.subrange(i as int, i + 4)[3] == t@[i + 3]);
            }
        }
        i = i + 1;
    }
    None
}

/// Whether every character is an ASCII digit.
fn digits_only(t: &str) -> (r: bool)
    ensures
        r == all_digits(t@),
{
    let n = t.unicode_len();
    let mut i: usize = 0;
    while i < n
        invariant
            n == t@.len(),
            0 <= i <= n,
            forall|k: int| 0 <= k < i ==> '0' <= #[trigger] t@[k] <= '9',
        decreases n - i,
    {
        let c = t.get_char(i);
        if !('0' <= c && c <= '9') {
            return false;
        }
        i = i + 1;
    }
    true
}

/// `"-bt."`.
fn mark_text() -> (r: &'static str)
    ensures
        r@ == build_mark(),
{
    proof {
        reveal_strlit("-bt.");
    }
    let s = "-bt.";
    assert(s@ =~= build_mark());
    s
}

impl Build {
    /// Parse `<version>-bt.<patch>`; `None` for anything without the mark.
    pub fn parse(stamp: &str) -> (r: Option<Self>)
        ensures
            match r {
                Some(b) => build_parse_spec(stamp@) == Some(b@),
                None => build_parse_spec(stamp@).is_none(),
            },
    {
        let t = trim(stamp);
        let n = t.unicode_len();
        let at = match find_mark_exec(t) {
            Some(at) => at,
            None => return None,
        };
        let version = match Version::parse(t.substring_char(0, at)) {
            Some(v) => v,
            None => return None,
        };
        let patch = t.substring_char(at + 4, n);
        if patch.unicode_len() == 0 {
            return None;
        }
        if digits_only(patch) {
            match parse_u32(patch) {
                Some(number) => Some(Build { version, patch: Patch::Numbered(number) }),
                None => None,
            }
        } else {
            Some(Build { version, patch: Patch::Named(String::from_str(patch)) })
        }
    }

    /// Whether this build came before `other`.
    pub fn predates(&self, other: &Self) -> (r: bool)
        ensures
            r == predates_spec(self@, other@),
    {
        if self.version != other.version {
            return false;
        }
        match (&self.patch, &other.patch) {
            (Patch::Numbered(this), Patch::Numbered(that)) => *this < *that,
            (Patch::Named(_), Patch::Numbered(_)) => true,
            _ => false,
        }
    }

    /// The stamp as the DLL spells it.
    pub fn text(&self) -> (r: String)
        ensures
            utf8(r@) == build_text_spec(self@),
    {
        let mut out = self.version.text();
        push_str(&mut out, mark_text());
        match &self.patch {
            Patch::Named(name) => push_str(&mut out, name.as_str()),
            Patch::Numbered(number) => {
                let digits = decimal_string(*number as u64);
                push_str(&mut out, digits.as_str());
            },
        }
        out
    }
}

/// What Folio does about the module it finds at launch.
#[derive(Clone, Copy, Debug, PartialEq, Eq, Structural)]
pub enum Upgrade {
    /// Folio's own older build, which Folio recorded installing: replace it.
    Replace,
    /// Leave it.
    Keep,
    /// Nothing is there to replace: whether to offer the module is the
    /// invitation's question.
    Invite,
}

/// What stands in the module directory, as far as the upgrade is concerned.
#[derive(Clone, Debug, PartialEq, Eq)]
pub struct InstalledBuild {
    /// The Folio build stamped in the module; `None` for a module with no
    /// Folio stamp.
    pub build: Option<Build>,
    /// Whether Folio's own records say Folio put a module here.
    pub recorded: bool,
}

/// The upgrade's decision table: nothing there is an invitation; a Folio
/// build Folio recorded installing, older than the bundled one, is replaced;
/// everything else is kept.
pub open spec fn upgrade_spec(installed: Option<InstalledBuild>, bundled: BuildView) -> Upgrade {
    match installed {
        None => Upgrade::Invite,
        Some(i) => match i.build {
            Some(b) => if i.recorded && predates_spec(b@, bundled) {
                Upgrade::Replace
            } else {
                Upgrade::Keep
            },
            None => Upgrade::Keep,
        },
    }
}

/// The upgrade's decision table.
pub fn upgrade_decision(installed: Option<&InstalledBuild>, bundled: &Build) -> (r: Upgrade)
    ensures
        r == upgrade_spec(
            match installed {
                Some(i) => Some(*i),
                None => None,
            },
            bundled@,
        ),
{
    let installed = match installed {
        Some(i) => i,
        None => return Upgrade::Invite,
    };
    match &installed.build {
        Some(build) => if installed.recorded && build.predates(bundled) {
            Upgrade::Replace
        } else {
            Upgrade::Keep
        },
        None => Upgrade::Keep,
    }
}

proof fn lemma_bundled_build_parses()
    ensures
        build_parse_spec("2.4.6-bt.2"@) == Some(
            BuildView { version: Version { major: 2, minor: 4, build: 6 }, patch: PatchView::Numbered(2) },
        ),
{
    reveal_strlit("2.4.6-bt.2");
    let t = seq!['2', '.', '4', '.', '6', '-', 'b', 't', '.', '2'];
    assert("2.4.6-bt.2"@ =~= t);
    assert(lead_end(t, 0) == 0);
    assert(trail_start(t, 0, 10) == 10);
    assert(trimmed(t) =~= t);
    assert(t.subrange(5, 9) =~= build_mark());
    assert(find_mark(t, 5) == 5);
    assert(t.subrange(4, 8)[0] != '-');
    assert(find_mark(t, 4) == 5);
    assert(t.subrange(3, 7)[0] != '-');
    assert(find_mark(t, 3) == 5);
    assert(t.subrange(2, 6)[0] != '-');
    assert(find_mark(t, 2) == 5);
    assert(t.subrange(1, 5)[0] != '-');
    assert(find_mark(t, 1) == 5);
    assert(t.subrange(0, 4)[0] != '-');
    assert(find_mark(t, 0) == 5);
    lemma_patched_version_parses();
    reveal_strlit("2.4.6");
    assert(t.subrange(0, 5) =~= "2.4.6"@);
    let patch = t.subrange(9, 10);
    assert(patch =~= seq!['2']);
    assert(all_digits(patch));
    assert(patch.drop_last() =~= Seq::<char>::empty());
    assert(digits_value(patch.drop_last()) == 0);
    assert(digits_value(patch) == 2);
}

impl Build {
    /// The build this executable carries — [`PATCHED_BUILD`], parsed.
    pub fn bundled() -> (b: Self)
        ensures
            b@ == (BuildView { version: Version { major: 2, minor: 4, build: 6 }, patch: PatchView::Numbered(2) }),
            build_parse_spec(PATCHED_BUILD@) == Some(b@),
    {
        proof {
            lemma_bundled_build_parses();
        }
        match Build::parse(PATCHED_BUILD) {
            Some(b) => b,
            None => Build { version: Version { major: 2, minor: 4, build: 6 }, patch: Patch::Numbered(2) },
        }
    }
}

/// What every Folio-patched build's `ProductVersion` begins with: the patched
/// version, then `-bt.`.
pub fn family_prefix() -> (r: String)
    ensures
        r@ == PATCHED_VERSION@ + "-bt."@,
{
    crate::utf8_text::concat(PATCHED_VERSION, "-bt.")
}

// ── the diagnostics door ─────────────────────────────────────────────────────

/// The first `','` of `t` at or after `i`, or the end.
pub open spec fn next_comma(t: Seq<char>, i: int) -> int
    decreases t.len() - i,
{
    if i < 0 || i >= t.len() {
        t.len() as int
    } else if t[i] == ',' {
        i
    } else {
        next_comma(t, i + 1)
    }
}

proof fn lemma_next_comma(t: Seq<char>, i: int)
    requires
        0 <= i <= t.len(),
    ensures
        i <= next_comma(t, i) <= t.len(),
    decreases t.len() - i,
{
    if i < t.len() && t[i] != ',' {
        lemma_next_comma(t, i + 1);
    }
}

fn find_comma(text: &str, from: usize) -> (r: usize)
    requires
        from <= text@.len(),
    ensures
        r == next_comma(text@, from as int),
{
    let n = text.unicode_len();
    let mut i = from;
    while i < n
        invariant
            n == text@.len(),
            from <= i <= n,
            next_comma(text@, i as int) == next_comma(text@, from as int),
        decreases n - i,
    {
        if text.get_char(i) == ',' {
            return i;
        }
        i = i + 1;
    }
    i
}

/// What `<version>[,<policy>]` asks the probe to read the machine as: the
/// version before the first comma, and the policy after it — up to a second
/// comma, if there is one — or `RemoteSigned` when none is named.
pub open spec fn probe_override_spec(raw: Seq<char>) -> Probe {
    let c = next_comma(raw, 0);
    Probe {
        version: version_parse_spec(raw.subrange(0, c)),
        policy: if c >= raw.len() {
            ExecutionPolicy::RemoteSigned
        } else {
            policy_named(trimmed(raw.subrange(c + 1, next_comma(raw, c + 1))))
        },
    }
}

/// Read the probe's diagnostics override, `<version>[,<policy>]`, e.g.
/// `2.0.0` or `2.0.0,AllSigned`. A bare version reads under a permissive
/// policy, so it is usable on its own.
pub fn probe_override(raw: &str) -> (p: Probe)
    ensures
        p == probe_override_spec(raw@),
{
    let n = raw.unicode_len();
    let c = find_comma(raw, 0);
    proof {
        lemma_next_comma(raw@, 0);
    }
    let version = Version::parse(raw.substring_char(0, c));
    let policy = if c >= n {
        ExecutionPolicy::RemoteSigned
    } else {
        let d = find_comma(raw, c + 1);
        proof {
            lemma_next_comma(raw@, c + 1);
        }
        ExecutionPolicy::parse(raw.substring_char(c + 1, d))
    };
    Probe { version, policy }
}

// ── one door, and it always says something ──────────────────────────────────

/// What a write into the module directory did.
#[derive(Clone, Debug, Eq, PartialEq)]
pub enum Wrote {
    /// The nine files are on disk, under this root.
    Module(String),
    /// The directory holds a module Folio did not write. Nothing was written.
    NotOurs,
}

/// What a removal from the module directory did.
#[derive(Clone, Debug, Eq, PartialEq)]
pub enum Removed {
    /// Folio's own files went. `left` is what stood beside them and stayed,
    /// because Folio did not write it — empty when the directory itself went.
    Took { left: Vec<String> },
    /// Nothing of Folio's was there to take.
    Nothing,
    /// A module Folio did not write. It is exactly where it was.
    NotOurs,
}

/// Why a press on the row changed nothing. Every variant but
/// [`Refusal::StillReading`] and [`Refusal::NoDocuments`] carries the module
/// directory the press was about.
#[derive(Clone, Debug, Eq, PartialEq)]
pub enum Refusal {
    /// The probe has not answered, so nothing is known about the machine yet.
    StillReading,
    /// Windows' script execution policy would refuse the module at import.
    Policy { policy: ExecutionPolicy, path: String },
    /// Windows would not say where this user's `Documents` folder is.
    NoDocuments,
    /// `On` on a machine whose own module is already new enough; `found` is
    /// the version the machine reported, if it reported one.
    AlreadyCurrent { found: Option<Version>, path: String },
    /// `On` over a directory that already holds this build's module.
    AlreadyThere { path: String },
    /// `On` over a module Folio did not write.
    Occupied { path: String },
    /// The write failed, and this is what Windows said about it.
    Write { path: String, message: String },
    /// `Off` over a directory the guard would not touch — somebody else's
    /// module, or nothing at all.
    NotOurs { path: String },
    /// The delete failed, and this is what Windows said about it.
    Remove { path: String, message: String },
}

/// The one word the log files a refusal under.
pub open spec fn refusal_tag(r: Refusal) -> Seq<char> {
    match r {
        Refusal::StillReading => "still-reading"@,
        Refusal::Policy { .. } => "policy"@,
        Refusal::NoDocuments => "no-documents"@,
        Refusal::AlreadyCurrent { .. } => "already-current"@,
        Refusal::AlreadyThere { .. } => "already-there"@,
        Refusal::Occupied { .. } => "occupied"@,
        Refusal::Write { .. } => "write-failed"@,
        Refusal::NotOurs { .. } => "not-ours"@,
        Refusal::Remove { .. } => "remove-failed"@,
    }
}

impl Refusal {
    /// The one word `diagnostics.log` files this refusal under: a name and
    /// not the sentence, so the log is greppable in either language.
    pub fn tag(&self) -> (t: &'static str)
        ensures
            t@ == refusal_tag(*self),
    {
        match self {
            Refusal::StillReading => "still-reading",
            Refusal::Policy { .. } => "policy",
            Refusal::NoDocuments => "no-documents",
            Refusal::AlreadyCurrent { .. } => "already-current",
            Refusal::AlreadyThere { .. } => "already-there",
            Refusal::Occupied { .. } => "occupied",
            Refusal::Write { .. } => "write-failed",
            Refusal::NotOurs { .. } => "not-ours",
            Refusal::Remove { .. } => "remove-failed",
        }
    }
}

/// What a press on the row did.
#[derive(Clone, Debug, Eq, PartialEq)]
pub enum Outcome {
    Installed(String),
    Removed(String),
    /// Nothing on disk moved, and this is why.
    Refused(Refusal),
}

/// What a press asks of the disk, once every refusal that can be given without
/// asking it has been given.
#[derive(Clone, Copy, Debug, Eq, PartialEq, Structural)]
pub enum Verb {
    /// Write the module into its directory.
    Install,
    /// Take Folio's files out of it.
    Remove,
}

/// The press's answer before the disk: `path` is the module directory under
/// the Documents folder, or nothing when Windows would not name one.
///
/// What is already on the machine is asked before the policy is, because a
/// directory that already holds the module is a truer answer to "why did
/// nothing happen" than a policy that would have stopped a write nobody
/// needed.
pub open spec fn press_spec(install: bool, path: Option<String>, state: RowState, probe: Option<Probe>) -> Result<Verb, Refusal> {
    match path {
        None => Err(Refusal::NoDocuments),
        Some(path) => if !install {
            Ok(Verb::Remove)
        } else {
            match probe {
                None => Err(Refusal::StillReading),
                Some(p) => if state == RowState::InstalledByFolio {
                    Err(Refusal::AlreadyThere { path })
                } else if state == RowState::AlreadyCurrent {
                    Err(Refusal::AlreadyCurrent { found: p.version, path })
                } else if state == RowState::NotOurs {
                    Err(Refusal::Occupied { path })
                } else if p.policy == ExecutionPolicy::AllSigned || p.policy
                    == ExecutionPolicy::Restricted {
                    Err(Refusal::Policy { policy: p.policy, path })
                } else {
                    Ok(Verb::Install)
                },
            }
        },
    }
}

/// The press's answer before the disk: what to ask of it, or why nothing
/// will be.
pub fn press(install: bool, path: Option<String>, state: RowState, probe: Option<Probe>) -> (r: Result<Verb, Refusal>)
    ensures
        r == press_spec(install, path, state, probe),
{
    let path = match path {
        None => return Err(Refusal::NoDocuments),
        Some(path) => path,
    };
    if !install {
        return Ok(Verb::Remove);
    }
    let probe = match probe {
        None => return Err(Refusal::StillReading),
        Some(probe) => probe,
    };
    match state {
        RowState::InstalledByFolio => return Err(Refusal::AlreadyThere { path }),
        RowState::AlreadyCurrent => return Err(Refusal::AlreadyCurrent { found: probe.version, path }),
        RowState::NotOurs => return Err(Refusal::Occupied { path }),
        _ => {},
    }
    if probe.policy.refuses_unsigned_modules() {
        return Err(Refusal::Policy { policy: probe.policy, path });
    }
    Ok(Verb::Install)
}

/// What an install press did, from what the write answered: the module's
/// root, or the directory refused as somebody else's, or what Windows said.
pub fn after_install(path: String, wrote: Result<Wrote, String>) -> (o: Outcome)
    ensures
        o == match wrote {
            Ok(Wrote::Module(root)) => Outcome::Installed(root),
            Ok(Wrote::NotOurs) => Outcome::Refused(Refusal::Occupied { path }),
            Err(message) => Outcome::Refused(Refusal::Write { path, message }),
        },
{
    match wrote {
        Ok(Wrote::Module(root)) => Outcome::Installed(root),
        Ok(Wrote::NotOurs) => Outcome::Refused(Refusal::Occupied { path }),
        Err(message) => Outcome::Refused(Refusal::Write { path, message }),
    }
}

/// What a removal press did, from what the removal answered: one sentence for
/// nothing there and somebody else's module, since a reader can act on the
/// path either way.
pub fn after_remove(path: String, removed: Result<Removed, String>) -> (o: Outcome)
    ensures
        o == match removed {
            Ok(Removed::Took { .. }) => Outcome::Removed(path),
            Ok(Removed::Nothing) => Outcome::Refused(Refusal::NotOurs { path }),
            Ok(Removed::NotOurs) => Outcome::Refused(Refusal::NotOurs { path }),
            Err(message) => Outcome::Refused(Refusal::Remove { path, message }),
        },
{
    match removed {
        Ok(Removed::Took { .. }) => Outcome::Removed(path),
        Ok(Removed::Nothing) | Ok(Removed::NotOurs) => Outcome::Refused(Refusal::NotOurs { path }),
        Err(message) => Outcome::Refused(Refusal::Remove { path, message }),
    }
}

/// The greyed item and the press agree: with a Documents folder in hand, and
/// a probe exactly when the row is past `Probing`, an install press goes to
/// the disk exactly when the row's `On` item can be chosen.
pub proof fn law_the_greyed_item_and_the_refusal_agree(path: String, state: RowState, probe: Option<Probe>)
    requires
        (probe is None) == (state == RowState::Probing),
    ensures
        install_available_spec(probe, state) == press_spec(true, Some(path), state, probe) is Ok,
{
}

// ── whose copy is on the disk ───────────────────────────────────────────────

/// Whether a `ProductVersion` is one of Folio's own patch family: it begins
/// with [`family_prefix`]. Only this project's builds put `-bt.` there, so the
/// prefix is a claim about who wrote the file, not about how new it is.
pub open spec fn in_family(version: Seq<char>) -> bool {
    let prefix = PATCHED_VERSION@ + "-bt."@;
    version.len() >= prefix.len() && version.subrange(0, prefix.len() as int) == prefix
}

/// The installed build, from the `ProductVersion` stamped into the module's
/// assembly: kept only when it belongs to Folio's own patch family.
pub fn installed_build(product_version: Option<String>) -> (r: Option<String>)
    ensures
        r == match product_version {
            Some(v) => if in_family(v@) {
                Some(v)
            } else {
                None
            },
            None => None,
        },
{
    match product_version {
        None => None,
        Some(v) => {
            let prefix = family_prefix();
            let n = prefix.as_str().unicode_len();
            let m = v.as_str().unicode_len();
            if m < n {
                return None;
            }
            let head = v.as_str().substring_char(0, n);
            if crate::utf8_text::str_eq(head, prefix.as_str()) {
                Some(v)
            } else {
                None
            }
        },
    }
}

/// What reading the module's assembly gave, against the one this build
/// carries.
#[derive(Clone, Copy, Debug, PartialEq, Eq, Structural)]
pub enum AssemblyRead {
    /// This build's own assembly, byte for byte.
    Bundled,
    /// Some other file.
    Other,
    /// No assembly there.
    Missing,
    /// It is there and could not be read.
    Unreadable,
}

/// One thing the owner question learns from the disk, in the order it asks.
#[derive(Clone, Debug, PartialEq, Eq)]
pub enum CopyFact {
    /// Whether the module directory exists.
    Directory(bool),
    /// Whether every file this build carries is there, byte for byte.
    ByteForByte(bool),
    /// The `ProductVersion` in the module's assembly, if it has one.
    Stamp(Option<String>),
    /// What reading the assembly gave.
    Assembly(AssemblyRead),
    /// Whether every entry of the directory is a name this build writes.
    OnlyOurNames(bool),
}

/// What the owner question asks the disk next.
#[derive(Clone, Copy, Debug, PartialEq, Eq, Structural)]
pub enum CopyQuestion {
    ByteForByte,
    Stamp,
    Assembly,
    OnlyOurNames,
}

/// The owner question after one fact: answered, or what to ask next.
#[derive(Clone, Copy, Debug, PartialEq, Eq, Structural)]
pub enum CopyStep {
    Ask(CopyQuestion),
    Known(InstalledCopy),
}

/// Which copy of the module is under a Documents root, one fact at a time.
///
/// Byte identity first: it is the strongest answer and it stays the rule for
/// "did Folio write exactly this". The family stamp answers only where byte
/// identity cannot — an older build whose bytes this executable does not
/// carry — and a copy stamped with this very build whose bytes differ has been
/// edited since, so nothing vouches for it. With no stamp, the assembly
/// decides; with no assembly, a directory holding nothing but this build's
/// names is an interrupted write of Folio's, and anything else is somebody
/// else's.
pub open spec fn copy_step_spec(fact: CopyFact) -> CopyStep {
    match fact {
        CopyFact::Directory(there) => if there {
            CopyStep::Ask(CopyQuestion::ByteForByte)
        } else {
            CopyStep::Known(InstalledCopy::Vacant)
        },
        CopyFact::ByteForByte(same) => if same {
            CopyStep::Known(InstalledCopy::ThisBuild)
        } else {
            CopyStep::Ask(CopyQuestion::Stamp)
        },
        CopyFact::Stamp(stamp) => match stamp {
            Some(v) => if !in_family(v@) {
                CopyStep::Ask(CopyQuestion::Assembly)
            } else if v@ == PATCHED_BUILD@ {
                CopyStep::Known(InstalledCopy::Vacant)
            } else {
                CopyStep::Known(InstalledCopy::OlderBuild)
            },
            None => CopyStep::Ask(CopyQuestion::Assembly),
        },
        CopyFact::Assembly(read) => match read {
            AssemblyRead::Bundled => CopyStep::Known(InstalledCopy::Vacant),
            AssemblyRead::Missing => CopyStep::Ask(CopyQuestion::OnlyOurNames),
            _ => CopyStep::Known(InstalledCopy::Foreign),
        },
        CopyFact::OnlyOurNames(ours) => if ours {
            CopyStep::Known(InstalledCopy::Vacant)
        } else {
            CopyStep::Known(InstalledCopy::Foreign)
        },
    }
}

/// The owner question after one fact.
pub fn installed_copy_step(fact: CopyFact) -> (step: CopyStep)
    ensures
        step == copy_step_spec(fact),
{
    match fact {
        CopyFact::Directory(there) => if there {
            CopyStep::Ask(CopyQuestion::ByteForByte)
        } else {
            CopyStep::Known(InstalledCopy::Vacant)
        },
        CopyFact::ByteForByte(same) => if same {
            CopyStep::Known(InstalledCopy::ThisBuild)
        } else {
            CopyStep::Ask(CopyQuestion::Stamp)
        },
        CopyFact::Stamp(stamp) => match installed_build(stamp) {
            Some(v) => if crate::utf8_text::str_eq(v.as_str(), PATCHED_BUILD) {
                CopyStep::Known(InstalledCopy::Vacant)
            } else {
                CopyStep::Known(InstalledCopy::OlderBuild)
            },
            None => CopyStep::Ask(CopyQuestion::Assembly),
        },
        CopyFact::Assembly(read) => match read {
            AssemblyRead::Bundled => CopyStep::Known(InstalledCopy::Vacant),
            AssemblyRead::Missing => CopyStep::Ask(CopyQuestion::OnlyOurNames),
            _ => CopyStep::Known(InstalledCopy::Foreign),
        },
        CopyFact::OnlyOurNames(ours) => if ours {
            CopyStep::Known(InstalledCopy::Vacant)
        } else {
            CopyStep::Known(InstalledCopy::Foreign)
        },
    }
}

/// A copy Folio's own stamp names as this very build, but whose bytes are not
/// this build's, is never claimed: it has been edited since Folio wrote it.
pub proof fn law_an_edited_copy_of_this_build_is_not_claimed()
    ensures
        copy_step_spec(CopyFact::ByteForByte(false)) == CopyStep::Ask(CopyQuestion::Stamp),
        forall|v: String|
            v@ == PATCHED_BUILD@ ==> #[trigger] copy_step_spec(CopyFact::Stamp(Some(v)))
                == CopyStep::Known(InstalledCopy::Vacant),
{
    reveal_strlit("2.4.6-bt.2");
    reveal_strlit("2.4.6");
    reveal_strlit("-bt.");
    assert forall|v: String| v@ == PATCHED_BUILD@ implies #[trigger] copy_step_spec(
        CopyFact::Stamp(Some(v)),
    ) == CopyStep::Known(InstalledCopy::Vacant) by {
        assert(v@.subrange(0, 9) =~= PATCHED_VERSION@ + "-bt."@);
    }
}

/// The shared installed-copy slot, read on the probe's edge: `None` in the
/// slot means unread, not "no module". The first read happens once a probe
/// has answered; after it, the slot is the answer.
pub fn installed_on_probe<F: FnOnce() -> InstalledCopy>(
    cache: &mut Option<InstalledCopy>,
    probe: Option<Probe>,
    read: F,
) -> (copy: InstalledCopy)
    requires
        read.requires(()),
    ensures
        ((*old(cache)) is None && probe is Some) ==> read.ensures((), copy) && *final(cache) == Some(
            copy,
        ),
        !((*old(cache)) is None && probe is Some) ==> *final(cache) == *old(cache) && copy == match *old(
            cache,
        ) {
            Some(c) => c,
            None => InstalledCopy::Vacant,
        },
{
    if cache.is_none() && probe.is_some() {
        let copy = read();
        *cache = Some(copy);
        return copy;
    }
    match *cache {
        Some(c) => c,
        None => InstalledCopy::Vacant,
    }
}

// ── the launch's replacement, said in one line ──────────────────────────────

/// What the launch's replacement of Folio's own older copy did.
#[derive(Debug)]
pub struct Replacement {
    /// The build that was on disk.
    pub from: String,
    /// What the write answered: where the module went, or that the directory
    /// was somebody else's, or what Windows said.
    pub wrote: Result<Wrote, String>,
}

/// The one `diagnostics.log` line a replacement owes.
pub open spec fn replacement_line(from: Seq<char>, wrote: Result<Wrote, String>) -> Seq<char> {
    match wrote {
        Ok(Wrote::Module(root)) => "BT_PSREADLINE upgraded "@ + from + " to "@ + PATCHED_BUILD@ + " in "@
            + root@,
        Ok(Wrote::NotOurs) => "BT_PSREADLINE upgrade from "@ + from + " refused why=occupied"@,
        Err(error) => "BT_PSREADLINE upgrade from "@ + from + " to "@ + PATCHED_BUILD@
            + " failed, kept until the next launch: "@ + error@,
    }
}

impl Replacement {
    /// The one `diagnostics.log` line the replacement owes; there is no card.
    /// A failure is said here and nowhere else: the stamp is written last, so
    /// the copy still reads as the older build and the next launch tries
    /// again.
    pub fn log_line(&self) -> (line: String)
        ensures
            line@ == replacement_line(self.from@, self.wrote),
    {
        match &self.wrote {
            Ok(Wrote::Module(root)) => {
                let mut out = String::from_str("BT_PSREADLINE upgraded ");
                out.append(self.from.as_str());
                out.append(" to ");
                out.append(PATCHED_BUILD);
                out.append(" in ");
                out.append(root.as_str());
                out
            },
            Ok(Wrote::NotOurs) => {
                let mut out = String::from_str("BT_PSREADLINE upgrade from ");
                out.append(self.from.as_str());
                out.append(" refused why=occupied");
                out
            },
            Err(error) => {
                let mut out = String::from_str("BT_PSREADLINE upgrade from ");
                out.append(self.from.as_str());
                out.append(" to ");
                out.append(PATCHED_BUILD);
                out.append(" failed, kept until the next launch: ");
                out.append(error.as_str());
                out
            },
        }
    }
}

} // verus!
