//! Byte-level text: the UTF-8 bytes of a string, where a character begins in
//! them, and the few string operations every editing verb is built from.
//!
//! Every offset in this crate is a byte offset into a string's UTF-8 encoding,
//! so the model of a string here is `encode_utf8(s@)`: its bytes.
use vstd::prelude::*;
use vstd::string::*;
use vstd::utf8::*;

verus! {

broadcast use vstd::utf8::encode_utf8_valid_utf8;

/// The UTF-8 bytes of a character sequence.
pub open spec fn utf8(chars: Seq<char>) -> Seq<u8> {
    encode_utf8(chars)
}

/// Whether `index` is where a character begins in `bytes` (or is the end),
/// said the way the encoding says it: the byte there is not a continuation
/// byte.
pub open spec fn boundary(bytes: Seq<u8>, index: int) -> bool {
    0 <= index <= bytes.len() && (index == bytes.len() || !is_continuation_byte(bytes[index]))
}

/// The bytes of `bytes` with `lo..hi` replaced by `inserted`.
pub open spec fn spliced(bytes: Seq<u8>, lo: int, hi: int, inserted: Seq<u8>) -> Seq<u8> {
    bytes.subrange(0, lo) + inserted + bytes.subrange(hi, bytes.len() as int)
}

/// The encoding of a concatenation is the concatenation of the encodings.
pub proof fn lemma_utf8_concat(a: Seq<char>, b: Seq<char>)
    ensures
        utf8(a + b) == utf8(a) + utf8(b),
    decreases a.len(),
{
    if a.len() == 0 {
        assert(a + b =~= b);
        assert(utf8(a) =~= Seq::<u8>::empty());
        assert(utf8(a) + utf8(b) =~= utf8(b));
    } else {
        lemma_utf8_concat(a.drop_first(), b);
        assert((a + b).drop_first() =~= a.drop_first() + b);
        assert((a + b)[0] == a[0]);
        assert(utf8(a + b) == encode_scalar(a[0] as u32) + utf8(a.drop_first() + b));
        assert(utf8(a) == encode_scalar(a[0] as u32) + utf8(a.drop_first()));
        assert(utf8(a + b) =~= utf8(a) + utf8(b));
    }
}

/// The encoding of a sequence is injective: equal bytes are equal characters.
pub proof fn lemma_utf8_injective(a: Seq<char>, b: Seq<char>)
    requires
        utf8(a) == utf8(b),
    ensures
        a == b,
{
    encode_utf8_decode_utf8(a);
    encode_utf8_decode_utf8(b);
}

/// In a valid encoding, the standard library's character boundary is
/// [`boundary`].
pub proof fn lemma_boundary_iff(bytes: Seq<u8>, index: int)
    requires
        valid_utf8(bytes),
        0 <= index <= bytes.len(),
    ensures
        is_char_boundary(bytes, index) == boundary(bytes, index),
{
    if index < bytes.len() {
        is_char_boundary_iff_not_is_continuation_byte(bytes, index);
    } else {
        is_char_boundary_start_end_of_seq(bytes);
    }
}

/// The bytes between two character boundaries of a valid encoding are a
/// valid encoding of their own, and decoding them encodes back to them.
pub proof fn lemma_slice_valid(bytes: Seq<u8>, from: int, end: int)
    requires
        valid_utf8(bytes),
        0 <= from <= end <= bytes.len(),
        boundary(bytes, from),
        boundary(bytes, end),
    ensures
        valid_utf8(bytes.subrange(from, end)),
        utf8(vstd::utf8::decode_utf8(bytes.subrange(from, end))) == bytes.subrange(from, end),
{
    lemma_boundary_iff(bytes, end);
    vstd::utf8::valid_utf8_split(bytes, end);
    let head = bytes.subrange(0, end);
    if from < end {
        assert(head[from] == bytes[from]);
    }
    lemma_boundary_iff(head, from);
    vstd::utf8::valid_utf8_split(head, from);
    assert(head.subrange(from, head.len() as int) =~= bytes.subrange(from, end));
    vstd::utf8::decode_utf8_encode_utf8(bytes.subrange(from, end));
}

/// A valid encoding never starts with a continuation byte.
pub proof fn lemma_valid_starts_at_boundary(bytes: Seq<u8>)
    requires
        valid_utf8(bytes),
    ensures
        boundary(bytes, 0),
{
    is_char_boundary_start_end_of_seq(bytes);
    lemma_boundary_iff(bytes, 0);
}

/// Both ends of an encoding are boundaries.
pub proof fn lemma_utf8_ends(chars: Seq<char>)
    ensures
        boundary(utf8(chars), 0),
        boundary(utf8(chars), utf8(chars).len() as int),
{
    lemma_valid_starts_at_boundary(utf8(chars));
}

/// In a valid encoding, the byte after an ASCII byte begins a character.
pub proof fn lemma_after_ascii(bytes: Seq<u8>, i: int)
    requires
        valid_utf8(bytes),
        0 <= i < bytes.len(),
        bytes[i] < 0x80,
    ensures
        boundary(bytes, i + 1),
    decreases bytes.len(),
{
    let l = length_of_first_scalar(bytes);
    let rest = pop_first_scalar(bytes);
    assert(rest.len() == bytes.len() - l);
    if i < l {
        if i == 0 {
            assert(l == 1);
        }
        if i + 1 < bytes.len() {
            assert(rest[0] == bytes[1]);
            lemma_valid_starts_at_boundary(rest);
        }
    } else {
        assert(rest[i - l] == bytes[i]);
        lemma_after_ascii(rest, i - l);
        if i + 1 < bytes.len() {
            assert(rest[i + 1 - l] == bytes[i + 1]);
        }
    }
}

/// A byte below 0x80 in a valid encoding begins a character.
pub proof fn lemma_ascii_is_boundary(bytes: Seq<u8>, i: int)
    requires
        0 <= i < bytes.len(),
        bytes[i] < 0x80,
    ensures
        boundary(bytes, i),
{
}

/// The byte length of a string.
pub fn byte_len(s: &str) -> (n: usize)
    ensures
        n == s.spec_bytes().len(),
        n == utf8(s@).len(),
{
    s.as_bytes().len()
}

/// The bytes of a string, as a slice.
pub fn bytes_of(s: &str) -> (b: &[u8])
    ensures
        b@ == utf8(s@),
{
    s.as_bytes()
}

/// Whether a character begins at `index`.
pub fn is_boundary(s: &str, index: usize) -> (r: bool)
    requires
        index <= utf8(s@).len(),
    ensures
        r == boundary(utf8(s@), index as int),
{
    proof {
        lemma_boundary_iff(utf8(s@), index as int);
    }
    s.is_char_boundary(index)
}

/// The part of `s` from byte `start` to byte `end`.
pub fn slice(s: &str, start: usize, end: usize) -> (r: &str)
    requires
        start <= end <= utf8(s@).len(),
        boundary(utf8(s@), start as int),
        boundary(utf8(s@), end as int),
    ensures
        utf8(r@) == utf8(s@).subrange(start as int, end as int),
{
    let ghost b = utf8(s@);
    proof {
        lemma_boundary_iff(b, start as int);
    }
    let (_, rest) = s.split_at(start);
    let ghost rb = b.subrange(start as int, b.len() as int);
    assert(utf8(rest@) == rb);
    proof {
        assert(boundary(rb, end - start)) by {
            if end < b.len() {
                assert(rb[end - start] == b[end as int]);
            }
        }
        lemma_boundary_iff(rb, (end - start) as int);
    }
    let (piece, _) = rest.split_at(end - start);
    assert(utf8(piece@) =~= b.subrange(start as int, end as int));
    piece
}

/// A new string holding `a` then `b`.
pub fn concat(a: &str, b: &str) -> (r: String)
    ensures
        r@ == a@ + b@,
        utf8(r@) == utf8(a@) + utf8(b@),
{
    let mut r = String::from_str(a);
    r.append(b);
    proof {
        lemma_utf8_concat(a@, b@);
    }
    r
}

/// Append `b` to `a` in place.
pub fn push_str(a: &mut String, b: &str)
    ensures
        final(a)@ == old(a)@ + b@,
        utf8(final(a)@) == utf8(old(a)@) + utf8(b@),
{
    proof {
        lemma_utf8_concat(a@, b@);
    }
    a.append(b);
}

/// Replace the bytes `start..end` of `s` with `inserted`.
pub fn replace_range(s: &mut String, start: usize, end: usize, inserted: &str)
    requires
        start <= end <= utf8(old(s)@).len(),
        boundary(utf8(old(s)@), start as int),
        boundary(utf8(old(s)@), end as int),
    ensures
        utf8(final(s)@) == spliced(utf8(old(s)@), start as int, end as int, utf8(inserted@)),
{
    let ghost b = utf8(s@);
    let len = byte_len(s.as_str());
    proof {
        lemma_utf8_ends(s@);
    }
    let head = slice(s.as_str(), 0, start);
    let tail = slice(s.as_str(), end, len);
    let mut out = concat(head, inserted);
    push_str(&mut out, tail);
    assert(utf8(out@) =~= spliced(b, start as int, end as int, utf8(inserted@)));
    *s = out;
}

/// An ASCII character sequence encodes as its own characters, one byte each.
pub proof fn lemma_ascii_literal(s: Seq<char>)
    requires
        is_ascii_chars(s),
    ensures
        utf8(s) == Seq::new(s.len(), |i: int| s[i] as u8),
{
    is_ascii_chars_encode_utf8(s);
    assert(utf8(s) =~= Seq::new(s.len(), |i: int| s[i] as u8));
}

/// The empty string.
pub fn empty_str() -> (s: &'static str)
    ensures
        s@ == Seq::<char>::empty(),
        utf8(s@) == Seq::<u8>::empty(),
{
    proof {
        reveal_strlit("");
    }
    let s = "";
    assert(s@ =~= Seq::<char>::empty());
    assert(utf8(s@) =~= Seq::<u8>::empty());
    s
}

/// Whether two strings hold the same characters.
pub fn str_eq(a: &str, b: &str) -> (r: bool)
    ensures
        r == (a@ == b@),
{
    let x = bytes_of(a);
    let y = bytes_of(b);
    if x.len() != y.len() {
        return false;
    }
    let mut i: usize = 0;
    while i < x.len()
        invariant
            x@ == utf8(a@),
            y@ == utf8(b@),
            x.len() == y.len(),
            0 <= i <= x.len(),
            forall|k: int| 0 <= k < i ==> x@[k] == y@[k],
        decreases x.len() - i,
    {
        if x[i] != y[i] {
            return false;
        }
        i = i + 1;
    }
    proof {
        assert(x@ =~= y@);
        lemma_utf8_injective(a@, b@);
    }
    true
}

/// Text is empty exactly when its encoding is.
pub proof fn lemma_utf8_empty(s: Seq<char>)
    ensures
        (utf8(s).len() == 0) == (s.len() == 0),
{
    assert(utf8(Seq::<char>::empty()) =~= Seq::<u8>::empty());
    if utf8(s).len() == 0 {
        assert(utf8(s) =~= utf8(Seq::<char>::empty()));
        lemma_utf8_injective(s, Seq::<char>::empty());
    }
    if s.len() == 0 {
        assert(s =~= Seq::<char>::empty());
    }
}

} // verus!
