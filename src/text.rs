//! Character-indexed slicing of UTF-8 text.
use vstd::prelude::*;
use vstd::std_specs::iter::IteratorSpec;
use vstd::string::StrSliceExecFns;
use vstd::utf8::*;

verus! {

/// One end of a character range.
#[derive(Clone, Copy, Debug, PartialEq, Eq)]
pub enum CharBound {
    Included(usize),
    Excluded(usize),
    Unbounded,
}

/// First character position selected by a start bound.
pub open spec fn start_index(b: CharBound) -> int {
    match b {
        CharBound::Included(i) => i as int,
        CharBound::Excluded(i) => i + 1,
        CharBound::Unbounded => 0,
    }
}

/// Position just past the last character selected by an end bound, in a
/// text of `len` characters.
pub open spec fn end_index(b: CharBound, len: int) -> int {
    match b {
        CharBound::Included(i) => i + 1,
        CharBound::Excluded(i) => i as int,
        CharBound::Unbounded => len,
    }
}

/// The range `start..end` lies within a text of `len` characters.
pub open spec fn valid_range(start: CharBound, end: CharBound, len: int) -> bool {
    0 <= start_index(start) <= end_index(end, len) <= len
}

/// Number of UTF-8 bytes that encode the characters `cs`.
pub open spec fn utf8_len(cs: Seq<char>) -> nat {
    encode_utf8(cs).len()
}

/// Number of UTF-8 bytes that encode the single character `c`.
pub open spec fn char_width(c: char) -> nat {
    encode_scalar(c as u32).len()
}

pub proof fn lemma_encode_utf8_concat(a: Seq<char>, b: Seq<char>)
    ensures
        encode_utf8(a + b) == encode_utf8(a) + encode_utf8(b),
    decreases a.len(),
{
    if a.len() == 0 {
        assert(a + b =~= b);
    } else {
        assert((a + b).drop_first() =~= a.drop_first() + b);
        lemma_encode_utf8_concat(a.drop_first(), b);
    }
}

pub proof fn lemma_utf8_len_push(cs: Seq<char>, c: char)
    ensures
        utf8_len(cs.push(c)) == utf8_len(cs) + char_width(c),
{
    lemma_encode_utf8_concat(cs, seq![c]);
    assert(cs.push(c) =~= cs + seq![c]);
    assert(seq![c].drop_first() =~= Seq::<char>::empty());
    assert(encode_utf8(seq![c].drop_first()).len() == 0);
    assert(encode_utf8(seq![c]) =~= encode_scalar(c as u32));
}

pub proof fn lemma_utf8_len_prefix(cs: Seq<char>, k: int)
    requires
        0 <= k <= cs.len(),
    ensures
        utf8_len(cs.take(k)) <= utf8_len(cs),
        utf8_len(cs) == utf8_len(cs.take(k)) + utf8_len(cs.skip(k)),
{
    lemma_encode_utf8_concat(cs.take(k), cs.skip(k));
    assert(cs.take(k) + cs.skip(k) =~= cs);
}

/// Number of bytes in the UTF-8 storage of `s`.
pub fn byte_len(s: &str) -> (n: usize)
    ensures
        n == utf8_len(s@),
{
    let b = s.as_bytes();
    b.len()
}

pub proof fn lemma_chars_le_bytes(cs: Seq<char>)
    ensures
        cs.len() <= utf8_len(cs),
    decreases cs.len(),
{
    if cs.len() > 0 {
        let init = cs.drop_last();
        lemma_chars_le_bytes(init);
        lemma_utf8_len_push(init, cs.last());
        assert(init.push(cs.last()) =~= cs);
        char_is_scalar(cs.last());
    }
}

pub proof fn lemma_char_width(c: char)
    ensures
        (c as u32) < 0x80 ==> char_width(c) == 1,
        0x80 <= (c as u32) < 0x800 ==> char_width(c) == 2,
        0x800 <= (c as u32) < 0x10000 ==> char_width(c) == 3,
        0x10000 <= (c as u32) ==> char_width(c) == 4,
{
    char_is_scalar(c);
}

/// Byte width of `c` in UTF-8.
pub fn utf8_width(c: char) -> (w: usize)
    ensures
        w == char_width(c),
        1 <= w <= 4,
{
    let v = c as u32;
    proof {
        char_is_scalar(c);
    }
    if v < 0x80 {
        1
    } else if v < 0x800 {
        2
    } else if v < 0x10000 {
        3
    } else {
        4
    }
}

/// Byte offset just past the first `nchars` characters of `s`, or `None` when
/// `s` has fewer than `nchars` characters.
pub fn char_range_end(s: &str, nchars: usize) -> (r: Option<usize>)
    ensures
        nchars <= s@.len() ==> r == Some(utf8_len(s@.take(nchars as int)) as usize),
        nchars == 0 ==> r == Some(0usize),
        nchars > s@.len() ==> r is None,
{
    let total = byte_len(s);
    let mut it = s.chars();
    let mut i: usize = 0;
    let mut end: usize = 0;
    assert(s@.take(0) =~= Seq::<char>::empty());
    while i < nchars
        invariant
            i <= nchars,
            i <= s@.len(),
            it.remaining() == s@.skip(i as int),
            end == utf8_len(s@.take(i as int)),
            total == utf8_len(s@),
        decreases nchars - i,
    {
        match it.next() {
            None => {
                return None;
            },
            Some(c) => {
                proof {
                    lemma_utf8_len_push(s@.take(i as int), c);
                    assert(s@.take(i as int).push(c) =~= s@.take(i + 1));
                    assert(s@.skip(i as int).drop_first() =~= s@.skip(i + 1));
                    lemma_utf8_len_prefix(s@, i + 1);
                }
                end = end + utf8_width(c);
                i = i + 1;
            },
        }
    }
    Some(end)
}


/// The characters of `s` at positions `start..end`, or `None` when that range
/// does not lie within `s`.
pub fn try_get_chars_bounded(s: &str, start: CharBound, end: CharBound) -> (r: Option<&str>)
    ensures
        valid_range(start, end, s@.len() as int) <==> r is Some,
        r matches Some(sub) ==> sub@ == s@.subrange(
            start_index(start),
            end_index(end, s@.len() as int),
        ),
{
    proof {
        lemma_chars_le_bytes(s@);
    }
    let total = byte_len(s);
    let first: usize = match start {
        CharBound::Included(i) => i,
        CharBound::Excluded(i) => {
            if i == usize::MAX {
                return None;
            }
            i + 1
        },
        CharBound::Unbounded => 0,
    };
    if char_range_end(s, first).is_none() {
        return None;
    }
    let last: usize = match end {
        CharBound::Included(i) => {
            if i == usize::MAX {
                return None;
            }
            i + 1
        },
        CharBound::Excluded(i) => i,
        CharBound::Unbounded => s.unicode_len(),
    };
    if last < first || char_range_end(s, last).is_none() {
        return None;
    }
    Some(s.substring_char(first, last))
}

/// The characters of `s` at positions `start..end`, which must lie within `s`.
pub fn get_chars_bounded(s: &str, start: CharBound, end: CharBound) -> (r: &str)
    requires
        valid_range(start, end, s@.len() as int),
    ensures
        r@ == s@.subrange(start_index(start), end_index(end, s@.len() as int)),
{
    match try_get_chars_bounded(s, start, end) {
        Some(sub) => sub,
        None => s,
    }
}

/// The characters of `s` at positions `range`, or `None` when the range does
/// not lie within `s`.
pub fn try_get_chars(s: &str, range: std::ops::Range<usize>) -> (r: Option<&str>)
    ensures
        range.start <= range.end <= s@.len() <==> r is Some,
        r matches Some(sub) ==> sub@ == s@.subrange(range.start as int, range.end as int),
{
    try_get_chars_bounded(s, CharBound::Included(range.start), CharBound::Excluded(range.end))
}

/// The characters of `s` at positions `range`, which must lie within `s`.
pub fn get_chars(s: &str, range: std::ops::Range<usize>) -> (r: &str)
    requires
        range.start <= range.end <= s@.len(),
    ensures
        r@ == s@.subrange(range.start as int, range.end as int),
{
    match try_get_chars(s, range) {
        Some(sub) => sub,
        None => s,
    }
}

} // verus!
