//! Escaped renderings of text: zero padding of numeric bytes, ASCII-only
//! escaping, and the quoted `repr` form.
use vstd::prelude::*;
use vstd::std_specs::iter::IteratorSpec;

verus! {

/// `n` copies of the byte `b`.
pub open spec fn repeat_byte(b: u8, n: nat) -> Seq<u8> {
    Seq::new(n, |_i: int| b)
}

/// The byte sequence `b` widened to `width` bytes with ASCII zeros, inserted
/// after a leading `+` or `-` sign when one is present.
pub open spec fn zfill_spec(b: Seq<u8>, width: nat) -> Seq<u8> {
    if width <= b.len() {
        b
    } else if b.len() > 0 && (b[0] == 43u8 || b[0] == 45u8) {
        seq![b[0]] + repeat_byte(48u8, (width - b.len()) as nat) + b.skip(1)
    } else {
        repeat_byte(48u8, (width - b.len()) as nat) + b
    }
}

/// Pads `bytes` on the left with `b'0'` up to `width` bytes, keeping a
/// leading sign byte first.
pub fn zfill(bytes: &[u8], width: usize) -> (r: Vec<u8>)
    ensures
        r@ == zfill_spec(bytes@, width as nat),
{
    let n = bytes.len();
    let mut out: Vec<u8> = Vec::new();
    if width <= n {
        let mut i: usize = 0;
        while i < n
            invariant
                n == bytes@.len(),
                i <= n,
                out@ == bytes@.take(i as int),
            decreases n - i,
        {
            out.push(bytes[i]);
            i = i + 1;
            assert(out@ =~= bytes@.take(i as int));
        }
        assert(bytes@.take(n as int) =~= bytes@);
        return out;
    }
    let signed = n > 0 && (bytes[0] == 43u8 || bytes[0] == 45u8);
    let mut i: usize = 0;
    if signed {
        out.push(bytes[0]);
        i = 1;
    }
    let pad = width - n;
    let mut k: usize = 0;
    while k < pad
        invariant
            n == bytes@.len(),
            pad == width - n,
            k <= pad,
            signed ==> i == 1 && out@ == seq![bytes@[0]] + repeat_byte(48u8, k as nat),
            !signed ==> i == 0 && out@ == repeat_byte(48u8, k as nat),
        decreases pad - k,
    {
        out.push(48u8);
        k = k + 1;
        assert(repeat_byte(48u8, (k - 1) as nat).push(48u8) =~= repeat_byte(48u8, k as nat));
        assert(signed ==> seq![bytes@[0]] + repeat_byte(48u8, k as nat) =~= (seq![bytes@[0]]
            + repeat_byte(48u8, (k - 1) as nat)).push(48u8));
    }
    let ghost head = out@;
    let start = i;
    while i < n
        invariant
            n == bytes@.len(),
            start <= i <= n,
            start <= 1,
            out@ == head + bytes@.subrange(start as int, i as int),
        decreases n - i,
    {
        out.push(bytes[i]);
        i = i + 1;
        assert(out@ =~= head + bytes@.subrange(start as int, i as int));
    }
    assert(bytes@.subrange(start as int, n as int) =~= bytes@.skip(start as int));
    assert(bytes@.skip(0) =~= bytes@);
    out
}

/// Padding yields `max(width, len)` bytes, and a leading sign byte stays first.
pub proof fn lemma_zfill_len_and_sign(b: Seq<u8>, width: nat)
    ensures
        zfill_spec(b, width).len() == if width <= b.len() { b.len() } else { width },
        b.len() > 0 && (b[0] == 43u8 || b[0] == 45u8) ==> zfill_spec(b, width)[0] == b[0],
{
}

/// Relies on String::push: appends `c` to `s`.
#[verifier::external_body]
pub(crate) fn push_char(s: &mut String, c: char)
    ensures
        final(s)@ == old(s)@.push(c),
{
    s.push(c)
}

/// Lower-case hexadecimal digit of `d`.
pub open spec fn hex_digit(d: nat) -> char {
    if d < 10 {
        (48 + d) as char
    } else {
        (87 + d) as char
    }
}

/// The last `k` lower-case hexadecimal digits of `v`, most significant first.
pub open spec fn hex_digits(v: nat, k: nat) -> Seq<char>
    decreases k,
{
    if k == 0 {
        seq![]
    } else {
        hex_digits(v / 16, (k - 1) as nat).push(hex_digit(v % 16))
    }
}

/// A backslash, the letter `tag` and `k` hexadecimal digits of `v`.
pub open spec fn hex_escape(tag: char, v: nat, k: nat) -> Seq<char> {
    seq!['\\', tag] + hex_digits(v, k)
}

/// All characters of `cs` are ASCII.
pub open spec fn all_ascii(cs: Seq<char>) -> bool {
    forall|i: int| 0 <= i < cs.len() ==> (cs[i] as u32) < 0x80
}

pub proof fn lemma_hex_digits(v: nat, k: nat)
    ensures
        hex_digits(v, k).len() == k,
        all_ascii(hex_digits(v, k)),
    decreases k,
{
    if k > 0 {
        lemma_hex_digits(v / 16, (k - 1) as nat);
    }
}

/// Appends the last `k` hexadecimal digits of `v` to `out`.
fn push_hex(out: &mut String, v: u32, k: usize)
    ensures
        final(out)@ == old(out)@ + hex_digits(v as nat, k as nat),
    decreases k,
{
    if k == 0 {
        assert(old(out)@ + hex_digits(v as nat, 0) =~= old(out)@);
        return;
    }
    push_hex(out, v / 16, k - 1);
    let d = v % 16;
    let c: char = if d < 10 {
        (48 + d as u8) as char
    } else {
        (87 + d as u8) as char
    };
    push_char(out, c);
    assert(final(out)@ =~= old(out)@ + hex_digits(v as nat, k as nat));
}

/// The ASCII rendering of one character: itself when ASCII, else `\xHH`,
/// `\uHHHH` or `\UHHHHHHHH` by the size of its code point.
pub open spec fn ascii_escape(c: char) -> Seq<char> {
    let v = c as u32;
    if v < 0x80 {
        seq![c]
    } else if v < 0x100 {
        hex_escape('x', v as nat, 2)
    } else if v < 0x10000 {
        hex_escape('u', v as nat, 4)
    } else {
        hex_escape('U', v as nat, 8)
    }
}

/// The ASCII rendering of a text: each character rendered in turn.
pub open spec fn to_ascii_spec(cs: Seq<char>) -> Seq<char>
    decreases cs.len(),
{
    if cs.len() == 0 {
        seq![]
    } else {
        to_ascii_spec(cs.drop_last()) + ascii_escape(cs.last())
    }
}

/// Appends the escape of a code point: a backslash, `tag`, and `k` hex digits.
pub(crate) fn push_hex_escape(out: &mut String, tag: char, v: u32, k: usize)
    ensures
        final(out)@ == old(out)@ + hex_escape(tag, v as nat, k as nat),
{
    push_char(out, '\\');
    push_char(out, tag);
    push_hex(out, v, k);
    assert(final(out)@ =~= old(out)@ + hex_escape(tag, v as nat, k as nat));
}

/// Converts `value` to ASCII, escaping every non-ASCII character by its code
/// point.
pub fn to_ascii(value: &str) -> (r: String)
    ensures
        r@ == to_ascii_spec(value@),
{
    let mut ascii = String::new();
    let mut it = value.chars();
    let ghost mut i: int = 0;
    loop
        invariant
            0 <= i <= value@.len(),
            it.remaining() == value@.skip(i),
            ascii@ == to_ascii_spec(value@.take(i)),
        ensures
            ascii@ == to_ascii_spec(value@),
        decreases value@.len() - i,
    {
        match it.next() {
            None => {
                assert(value@.take(i) =~= value@);
                break;
            },
            Some(c) => {
                proof {
                    vstd::utf8::char_is_scalar(c);
                }
                let v = c as u32;
                if v < 0x80 {
                    push_char(&mut ascii, c);
                } else if v < 0x100 {
                    push_hex_escape(&mut ascii, 'x', v, 2);
                } else if v < 0x10000 {
                    push_hex_escape(&mut ascii, 'u', v, 4);
                } else {
                    push_hex_escape(&mut ascii, 'U', v, 8);
                }
                proof {
                    assert(value@.skip(i).drop_first() =~= value@.skip(i + 1));
                    assert(value@.take(i + 1).drop_last() =~= value@.take(i));
                    i = i + 1;
                }
            },
        }
    }
    ascii
}

/// Every code point escape has exactly four, six or ten characters.
pub proof fn lemma_ascii_escape_len(c: char)
    ensures
        (c as u32) < 0x80 ==> ascii_escape(c).len() == 1,
        0x80 <= (c as u32) < 0x100 ==> ascii_escape(c).len() == 4,
        0x100 <= (c as u32) < 0x10000 ==> ascii_escape(c).len() == 6,
        0x10000 <= (c as u32) ==> ascii_escape(c).len() == 10,
        all_ascii(ascii_escape(c)),
{
    let v = c as u32;
    lemma_hex_digits(v as nat, 2);
    lemma_hex_digits(v as nat, 4);
    lemma_hex_digits(v as nat, 8);
    if v >= 0x80 {
        let tag = if v < 0x100 { 'x' } else if v < 0x10000 { 'u' } else { 'U' };
        let k: nat = if v < 0x100 { 2 } else if v < 0x10000 { 4 } else { 8 };
        let e = hex_escape(tag, v as nat, k);
        assert forall|j: int| 0 <= j < e.len() implies (e[j] as u32) < 0x80 by {
            if j >= 2 {
                assert(e[j] == hex_digits(v as nat, k)[j - 2]);
            }
        }
    }
}

/// The ASCII rendering holds only ASCII characters.
pub proof fn lemma_to_ascii_is_ascii(cs: Seq<char>)
    ensures
        all_ascii(to_ascii_spec(cs)),
    decreases cs.len(),
{
    if cs.len() > 0 {
        lemma_to_ascii_is_ascii(cs.drop_last());
        lemma_ascii_escape_len(cs.last());
        let a = to_ascii_spec(cs.drop_last());
        let b = ascii_escape(cs.last());
        assert forall|j: int| 0 <= j < (a + b).len() implies ((a + b)[j] as u32) < 0x80 by {
            if j >= a.len() {
                assert((a + b)[j] == b[j - a.len()]);
            }
        }
    }
}

} // verus!
