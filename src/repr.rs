//! The quoted, escaped display form of a text (`repr`).
use vstd::prelude::*;
use vstd::std_specs::iter::IteratorSpec;
use vstd::string::StrSliceExecFns;
use vstd::string::StringExecFns;
use crate::escape::{hex_escape, push_char, push_hex_escape};
use crate::text::{byte_len, char_width, lemma_char_width, lemma_utf8_len_push, utf8_len};

verus! {

/// What std's `str::escape_debug` yields for the two-character text made of a
/// space followed by `c`.
pub uninterp spec fn spaced_debug_escape_of(c: char) -> Seq<char>;

/// Relies on str::escape_debug: the escaped form of a text depends on that
/// text alone. Grapheme-extending marks are escaped only at the start of the
/// text, so behind the leading space such a mark is escaped only when it is
/// not printable.
#[verifier::external_body]
fn spaced_debug_escape(c: char) -> (r: String)
    ensures
        r@ == spaced_debug_escape_of(c),
{
    format!(" {}", c).escape_debug().to_string()
}

/// `c` renders as a visible glyph: std's debug escaping leaves it as it is
/// when it follows another character. Letters, marks (combining ones
/// included), numbers, punctuation, symbols and the space are printable;
/// other separators, controls, format characters, surrogates, private-use and
/// unassigned code points are not.
pub open spec fn printable(c: char) -> bool {
    spaced_debug_escape_of(c) == seq![' ', c]
}

/// Whether `c` is printable by its Unicode general category.
pub fn is_printable(c: char) -> (r: bool)
    ensures
        r == printable(c),
{
    let e = spaced_debug_escape(c);
    let es = e.as_str();
    let r = es.unicode_len() == 2 && es.get_char(0) == ' ' && es.get_char(1) == c;
    proof {
        if es@.len() == 2 && es@[0] == ' ' && es@[1] == c {
            assert(es@ =~= seq![' ', c]);
        }
    }
    r
}

/// Bytes that `c` takes in the representation, given whether it is
/// printable; a quote character counts once here.
pub open spec fn cost_with(c: char, p: bool) -> nat {
    let v = c as u32;
    if c == '\'' || c == '"' {
        1
    } else if c == '\\' || c == '\t' || c == '\r' || c == '\n' {
        2
    } else if v < 0x20 || v == 0x7f {
        4
    } else if v < 0x80 {
        1
    } else if p {
        char_width(c)
    } else if v < 0x100 {
        4
    } else if v < 0x10000 {
        6
    } else {
        10
    }
}

/// How `c` is written inside a representation quoted with `q`, given whether
/// it is printable.
pub open spec fn escape_with(c: char, q: char, p: bool) -> Seq<char> {
    let v = c as u32;
    if c == '\n' {
        seq!['\\', 'n']
    } else if c == '\t' {
        seq!['\\', 't']
    } else if c == '\r' {
        seq!['\\', 'r']
    } else if 0x20 <= v <= 0x7e {
        if c == q || c == '\\' {
            seq!['\\', c]
        } else {
            seq![c]
        }
    } else if v < 0x80 {
        hex_escape('x', v as nat, 2)
    } else if p {
        seq![c]
    } else if v < 0x100 {
        hex_escape('x', v as nat, 2)
    } else if v < 0x10000 {
        hex_escape('u', v as nat, 4)
    } else {
        hex_escape('U', v as nat, 8)
    }
}

pub open spec fn char_cost(c: char) -> nat {
    cost_with(c, printable(c))
}

pub open spec fn escape_char(c: char, q: char) -> Seq<char> {
    escape_with(c, q, printable(c))
}

/// Sum of the costs of the characters of `cs`.
pub open spec fn cost_sum(cs: Seq<char>) -> nat
    decreases cs.len(),
{
    if cs.len() == 0 {
        0
    } else {
        cost_sum(cs.drop_last()) + char_cost(cs.last())
    }
}

/// Number of occurrences of `ch` in `cs`.
pub open spec fn count_char(cs: Seq<char>, ch: char) -> nat
    decreases cs.len(),
{
    if cs.len() == 0 {
        0
    } else {
        count_char(cs.drop_last(), ch) + if cs.last() == ch { 1nat } else { 0nat }
    }
}

/// The outer quote: `"` when the text holds a `'` and no `"`, else `'`.
pub open spec fn choose_quote(num_squotes: nat, num_dquotes: nat) -> char {
    if num_squotes > 0 && num_dquotes == 0 {
        '"'
    } else {
        '\''
    }
}

pub open spec fn quote_for(cs: Seq<char>) -> char {
    choose_quote(count_char(cs, '\''), count_char(cs, '"'))
}

/// The characters of `cs` each written as inside quotes `q`.
pub open spec fn escaped_body(cs: Seq<char>, q: char) -> Seq<char>
    decreases cs.len(),
{
    if cs.len() == 0 {
        seq![]
    } else {
        escaped_body(cs.drop_last(), q) + escape_char(cs.last(), q)
    }
}

/// The representation of a text: its body between two chosen quotes.
pub open spec fn repr_spec(cs: Seq<char>) -> Seq<char> {
    seq![quote_for(cs)] + escaped_body(cs, quote_for(cs)) + seq![quote_for(cs)]
}

/// The outer quote for a text with the given quote counts, and how many
/// quotes inside it need a backslash.
pub fn choose_quotes_for_repr(num_squotes: usize, num_dquotes: usize) -> (r: (char, usize))
    ensures
        r.0 == choose_quote(num_squotes as nat, num_dquotes as nat),
        r.1 == if r.0 == '"' { num_dquotes } else { num_squotes },
{
    let use_dquote = num_squotes > 0 && num_dquotes == 0;
    if use_dquote {
        ('"', num_dquotes)
    } else {
        ('\'', num_squotes)
    }
}

/// Bytes that `c` takes in the representation when its printability is `p`.
pub fn repr_char_cost(c: char, p: bool) -> (n: usize)
    ensures
        n == cost_with(c, p),
        1 <= n <= 10,
{
    proof {
        lemma_char_width(c);
    }
    let v = c as u32;
    if c == '\'' || c == '"' {
        1
    } else if c == '\\' || c == '\t' || c == '\r' || c == '\n' {
        2
    } else if v < 0x20 || v == 0x7f {
        4
    } else if v < 0x80 {
        1
    } else if p {
        crate::text::utf8_width(c)
    } else if v < 0x100 {
        4
    } else if v < 0x10000 {
        6
    } else {
        10
    }
}

/// Appends `c` as written inside quotes `quote`, when its printability is `p`.
pub fn push_repr_char(out: &mut String, c: char, quote: char, p: bool)
    ensures
        final(out)@ == old(out)@ + escape_with(c, quote, p),
{
    let v = c as u32;
    if c == '\n' {
        push_char(out, '\\');
        push_char(out, 'n');
    } else if c == '\t' {
        push_char(out, '\\');
        push_char(out, 't');
    } else if c == '\r' {
        push_char(out, '\\');
        push_char(out, 'r');
    } else if 0x20 <= v && v <= 0x7e {
        if c == quote || c == '\\' {
            push_char(out, '\\');
        }
        push_char(out, c);
    } else if v < 0x80 {
        push_hex_escape(out, 'x', v, 2);
        return;
    } else if p {
        push_char(out, c);
    } else if v < 0x100 {
        push_hex_escape(out, 'x', v, 2);
        return;
    } else if v < 0x10000 {
        push_hex_escape(out, 'u', v, 4);
        return;
    } else {
        push_hex_escape(out, 'U', v, 8);
        return;
    }
    assert(final(out)@ =~= old(out)@ + escape_with(c, quote, p));
}

pub proof fn lemma_escape_cost(c: char, q: char, p: bool)
    requires
        q == '\'' || q == '"',
    ensures
        cost_with(c, p) + (if c == q { 1nat } else { 0nat }) >= char_width(c),
        cost_with(c, p) + (if c == q { 1nat } else { 0nat }) == char_width(c) ==> escape_with(
            c,
            q,
            p,
        ) == seq![c],
{
    lemma_char_width(c);
}

pub proof fn lemma_cost_prefix(cs: Seq<char>, k: int)
    requires
        0 <= k <= cs.len(),
    ensures
        cost_sum(cs.take(k)) <= cost_sum(cs),
    decreases cs.len() - k,
{
    if k < cs.len() {
        assert(cs.take(k + 1).drop_last() =~= cs.take(k));
        lemma_cost_prefix(cs, k + 1);
    } else {
        assert(cs.take(k) =~= cs);
    }
}

/// Every character costs at least its own UTF-8 width once the chosen quotes
/// are escaped, and a text whose total cost equals its byte length is written
/// unchanged.
pub proof fn lemma_body_identity(cs: Seq<char>, q: char)
    requires
        q == '\'' || q == '"',
    ensures
        cost_sum(cs) + count_char(cs, q) >= utf8_len(cs),
        cost_sum(cs) + count_char(cs, q) == utf8_len(cs) ==> escaped_body(cs, q) == cs,
    decreases cs.len(),
{
    if cs.len() == 0 {
        assert(escaped_body(cs, q) =~= cs);
    } else {
        let init = cs.drop_last();
        let c = cs.last();
        lemma_body_identity(init, q);
        lemma_escape_cost(c, q, printable(c));
        lemma_utf8_len_push(init, c);
        assert(init.push(c) =~= cs);
        if cost_sum(cs) + count_char(cs, q) == utf8_len(cs) {
            assert(escaped_body(cs, q) =~= init + seq![c]);
        }
    }
}

/// The quoted, escaped representation of `s`, or `None` when its length
/// would exceed `isize::MAX` bytes.
pub fn repr(s: &str) -> (r: Option<String>)
    ensures
        r is None <==> cost_sum(s@) > isize::MAX,
        r matches Some(out) ==> out@ == repr_spec(s@),
{
    let in_len = byte_len(s);
    let mut out_len: usize = 0;
    let mut squote: usize = 0;
    let mut dquote: usize = 0;
    let mut it = s.chars();
    let ghost mut i: int = 0;
    loop
        invariant
            0 <= i <= s@.len(),
            it.remaining() == s@.skip(i),
            out_len == cost_sum(s@.take(i)),
            squote == count_char(s@.take(i), '\''),
            dquote == count_char(s@.take(i), '"'),
            squote + dquote <= out_len <= isize::MAX,
        ensures
            i == s@.len(),
            out_len == cost_sum(s@),
            squote == count_char(s@, '\''),
            dquote == count_char(s@, '"'),
            squote + dquote <= out_len <= isize::MAX,
        decreases s@.len() - i,
    {
        match it.next() {
            None => {
                assert(s@.take(i) =~= s@);
                break;
            },
            Some(ch) => {
                proof {
                    vstd::utf8::char_is_scalar(ch);
                }
                let p = if (ch as u32) < 0x80 {
                    false
                } else {
                    is_printable(ch)
                };
                let incr = repr_char_cost(ch, p);
                proof {
                    assert(s@.skip(i).drop_first() =~= s@.skip(i + 1));
                    assert(s@.take(i + 1).drop_last() =~= s@.take(i));
                    assert(cost_with(ch, p) == char_cost(ch));
                }
                if out_len > (isize::MAX as usize) - incr {
                    proof {
                        lemma_cost_prefix(s@, i + 1);
                    }
                    return None;
                }
                if ch == '\'' {
                    squote = squote + 1;
                } else if ch == '"' {
                    dquote = dquote + 1;
                }
                out_len = out_len + incr;
                proof {
                    i = i + 1;
                }
            },
        }
    }
    let (quote, num_escaped_quotes) = choose_quotes_for_repr(squote, dquote);
    let unchanged = out_len + num_escaped_quotes == in_len;
    let mut repr = String::new();
    push_char(&mut repr, quote);
    if unchanged {
        proof {
            lemma_body_identity(s@, quote);
        }
        repr.append(s);
    } else {
        let mut it2 = s.chars();
        let ghost mut j: int = 0;
        loop
            invariant
                0 <= j <= s@.len(),
                it2.remaining() == s@.skip(j),
                quote == quote_for(s@),
                repr@ == seq![quote] + escaped_body(s@.take(j), quote),
            ensures
                repr@ == seq![quote] + escaped_body(s@, quote),
            decreases s@.len() - j,
        {
            match it2.next() {
                None => {
                    assert(s@.take(j) =~= s@);
                    break;
                },
                Some(ch) => {
                    proof {
                        vstd::utf8::char_is_scalar(ch);
                    }
                    let p = if (ch as u32) < 0x80 {
                        false
                    } else {
                        is_printable(ch)
                    };
                    push_repr_char(&mut repr, ch, quote, p);
                    proof {
                        assert(s@.skip(j).drop_first() =~= s@.skip(j + 1));
                        assert(s@.take(j + 1).drop_last() =~= s@.take(j));
                        assert(escape_with(ch, quote, p) == escape_char(ch, quote));
                        assert(repr@ =~= seq![quote] + escaped_body(s@.take(j + 1), quote));
                        j = j + 1;
                    }
                },
            }
        }
    }
    push_char(&mut repr, quote);
    Some(repr)
}

/// `c` is written as itself, whichever quote is chosen: a printable character
/// other than a quote or a backslash.
pub open spec fn is_plain(c: char) -> bool {
    let v = c as u32;
    (0x20 <= v <= 0x7e && c != '\'' && c != '"' && c != '\\') || (0x80 <= v && printable(c))
}

proof fn lemma_plain_body(cs: Seq<char>, q: char)
    requires
        q == '\'' || q == '"',
        forall|i: int| 0 <= i < cs.len() ==> is_plain(#[trigger] cs[i]),
    ensures
        escaped_body(cs, q) == cs,
        count_char(cs, '\'') == 0,
        count_char(cs, '"') == 0,
        cost_sum(cs) == utf8_len(cs),
    decreases cs.len(),
{
    if cs.len() == 0 {
        assert(escaped_body(cs, q) =~= cs);
    } else {
        let init = cs.drop_last();
        assert forall|i: int| 0 <= i < init.len() implies is_plain(#[trigger] init[i]) by {
            assert(init[i] == cs[i]);
        }
        lemma_plain_body(init, q);
        assert(is_plain(cs[cs.len() - 1]));
        lemma_char_width(cs.last());
        lemma_utf8_len_push(init, cs.last());
        assert(escape_char(cs.last(), q) == seq![cs.last()]);
        assert(escaped_body(cs, q) =~= init.push(cs.last()));
        assert(init.push(cs.last()) =~= cs);
    }
}

/// A text of plain characters is represented as itself between single
/// quotes, and its cost is its own byte length, so `repr` succeeds on it
/// whenever that length is at most `isize::MAX`.
pub proof fn lemma_plain_repr(cs: Seq<char>)
    requires
        forall|i: int| 0 <= i < cs.len() ==> is_plain(#[trigger] cs[i]),
    ensures
        repr_spec(cs) == seq!['\''] + cs + seq!['\''],
        cost_sum(cs) == utf8_len(cs),
{
    lemma_plain_body(cs, '\'');
}

/// A text with single quotes and no double quotes is wrapped in double quotes
/// and its single quotes are not escaped; any other text is wrapped in single
/// quotes, its single quotes are escaped and its double quotes are not.
pub proof fn lemma_quote_selection(cs: Seq<char>)
    ensures
        repr_spec(cs).first() == quote_for(cs),
        repr_spec(cs).last() == quote_for(cs),
        count_char(cs, '\'') > 0 && count_char(cs, '"') == 0 ==> quote_for(cs) == '"'
            && escape_char('\'', quote_for(cs)) == seq!['\''],
        !(count_char(cs, '\'') > 0 && count_char(cs, '"') == 0) ==> quote_for(cs) == '\''
            && escape_char('\'', quote_for(cs)) == seq!['\\', '\'']
            && escape_char('"', quote_for(cs)) == seq!['"'],
{
}

} // verus!
