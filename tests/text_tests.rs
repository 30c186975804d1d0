use pybuiltins::escape::{to_ascii, zfill};
use pybuiltins::repr::{choose_quotes_for_repr, is_printable, repr, repr_char_cost};
use pybuiltins::text::{
    char_range_end, get_chars, get_chars_bounded, try_get_chars, try_get_chars_bounded, CharBound,
};

#[test]
fn test_get_chars() {
    let s = "0123456789";
    assert_eq!(get_chars(s, 3..7), "3456");
    assert_eq!(get_chars(s, 3..7), &s[3..7]);

    let s = "0유니코드 문자열9";
    assert_eq!(get_chars(s, 3..7), "코드 문");

    let s = "0😀😃😄😁😆😅😂🤣9";
    assert_eq!(get_chars(s, 3..7), "😄😁😆😅");
}

#[test]
fn slice_two_byte_characters() {
    assert_eq!(get_chars("aéüöb", 1..4), "éüö");
}

#[test]
fn try_get_chars_out_of_range() {
    assert_eq!(try_get_chars("abc", 2..4), None);
    assert_eq!(try_get_chars("abc", 4..4), None);
    assert_eq!(try_get_chars("abc", 2..1), None);
    assert_eq!(try_get_chars("abc", 3..3), Some(""));
    assert_eq!(try_get_chars("", 0..0), Some(""));
}

#[test]
fn try_get_chars_other_bounds() {
    let s = "0유니코드9";
    assert_eq!(try_get_chars_bounded(s, CharBound::Unbounded, CharBound::Unbounded), Some(s));
    assert_eq!(try_get_chars_bounded(s, CharBound::Excluded(1), CharBound::Included(3)), Some("니코"));
    assert_eq!(try_get_chars_bounded(s, CharBound::Included(4), CharBound::Unbounded), Some("드9"));
    assert_eq!(try_get_chars_bounded(s, CharBound::Included(7), CharBound::Unbounded), None);
    assert_eq!(try_get_chars_bounded(s, CharBound::Excluded(usize::MAX), CharBound::Unbounded), None);
    assert_eq!(try_get_chars_bounded(s, CharBound::Unbounded, CharBound::Included(usize::MAX)), None);
    assert_eq!(try_get_chars_bounded(s, CharBound::Unbounded, CharBound::Included(6)), None);
}

#[test]
fn char_range_end_counts_bytes() {
    assert_eq!(char_range_end("", 0), Some(0));
    assert_eq!(char_range_end("유", 0), Some(0));
    assert_eq!(char_range_end("a유😀", 1), Some(1));
    assert_eq!(char_range_end("a유😀", 2), Some(4));
    assert_eq!(char_range_end("a유😀", 3), Some(8));
    assert_eq!(char_range_end("a유😀", 4), None);
}

#[test]
fn zfill_negative_number() {
    assert_eq!(zfill(b"-5", 5), b"-0005".to_vec());
}

#[test]
fn zfill_cases() {
    assert_eq!(zfill(b"42", 5), b"00042".to_vec());
    assert_eq!(zfill(b"+7", 3), b"+07".to_vec());
    assert_eq!(zfill(b"12345", 3), b"12345".to_vec());
    assert_eq!(zfill(b"-", 3), b"-00".to_vec());
    assert_eq!(zfill(b"", 2), b"00".to_vec());
    assert_eq!(zfill(b"", 0), b"".to_vec());
    let out = zfill(b"-12", 8);
    assert_eq!(out.len(), 8);
    assert_eq!(out[0], b'-');
}

#[test]
fn to_ascii_escape_widths() {
    assert_eq!(to_ascii("abc"), "abc");
    assert_eq!(to_ascii("é"), "\\xe9");
    assert_eq!(to_ascii("유"), "\\uc720");
    assert_eq!(to_ascii("😀"), "\\U0001f600");
    assert_eq!(to_ascii("é").len(), 4);
    assert_eq!(to_ascii("유").len(), 6);
    assert_eq!(to_ascii("😀").len(), 10);
    let out = to_ascii("a\u{80}b\u{ffff}c\u{10000}\u{10ffff}");
    assert!(out.is_ascii());
    assert_eq!(out, "a\\x80b\\uffffc\\U00010000\\U0010ffff");
}

#[test]
fn repr_escapes_chosen_quote() {
    assert_eq!(repr("it's \"quoted\"").unwrap(), "'it\\'s \"quoted\"'");
}

#[test]
fn repr_prefers_double_quotes_for_single_quotes_only() {
    assert_eq!(repr("only 'squote'").unwrap(), "\"only 'squote'\"");
}

#[test]
fn repr_neither_quote() {
    assert_eq!(repr("").unwrap(), "''");
    assert_eq!(repr("say \"hi\"").unwrap(), "'say \"hi\"'");
}

#[test]
fn repr_fast_path_identity() {
    let s = "hello wörld 유 😀";
    let out = repr(s).unwrap();
    assert_eq!(out, "'hello wörld 유 😀'");
    assert_eq!(&out[1..out.len() - 1], s);
}

#[test]
fn repr_control_characters() {
    assert_eq!(repr("a\nb\tc\rd\\").unwrap(), "'a\\nb\\tc\\rd\\\\'");
    assert_eq!(repr("\u{1}\u{1f}\u{7f}").unwrap(), "'\\x01\\x1f\\x7f'");
}

#[test]
fn repr_non_printable_widths() {
    assert_eq!(repr("\u{85}").unwrap(), "'\\x85'");
    assert_eq!(repr("\u{200b}").unwrap(), "'\\u200b'");
    assert_eq!(repr("\u{e000}").unwrap(), "'\\ue000'");
    assert_eq!(repr("\u{f0000}").unwrap(), "'\\U000f0000'");
}

#[test]
fn printability_classifier() {
    assert!(is_printable('é'));
    assert!(is_printable('유'));
    assert!(is_printable('😀'));
    assert!(!is_printable('\u{200b}'));
    assert!(!is_printable('\u{85}'));
    assert!(!is_printable('\u{e000}'));
}

#[test]
fn repr_cost_table() {
    assert_eq!(repr_char_cost('\'', false), 1);
    assert_eq!(repr_char_cost('"', false), 1);
    assert_eq!(repr_char_cost('\\', false), 2);
    assert_eq!(repr_char_cost('\n', false), 2);
    assert_eq!(repr_char_cost('\u{1}', false), 4);
    assert_eq!(repr_char_cost('\u{7f}', false), 4);
    assert_eq!(repr_char_cost('a', false), 1);
    assert_eq!(repr_char_cost('유', true), 3);
    assert_eq!(repr_char_cost('\u{85}', false), 4);
    assert_eq!(repr_char_cost('\u{200b}', false), 6);
    assert_eq!(repr_char_cost('\u{f0000}', false), 10);
}

#[test]
fn quote_choice() {
    assert_eq!(choose_quotes_for_repr(0, 0), ('\'', 0));
    assert_eq!(choose_quotes_for_repr(2, 0), ('"', 0));
    assert_eq!(choose_quotes_for_repr(2, 1), ('\'', 2));
    assert_eq!(choose_quotes_for_repr(0, 3), ('\'', 0));
}

#[test]
fn get_chars_bounded_forms() {
    let s = "0유니코드9";
    assert_eq!(get_chars_bounded(s, CharBound::Included(1), CharBound::Included(2)), "유니");
    assert_eq!(get_chars_bounded(s, CharBound::Excluded(3), CharBound::Unbounded), "드9");
    assert_eq!(get_chars_bounded(s, CharBound::Unbounded, CharBound::Excluded(0)), "");
}

#[test]
fn repr_keeps_combining_marks() {
    assert_eq!(repr("e\u{301}").unwrap(), "'e\u{301}'");
    assert_eq!(repr("\u{915}\u{94d}").unwrap(), "'\u{915}\u{94d}'");
    assert_eq!(repr("\u{301}").unwrap(), "'\u{301}'");
    assert!(is_printable('\u{301}'));
    assert!(is_printable('\u{94d}'));
}
