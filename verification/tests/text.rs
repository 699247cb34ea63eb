use reword::text::{
    alternatives, answer_matches, cards_come_due, escape_field, front_key, normalize_answer,
    pad_left, pad_right, plural, unescape_field, width, wrap,
};

#[test]
fn answer_matching_is_forgiving_about_case_and_space() {
    assert!(answer_matches("  To   EAT ", "to eat"));
    assert!(answer_matches("thank you", "excuse me / thank you"));
    assert!(answer_matches(
        "excuse me / thank you",
        "excuse me / thank you"
    ));
    assert!(!answer_matches("", "to eat"));
    assert!(!answer_matches("eat", "to eat"));
}

#[test]
fn nfc_equalizes_composed_and_decomposed() {
    let composed = "é";
    let decomposed = "e\u{301}";
    assert_eq!(front_key(composed), front_key(decomposed));
    assert!(answer_matches(decomposed, composed));
}

#[test]
fn escaping_round_trips() {
    let s = "a\tb\nc\\d";
    assert_eq!(unescape_field(&escape_field(s)), s);
    assert!(!escape_field(s).contains('\t'));
}

#[test]
fn cjk_width() {
    assert_eq!(width("食"), 2);
    assert_eq!(pad_right("食", 4), "食  ");
}

#[test]
fn escape_uses_backslash_letters() {
    assert_eq!(escape_field("a\tb\nc\\d\re"), "a\\tb\\nc\\\\d\\re");
    assert_eq!(unescape_field("x\\qy\\"), "x\\qy\\");
}

#[test]
fn normalization_and_alternatives() {
    assert_eq!(normalize_answer("  To \t EAT  "), "to eat");
    assert_eq!(alternatives("a / b / c"), vec!["a", "b", "c"]);
    assert_eq!(front_key("  食  "), "食");
}

#[test]
fn padding_counts_and_plurals() {
    assert_eq!(pad_left("7", 3), "  7");
    assert_eq!(pad_right("abcd", 2), "abcd");
    assert_eq!(plural(1, "card"), "1 card");
    assert_eq!(plural(0, "card"), "0 cards");
    assert_eq!(cards_come_due(1), "1 card comes due");
    assert_eq!(cards_come_due(3), "3 cards come due");
}

#[test]
fn wrap_fills_lines_greedily_and_breaks_long_words() {
    assert_eq!(wrap("aa bb cc", 5), vec!["aa bb", "cc"]);
    assert_eq!(wrap("abcdefg", 3), vec!["abc", "def", "g"]);
    assert_eq!(wrap("one\ntwo", 10), vec!["one", "two"]);
    assert_eq!(wrap("", 0), vec![""]);
}

#[test]
fn wrapping_keeps_every_visible_character() {
    let s = "the quick brown fox\njumps over  the lazydogwithaverylongname 食べる";
    for cells in [1usize, 3, 6, 10, 80] {
        let lines = wrap(s, cells);
        let got: String = lines.concat().chars().filter(|c| *c != ' ' && *c != '\n').collect();
        let want: String = s.chars().filter(|c| *c != ' ' && *c != '\n').collect();
        assert_eq!(got, want, "cells = {cells}");
    }
}

#[test]
fn a_word_too_wide_starts_its_own_line() {
    assert_eq!(wrap("ab xxxxx", 3), vec!["ab", "xxx", "xx"]);
    assert_eq!(wrap("ab xxxxx c", 3), vec!["ab", "xxx", "xx", "c"]);
}

#[test]
fn normalized_answers_are_single_spaced_and_ignore_surrounding_whitespace() {
    let s = "  To \t  EAT\u{3000}well ";
    let r = normalize_answer(s);
    assert_eq!(r, "to eat well");
    assert_eq!(normalize_answer(&format!(" \t{s}\n ")), r);
    assert!(!r.starts_with(' ') && !r.ends_with(' ') && !r.contains("  "));
}
