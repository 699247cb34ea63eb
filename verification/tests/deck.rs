use reword::deck::{front_is_ignored, split_card, Card, Deck};

fn parse(text: &str) -> Deck {
    Deck::parse("t", "decks/t.md", text)
}

#[test]
fn parses_forward_and_reverse_cards() {
    let d = parse("# heading\n\n食::to eat\n飲 ::: to drink\nprose line\n");
    assert_eq!(d.cards.len(), 2);
    assert_eq!(
        d.cards[0],
        Card {
            front: "食".into(),
            back: "to eat".into(),
            reverse: false,
            line: 3
        }
    );
    assert_eq!(
        d.cards[1],
        Card {
            front: "飲".into(),
            back: "to drink".into(),
            reverse: true,
            line: 4
        }
    );
    assert!(d.warnings.is_empty());
}

#[test]
fn splits_on_first_triple_then_first_double() {
    assert_eq!(
        split_card("Vec::new():::constructor"),
        Some(("Vec::new()", "constructor", true))
    );
    assert_eq!(split_card("a::b::c"), Some(("a", "b::c", false)));
    assert_eq!(split_card("no card here"), None);
}

#[test]
fn warns_on_duplicates_and_empty_sides() {
    let d = parse("a::1\na::2\n::x\ny::\n");
    assert_eq!(d.cards.len(), 1);
    assert_eq!(d.warnings.len(), 3);
    assert!(d.warnings[0].message.contains("duplicate"));
    assert_eq!(d.warnings[0].line, 2);
    assert!(d.warnings[1].message.contains("empty front"));
    assert!(d.warnings[2].message.contains("empty back"));
}

#[test]
fn ignores_code_fences_and_hash_lines() {
    let d = parse("```\nstd::io\n```\n# heading::not a card\n  # commented::out\nreal::card\n");
    assert_eq!(d.cards.len(), 1);
    assert_eq!(d.cards[0].front, "real");
}

#[test]
fn comment_like_fronts_are_refused_up_front() {
    assert!(front_is_ignored("#tag"));
    assert!(front_is_ignored("  # spaced"));
    assert!(front_is_ignored("```rust"));
    assert!(!front_is_ignored("C# language"));
    assert!(!front_is_ignored("plain"));
}

#[test]
fn normalizes_fronts() {
    let d = parse("  e\u{301}  ::x\n");
    assert_eq!(d.cards[0].front, "é");
    assert!(d.has("é"));
}

#[test]
fn parsed_fronts_are_unique_and_sides_non_empty() {
    let d = parse("a::1\nb:::2\na::3\n  ::4\nc::  \nd ::: e\n");
    let fronts: Vec<&str> = d.cards.iter().map(|c| c.front.as_str()).collect();
    assert_eq!(fronts, vec!["a", "b", "d"]);
    for c in &d.cards {
        assert!(!c.front.is_empty() && !c.back.is_empty());
    }
}

#[test]
fn crlf_lines_and_warning_text() {
    let d = parse("x::1\r\nx::2\r\n");
    assert_eq!(d.cards.len(), 1);
    assert_eq!(d.cards[0].back, "1");
    assert_eq!(d.warnings[0].to_text(), format!("decks/t.md:2: {}", d.warnings[0].message));
    assert_eq!(d.find("x").map(|c| c.line), Some(1));
    assert!(d.find("y").is_none());
}

#[test]
fn each_card_comes_from_its_line_in_order() {
    let d = Deck::parse("t", "decks/t.md", "# h\n```\na::b\n```\nx::y\n c ::: d \nx::again\n");
    let got: Vec<(String, String, bool, usize)> =
        d.cards.iter().map(|c| (c.front.clone(), c.back.clone(), c.reverse, c.line)).collect();
    assert_eq!(
        got,
        vec![("x".to_string(), "y".to_string(), false, 5), ("c".to_string(), "d".to_string(), true, 6)]
    );
    assert_eq!(d.warnings.len(), 1);
    assert_eq!(d.warnings[0].line, 7);
}

#[test]
fn the_first_line_that_offers_a_front_becomes_its_card() {
    let d = parse("a::1\n```\nb::fenced\n```\n# b::ignored\nb::\na::2\nb::3\n");
    assert_eq!(d.cards.len(), 2);
    assert_eq!((d.cards[0].front.as_str(), d.cards[0].back.as_str(), d.cards[0].line), ("a", "1", 1));
    assert_eq!((d.cards[1].front.as_str(), d.cards[1].back.as_str(), d.cards[1].line), ("b", "3", 8));
}
