use reword::clock::parse_ts;
use reword::commands::{leeches, rename_candidate, summarize};
use reword::deck::Deck;
use reword::edit::{check_card, check_rename, orphans, rebuild_line, sort_words, with_line};
use reword::history::{Ledger, Row, RowKind};
use reword::planner::{CardInput, Memory};
use reword::store::LoadedDeck;
use reword::types::{Goal, Grade, Mode};

fn row(t: &str, front: &str, grade: Grade) -> Row {
    Row {
        ts: parse_ts(t).unwrap(),
        front: front.into(),
        kind: RowKind::Review {
            goal: Goal::Forward,
            mode: Mode::Recall,
            grade,
            elapsed_ms: 1000,
            answer: None,
            overridden: false,
        },
    }
}

fn loaded(text: &str, rows: Vec<Row>) -> LoadedDeck {
    LoadedDeck {
        deck: Deck::parse("t", "decks/t.md", text),
        ledger: Ledger::replay(&rows),
        warnings: vec![],
    }
}

#[test]
fn leeches_are_the_worst_cards_still_in_the_deck() {
    let mut rows = Vec::new();
    for i in 0..8 {
        rows.push(row(
            &format!("2026-01-0{}T10:00:00Z", i + 1),
            "worse",
            Grade::Again,
        ));
    }
    for i in 0..4 {
        rows.push(row(
            &format!("2026-02-0{}T10:00:00Z", i + 1),
            "bad",
            Grade::Again,
        ));
    }
    rows.push(row("2026-03-01T10:00:00Z", "ok", Grade::Again));
    rows.push(row("2026-03-02T10:00:00Z", "ok", Grade::Good));
    rows.push(row("2026-03-03T10:00:00Z", "gone", Grade::Again));
    rows.push(row("2026-03-04T10:00:00Z", "gone", Grade::Again));
    rows.push(row("2026-03-05T10:00:00Z", "gone", Grade::Again));
    let decks = vec![loaded("worse::w\nbad::b\nok::o\n", rows)];
    let got: Vec<(String, usize)> = leeches(&decks)
        .into_iter()
        .map(|l| (l.prompt, l.again))
        .collect();
    assert_eq!(got, [("worse".into(), 8), ("bad".into(), 4)]);
}

#[test]
fn a_single_orphan_and_gap_is_a_rename_candidate() {
    let rows = vec![
        row("2026-03-01T10:00:00Z", "one", Grade::Good),
        row("2026-03-01T10:01:00Z", "old", Grade::Good),
        row("2026-03-01T10:02:00Z", "three", Grade::Good),
    ];
    let d = loaded("one::1\nnew::2\nthree::3\nfour::4\n", rows);
    assert_eq!(rename_candidate(&d), Some(("old".to_string(), "new".to_string())));
    let d = loaded("one::1\nthree::3\nfour::4\n", vec![row("2026-03-01T10:00:00Z", "one", Grade::Good)]);
    assert_eq!(rename_candidate(&d), None);
}

#[test]
fn orphans_are_sorted_and_skip_present_cards() {
    let mut rows = vec![
        row("2026-03-01T10:00:00Z", "zeta", Grade::Good),
        row("2026-03-01T10:01:00Z", "alpha", Grade::Good),
        row("2026-03-01T10:02:00Z", "kept", Grade::Good),
    ];
    rows.push(Row {
        ts: parse_ts("2026-03-01T10:03:00Z").unwrap(),
        front: "kept".into(),
        kind: RowKind::Review {
            goal: Goal::Reverse,
            mode: Mode::Recall,
            grade: Grade::Good,
            elapsed_ms: 1,
            answer: None,
            overridden: false,
        },
    });
    let d = loaded("kept::k\n", rows);
    let o: Vec<(String, Goal, usize)> = orphans(&d).into_iter().map(|o| (o.front, o.goal, o.reviews)).collect();
    assert_eq!(
        o,
        vec![
            ("alpha".to_string(), Goal::Forward, 1),
            ("kept".to_string(), Goal::Reverse, 1),
            ("zeta".to_string(), Goal::Forward, 1)
        ]
    );
}

#[test]
fn add_and_rename_checks() {
    let decks = vec!["cantonese".to_string()];
    let (d, f, b) = sort_words(&vec!["食".into(), "to eat".into()], &decks);
    assert_eq!((d, f, b), (None, Some("食".into()), Some("to eat".into())));
    let (d, f, b) = sort_words(&vec!["cantonese.md".into(), "食".into()], &decks);
    assert_eq!((d, f, b), (Some("cantonese.md".into()), Some("食".into()), None));
    assert_eq!(check_card(" 食 ", " to eat ", false).unwrap(), ("食".to_string(), "to eat".to_string()));
    assert_eq!(check_card("a::b", "c", false).unwrap_err().message, "the front cannot contain \"::\" (it is the card separator)");
    assert!(check_card("x", "y:::z", true).is_ok());
    assert!(check_card("x", "y:::z", false).is_err());
    assert_eq!(check_card("", "c", false).unwrap_err().message, "front and back cannot be empty");
    assert_eq!(check_rename("a", " a ").unwrap_err().message, "old and new fronts are the same");
    assert_eq!(check_rename("a", "b").unwrap(), ("a".to_string(), "b".to_string()));
    assert_eq!(rebuild_line("  old  :: 1\n", "new"), Some("  new  :: 1\n".to_string()));
    assert_eq!(rebuild_line("no card\n", "new"), None);
    assert_eq!(with_line("a::1", "b::2"), ("a::1\nb::2\n".to_string(), true));
    assert_eq!(with_line("", "b::2"), ("b::2\n".to_string(), false));
}

#[test]
fn deck_summaries_count_goals_due_and_new() {
    let rows = vec![row("2026-03-01T10:00:00Z", "a", Grade::Good)];
    let decks = vec![loaded("a::x\nb:::y\nc::z\n", rows)];
    let memory = |due: bool, day: i32| Some(Memory { due, retrievability: 5, due_day: day });
    let inputs = vec![vec![
        CardInput { deck: 0, card: 0, reverse: false, forward_ok: true, forward: memory(true, 100), backward: None },
        CardInput { deck: 0, card: 1, reverse: true, forward_ok: false, forward: memory(false, 120), backward: None },
        CardInput { deck: 0, card: 2, reverse: false, forward_ok: false, forward: None, backward: None },
    ]];
    let s = summarize(&decks, &inputs);
    assert_eq!(s.len(), 1);
    assert_eq!(s[0].name, "t");
    assert_eq!(s[0].cards, 3);
    assert_eq!(s[0].goals, 4);
    assert_eq!(s[0].learned, 2);
    assert_eq!(s[0].due, 1);
    assert_eq!(s[0].new_available, 1);
    assert_eq!(s[0].next_due, Some((120, 1)));
    assert_eq!(s[0].last_review, Some(parse_ts("2026-03-01T10:00:00Z").unwrap()));
}

#[test]
fn no_rename_is_guessed_before_any_card_was_reviewed() {
    let d = loaded("new::x\n", vec![row("2026-01-01T10:00:00Z", "old", Grade::Good)]);
    assert_eq!(rename_candidate(&d), None);
}
