use reword::clock::parse_ts;
use reword::deck::Deck;
use reword::history::{Ledger, Row, RowKind};
use reword::planner::{
    average_review_ms, forward_succeeded, introduced_today, plan, CardInput, Memory, NewPolicy,
};
use reword::store::LoadedDeck;
use reword::types::{Goal, Grade, Mode};

fn row(t: &str, front: &str, goal: Goal, grade: Grade) -> Row {
    Row {
        ts: parse_ts(t).unwrap(),
        front: front.into(),
        kind: RowKind::Review {
            goal,
            mode: Mode::Recall,
            grade,
            elapsed_ms: 5000,
            answer: None,
            overridden: false,
        },
    }
}

fn loaded(text: &str, rows: Vec<Row>) -> LoadedDeck {
    let deck = Deck::parse("t", "decks/t.md", text);
    LoadedDeck {
        deck,
        ledger: Ledger::replay(&rows),
        warnings: vec![],
    }
}

fn due(r: u32) -> Option<Memory> {
    Some(Memory { due: true, retrievability: r, due_day: 0 })
}

fn later(day: i32) -> Option<Memory> {
    Some(Memory { due: false, retrievability: 0, due_day: day })
}

// The memory facts below are what the model says of the histories in the
// comments: a card reviewed Good months ago is due; one reviewed today is not.

#[test]
fn new_cards_reverse_gating_and_limits() {
    // a: brand new. b: forward learned long ago (due), reverse never seen.
    let decks = vec![loaded(
        "a:::1\nb:::2\n",
        vec![row("2026-01-01T10:00:00Z", "b", Goal::Forward, Grade::Good)],
    )];
    let cards = vec![
        CardInput {
            deck: 0,
            card: 0,
            reverse: true,
            forward_ok: forward_succeeded(&decks[0].ledger, "a"),
            forward: None,
            backward: None,
        },
        CardInput {
            deck: 0,
            card: 1,
            reverse: true,
            forward_ok: forward_succeeded(&decks[0].ledger, "b"),
            forward: due(100),
            backward: None,
        },
    ];
    let avg = average_review_ms(&decks);
    let p = plan(&cards, NewPolicy::Daily, 10, 10, 0, avg);
    assert_eq!(p.due.len(), 1);
    assert_eq!(p.due[0].goal, Goal::Forward);
    // a forward is new; a reverse is not eligible (forward unseen);
    // b reverse is eligible but deferred because b forward is in session.
    assert_eq!(p.new.len(), 1);
    assert_eq!(p.new[0].goal, Goal::Forward);
    assert_eq!(p.deferred_siblings, 1);
    assert_eq!(p.new_limit, 1);
    assert_eq!(p.total_goals, 4);
    assert_eq!(p.learned, 1);

    let p = plan(&cards, NewPolicy::Explicit(0), 10, 10, 0, avg);
    assert_eq!(p.new_limit, 0);
    assert_eq!(p.new_waiting(), 1);

    let p = plan(&cards, NewPolicy::Daily, 10, 10, 10, avg);
    assert_eq!(p.new_limit, 0, "daily cap reached");
}

#[test]
fn due_sorted_by_retrievability_and_next_due_reported() {
    let decks = vec![loaded(
        "old::1\nolder::2\nfresh::3\n",
        vec![
            row("2026-08-01T10:00:00Z", "old", Goal::Forward, Grade::Good),
            row("2026-06-01T10:00:00Z", "older", Goal::Forward, Grade::Good),
            row("2026-09-06T10:00:00Z", "fresh", Goal::Forward, Grade::Good),
        ],
    )];
    let mut cards = Vec::new();
    for (i, m) in [due(0x3f40_0000), due(0x3f00_0000), later(20_340)].into_iter().enumerate() {
        cards.push(CardInput { deck: 0, card: i, reverse: false, forward_ok: true, forward: m, backward: None });
    }
    let p = plan(&cards, NewPolicy::Daily, 10, 10, 0, average_review_ms(&decks));
    assert_eq!(p.due.len(), 2);
    assert_eq!(decks[0].deck.cards[p.due[0].card].front, "older");
    assert!(p.next_due.is_some());
    assert_eq!(p.next_due, Some((20_340, 1)));
}

#[test]
fn backlog_throttles_new_intake() {
    let mut text = String::from("brandnew::x\n");
    let mut rows = Vec::new();
    for i in 0..40 {
        text.push_str(&format!("c{i}::y\n"));
        rows.push(row("2026-01-01T10:00:00Z", &format!("c{i}"), Goal::Forward, Grade::Good));
    }
    let decks = vec![loaded(&text, rows)];
    let mut cards = vec![CardInput { deck: 0, card: 0, reverse: false, forward_ok: false, forward: None, backward: None }];
    for i in 0..40 {
        cards.push(CardInput { deck: 0, card: i + 1, reverse: false, forward_ok: true, forward: due(1), backward: None });
    }
    let avg = average_review_ms(&decks);
    assert_eq!(avg, 5000);
    let p = plan(&cards, NewPolicy::Daily, 10, 1, 0, avg);
    assert!(p.throttled);
    assert_eq!(p.new_limit, 0);
    let p = plan(&cards, NewPolicy::Explicit(1), 10, 1, 0, avg);
    assert!(!p.throttled);
    assert_eq!(p.new_limit, 1);
}

#[test]
fn average_duration_handles_large_log_values() {
    let mut rows = vec![
        row("2026-01-01T10:00:00Z", "a", Goal::Forward, Grade::Good),
        row("2026-01-02T10:00:00Z", "a", Goal::Forward, Grade::Good),
    ];
    for row in &mut rows {
        if let RowKind::Review { elapsed_ms, .. } = &mut row.kind {
            *elapsed_ms = u64::MAX;
        }
    }
    assert_eq!(average_review_ms(&vec![loaded("a::answer\n", rows)]), 60_000);
}

#[test]
fn average_without_timed_reviews_is_ten_seconds() {
    assert_eq!(average_review_ms(&vec![loaded("a::1\n", vec![])]), 10_000);
}

#[test]
fn cards_introduced_today_are_histories_that_began_today() {
    let review = |t: &str, front: &str| Row {
        ts: parse_ts(t).unwrap(),
        front: front.into(),
        kind: RowKind::Review {
            goal: Goal::Forward,
            mode: Mode::Recall,
            grade: Grade::Good,
            elapsed_ms: 1000,
            answer: None,
            overridden: false,
        },
    };
    let rows = vec![
        review("2026-09-05T10:00:00Z", "old"),
        review("2026-09-06T10:00:00Z", "old"),
        review("2026-09-06T11:00:00Z", "new"),
        review("2026-09-06T12:00:00Z", "new"),
    ];
    let ledger = Ledger::replay(&rows);
    let day = |ts: i128| (ts / 86_400_000_000_000) as i32;
    let days: Vec<Vec<i32>> =
        ledger.iter().iter().map(|h| h.reviews.iter().map(|e| day(e.ts)).collect()).collect();
    let today = day(parse_ts("2026-09-06T00:00:00Z").unwrap());
    assert_eq!(introduced_today(&ledger, &days, today), 1);
    assert_eq!(introduced_today(&ledger, &days, today - 1), 1);
    assert_eq!(introduced_today(&ledger, &days, today + 1), 0);
}

#[test]
fn new_cards_come_in_deck_and_line_order() {
    let mut cards = Vec::new();
    for deck in 0..2usize {
        for card in 0..3usize {
            let m = if card == 1 { due(5) } else { None };
            cards.push(CardInput { deck, card, reverse: false, forward_ok: false, forward: m, backward: None });
        }
    }
    let p = plan(&cards, NewPolicy::Explicit(10), 10, 10, 0, 5000);
    let lines: Vec<(usize, usize)> = p.new.iter().map(|i| (i.deck, i.card)).collect();
    assert_eq!(lines, vec![(0, 0), (0, 2), (1, 0), (1, 2)]);
}
