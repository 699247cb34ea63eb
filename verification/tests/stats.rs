use reword::clock::parse_ts;
use reword::deck::Deck;
use reword::history::{Ledger, Row, RowKind};
use reword::stats::compute;
use reword::store::LoadedDeck;
use reword::types::{Goal, Grade, Mode};

fn row(t: &str, front: &str, grade: Grade) -> Row {
    Row {
        ts: parse_ts(t).unwrap(),
        front: front.into(),
        kind: RowKind::Review {
            goal: Goal::Forward,
            mode: Mode::Recall,
            grade,
            elapsed_ms: 60_000,
            answer: None,
            overridden: false,
        },
    }
}

#[test]
fn counts_retention_and_forecast() {
    let rows = vec![
        row("2026-09-01T10:00:00Z", "a", Grade::Good),
        row("2026-09-03T10:00:00Z", "a", Grade::Again),
        row("2026-09-03T11:00:00Z", "a", Grade::Good),
        row("2026-06-01T10:00:00Z", "b", Grade::Good),
    ];
    let d = LoadedDeck {
        deck: Deck::parse("t", "decks/t.md", "a::1\nb:::2\nc::3\n"),
        ledger: Ledger::replay(&rows),
        warnings: vec![],
    };
    // Study days as day numbers, in the ledger's order of histories.
    let mut days = Vec::new();
    for h in d.ledger.iter() {
        let v: Vec<i32> = h.reviews.iter().map(|e| (e.ts / 86_400_000_000_000) as i32).collect();
        days.push(v);
    }
    let now = parse_ts("2026-09-05T10:00:00Z").unwrap();
    let today = (now / 86_400_000_000_000) as i32;
    let dues = vec![vec![(Some(today + 2), None), (Some(today - 5), None), (None, None)]];
    let decks = vec![d];
    let s = compute(&decks, &vec![days], &dues, now, today);
    assert_eq!(s.cards, 3);
    assert_eq!(s.goals, 4);
    assert_eq!(s.learned, 2);
    assert_eq!(s.new_available, 2);
    assert_eq!(s.reviews_total, 4);
    assert_eq!(s.reviews_7d, 3);
    assert_eq!(s.reviews_30d, 3);
    assert_eq!(s.ms_30d, 180_000);
    assert_eq!(s.retention_30d, (0, 1));
    assert_eq!(s.review_days, 3);
    assert_eq!(s.forecast.len(), 14);
    assert_eq!(s.forecast[0], 1);
    assert_eq!(s.forecast[2], 1);
    assert_eq!(s.due, 1);
}

#[test]
fn stats_figures_nest() {
    let rows = vec![
        row("2026-09-04T10:00:00Z", "a", Grade::Good),
        row("2026-08-30T10:00:00Z", "a", Grade::Good),
        row("2026-08-20T10:00:00Z", "b", Grade::Again),
        row("2026-01-01T10:00:00Z", "b", Grade::Good),
    ];
    let d = LoadedDeck {
        deck: Deck::parse("t", "decks/t.md", "a::1\nb::2\nc::3\n"),
        ledger: Ledger::replay(&rows),
        warnings: vec![],
    };
    let mut days = Vec::new();
    for h in d.ledger.iter() {
        let v: Vec<i32> = h.reviews.iter().map(|e| (e.ts / 86_400_000_000_000) as i32).collect();
        days.push(v);
    }
    let now = parse_ts("2026-09-05T10:00:00Z").unwrap();
    let today = (now / 86_400_000_000_000) as i32;
    let dues = vec![vec![(Some(today + 1), None), (Some(today + 40), None), (None, None)]];
    let s = compute(&vec![d], &vec![days], &dues, now, today);
    assert_eq!((s.reviews_7d, s.reviews_14d, s.reviews_30d, s.reviews_total), (2, 2, 3, 4));
    assert!(s.retention_30d.0 <= s.retention_30d.1 && s.retention_30d.1 <= s.reviews_30d);
    assert_eq!((s.learned, s.goals), (2, 3));
    assert_eq!(s.forecast.iter().sum::<usize>(), 1);
}
