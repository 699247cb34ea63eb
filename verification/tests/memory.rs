use reword::clock::parse_ts;
use reword::history::{Ledger, Row, RowKind};
use reword::memory::{item, training_items};
use reword::types::{Goal, Grade, Mode};

const DAY: i128 = 86_400_000_000_000;
const HOUR: i128 = 3_600_000_000_000;

/// Study day in UTC with the 4 am rollover, as a day number.
fn study_day(ts: i128) -> i32 {
    (ts - 4 * HOUR).div_euclid(DAY) as i32
}

fn good(t: &str) -> Row {
    Row {
        ts: parse_ts(t).unwrap(),
        front: "a".into(),
        kind: RowKind::Review {
            goal: Goal::Forward,
            mode: Mode::Recall,
            grade: Grade::Good,
            elapsed_ms: 1,
            answer: None,
            overridden: false,
        },
    }
}

fn days_of(ledger: &Ledger) -> Vec<Vec<i32>> {
    ledger
        .iter()
        .iter()
        .map(|h| h.reviews.iter().map(|e| study_day(e.ts)).collect())
        .collect()
}

#[test]
fn training_items_keep_long_term_targets_only() {
    let rows = vec![
        good("2026-09-01T10:00:00Z"),
        good("2026-09-01T10:01:00Z"),
        good("2026-09-04T10:00:00Z"),
    ];
    let ledger = Ledger::replay(&rows);
    let days = vec![days_of(&ledger)];
    let ledgers = vec![ledger];
    let items = training_items(&ledgers, &days);
    assert_eq!(items.len(), 1);
    assert_eq!(items[0].len(), 3);
}

#[test]
fn same_day_repeats_have_zero_delta() {
    let rows = vec![
        good("2026-09-01T10:00:00Z"),
        good("2026-09-01T10:05:00Z"),
        good("2026-09-03T10:00:00Z"),
    ];
    let ledger = Ledger::replay(&rows);
    let evs = ledger.reviews("a", Goal::Forward);
    let days: Vec<i32> = evs.iter().map(|e| study_day(e.ts)).collect();
    let reviews = item(evs, &days);
    assert_eq!(reviews.iter().map(|r| r.delta_t).collect::<Vec<_>>(), vec![0, 0, 2]);
    assert_eq!(reviews.iter().map(|r| r.rating).collect::<Vec<_>>(), vec![3, 3, 3]);
}
