use reword::clock::parse_ts;
use reword::history::{appended, parse_log, Ledger, Row, RowKind};
use reword::types::{Goal, Grade, Mode};

fn ts(s: &str) -> i128 {
    parse_ts(s).unwrap()
}

fn review(t: &str, front: &str, grade: Grade) -> Row {
    Row {
        ts: ts(t),
        front: front.into(),
        kind: RowKind::Review {
            goal: Goal::Forward,
            mode: Mode::Recall,
            grade,
            elapsed_ms: 1000,
            answer: None,
            overridden: false,
        },
    }
}

fn rows_for_round_trip() -> Vec<Row> {
    vec![
        review("2026-09-06T02:11:09Z", "食", Grade::Good),
        Row {
            ts: ts("2026-09-06T02:11:31Z"),
            front: "唔該".into(),
            kind: RowKind::Review {
                goal: Goal::Forward,
                mode: Mode::Typed,
                grade: Grade::Good,
                elapsed_ms: 9800,
                answer: Some("excuse\tme".into()),
                overridden: true,
            },
        },
        Row {
            ts: ts("2026-09-06T02:12:00Z"),
            front: "a".into(),
            kind: RowKind::Skip {
                goal: Goal::Reverse,
                mode: Mode::Recall,
                elapsed_ms: 5,
            },
        },
        Row {
            ts: ts("2026-09-06T02:12:01Z"),
            front: "a".into(),
            kind: RowKind::Undo {
                goal: Goal::Reverse,
                mode: Mode::Recall,
            },
        },
        Row {
            ts: ts("2026-09-06T02:12:02Z"),
            front: "a".into(),
            kind: RowKind::Rename { to: "b".into() },
        },
    ]
}

#[test]
fn rows_round_trip() {
    let rows = rows_for_round_trip();
    for row in rows {
        let line = row.to_line();
        assert!(!line.contains('\n'));
        assert_eq!(Row::parse(&line).unwrap(), row, "line: {line}");
    }
    assert_eq!(
        review("2026-09-06T02:11:09Z", "食", Grade::Good).to_line(),
        "2026-09-06T02:11:09Z\t食\tforward\trecall\tgood\t1000"
    );
}

#[test]
fn malformed_rows_are_errors() {
    assert!(Row::parse("nonsense").is_err());
    assert!(Row::parse("2026-09-06T02:11:09Z\t食\tsideways\trecall\tgood\t1").is_err());
    assert!(Row::parse("2026-09-06T02:11:09Z\t食\tforward\trecall\tmeh\t1").is_err());
}

#[test]
fn row_errors_say_what_is_wrong() {
    assert_eq!(Row::parse("nonsense").unwrap_err(), "expected at least 3 tab-separated columns");
    assert_eq!(Row::parse("yesterday\ta\tforward").unwrap_err(), "bad timestamp \"yesterday\"");
    assert_eq!(Row::parse("2026-09-06T02:11:09Z\t\tforward").unwrap_err(), "empty front");
    assert_eq!(
        Row::parse("2026-09-06T02:11:09Z\ta\trename").unwrap_err(),
        "rename row without a new front"
    );
    assert_eq!(
        Row::parse("2026-09-06T02:11:09Z\ta\tforward\trecall\tgood\tx").unwrap_err(),
        "bad elapsed_ms \"x\""
    );
    assert_eq!(
        Row::parse("2026-09-06T02:11:09Z\ta\tforward\tsing").unwrap_err(),
        "unknown mode \"sing\""
    );
    let r = Row::parse("2026-09-06T02:11:09Z\ta\tforward\trecall\tskip").unwrap();
    assert_eq!(r.kind, RowKind::Skip { goal: Goal::Forward, mode: Mode::Recall, elapsed_ms: 0 });
}

#[test]
fn undo_drops_the_previous_row_for_that_card() {
    let rows = vec![
        review("2026-09-06T02:11:09Z", "食", Grade::Good),
        review("2026-09-06T02:11:19Z", "食", Grade::Again),
        Row {
            ts: ts("2026-09-06T02:11:20Z"),
            front: "食".into(),
            kind: RowKind::Undo {
                goal: Goal::Forward,
                mode: Mode::Recall,
            },
        },
    ];
    let ledger = Ledger::replay(&rows);
    let evs = ledger.reviews("食", Goal::Forward);
    assert_eq!(evs.len(), 1);
    assert_eq!(evs[0].grade, Grade::Good);
}

#[test]
fn rename_carries_history_and_merges() {
    let rows = vec![
        review("2026-09-06T02:11:09Z", "old", Grade::Good),
        review("2026-09-07T02:11:09Z", "new", Grade::Again),
        Row {
            ts: ts("2026-09-08T00:00:00Z"),
            front: "old".into(),
            kind: RowKind::Rename { to: "new".into() },
        },
    ];
    let ledger = Ledger::replay(&rows);
    assert!(ledger.reviews("old", Goal::Forward).is_empty());
    let evs = ledger.reviews("new", Goal::Forward);
    assert_eq!(evs.len(), 2);
    assert_eq!(evs[0].grade, Grade::Good);
    assert_eq!(evs[1].grade, Grade::Again);
    assert_eq!(ledger.fronts(), vec!["new"]);
    assert_eq!(ledger.iter().len(), 1);
    assert_eq!(
        ledger.last_activity,
        Some(ts("2026-09-07T02:11:09Z")),
        "a rename row is not study activity"
    );
}

#[test]
fn skip_only_and_fully_undone_fronts_have_no_history() {
    let rows = vec![
        Row {
            ts: ts("2026-09-06T02:12:00Z"),
            front: "skipped".into(),
            kind: RowKind::Skip {
                goal: Goal::Forward,
                mode: Mode::Recall,
                elapsed_ms: 5,
            },
        },
        review("2026-09-06T02:13:00Z", "undone", Grade::Good),
        Row {
            ts: ts("2026-09-06T02:13:01Z"),
            front: "undone".into(),
            kind: RowKind::Undo {
                goal: Goal::Forward,
                mode: Mode::Recall,
            },
        },
    ];
    let ledger = Ledger::replay(&rows);
    assert_eq!(ledger.fronts().len(), 0);
    assert_eq!(ledger.iter().len(), 0);
    assert_eq!(ledger.last_activity, Some(ts("2026-09-06T02:13:00Z")));
}

#[test]
fn replay_sorts_by_time() {
    let rows = vec![
        review("2026-09-07T02:11:09Z", "x", Grade::Again),
        review("2026-09-06T02:11:09Z", "x", Grade::Good),
    ];
    let ledger = Ledger::replay(&rows);
    let evs = ledger.reviews("x", Goal::Forward);
    assert_eq!(evs[0].grade, Grade::Good);
}

#[test]
fn undo_after_skip_and_empty_ledger() {
    let rows = vec![
        review("2026-09-06T02:11:09Z", "a", Grade::Good),
        Row {
            ts: ts("2026-09-06T02:12:00Z"),
            front: "a".into(),
            kind: RowKind::Skip { goal: Goal::Forward, mode: Mode::Recall, elapsed_ms: 5 },
        },
        Row {
            ts: ts("2026-09-06T02:12:01Z"),
            front: "a".into(),
            kind: RowKind::Undo { goal: Goal::Forward, mode: Mode::Recall },
        },
    ];
    let ledger = Ledger::replay(&rows);
    assert_eq!(ledger.reviews("a", Goal::Forward).len(), 1, "the undo took back the skip");
    let empty = Ledger::default();
    assert!(empty.reviews("a", Goal::Forward).is_empty());
    assert_eq!(empty.last_activity, None);
}

#[test]
fn logs_read_with_warnings_for_bad_lines() {
    let text = "garbage line\n\n2026-09-06T02:11:09Z\t食\tforward\trecall\tgood\t1000\n   \n";
    let (rows, warnings) = parse_log(text, "decks/t.log");
    assert_eq!(rows.len(), 1);
    assert_eq!(warnings.len(), 1);
    assert_eq!(warnings[0].line, 1);
    assert_eq!(warnings[0].file, "decks/t.log");
    assert_eq!(warnings[0].message, "expected at least 3 tab-separated columns; line skipped");
}

#[test]
fn merged_logs_replay_the_same_in_either_order() {
    let mine = vec![
        review("2026-09-06T02:11:09Z", "x", Grade::Good),
        Row {
            ts: ts("2026-09-06T02:11:10Z"),
            front: "x".into(),
            kind: RowKind::Undo { goal: Goal::Forward, mode: Mode::Recall },
        },
        review("2026-09-08T02:11:09Z", "x", Grade::Again),
    ];
    let theirs = vec![
        review("2026-09-07T02:11:09Z", "x", Grade::Hard),
        Row {
            ts: ts("2026-09-07T03:00:00Z"),
            front: "x".into(),
            kind: RowKind::Rename { to: "y".into() },
        },
    ];
    let mut a: Vec<Row> = Vec::new();
    let mut b: Vec<Row> = Vec::new();
    for r in &mine {
        a.push(Row { ts: r.ts, front: r.front.clone(), kind: clone_kind(&r.kind) });
    }
    for r in &theirs {
        a.push(Row { ts: r.ts, front: r.front.clone(), kind: clone_kind(&r.kind) });
        b.push(Row { ts: r.ts, front: r.front.clone(), kind: clone_kind(&r.kind) });
    }
    for r in &mine {
        b.push(Row { ts: r.ts, front: r.front.clone(), kind: clone_kind(&r.kind) });
    }
    let la = Ledger::replay(&a);
    let lb = Ledger::replay(&b);
    for front in ["x", "y"] {
        assert_eq!(la.reviews(front, Goal::Forward), lb.reviews(front, Goal::Forward));
    }
    assert_eq!(la.reviews("y", Goal::Forward).len(), 1);
    assert_eq!(la.reviews("x", Goal::Forward).len(), 1);
    assert_eq!(la.reviews("x", Goal::Forward)[0].grade, Grade::Again);
    assert_eq!(la.last_activity, lb.last_activity);
}

fn clone_kind(k: &RowKind) -> RowKind {
    match k {
        RowKind::Review { goal, mode, grade, elapsed_ms, answer, overridden } => RowKind::Review {
            goal: *goal,
            mode: *mode,
            grade: *grade,
            elapsed_ms: *elapsed_ms,
            answer: answer.clone(),
            overridden: *overridden,
        },
        RowKind::Skip { goal, mode, elapsed_ms } => {
            RowKind::Skip { goal: *goal, mode: *mode, elapsed_ms: *elapsed_ms }
        }
        RowKind::Undo { goal, mode } => RowKind::Undo { goal: *goal, mode: *mode },
        RowKind::Rename { to } => RowKind::Rename { to: to.clone() },
    }
}

#[test]
fn a_review_lands_at_the_end_of_its_own_history_only() {
    let mut rows = vec![
        review("2026-09-06T02:11:09Z", "x", Grade::Good),
        review("2026-09-06T02:12:09Z", "y", Grade::Good),
    ];
    let before = Ledger::replay(&rows);
    rows.push(Row {
        ts: ts("2026-09-07T02:11:09Z"),
        front: "x".into(),
        kind: RowKind::Review {
            goal: Goal::Reverse,
            mode: Mode::Typed,
            grade: Grade::Hard,
            elapsed_ms: 42,
            answer: Some("z".into()),
            overridden: false,
        },
    });
    let after = Ledger::replay(&rows);
    assert_eq!(after.reviews("x", Goal::Forward), before.reviews("x", Goal::Forward));
    assert_eq!(after.reviews("y", Goal::Forward), before.reviews("y", Goal::Forward));
    let rev = after.reviews("x", Goal::Reverse);
    assert_eq!(rev.len(), 1);
    assert_eq!(rev[0].grade, Grade::Hard);
    assert_eq!(rev[0].mode, Mode::Typed);
    assert_eq!(rev[0].elapsed_ms, 42);
    assert_eq!(after.last_activity, Some(ts("2026-09-07T02:11:09Z")));
}

#[test]
fn undo_and_rename_rows_are_not_activity() {
    let rows = vec![
        review("2026-09-06T02:11:09Z", "a", Grade::Good),
        Row {
            ts: ts("2026-09-06T02:12:01Z"),
            front: "a".into(),
            kind: RowKind::Undo { goal: Goal::Forward, mode: Mode::Recall },
        },
        Row { ts: ts("2026-09-06T02:13:00Z"), front: "a".into(), kind: RowKind::Rename { to: "b".into() } },
    ];
    let ledger = Ledger::replay(&rows);
    assert_eq!(ledger.last_activity, Some(ts("2026-09-06T02:11:09Z")));
    assert!(ledger.fronts().is_empty());
    assert!(ledger.iter().is_empty());
}

#[test]
fn append_and_load_with_missing_newline() {
    let mut text = String::from("garbage line");
    let row = review("2026-09-06T02:11:09Z", "食", Grade::Good);
    text.push_str(&appended(&text, &row));
    let (rows, warnings) = parse_log(&text, "decks/t.log");
    assert_eq!(rows.len(), 1);
    assert_eq!(warnings.len(), 1);
    assert_eq!(warnings[0].line, 1);
}

#[test]
fn appended_rows_read_back_in_order() {
    let first = review("2026-09-06T02:11:09Z", "a\tb", Grade::Good);
    let second = Row { ts: ts("2026-09-06T02:12:00Z"), front: "a\tb".into(), kind: RowKind::Rename { to: "c\nd".into() } };
    let mut text = String::new();
    assert_eq!(appended(&text, &first), format!("{}\n", first.to_line()));
    text.push_str(&appended(&text, &first));
    assert!(text.ends_with('\n'));
    assert_eq!(appended(&text, &second), format!("{}\n", second.to_line()));
    text.push_str(&appended(&text, &second));
    let (rows, warnings) = parse_log(&text, "decks/t.log");
    assert!(warnings.is_empty());
    assert_eq!(rows, vec![first, second]);
}

#[test]
fn the_last_whole_second_jiff_holds_reads_back() {
    let row = review("9999-12-30T22:00:00Z", "x", Grade::Good);
    let line = row.to_line();
    assert!(line.starts_with("9999-12-30T22:00:00Z\t"));
    assert_eq!(Row::parse(&line).unwrap(), row);
}

#[test]
fn histories_are_in_time_order_and_activity_is_the_latest_study() {
    let rows = vec![
        review("2026-09-08T02:11:09Z", "x", Grade::Again),
        Row {
            ts: ts("2026-09-09T00:00:00Z"),
            front: "y".into(),
            kind: RowKind::Skip { goal: Goal::Forward, mode: Mode::Recall, elapsed_ms: 1 },
        },
        review("2026-09-06T02:11:09Z", "x", Grade::Good),
        Row { ts: ts("2026-09-10T00:00:00Z"), front: "z".into(), kind: RowKind::Rename { to: "w".into() } },
        review("2026-09-07T02:11:09Z", "x", Grade::Hard),
    ];
    let ledger = Ledger::replay(&rows);
    let evs = ledger.reviews("x", Goal::Forward);
    assert_eq!(evs.len(), 3);
    assert!(evs.windows(2).all(|w| w[0].ts <= w[1].ts));
    assert_eq!(evs[0].grade, Grade::Good);
    assert_eq!(ledger.last_activity, Some(ts("2026-09-09T00:00:00Z")));
}

#[test]
fn histories_hold_no_more_events_than_review_rows() {
    let rows = vec![
        review("2026-09-06T02:11:09Z", "a", Grade::Good),
        review("2026-09-06T02:12:09Z", "b", Grade::Good),
        Row {
            ts: ts("2026-09-06T02:12:10Z"),
            front: "b".into(),
            kind: RowKind::Undo { goal: Goal::Forward, mode: Mode::Recall },
        },
        Row {
            ts: ts("2026-09-06T02:13:00Z"),
            front: "b".into(),
            kind: RowKind::Skip { goal: Goal::Forward, mode: Mode::Recall, elapsed_ms: 3 },
        },
        review("2026-09-06T02:14:09Z", "c", Grade::Again),
    ];
    let ledger = Ledger::replay(&rows);
    let events: usize = ledger.iter().iter().map(|h| h.reviews.len()).sum();
    assert_eq!(events, 2);
    assert!(events <= 3);
}
