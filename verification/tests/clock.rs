use reword::clock::{ago, format_ts, in_days_label, parse_ts};

#[test]
fn timestamp_round_trip() {
    let ts = parse_ts("2026-09-06T02:11:09Z").unwrap();
    assert_eq!(format_ts(ts), "2026-09-06T02:11:09Z");
}

#[test]
fn day_labels_and_ages() {
    assert_eq!(in_days_label(0), "today");
    assert_eq!(in_days_label(-2), "today");
    assert_eq!(in_days_label(1), "tomorrow");
    assert_eq!(in_days_label(4), "in 4 days");
    let now = parse_ts("2026-09-06T12:00:00Z").unwrap();
    assert_eq!(ago(parse_ts("2026-09-06T11:59:30Z").unwrap(), now), "just now");
    assert_eq!(ago(parse_ts("2026-09-06T11:55:00Z").unwrap(), now), "5 min ago");
    assert_eq!(ago(parse_ts("2026-09-06T09:00:00Z").unwrap(), now), "3h ago");
    assert_eq!(ago(parse_ts("2026-09-03T12:00:00Z").unwrap(), now), "3d ago");
    assert!(parse_ts("not a time").is_none());
}

#[test]
fn the_earliest_timestamp_prints_as_a_signed_year() {
    let s = format_ts(-377_705_023_201_000_000_000);
    assert!(s.starts_with('-'));
    assert!(s.ends_with('Z'));
    assert!(s.chars().all(|c| c.is_ascii_digit() || matches!(c, '-' | ':' | 'T' | 'Z')));
}
