//! Time: UTC timestamps in the logs (nanoseconds since the Unix epoch, as
//! `jiff` counts them) and the labels built from them. Local study days
//! depend on the machine's time zone and are computed by the caller.

use vstd::prelude::*;

use crate::strs::{dec, is_digit, owned, push_dec, push_str};

verus! {

/// Nanoseconds per second.
pub const NANOS_PER_SECOND: i128 = 1_000_000_000;

/// Timestamps from 0000-01-01T00:00:00Z up to the last one `jiff` holds,
/// 9999-12-30T22:00:00.999999999Z: the years that print as four digits.
pub open spec fn ts_in_range(ts: i128) -> bool {
    -62_167_219_200_000_000_000 <= ts <= 253_402_207_200_999_999_999
}

/// The timestamps `jiff` can hold: from -009999-01-02T01:59:59Z up to
/// 9999-12-30T22:00:00.999999999Z.
pub open spec fn ts_representable(ts: i128) -> bool {
    -377_705_023_201_000_000_000 <= ts <= 253_402_207_200_999_999_999
}

/// Is a timestamp one `jiff` can hold?
pub fn ts_valid(ts: i128) -> (r: bool)
    ensures
        r == ts_representable(ts),
{
    -377_705_023_201_000_000_000 <= ts && ts <= 253_402_207_200_999_999_999
}

/// What `jiff` reads from a timestamp string (RFC 3339 / ISO 8601), in
/// nanoseconds since the Unix epoch.
pub uninterp spec fn spec_parse_ts(s: Seq<char>) -> Option<i128>;

/// `%Y-%m-%dT%H:%M:%SZ` of a timestamp, as `jiff` prints it.
pub uninterp spec fn spec_format_ts(ts: i128) -> Seq<char>;

/// The characters `%Y-%m-%dT%H:%M:%SZ` can print for a year from 0 to 9999.
pub open spec fn ts_char(c: char) -> bool {
    is_digit(c) || c == '-' || c == ':' || c == 'T' || c == 'Z'
}

/// Reads a timestamp: `<jiff::Timestamp as FromStr>::from_str`, converted to
/// nanoseconds. The contract names the result and says nothing more.
#[verifier::external_body]
pub fn parse_ts(s: &str) -> (r: Option<i128>)
    ensures
        r == spec_parse_ts(s@),
{
    s.parse::<jiff::Timestamp>().ok().map(|t| t.as_nanosecond())
}

/// Formats a timestamp: `jiff::Timestamp::strftime` with
/// `%Y-%m-%dT%H:%M:%SZ`. The contract claims what that format shows: only
/// digits, `-`, `:`, `T` and `Z` are printed (a year before 0 prints as a
/// minus sign and digits), and a whole-second timestamp in the years 0 to
/// 9999 reads back as itself. Whether other timestamps read back is left
/// unsaid.
#[verifier::external_body]
pub fn format_ts(ts: i128) -> (r: String)
    requires
        ts_representable(ts),
    ensures
        r@ == spec_format_ts(ts),
        forall|i: int| 0 <= i < r@.len() ==> ts_char(#[trigger] r@[i]),
        ts_in_range(ts) && ts % NANOS_PER_SECOND == 0 ==> spec_parse_ts(r@) == Some(ts),
{
    jiff::Timestamp::from_nanosecond(ts).unwrap().strftime("%Y-%m-%dT%H:%M:%SZ").to_string()
}

/// Whole seconds from `then` to `now`, never negative.
pub open spec fn seconds_since(then: i128, now: i128) -> int {
    if now <= then {
        0
    } else {
        (now - then) / (NANOS_PER_SECOND as int)
    }
}

/// "just now", "5 min ago", "2h ago", "3d ago".
pub open spec fn spec_ago(then: i128, now: i128) -> Seq<char> {
    let secs = seconds_since(then, now);
    if secs < 60 {
        "just now"@
    } else if secs < 3600 {
        dec((secs / 60) as nat) + " min ago"@
    } else if secs < 86_400 {
        dec((secs / 3600) as nat) + "h ago"@
    } else {
        dec((secs / 86_400) as nat) + "d ago"@
    }
}

/// "just now", "5 min ago", "2h ago", "3d ago".
pub fn ago(then: i128, now: i128) -> (r: String)
    requires
        ts_representable(then),
        ts_representable(now),
    ensures
        r@ == spec_ago(then, now),
{
    let secs: i128 = if now <= then {
        0
    } else {
        (now - then) / NANOS_PER_SECOND
    };
    assert(secs <= 2_000_000_000_000);
    let secs = secs as u64;
    if secs < 60 {
        owned("just now")
    } else if secs < 3600 {
        let mut s = String::new();
        push_dec(&mut s, secs / 60);
        push_str(&mut s, " min ago");
        s
    } else if secs < 86_400 {
        let mut s = String::new();
        push_dec(&mut s, secs / 3600);
        push_str(&mut s, "h ago");
        s
    } else {
        let mut s = String::new();
        push_dec(&mut s, secs / 86_400);
        push_str(&mut s, "d ago");
        s
    }
}

/// "in 3 days", "tomorrow", "today".
pub open spec fn spec_in_days_label(days: i32) -> Seq<char> {
    if days <= 0 {
        "today"@
    } else if days == 1 {
        "tomorrow"@
    } else {
        "in "@ + dec(days as nat) + " days"@
    }
}

/// "in 3 days", "tomorrow", "today".
pub fn in_days_label(days: i32) -> (r: String)
    ensures
        r@ == spec_in_days_label(days),
{
    if days <= 0 {
        owned("today")
    } else if days == 1 {
        owned("tomorrow")
    } else {
        let mut s = owned("in ");
        push_dec(&mut s, days as u64);
        push_str(&mut s, " days");
        s
    }
}

} // verus!
