//! `reword stats`: review counts, retention, pace and a 14-day forecast.
//! Study days (which depend on the time zone) and due days (which come from
//! the memory model) are computed by the caller and handed in as day
//! numbers.

use vstd::prelude::*;

use crate::clock::NANOS_PER_SECOND;
use crate::deck::Card;
use crate::ledger::{History, ReviewEvent};
use crate::store::LoadedDeck;
use crate::types::Grade;

verus! {

pub const FORECAST_DAYS: i32 = 14;

/// One review as the statistics see it.
#[derive(Clone, Copy, Debug)]
pub struct Seen {
    pub ts: i128,
    /// Its study day.
    pub day: i32,
    pub success: bool,
    pub elapsed_ms: u64,
    /// The study day of the review of the same card before it, if any.
    pub prev_day: Option<i32>,
}

/// The reviews of one history with their study days.
pub open spec fn seen_of_history(evs: Seq<ReviewEvent>, days: Seq<i32>) -> Seq<Seen> {
    Seq::new(
        evs.len(),
        |k: int|
            Seen {
                ts: evs[k].ts,
                day: days[k],
                success: evs[k].grade != Grade::Again,
                elapsed_ms: evs[k].elapsed_ms,
                prev_day: if k == 0 {
                    None
                } else {
                    Some(days[k - 1])
                },
            },
    )
}

pub open spec fn seen_of_histories(hs: Seq<History>, days: Seq<Vec<i32>>) -> Seq<Seen>
    decreases hs.len(),
{
    if hs.len() == 0 {
        Seq::empty()
    } else {
        seen_of_histories(hs.drop_last(), days) + seen_of_history(
            hs.last().reviews@,
            days[hs.len() - 1]@,
        )
    }
}

pub open spec fn seen_of_decks(ds: Seq<LoadedDeck>, days: Seq<Vec<Vec<i32>>>) -> Seq<Seen>
    decreases ds.len(),
{
    if ds.len() == 0 {
        Seq::empty()
    } else {
        seen_of_decks(ds.drop_last(), days) + seen_of_histories(
            ds.last().ledger.items@,
            days[ds.len() - 1]@,
        )
    }
}

/// Study days line up with the reviews of every history.
pub open spec fn days_align(ds: Seq<LoadedDeck>, days: Seq<Vec<Vec<i32>>>) -> bool {
    &&& days.len() == ds.len()
    &&& forall|d: int|
        0 <= d < ds.len() ==> (#[trigger] days[d])@.len() == ds[d].ledger.items@.len() && forall|h: int|
            0 <= h < ds[d].ledger.items@.len() ==> (#[trigger] days[d]@[h])@.len()
                == ds[d].ledger.items@[h].reviews@.len()
}

/// Counts over reviews.
pub struct Counts {
    pub total: nat,
    pub last_7d: nat,
    pub last_14d: nat,
    pub last_30d: nat,
    pub ms_30d: nat,
    /// Successes among the tests of the last 30 days: first reviews of a
    /// card on a day after it was last seen.
    pub passed_30d: nat,
    pub tested_30d: nat,
}

/// Was a review at most `secs` seconds before `now`? Reviews stamped after
/// `now` count as recent.
pub open spec fn within(now: i128, ts: i128, secs: int) -> bool {
    now - ts <= 0 || (now - ts) / (NANOS_PER_SECOND as int) <= secs
}

pub open spec fn count_seen(s: Seq<Seen>, now: i128) -> Counts
    decreases s.len(),
{
    if s.len() == 0 {
        Counts { total: 0, last_7d: 0, last_14d: 0, last_30d: 0, ms_30d: 0, passed_30d: 0, tested_30d: 0 }
    } else {
        let c = count_seen(s.drop_last(), now);
        let e = s.last();
        let in30 = within(now, e.ts, 30 * 86_400int);
        let test = in30 && (e.prev_day matches Some(p) && e.day > p);
        Counts {
            total: c.total + 1,
            last_7d: c.last_7d + if within(now, e.ts, 7 * 86_400int) {
                1nat
            } else {
                0nat
            },
            last_14d: c.last_14d + if within(now, e.ts, 14 * 86_400int) {
                1nat
            } else {
                0nat
            },
            last_30d: c.last_30d + if in30 {
                1nat
            } else {
                0nat
            },
            ms_30d: c.ms_30d + if in30 {
                e.elapsed_ms as nat
            } else {
                0nat
            },
            passed_30d: c.passed_30d + if test && e.success {
                1nat
            } else {
                0nat
            },
            tested_30d: c.tested_30d + if test {
                1nat
            } else {
                0nat
            },
        }
    }
}

pub open spec fn seen_days(s: Seq<Seen>) -> Seq<i32> {
    s.map_values(|e: Seen| e.day)
}

/// The goals of the decks' cards, deck by deck and card by card, each with
/// the due day of its memory (`None` when never reviewed).
pub open spec fn goal_dues(cards: Seq<Card>, dues: Seq<(Option<i32>, Option<i32>)>) -> Seq<Option<i32>>
    decreases cards.len(),
{
    if cards.len() == 0 {
        Seq::empty()
    } else {
        let k = cards.len() - 1;
        goal_dues(cards.drop_last(), dues) + if cards[k].reverse {
            seq![dues[k].0, dues[k].1]
        } else {
            seq![dues[k].0]
        }
    }
}

pub open spec fn decks_goal_dues(ds: Seq<LoadedDeck>, dues: Seq<Vec<(Option<i32>, Option<i32>)>>) -> Seq<
    Option<i32>,
>
    decreases ds.len(),
{
    if ds.len() == 0 {
        Seq::empty()
    } else {
        decks_goal_dues(ds.drop_last(), dues) + goal_dues(ds.last().deck.cards@, dues[ds.len() - 1]@)
    }
}

pub open spec fn dues_align(ds: Seq<LoadedDeck>, dues: Seq<Vec<(Option<i32>, Option<i32>)>>) -> bool {
    &&& dues.len() == ds.len()
    &&& forall|d: int| 0 <= d < ds.len() ==> (#[trigger] dues[d])@.len() == ds[d].deck.cards@.len()
}

/// Days from `today` until a due day, never negative.
pub open spec fn ahead(today: i32, due: i32) -> int {
    if due - today < 0 {
        0
    } else {
        due - today
    }
}

/// How many goals come due `k` days from today (0: due now or overdue).
pub open spec fn forecast_at(gs: Seq<Option<i32>>, today: i32, k: int) -> nat
    decreases gs.len(),
{
    if gs.len() == 0 {
        0
    } else {
        forecast_at(gs.drop_last(), today, k) + if gs.last() matches Some(d) && ahead(today, d) == k {
            1nat
        } else {
            0nat
        }
    }
}

pub open spec fn learned_count(gs: Seq<Option<i32>>) -> nat
    decreases gs.len(),
{
    if gs.len() == 0 {
        0
    } else {
        learned_count(gs.drop_last()) + if gs.last() is Some {
            1nat
        } else {
            0nat
        }
    }
}

pub struct Stats {
    pub cards: usize,
    pub goals: usize,
    pub learned: usize,
    pub due: usize,
    pub new_available: usize,
    pub reviews_total: usize,
    pub reviews_7d: usize,
    pub reviews_14d: usize,
    pub reviews_30d: usize,
    /// Time spent reviewing over the last 30 days, in ms.
    pub ms_30d: u128,
    /// (successes, tests) over the last 30 days, counting only the first
    /// review of a card on a day after it was last seen; new cards excluded.
    pub retention_30d: (usize, usize),
    /// Goals coming due on each of the next `FORECAST_DAYS` days.
    pub forecast: Vec<usize>,
    /// Days with at least one review.
    pub review_days: usize,
}

pub open spec fn card_count(ds: Seq<LoadedDeck>) -> nat
    decreases ds.len(),
{
    if ds.len() == 0 {
        0
    } else {
        card_count(ds.drop_last()) + ds.last().deck.cards@.len()
    }
}

/// Every review of the decks with its study day, in one list.
fn seen_list(decks: &Vec<LoadedDeck>, days: &Vec<Vec<Vec<i32>>>) -> (r: Vec<Seen>)
    requires
        days_align(decks@, days@),
    ensures
        r@ == seen_of_decks(decks@, days@),
{
    let mut out: Vec<Seen> = Vec::new();
    let mut d: usize = 0;
    while d < decks.len()
        invariant
            d <= decks@.len(),
            days_align(decks@, days@),
            out@ == seen_of_decks(decks@.take(d as int), days@),
        decreases decks@.len() - d,
    {
        let items = &decks[d].ledger.items;
        let dd = &days[d];
        assert(dd@.len() == items@.len());
        let ghost base = out@;
        let mut h: usize = 0;
        while h < items.len()
            invariant
                h <= items@.len(),
                d < decks@.len(),
                items@ == decks@[d as int].ledger.items@,
                dd == days@[d as int],
                dd@.len() == items@.len(),
                forall|q: int| 0 <= q < items@.len() ==> (#[trigger] dd@[q])@.len() == items@[q].reviews@.len(),
                out@ == base + seen_of_histories(items@.take(h as int), dd@),
            decreases items@.len() - h,
        {
            let evs = &items[h].reviews;
            let ds = &dd[h];
            assert(ds@.len() == evs@.len());
            let ghost b2 = out@;
            let mut k: usize = 0;
            while k < evs.len()
                invariant
                    k <= evs@.len(),
                    ds@.len() == evs@.len(),
                    out@ == b2 + seen_of_history(evs@, ds@).take(k as int),
                decreases evs@.len() - k,
            {
                let ev = evs[k];
                let prev: Option<i32> = if k == 0 {
                    None
                } else {
                    Some(ds[k - 1])
                };
                let s = Seen {
                    ts: ev.ts,
                    day: ds[k],
                    success: ev.grade != Grade::Again,
                    elapsed_ms: ev.elapsed_ms,
                    prev_day: prev,
                };
                assert(s == seen_of_history(evs@, ds@)[k as int]);
                out.push(s);
                assert(out@ =~= b2 + seen_of_history(evs@, ds@).take(k + 1));
                k = k + 1;
            }
            proof {
                assert(seen_of_history(evs@, ds@).take(k as int) =~= seen_of_history(evs@, ds@));
                assert(items@.take(h + 1).drop_last() =~= items@.take(h as int));
                assert(items@.take(h + 1).last() == items@[h as int]);
                assert(out@ =~= base + seen_of_histories(items@.take(h + 1), dd@));
            }
            h = h + 1;
        }
        proof {
            assert(items@.take(h as int) =~= items@);
            assert(decks@.take(d + 1).drop_last() =~= decks@.take(d as int));
            assert(decks@.take(d + 1).last() == decks@[d as int]);
        }
        d = d + 1;
    }
    assert(decks@.take(d as int) =~= decks@);
    out
}

fn within_exec(now: i128, ts: i128, secs: i128) -> (r: bool)
    requires
        crate::clock::ts_representable(now),
        crate::clock::ts_representable(ts),
    ensures
        r == within(now, ts, secs as int),
{
    let diff = now - ts;
    diff <= 0 || diff / NANOS_PER_SECOND <= secs
}

/// Every goal of the decks with its due day, in one list.
fn goal_list(decks: &Vec<LoadedDeck>, dues: &Vec<Vec<(Option<i32>, Option<i32>)>>) -> (r: Vec<Option<i32>>)
    requires
        dues_align(decks@, dues@),
    ensures
        r@ == decks_goal_dues(decks@, dues@),
{
    let mut out: Vec<Option<i32>> = Vec::new();
    let mut d: usize = 0;
    while d < decks.len()
        invariant
            d <= decks@.len(),
            dues_align(decks@, dues@),
            out@ == decks_goal_dues(decks@.take(d as int), dues@),
        decreases decks@.len() - d,
    {
        let cards = &decks[d].deck.cards;
        let dd = &dues[d];
        assert(dd@.len() == cards@.len());
        let ghost base = out@;
        let mut c: usize = 0;
        while c < cards.len()
            invariant
                c <= cards@.len(),
                dd@.len() == cards@.len(),
                out@ == base + goal_dues(cards@.take(c as int), dd@),
            decreases cards@.len() - c,
        {
            let (f, r) = dd[c];
            out.push(f);
            if cards[c].reverse {
                out.push(r);
            }
            proof {
                let t = cards@.take(c + 1);
                assert(t.drop_last() =~= cards@.take(c as int));
                assert(t[c as int] == cards@[c as int]);
                if cards@[c as int].reverse {
                    assert(out@ =~= base + goal_dues(t, dd@));
                } else {
                    assert(out@ =~= base + goal_dues(t, dd@));
                }
            }
            c = c + 1;
        }
        proof {
            assert(cards@.take(c as int) =~= cards@);
            assert(decks@.take(d + 1).drop_last() =~= decks@.take(d as int));
            assert(decks@.take(d + 1).last() == decks@[d as int]);
        }
        d = d + 1;
    }
    assert(decks@.take(d as int) =~= decks@);
    out
}

/// The statistics of some decks at `now`, on study day `today`. `days`
/// gives the study day of every review (aligned with each ledger's
/// histories); `dues` the due day of each card's forward and reverse memory.
pub fn compute(
    decks: &Vec<LoadedDeck>,
    days: &Vec<Vec<Vec<i32>>>,
    dues: &Vec<Vec<(Option<i32>, Option<i32>)>>,
    now: i128,
    today: i32,
) -> (s: Stats)
    requires
        days_align(decks@, days@),
        dues_align(decks@, dues@),
        crate::clock::ts_representable(now),
        forall|i: int| 0 <= i < seen_of_decks(decks@, days@).len() ==> crate::clock::ts_representable(
            #[trigger] seen_of_decks(decks@, days@)[i].ts,
        ),
        card_count(decks@) <= usize::MAX,
    ensures
        ({
            let c = count_seen(seen_of_decks(decks@, days@), now);
            &&& s.reviews_total == c.total
            &&& s.reviews_7d == c.last_7d
            &&& s.reviews_14d == c.last_14d
            &&& s.reviews_30d == c.last_30d
            &&& s.ms_30d == c.ms_30d
            &&& s.retention_30d == (c.passed_30d as usize, c.tested_30d as usize)
        }),
        s.review_days == seen_days(seen_of_decks(decks@, days@)).to_set().len(),
        s.cards == card_count(decks@),
        s.goals == decks_goal_dues(decks@, dues@).len(),
        s.learned == learned_count(decks_goal_dues(decks@, dues@)),
        s.new_available == s.goals - s.learned,
        s.forecast@.len() == FORECAST_DAYS,
        forall|k: int| 0 <= k < FORECAST_DAYS ==> #[trigger] s.forecast@[k] == forecast_at(
            decks_goal_dues(decks@, dues@),
            today,
            k,
        ),
        s.due == s.forecast@[0],
{
    let seen = seen_list(decks, days);
    let mut c_total: usize = 0;
    let mut c7: usize = 0;
    let mut c14: usize = 0;
    let mut c30: usize = 0;
    let mut ms: u128 = 0;
    let mut passed: usize = 0;
    let mut tested: usize = 0;
    let mut distinct: Vec<i32> = Vec::new();
    let mut i: usize = 0;
    while i < seen.len()
        invariant
            i <= seen@.len(),
            seen@ == seen_of_decks(decks@, days@),
            crate::clock::ts_representable(now),
            forall|q: int| 0 <= q < seen@.len() ==> crate::clock::ts_representable(#[trigger] seen@[q].ts),
            ({
                let c = count_seen(seen@.take(i as int), now);
                &&& c_total == c.total
                &&& c7 == c.last_7d
                &&& c14 == c.last_14d
                &&& c30 == c.last_30d
                &&& ms == c.ms_30d
                &&& passed == c.passed_30d
                &&& tested == c.tested_30d
            }),
            c_total == i,
            c7 <= i && c14 <= i && c30 <= i && passed <= i && tested <= i,
            ms <= i * 0xFFFF_FFFF_FFFF_FFFF,
            distinct@.no_duplicates(),
            distinct@.to_set() == seen_days(seen@.take(i as int)).to_set(),
        decreases seen@.len() - i,
    {
        let e = seen[i];
        proof {
            assert(seen@.take(i + 1).drop_last() =~= seen@.take(i as int));
            assert(seen@.take(i + 1).last() == e);
            assert(seen_days(seen@.take(i + 1)) =~= seen_days(seen@.take(i as int)).push(e.day));
        }
        c_total = c_total + 1;
        if within_exec(now, e.ts, 7 * 86_400) {
            c7 = c7 + 1;
        }
        if within_exec(now, e.ts, 14 * 86_400) {
            c14 = c14 + 1;
        }
        if within_exec(now, e.ts, 30 * 86_400) {
            c30 = c30 + 1;
            assert(ms + e.elapsed_ms <= (i + 1) * 0xFFFF_FFFF_FFFF_FFFF) by (nonlinear_arith)
                requires
                    ms <= i * 0xFFFF_FFFF_FFFF_FFFF,
                    e.elapsed_ms <= 0xFFFF_FFFF_FFFF_FFFF,
            ;
            assert((i + 1) * 0xFFFF_FFFF_FFFF_FFFF <= 0xFFFF_FFFF_FFFF_FFFF * 0xFFFF_FFFF_FFFF_FFFF) by (nonlinear_arith)
                requires
                    i + 1 <= 0xFFFF_FFFF_FFFF_FFFF,
            ;
            ms = ms + e.elapsed_ms as u128;
            let test = match e.prev_day {
                Some(p) => e.day > p,
                None => false,
            };
            if test {
                tested = tested + 1;
                if e.success {
                    passed = passed + 1;
                }
            }
        } else {
            assert(ms <= (i + 1) * 0xFFFF_FFFF_FFFF_FFFF) by (nonlinear_arith)
                requires
                    ms <= i * 0xFFFF_FFFF_FFFF_FFFF,
            ;
        }
        // Remember the day if it is a new one.
        let mut j: usize = 0;
        let mut found = false;
        while j < distinct.len()
            invariant
                j <= distinct@.len(),
                !found ==> forall|q: int| 0 <= q < j ==> distinct@[q] != e.day,
                found ==> distinct@.contains(e.day),
            decreases distinct@.len() - j,
        {
            if distinct[j] == e.day {
                found = true;
            }
            j = j + 1;
        }
        let ghost before = distinct@;
        if !found {
            distinct.push(e.day);
            proof {
                assert(distinct@.no_duplicates()) by {
                    assert forall|a: int, b: int| 0 <= a < distinct@.len() && 0 <= b < distinct@.len() && a != b implies distinct@[a] != distinct@[b] by {
                        if a < before.len() && b < before.len() {
                            assert(distinct@[a] == before[a] && distinct@[b] == before[b]);
                        } else if a < before.len() {
                            assert(distinct@[a] == before[a]);
                        } else {
                            assert(distinct@[b] == before[b]);
                        }
                    }
                }
                assert(distinct@.to_set() =~= before.to_set().insert(e.day)) by {
                    assert forall|x: i32| distinct@.to_set().contains(x) <==> before.to_set().insert(e.day).contains(x) by {
                        if distinct@.contains(x) {
                            let q = choose|q: int| 0 <= q < distinct@.len() && distinct@[q] == x;
                            if q < before.len() {
                                assert(before[q] == x);
                            }
                        }
                        if before.contains(x) {
                            let q = choose|q: int| 0 <= q < before.len() && before[q] == x;
                            assert(distinct@[q] == x);
                        }
                        if x == e.day {
                            assert(distinct@[before.len() as int] == x);
                        }
                    }
                }
            }
        } else {
            proof {
                assert(before.to_set() =~= before.to_set().insert(e.day));
            }
        }
        proof {
            let sd = seen_days(seen@.take(i as int));
            assert(sd.push(e.day).to_set() =~= sd.to_set().insert(e.day)) by {
                assert forall|x: i32| sd.push(e.day).to_set().contains(x) <==> sd.to_set().insert(e.day).contains(x) by {
                    if sd.push(e.day).contains(x) {
                        let q = choose|q: int| 0 <= q < sd.push(e.day).len() && sd.push(e.day)[q] == x;
                        if q < sd.len() {
                            assert(sd[q] == x);
                        }
                    }
                    if sd.contains(x) {
                        let q = choose|q: int| 0 <= q < sd.len() && sd[q] == x;
                        assert(sd.push(e.day)[q] == x);
                    }
                    if x == e.day {
                        assert(sd.push(e.day)[sd.len() as int] == x);
                    }
                }
            }
        }
        i = i + 1;
    }
    proof {
        assert(seen@.take(i as int) =~= seen@);
        distinct@.unique_seq_to_set();
    }
    let goals = goal_list(decks, dues);
    let mut forecast: Vec<usize> = Vec::new();
    let mut k: usize = 0;
    while k < 14
        invariant
            k <= 14,
            forecast@.len() == k,
            forall|q: int| 0 <= q < k ==> forecast@[q] == 0,
        decreases 14 - k,
    {
        forecast.push(0);
        k = k + 1;
    }
    let mut learned: usize = 0;
    let mut g: usize = 0;
    assert(goals@.take(0) =~= Seq::<Option<i32>>::empty());
    while g < goals.len()
        invariant
            g <= goals@.len(),
            forecast@.len() == 14,
            learned == learned_count(goals@.take(g as int)),
            learned <= g,
            forall|q: int| 0 <= q < 14 ==> #[trigger] forecast@[q] == forecast_at(goals@.take(g as int), today, q),
            forall|q: int| 0 <= q < 14 ==> #[trigger] forecast@[q] <= g,
        decreases goals@.len() - g,
    {
        proof {
            assert(goals@.take(g + 1).drop_last() =~= goals@.take(g as int));
            assert(goals@.take(g + 1).last() == goals@[g as int]);
        }
        match goals[g] {
            None => {},
            Some(due) => {
                learned = learned + 1;
                let diff: i64 = due as i64 - today as i64;
                let a: i64 = if diff < 0 {
                    0
                } else {
                    diff
                };
                if a < 14 {
                    let slot = a as usize;
                    let old = forecast[slot];
                    forecast.set(slot, old + 1);
                }
            },
        }
        g = g + 1;
    }
    assert(goals@.take(g as int) =~= goals@);
    let mut cards: usize = 0;
    let mut d: usize = 0;
    proof {
        lemma_card_count(decks@, 0);
    }
    while d < decks.len()
        invariant
            d <= decks@.len(),
            card_count(decks@) <= usize::MAX,
            cards == card_count(decks@.take(d as int)),
        decreases decks@.len() - d,
    {
        proof {
            assert(decks@.take(d + 1).drop_last() =~= decks@.take(d as int));
            assert(decks@.take(d + 1).last() == decks@[d as int]);
            lemma_card_count(decks@, d + 1);
        }
        cards = cards + decks[d].deck.cards.len();
        d = d + 1;
    }
    assert(decks@.take(d as int) =~= decks@);
    let due = forecast[0];
    proof {
        lemma_learned_le(goals@);
    }
    Stats {
        cards,
        goals: goals.len(),
        learned,
        due,
        new_available: goals.len() - learned,
        reviews_total: c_total,
        reviews_7d: c7,
        reviews_14d: c14,
        reviews_30d: c30,
        ms_30d: ms,
        retention_30d: (passed, tested),
        forecast,
        review_days: distinct.len(),
    }
}

proof fn lemma_card_count(ds: Seq<LoadedDeck>, k: int)
    requires
        0 <= k <= ds.len(),
    ensures
        card_count(ds.take(k)) <= card_count(ds),
    decreases ds.len(),
{
    if k == ds.len() {
        assert(ds.take(k) =~= ds);
    } else {
        assert(ds.take(k) =~= ds.drop_last().take(k));
        lemma_card_count(ds.drop_last(), k);
    }
}

proof fn lemma_learned_le(gs: Seq<Option<i32>>)
    ensures
        learned_count(gs) <= gs.len(),
    decreases gs.len(),
{
    if gs.len() > 0 {
        lemma_learned_le(gs.drop_last());
    }
}


/// Goals coming due on the first `n` days of the forecast, together.
pub open spec fn forecast_sum(gs: Seq<Option<i32>>, today: i32, n: nat) -> nat
    decreases n,
{
    if n == 0 {
        0
    } else {
        forecast_sum(gs, today, (n - 1) as nat) + forecast_at(gs, today, n - 1)
    }
}

proof fn lemma_forecast_sum_step(gs: Seq<Option<i32>>, today: i32, n: nat)
    requires
        gs.len() > 0,
    ensures
        forecast_sum(gs, today, n) == forecast_sum(gs.drop_last(), today, n) + if gs.last() matches Some(
            d,
        ) && ahead(today, d) < n {
            1nat
        } else {
            0nat
        },
    decreases n,
{
    if n > 0 {
        lemma_forecast_sum_step(gs, today, (n - 1) as nat);
    }
}

proof fn lemma_forecast_sum_le(gs: Seq<Option<i32>>, today: i32, n: nat)
    ensures
        forecast_sum(gs, today, n) <= learned_count(gs),
    decreases gs.len(),
{
    if gs.len() == 0 {
        lemma_forecast_sum_empty(gs, today, n);
    } else {
        lemma_forecast_sum_step(gs, today, n);
        lemma_forecast_sum_le(gs.drop_last(), today, n);
    }
}

proof fn lemma_forecast_sum_empty(gs: Seq<Option<i32>>, today: i32, n: nat)
    requires
        gs.len() == 0,
    ensures
        forecast_sum(gs, today, n) == 0,
    decreases n,
{
    if n > 0 {
        lemma_forecast_sum_empty(gs, today, (n - 1) as nat);
    }
}

proof fn lemma_counts_nest(s: Seq<Seen>, now: i128)
    ensures
        ({
            let c = count_seen(s, now);
            &&& c.last_7d <= c.last_14d <= c.last_30d <= c.total
            &&& c.passed_30d <= c.tested_30d <= c.last_30d
        }),
    decreases s.len(),
{
    if s.len() > 0 {
        lemma_counts_nest(s.drop_last(), now);
        let e = s.last();
        let d = now - e.ts;
        if d > 0 {
            let q = d / (NANOS_PER_SECOND as int);
            assert(q <= 7 * 86_400int ==> q <= 14 * 86_400int);
            assert(q <= 14 * 86_400int ==> q <= 30 * 86_400int);
        }
    }
}

/// The figures of `compute` nest: reviews of the last 7 days are among
/// those of the last 14, those among the last 30, and those among all;
/// passed tests are among the tests, and tests among the last 30 days'
/// reviews; learned goals are among the goals, and the forecast, summed
/// over its days, counts no more goals than are learned.
pub proof fn lemma_stats_nest(
    decks: Seq<LoadedDeck>,
    days: Seq<Vec<Vec<i32>>>,
    dues: Seq<Vec<(Option<i32>, Option<i32>)>>,
    now: i128,
    today: i32,
)
    ensures
        ({
            let c = count_seen(seen_of_decks(decks, days), now);
            &&& c.last_7d <= c.last_14d <= c.last_30d <= c.total
            &&& c.passed_30d <= c.tested_30d <= c.last_30d
        }),
        learned_count(decks_goal_dues(decks, dues)) <= decks_goal_dues(decks, dues).len(),
        forecast_sum(decks_goal_dues(decks, dues), today, FORECAST_DAYS as nat) <= learned_count(
            decks_goal_dues(decks, dues),
        ),
{
    lemma_counts_nest(seen_of_decks(decks, days), now);
    lemma_learned_le(decks_goal_dues(decks, dues));
    lemma_forecast_sum_le(decks_goal_dues(decks, dues), today, FORECAST_DAYS as nat);
}

/// A review counts as a recall exactly when its grade is a success (any
/// grade but Again, as `Grade::is_success` says): Hard, Good and Easy pass,
/// Again fails. So where every review of a history passes, its 30-day
/// retention tests all pass; where every one is Again, none does.
pub proof fn lemma_retention_counts_successes(evs: Seq<ReviewEvent>, days: Seq<i32>, now: i128)
    ensures
        forall|k: int|
            0 <= k < evs.len() ==> (#[trigger] seen_of_history(evs, days)[k]).success == (evs[k].grade
                == Grade::Hard || evs[k].grade == Grade::Good || evs[k].grade == Grade::Easy),
        (forall|k: int| 0 <= k < evs.len() ==> (#[trigger] evs[k]).grade != Grade::Again) ==> count_seen(
            seen_of_history(evs, days),
            now,
        ).passed_30d == count_seen(seen_of_history(evs, days), now).tested_30d,
        (forall|k: int| 0 <= k < evs.len() ==> (#[trigger] evs[k]).grade == Grade::Again) ==> count_seen(
            seen_of_history(evs, days),
            now,
        ).passed_30d == 0,
{
    let s = seen_of_history(evs, days);
    assert forall|k: int| 0 <= k < evs.len() implies (#[trigger] s[k]).success == (evs[k].grade
        == Grade::Hard || evs[k].grade == Grade::Good || evs[k].grade == Grade::Easy) by {
        match evs[k].grade {
            Grade::Again => {},
            Grade::Hard => {},
            Grade::Good => {},
            Grade::Easy => {},
        }
    }
    if forall|k: int| 0 <= k < evs.len() ==> (#[trigger] evs[k]).grade != Grade::Again {
        lemma_all_pass(s, now);
    }
    if forall|k: int| 0 <= k < evs.len() ==> (#[trigger] evs[k]).grade == Grade::Again {
        lemma_none_pass(s, now);
    }
}

proof fn lemma_all_pass(s: Seq<Seen>, now: i128)
    requires
        forall|k: int| 0 <= k < s.len() ==> (#[trigger] s[k]).success,
    ensures
        count_seen(s, now).passed_30d == count_seen(s, now).tested_30d,
    decreases s.len(),
{
    if s.len() > 0 {
        assert(s.last() == s[s.len() - 1]);
        lemma_all_pass(s.drop_last(), now);
    }
}

proof fn lemma_none_pass(s: Seq<Seen>, now: i128)
    requires
        forall|k: int| 0 <= k < s.len() ==> !(#[trigger] s[k]).success,
    ensures
        count_seen(s, now).passed_30d == 0,
    decreases s.len(),
{
    if s.len() > 0 {
        assert(s.last() == s[s.len() - 1]);
        lemma_none_pass(s.drop_last(), now);
    }
}
} // verus!
