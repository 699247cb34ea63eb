//! The session planner: what is due, what is new, how much of each fits.
//!
//! What the memory model says of each card (whether it is learned, whether
//! it is due today, how likely it is still recalled, and its due day) is
//! computed by the caller and handed in as plain values.

use vstd::prelude::*;

use crate::ledger::{card_history, History, Ledger, ReviewEvent};
use crate::store::LoadedDeck;
use crate::sorting::{keys_at_most, lemma_insert_at, lemma_sort_multiset, lemma_sort_sorted, sort_by_key, sorted_by};
use crate::types::{Goal, Grade};

verus! {

/// One card in one direction, as a session takes it.
#[derive(Clone, Copy, Debug, PartialEq, Eq, Structural)]
pub struct Item {
    pub deck: usize,
    pub card: usize,
    pub goal: Goal,
    /// Order key of the probability of recall today (the bits of the
    /// non-negative `f32`, which order as the numbers do); lower is more
    /// urgent. Zero for new cards.
    pub retrievability: u32,
}

/// What the memory model says of a learned card in one direction.
#[derive(Clone, Copy, Debug, PartialEq, Eq, Structural)]
pub struct Memory {
    /// Due today or earlier.
    pub due: bool,
    /// Order key of the probability of recall today, as in `Item`.
    pub retrievability: u32,
    /// The day it comes due, as a day number.
    pub due_day: i32,
}

/// One card line of a deck, with what is known of its two directions.
#[derive(Clone, Copy, Debug, PartialEq, Eq, Structural)]
pub struct CardInput {
    pub deck: usize,
    pub card: usize,
    /// A `:::` line: the reverse direction is a goal too.
    pub reverse: bool,
    /// The forward direction has been recalled successfully at least once.
    pub forward_ok: bool,
    /// Memory of the forward direction; `None` when never reviewed.
    pub forward: Option<Memory>,
    /// Memory of the reverse direction; `None` when never reviewed.
    pub backward: Option<Memory>,
}

#[derive(Clone, Copy, Debug)]
pub enum NewPolicy {
    /// `new_per_day` minus what was introduced today, throttled by backlog.
    Daily,
    /// `--new N` / `--no-new`: exactly this many, no throttle.
    Explicit(usize),
}

#[derive(Debug)]
pub struct Plan {
    /// Due now, lowest retrievability first.
    pub due: Vec<Item>,
    /// Eligible new cards in deck and line order.
    pub new: Vec<Item>,
    /// How many of `new` this session may introduce.
    pub new_limit: usize,
    /// New intake was set to zero because the overdue backlog is large.
    pub throttled: bool,
    /// Earliest future due day and how many cards come due that day.
    pub next_due: Option<(i32, usize)>,
    /// Siblings held back because the other side is in this session.
    pub deferred_siblings: usize,
    pub total_goals: usize,
    pub learned: usize,
}

pub enum Candidate {
    Due(Item),
    New(Item),
}

/// What one direction of a card contributes.
pub open spec fn classify(m: Option<Memory>, deck: usize, card: usize, goal: Goal, eligible_new: bool) -> Option<
    Candidate,
> {
    match m {
        None => if eligible_new {
            Some(Candidate::New(Item { deck, card, goal, retrievability: 0 }))
        } else {
            None
        },
        Some(mm) => if mm.due {
            Some(Candidate::Due(Item { deck, card, goal, retrievability: mm.retrievability }))
        } else {
            None
        },
    }
}

/// The earliest future due day and its count, after seeing one more.
pub open spec fn next_due_after(nd: Option<(i32, nat)>, day: i32) -> Option<(i32, nat)> {
    match nd {
        Some((d, n)) => if d == day {
            Some((d, n + 1))
        } else if d < day {
            Some((d, n))
        } else {
            Some((day, 1))
        },
        None => Some((day, 1)),
    }
}

/// A not-yet-due memory moves the next due day.
pub open spec fn note_memory(nd: Option<(i32, nat)>, m: Option<Memory>) -> Option<(i32, nat)> {
    match m {
        Some(mm) => if mm.due {
            nd
        } else {
            next_due_after(nd, mm.due_day)
        },
        None => nd,
    }
}

/// Of the two directions of one line, the one a session may take and
/// whether the other was held back. Never both sides in one session: the
/// more urgent one stays.
pub open spec fn pick_side(f: Option<Candidate>, r: Option<Candidate>) -> (Option<Candidate>, bool) {
    match (f, r) {
        (Some(fc), Some(rc)) => match (fc, rc) {
            (Candidate::Due(a), Candidate::Due(b)) => if a.retrievability <= b.retrievability {
                (Some(fc), true)
            } else {
                (Some(rc), true)
            },
            (Candidate::Due(_), Candidate::New(_)) => (Some(fc), true),
            (Candidate::New(_), Candidate::Due(_)) => (Some(rc), true),
            (Candidate::New(_), Candidate::New(_)) => (Some(fc), true),
        },
        (Some(fc), None) => (Some(fc), false),
        (None, r) => (r, false),
    }
}

/// What the cards seen so far add up to.
pub struct Tally {
    pub due: Seq<Item>,
    pub new: Seq<Item>,
    pub next_due: Option<(i32, nat)>,
    pub deferred: nat,
    pub total: nat,
    pub learned: nat,
}

pub open spec fn learned_of(m: Option<Memory>) -> nat {
    if m is Some {
        1
    } else {
        0
    }
}

/// One card line added to the tally.
pub open spec fn tally_card(t: Tally, c: CardInput) -> Tally {
    let f = classify(c.forward, c.deck, c.card, Goal::Forward, true);
    let r = if c.reverse {
        classify(c.backward, c.deck, c.card, Goal::Reverse, c.forward_ok)
    } else {
        None
    };
    let nd1 = note_memory(t.next_due, c.forward);
    let nd2 = if c.reverse {
        note_memory(nd1, c.backward)
    } else {
        nd1
    };
    let (keep, deferred) = pick_side(f, r);
    Tally {
        due: match keep {
            Some(Candidate::Due(item)) => t.due.push(item),
            _ => t.due,
        },
        new: match keep {
            Some(Candidate::New(item)) => t.new.push(item),
            _ => t.new,
        },
        next_due: nd2,
        deferred: t.deferred + if deferred {
            1nat
        } else {
            0nat
        },
        total: t.total + if c.reverse {
            2nat
        } else {
            1nat
        },
        learned: t.learned + learned_of(c.forward) + if c.reverse {
            learned_of(c.backward)
        } else {
            0nat
        },
    }
}

/// The tally of card lines, first to last.
pub open spec fn tally(cards: Seq<CardInput>) -> Tally
    decreases cards.len(),
{
    if cards.len() == 0 {
        Tally { due: Seq::empty(), new: Seq::empty(), next_due: None, deferred: 0, total: 0, learned: 0 }
    } else {
        tally_card(tally(cards.drop_last()), cards.last())
    }
}

pub open spec fn by_urgency() -> spec_fn(Item) -> int {
    |i: Item| i.retrievability as int
}

/// How many new cards a session may introduce before the cap by what is
/// eligible, and whether the backlog throttled it.
pub open spec fn spec_new_intake(
    policy: NewPolicy,
    due_len: nat,
    new_per_day: u32,
    session_minutes: u32,
    introduced_today_all: usize,
    average_ms: u64,
) -> (nat, bool) {
    match policy {
        NewPolicy::Explicit(n) => (n as nat, false),
        NewPolicy::Daily => {
            let base = if new_per_day >= introduced_today_all {
                (new_per_day - introduced_today_all) as nat
            } else {
                0nat
            };
            let per_session = (session_minutes as int * 60_000) / (average_ms as int);
            let floor = if per_session < 1 {
                1
            } else {
                per_session
            };
            if base > 0 && due_len > 2 * floor {
                (0nat, true)
            } else {
                (base, false)
            }
        },
    }
}

pub open spec fn min_nat(a: nat, b: nat) -> nat {
    if a <= b {
        a
    } else {
        b
    }
}

pub open spec fn nd_view(nd: Option<(i32, usize)>) -> Option<(i32, nat)> {
    match nd {
        Some((d, n)) => Some((d, n as nat)),
        None => None,
    }
}

impl Plan {
    /// New cards beyond this session's allowance.
    pub fn new_waiting(&self) -> (r: usize)
        ensures
            r == (if self.new@.len() >= self.new_limit {
                self.new@.len() - self.new_limit
            } else {
                0
            }),
    {
        self.new.len().saturating_sub(self.new_limit)
    }

    /// Nothing due and no new card allowed.
    pub fn is_empty(&self) -> (r: bool)
        ensures
            r == (self.due@.len() == 0 && self.new_limit == 0),
    {
        self.due.len() == 0 && self.new_limit == 0
    }
}

fn classify_exec(m: Option<Memory>, deck: usize, card: usize, goal: Goal, eligible_new: bool) -> (r: Option<
    Candidate,
>)
    ensures
        r == classify(m, deck, card, goal, eligible_new),
{
    match m {
        None => if eligible_new {
            Some(Candidate::New(Item { deck, card, goal, retrievability: 0 }))
        } else {
            None
        },
        Some(mm) => if mm.due {
            Some(Candidate::Due(Item { deck, card, goal, retrievability: mm.retrievability }))
        } else {
            None
        },
    }
}

fn note_memory_exec(nd: Option<(i32, usize)>, m: Option<Memory>, bound: usize) -> (r: Option<(i32, usize)>)
    requires
        match nd {
            Some((d, n)) => n < bound,
            None => true,
        },
        1 <= bound < usize::MAX,
    ensures
        nd_view(r) == note_memory(nd_view(nd), m),
        match r {
            Some((d, n)) => n <= bound,
            None => true,
        },
{
    match m {
        Some(mm) => if mm.due {
            nd
        } else {
            match nd {
                Some((d, n)) => if d == mm.due_day {
                    Some((d, n + 1))
                } else if d < mm.due_day {
                    Some((d, n))
                } else {
                    Some((mm.due_day, 1))
                },
                None => Some((mm.due_day, 1)),
            }
        },
        None => nd,
    }
}

/// Stable sort of items by urgency.
fn sort_items(v: Vec<Item>) -> (r: Vec<Item>)
    ensures
        r@ == sort_by_key(v@, by_urgency()),
{
    let mut r: Vec<Item> = Vec::new();
    let mut i: usize = 0;
    while i < v.len()
        invariant
            i <= v@.len(),
            r@ == sort_by_key(v@.take(i as int), by_urgency()),
        decreases v@.len() - i,
    {
        let x = v[i];
        let mut pos: usize = r.len();
        while pos > 0 && r[pos - 1].retrievability > x.retrievability
            invariant
                pos <= r@.len(),
                forall|j: int| pos <= j < r@.len() ==> (#[trigger] r@[j]).retrievability > x.retrievability,
            decreases pos,
        {
            pos = pos - 1;
        }
        proof {
            assert forall|j: int| pos <= j < r@.len() implies (by_urgency())(#[trigger] r@[j]) > (
            by_urgency())(x) by {}
            lemma_insert_at(r@, x, by_urgency(), pos as int);
            assert(v@.take(i + 1).drop_last() =~= v@.take(i as int));
            assert(v@.take(i + 1).last() == x);
        }
        let ghost before = r@;
        r.insert(pos, x);
        assert(r@ =~= before.take(pos as int).push(x) + before.skip(pos as int));
        i = i + 1;
    }
    assert(v@.take(i as int) =~= v@);
    r
}

/// How many new cards a session may introduce, and whether the backlog
/// throttled the daily intake. `average_ms` is the mean review time.
pub fn new_intake(
    policy: NewPolicy,
    due_len: usize,
    new_per_day: u32,
    session_minutes: u32,
    introduced_today_all: usize,
    average_ms: u64,
) -> (r: (usize, bool))
    requires
        average_ms > 0,
    ensures
        (r.0 as nat, r.1) == spec_new_intake(
            policy,
            due_len as nat,
            new_per_day,
            session_minutes,
            introduced_today_all,
            average_ms,
        ),
{
    match policy {
        NewPolicy::Explicit(n) => (n, false),
        NewPolicy::Daily => {
            let base: usize = if (new_per_day as usize) >= introduced_today_all {
                new_per_day as usize - introduced_today_all
            } else {
                0
            };
            let per_session: u64 = (session_minutes as u64) * 60_000 / average_ms;
            let floor: u64 = if per_session < 1 {
                1
            } else {
                per_session
            };
            if base > 0 && (due_len as u128) > 2 * (floor as u128) {
                (0, true)
            } else {
                (base, false)
            }
        },
    }
}

/// Plans a session over the given card lines, in deck and line order.
/// `average_ms` is the mean review time (see `average_review_ms`).
pub fn plan(
    cards: &Vec<CardInput>,
    policy: NewPolicy,
    new_per_day: u32,
    session_minutes: u32,
    introduced_today_all: usize,
    average_ms: u64,
) -> (p: Plan)
    requires
        cards@.len() < usize::MAX / 4,
        average_ms > 0,
    ensures
        p.due@ == sort_by_key(tally(cards@).due, by_urgency()),
        sorted_by(p.due@, by_urgency()),
        p.due@.to_multiset() == tally(cards@).due.to_multiset(),
        p.new@ == tally(cards@).new,
        nd_view(p.next_due) == tally(cards@).next_due,
        p.deferred_siblings == tally(cards@).deferred,
        p.total_goals == tally(cards@).total,
        p.learned == tally(cards@).learned,
        ({
            let (limit, throttled) = spec_new_intake(
                policy,
                tally(cards@).due.len(),
                new_per_day,
                session_minutes,
                introduced_today_all,
                average_ms,
            );
            &&& p.new_limit == min_nat(limit, tally(cards@).new.len())
            &&& p.throttled == throttled
        }),
{
    let mut due: Vec<Item> = Vec::new();
    let mut new: Vec<Item> = Vec::new();
    let mut next_due: Option<(i32, usize)> = None;
    let mut deferred: usize = 0;
    let mut total_goals: usize = 0;
    let mut learned: usize = 0;
    let mut i: usize = 0;
    while i < cards.len()
        invariant
            i <= cards@.len(),
            cards@.len() < usize::MAX / 4,
            due@ == tally(cards@.take(i as int)).due,
            new@ == tally(cards@.take(i as int)).new,
            nd_view(next_due) == tally(cards@.take(i as int)).next_due,
            deferred == tally(cards@.take(i as int)).deferred,
            total_goals == tally(cards@.take(i as int)).total,
            learned == tally(cards@.take(i as int)).learned,
            deferred <= i,
            total_goals <= 2 * i,
            learned <= 2 * i,
            match next_due {
                Some((d, n)) => n <= 2 * i,
                None => true,
            },
        decreases cards@.len() - i,
    {
        let c = cards[i];
        proof {
            assert(cards@.take(i + 1).drop_last() =~= cards@.take(i as int));
            assert(cards@.take(i + 1).last() == c);
        }
        let f = classify_exec(c.forward, c.deck, c.card, Goal::Forward, true);
        let r = if c.reverse {
            classify_exec(c.backward, c.deck, c.card, Goal::Reverse, c.forward_ok)
        } else {
            None
        };
        let nd1 = note_memory_exec(next_due, c.forward, 2 * i + 1);
        next_due = if c.reverse {
            note_memory_exec(nd1, c.backward, 2 * i + 2)
        } else {
            nd1
        };
        total_goals = total_goals + if c.reverse {
            2
        } else {
            1
        };
        if c.forward.is_some() {
            learned = learned + 1;
        }
        if c.reverse && c.backward.is_some() {
            learned = learned + 1;
        }
        let (keep, was_deferred): (Option<Candidate>, bool) = match (f, r) {
            (Some(fc), Some(rc)) => match (fc, rc) {
                (Candidate::Due(a), Candidate::Due(b)) => if a.retrievability <= b.retrievability {
                    (Some(Candidate::Due(a)), true)
                } else {
                    (Some(Candidate::Due(b)), true)
                },
                (Candidate::Due(a), Candidate::New(_)) => (Some(Candidate::Due(a)), true),
                (Candidate::New(_), Candidate::Due(b)) => (Some(Candidate::Due(b)), true),
                (Candidate::New(a), Candidate::New(_)) => (Some(Candidate::New(a)), true),
            },
            (Some(fc), None) => (Some(fc), false),
            (None, r) => (r, false),
        };
        if was_deferred {
            deferred = deferred + 1;
        }
        match keep {
            Some(Candidate::Due(item)) => due.push(item),
            Some(Candidate::New(item)) => new.push(item),
            None => {},
        }
        i = i + 1;
    }
    assert(cards@.take(i as int) =~= cards@);
    let (limit, throttled) = new_intake(
        policy,
        due.len(),
        new_per_day,
        session_minutes,
        introduced_today_all,
        average_ms,
    );
    let new_limit = if limit <= new.len() {
        limit
    } else {
        new.len()
    };
    let due = sort_items(due);
    proof {
        lemma_sort_sorted(tally(cards@).due, by_urgency());
        lemma_sort_multiset(tally(cards@).due, by_urgency());
    }
    Plan {
        due,
        new,
        new_limit,
        throttled,
        next_due,
        deferred_siblings: deferred,
        total_goals,
        learned,
    }
}


/// Total time and count of the reviews with a recorded time.
pub open spec fn timing(evs: Seq<ReviewEvent>) -> (int, int)
    decreases evs.len(),
{
    if evs.len() == 0 {
        (0, 0)
    } else {
        let (t, n) = timing(evs.drop_last());
        if evs.last().elapsed_ms > 0 {
            (t + evs.last().elapsed_ms, n + 1)
        } else {
            (t, n)
        }
    }
}

pub open spec fn histories_timing(hs: Seq<History>) -> (int, int)
    decreases hs.len(),
{
    if hs.len() == 0 {
        (0, 0)
    } else {
        let (t, n) = histories_timing(hs.drop_last());
        let (t2, n2) = timing(hs.last().reviews@);
        (t + t2, n + n2)
    }
}

pub open spec fn decks_timing(ds: Seq<LoadedDeck>) -> (int, int)
    decreases ds.len(),
{
    if ds.len() == 0 {
        (0, 0)
    } else {
        let (t, n) = decks_timing(ds.drop_last());
        let (t2, n2) = histories_timing(ds.last().ledger.items@);
        (t + t2, n + n2)
    }
}

/// Mean review time in ms, clamped to something sane; 10 s without data.
pub open spec fn spec_average_ms(total: int, n: int) -> u64 {
    if n <= 0 {
        10_000
    } else {
        let avg = total / n;
        if avg < 2_000 {
            2_000
        } else if avg > 60_000 {
            60_000
        } else {
            avg as u64
        }
    }
}

pub open spec fn max_ms() -> int {
    0xFFFF_FFFF_FFFF_FFFF
}

proof fn lemma_timing(evs: Seq<ReviewEvent>, k: int)
    requires
        0 <= k <= evs.len(),
    ensures
        0 <= timing(evs.take(k)).1 <= timing(evs).1,
        0 <= timing(evs).0 <= timing(evs).1 * max_ms(),
    decreases evs.len(),
{
    if evs.len() > 0 {
        let d = evs.drop_last();
        if k == evs.len() {
            assert(evs.take(k) =~= evs);
            lemma_timing(d, 0);
        } else {
            assert(evs.take(k) =~= d.take(k));
            lemma_timing(d, k);
        }
        let (t, n) = timing(d);
        assert(0 <= t <= n * max_ms());
        assert(t + max_ms() <= (n + 1) * max_ms()) by (nonlinear_arith)
            requires
                t <= n * max_ms(),
        ;
    } else {
        assert(evs.take(k) =~= evs);
    }
}

proof fn lemma_histories_timing(hs: Seq<History>, k: int)
    requires
        0 <= k <= hs.len(),
    ensures
        0 <= histories_timing(hs.take(k)).1 <= histories_timing(hs).1,
        0 <= histories_timing(hs).0 <= histories_timing(hs).1 * max_ms(),
    decreases hs.len(),
{
    if hs.len() > 0 {
        let d = hs.drop_last();
        if k == hs.len() {
            assert(hs.take(k) =~= hs);
            lemma_histories_timing(d, 0);
        } else {
            assert(hs.take(k) =~= d.take(k));
            lemma_histories_timing(d, k);
        }
        lemma_timing(hs.last().reviews@, 0);
        let (t, n) = histories_timing(d);
        let (t2, n2) = timing(hs.last().reviews@);
        assert(t + t2 <= (n + n2) * max_ms()) by (nonlinear_arith)
            requires
                t <= n * max_ms(),
                t2 <= n2 * max_ms(),
        ;
    } else {
        assert(hs.take(k) =~= hs);
    }
}

proof fn lemma_decks_timing(ds: Seq<LoadedDeck>, k: int)
    requires
        0 <= k <= ds.len(),
    ensures
        0 <= decks_timing(ds.take(k)).1 <= decks_timing(ds).1,
        0 <= decks_timing(ds).0 <= decks_timing(ds).1 * max_ms(),
    decreases ds.len(),
{
    if ds.len() > 0 {
        let d = ds.drop_last();
        if k == ds.len() {
            assert(ds.take(k) =~= ds);
            lemma_decks_timing(d, 0);
        } else {
            assert(ds.take(k) =~= d.take(k));
            lemma_decks_timing(d, k);
        }
        lemma_histories_timing(ds.last().ledger.items@, 0);
        let (t, n) = decks_timing(d);
        let (t2, n2) = histories_timing(ds.last().ledger.items@);
        assert(t + t2 <= (n + n2) * max_ms()) by (nonlinear_arith)
            requires
                t <= n * max_ms(),
                t2 <= n2 * max_ms(),
        ;
    } else {
        assert(ds.take(k) =~= ds);
    }
}

/// Mean review time in ms over all history of the decks, clamped to
/// 2–60 s; 10 s when no review has a recorded time.
pub fn average_review_ms(decks: &Vec<LoadedDeck>) -> (r: u64)
    requires
        decks_timing(decks@).1 < max_ms(),
    ensures
        r == spec_average_ms(decks_timing(decks@).0, decks_timing(decks@).1),
        r > 0,
{
    let mut total: u128 = 0;
    let mut n: u64 = 0;
    let mut d: usize = 0;
    proof {
        lemma_decks_timing(decks@, 0);
    }
    while d < decks.len()
        invariant
            d <= decks@.len(),
            decks_timing(decks@).1 < max_ms(),
            total == decks_timing(decks@.take(d as int)).0,
            n == decks_timing(decks@.take(d as int)).1,
        decreases decks@.len() - d,
    {
        let items = &decks[d].ledger.items;
        let ghost base = (total as int, n as int);
        proof {
            lemma_decks_timing(decks@, d + 1);
            assert(decks@.take(d + 1).drop_last() =~= decks@.take(d as int));
            lemma_decks_timing(decks@.take(d + 1), d + 1);
            lemma_decks_timing(decks@.take(d as int), 0);
        }
        let mut h: usize = 0;
        assert(items@.take(0) =~= Seq::<History>::empty());
        while h < items.len()
            invariant
                h <= items@.len(),
                d < decks@.len(),
                items@ == decks@[d as int].ledger.items@,
                decks_timing(decks@.take(d + 1)).1 <= decks_timing(decks@).1,
                decks_timing(decks@).1 < max_ms(),
                decks_timing(decks@.take(d + 1)) == (base.0 + histories_timing(items@).0, base.1
                    + histories_timing(items@).1),
                total == base.0 + histories_timing(items@.take(h as int)).0,
                n == base.1 + histories_timing(items@.take(h as int)).1,
                0 <= base.0 <= base.1 * max_ms(),
                base.1 >= 0,
            decreases items@.len() - h,
        {
            let evs = &items[h].reviews;
            let ghost base2 = (total as int, n as int);
            proof {
                lemma_histories_timing(items@, h + 1);
                assert(items@.take(h + 1).drop_last() =~= items@.take(h as int));
                lemma_histories_timing(items@.take(h + 1), h + 1);
                lemma_histories_timing(items@.take(h as int), h as int);
            }
            let mut e: usize = 0;
            assert(evs@.take(0) =~= Seq::<ReviewEvent>::empty());
            while e < evs.len()
                invariant
                    e <= evs@.len(),
                    h < items@.len(),
                    evs@ == items@[h as int].reviews@,
                    base2.1 + timing(evs@).1 <= decks_timing(decks@).1,
                    decks_timing(decks@).1 < max_ms(),
                    0 <= base2.0 <= base2.1 * max_ms(),
                    base2.1 >= 0,
                    total == base2.0 + timing(evs@.take(e as int)).0,
                    n == base2.1 + timing(evs@.take(e as int)).1,
                decreases evs@.len() - e,
            {
                proof {
                    lemma_timing(evs@, e + 1);
                    assert(evs@.take(e + 1).drop_last() =~= evs@.take(e as int));
                    assert(evs@.take(e + 1).last() == evs@[e as int]);
                    lemma_timing(evs@.take(e as int), e as int);
                    assert(evs@.take(e as int).take(e as int) =~= evs@.take(e as int));
                }
                let ms = evs[e].elapsed_ms;
                if ms > 0 {
                    proof {
                        let (t0, n0) = timing(evs@.take(e as int));
                        assert(base2.0 + t0 + max_ms() <= (base2.1 + n0 + 1) * max_ms()) by (nonlinear_arith)
                            requires
                                base2.0 <= base2.1 * max_ms(),
                                t0 <= n0 * max_ms(),
                        ;
                        assert((base2.1 + n0 + 1) * max_ms() < max_ms() * max_ms()) by (nonlinear_arith)
                            requires
                                base2.1 + n0 + 1 < max_ms(),
                        ;
                    }
                    total = total + ms as u128;
                    n = n + 1;
                }
                e = e + 1;
            }
            proof {
                assert(evs@.take(e as int) =~= evs@);
                assert(histories_timing(items@.take(h + 1)) == (histories_timing(items@.take(h as int)).0 + timing(evs@).0, histories_timing(items@.take(h as int)).1 + timing(evs@).1));
            }
            h = h + 1;
        }
        proof {
            assert(items@.take(h as int) =~= items@);
        }
        d = d + 1;
    }
    proof {
        assert(decks@.take(d as int) =~= decks@);
    }
    if n == 0 {
        return 10_000;
    }
    let avg: u128 = total / (n as u128);
    if avg < 2_000 {
        2_000
    } else if avg > 60_000 {
        60_000
    } else {
        avg as u64
    }
}

/// The study day of every review of a ledger, history by history.
pub open spec fn days_fit(items: Seq<History>, days: Seq<Vec<i32>>) -> bool {
    &&& days.len() == items.len()
    &&& forall|h: int| 0 <= h < items.len() ==> (#[trigger] days[h])@.len() == items[h].reviews@.len()
}

/// How many histories began on study day `today`: the cards introduced
/// that day.
pub open spec fn began_on(items: Seq<History>, days: Seq<Vec<i32>>, today: i32) -> nat
    decreases items.len(),
{
    if items.len() == 0 {
        0
    } else {
        let k = items.len() - 1;
        began_on(items.drop_last(), days, today) + if items[k].reviews@.len() > 0 && days[k]@[0] == today {
            1nat
        } else {
            0nat
        }
    }
}

proof fn lemma_began_on_prefix(items: Seq<History>, days: Seq<Vec<i32>>, today: i32, n: int)
    requires
        0 <= n < items.len(),
    ensures
        began_on(items.take(n + 1), days, today) == began_on(items.take(n), days, today) + if items[n].reviews@.len()
            > 0 && days[n]@[0] == today {
            1nat
        } else {
            0nat
        },
        began_on(items.take(n), days, today) <= n,
    decreases n,
{
    assert(items.take(n + 1).drop_last() =~= items.take(n));
    if n > 0 {
        lemma_began_on_prefix(items, days, today, n - 1);
    } else {
        assert(items.take(0) =~= Seq::<History>::empty());
    }
}

/// New cards introduced on study day `today` in one ledger: its histories
/// whose first review falls on that day. `days` gives the study day of
/// each review.
pub fn introduced_today(ledger: &Ledger, days: &Vec<Vec<i32>>, today: i32) -> (r: usize)
    requires
        days_fit(ledger.items@, days@),
    ensures
        r == began_on(ledger.items@, days@, today),
{
    let items = &ledger.items;
    let mut n: usize = 0;
    let mut h: usize = 0;
    while h < items.len()
        invariant
            h <= items@.len(),
            items@ == ledger.items@,
            days_fit(items@, days@),
            n == began_on(items@.take(h as int), days@, today),
            n <= h,
        decreases items@.len() - h,
    {
        proof {
            lemma_began_on_prefix(items@, days@, today, h as int);
        }
        if items[h].reviews.len() > 0 && days[h][0] == today {
            n = n + 1;
        }
        h = h + 1;
    }
    assert(items@.take(h as int) =~= items@);
    n
}

/// Has the forward side of a card been recalled successfully at least once?
/// Only then is its reverse side offered as new.
pub fn forward_succeeded(ledger: &Ledger, front: &str) -> (r: bool)
    requires
        ledger.wf(),
    ensures
        r == exists|i: int|
            0 <= i < card_history(ledger@, front@, Goal::Forward).len() && (#[trigger] card_history(
                ledger@,
                front@,
                Goal::Forward,
            )[i]).grade != Grade::Again,
{
    let evs = ledger.reviews(front, Goal::Forward);
    let mut i: usize = 0;
    while i < evs.len()
        invariant
            i <= evs@.len(),
            evs@ == card_history(ledger@, front@, Goal::Forward),
            forall|j: int| 0 <= j < i ==> (#[trigger] evs@[j]).grade == Grade::Again,
        decreases evs@.len() - i,
    {
        if evs[i].grade.is_success() {
            assert(evs@[i as int].grade != Grade::Again);
            return true;
        }
        i = i + 1;
    }
    false
}

/// The card line an item belongs to.
pub open spec fn line_of(i: Item) -> (usize, usize) {
    (i.deck, i.card)
}

/// No card line is given twice.
pub open spec fn lines_distinct(cards: Seq<CardInput>) -> bool {
    forall|i: int, j: int|
        0 <= i < j < cards.len() ==> ((#[trigger] cards[i]).deck, cards[i].card) != (
            (#[trigger] cards[j]).deck,
            cards[j].card,
        )
}

/// Each item of a tally comes from one of its card lines, in the direction
/// that line allows.
pub open spec fn items_from(items: Seq<Item>, cards: Seq<CardInput>) -> bool {
    forall|q: int|
        0 <= q < items.len() ==> exists|j: int|
            0 <= j < cards.len() && line_of(#[trigger] items[q]) == (
                (#[trigger] cards[j]).deck,
                cards[j].card,
            ) && (items[q].goal == Goal::Reverse ==> cards[j].reverse)
                && (items[q].goal == Goal::Reverse && items[q].retrievability == 0
                    && cards[j].backward is None ==> cards[j].forward_ok)
}

/// Items of distinct card lines.
pub open spec fn one_per_line(items: Seq<Item>) -> bool {
    forall|a: int, b: int|
        0 <= a < b < items.len() ==> line_of(#[trigger] items[a]) != line_of(#[trigger] items[b])
}

proof fn lemma_items_from_push(items: Seq<Item>, cards: Seq<CardInput>, c: CardInput)
    requires
        items_from(items, cards),
    ensures
        items_from(items, cards.push(c)),
{
    assert forall|q: int| 0 <= q < items.len() implies exists|j: int|
        0 <= j < cards.push(c).len() && line_of(#[trigger] items[q]) == (
            (#[trigger] cards.push(c)[j]).deck,
            cards.push(c)[j].card,
        ) && (items[q].goal == Goal::Reverse ==> cards.push(c)[j].reverse) && (items[q].goal
            == Goal::Reverse && items[q].retrievability == 0 && cards.push(c)[j].backward is None
            ==> cards.push(c)[j].forward_ok) by {
        let j = choose|j: int|
            0 <= j < cards.len() && line_of(#[trigger] items[q]) == (
                (#[trigger] cards[j]).deck,
                cards[j].card,
            ) && (items[q].goal == Goal::Reverse ==> cards[j].reverse) && (items[q].goal
                == Goal::Reverse && items[q].retrievability == 0 && cards[j].backward is None
                ==> cards[j].forward_ok);
        assert(cards.push(c)[j] == cards[j]);
    }
}

proof fn lemma_tally_items(cards: Seq<CardInput>)
    ensures
        items_from(tally(cards).due, cards),
        items_from(tally(cards).new, cards),
        forall|q: int| 0 <= q < tally(cards).new.len() ==> (#[trigger] tally(cards).new[q]).retrievability == 0,
    decreases cards.len(),
{
    if cards.len() > 0 {
        let d = cards.drop_last();
        let c = cards.last();
        lemma_tally_items(d);
        assert(d.push(c) =~= cards);
        lemma_items_from_push(tally(d).due, d, c);
        lemma_items_from_push(tally(d).new, d, c);
        let t = tally(cards);
        let n = cards.len() - 1;
        assert(cards[n] == c);
        assert forall|q: int| 0 <= q < t.due.len() implies exists|j: int|
            0 <= j < cards.len() && line_of(#[trigger] t.due[q]) == (
                (#[trigger] cards[j]).deck,
                cards[j].card,
            ) && (t.due[q].goal == Goal::Reverse ==> cards[j].reverse) && (t.due[q].goal
                == Goal::Reverse && t.due[q].retrievability == 0 && cards[j].backward is None
                ==> cards[j].forward_ok) by {
            if q < tally(d).due.len() {
                assert(t.due[q] == tally(d).due[q]);
            } else {
                assert(line_of(t.due[q]) == (cards[n].deck, cards[n].card));
            }
        }
        assert forall|q: int| 0 <= q < t.new.len() implies exists|j: int|
            0 <= j < cards.len() && line_of(#[trigger] t.new[q]) == (
                (#[trigger] cards[j]).deck,
                cards[j].card,
            ) && (t.new[q].goal == Goal::Reverse ==> cards[j].reverse) && (t.new[q].goal
                == Goal::Reverse && t.new[q].retrievability == 0 && cards[j].backward is None
                ==> cards[j].forward_ok) by {
            if q < tally(d).new.len() {
                assert(t.new[q] == tally(d).new[q]);
            } else {
                assert(line_of(t.new[q]) == (cards[n].deck, cards[n].card));
            }
        }
        assert forall|q: int| 0 <= q < t.new.len() implies (#[trigger] t.new[q]).retrievability
            == 0 by {
            if q < tally(d).new.len() {
                assert(t.new[q] == tally(d).new[q]);
            }
        }
    }
}

/// Never both sides of one line in a session: when no card line is given
/// twice, the due and new lists of a plan hold at most one item per line,
/// between them. And the reverse side of a line is offered as new only once
/// its forward side has been recalled.
pub proof fn lemma_one_side_per_line(cards: Seq<CardInput>)
    requires
        lines_distinct(cards),
    ensures
        one_per_line(tally(cards).due + tally(cards).new),
        forall|q: int|
            0 <= q < tally(cards).new.len() && (#[trigger] tally(cards).new[q]).goal == Goal::Reverse
                ==> exists|j: int|
                0 <= j < cards.len() && line_of(tally(cards).new[q]) == (
                    (#[trigger] cards[j]).deck,
                    cards[j].card,
                ) && cards[j].forward_ok,
    decreases cards.len(),
{
    lemma_tally_items(cards);
    if cards.len() > 0 {
        let d = cards.drop_last();
        let c = cards.last();
        let n = cards.len() - 1;
        assert(lines_distinct(d)) by {
            assert forall|i: int, j: int| 0 <= i < j < d.len() implies ((#[trigger] d[i]).deck, d[i].card)
                != ((#[trigger] d[j]).deck, d[j].card) by {
                assert(d[i] == cards[i] && d[j] == cards[j]);
            }
        }
        lemma_one_side_per_line(d);
        lemma_tally_items(d);
        let td = tally(d);
        let t = tally(cards);
        let old_all = td.due + td.new;
        let all = t.due + t.new;
        // Lines of earlier items are lines of earlier cards, never this one.
        assert forall|q: int| 0 <= q < old_all.len() implies line_of(#[trigger] old_all[q]) != (
        c.deck, c.card) by {
            let it = old_all[q];
            if q < td.due.len() {
                assert(it == td.due[q]);
            } else {
                assert(it == td.new[q - td.due.len()]);
            }
            let j = choose|j: int| 0 <= j < d.len() && line_of(it) == ((#[trigger] d[j]).deck, d[j].card);
            assert(d[j] == cards[j]);
            assert(cards[n] == c);
        }
        assert forall|a: int, b: int| 0 <= a < b < all.len() implies line_of(#[trigger] all[a])
            != line_of(#[trigger] all[b]) by {
            let dl = td.due.len();
            let nl = td.new.len();
            // Map positions of `all` back to `old_all`, or to the new item.
            let pa = if a < t.due.len() {
                if a < dl { a } else { -1 }
            } else {
                let k = a - t.due.len();
                if k < nl { dl + k } else { -1 }
            };
            let pb = if b < t.due.len() {
                if b < dl { b } else { -1 }
            } else {
                let k = b - t.due.len();
                if k < nl { dl + k } else { -1 }
            };
            if pa >= 0 {
                assert(all[a] == old_all[pa]);
            } else {
                assert(line_of(all[a]) == (c.deck, c.card));
            }
            if pb >= 0 {
                assert(all[b] == old_all[pb]);
            } else {
                assert(line_of(all[b]) == (c.deck, c.card));
            }
            if pa >= 0 && pb >= 0 {
                assert(pa != pb);
                if pa < pb {
                } else {
                }
            }
        }
        assert forall|q: int|
            0 <= q < t.new.len() && (#[trigger] t.new[q]).goal == Goal::Reverse implies exists|j: int|
                0 <= j < cards.len() && line_of(t.new[q]) == (
                    (#[trigger] cards[j]).deck,
                    cards[j].card,
                ) && cards[j].forward_ok by {
            let j = choose|j: int|
                0 <= j < cards.len() && line_of(#[trigger] t.new[q]) == (
                    (#[trigger] cards[j]).deck,
                    cards[j].card,
                ) && (t.new[q].goal == Goal::Reverse ==> cards[j].reverse) && (t.new[q].goal
                    == Goal::Reverse && t.new[q].retrievability == 0 && cards[j].backward is None
                    ==> cards[j].forward_ok);
            if q < td.new.len() {
                assert(t.new[q] == td.new[q]);
            } else {
                assert(j == n || line_of(t.new[q]) == (c.deck, c.card));
            }
        }
    }
}

/// `a` comes before `b` in deck and line order.
pub open spec fn line_before(a: (usize, usize), b: (usize, usize)) -> bool {
    a.0 < b.0 || (a.0 == b.0 && a.1 < b.1)
}

/// Card lines given in deck and line order.
pub open spec fn lines_in_order(cards: Seq<CardInput>) -> bool {
    forall|i: int, j: int|
        0 <= i < j < cards.len() ==> line_before(
            ((#[trigger] cards[i]).deck, cards[i].card),
            ((#[trigger] cards[j]).deck, cards[j].card),
        )
}

/// New cards enter in line order: when the card lines are given in deck
/// and line order, the new list of a plan follows that order, one item per
/// line.
pub proof fn lemma_new_in_line_order(cards: Seq<CardInput>)
    requires
        lines_in_order(cards),
    ensures
        forall|a: int, b: int|
            0 <= a < b < tally(cards).new.len() ==> line_before(
                line_of(#[trigger] tally(cards).new[a]),
                line_of(#[trigger] tally(cards).new[b]),
            ),
    decreases cards.len(),
{
    if cards.len() > 0 {
        let d = cards.drop_last();
        let c = cards.last();
        let n = cards.len() - 1;
        assert(lines_in_order(d)) by {
            assert forall|i: int, j: int| 0 <= i < j < d.len() implies line_before(
                ((#[trigger] d[i]).deck, d[i].card),
                ((#[trigger] d[j]).deck, d[j].card),
            ) by {
                assert(d[i] == cards[i] && d[j] == cards[j]);
            }
        }
        lemma_new_in_line_order(d);
        lemma_tally_items(d);
        let td = tally(d);
        let t = tally(cards);
        assert forall|a: int, b: int| 0 <= a < b < t.new.len() implies line_before(
            line_of(#[trigger] t.new[a]),
            line_of(#[trigger] t.new[b]),
        ) by {
            assert(t.new[a] == td.new[a]);
            if b < td.new.len() {
                assert(t.new[b] == td.new[b]);
            } else {
                assert(line_of(t.new[b]) == (c.deck, c.card));
                let j = choose|j: int|
                    0 <= j < d.len() && line_of(#[trigger] td.new[a]) == (
                        (#[trigger] d[j]).deck,
                        d[j].card,
                    ) && (td.new[a].goal == Goal::Reverse ==> d[j].reverse) && (td.new[a].goal
                        == Goal::Reverse && td.new[a].retrievability == 0 && d[j].backward is None
                        ==> d[j].forward_ok);
                assert(d[j] == cards[j]);
                assert(cards[n] == c);
            }
        }
    }
}

/// Never both sides of one line, and the more urgent one stays: when both
/// sides of a two-way line are due, the due list holds an item of that line
/// whose retrievability is no greater than either side's (the forward side
/// on a tie), and the other side counts as held back.
pub proof fn lemma_keeps_more_urgent_side(cards: Seq<CardInput>, j: int)
    requires
        0 <= j < cards.len(),
        cards[j].reverse,
        cards[j].forward matches Some(f) && f.due,
        cards[j].backward matches Some(b) && b.due,
    ensures
        exists|q: int|
            0 <= q < tally(cards).due.len() && line_of(#[trigger] tally(cards).due[q]) == (
                cards[j].deck,
                cards[j].card,
            ) && tally(cards).due[q].retrievability <= cards[j].forward->0.retrievability
                && tally(cards).due[q].retrievability <= cards[j].backward->0.retrievability
                && tally(cards).due[q].goal == (if cards[j].forward->0.retrievability
                <= cards[j].backward->0.retrievability {
                Goal::Forward
            } else {
                Goal::Reverse
            }),
        tally(cards).deferred >= 1,
    decreases cards.len(),
{
    let d = cards.drop_last();
    let c = cards.last();
    let t = tally(cards);
    let td = tally(d);
    assert(d.push(c) =~= cards);
    lemma_tally_deferred_grows(d, c);
    if j == cards.len() - 1 {
        let q = td.due.len() as int;
        assert(c == cards[j]);
        assert(t.due =~= td.due.push(t.due[q]));
        assert(line_of(t.due[q]) == (c.deck, c.card));
    } else {
        assert(d[j] == cards[j]);
        lemma_keeps_more_urgent_side(d, j);
        let q = choose|q: int|
            0 <= q < td.due.len() && line_of(#[trigger] td.due[q]) == (d[j].deck, d[j].card)
                && td.due[q].retrievability <= d[j].forward->0.retrievability
                && td.due[q].retrievability <= d[j].backward->0.retrievability
                && td.due[q].goal == (if d[j].forward->0.retrievability <= d[j].backward->0.retrievability {
                Goal::Forward
            } else {
                Goal::Reverse
            });
        assert(t.due[q] == td.due[q]);
    }
}

/// Adding a line never lowers the count of held-back siblings.
proof fn lemma_tally_deferred_grows(d: Seq<CardInput>, c: CardInput)
    ensures
        tally(d.push(c)).deferred >= tally(d).deferred,
        tally(d.push(c)).due.len() >= tally(d).due.len(),
        forall|q: int| 0 <= q < tally(d).due.len() ==> tally(d.push(c)).due[q] == tally(d).due[q],
{
    assert(d.push(c).drop_last() =~= d);
}
} // verus!
