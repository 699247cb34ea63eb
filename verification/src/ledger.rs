//! Replay: the surviving review history of every card of a deck, as its
//! log rows add up to in time order.

use vstd::prelude::*;
use vstd::set::fold::is_fun_commutative;

use crate::assoc::{
    assoc_map, keys_unique, lemma_assoc_absent, lemma_assoc_char, lemma_assoc_push,
    lemma_assoc_remove, lemma_assoc_update, CardKey,
};
use crate::history::{Row, RowKind, RowKindV, RowV};
use crate::sorting::{
    distinct_keys, insert_sorted, keys_at_most, lemma_distinct_keys_multiset, lemma_insert_at,
    lemma_sort_multiset, lemma_sort_push_latest, lemma_sort_sorted, lemma_sorted_unique, sort_by_key, sorted_by,
};
use vstd::multiset::Multiset;
use crate::strs::{owned, str_eq};
use crate::types::{Goal, Grade, Mode};

verus! {

/// One surviving review of a card in one direction.
#[derive(Clone, Copy, Debug, PartialEq, Eq, Structural)]
pub struct ReviewEvent {
    /// Nanoseconds since the Unix epoch (UTC).
    pub ts: i128,
    pub grade: Grade,
    pub mode: Mode,
    pub elapsed_ms: u64,
}

/// A replayed review or skip row of one card and goal.
#[derive(Clone, Copy, Debug, PartialEq, Eq, Structural)]
pub enum Entry {
    Review(ReviewEvent),
    Skip { ts: i128 },
}

pub open spec fn entry_ts(e: Entry) -> int {
    match e {
        Entry::Review(r) => r.ts as int,
        Entry::Skip { ts } => ts as int,
    }
}

/// Entries are ordered by their time.
pub open spec fn entry_time() -> spec_fn(Entry) -> int {
    |e: Entry| entry_ts(e)
}

/// Rows are ordered by their time.
pub open spec fn row_time() -> spec_fn(RowV) -> int {
    |r: RowV| r.ts as int
}

pub open spec fn rows_view(rows: Seq<Row>) -> Seq<RowV> {
    rows.map_values(|r: Row| r@)
}

/// Rows in the order replay takes them: by time, ties in log order.
pub open spec fn time_order(rows: Seq<RowV>) -> Seq<RowV> {
    sort_by_key(rows, row_time())
}

/// What replay has built after some rows: the entries of each card and
/// goal, and the time of the latest review or skip.
pub struct ReplayState {
    pub entries: Map<CardKey, Seq<Entry>>,
    pub last: Option<i128>,
}

pub open spec fn lookup<V>(m: Map<CardKey, Seq<V>>, k: CardKey) -> Seq<V> {
    if m.contains_key(k) {
        m[k]
    } else {
        Seq::empty()
    }
}

/// A rename of `from` to `to` for one goal: the entries of `from` join those
/// of `to`, in time order.
pub open spec fn move_goal(m: Map<CardKey, Seq<Entry>>, from: Seq<char>, to: Seq<char>, g: Goal) -> Map<
    CardKey,
    Seq<Entry>,
> {
    if m.contains_key((from, g)) {
        let rest = m.remove((from, g));
        rest.insert((to, g), sort_by_key(lookup(rest, (to, g)) + m[(from, g)], entry_time()))
    } else {
        m
    }
}

/// One row applied to the replay state.
pub open spec fn apply_row(s: ReplayState, r: RowV) -> ReplayState {
    match r.kind {
        RowKindV::Review { goal, mode, grade, elapsed_ms, .. } => ReplayState {
            entries: s.entries.insert(
                (r.front, goal),
                lookup(s.entries, (r.front, goal)).push(
                    Entry::Review(ReviewEvent { ts: r.ts, grade, mode, elapsed_ms }),
                ),
            ),
            last: Some(r.ts),
        },
        RowKindV::Skip { goal, .. } => ReplayState {
            entries: s.entries.insert(
                (r.front, goal),
                lookup(s.entries, (r.front, goal)).push(Entry::Skip { ts: r.ts }),
            ),
            last: Some(r.ts),
        },
        RowKindV::Undo { goal, .. } => if s.entries.contains_key((r.front, goal))
            && s.entries[(r.front, goal)].len() > 0 {
            ReplayState {
                entries: s.entries.insert((r.front, goal), s.entries[(r.front, goal)].drop_last()),
                last: s.last,
            }
        } else {
            s
        },
        RowKindV::Rename { to } => ReplayState {
            entries: move_goal(
                move_goal(s.entries, r.front, to, Goal::Forward),
                r.front,
                to,
                Goal::Reverse,
            ),
            last: s.last,
        },
    }
}

/// Rows applied one after another, first to last.
pub open spec fn replay_rows(rows: Seq<RowV>) -> ReplayState
    decreases rows.len(),
{
    if rows.len() == 0 {
        ReplayState { entries: Map::empty(), last: None }
    } else {
        apply_row(replay_rows(rows.drop_last()), rows.last())
    }
}

/// The reviews among some entries, in order.
pub open spec fn reviews_in(es: Seq<Entry>) -> Seq<ReviewEvent>
    decreases es.len(),
{
    if es.len() == 0 {
        Seq::empty()
    } else {
        let rest = reviews_in(es.drop_last());
        match es.last() {
            Entry::Review(r) => rest.push(r),
            Entry::Skip { .. } => rest,
        }
    }
}

/// The surviving reviews of each card and goal that has any.
pub open spec fn histories(m: Map<CardKey, Seq<Entry>>) -> Map<CardKey, Seq<ReviewEvent>> {
    Map::new(|k: CardKey| m.contains_key(k) && reviews_in(m[k]).len() > 0, |k: CardKey| reviews_in(m[k]))
}

/// What replaying a log gives: rows in time order, then applied.
pub open spec fn spec_replay(rows: Seq<RowV>) -> ReplayState {
    replay_rows(time_order(rows))
}

/// The surviving history of one card and goal.
#[derive(Debug)]
pub struct History {
    pub front: String,
    pub goal: Goal,
    pub reviews: Vec<ReviewEvent>,
}

pub open spec fn history_pairs(hs: Seq<History>) -> Seq<(CardKey, Seq<ReviewEvent>)> {
    hs.map_values(|h: History| ((h.front@, h.goal), h.reviews@))
}

/// The replayed history of one deck: surviving reviews per front and goal.
/// Fronts with no surviving review have no entry.
#[derive(Debug)]
pub struct Ledger {
    /// One history per card and goal, each key once.
    pub items: Vec<History>,
    /// Time of the most recent review or skip. Rename and undo rows are
    /// bookkeeping, not study, and do not count.
    pub last_activity: Option<i128>,
}

impl View for Ledger {
    type V = Map<CardKey, Seq<ReviewEvent>>;

    open spec fn view(&self) -> Map<CardKey, Seq<ReviewEvent>> {
        assoc_map(history_pairs(self.items@))
    }
}

/// The fronts that have a history in some direction.
pub open spec fn fronts_of(m: Map<CardKey, Seq<ReviewEvent>>) -> Set<Seq<char>> {
    Set::new(|f: Seq<char>| m.contains_key((f, Goal::Forward)) || m.contains_key((f, Goal::Reverse)))
}

/// The histories of one card, in one direction (empty when there is none).
pub open spec fn card_history(l: Map<CardKey, Seq<ReviewEvent>>, front: Seq<char>, goal: Goal) -> Seq<
    ReviewEvent,
> {
    lookup(l, (front, goal))
}

/// Some string holds `f`.
pub open spec fn listed(r: Seq<String>, f: Seq<char>) -> bool {
    exists|a: int| 0 <= a < r.len() && (#[trigger] r[a])@ == f
}

spec fn front_among(p: Seq<(CardKey, Seq<ReviewEvent>)>, n: int, f: Seq<char>) -> bool {
    exists|q: int| 0 <= q < n && (#[trigger] p[q]).0.0 == f
}

struct Slot {
    front: String,
    goal: Goal,
    entries: Vec<Entry>,
}

spec fn slot_pairs(s: Seq<Slot>) -> Seq<(CardKey, Seq<Entry>)> {
    s.map_values(|x: Slot| ((x.front@, x.goal), x.entries@))
}

spec fn slots_ok(s: Seq<Slot>) -> bool {
    keys_unique(slot_pairs(s))
}

spec fn slots_map(s: Seq<Slot>) -> Map<CardKey, Seq<Entry>> {
    assoc_map(slot_pairs(s))
}

fn entry_ts_exec(e: &Entry) -> (r: i128)
    ensures
        r as int == entry_ts(*e),
{
    match e {
        Entry::Review(r) => r.ts,
        Entry::Skip { ts } => *ts,
    }
}

/// Stable sort of entries by time.
fn sort_entries(v: Vec<Entry>) -> (r: Vec<Entry>)
    ensures
        r@ == sort_by_key(v@, entry_time()),
{
    let mut r: Vec<Entry> = Vec::new();
    let mut i: usize = 0;
    while i < v.len()
        invariant
            i <= v@.len(),
            r@ == sort_by_key(v@.take(i as int), entry_time()),
        decreases v@.len() - i,
    {
        let x = v[i];
        let kx = entry_ts_exec(&x);
        let mut pos: usize = r.len();
        while pos > 0 && entry_ts_exec(&r[pos - 1]) > kx
            invariant
                pos <= r@.len(),
                kx as int == entry_ts(x),
                forall|j: int| pos <= j < r@.len() ==> entry_ts(#[trigger] r@[j]) > entry_ts(x),
            decreases pos,
        {
            pos = pos - 1;
        }
        proof {
            assert forall|j: int| pos <= j < r@.len() implies (entry_time())(#[trigger] r@[j]) > (
            entry_time())(x) by {}
            lemma_insert_at(r@, x, entry_time(), pos as int);
            assert(v@.take(i + 1).drop_last() =~= v@.take(i as int));
            assert(v@.take(i + 1).last() == x);
        }
        let ghost before = r@;
        r.insert(pos, x);
        assert(r@ =~= before.take(pos as int).push(x) + before.skip(pos as int));
        i = i + 1;
    }
    assert(v@.take(i as int) =~= v@);
    r
}

fn find_slot(slots: &Vec<Slot>, front: &str, goal: Goal) -> (r: Option<usize>)
    ensures
        match r {
            Some(i) => i < slots@.len() && slot_pairs(slots@)[i as int].0 == (front@, goal),
            None => forall|i: int| 0 <= i < slots@.len() ==> (#[trigger] slot_pairs(slots@)[i]).0 != (
            front@, goal),
        },
{
    let mut i: usize = 0;
    while i < slots.len()
        invariant
            i <= slots@.len(),
            forall|j: int| 0 <= j < i ==> (#[trigger] slot_pairs(slots@)[j]).0 != (front@, goal),
        decreases slots@.len() - i,
    {
        if slots[i].goal == goal && str_eq(slots[i].front.as_str(), front) {
            return Some(i);
        }
        i = i + 1;
    }
    None
}

/// Appends an entry to the list of one card and goal.
fn push_entry(slots: &mut Vec<Slot>, front: &str, goal: Goal, e: Entry)
    requires
        slots_ok(old(slots)@),
    ensures
        slots_ok(final(slots)@),
        slots_map(final(slots)@) == slots_map(old(slots)@).insert(
            (front@, goal),
            lookup(slots_map(old(slots)@), (front@, goal)).push(e),
        ),
{
    let ghost k = (front@, goal);
    let ghost p = slot_pairs(slots@);
    match find_slot(slots, front, goal) {
        Some(i) => {
            proof {
                lemma_assoc_char(p, k);
            }
            let mut slot = slots.remove(i);
            slot.entries.push(e);
            slots.insert(i, slot);
            proof {
                assert(slot_pairs(slots@) =~= p.update(i as int, (k, p[i as int].1.push(e))));
                lemma_assoc_update(p, i as int, p[i as int].1.push(e));
            }
        },
        None => {
            proof {
                lemma_assoc_absent(p, k);
            }
            let ghost before = slots@;
            let mut entries: Vec<Entry> = Vec::new();
            entries.push(e);
            assert(entries@ =~= seq![e]);
            slots.push(Slot { front: owned(front), goal, entries });
            proof {
                assert(slot_pairs(slots@).last() == (k, seq![e]));
                assert(slot_pairs(slots@) =~= p.push((k, seq![e])));
                assert(Seq::<Entry>::empty().push(e) =~= seq![e]);
                lemma_assoc_push(p, k, seq![e]);
            }
        },
    }
}

/// Drops the latest entry of one card and goal, if it has one.
fn pop_entry(slots: &mut Vec<Slot>, front: &str, goal: Goal)
    requires
        slots_ok(old(slots)@),
    ensures
        slots_ok(final(slots)@),
        slots_map(final(slots)@) == (if slots_map(old(slots)@).contains_key((front@, goal))
            && slots_map(old(slots)@)[(front@, goal)].len() > 0 {
            slots_map(old(slots)@).insert(
                (front@, goal),
                slots_map(old(slots)@)[(front@, goal)].drop_last(),
            )
        } else {
            slots_map(old(slots)@)
        }),
{
    let ghost k = (front@, goal);
    let ghost p = slot_pairs(slots@);
    proof {
        lemma_assoc_char(p, k);
    }
    match find_slot(slots, front, goal) {
        Some(i) => {
            if slots[i].entries.len() > 0 {
                let mut slot = slots.remove(i);
                slot.entries.pop();
                slots.insert(i, slot);
                proof {
                    assert(p[i as int].1.drop_last() =~= p[i as int].1.subrange(
                        0,
                        p[i as int].1.len() - 1,
                    ));
                    assert(slot_pairs(slots@) =~= p.update(
                        i as int,
                        (k, p[i as int].1.drop_last()),
                    ));
                    lemma_assoc_update(p, i as int, p[i as int].1.drop_last());
                }
            }
        },
        None => {},
    }
}

/// Moves the entries of `from` to `to` for one goal.
fn move_slot(slots: &mut Vec<Slot>, from: &str, to: &str, goal: Goal)
    requires
        slots_ok(old(slots)@),
    ensures
        slots_ok(final(slots)@),
        slots_map(final(slots)@) == move_goal(slots_map(old(slots)@), from@, to@, goal),
{
    let ghost p = slot_pairs(slots@);
    let ghost m = slots_map(slots@);
    proof {
        lemma_assoc_char(p, (from@, goal));
    }
    match find_slot(slots, from, goal) {
        None => {},
        Some(i) => {
            let moved = slots.remove(i);
            proof {
                assert(slot_pairs(slots@) =~= p.remove(i as int));
                lemma_assoc_remove(p, i as int);
            }
            let ghost p1 = slot_pairs(slots@);
            let ghost m1 = m.remove((from@, goal));
            assert(m1 == slots_map(slots@));
            proof {
                lemma_assoc_char(p1, (to@, goal));
            }
            let mut combined: Vec<Entry> = match find_slot(slots, to, goal) {
                Some(j) => {
                    let target = slots.remove(j);
                    proof {
                        assert(slot_pairs(slots@) =~= p1.remove(j as int));
                        lemma_assoc_remove(p1, j as int);
                    }
                    let mut c = target.entries;
                    let mut mv = moved.entries;
                    c.append(&mut mv);
                    c
                },
                None => {
                    proof {
                        assert(Seq::<Entry>::empty() + moved.entries@ =~= moved.entries@);
                    }
                    moved.entries
                },
            };
            assert(combined@ == lookup(m1, (to@, goal)) + m[(from@, goal)]);
            let sorted = sort_entries(combined);
            let ghost p2 = slot_pairs(slots@);
            proof {
                lemma_assoc_char(p2, (to@, goal));
                assert forall|q: int| 0 <= q < p2.len() implies (#[trigger] p2[q]).0 != (
                to@, goal) by {
                    if p2[q].0 == (to@, goal) {
                        assert(slots_map(slots@).contains_key((to@, goal)));
                    }
                }
            }
            let ghost before = slots@;
            slots.push(Slot { front: owned(to), goal, entries: sorted });
            proof {
                assert(slot_pairs(slots@) =~= p2.push(((to@, goal), sorted@)));
                lemma_assoc_push(p2, (to@, goal), sorted@);
                assert(slots_map(slots@) =~= m1.insert((to@, goal), sorted@));
            }
        },
    }
}

/// One row applied to the slots.
fn apply_row_exec(slots: &mut Vec<Slot>, last: &mut Option<i128>, r: &Row)
    requires
        slots_ok(old(slots)@),
    ensures
        slots_ok(final(slots)@),
        slots_map(final(slots)@) == apply_row(
            ReplayState { entries: slots_map(old(slots)@), last: *old(last) },
            r@,
        ).entries,
        *final(last) == apply_row(
            ReplayState { entries: slots_map(old(slots)@), last: *old(last) },
            r@,
        ).last,
{
    let front = r.front.as_str();
    match &r.kind {
        RowKind::Review { goal, mode, grade, elapsed_ms, .. } => {
            let e = Entry::Review(
                ReviewEvent { ts: r.ts, grade: *grade, mode: *mode, elapsed_ms: *elapsed_ms },
            );
            push_entry(slots, front, *goal, e);
            *last = Some(r.ts);
        },
        RowKind::Skip { goal, .. } => {
            push_entry(slots, front, *goal, Entry::Skip { ts: r.ts });
            *last = Some(r.ts);
        },
        RowKind::Undo { goal, .. } => {
            pop_entry(slots, front, *goal);
        },
        RowKind::Rename { to } => {
            move_slot(slots, front, to.as_str(), Goal::Forward);
            move_slot(slots, front, to.as_str(), Goal::Reverse);
        },
    }
}

spec fn picked(order: Seq<usize>, rv: Seq<RowV>) -> Seq<RowV> {
    order.map_values(|j: usize| rv[j as int])
}

/// Indexes of the rows in time order (stable).
fn time_order_indexes(rows: &[Row]) -> (order: Vec<usize>)
    ensures
        order@.len() == rows@.len(),
        forall|k: int| 0 <= k < order@.len() ==> (#[trigger] order@[k]) < rows@.len(),
        picked(order@, rows_view(rows@)) == time_order(rows_view(rows@)),
{
    let ghost rv = rows_view(rows@);
    let mut order: Vec<usize> = Vec::new();
    let mut i: usize = 0;
    while i < rows.len()
        invariant
            i <= rows@.len(),
            rv == rows_view(rows@),
            order@.len() == i,
            forall|k: int| 0 <= k < order@.len() ==> (#[trigger] order@[k]) < i,
            picked(order@, rv) == sort_by_key(rv.take(i as int), row_time()),
        decreases rows@.len() - i,
    {
        let ts = rows[i].ts;
        let mut pos: usize = order.len();
        while pos > 0 && rows[order[pos - 1]].ts > ts
            invariant
                pos <= order@.len(),
                i < rows@.len(),
                rv == rows_view(rows@),
                ts == rows@[i as int].ts,
                forall|k: int| 0 <= k < order@.len() ==> (#[trigger] order@[k]) < i,
                forall|j: int| pos <= j < order@.len() ==> (#[trigger] picked(order@, rv)[j]).ts > ts,
            decreases pos,
        {
            assert(picked(order@, rv)[pos - 1] == rv[order@[pos - 1] as int]);
            pos = pos - 1;
        }
        let ghost s = picked(order@, rv);
        let ghost x = rv[i as int];
        proof {
            assert(x == rows@[i as int]@);
            assert forall|j: int| pos <= j < s.len() implies (row_time())(#[trigger] s[j]) > (
            row_time())(x) by {}
            if pos > 0 {
                assert(s[pos - 1] == rv[order@[pos - 1] as int]);
            }
            lemma_insert_at(s, x, row_time(), pos as int);
            assert(rv.take(i + 1).drop_last() =~= rv.take(i as int));
            assert(rv.take(i + 1).last() == x);
        }
        order.insert(pos, i);
        proof {
            assert(picked(order@, rv) =~= s.take(pos as int).push(x) + s.skip(pos as int));
        }
        i = i + 1;
    }
    assert(rv.take(i as int) =~= rv);
    order
}

/// The reviews among some entries.
fn reviews_of(es: &Vec<Entry>) -> (r: Vec<ReviewEvent>)
    ensures
        r@ == reviews_in(es@),
{
    let mut r: Vec<ReviewEvent> = Vec::new();
    let mut i: usize = 0;
    while i < es.len()
        invariant
            i <= es@.len(),
            r@ == reviews_in(es@.take(i as int)),
        decreases es@.len() - i,
    {
        proof {
            assert(es@.take(i + 1).drop_last() =~= es@.take(i as int));
            assert(es@.take(i + 1).last() == es@[i as int]);
        }
        match es[i] {
            Entry::Review(ev) => r.push(ev),
            Entry::Skip { .. } => {},
        }
        i = i + 1;
    }
    assert(es@.take(i as int) =~= es@);
    r
}

/// The histories of an association list of entries, pair by pair.
spec fn history_list(s: Seq<(CardKey, Seq<Entry>)>) -> Seq<(CardKey, Seq<ReviewEvent>)>
    decreases s.len(),
{
    if s.len() == 0 {
        Seq::empty()
    } else {
        let rest = history_list(s.drop_last());
        let r = reviews_in(s.last().1);
        if r.len() > 0 {
            rest.push((s.last().0, r))
        } else {
            rest
        }
    }
}

proof fn lemma_history_list(s: Seq<(CardKey, Seq<Entry>)>)
    requires
        keys_unique(s),
    ensures
        keys_unique(history_list(s)),
        assoc_map(history_list(s)) == histories(assoc_map(s)),
        forall|i: int| 0 <= i < history_list(s).len() ==> (#[trigger] history_list(s)[i]).1.len() > 0,
        forall|i: int|
            0 <= i < history_list(s).len() ==> exists|j: int|
                0 <= j < s.len() && (#[trigger] s[j]).0 == (#[trigger] history_list(s)[i]).0,
    decreases s.len(),
{
    if s.len() == 0 {
        assert(histories(assoc_map(s)) =~= Map::empty());
    } else {
        let d = s.drop_last();
        crate::assoc::lemma_unique_drop_last(s);
        lemma_history_list(d);
        let rest = history_list(d);
        let k = s.last().0;
        let r = reviews_in(s.last().1);
        assert forall|i: int| 0 <= i < d.len() implies (#[trigger] d[i]).0 != k by {
            assert(d[i] == s[i]);
            assert(s[s.len() - 1].0 == k);
        }
        lemma_assoc_absent(d, k);
        assert forall|i: int| 0 <= i < rest.len() implies (#[trigger] rest[i]).0 != k by {
            let j = choose|j: int| 0 <= j < d.len() && (#[trigger] d[j]).0 == rest[i].0;
        }
        lemma_assoc_absent(rest, k);
        let hd = histories(assoc_map(d));
        if r.len() > 0 {
            lemma_assoc_push(rest, k, r);
            assert(histories(assoc_map(s)) =~= hd.insert(k, r));
            let h = history_list(s);
            assert forall|i: int| 0 <= i < h.len() implies exists|j: int|
                0 <= j < s.len() && (#[trigger] s[j]).0 == (#[trigger] h[i]).0 by {
                if i < rest.len() {
                    assert(h[i] == rest[i]);
                    let j = choose|j: int| 0 <= j < d.len() && (#[trigger] d[j]).0 == rest[i].0;
                    assert(s[j] == d[j]);
                } else {
                    assert(s[s.len() - 1].0 == h[i].0);
                }
            }
        } else {
            assert(histories(assoc_map(s)) =~= hd);
            let h = history_list(s);
            assert forall|i: int| 0 <= i < h.len() implies exists|j: int|
                0 <= j < s.len() && (#[trigger] s[j]).0 == (#[trigger] h[i]).0 by {
                let j = choose|j: int| 0 <= j < d.len() && (#[trigger] d[j]).0 == rest[i].0;
                assert(s[j] == d[j]);
            }
        }
    }
}

impl Default for Ledger {
    fn default() -> (l: Ledger)
        ensures
            l.wf(),
            l@ == Map::<CardKey, Seq<ReviewEvent>>::empty(),
            l.last_activity is None,
    {
        Ledger::empty()
    }
}

impl Ledger {
    /// Keys occur once, and every history holds at least one review.
    pub open spec fn wf(&self) -> bool {
        &&& keys_unique(history_pairs(self.items@))
        &&& forall|i: int| 0 <= i < self.items@.len() ==> (#[trigger] self.items@[i]).reviews@.len() > 0
    }

    /// An empty ledger.
    pub fn empty() -> (l: Ledger)
        ensures
            l.wf(),
            l@ == Map::<CardKey, Seq<ReviewEvent>>::empty(),
            l.last_activity is None,
    {
        let l = Ledger { items: Vec::new(), last_activity: None };
        assert(history_pairs(l.items@) =~= Seq::empty());
        assert(l@ =~= Map::<CardKey, Seq<ReviewEvent>>::empty());
        l
    }

    /// Replays a deck's log rows. Logs merged from two devices can
    /// interleave out of order, so rows are taken in time order.
    pub fn replay(rows: &[Row]) -> (l: Ledger)
        ensures
            l.wf(),
            l@ == histories(spec_replay(rows_view(rows@)).entries),
            l.last_activity == spec_replay(rows_view(rows@)).last,
    {
        let ghost rv = rows_view(rows@);
        let ghost sorted = time_order(rv);
        let order = time_order_indexes(rows);
        let mut slots: Vec<Slot> = Vec::new();
        let mut last: Option<i128> = None;
        assert(slot_pairs(slots@) =~= Seq::empty());
        assert(slots_map(slots@) =~= replay_rows(sorted.take(0)).entries);
        let mut k: usize = 0;
        while k < order.len()
            invariant
                k <= order@.len(),
                order@.len() == rows@.len(),
                forall|q: int| 0 <= q < order@.len() ==> (#[trigger] order@[q]) < rows@.len(),
                rv == rows_view(rows@),
                sorted == time_order(rv),
                picked(order@, rv) == sorted,
                slots_ok(slots@),
                slots_map(slots@) == replay_rows(sorted.take(k as int)).entries,
                last == replay_rows(sorted.take(k as int)).last,
            decreases order@.len() - k,
        {
            let j = order[k];
            proof {
                assert(sorted[k as int] == picked(order@, rv)[k as int]);
                assert(sorted[k as int] == rows@[j as int]@);
                assert(sorted.take(k + 1).drop_last() =~= sorted.take(k as int));
                assert(sorted.take(k + 1).last() == sorted[k as int]);
            }
            apply_row_exec(&mut slots, &mut last, &rows[j]);
            k = k + 1;
        }
        proof {
            assert(sorted.len() == rows@.len());
            assert(sorted.take(k as int) =~= sorted);
        }
        let ghost sp = slot_pairs(slots@);
        let mut items: Vec<History> = Vec::new();
        let mut i: usize = 0;
        assert(history_pairs(items@) =~= history_list(sp.take(0)));
        while i < slots.len()
            invariant
                i <= slots@.len(),
                sp == slot_pairs(slots@),
                history_pairs(items@) == history_list(sp.take(i as int)),
            decreases slots@.len() - i,
        {
            let revs = reviews_of(&slots[i].entries);
            proof {
                assert(sp.take(i + 1).drop_last() =~= sp.take(i as int));
                assert(sp.take(i + 1).last() == sp[i as int]);
            }
            if revs.len() > 0 {
                let h = History { front: owned(slots[i].front.as_str()), goal: slots[i].goal, reviews: revs };
                items.push(h);
                assert(history_pairs(items@) =~= history_list(sp.take(i + 1)));
            }
            i = i + 1;
        }
        proof {
            assert(sp.take(i as int) =~= sp);
            lemma_history_list(sp);
        }
        let l = Ledger { items, last_activity: last };
        proof {
            assert forall|q: int| 0 <= q < l.items@.len() implies (#[trigger] l.items@[q]).reviews@.len() > 0 by {
                assert(history_pairs(l.items@)[q].1 == l.items@[q].reviews@);
            }
        }
        l
    }

    /// The surviving reviews of one card in one direction, oldest first.
    pub fn reviews(&self, front: &str, goal: Goal) -> (r: &[ReviewEvent])
        requires
            self.wf(),
        ensures
            r@ == card_history(self@, front@, goal),
    {
        let ghost p = history_pairs(self.items@);
        proof {
            lemma_assoc_char(p, (front@, goal));
        }
        let mut i: usize = 0;
        while i < self.items.len()
            invariant
                i <= self.items@.len(),
                p == history_pairs(self.items@),
                self.wf(),
                forall|j: int| 0 <= j < i ==> (#[trigger] p[j]).0 != (front@, goal),
            decreases self.items@.len() - i,
        {
            if self.items[i].goal == goal && str_eq(self.items[i].front.as_str(), front) {
                assert(p[i as int].0 == (front@, goal));
                proof {
                    lemma_assoc_char(p, (front@, goal));
                }
                assert(p[i as int].1 == self.items@[i as int].reviews@);
                assert(self@[(front@, goal)] == p[i as int].1);
                return self.items[i].reviews.as_slice();
            }
            i = i + 1;
        }
        let empty: &[ReviewEvent] = &[];
        assert(empty@ =~= Seq::<ReviewEvent>::empty());
        empty
    }

    /// Fronts with surviving reviews, each once, for orphan detection.
    pub fn fronts(&self) -> (r: Vec<String>)
        requires
            self.wf(),
        ensures
            forall|i: int, j: int| 0 <= i < j < r@.len() ==> (#[trigger] r@[i])@ != (#[trigger] r@[j])@,
            forall|f: Seq<char>| fronts_of(self@).contains(f) <==> #[trigger] listed(r@, f),
    {
        let ghost p = history_pairs(self.items@);
        let mut r: Vec<String> = Vec::new();
        let mut i: usize = 0;
        while i < self.items.len()
            invariant
                i <= self.items@.len(),
                p == history_pairs(self.items@),
                forall|a: int, b: int| 0 <= a < b < r@.len() ==> (#[trigger] r@[a])@ != (#[trigger] r@[b])@,
                forall|f: Seq<char>| #![trigger front_among(p, i as int, f)] #![trigger listed(r@, f)]
                    front_among(p, i as int, f) <==> listed(r@, f),
            decreases self.items@.len() - i,
        {
            let front = self.items[i].front.as_str();
            assert(p[i as int].0.0 == front@);
            let mut seen = false;
            let mut j: usize = 0;
            while j < r.len()
                invariant
                    j <= r@.len(),
                    !seen ==> forall|a: int| 0 <= a < j ==> (#[trigger] r@[a])@ != front@,
                    seen ==> listed(r@, front@),
                decreases r@.len() - j,
            {
                if str_eq(r[j].as_str(), front) {
                    seen = true;
                }
                j = j + 1;
            }
            let ghost before = r@;
            if !seen {
                r.push(owned(front));
                assert(r@[r@.len() - 1]@ == front@);
                assert forall|f: Seq<char>| #![trigger front_among(p, i + 1, f)] #![trigger listed(r@, f)]
                    front_among(p, i + 1, f) <==> listed(r@, f) by {
                    if front_among(p, i + 1, f) {
                        let q = choose|q: int| 0 <= q < i + 1 && (#[trigger] p[q]).0.0 == f;
                        if q < i {
                            assert(front_among(p, i as int, f));
                            assert(listed(before, f));
                            let a = choose|a: int| 0 <= a < before.len() && (#[trigger] before[a])@ == f;
                            assert(r@[a] == before[a]);
                        } else {
                            assert(r@[r@.len() - 1]@ == f);
                        }
                    }
                    if listed(r@, f) {
                        let a = choose|a: int| 0 <= a < r@.len() && (#[trigger] r@[a])@ == f;
                        if a < before.len() {
                            assert(before[a] == r@[a]);
                            assert(listed(before, f));
                            assert(front_among(p, i as int, f));
                            let q = choose|q: int| 0 <= q < i && (#[trigger] p[q]).0.0 == f;
                        } else {
                            assert(p[i as int].0.0 == f);
                        }
                    }
                }
                assert forall|a: int, b: int| 0 <= a < b < r@.len() implies (#[trigger] r@[a])@ != (
                #[trigger] r@[b])@ by {
                    if b == r@.len() - 1 {
                        assert(r@[a] == before[a]);
                    } else {
                        assert(r@[a] == before[a] && r@[b] == before[b]);
                    }
                }
            } else {
                assert forall|f: Seq<char>| #![trigger front_among(p, i + 1, f)] #![trigger listed(r@, f)]
                    front_among(p, i + 1, f) <==> listed(r@, f) by {
                    if front_among(p, i + 1, f) {
                        let q = choose|q: int| 0 <= q < i + 1 && (#[trigger] p[q]).0.0 == f;
                        if q < i {
                            assert(front_among(p, i as int, f));
                        }
                    }
                    if listed(r@, f) {
                        assert(front_among(p, i as int, f));
                        let q = choose|q: int| 0 <= q < i && (#[trigger] p[q]).0.0 == f;
                    }
                }
            }
            i = i + 1;
        }
        proof {
            assert forall|f: Seq<char>| fronts_of(self@).contains(f) <==> #[trigger] listed(r@, f) by {
                lemma_assoc_char(p, (f, Goal::Forward));
                lemma_assoc_char(p, (f, Goal::Reverse));
                if front_among(p, i as int, f) {
                    let q = choose|q: int| 0 <= q < i && (#[trigger] p[q]).0.0 == f;
                    if p[q].0.1 == Goal::Forward {
                        assert(p[q].0 == (f, Goal::Forward));
                    } else {
                        assert(p[q].0 == (f, Goal::Reverse));
                    }
                }
                if self@.contains_key((f, Goal::Forward)) {
                    let q = choose|q: int| 0 <= q < p.len() && (#[trigger] p[q]).0 == (f, Goal::Forward);
                    assert(p[q].0.0 == f);
                    assert(front_among(p, i as int, f));
                }
                if self@.contains_key((f, Goal::Reverse)) {
                    let q = choose|q: int| 0 <= q < p.len() && (#[trigger] p[q]).0 == (f, Goal::Reverse);
                    assert(p[q].0.0 == f);
                    assert(front_among(p, i as int, f));
                }
            }
        }
        r
    }

    /// Every card and goal with surviving reviews, in no particular order.
    pub fn iter(&self) -> (r: &[History])
        requires
            self.wf(),
        ensures
            keys_unique(history_pairs(r@)),
            assoc_map(history_pairs(r@)) == self@,
            forall|i: int| 0 <= i < r@.len() ==> (#[trigger] r@[i]).reviews@.len() > 0,
    {
        self.items.as_slice()
    }
}


proof fn lemma_replay_push(rows: Seq<RowV>, x: RowV)
    ensures
        replay_rows(rows.push(x)) == apply_row(replay_rows(rows), x),
{
    assert(rows.push(x).drop_last() =~= rows);
}

proof fn lemma_time_order_push(rows: Seq<RowV>, x: RowV)
    requires
        keys_at_most(rows, row_time(), x.ts as int),
    ensures
        time_order(rows.push(x)) == time_order(rows).push(x),
{
    lemma_sort_push_latest(rows, x, row_time());
}

proof fn lemma_latest_push(rows: Seq<RowV>, x: RowV, y: RowV)
    requires
        keys_at_most(rows, row_time(), x.ts as int),
        x.ts <= y.ts,
    ensures
        keys_at_most(rows.push(x), row_time(), y.ts as int),
{
    assert forall|i: int| 0 <= i < rows.push(x).len() implies (row_time())(
    #[trigger] rows.push(x)[i]) <= y.ts as int by {
        if i < rows.len() {
            assert(rows.push(x)[i] == rows[i]);
        }
    }
}

proof fn lemma_reviews_push(es: Seq<Entry>, e: Entry)
    ensures
        reviews_in(es.push(e)) == (match e {
            Entry::Review(r) => reviews_in(es).push(r),
            Entry::Skip { .. } => reviews_in(es),
        }),
{
    assert(es.push(e).drop_last() =~= es);
}

proof fn lemma_reviews_empty()
    ensures
        reviews_in(Seq::<Entry>::empty()) == Seq::<ReviewEvent>::empty(),
{
}

/// The history of a card, read through the entries it was built from.
proof fn lemma_lookup_histories(m: Map<CardKey, Seq<Entry>>, k: CardKey)
    ensures
        lookup(histories(m), k) == reviews_in(lookup(m, k)),
{
    lemma_reviews_empty();
    if m.contains_key(k) && reviews_in(m[k]).len() == 0 {
        assert(reviews_in(m[k]) =~= Seq::<ReviewEvent>::empty());
    }
}

/// An undo row right after a review of the same card and goal leaves every
/// history as it was before the review.
pub proof fn lemma_undo_cancels_review(rows: Seq<RowV>, review: RowV, undo: RowV)
    requires
        review.kind is Review,
        undo.kind is Undo,
        undo.front == review.front,
        undo.kind->Undo_goal == review.kind->Review_goal,
        keys_at_most(rows, row_time(), review.ts as int),
        review.ts <= undo.ts,
    ensures
        histories(spec_replay(rows.push(review).push(undo)).entries) == histories(
            spec_replay(rows).entries,
        ),
{
    lemma_time_order_push(rows, review);
    lemma_latest_push(rows, review, undo);
    lemma_time_order_push(rows.push(review), undo);
    let t = time_order(rows);
    lemma_replay_push(t, review);
    lemma_replay_push(t.push(review), undo);
    let s = replay_rows(t).entries;
    let k = (review.front, review.kind->Review_goal);
    let s1 = apply_row(replay_rows(t), review).entries;
    let l = lookup(s, k);
    assert(s1.contains_key(k) && s1[k].len() == l.len() + 1);
    assert(s1[k].drop_last() =~= l);
    let m2 = apply_row(apply_row(replay_rows(t), review), undo).entries;
    assert(m2 =~= s.insert(k, l));
    lemma_reviews_empty();
    assert(histories(m2) =~= histories(s));
}

/// A review row, the latest in the log, adds its review to the end of its
/// card and goal's history and changes no other history; it is the latest
/// activity.
pub proof fn lemma_review_appends(rows: Seq<RowV>, review: RowV)
    requires
        review.kind is Review,
        keys_at_most(rows, row_time(), review.ts as int),
    ensures
        ({
            let before = histories(spec_replay(rows).entries);
            let after = histories(spec_replay(rows.push(review)).entries);
            let k = (review.front, review.kind->Review_goal);
            &&& lookup(after, k) == lookup(before, k).push(
                ReviewEvent {
                    ts: review.ts,
                    grade: review.kind->Review_grade,
                    mode: review.kind->Review_mode,
                    elapsed_ms: review.kind->Review_elapsed_ms,
                },
            )
            &&& forall|j: CardKey| j != k ==> #[trigger] lookup(after, j) == lookup(before, j)
            &&& spec_replay(rows.push(review)).last == Some(review.ts)
        }),
{
    lemma_time_order_push(rows, review);
    let t = time_order(rows);
    lemma_replay_push(t, review);
    let s = replay_rows(t).entries;
    let s1 = apply_row(replay_rows(t), review).entries;
    let k = (review.front, review.kind->Review_goal);
    let ev = ReviewEvent {
        ts: review.ts,
        grade: review.kind->Review_grade,
        mode: review.kind->Review_mode,
        elapsed_ms: review.kind->Review_elapsed_ms,
    };
    lemma_reviews_push(lookup(s, k), Entry::Review(ev));
    lemma_lookup_histories(s, k);
    lemma_lookup_histories(s1, k);
    assert forall|j: CardKey| j != k implies #[trigger] lookup(histories(s1), j) == lookup(histories(s), j) by {
        lemma_lookup_histories(s, j);
        lemma_lookup_histories(s1, j);
    }
}

/// A skip row is never study history: the histories after it are those
/// before it.
pub proof fn lemma_skip_leaves_histories(rows: Seq<RowV>, skip: RowV)
    requires
        skip.kind is Skip,
        keys_at_most(rows, row_time(), skip.ts as int),
    ensures
        histories(spec_replay(rows.push(skip)).entries) == histories(spec_replay(rows).entries),
        spec_replay(rows.push(skip)).last == Some(skip.ts),
{
    lemma_time_order_push(rows, skip);
    let t = time_order(rows);
    lemma_replay_push(t, skip);
    let s = replay_rows(t).entries;
    let k = (skip.front, skip.kind->Skip_goal);
    lemma_reviews_push(lookup(s, k), Entry::Skip { ts: skip.ts });
    lemma_reviews_empty();
    assert(histories(apply_row(replay_rows(t), skip).entries) =~= histories(s));
}

proof fn lemma_reviews_concat(a: Seq<Entry>, b: Seq<Entry>)
    ensures
        reviews_in(a + b) == reviews_in(a) + reviews_in(b),
    decreases b.len(),
{
    if b.len() == 0 {
        assert(a + b =~= a);
        assert(reviews_in(a) + reviews_in(b) =~= reviews_in(a));
    } else {
        lemma_reviews_concat(a, b.drop_last());
        assert((a + b).drop_last() =~= a + b.drop_last());
        assert((a + b).last() == b.last());
        match b.last() {
            Entry::Review(r) => {
                assert((reviews_in(a) + reviews_in(b.drop_last())).push(r) =~= reviews_in(a)
                    + reviews_in(b.drop_last()).push(r));
            },
            Entry::Skip { .. } => {},
        }
    }
}

/// The reviews among some entries, counted without regard to order.
pub open spec fn review_bag(es: Seq<Entry>) -> Multiset<ReviewEvent> {
    reviews_in(es).to_multiset()
}

proof fn lemma_bag_push(es: Seq<Entry>, e: Entry)
    ensures
        review_bag(es.push(e)) == (match e {
            Entry::Review(r) => review_bag(es).insert(r),
            Entry::Skip { .. } => review_bag(es),
        }),
{
    broadcast use vstd::seq_lib::group_to_multiset_ensures;

    lemma_reviews_push(es, e);
}

proof fn lemma_bag_insert(s: Seq<Entry>, x: Entry)
    ensures
        review_bag(insert_sorted(s, x, entry_time())) == review_bag(s.push(x)),
    decreases s.len(),
{
    broadcast use vstd::seq_lib::group_to_multiset_ensures;

    let key = entry_time();
    if s.len() == 0 || key(s.last()) <= key(x) {
    } else {
        let d = s.drop_last();
        lemma_bag_insert(d, x);
        lemma_bag_push(insert_sorted(d, x, key), s.last());
        lemma_bag_push(d.push(x), s.last());
        lemma_bag_push(d, x);
        lemma_bag_push(d, s.last());
        lemma_bag_push(d.push(s.last()), x);
        assert(d.push(s.last()) =~= s);
        match x {
            Entry::Review(rx) => match s.last() {
                Entry::Review(rl) => {
                    assert(review_bag(d).insert(rx).insert(rl) =~= review_bag(d).insert(rl).insert(
                        rx,
                    ));
                },
                Entry::Skip { .. } => {},
            },
            Entry::Skip { .. } => {},
        }
    }
}

/// Sorting entries by time keeps the reviews among them.
pub proof fn lemma_bag_sort(s: Seq<Entry>)
    ensures
        review_bag(sort_by_key(s, entry_time())) == review_bag(s),
    decreases s.len(),
{
    if s.len() > 0 {
        let d = s.drop_last();
        lemma_bag_sort(d);
        lemma_bag_insert(sort_by_key(d, entry_time()), s.last());
        lemma_bag_push(sort_by_key(d, entry_time()), s.last());
        lemma_bag_push(d, s.last());
        assert(d.push(s.last()) =~= s);
    }
}

proof fn lemma_bag_concat(a: Seq<Entry>, b: Seq<Entry>)
    ensures
        review_bag(a + b) == review_bag(a).add(review_bag(b)),
{
    lemma_reviews_concat(a, b);
    vstd::seq_lib::lemma_multiset_commutative(reviews_in(a), reviews_in(b));
}

/// A rename row moves the whole history of the old front, in both
/// directions, onto the new front, merged with whatever the new front had;
/// the old front keeps none, no other card changes, and it is no study.
pub proof fn lemma_rename_moves_history(rows: Seq<RowV>, rename: RowV, g: Goal)
    requires
        rename.kind is Rename,
        rename.front != rename.kind->Rename_to,
        keys_at_most(rows, row_time(), rename.ts as int),
    ensures
        ({
            let before = spec_replay(rows);
            let after = spec_replay(rows.push(rename));
            let (from, to) = (rename.front, rename.kind->Rename_to);
            &&& !histories(after.entries).contains_key((from, g))
            &&& lookup(histories(after.entries), (to, g)).to_multiset() == lookup(
                histories(before.entries),
                (to, g),
            ).to_multiset().add(lookup(histories(before.entries), (from, g)).to_multiset())
            &&& forall|k: CardKey|
                k.0 != from && k.0 != to ==> #[trigger] lookup(histories(after.entries), k)
                    == lookup(histories(before.entries), k)
            &&& after.last == before.last
        }),
{
    lemma_time_order_push(rows, rename);
    let t = time_order(rows);
    lemma_replay_push(t, rename);
    let from = rename.front;
    let to = rename.kind->Rename_to;
    let m = replay_rows(t).entries;
    let m1 = move_goal(m, from, to, Goal::Forward);
    let m2 = move_goal(m1, from, to, Goal::Reverse);
    assert(spec_replay(rows.push(rename)).entries == m2);
    // The move for the other goal leaves this goal's keys alone.
    let other = match g {
        Goal::Forward => Goal::Reverse,
        Goal::Reverse => Goal::Forward,
    };
    let mg = move_goal(m, from, to, g);
    assert forall|k: CardKey| k.1 == g implies #[trigger] lookup(m2, k) == lookup(mg, k) by {
        if g == Goal::Forward {
        } else {
        }
    }
    assert forall|k: CardKey| k.0 != from && k.0 != to implies #[trigger] lookup(m2, k) == lookup(
        m,
        k,
    ) by {}
    // This goal's keys.
    lemma_reviews_empty();
    if m.contains_key((from, g)) {
        let rest = m.remove((from, g));
        let merged = lookup(rest, (to, g)) + m[(from, g)];
        assert(lookup(rest, (to, g)) == lookup(m, (to, g)));
        lemma_bag_sort(merged);
        lemma_bag_concat(lookup(m, (to, g)), m[(from, g)]);
        assert(lookup(m2, (to, g)) == sort_by_key(merged, entry_time()));
    } else {
        assert(lookup(m, (from, g)) =~= Seq::<Entry>::empty());
        assert(reviews_in(lookup(m, (from, g))).to_multiset() =~= Multiset::empty()) by {
            broadcast use vstd::seq_lib::group_to_multiset_ensures;
        }
        assert(lookup(m2, (to, g)) == lookup(m, (to, g)));
        assert(review_bag(lookup(m, (to, g))).add(Multiset::empty()) =~= review_bag(
            lookup(m, (to, g)),
        ));
    }
    lemma_lookup_histories(m2, (to, g));
    lemma_lookup_histories(m, (to, g));
    lemma_lookup_histories(m, (from, g));
    assert forall|k: CardKey| k.0 != from && k.0 != to implies #[trigger] lookup(
        histories(m2),
        k,
    ) == lookup(histories(m), k) by {
        lemma_lookup_histories(m2, k);
        lemma_lookup_histories(m, k);
    }
    assert(!m2.contains_key((from, g)));
}


/// A log replays to the same ledger whatever order its rows stand in, as
/// long as no two rows share a time: logs merged line by line from two
/// machines need no reordering.
pub proof fn lemma_replay_order_free(a: Seq<RowV>, b: Seq<RowV>)
    requires
        a.to_multiset() == b.to_multiset(),
        distinct_keys(a, row_time()),
    ensures
        spec_replay(a) == spec_replay(b),
{
    lemma_sort_sorted(a, row_time());
    lemma_sort_sorted(b, row_time());
    lemma_sort_multiset(a, row_time());
    lemma_sort_multiset(b, row_time());
    lemma_distinct_keys_multiset(a, row_time());
    lemma_sorted_unique(time_order(a), time_order(b), row_time());
}

/// An undo row, like a rename row, is bookkeeping and no study: the time
/// of the latest activity stays what it was.
pub proof fn lemma_undo_is_no_study(rows: Seq<RowV>, undo: RowV)
    requires
        undo.kind is Undo,
        keys_at_most(rows, row_time(), undo.ts as int),
    ensures
        spec_replay(rows.push(undo)).last == spec_replay(rows).last,
{
    lemma_time_order_push(rows, undo);
    lemma_replay_push(time_order(rows), undo);
}

/// `fronts` and `iter` agree: a front is listed exactly when some history
/// of it is reported.
pub proof fn lemma_fronts_agree_with_iter(hs: Seq<History>, f: Seq<char>)
    requires
        keys_unique(history_pairs(hs)),
    ensures
        fronts_of(assoc_map(history_pairs(hs))).contains(f) <==> exists|i: int|
            0 <= i < hs.len() && (#[trigger] hs[i]).front@ == f,
{
    let p = history_pairs(hs);
    lemma_assoc_char(p, (f, Goal::Forward));
    lemma_assoc_char(p, (f, Goal::Reverse));
    if exists|i: int| 0 <= i < hs.len() && (#[trigger] hs[i]).front@ == f {
        let i = choose|i: int| 0 <= i < hs.len() && (#[trigger] hs[i]).front@ == f;
        assert(p[i].0 == (f, hs[i].goal));
        match hs[i].goal {
            Goal::Forward => assert(assoc_map(p).contains_key((f, Goal::Forward))),
            Goal::Reverse => assert(assoc_map(p).contains_key((f, Goal::Reverse))),
        }
    }
    if fronts_of(assoc_map(p)).contains(f) {
        if assoc_map(p).contains_key((f, Goal::Forward)) {
            let i = choose|i: int| 0 <= i < p.len() && (#[trigger] p[i]).0 == (f, Goal::Forward);
            assert(hs[i].front@ == f);
        } else {
            let i = choose|i: int| 0 <= i < p.len() && (#[trigger] p[i]).0 == (f, Goal::Reverse);
            assert(hs[i].front@ == f);
        }
    }
}

/// Every card's entries are in time order, none later than `t`.
pub open spec fn entries_in_order(m: Map<CardKey, Seq<Entry>>, t: int) -> bool {
    forall|k: CardKey|
        #![trigger m[k]]
        m.contains_key(k) ==> sorted_by(m[k], entry_time()) && keys_at_most(m[k], entry_time(), t)
}

proof fn lemma_order_relax(m: Map<CardKey, Seq<Entry>>, t: int, u: int)
    requires
        entries_in_order(m, t),
        t <= u,
    ensures
        entries_in_order(m, u),
{
}

proof fn lemma_push_in_order(es: Seq<Entry>, e: Entry)
    requires
        sorted_by(es, entry_time()),
        keys_at_most(es, entry_time(), entry_ts(e)),
    ensures
        sorted_by(es.push(e), entry_time()),
        keys_at_most(es.push(e), entry_time(), entry_ts(e)),
{
    let p = es.push(e);
    assert forall|i: int, j: int| 0 <= i <= j < p.len() implies (entry_time())(#[trigger] p[i]) <= (entry_time())(
        #[trigger] p[j]) by {
        if j < es.len() {
            assert(p[i] == es[i] && p[j] == es[j]);
        } else if i < es.len() {
            assert(p[i] == es[i]);
        }
    }
    assert forall|i: int| 0 <= i < p.len() implies (entry_time())(#[trigger] p[i]) <= entry_ts(e) by {
        if i < es.len() {
            assert(p[i] == es[i]);
        }
    }
}

proof fn lemma_move_in_order(m: Map<CardKey, Seq<Entry>>, from: Seq<char>, to: Seq<char>, g: Goal, t: int)
    requires
        entries_in_order(m, t),
    ensures
        entries_in_order(move_goal(m, from, to, g), t),
{
    broadcast use vstd::seq_lib::group_to_multiset_ensures;

    if m.contains_key((from, g)) {
        let rest = m.remove((from, g));
        let merged = lookup(rest, (to, g)) + m[(from, g)];
        let srt = sort_by_key(merged, entry_time());
        lemma_sort_sorted(merged, entry_time());
        lemma_sort_multiset(merged, entry_time());
        assert forall|i: int| 0 <= i < srt.len() implies (entry_time())(#[trigger] srt[i]) <= t by {
            assert(srt.contains(srt[i]));
            assert(merged.to_multiset().count(srt[i]) > 0);
            assert(merged.contains(srt[i]));
            let j = choose|j: int| 0 <= j < merged.len() && merged[j] == srt[i];
            if j < lookup(rest, (to, g)).len() {
                assert(merged[j] == rest[(to, g)][j]);
                assert(m[(to, g)][j] == rest[(to, g)][j]);
            } else {
                assert(merged[j] == m[(from, g)][j - lookup(rest, (to, g)).len()]);
            }
        }
        let out = move_goal(m, from, to, g);
        assert forall|k: CardKey| #![trigger out[k]] out.contains_key(k) implies sorted_by(out[k], entry_time())
            && keys_at_most(out[k], entry_time(), t) by {
            if k != (to, g) {
                assert(out[k] == m[k]);
            }
        }
    }
}

proof fn lemma_apply_in_order(st: ReplayState, x: RowV)
    requires
        entries_in_order(st.entries, x.ts as int),
    ensures
        entries_in_order(apply_row(st, x).entries, x.ts as int),
{
    let m = st.entries;
    match x.kind {
        RowKindV::Review { goal, mode, grade, elapsed_ms, .. } => {
            let k = (x.front, goal);
            let e = Entry::Review(ReviewEvent { ts: x.ts, grade, mode, elapsed_ms });
            if !m.contains_key(k) {
                assert(lookup(m, k) =~= Seq::<Entry>::empty());
            }
            lemma_push_in_order(lookup(m, k), e);
        },
        RowKindV::Skip { goal, .. } => {
            let k = (x.front, goal);
            let e = Entry::Skip { ts: x.ts };
            if !m.contains_key(k) {
                assert(lookup(m, k) =~= Seq::<Entry>::empty());
            }
            lemma_push_in_order(lookup(m, k), e);
        },
        RowKindV::Undo { goal, .. } => {
            let k = (x.front, goal);
            if m.contains_key(k) && m[k].len() > 0 {
                let d = m[k].drop_last();
                assert forall|i: int, j: int| 0 <= i <= j < d.len() implies (entry_time())(#[trigger] d[i])
                    <= (entry_time())(#[trigger] d[j]) by {
                    assert(d[i] == m[k][i] && d[j] == m[k][j]);
                }
                assert forall|i: int| 0 <= i < d.len() implies (entry_time())(#[trigger] d[i]) <= x.ts by {
                    assert(d[i] == m[k][i]);
                }
            }
        },
        RowKindV::Rename { to } => {
            lemma_move_in_order(m, x.front, to, Goal::Forward, x.ts as int);
            lemma_move_in_order(move_goal(m, x.front, to, Goal::Forward), x.front, to, Goal::Reverse, x.ts as int);
        },
    }
}

proof fn lemma_replay_in_order(s: Seq<RowV>, t: int)
    requires
        sorted_by(s, row_time()),
        keys_at_most(s, row_time(), t),
    ensures
        entries_in_order(replay_rows(s).entries, t),
    decreases s.len(),
{
    if s.len() > 0 {
        let d = s.drop_last();
        let x = s.last();
        assert(sorted_by(d, row_time())) by {
            assert forall|i: int, j: int| 0 <= i <= j < d.len() implies (row_time())(#[trigger] d[i]) <= (row_time())(
                #[trigger] d[j]) by {
                assert(d[i] == s[i] && d[j] == s[j]);
            }
        }
        assert(keys_at_most(d, row_time(), x.ts as int)) by {
            assert forall|i: int| 0 <= i < d.len() implies (row_time())(#[trigger] d[i]) <= x.ts as int by {
                assert(d[i] == s[i]);
                assert((row_time())(s[i]) <= (row_time())(s[s.len() - 1]));
            }
        }
        lemma_replay_in_order(d, x.ts as int);
        lemma_replay_push(d, x);
        assert(d.push(x) =~= s);
        lemma_apply_in_order(replay_rows(d), x);
        assert((row_time())(s[s.len() - 1]) <= t);
        lemma_order_relax(apply_row(replay_rows(d), x).entries, x.ts as int, t);
    }
}

/// The reviews among entries in time order are in time order.
proof fn lemma_reviews_in_order(es: Seq<Entry>, t: int)
    requires
        sorted_by(es, entry_time()),
        keys_at_most(es, entry_time(), t),
    ensures
        forall|i: int, j: int|
            0 <= i <= j < reviews_in(es).len() ==> (#[trigger] reviews_in(es)[i]).ts <= (
            #[trigger] reviews_in(es)[j]).ts,
        forall|i: int| 0 <= i < reviews_in(es).len() ==> (#[trigger] reviews_in(es)[i]).ts <= t,
    decreases es.len(),
{
    if es.len() > 0 {
        let d = es.drop_last();
        let last = es.last();
        assert(sorted_by(d, entry_time())) by {
            assert forall|i: int, j: int| 0 <= i <= j < d.len() implies (entry_time())(#[trigger] d[i]) <= (
            entry_time())(#[trigger] d[j]) by {
                assert(d[i] == es[i] && d[j] == es[j]);
            }
        }
        assert(keys_at_most(d, entry_time(), entry_ts(last))) by {
            assert forall|i: int| 0 <= i < d.len() implies (entry_time())(#[trigger] d[i]) <= entry_ts(last) by {
                assert(d[i] == es[i]);
                assert((entry_time())(es[i]) <= (entry_time())(es[es.len() - 1]));
            }
        }
        lemma_reviews_in_order(d, entry_ts(last));
        assert((entry_time())(es[es.len() - 1]) <= t);
        lemma_reviews_push(d, last);
        assert(d.push(last) =~= es);
    }
}

/// Each history that replay gives is in time order.
pub proof fn lemma_histories_in_time_order(rows: Seq<RowV>, k: CardKey)
    ensures
        forall|i: int, j: int|
            0 <= i <= j < lookup(histories(spec_replay(rows).entries), k).len() ==> (#[trigger] lookup(
                histories(spec_replay(rows).entries),
                k,
            )[i]).ts <= (#[trigger] lookup(histories(spec_replay(rows).entries), k)[j]).ts,
{
    let s = time_order(rows);
    lemma_sort_sorted(rows, row_time());
    let m = spec_replay(rows).entries;
    lemma_lookup_histories(m, k);
    if s.len() > 0 {
        let t = s.last().ts as int;
        assert(keys_at_most(s, row_time(), t)) by {
            assert forall|i: int| 0 <= i < s.len() implies (row_time())(#[trigger] s[i]) <= t by {
                assert((row_time())(s[i]) <= (row_time())(s[s.len() - 1]));
            }
        }
        lemma_replay_in_order(s, t);
        if m.contains_key(k) {
            lemma_reviews_in_order(m[k], t);
        } else {
            lemma_reviews_empty();
        }
    } else {
        assert(m =~= Map::<CardKey, Seq<Entry>>::empty());
        lemma_reviews_empty();
    }
}

/// A review or skip row: study, as opposed to bookkeeping.
pub open spec fn is_activity(r: RowV) -> bool {
    r.kind is Review || r.kind is Skip
}

proof fn lemma_replay_last(s: Seq<RowV>)
    requires
        sorted_by(s, row_time()),
    ensures
        replay_rows(s).last is None <==> forall|i: int| 0 <= i < s.len() ==> !is_activity(#[trigger] s[i]),
        replay_rows(s).last matches Some(t) ==> (exists|i: int|
            0 <= i < s.len() && is_activity(#[trigger] s[i]) && s[i].ts == t) && forall|i: int|
            0 <= i < s.len() && is_activity(#[trigger] s[i]) ==> s[i].ts <= t,
    decreases s.len(),
{
    if s.len() > 0 {
        let d = s.drop_last();
        let x = s.last();
        let n = s.len() - 1;
        assert(sorted_by(d, row_time())) by {
            assert forall|i: int, j: int| 0 <= i <= j < d.len() implies (row_time())(#[trigger] d[i]) <= (row_time())(
                #[trigger] d[j]) by {
                assert(d[i] == s[i] && d[j] == s[j]);
            }
        }
        lemma_replay_last(d);
        lemma_replay_push(d, x);
        assert(d.push(x) =~= s);
        assert(forall|i: int| 0 <= i < d.len() ==> d[i] == #[trigger] s[i]);
        if is_activity(x) {
            assert(s[n] == x);
            assert forall|i: int| 0 <= i < s.len() && is_activity(#[trigger] s[i]) implies s[i].ts <= x.ts by {
                assert((row_time())(s[i]) <= (row_time())(s[n]));
            }
        } else {
            match replay_rows(d).last {
                Some(t) => {
                    let i = choose|i: int| 0 <= i < d.len() && is_activity(#[trigger] d[i]) && d[i].ts == t;
                    assert(s[i] == d[i]);
                    assert forall|j: int| 0 <= j < s.len() && is_activity(#[trigger] s[j]) implies s[j].ts <= t by {
                        if j < d.len() {
                            assert(d[j] == s[j]);
                        }
                    }
                },
                None => {
                    assert forall|j: int| 0 <= j < s.len() implies !is_activity(#[trigger] s[j]) by {
                        if j < d.len() {
                            assert(d[j] == s[j]);
                        }
                    }
                },
            }
        }
    }
}

/// Rows in time order are the log's rows.
proof fn lemma_time_order_elements(rows: Seq<RowV>)
    ensures
        forall|i: int| 0 <= i < rows.len() ==> #[trigger] time_order(rows).contains(rows[i]),
        forall|j: int| 0 <= j < time_order(rows).len() ==> #[trigger] rows.contains(time_order(rows)[j]),
{
    broadcast use vstd::seq_lib::group_to_multiset_ensures;

    let s = time_order(rows);
    lemma_sort_multiset(rows, row_time());
    assert forall|i: int| 0 <= i < rows.len() implies #[trigger] s.contains(rows[i]) by {
        assert(rows.contains(rows[i]));
        assert(rows.to_multiset().count(rows[i]) > 0);
    }
    assert forall|j: int| 0 <= j < s.len() implies #[trigger] rows.contains(s[j]) by {
        assert(s.contains(s[j]));
        assert(s.to_multiset().count(s[j]) > 0);
    }
}

/// The time of the latest activity is that of the latest review or skip
/// row of the log, whatever order the log holds its rows in; with none,
/// there is none.
#[verifier::rlimit(40)]
pub proof fn lemma_last_activity_is_latest_study(rows: Seq<RowV>)
    ensures
        spec_replay(rows).last is None <==> forall|i: int| 0 <= i < rows.len() ==> !is_activity(#[trigger] rows[i]),
        spec_replay(rows).last matches Some(t) ==> (exists|i: int|
            0 <= i < rows.len() && is_activity(#[trigger] rows[i]) && rows[i].ts == t) && forall|i: int|
            0 <= i < rows.len() && is_activity(#[trigger] rows[i]) ==> rows[i].ts <= t,
{
    let s = time_order(rows);
    lemma_sort_sorted(rows, row_time());
    lemma_replay_last(s);
    lemma_time_order_elements(rows);
    if spec_replay(rows).last is None {
        assert forall|i: int| 0 <= i < rows.len() implies !is_activity(#[trigger] rows[i]) by {
            assert(s.contains(rows[i]));
            let j = choose|j: int| 0 <= j < s.len() && s[j] == rows[i];
            assert(!is_activity(s[j]));
        }
    } else {
        let t = spec_replay(rows).last->0;
        let j = choose|j: int| 0 <= j < s.len() && is_activity(#[trigger] s[j]) && s[j].ts == t;
        assert(rows.contains(s[j]));
        let i = choose|i: int| 0 <= i < rows.len() && rows[i] == s[j];
        assert(is_activity(rows[i]) && rows[i].ts == t);
        assert forall|i2: int| 0 <= i2 < rows.len() && is_activity(#[trigger] rows[i2]) implies rows[i2].ts <= t by {
            assert(s.contains(rows[i2]));
            let j2 = choose|j2: int| 0 <= j2 < s.len() && s[j2] == rows[i2];
            assert(is_activity(s[j2]));
        }
        assert(!(forall|i3: int| 0 <= i3 < rows.len() ==> !is_activity(#[trigger] rows[i3])));
    }
}

/// The review a row records, if it is a review row.
pub open spec fn row_event(r: RowV) -> Option<ReviewEvent> {
    match r.kind {
        RowKindV::Review { goal, mode, grade, elapsed_ms, .. } => Some(
            ReviewEvent { ts: r.ts, grade, mode, elapsed_ms },
        ),
        _ => None,
    }
}

/// Every review among the entries was recorded by a review row of `s`.
pub open spec fn entries_from(m: Map<CardKey, Seq<Entry>>, s: Seq<RowV>) -> bool {
    forall|k: CardKey, i: int|
        #![trigger m[k][i]]
        m.contains_key(k) && 0 <= i < m[k].len() && m[k][i] is Review ==> exists|j: int|
            0 <= j < s.len() && row_event(#[trigger] s[j]) == Some(m[k][i]->Review_0)
}

proof fn lemma_entries_from_grow(m: Map<CardKey, Seq<Entry>>, s: Seq<RowV>, x: RowV)
    requires
        entries_from(m, s),
    ensures
        entries_from(m, s.push(x)),
{
    let t = s.push(x);
    assert forall|k: CardKey, i: int|
        #![trigger m[k][i]]
        m.contains_key(k) && 0 <= i < m[k].len() && m[k][i] is Review implies exists|j: int|
            0 <= j < t.len() && row_event(#[trigger] t[j]) == Some(m[k][i]->Review_0) by {
        let j = choose|j: int| 0 <= j < s.len() && row_event(#[trigger] s[j]) == Some(m[k][i]->Review_0);
        assert(t[j] == s[j]);
    }
}

proof fn lemma_move_from(m: Map<CardKey, Seq<Entry>>, s: Seq<RowV>, from: Seq<char>, to: Seq<char>, g: Goal)
    requires
        entries_from(m, s),
    ensures
        entries_from(move_goal(m, from, to, g), s),
{
    broadcast use vstd::seq_lib::group_to_multiset_ensures;

    if m.contains_key((from, g)) {
        let rest = m.remove((from, g));
        let merged = lookup(rest, (to, g)) + m[(from, g)];
        let srt = sort_by_key(merged, entry_time());
        lemma_sort_multiset(merged, entry_time());
        let out = move_goal(m, from, to, g);
        assert forall|k: CardKey, i: int|
            #![trigger out[k][i]]
            out.contains_key(k) && 0 <= i < out[k].len() && out[k][i] is Review implies exists|j: int|
                0 <= j < s.len() && row_event(#[trigger] s[j]) == Some(out[k][i]->Review_0) by {
            if k == (to, g) {
                assert(out[k] == srt);
                assert(srt.contains(srt[i]));
                assert(merged.to_multiset().count(srt[i]) > 0);
                assert(merged.contains(srt[i]));
                let q = choose|q: int| 0 <= q < merged.len() && merged[q] == srt[i];
                let n = lookup(rest, (to, g)).len() as int;
                if q < n {
                    assert(merged[q] == rest[(to, g)][q]);
                    assert(m[(to, g)][q] == merged[q]);
                } else {
                    assert(merged[q] == m[(from, g)][q - n]);
                }
            } else {
                assert(out[k] == m[k]);
            }
        }
    }
}

proof fn lemma_apply_from(st: ReplayState, s: Seq<RowV>, x: RowV)
    requires
        entries_from(st.entries, s),
    ensures
        entries_from(apply_row(st, x).entries, s.push(x)),
{
    let t = s.push(x);
    lemma_entries_from_grow(st.entries, s, x);
    let m = st.entries;
    let out = apply_row(st, x).entries;
    match x.kind {
        RowKindV::Rename { to } => {
            lemma_move_from(m, t, x.front, to, Goal::Forward);
            lemma_move_from(move_goal(m, x.front, to, Goal::Forward), t, x.front, to, Goal::Reverse);
        },
        RowKindV::Undo { goal, .. } => {
            let k0 = (x.front, goal);
            assert forall|k: CardKey, i: int|
                #![trigger out[k][i]]
                out.contains_key(k) && 0 <= i < out[k].len() && out[k][i] is Review implies exists|j: int|
                    0 <= j < t.len() && row_event(#[trigger] t[j]) == Some(out[k][i]->Review_0) by {
                if k == k0 && m.contains_key(k0) && m[k0].len() > 0 {
                    assert(out[k][i] == m[k][i]);
                } else {
                    assert(out[k] == m[k]);
                }
            }
        },
        _ => {
            let k0 = match x.kind {
                RowKindV::Review { goal, .. } => (x.front, goal),
                RowKindV::Skip { goal, .. } => (x.front, goal),
                _ => (x.front, Goal::Forward),
            };
            assert forall|k: CardKey, i: int|
                #![trigger out[k][i]]
                out.contains_key(k) && 0 <= i < out[k].len() && out[k][i] is Review implies exists|j: int|
                    0 <= j < t.len() && row_event(#[trigger] t[j]) == Some(out[k][i]->Review_0) by {
                if k == k0 {
                    let l = lookup(m, k0);
                    if i < l.len() {
                        assert(out[k][i] == l[i]);
                        assert(m[k][i] == l[i]);
                    } else {
                        assert(t[s.len() as int] == x);
                    }
                } else {
                    assert(out[k] == m[k]);
                }
            }
        },
    }
}

proof fn lemma_replay_from(s: Seq<RowV>)
    ensures
        entries_from(replay_rows(s).entries, s),
    decreases s.len(),
{
    if s.len() > 0 {
        let d = s.drop_last();
        lemma_replay_from(d);
        lemma_replay_push(d, s.last());
        assert(d.push(s.last()) =~= s);
        lemma_apply_from(replay_rows(d), d, s.last());
    }
}

proof fn lemma_reviews_from(es: Seq<Entry>, i: int)
    requires
        0 <= i < reviews_in(es).len(),
    ensures
        exists|q: int| 0 <= q < es.len() && es[q] == Entry::Review(reviews_in(es)[i]),
    decreases es.len(),
{
    let d = es.drop_last();
    lemma_reviews_push(d, es.last());
    assert(d.push(es.last()) =~= es);
    if i < reviews_in(d).len() {
        lemma_reviews_from(d, i);
        let q = choose|q: int| 0 <= q < d.len() && d[q] == Entry::Review(reviews_in(d)[i]);
        assert(es[q] == d[q]);
    } else {
        assert(es[es.len() - 1] == es.last());
    }
}

/// Replay invents no review: every event of every history is the review
/// recorded by some review row of the log.
pub proof fn lemma_history_events_come_from_rows(rows: Seq<RowV>, k: CardKey, i: int)
    requires
        0 <= i < lookup(histories(spec_replay(rows).entries), k).len(),
    ensures
        exists|j: int|
            0 <= j < rows.len() && row_event(#[trigger] rows[j]) == Some(
                lookup(histories(spec_replay(rows).entries), k)[i],
            ),
{
    let s = time_order(rows);
    let m = spec_replay(rows).entries;
    lemma_lookup_histories(m, k);
    lemma_replay_from(s);
    lemma_time_order_elements(rows);
    let ev = lookup(histories(m), k)[i];
    if m.contains_key(k) {
        lemma_reviews_from(m[k], i);
        let q = choose|q: int| 0 <= q < m[k].len() && m[k][q] == Entry::Review(reviews_in(m[k])[i]);
        assert(m[k][q] is Review);
        let j = choose|j: int| 0 <= j < s.len() && row_event(#[trigger] s[j]) == Some(m[k][q]->Review_0);
        assert(rows.contains(s[j]));
        let j2 = choose|j2: int| 0 <= j2 < rows.len() && rows[j2] == s[j];
        assert(row_event(rows[j2]) == Some(ev));
    } else {
        lemma_reviews_empty();
    }
}

/// Adding up `g` over keys.
pub open spec fn adder(g: spec_fn(CardKey) -> nat) -> spec_fn(nat, CardKey) -> nat {
    |acc: nat, k: CardKey| acc + g(k)
}

/// The sum of `g` over a finite set of keys.
pub open spec fn sum_over(s: Set<CardKey>, g: spec_fn(CardKey) -> nat) -> nat {
    s.fold(0nat, adder(g))
}

proof fn lemma_adder_commutes(g: spec_fn(CardKey) -> nat)
    ensures
        is_fun_commutative(adder(g)),
{
    assert forall|a1: CardKey, a2: CardKey, b: nat| #[trigger] (adder(g))((adder(g))(b, a2), a1) == (adder(g))(
        (adder(g))(b, a1),
        a2,
    ) by {}
}

proof fn lemma_sum_empty(g: spec_fn(CardKey) -> nat)
    ensures
        sum_over(Set::empty(), g) == 0,
{
    vstd::set::fold::lemma_fold_empty(0nat, adder(g));
}

proof fn lemma_sum_insert(s: Set<CardKey>, g: spec_fn(CardKey) -> nat, a: CardKey)
    requires
        s.finite(),
        !s.contains(a),
    ensures
        sum_over(s.insert(a), g) == sum_over(s, g) + g(a),
{
    lemma_adder_commutes(g);
    vstd::set::fold::lemma_fold_insert(s, 0nat, adder(g), a);
}

proof fn lemma_sum_remove(s: Set<CardKey>, g: spec_fn(CardKey) -> nat, a: CardKey)
    requires
        s.finite(),
        s.contains(a),
    ensures
        sum_over(s, g) == sum_over(s.remove(a), g) + g(a),
{
    lemma_sum_insert(s.remove(a), g, a);
    assert(s.remove(a).insert(a) =~= s);
}

proof fn lemma_sum_same(s: Set<CardKey>, g1: spec_fn(CardKey) -> nat, g2: spec_fn(CardKey) -> nat)
    requires
        s.finite(),
        forall|k: CardKey| s.contains(k) ==> #[trigger] g1(k) == g2(k),
    ensures
        sum_over(s, g1) == sum_over(s, g2),
    decreases s.len(),
{
    if s.len() == 0 {
        assert(s =~= Set::<CardKey>::empty());
        lemma_sum_empty(g1);
        lemma_sum_empty(g2);
    } else {
        let a = s.choose();
        lemma_sum_remove(s, g1, a);
        lemma_sum_remove(s, g2, a);
        lemma_sum_same(s.remove(a), g1, g2);
    }
}

proof fn lemma_sum_subset(s: Set<CardKey>, t: Set<CardKey>, g: spec_fn(CardKey) -> nat)
    requires
        t.finite(),
        s.subset_of(t),
    ensures
        s.finite(),
        sum_over(s, g) <= sum_over(t, g),
    decreases t.len(),
{
    vstd::set_lib::lemma_set_subset_finite(t, s);
    if t.len() == 0 {
        assert(t =~= Set::<CardKey>::empty());
        assert(s =~= Set::<CardKey>::empty());
    } else {
        let a = t.choose();
        lemma_sum_remove(t, g, a);
        if s.contains(a) {
            lemma_sum_remove(s, g, a);
            lemma_sum_subset(s.remove(a), t.remove(a), g);
        } else {
            lemma_sum_subset(s, t.remove(a), g);
        }
    }
}

/// How many reviews some entries hold.
pub open spec fn rev_count(es: Seq<Entry>) -> nat {
    reviews_in(es).len()
}

/// The reviews held under all keys of the entries.
pub open spec fn total_reviews(m: Map<CardKey, Seq<Entry>>) -> nat {
    sum_over(m.dom(), |k: CardKey| rev_count(m[k]))
}

/// How many review rows there are.
pub open spec fn review_rows(rows: Seq<RowV>) -> nat
    decreases rows.len(),
{
    if rows.len() == 0 {
        0
    } else {
        review_rows(rows.drop_last()) + if rows.last().kind is Review {
            1nat
        } else {
            0nat
        }
    }
}

proof fn lemma_total_update(m: Map<CardKey, Seq<Entry>>, k0: CardKey, v: Seq<Entry>)
    requires
        m.dom().finite(),
    ensures
        m.insert(k0, v).dom().finite(),
        total_reviews(m.insert(k0, v)) + (if m.contains_key(k0) {
            rev_count(m[k0])
        } else {
            0nat
        }) == total_reviews(m) + rev_count(v),
{
    let m2 = m.insert(k0, v);
    let g1 = |k: CardKey| rev_count(m[k]);
    let g2 = |k: CardKey| rev_count(m2[k]);
    if m.contains_key(k0) {
        assert(m2.dom() =~= m.dom());
        lemma_sum_remove(m.dom(), g1, k0);
        lemma_sum_remove(m.dom(), g2, k0);
        lemma_sum_same(m.dom().remove(k0), g1, g2);
    } else {
        assert(m2.dom() =~= m.dom().insert(k0));
        lemma_sum_insert(m.dom(), g2, k0);
        lemma_sum_same(m.dom(), g1, g2);
    }
}

proof fn lemma_total_remove(m: Map<CardKey, Seq<Entry>>, k0: CardKey)
    requires
        m.dom().finite(),
        m.contains_key(k0),
    ensures
        m.remove(k0).dom().finite(),
        total_reviews(m.remove(k0)) + rev_count(m[k0]) == total_reviews(m),
{
    let m2 = m.remove(k0);
    let g1 = |k: CardKey| rev_count(m[k]);
    let g2 = |k: CardKey| rev_count(m2[k]);
    assert(m2.dom() =~= m.dom().remove(k0));
    lemma_sum_remove(m.dom(), g1, k0);
    lemma_sum_same(m.dom().remove(k0), g1, g2);
}

proof fn lemma_rev_count_merge(a: Seq<Entry>, b: Seq<Entry>)
    ensures
        rev_count(sort_by_key(a + b, entry_time())) == rev_count(a) + rev_count(b),
{
    lemma_bag_sort(a + b);
    lemma_bag_concat(a, b);
    vstd::seq_lib::to_multiset_len(reviews_in(sort_by_key(a + b, entry_time())));
    vstd::seq_lib::to_multiset_len(reviews_in(a));
    vstd::seq_lib::to_multiset_len(reviews_in(b));
}

proof fn lemma_total_move(m: Map<CardKey, Seq<Entry>>, from: Seq<char>, to: Seq<char>, g: Goal)
    requires
        m.dom().finite(),
    ensures
        move_goal(m, from, to, g).dom().finite(),
        total_reviews(move_goal(m, from, to, g)) == total_reviews(m),
{
    if m.contains_key((from, g)) {
        let rest = m.remove((from, g));
        lemma_total_remove(m, (from, g));
        let merged = lookup(rest, (to, g)) + m[(from, g)];
        lemma_rev_count_merge(lookup(rest, (to, g)), m[(from, g)]);
        lemma_total_update(rest, (to, g), sort_by_key(merged, entry_time()));
        if !rest.contains_key((to, g)) {
            assert(lookup(rest, (to, g)) =~= Seq::<Entry>::empty());
            lemma_reviews_empty();
        }
    }
}

proof fn lemma_replay_total(s: Seq<RowV>)
    ensures
        replay_rows(s).entries.dom().finite(),
        total_reviews(replay_rows(s).entries) <= review_rows(s),
    decreases s.len(),
{
    if s.len() == 0 {
        let m = replay_rows(s).entries;
        assert(m.dom() =~= Set::<CardKey>::empty());
        lemma_sum_empty(|k: CardKey| rev_count(m[k]));
    } else {
        let d = s.drop_last();
        let x = s.last();
        lemma_replay_total(d);
        lemma_replay_push(d, x);
        assert(d.push(x) =~= s);
        let st = replay_rows(d);
        let m = st.entries;
        match x.kind {
            RowKindV::Review { goal, mode, grade, elapsed_ms, .. } => {
                let k = (x.front, goal);
                let e = Entry::Review(ReviewEvent { ts: x.ts, grade, mode, elapsed_ms });
                lemma_reviews_push(lookup(m, k), e);
                lemma_total_update(m, k, lookup(m, k).push(e));
                if !m.contains_key(k) {
                    assert(lookup(m, k) =~= Seq::<Entry>::empty());
                    lemma_reviews_empty();
                }
            },
            RowKindV::Skip { goal, .. } => {
                let k = (x.front, goal);
                let e = Entry::Skip { ts: x.ts };
                lemma_reviews_push(lookup(m, k), e);
                lemma_total_update(m, k, lookup(m, k).push(e));
                if !m.contains_key(k) {
                    assert(lookup(m, k) =~= Seq::<Entry>::empty());
                    lemma_reviews_empty();
                }
            },
            RowKindV::Undo { goal, .. } => {
                let k = (x.front, goal);
                if m.contains_key(k) && m[k].len() > 0 {
                    let l = m[k];
                    lemma_reviews_push(l.drop_last(), l.last());
                    assert(l.drop_last().push(l.last()) =~= l);
                    lemma_total_update(m, k, l.drop_last());
                }
            },
            RowKindV::Rename { to } => {
                lemma_total_move(m, x.front, to, Goal::Forward);
                lemma_total_move(move_goal(m, x.front, to, Goal::Forward), x.front, to, Goal::Reverse);
            },
        }
    }
}

proof fn lemma_review_rows_insert(s: Seq<RowV>, x: RowV)
    ensures
        review_rows(insert_sorted(s, x, row_time())) == review_rows(s) + if x.kind is Review {
            1nat
        } else {
            0nat
        },
    decreases s.len(),
{
    if s.len() == 0 || (row_time())(s.last()) <= (row_time())(x) {
        assert(s.push(x).drop_last() =~= s);
    } else {
        let d = s.drop_last();
        lemma_review_rows_insert(d, x);
        let t = insert_sorted(d, x, row_time());
        assert(t.push(s.last()).drop_last() =~= t);
        assert(d.push(s.last()) =~= s);
    }
}

proof fn lemma_review_rows_sorted(rows: Seq<RowV>)
    ensures
        review_rows(time_order(rows)) == review_rows(rows),
    decreases rows.len(),
{
    if rows.len() > 0 {
        let d = rows.drop_last();
        lemma_review_rows_sorted(d);
        lemma_review_rows_insert(time_order(d), rows.last());
    }
}

/// Replay never holds more reviews than the log has review rows: over all
/// cards and directions, the events of the histories number at most the
/// review rows.
pub proof fn lemma_history_events_at_most_review_rows(rows: Seq<RowV>)
    ensures
        histories(spec_replay(rows).entries).dom().finite(),
        sum_over(
            histories(spec_replay(rows).entries).dom(),
            |k: CardKey| histories(spec_replay(rows).entries)[k].len(),
        ) <= review_rows(rows),
{
    let m = spec_replay(rows).entries;
    let h = histories(m);
    lemma_replay_total(time_order(rows));
    lemma_review_rows_sorted(rows);
    assert(h.dom().subset_of(m.dom()));
    let gh = |k: CardKey| h[k].len();
    let gm = |k: CardKey| rev_count(m[k]);
    lemma_sum_subset(h.dom(), m.dom(), gm);
    lemma_sum_same(h.dom(), gh, gm);
}

} // verus!
