//! What the memory model is fed: each history as FSRS reviews (rating and
//! whole study days since the previous review), and the training items the
//! optimizer wants. Study days depend on the time zone, so the caller hands
//! them in as day numbers, one per review.

use vstd::prelude::*;

use crate::ledger::{History, Ledger, ReviewEvent};
use crate::sorting::{lemma_insert_at, sort_by_key};
use crate::types::{grade_rating, Grade};

verus! {

/// One review as FSRS takes it.
#[derive(Clone, Copy, Debug, PartialEq, Eq, Structural)]
pub struct FsrsReview {
    /// again=1, hard=2, good=3, easy=4.
    pub rating: u32,
    /// Whole study days since the previous review; 0 for the first review
    /// and for same-day repeats.
    pub delta_t: u32,
}

pub open spec fn delta(days: Seq<i32>, k: int) -> u32 {
    if k == 0 || days[k] - days[k - 1] < 0 {
        0
    } else {
        (days[k] - days[k - 1]) as u32
    }
}

/// A history as FSRS reviews.
pub open spec fn spec_item(evs: Seq<ReviewEvent>, days: Seq<i32>) -> Seq<FsrsReview> {
    Seq::new(evs.len(), |k: int| FsrsReview { rating: grade_rating(evs[k].grade), delta_t: delta(days, k) })
}

/// Reviews → FSRS reviews. `days[k]` is the study day of `events[k]`.
pub fn item(events: &[ReviewEvent], days: &[i32]) -> (r: Vec<FsrsReview>)
    requires
        days@.len() == events@.len(),
    ensures
        r@ == spec_item(events@, days@),
{
    let mut r: Vec<FsrsReview> = Vec::new();
    let mut k: usize = 0;
    while k < events.len()
        invariant
            k <= events@.len(),
            days@.len() == events@.len(),
            r@ == spec_item(events@, days@).take(k as int),
        decreases events@.len() - k,
    {
        let d: u32 = if k == 0 || days[k] < days[k - 1] {
            0
        } else {
            (days[k] as i64 - days[k - 1] as i64) as u32
        };
        let fr = FsrsReview { rating: events[k].grade.rating(), delta_t: d };
        assert(fr == spec_item(events@, days@)[k as int]);
        r.push(fr);
        assert(r@ =~= spec_item(events@, days@).take(k + 1));
        k = k + 1;
    }
    assert(spec_item(events@, days@).take(k as int) =~= spec_item(events@, days@));
    r
}

/// A training item with the time of the review it ends in.
pub struct Stamped {
    pub ts: i128,
    pub reviews: Seq<FsrsReview>,
}

/// The training items of one history: each long-term review (one a day or
/// more after the previous) with every review up to it.
pub open spec fn history_items(evs: Seq<ReviewEvent>, days: Seq<i32>, n: int) -> Seq<Stamped>
    decreases n,
{
    if n <= 1 {
        Seq::empty()
    } else {
        let rest = history_items(evs, days, n - 1);
        let idx = n - 1;
        if delta(days, idx) == 0 {
            rest
        } else {
            rest.push(Stamped { ts: evs[idx].ts, reviews: spec_item(evs, days).take(idx + 1) })
        }
    }
}

pub open spec fn histories_items(hs: Seq<History>, days: Seq<Vec<i32>>) -> Seq<Stamped>
    decreases hs.len(),
{
    if hs.len() == 0 {
        Seq::empty()
    } else {
        let k = hs.len() - 1;
        histories_items(hs.drop_last(), days) + history_items(
            hs[k].reviews@,
            days[k]@,
            hs[k].reviews@.len() as int,
        )
    }
}

pub open spec fn ledgers_items(ls: Seq<Ledger>, days: Seq<Vec<Vec<i32>>>) -> Seq<Stamped>
    decreases ls.len(),
{
    if ls.len() == 0 {
        Seq::empty()
    } else {
        let k = ls.len() - 1;
        ledgers_items(ls.drop_last(), days) + histories_items(ls[k].items@, days[k]@)
    }
}

pub open spec fn by_time() -> spec_fn(Stamped) -> int {
    |s: Stamped| s.ts as int
}

/// Study days line up with the reviews of every history of every ledger.
pub open spec fn ledger_days_align(ls: Seq<Ledger>, days: Seq<Vec<Vec<i32>>>) -> bool {
    &&& days.len() == ls.len()
    &&& forall|d: int|
        0 <= d < ls.len() ==> (#[trigger] days[d])@.len() == ls[d].items@.len() && forall|h: int|
            0 <= h < ls[d].items@.len() ==> (#[trigger] days[d]@[h])@.len() == ls[d].items@[h].reviews@.len()
}

/// The training items of some ledgers, in time order of the review each
/// ends in: the shape the optimizer wants.
pub open spec fn spec_training_items(ls: Seq<Ledger>, days: Seq<Vec<Vec<i32>>>) -> Seq<Seq<FsrsReview>> {
    sort_by_key(ledgers_items(ls, days), by_time()).map_values(|s: Stamped| s.reviews)
}

spec fn picked_stamped(order: Seq<usize>, all: Seq<Stamped>) -> Seq<Stamped> {
    order.map_values(|j: usize| all[j as int])
}

struct StampedItem {
    ts: i128,
    reviews: Vec<FsrsReview>,
}

spec fn stamped_view(v: Seq<StampedItem>) -> Seq<Stamped> {
    v.map_values(|s: StampedItem| Stamped { ts: s.ts, reviews: s.reviews@ })
}

fn prefix(v: &Vec<FsrsReview>, n: usize) -> (r: Vec<FsrsReview>)
    requires
        n <= v@.len(),
    ensures
        r@ == v@.take(n as int),
{
    let mut r: Vec<FsrsReview> = Vec::new();
    let mut i: usize = 0;
    while i < n
        invariant
            i <= n,
            n <= v@.len(),
            r@ == v@.take(i as int),
        decreases n - i,
    {
        r.push(v[i]);
        assert(r@ =~= v@.take(i + 1));
        i = i + 1;
    }
    r
}

/// Training items for the optimizer, oldest last review first.
pub fn training_items(ledgers: &Vec<Ledger>, days: &Vec<Vec<Vec<i32>>>) -> (r: Vec<Vec<FsrsReview>>)
    requires
        ledger_days_align(ledgers@, days@),
    ensures
        r@.map_values(|v: Vec<FsrsReview>| v@) == spec_training_items(ledgers@, days@),
{
    let mut stamped: Vec<StampedItem> = Vec::new();
    let mut d: usize = 0;
    while d < ledgers.len()
        invariant
            d <= ledgers@.len(),
            ledger_days_align(ledgers@, days@),
            stamped_view(stamped@) == ledgers_items(ledgers@.take(d as int), days@),
        decreases ledgers@.len() - d,
    {
        let items = &ledgers[d].items;
        let dd = &days[d];
        let ghost base = stamped_view(stamped@);
        let mut h: usize = 0;
        while h < items.len()
            invariant
                h <= items@.len(),
                d < ledgers@.len(),
                items@ == ledgers@[d as int].items@,
                dd == days@[d as int],
                dd@.len() == items@.len(),
                forall|q: int| 0 <= q < items@.len() ==> (#[trigger] dd@[q])@.len() == items@[q].reviews@.len(),
                stamped_view(stamped@) == base + histories_items(items@.take(h as int), dd@),
            decreases items@.len() - h,
        {
            let evs = items[h].reviews.as_slice();
            let ds = dd[h].as_slice();
            let full = item(evs, ds);
            let ghost b2 = stamped_view(stamped@);
            let mut idx: usize = 1;
            while idx < evs.len()
                invariant
                    1 <= idx || evs@.len() == 0,
                    idx <= evs@.len() || evs@.len() == 0,
                    ds@.len() == evs@.len(),
                    full@ == spec_item(evs@, ds@),
                    stamped_view(stamped@) == b2 + history_items(evs@, ds@, if idx <= evs@.len() { idx as int } else { evs@.len() as int }),
                decreases evs@.len() - idx,
            {
                if full[idx].delta_t != 0 {
                    let pre = prefix(&full, idx + 1);
                    let s = StampedItem { ts: evs[idx].ts, reviews: pre };
                    let ghost b3 = stamped_view(stamped@);
                    stamped.push(s);
                    assert(stamped_view(stamped@) =~= b3.push(Stamped { ts: evs[idx as int].ts, reviews: spec_item(evs@, ds@).take(idx + 1) }));
                }
                idx = idx + 1;
            }
            proof {
                if evs@.len() <= 1 {
                    assert(history_items(evs@, ds@, evs@.len() as int) == Seq::<Stamped>::empty());
                }
                assert(items@.take(h + 1).drop_last() =~= items@.take(h as int));
                assert(items@.take(h + 1)[h as int] == items@[h as int]);
                assert(stamped_view(stamped@) =~= base + histories_items(items@.take(h + 1), dd@));
            }
            h = h + 1;
        }
        proof {
            assert(items@.take(h as int) =~= items@);
            assert(ledgers@.take(d + 1).drop_last() =~= ledgers@.take(d as int));
            assert(ledgers@.take(d + 1)[d as int] == ledgers@[d as int]);
        }
        d = d + 1;
    }
    assert(ledgers@.take(d as int) =~= ledgers@);
    let ghost all = stamped_view(stamped@);
    // Stable sort by time: order of indexes, then the items in that order.
    let mut order: Vec<usize> = Vec::new();
    let mut i: usize = 0;
    while i < stamped.len()
        invariant
            i <= stamped@.len(),
            all == stamped_view(stamped@),
            order@.len() == i,
            forall|k: int| 0 <= k < order@.len() ==> (#[trigger] order@[k]) < i,
            picked_stamped(order@, all) == sort_by_key(all.take(i as int), by_time()),
        decreases stamped@.len() - i,
    {
        let t = stamped[i].ts;
        let mut pos: usize = order.len();
        while pos > 0 && stamped[order[pos - 1]].ts > t
            invariant
                pos <= order@.len(),
                i < stamped@.len(),
                all == stamped_view(stamped@),
                t == all[i as int].ts,
                forall|k: int| 0 <= k < order@.len() ==> (#[trigger] order@[k]) < i,
                forall|j: int| pos <= j < order@.len() ==> (#[trigger] picked_stamped(order@, all)[j]).ts > t,
            decreases pos,
        {
            assert(picked_stamped(order@, all)[pos - 1] == all[order@[pos - 1] as int]);
            pos = pos - 1;
        }
        let ghost s = picked_stamped(order@, all);
        let ghost x = all[i as int];
        proof {
            assert forall|j: int| pos <= j < s.len() implies (by_time())(#[trigger] s[j]) > (by_time())(x) by {}
            if pos > 0 {
                assert(s[pos - 1] == all[order@[pos - 1] as int]);
            }
            lemma_insert_at(s, x, by_time(), pos as int);
            assert(all.take(i + 1).drop_last() =~= all.take(i as int));
            assert(all.take(i + 1).last() == x);
        }
        order.insert(pos, i);
        assert(picked_stamped(order@, all) =~= s.take(pos as int).push(x) + s.skip(pos as int));
        i = i + 1;
    }
    assert(all.take(i as int) =~= all);
    let ghost sorted = sort_by_key(all, by_time());
    let mut out: Vec<Vec<FsrsReview>> = Vec::new();
    let mut k: usize = 0;
    while k < order.len()
        invariant
            k <= order@.len(),
            order@.len() == stamped@.len(),
            all == stamped_view(stamped@),
            forall|q: int| 0 <= q < order@.len() ==> (#[trigger] order@[q]) < stamped@.len(),
            picked_stamped(order@, all) == sorted,
            out@.map_values(|v: Vec<FsrsReview>| v@) == sorted.map_values(|s: Stamped| s.reviews).take(k as int),
        decreases order@.len() - k,
    {
        let src = &stamped[order[k]].reviews;
        let copy = prefix(src, src.len());
        proof {
            assert(src@.take(src@.len() as int) =~= src@);
            assert(sorted[k as int] == all[order@[k as int] as int]);
        }
        let ghost b = out@.map_values(|v: Vec<FsrsReview>| v@);
        out.push(copy);
        assert(out@.map_values(|v: Vec<FsrsReview>| v@) =~= b.push(copy@));
        assert(out@.map_values(|v: Vec<FsrsReview>| v@) =~= sorted.map_values(|s: Stamped| s.reviews).take(k + 1));
        k = k + 1;
    }
    assert(sorted.map_values(|s: Stamped| s.reviews).take(k as int) =~= sorted.map_values(|s: Stamped| s.reviews));
    out
}


/// Days summed over a run of FSRS reviews.
pub open spec fn total_days(rs: Seq<FsrsReview>) -> int
    decreases rs.len(),
{
    if rs.len() == 0 {
        0
    } else {
        total_days(rs.drop_last()) + rs.last().delta_t
    }
}

/// Each review's gap is counted from the review just before it: the first
/// review has a gap of 0, a later one the study days since the previous
/// review, or 0 when its day is not later. So on study days that never go
/// back, the gaps add up to the days between the first review and each one.
pub proof fn lemma_gaps_from_previous_review(evs: Seq<ReviewEvent>, days: Seq<i32>)
    requires
        days.len() == evs.len(),
    ensures
        evs.len() > 0 ==> spec_item(evs, days)[0].delta_t == 0,
        forall|k: int|
            0 < k < evs.len() && days[k - 1] <= days[k] ==> #[trigger] spec_item(evs, days)[k].delta_t + days[k
                - 1] == days[k],
        forall|k: int|
            0 < k < evs.len() && days[k] < days[k - 1] ==> #[trigger] spec_item(evs, days)[k].delta_t == 0,
        (forall|i: int, j: int| 0 <= i <= j < days.len() ==> days[i] <= days[j]) ==> forall|n: int|
            0 <= n < evs.len() ==> #[trigger] total_days(spec_item(evs, days).take(n + 1)) == days[n]
                - days[0],
{
    let rs = spec_item(evs, days);
    assert forall|k: int| 0 < k < evs.len() && days[k - 1] <= days[k] implies #[trigger] rs[k].delta_t
        + days[k - 1] == days[k] by {
        assert(0 <= days[k] - days[k - 1] <= u32::MAX);
        assert(delta(days, k) == days[k] - days[k - 1]);
    }
    if forall|i: int, j: int| 0 <= i <= j < days.len() ==> days[i] <= days[j] {
        assert forall|n: int| 0 <= n < evs.len() implies #[trigger] total_days(rs.take(n + 1)) == days[n]
            - days[0] by {
            lemma_total_days_prefix(evs, days, n);
        }
    }
}

proof fn lemma_total_days_prefix(evs: Seq<ReviewEvent>, days: Seq<i32>, n: int)
    requires
        days.len() == evs.len(),
        0 <= n < evs.len(),
        forall|i: int, j: int| 0 <= i <= j < days.len() ==> days[i] <= days[j],
    ensures
        total_days(spec_item(evs, days).take(n + 1)) == days[n] - days[0],
    decreases n,
{
    let rs = spec_item(evs, days);
    let p = rs.take(n + 1);
    assert(p.drop_last() =~= rs.take(n));
    if n == 0 {
        assert(rs.take(0) =~= Seq::<FsrsReview>::empty());
        assert(total_days(rs.take(0)) == 0);
        assert(p.last() == rs[0]);
        assert(rs[0].delta_t == 0);
    } else {
        lemma_total_days_prefix(evs, days, n - 1);
        assert(days[n - 1] <= days[n]);
        assert(p.last() == rs[n]);
        assert(rs[n].delta_t == delta(days, n));
        assert(0 <= days[n] - days[n - 1] <= u32::MAX);
        assert(delta(days, n) == days[n] - days[n - 1]);
    }
}
} // verus!
