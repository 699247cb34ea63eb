//! What the subcommands decide and report, apart from reading and writing
//! files and the terminal: per-deck numbers, leeches, rename detection.

use vstd::prelude::*;

use crate::deck::{card_prompt, find_card, Card, CardV};
use crate::ledger::{card_history, fronts_of, listed, Ledger, ReviewEvent};
use crate::planner::{nd_view, plan, tally, CardInput, NewPolicy};
use crate::sorting::{insert_by, lemma_insert_by_at, sort_by_before};
use crate::store::LoadedDeck;
use crate::strs::{owned, str_eq};
use crate::term::{painted, Style};
use crate::text::{pad_left, spec_pad_left};
use crate::types::{Goal, Grade};
use crate::viz::{apply, bar, seg_sum, spec_apply, spec_bar, Paint, Segment};

verus! {

/// What `status`, `decks` and `stats` say of one deck.
pub struct DeckSummary {
    pub name: String,
    pub cards: usize,
    pub goals: usize,
    pub learned: usize,
    pub due: usize,
    pub new_available: usize,
    pub last_review: Option<i128>,
    /// Earliest future due day (a day number) and how many come due then.
    pub next_due: Option<(i32, usize)>,
}

/// The summary of a deck is its plan with no cap on new cards: every goal,
/// the learned ones, the due ones, the eligible new ones, and the next due
/// day, with the time of its latest review or skip.
pub open spec fn summarizes(s: DeckSummary, ld: LoadedDeck, cards: Seq<CardInput>) -> bool {
    let t = tally(cards);
    &&& s.name@ == ld.deck.name@
    &&& s.cards == ld.deck.cards@.len()
    &&& s.goals == t.total
    &&& s.learned == t.learned
    &&& s.due == t.due.len()
    &&& s.new_available == t.new.len()
    &&& s.last_review == ld.ledger.last_activity
    &&& nd_view(s.next_due) == t.next_due
}

/// One summary per deck. `inputs[i]` are the card lines of deck `i` with
/// what the memory model says of them.
pub fn summarize(decks: &Vec<LoadedDeck>, inputs: &Vec<Vec<CardInput>>) -> (r: Vec<DeckSummary>)
    requires
        inputs@.len() == decks@.len(),
        forall|i: int| 0 <= i < inputs@.len() ==> (#[trigger] inputs@[i])@.len() < usize::MAX / 4,
    ensures
        r@.len() == decks@.len(),
        forall|i: int| 0 <= i < r@.len() ==> summarizes(#[trigger] r@[i], decks@[i], inputs@[i]@),
{
    let mut out: Vec<DeckSummary> = Vec::new();
    let mut i: usize = 0;
    while i < decks.len()
        invariant
            i <= decks@.len(),
            inputs@.len() == decks@.len(),
            forall|j: int| 0 <= j < inputs@.len() ==> (#[trigger] inputs@[j])@.len() < usize::MAX / 4,
            out@.len() == i,
            forall|j: int| 0 <= j < i ==> summarizes(#[trigger] out@[j], decks@[j], inputs@[j]@),
        decreases decks@.len() - i,
    {
        let d = &decks[i];
        let cards = &inputs[i];
        let p = plan(cards, NewPolicy::Explicit(usize::MAX), 0, 1, 0, 10_000);
        let s = DeckSummary {
            name: owned(d.name()),
            cards: d.deck.cards.len(),
            goals: p.total_goals,
            learned: p.learned,
            due: p.due.len(),
            new_available: p.new.len(),
            last_review: d.ledger.last_activity,
            next_due: p.next_due,
        };
        proof {
            crate::sorting::lemma_sort_len(tally(cards@).due, crate::planner::by_urgency());
        }
        out.push(s);
        i = i + 1;
    }
    out
}

/// Again grades before a card is called a leech.
pub const LEECH_AGAIN: usize = 3;

/// How many leeches status and stats show.
pub const LEECH_SHOW: usize = 5;

/// The two segments of a deck's bar: learned and not due, then due.
pub open spec fn progress_segments(learned: usize, due: usize) -> Seq<Segment> {
    seq![
        Segment { n: if learned >= due { (learned - due) as usize } else { 0 }, ch: '█', paint: Paint::Green },
        Segment { n: due, ch: '▓', paint: Paint::Yellow },
    ]
}

/// Per-deck numbers shared by `status`, `decks` and `stats`: learned in
/// green, due in yellow, unseen dim; the same bar everywhere.
pub fn progress_bar(style: Style, goals: usize, learned: usize, due: usize, cells: usize) -> (r: String)
    requires
        (learned as int + due as int) * cells + 3 <= usize::MAX,
    ensures
        r@ == spec_bar(style.on, progress_segments(learned, due), goals as nat, cells as nat),
{
    let segs: Vec<Segment> = vec![
        Segment { n: learned.saturating_sub(due), ch: '█', paint: Paint::Green },
        Segment { n: due, ch: '▓', paint: Paint::Yellow },
    ];
    proof {
        assert(segs@ =~= progress_segments(learned, due));
        assert(segs@.drop_last().drop_last() =~= Seq::<Segment>::empty());
        let a: int = segs@[0].n as int;
        assert(segs@.drop_last().drop_last() =~= Seq::<Segment>::empty());
        assert(segs@.drop_last().last() == segs@[0]);
        assert(seg_sum(segs@.drop_last()) == seg_sum(segs@.drop_last().drop_last()) + a);
        assert(seg_sum(segs@.drop_last()) == a);
        assert(seg_sum(segs@) == a + due);
        assert(a <= learned as int + due as int);
        assert((a + due) * cells <= (learned as int + due as int) * cells) by (nonlinear_arith)
            requires
                a + due <= learned as int + due as int,
        ;
    }
    bar(style, segs.as_slice(), goals, cells)
}

/// A right-aligned count, colored only when nonzero.
pub open spec fn spec_count(on: bool, n: usize, cells: usize, p: Paint) -> Seq<char> {
    let s = spec_pad_left(crate::strs::dec(n as nat), cells);
    if n == 0 {
        painted(on, "2"@, s)
    } else {
        spec_apply(p, on, s)
    }
}

pub fn count(style: Style, n: usize, cells: usize, paint: Paint) -> (r: String)
    ensures
        r@ == spec_count(style.on, n, cells, paint),
{
    let d = crate::strs::dec_string(n as u64);
    let s = pad_left(d.as_str(), cells);
    if n == 0 {
        style.dim(s.as_str())
    } else {
        apply(paint, style, s.as_str())
    }
}

pub struct Leech {
    pub deck: String,
    pub prompt: String,
    pub again: usize,
    pub reviews: usize,
}

/// A leech as plain values.
pub struct LeechV {
    pub deck: Seq<char>,
    pub prompt: Seq<char>,
    pub again: nat,
    pub reviews: nat,
}

impl View for Leech {
    type V = LeechV;

    open spec fn view(&self) -> LeechV {
        LeechV { deck: self.deck@, prompt: self.prompt@, again: self.again as nat, reviews: self.reviews as nat }
    }
}

/// Order of strings as `str`'s: character by character, by code point.
pub open spec fn text_less(a: Seq<char>, b: Seq<char>) -> bool
    decreases a.len(),
{
    if a.len() == 0 {
        b.len() > 0
    } else if b.len() == 0 {
        false
    } else if a[0] != b[0] {
        (a[0] as u32) < (b[0] as u32)
    } else {
        text_less(a.drop_first(), b.drop_first())
    }
}

fn text_less_exec(a: &str, b: &str) -> (r: bool)
    ensures
        r == text_less(a@, b@),
{
    let av = crate::strs::chars_of(a);
    let bv = crate::strs::chars_of(b);
    let mut i: usize = 0;
    assert(a@.skip(0) =~= a@);
    assert(b@.skip(0) =~= b@);
    while i < av.len() && i < bv.len() && av[i] == bv[i]
        invariant
            av@ == a@,
            bv@ == b@,
            i <= av@.len(),
            i <= bv@.len(),
            text_less(a@, b@) == text_less(a@.skip(i as int), b@.skip(i as int)),
        decreases av@.len() - i,
    {
        proof {
            assert(a@.skip(i as int).drop_first() =~= a@.skip(i + 1));
            assert(b@.skip(i as int).drop_first() =~= b@.skip(i + 1));
        }
        i = i + 1;
    }
    proof {
        if i < av.len() && i < bv.len() {
            assert(a@.skip(i as int)[0] == a@[i as int]);
            assert(b@.skip(i as int)[0] == b@[i as int]);
        }
    }
    if i == av.len() {
        i < bv.len()
    } else if i == bv.len() {
        false
    } else {
        (av[i] as u32) < (bv[i] as u32)
    }
}

pub open spec fn at_least_one(n: nat) -> nat {
    if n < 1 {
        1
    } else {
        n
    }
}

/// Is `a` before `b` in the order of `str`?
pub fn text_less_pub(a: &str, b: &str) -> (r: bool)
    ensures
        r == text_less(a@, b@),
{
    text_less_exec(a, b)
}

/// The worst leech first: most Again grades, then the highest share of
/// Again among its reviews, then by prompt.
pub open spec fn leech_before() -> spec_fn(LeechV, LeechV) -> bool {
    |a: LeechV, b: LeechV|
        a.again > b.again || (a.again == b.again && (b.again * at_least_one(a.reviews) < a.again
            * at_least_one(b.reviews) || (b.again * at_least_one(a.reviews) == a.again
            * at_least_one(b.reviews) && text_less(a.prompt, b.prompt))))
}

fn leech_before_exec(a: &Leech, b: &Leech) -> (r: bool)
    ensures
        r == (leech_before())(a@, b@),
{
    if a.again != b.again {
        return a.again > b.again;
    }
    let ar: u128 = if a.reviews < 1 {
        1
    } else {
        a.reviews as u128
    };
    let br: u128 = if b.reviews < 1 {
        1
    } else {
        b.reviews as u128
    };
    assert((b.again as int) * (ar as int) <= 0xFFFF_FFFF_FFFF_FFFF * 0xFFFF_FFFF_FFFF_FFFF) by (nonlinear_arith)
        requires
            b.again <= 0xFFFF_FFFF_FFFF_FFFF,
            ar <= 0xFFFF_FFFF_FFFF_FFFF,
    ;
    assert((a.again as int) * (br as int) <= 0xFFFF_FFFF_FFFF_FFFF * 0xFFFF_FFFF_FFFF_FFFF) by (nonlinear_arith)
        requires
            a.again <= 0xFFFF_FFFF_FFFF_FFFF,
            br <= 0xFFFF_FFFF_FFFF_FFFF,
    ;
    let x = (b.again as u128) * ar;
    let y = (a.again as u128) * br;
    if x != y {
        return x < y;
    }
    text_less_exec(a.prompt.as_str(), b.prompt.as_str())
}

/// Again grades among some reviews.
pub open spec fn count_again(evs: Seq<ReviewEvent>) -> nat
    decreases evs.len(),
{
    if evs.len() == 0 {
        0
    } else {
        count_again(evs.drop_last()) + if evs.last().grade == Grade::Again {
            1nat
        } else {
            0nat
        }
    }
}

/// The leech a card is in one direction, if it is one.
pub open spec fn goal_leech(deck: Seq<char>, c: CardV, goal: Goal, l: Map<(Seq<char>, Goal), Seq<ReviewEvent>>) -> Seq<
    LeechV,
> {
    let evs = card_history(l, c.front, goal);
    let again = count_again(evs);
    if again >= LEECH_AGAIN {
        seq![LeechV { deck, prompt: card_prompt(c, goal), again, reviews: evs.len() }]
    } else {
        Seq::empty()
    }
}

pub open spec fn cards_leeches(deck: Seq<char>, cs: Seq<CardV>, l: Map<(Seq<char>, Goal), Seq<ReviewEvent>>) -> Seq<
    LeechV,
>
    decreases cs.len(),
{
    if cs.len() == 0 {
        Seq::empty()
    } else {
        let c = cs.last();
        cards_leeches(deck, cs.drop_last(), l) + goal_leech(deck, c, Goal::Forward, l) + if c.reverse {
            goal_leech(deck, c, Goal::Reverse, l)
        } else {
            Seq::empty()
        }
    }
}

pub open spec fn deck_cards(d: LoadedDeck) -> Seq<CardV> {
    d.deck.cards@.map_values(|c: Card| c@)
}

/// Every leech of the decks, deck by deck, card by card.
pub open spec fn all_leeches(ds: Seq<LoadedDeck>) -> Seq<LeechV>
    decreases ds.len(),
{
    if ds.len() == 0 {
        Seq::empty()
    } else {
        all_leeches(ds.drop_last()) + cards_leeches(
            ds.last().deck.name@,
            deck_cards(ds.last()),
            ds.last().ledger@,
        )
    }
}

pub open spec fn ledgers_wf(ds: Seq<LoadedDeck>) -> bool {
    forall|i: int| 0 <= i < ds.len() ==> (#[trigger] ds[i]).ledger.wf()
}

pub open spec fn leeches_view(v: Seq<Leech>) -> Seq<LeechV> {
    v.map_values(|l: Leech| l@)
}

/// The worst cards still in the decks (orphaned histories are ignored):
/// those with at least `LEECH_AGAIN` Again grades, worst first, at most
/// `LEECH_SHOW` of them.
pub open spec fn spec_leeches(ds: Seq<LoadedDeck>) -> Seq<LeechV> {
    let sorted = sort_by_before(all_leeches(ds), leech_before());
    if sorted.len() > LEECH_SHOW {
        sorted.take(LEECH_SHOW as int)
    } else {
        sorted
    }
}

fn count_again_exec(evs: &[ReviewEvent]) -> (n: usize)
    ensures
        n == count_again(evs@),
{
    let mut n: usize = 0;
    let mut i: usize = 0;
    while i < evs.len()
        invariant
            i <= evs@.len(),
            n == count_again(evs@.take(i as int)),
            n <= i,
        decreases evs@.len() - i,
    {
        proof {
            assert(evs@.take(i + 1).drop_last() =~= evs@.take(i as int));
            assert(evs@.take(i + 1).last() == evs@[i as int]);
        }
        if evs[i].grade == Grade::Again {
            n = n + 1;
        }
        i = i + 1;
    }
    assert(evs@.take(i as int) =~= evs@);
    n
}

fn push_goal_leech(out: &mut Vec<Leech>, name: &str, card: &Card, goal: Goal, ledger: &Ledger)
    requires
        ledger.wf(),
    ensures
        leeches_view(final(out)@) == leeches_view(old(out)@) + goal_leech(name@, card@, goal, ledger@),
{
    let evs = ledger.reviews(card.front.as_str(), goal);
    let again = count_again_exec(evs);
    let ghost before = leeches_view(out@);
    if again >= LEECH_AGAIN {
        let l = Leech {
            deck: owned(name),
            prompt: owned(card.prompt(goal)),
            again,
            reviews: evs.len(),
        };
        out.push(l);
        assert(leeches_view(out@) =~= before.push(l@));
        assert(before.push(l@) =~= before + seq![l@]);
    } else {
        assert(leeches_view(out@) =~= before + Seq::<LeechV>::empty());
    }
}

spec fn picked_leeches(order: Seq<usize>, lv: Seq<LeechV>) -> Seq<LeechV> {
    order.map_values(|j: usize| lv[j as int])
}

/// Stable sort of leeches, worst first.
fn sort_leeches(v: &Vec<Leech>) -> (r: Vec<Leech>)
    ensures
        leeches_view(r@) == sort_by_before(leeches_view(v@), leech_before()),
{
    let ghost lv = leeches_view(v@);
    let mut order: Vec<usize> = Vec::new();
    let mut i: usize = 0;
    while i < v.len()
        invariant
            i <= v@.len(),
            lv == leeches_view(v@),
            order@.len() == i,
            forall|k: int| 0 <= k < order@.len() ==> (#[trigger] order@[k]) < i,
            picked_leeches(order@, lv) == sort_by_before(lv.take(i as int), leech_before()),
        decreases v@.len() - i,
    {
        let mut pos: usize = order.len();
        while pos > 0 && leech_before_exec(&v[i], &v[order[pos - 1]])
            invariant
                pos <= order@.len(),
                i < v@.len(),
                lv == leeches_view(v@),
                forall|k: int| 0 <= k < order@.len() ==> (#[trigger] order@[k]) < i,
                forall|j: int| pos <= j < order@.len() ==> (leech_before())(lv[i as int], #[trigger] picked_leeches(order@, lv)[j]),
            decreases pos,
        {
            assert(picked_leeches(order@, lv)[pos - 1] == lv[order@[pos - 1] as int]);
            pos = pos - 1;
        }
        let ghost s = picked_leeches(order@, lv);
        let ghost x = lv[i as int];
        proof {
            if pos > 0 {
                assert(s[pos - 1] == lv[order@[pos - 1] as int]);
            }
            lemma_insert_by_at(s, x, leech_before(), pos as int);
            assert(lv.take(i + 1).drop_last() =~= lv.take(i as int));
            assert(lv.take(i + 1).last() == x);
        }
        order.insert(pos, i);
        assert(picked_leeches(order@, lv) =~= s.take(pos as int).push(x) + s.skip(pos as int));
        i = i + 1;
    }
    assert(lv.take(i as int) =~= lv);
    let mut r: Vec<Leech> = Vec::new();
    let mut k: usize = 0;
    while k < order.len()
        invariant
            k <= order@.len(),
            order@.len() == v@.len(),
            lv == leeches_view(v@),
            forall|q: int| 0 <= q < order@.len() ==> (#[trigger] order@[q]) < v@.len(),
            leeches_view(r@) == picked_leeches(order@, lv).take(k as int),
        decreases order@.len() - k,
    {
        let l = &v[order[k]];
        let copy = Leech { deck: owned(l.deck.as_str()), prompt: owned(l.prompt.as_str()), again: l.again, reviews: l.reviews };
        let ghost b = leeches_view(r@);
        assert(copy@ == lv[order@[k as int] as int]);
        assert(picked_leeches(order@, lv)[k as int] == copy@);
        r.push(copy);
        assert(leeches_view(r@) =~= b.push(copy@));
        assert(leeches_view(r@) =~= picked_leeches(order@, lv).take(k + 1));
        k = k + 1;
    }
    assert(picked_leeches(order@, lv).take(k as int) =~= picked_leeches(order@, lv));
    r
}

/// The worst cards still in the decks, worst first, at most `LEECH_SHOW`.
pub fn leeches(decks: &Vec<LoadedDeck>) -> (r: Vec<Leech>)
    requires
        ledgers_wf(decks@),
    ensures
        leeches_view(r@) == spec_leeches(decks@),
{
    let mut out: Vec<Leech> = Vec::new();
    let mut d: usize = 0;
    while d < decks.len()
        invariant
            d <= decks@.len(),
            ledgers_wf(decks@),
            leeches_view(out@) == all_leeches(decks@.take(d as int)),
        decreases decks@.len() - d,
    {
        let ld = &decks[d];
        assert(ld.ledger.wf());
        let name = ld.deck.name.as_str();
        let ghost cs = deck_cards(*ld);
        let ghost base = leeches_view(out@);
        let mut c: usize = 0;
        while c < ld.deck.cards.len()
            invariant
                c <= ld.deck.cards@.len(),
                ld.ledger.wf(),
                cs == ld.deck.cards@.map_values(|x: Card| x@),
                leeches_view(out@) == base + cards_leeches(name@, cs.take(c as int), ld.ledger@),
            decreases ld.deck.cards@.len() - c,
        {
            let card = &ld.deck.cards[c];
            proof {
                assert(cs.take(c + 1).drop_last() =~= cs.take(c as int));
                assert(cs.take(c + 1).last() == card@);
            }
            let ghost b1 = leeches_view(out@);
            push_goal_leech(&mut out, name, card, Goal::Forward, &ld.ledger);
            if card.reverse {
                push_goal_leech(&mut out, name, card, Goal::Reverse, &ld.ledger);
            }
            proof {
                if card.reverse {
                    assert(leeches_view(out@) =~= base + cards_leeches(name@, cs.take(c + 1), ld.ledger@));
                } else {
                    assert(leeches_view(out@) =~= base + cards_leeches(name@, cs.take(c + 1), ld.ledger@));
                }
            }
            c = c + 1;
        }
        proof {
            assert(cs.take(c as int) =~= cs);
            assert(decks@.take(d + 1).drop_last() =~= decks@.take(d as int));
            assert(decks@.take(d + 1).last() == *ld);
        }
        d = d + 1;
    }
    assert(decks@.take(d as int) =~= decks@);
    let mut sorted = sort_leeches(&out);
    if sorted.len() > LEECH_SHOW {
        sorted.truncate(LEECH_SHOW);
        assert(leeches_view(sorted@) =~= sort_by_before(all_leeches(decks@), leech_before()).take(
            LEECH_SHOW as int,
        ));
    }
    sorted
}

/// A front with history but no card in the deck.
pub open spec fn is_orphan(ld: LoadedDeck, f: Seq<char>) -> bool {
    fronts_of(ld.ledger@).contains(f) && find_card(deck_cards(ld), f) is None
}

/// A card with history in some direction.
pub open spec fn seen(l: Map<(Seq<char>, Goal), Seq<ReviewEvent>>, c: CardV) -> bool {
    card_history(l, c.front, Goal::Forward).len() > 0 || card_history(l, c.front, Goal::Reverse).len()
        > 0
}

/// The last line of a card with history, if any.
pub open spec fn frontier(l: Map<(Seq<char>, Goal), Seq<ReviewEvent>>, cs: Seq<CardV>) -> Option<nat>
    decreases cs.len(),
{
    if cs.len() == 0 {
        None
    } else {
        let f = frontier(l, cs.drop_last());
        if seen(l, cs.last()) {
            match f {
                Some(m) => if cs.last().line > m {
                    Some(cs.last().line)
                } else {
                    Some(m)
                },
                None => Some(cs.last().line),
            }
        } else {
            f
        }
    }
}

/// Never-reviewed cards above the last reviewed line, in line order; none
/// when no card has been reviewed. New cards are introduced in line order,
/// so one of these is an anomaly; unseen cards after the frontier are just
/// the deck's future.
pub open spec fn unseen_before(
    l: Map<(Seq<char>, Goal), Seq<ReviewEvent>>,
    cs: Seq<CardV>,
    fr: Option<nat>,
) -> Seq<Seq<char>>
    decreases cs.len(),
{
    if cs.len() == 0 {
        Seq::empty()
    } else {
        let rest = unseen_before(l, cs.drop_last(), fr);
        let c = cs.last();
        if !seen(l, c) && fr is Some && c.line < fr->0 {
            rest.push(c.front)
        } else {
            rest
        }
    }
}

/// If exactly one history is orphaned and exactly one never-reviewed card
/// sits among the reviewed ones, the rename to ask about: (old, new).
pub open spec fn spec_rename_candidate(ld: LoadedDeck) -> Option<(Seq<char>, Seq<char>)> {
    let cs = deck_cards(ld);
    let unseen = unseen_before(ld.ledger@, cs, frontier(ld.ledger@, cs));
    if (exists|o: Seq<char>| Set::new(|f: Seq<char>| is_orphan(ld, f)) == set![o]) && unseen.len() == 1 {
        Some((choose|o: Seq<char>| Set::new(|f: Seq<char>| is_orphan(ld, f)) == set![o], unseen[0]))
    } else {
        None
    }
}

/// What replaces a rename check's guess: the one orphaned history and the
/// one unseen card among reviewed ones, when both are unique.
pub fn rename_candidate(ld: &LoadedDeck) -> (r: Option<(String, String)>)
    requires
        ld.ledger.wf(),
    ensures
        match spec_rename_candidate(*ld) {
            Some((o, n)) => r matches Some((a, b)) && a@ == o && b@ == n,
            None => r is None,
        },
{
    let fronts = ld.ledger.fronts();
    let mut orphans: Vec<String> = Vec::new();
    let mut i: usize = 0;
    while i < fronts.len()
        invariant
            i <= fronts@.len(),
            forall|a: int, b: int| 0 <= a < b < fronts@.len() ==> (#[trigger] fronts@[a])@ != (#[trigger] fronts@[b])@,
            forall|q: int| 0 <= q < orphans@.len() ==> exists|a: int| 0 <= a < i && (#[trigger] orphans@[q])@ == (#[trigger] fronts@[a])@,
            forall|a: int| 0 <= a < i ==> (find_card(deck_cards(*ld), (#[trigger] fronts@[a])@) is None <==> listed(orphans@, fronts@[a]@)),
            forall|p: int, q: int| 0 <= p < q < orphans@.len() ==> (#[trigger] orphans@[p])@ != (#[trigger] orphans@[q])@,
        decreases fronts@.len() - i,
    {
        let f = fronts[i].as_str();
        let ghost before = orphans@;
        if !ld.deck.has(f) {
            orphans.push(owned(f));
            proof {
                assert forall|a: int| 0 <= a < i + 1 implies (find_card(deck_cards(*ld), (#[trigger] fronts@[a])@) is None <==> listed(orphans@, fronts@[a]@)) by {
                    if a < i {
                        if listed(before, fronts@[a]@) {
                            let q = choose|q: int| 0 <= q < before.len() && (#[trigger] before[q])@ == fronts@[a]@;
                            assert(orphans@[q] == before[q]);
                        }
                        if listed(orphans@, fronts@[a]@) {
                            let q = choose|q: int| 0 <= q < orphans@.len() && (#[trigger] orphans@[q])@ == fronts@[a]@;
                            if q < before.len() {
                                assert(before[q] == orphans@[q]);
                            } else {
                                assert(orphans@[q]@ == fronts@[i as int]@);
                            }
                        }
                    } else {
                        assert(orphans@[orphans@.len() - 1]@ == fronts@[a]@);
                    }
                }
                assert forall|p: int, q: int| 0 <= p < q < orphans@.len() implies (#[trigger] orphans@[p])@ != (#[trigger] orphans@[q])@ by {
                    if q == orphans@.len() - 1 {
                        assert(orphans@[p] == before[p]);
                        let a = choose|a: int| 0 <= a < i && (#[trigger] before[p])@ == (#[trigger] fronts@[a])@;
                    } else {
                        assert(orphans@[p] == before[p] && orphans@[q] == before[q]);
                    }
                }
                assert forall|q: int| 0 <= q < orphans@.len() implies exists|a: int| 0 <= a < i + 1 && (#[trigger] orphans@[q])@ == (#[trigger] fronts@[a])@ by {
                    if q < before.len() {
                        assert(orphans@[q] == before[q]);
                        let a = choose|a: int| 0 <= a < i && (#[trigger] before[q])@ == (#[trigger] fronts@[a])@;
                    } else {
                        assert(orphans@[q]@ == fronts@[i as int]@);
                    }
                }
            }
        } else {
            proof {
                assert forall|a: int| 0 <= a < i + 1 implies (find_card(deck_cards(*ld), (#[trigger] fronts@[a])@) is None <==> listed(orphans@, fronts@[a]@)) by {
                    if a == i && listed(orphans@, fronts@[a]@) {
                        let q = choose|q: int| 0 <= q < orphans@.len() && (#[trigger] orphans@[q])@ == fronts@[a]@;
                        let b = choose|b: int| 0 <= b < i && (#[trigger] orphans@[q])@ == (#[trigger] fronts@[b])@;
                    }
                }
            }
        }
        i = i + 1;
    }
    // The orphans, as a set.
    let ghost oset = Set::new(|f: Seq<char>| is_orphan(*ld, f));
    proof {
        assert forall|f: Seq<char>| oset.contains(f) <==> listed(orphans@, f) by {
            if oset.contains(f) {
                assert(listed(fronts@, f));
                let a = choose|a: int| 0 <= a < fronts@.len() && (#[trigger] fronts@[a])@ == f;
            }
            if listed(orphans@, f) {
                let q = choose|q: int| 0 <= q < orphans@.len() && (#[trigger] orphans@[q])@ == f;
                let a = choose|a: int| 0 <= a < i && (#[trigger] orphans@[q])@ == (#[trigger] fronts@[a])@;
                assert(listed(fronts@, f));
            }
        }
    }
    let unseen = unseen_cards(ld);
    let ghost cs = deck_cards(*ld);
    let ghost uv = unseen_before(ld.ledger@, cs, frontier(ld.ledger@, cs));
    if orphans.len() == 1 && unseen.len() == 1 {
        proof {
            let o = orphans@[0]@;
            assert(oset =~= set![o]) by {
                assert forall|f: Seq<char>| oset.contains(f) <==> set![o].contains(f) by {
                    if listed(orphans@, f) {
                        let q = choose|q: int| 0 <= q < orphans@.len() && (#[trigger] orphans@[q])@ == f;
                    }
                    if f == o {
                        assert(listed(orphans@, f));
                    }
                }
            }
            let c = choose|c: Seq<char>| oset == set![c];
            assert(set![c].contains(c));
            assert(c == o);
        }
        return Some((owned(orphans[0].as_str()), owned(unseen[0].as_str())));
    }
    proof {
        if exists|o: Seq<char>| oset == set![o] {
            let o = choose|o: Seq<char>| oset == set![o];
            assert(set![o].contains(o));
            assert(listed(orphans@, o));
            if orphans@.len() == 0 {
                let q = choose|q: int| 0 <= q < orphans@.len() && (#[trigger] orphans@[q])@ == o;
            }
            if orphans@.len() > 1 {
                assert(orphans@[0]@ != orphans@[1]@);
                assert(listed(orphans@, orphans@[0]@));
                assert(listed(orphans@, orphans@[1]@));
                assert(oset.contains(orphans@[0]@));
                assert(oset.contains(orphans@[1]@));
            }
        }
    }
    None
}

/// Never-reviewed cards above the last reviewed line, in line order.
fn unseen_cards(ld: &LoadedDeck) -> (r: Vec<String>)
    requires
        ld.ledger.wf(),
    ensures
        crate::text::strings_view(r@) == unseen_before(
            ld.ledger@,
            deck_cards(*ld),
            frontier(ld.ledger@, deck_cards(*ld)),
        ),
{
    let ghost cs = deck_cards(*ld);
    let n = ld.deck.cards.len();
    let mut front_line: Option<usize> = None;
    let mut seen_flags: Vec<bool> = Vec::new();
    let mut c: usize = 0;
    while c < n
        invariant
            c <= n,
            n == ld.deck.cards@.len(),
            ld.ledger.wf(),
            cs == ld.deck.cards@.map_values(|x: Card| x@),
            seen_flags@.len() == c,
            forall|k: int| 0 <= k < c ==> seen_flags@[k] == seen(ld.ledger@, #[trigger] cs[k]),
            match front_line {
                Some(m) => frontier(ld.ledger@, cs.take(c as int)) == Some(m as nat),
                None => frontier(ld.ledger@, cs.take(c as int)) is None,
            },
        decreases n - c,
    {
        let card = &ld.deck.cards[c];
        proof {
            assert(cs.take(c + 1).drop_last() =~= cs.take(c as int));
            assert(cs.take(c + 1).last() == card@);
        }
        let s = ld.ledger.reviews(card.front.as_str(), Goal::Forward).len() > 0
            || ld.ledger.reviews(card.front.as_str(), Goal::Reverse).len() > 0;
        seen_flags.push(s);
        if s {
            front_line = match front_line {
                Some(m) => if card.line > m {
                    Some(card.line)
                } else {
                    Some(m)
                },
                None => Some(card.line),
            };
        }
        c = c + 1;
    }
    assert(cs.take(c as int) =~= cs);
    let mut out: Vec<String> = Vec::new();
    let mut k: usize = 0;
    while k < n
        invariant
            k <= n,
            n == ld.deck.cards@.len(),
            cs == ld.deck.cards@.map_values(|x: Card| x@),
            seen_flags@.len() == n,
            forall|j: int| 0 <= j < n ==> seen_flags@[j] == seen(ld.ledger@, #[trigger] cs[j]),
            match front_line {
                Some(m) => frontier(ld.ledger@, cs) == Some(m as nat),
                None => frontier(ld.ledger@, cs) is None,
            },
            crate::text::strings_view(out@) == unseen_before(
                ld.ledger@,
                cs.take(k as int),
                frontier(ld.ledger@, cs),
            ),
        decreases n - k,
    {
        let card = &ld.deck.cards[k];
        proof {
            assert(cs.take(k + 1).drop_last() =~= cs.take(k as int));
            assert(cs.take(k + 1).last() == card@);
            assert(seen_flags@[k as int] == seen(ld.ledger@, cs[k as int]));
        }
        let before_front = match front_line {
            Some(m) => card.line < m,
            None => false,
        };
        if !seen_flags[k] && before_front {
            let ghost b = crate::text::strings_view(out@);
            let f = owned(card.front.as_str());
            out.push(f);
            assert(crate::text::strings_view(out@) =~= b.push(f@));
        }
        k = k + 1;
    }
    assert(cs.take(k as int) =~= cs);
    out
}

} // verus!
