//! The review loop's decisions: which card comes next, what a key press
//! means, what undo takes back, and how a session is summed up. The loop
//! itself (reading keys, timing, writing rows) is the caller's; it hands
//! each outcome back here.

use vstd::prelude::*;

use crate::planner::Item;
use crate::strs::{chars_of, dec, owned, push_dec, push_str, string_of, trim};
use crate::term::Key;
use crate::text::{answer_matches, join, plural, spec_answer_matches, spec_plural, split_on, split_on_exec};
use crate::types::{Goal, Grade, Mode};

verus! {

/// A card graded Again comes back after this many other cards.
pub const RELEARN_GAP: usize = 5;

/// One new card per this many reviews while due cards remain.
pub const NEW_EVERY: usize = 5;

pub struct Options {
    pub mode: Mode,
    pub minutes: u32,
}

#[derive(Debug)]
pub struct Summary {
    pub reviews: usize,
    pub correct: usize,
    pub skipped: usize,
    pub new_seen: usize,
    pub secs: u64,
    pub remaining: usize,
    pub quit: bool,
}

impl Default for Summary {
    fn default() -> (s: Summary)
        ensures
            s.reviews == 0 && s.correct == 0 && s.skipped == 0 && s.new_seen == 0 && s.secs == 0
                && s.remaining == 0 && !s.quit,
    {
        Summary { reviews: 0, correct: 0, skipped: 0, new_seen: 0, secs: 0, remaining: 0, quit: false }
    }
}

/// Where a card shown in a session came from.
#[derive(Clone, Copy, Debug, PartialEq, Eq, Structural)]
pub enum Origin {
    Due,
    New,
    /// Graded Again earlier; ready once this many cards have been shown.
    Relearn(usize),
}

/// The counters a session keeps: cards shown, new cards taken, cards since
/// the last new one.
pub type Counters = (usize, usize, usize);

/// The cards of a session still to come.
pub struct Queue {
    pub due: Vec<Item>,
    pub new: Vec<Item>,
    pub relearn: Vec<(Item, usize)>,
    pub new_limit: usize,
    pub new_taken: usize,
    pub shown: usize,
    pub since_new: usize,
}

/// A queue as plain values.
pub struct QueueV {
    pub due: Seq<Item>,
    pub new: Seq<Item>,
    pub relearn: Seq<(Item, usize)>,
    pub new_limit: usize,
    pub new_taken: usize,
    pub shown: usize,
    pub since_new: usize,
}

impl View for Queue {
    type V = QueueV;

    open spec fn view(&self) -> QueueV {
        QueueV {
            due: self.due@,
            new: self.new@,
            relearn: self.relearn@,
            new_limit: self.new_limit,
            new_taken: self.new_taken,
            shown: self.shown,
            since_new: self.since_new,
        }
    }
}

/// The same card in the same direction.
pub open spec fn same(a: Item, b: Item) -> bool {
    a.deck == b.deck && a.card == b.card && a.goal == b.goal
}

/// New cards the session may still introduce.
pub open spec fn allowance(q: QueueV) -> nat {
    let left = if q.new_limit >= q.new_taken {
        (q.new_limit - q.new_taken) as nat
    } else {
        0nat
    };
    if left <= q.new.len() {
        left
    } else {
        q.new.len()
    }
}

/// Cards still to come.
pub open spec fn spec_remaining(q: QueueV) -> nat {
    q.due.len() + q.relearn.len() + allowance(q)
}

/// The first relearn card that is ready, if any.
pub open spec fn first_ready(rl: Seq<(Item, usize)>, shown: usize, from: int) -> Option<int>
    decreases rl.len() - from,
{
    if from < 0 || from >= rl.len() {
        None
    } else if rl[from].1 <= shown {
        Some(from)
    } else {
        first_ready(rl, shown, from + 1)
    }
}

/// The next card and where it came from, and the queue without it: a ready
/// relearn card first; then a new card when one is allowed and either no
/// due card is left or `NEW_EVERY` cards were shown since the last new
/// one; then a due card; then relearn cards not yet ready.
pub open spec fn spec_pick(q: QueueV) -> (QueueV, Option<(Item, Origin)>) {
    match first_ready(q.relearn, q.shown, 0) {
        Some(pos) => (
            QueueV { relearn: q.relearn.remove(pos), ..q },
            Some((q.relearn[pos].0, Origin::Relearn(q.relearn[pos].1))),
        ),
        None => if allowance(q) > 0 && (q.due.len() == 0 || q.since_new >= NEW_EVERY) {
            (QueueV { new: q.new.drop_first(), ..q }, Some((q.new[0], Origin::New)))
        } else if q.due.len() > 0 {
            (QueueV { due: q.due.drop_first(), ..q }, Some((q.due[0], Origin::Due)))
        } else if q.relearn.len() > 0 {
            (
                QueueV { relearn: q.relearn.drop_first(), ..q },
                Some((q.relearn[0].0, Origin::Relearn(q.relearn[0].1))),
            )
        } else {
            (q, None)
        },
    }
}

/// Counting a card as shown.
pub open spec fn spec_account(q: QueueV, origin: Origin) -> QueueV {
    match origin {
        Origin::New => QueueV {
            shown: (q.shown + 1) as usize,
            new_taken: (q.new_taken + 1) as usize,
            since_new: 0,
            ..q
        },
        _ => QueueV { shown: (q.shown + 1) as usize, since_new: (q.since_new + 1) as usize, ..q },
    }
}

/// A card put back at the front of the list it came from.
pub open spec fn spec_push_front(q: QueueV, item: Item, origin: Origin) -> QueueV {
    match origin {
        Origin::Due => QueueV { due: seq![item] + q.due, ..q },
        Origin::New => QueueV { new: seq![item] + q.new, ..q },
        Origin::Relearn(ready) => QueueV { relearn: seq![(item, ready)] + q.relearn, ..q },
    }
}

/// The first relearn entry for the same card, if any.
pub open spec fn first_same(rl: Seq<(Item, usize)>, item: Item, from: int) -> Option<int>
    decreases rl.len() - from,
{
    if from < 0 || from >= rl.len() {
        None
    } else if same(rl[from].0, item) {
        Some(from)
    } else {
        first_same(rl, item, from + 1)
    }
}

/// The relearn entry of a card withdrawn.
pub open spec fn spec_withdraw(q: QueueV, item: Item) -> QueueV {
    match first_same(q.relearn, item, 0) {
        Some(pos) => QueueV { relearn: q.relearn.remove(pos), ..q },
        None => q,
    }
}

/// A queue whose counters can go up a little more.
pub open spec fn room(q: QueueV) -> bool {
    &&& q.shown < usize::MAX - RELEARN_GAP
    &&& q.new_taken < usize::MAX
    &&& q.since_new < usize::MAX
}

impl Queue {
    /// A queue of a plan's due and new cards.
    pub fn new(due: Vec<Item>, new: Vec<Item>, new_limit: usize) -> (q: Queue)
        ensures
            q@.due == due@,
            q@.new == new@,
            q@.relearn == Seq::<(Item, usize)>::empty(),
            q.new_limit == new_limit,
            q.new_taken == 0 && q.shown == 0 && q.since_new == 0,
    {
        Queue { due, new, relearn: Vec::new(), new_limit, new_taken: 0, shown: 0, since_new: 0 }
    }

    pub fn new_allowance(&self) -> (r: usize)
        ensures
            r == allowance(self@),
    {
        let left = self.new_limit.saturating_sub(self.new_taken);
        if left <= self.new.len() {
            left
        } else {
            self.new.len()
        }
    }

    pub fn remaining(&self) -> (r: usize)
        requires
            self.due@.len() + self.relearn@.len() + self.new@.len() <= usize::MAX,
        ensures
            r == spec_remaining(self@),
    {
        self.due.len() + self.relearn.len() + self.new_allowance()
    }

    /// Takes the next card.
    pub fn pick(&mut self) -> (r: Option<(Item, Origin)>)
        ensures
            (final(self)@, r) == spec_pick(old(self)@),
            final(self).new_limit == old(self).new_limit,
    {
        let mut pos: usize = 0;
        while pos < self.relearn.len()
            invariant
                pos <= self.relearn@.len(),
                self@ == old(self)@,
                self.new_limit == old(self).new_limit,
                first_ready(self.relearn@, self.shown, 0) == first_ready(
                    self.relearn@,
                    self.shown,
                    pos as int,
                ),
            decreases self.relearn@.len() - pos,
        {
            if self.relearn[pos].1 <= self.shown {
                let (item, ready) = self.relearn.remove(pos);
                return Some((item, Origin::Relearn(ready)));
            }
            pos = pos + 1;
        }
        let new_ok = self.new_allowance() > 0;
        if new_ok && (self.due.len() == 0 || self.since_new >= NEW_EVERY) {
            let item = self.new.remove(0);
            assert(old(self)@.new.remove(0) =~= old(self)@.new.drop_first());
            return Some((item, Origin::New));
        }
        if self.due.len() > 0 {
            let item = self.due.remove(0);
            assert(old(self)@.due.remove(0) =~= old(self)@.due.drop_first());
            return Some((item, Origin::Due));
        }
        if self.relearn.len() > 0 {
            let (item, ready) = self.relearn.remove(0);
            assert(old(self)@.relearn.remove(0) =~= old(self)@.relearn.drop_first());
            return Some((item, Origin::Relearn(ready)));
        }
        None
    }

    /// Counts a card as shown.
    pub fn account(&mut self, origin: Origin)
        requires
            room(old(self)@),
        ensures
            final(self)@ == spec_account(old(self)@, origin),
            final(self).new_limit == old(self).new_limit,
    {
        self.shown = self.shown + 1;
        match origin {
            Origin::New => {
                self.new_taken = self.new_taken + 1;
                self.since_new = 0;
            },
            _ => {
                self.since_new = self.since_new + 1;
            },
        }
    }

    pub fn counters(&self) -> (c: Counters)
        ensures
            c == (self.shown, self.new_taken, self.since_new),
    {
        (self.shown, self.new_taken, self.since_new)
    }

    pub fn restore(&mut self, c: Counters)
        ensures
            final(self)@ == (QueueV {
                shown: c.0,
                new_taken: c.1,
                since_new: c.2,
                ..old(self)@
            }),
    {
        self.shown = c.0;
        self.new_taken = c.1;
        self.since_new = c.2;
    }

    /// Puts a card back at the front of the list it came from.
    pub fn push_front(&mut self, item: Item, origin: Origin)
        ensures
            final(self)@ == spec_push_front(old(self)@, item, origin),
    {
        match origin {
            Origin::Due => {
                self.due.insert(0, item);
                assert(self.due@ =~= seq![item] + old(self)@.due);
            },
            Origin::New => {
                self.new.insert(0, item);
                assert(self.new@ =~= seq![item] + old(self)@.new);
            },
            Origin::Relearn(ready) => {
                self.relearn.insert(0, (item, ready));
                assert(self.relearn@ =~= seq![(item, ready)] + old(self)@.relearn);
            },
        }
    }

    /// A card graded Again comes back `RELEARN_GAP` cards later.
    pub fn requeue(&mut self, item: Item)
        requires
            old(self).shown <= usize::MAX - RELEARN_GAP,
        ensures
            final(self)@ == (QueueV {
                relearn: old(self)@.relearn.push((item, (old(self).shown + RELEARN_GAP) as usize)),
                ..old(self)@
            }),
    {
        self.relearn.push((item, self.shown + RELEARN_GAP));
    }

    /// Takes back the relearn entry of a card (an undone Again).
    pub fn withdraw(&mut self, item: &Item)
        ensures
            final(self)@ == spec_withdraw(old(self)@, *item),
    {
        let mut pos: usize = 0;
        while pos < self.relearn.len()
            invariant
                pos <= self.relearn@.len(),
                self@ == old(self)@,
                first_same(self.relearn@, *item, 0) == first_same(self.relearn@, *item, pos as int),
            decreases self.relearn@.len() - pos,
        {
            let e = self.relearn[pos].0;
            if e.deck == item.deck && e.card == item.card && e.goal == item.goal {
                self.relearn.remove(pos);
                return;
            }
            pos = pos + 1;
        }
    }
}

/// Taking a card and counting it shown leaves one card fewer to come, and
/// a card is there to take exactly when any remain.
pub proof fn lemma_pick_takes_one(q: QueueV)
    requires
        room(q),
    ensures
        spec_pick(q).1 is Some <==> spec_remaining(q) > 0,
        spec_pick(q).1 matches Some((item, origin)) ==> spec_remaining(
            spec_account(spec_pick(q).0, origin),
        ) + 1 == spec_remaining(q),
{
    lemma_first_ready_range(q.relearn, q.shown, 0);
    let (p, r) = spec_pick(q);
    match first_ready(q.relearn, q.shown, 0) {
        Some(pos) => {},
        None => {
            if allowance(q) > 0 && (q.due.len() == 0 || q.since_new >= NEW_EVERY) {
                assert(q.new.len() > 0);
            }
        },
    }
}

proof fn lemma_first_ready_range(rl: Seq<(Item, usize)>, shown: usize, from: int)
    ensures
        first_ready(rl, shown, from) matches Some(p) ==> from <= p < rl.len() && rl[p].1 <= shown,
    decreases rl.len() - from,
{
    if 0 <= from < rl.len() && rl[from].1 > shown {
        lemma_first_ready_range(rl, shown, from + 1);
    }
}

/// A card graded Again comes back only once it is ready, `RELEARN_GAP`
/// cards after it was put back, unless no other card is left to show.
pub proof fn lemma_relearn_waits(q: QueueV)
    ensures
        spec_pick(q).1 matches Some((item, Origin::Relearn(ready))) && q.shown < ready ==> q.due.len() == 0
            && allowance(q) == 0,
{
    lemma_first_ready_range(q.relearn, q.shown, 0);
}

/// Undo of a card taken from the due or new list: putting it back and
/// restoring the counters gives the queue as it was before it was taken.
pub proof fn lemma_put_back_restores(q: QueueV)
    requires
        room(q),
        spec_pick(q).1 matches Some((item, origin)) && (origin == Origin::Due || origin
            == Origin::New),
    ensures
        ({
            let (p, r) = spec_pick(q);
            let (item, origin) = r->0;
            let back = spec_push_front(spec_account(p, origin), item, origin);
            (QueueV { shown: q.shown, new_taken: q.new_taken, since_new: q.since_new, ..back }) == q
        }),
{
    let (p, r) = spec_pick(q);
    let (item, origin) = r->0;
    lemma_first_ready_range(q.relearn, q.shown, 0);
    if origin == Origin::Due {
        assert(seq![q.due[0]] + q.due.drop_first() =~= q.due);
    } else {
        assert(seq![q.new[0]] + q.new.drop_first() =~= q.new);
    }
}

/// What a key press means while a card is shown.
#[derive(Clone, Copy, Debug, PartialEq, Eq, Structural)]
pub enum Reaction {
    /// Not a key for this moment; wait for another.
    Ignore,
    /// Show the answer.
    Reveal,
    /// Show the other keys.
    Help,
    Grade(Grade),
    /// A typed answer that did not match counts as Good after all.
    Override,
    Skip,
    Quit,
    Undo,
}

pub open spec fn is_quit_key(k: Key) -> bool {
    k == Key::Char('q') || k == Key::Esc || k == Key::CtrlC || k == Key::CtrlD
}

pub open spec fn is_undo_key(k: Key) -> bool {
    k == Key::Left || k == Key::Backspace || k == Key::Char('u')
}

/// Recall mode, before the answer is shown.
pub open spec fn spec_recall_prompt_key(k: Key, can_undo: bool) -> Reaction {
    if k == Key::Space || k == Key::Enter {
        Reaction::Reveal
    } else if k == Key::Char('s') {
        Reaction::Skip
    } else if is_quit_key(k) {
        Reaction::Quit
    } else if is_undo_key(k) && can_undo {
        Reaction::Undo
    } else {
        Reaction::Ignore
    }
}

/// Recall mode, once the answer is shown: space is Good.
pub open spec fn spec_recall_grade_key(k: Key, can_undo: bool) -> Reaction {
    if k == Key::Space || k == Key::Enter || k == Key::Char('g') || k == Key::Char('3') {
        Reaction::Grade(Grade::Good)
    } else if k == Key::Char('a') || k == Key::Char('1') {
        Reaction::Grade(Grade::Again)
    } else if k == Key::Char('h') || k == Key::Char('2') {
        Reaction::Grade(Grade::Hard)
    } else if k == Key::Char('e') || k == Key::Char('4') {
        Reaction::Grade(Grade::Easy)
    } else if k == Key::Char('s') {
        Reaction::Skip
    } else if is_quit_key(k) {
        Reaction::Quit
    } else if is_undo_key(k) && can_undo {
        Reaction::Undo
    } else if k == Key::Char('?') {
        Reaction::Help
    } else {
        Reaction::Ignore
    }
}

/// Where a typed answer stands.
#[derive(Clone, Copy, Debug, PartialEq, Eq, Structural)]
pub enum Typed {
    /// Nothing typed: the answer was revealed.
    Revealed,
    /// Typed and matched.
    Right,
    /// Typed and did not match.
    Wrong,
}

/// Typed mode, once the answer was revealed or checked. `fresh` is whether
/// the answer was typed just now rather than restored by an undo.
pub open spec fn spec_typed_key(t: Typed, k: Key, can_undo: bool) -> Reaction {
    let common = if k == Key::Char('s') {
        Reaction::Skip
    } else if is_quit_key(k) {
        Reaction::Quit
    } else if is_undo_key(k) && can_undo {
        Reaction::Undo
    } else {
        Reaction::Ignore
    };
    match t {
        Typed::Revealed => if k == Key::Enter || k == Key::Space || k == Key::Char('a') {
            Reaction::Grade(Grade::Again)
        } else {
            common
        },
        Typed::Right => if k == Key::Enter || k == Key::Space || k == Key::Char('g') {
            Reaction::Grade(Grade::Good)
        } else if k == Key::Char('a') {
            Reaction::Grade(Grade::Again)
        } else {
            common
        },
        Typed::Wrong => if k == Key::Enter || k == Key::Space || k == Key::Char('a') {
            Reaction::Grade(Grade::Again)
        } else if k == Key::Char('o') {
            Reaction::Override
        } else {
            common
        },
    }
}

fn is_quit(k: Key) -> (r: bool)
    ensures
        r == is_quit_key(k),
{
    k == Key::Char('q') || k == Key::Esc || k == Key::CtrlC || k == Key::CtrlD
}

fn is_undo(k: Key) -> (r: bool)
    ensures
        r == is_undo_key(k),
{
    k == Key::Left || k == Key::Backspace || k == Key::Char('u')
}

pub fn recall_prompt_key(k: Key, can_undo: bool) -> (r: Reaction)
    ensures
        r == spec_recall_prompt_key(k, can_undo),
{
    if k == Key::Space || k == Key::Enter {
        Reaction::Reveal
    } else if k == Key::Char('s') {
        Reaction::Skip
    } else if is_quit(k) {
        Reaction::Quit
    } else if is_undo(k) && can_undo {
        Reaction::Undo
    } else {
        Reaction::Ignore
    }
}

pub fn recall_grade_key(k: Key, can_undo: bool) -> (r: Reaction)
    ensures
        r == spec_recall_grade_key(k, can_undo),
{
    if k == Key::Space || k == Key::Enter || k == Key::Char('g') || k == Key::Char('3') {
        Reaction::Grade(Grade::Good)
    } else if k == Key::Char('a') || k == Key::Char('1') {
        Reaction::Grade(Grade::Again)
    } else if k == Key::Char('h') || k == Key::Char('2') {
        Reaction::Grade(Grade::Hard)
    } else if k == Key::Char('e') || k == Key::Char('4') {
        Reaction::Grade(Grade::Easy)
    } else if k == Key::Char('s') {
        Reaction::Skip
    } else if is_quit(k) {
        Reaction::Quit
    } else if is_undo(k) && can_undo {
        Reaction::Undo
    } else if k == Key::Char('?') {
        Reaction::Help
    } else {
        Reaction::Ignore
    }
}

pub fn typed_key(t: Typed, k: Key, can_undo: bool) -> (r: Reaction)
    ensures
        r == spec_typed_key(t, k, can_undo),
{
    let common = if k == Key::Char('s') {
        Reaction::Skip
    } else if is_quit(k) {
        Reaction::Quit
    } else if is_undo(k) && can_undo {
        Reaction::Undo
    } else {
        Reaction::Ignore
    };
    match t {
        Typed::Revealed => if k == Key::Enter || k == Key::Space || k == Key::Char('a') {
            Reaction::Grade(Grade::Again)
        } else {
            common
        },
        Typed::Right => if k == Key::Enter || k == Key::Space || k == Key::Char('g') {
            Reaction::Grade(Grade::Good)
        } else if k == Key::Char('a') {
            Reaction::Grade(Grade::Again)
        } else {
            common
        },
        Typed::Wrong => if k == Key::Enter || k == Key::Space || k == Key::Char('a') {
            Reaction::Grade(Grade::Again)
        } else if k == Key::Char('o') {
            Reaction::Override
        } else {
            common
        },
    }
}

/// What a typed line says: blank reveals the answer; otherwise it is
/// checked against the expected side.
pub open spec fn spec_typed_line(line: Seq<char>, expected: Seq<char>) -> Typed {
    if trim(line).len() == 0 {
        Typed::Revealed
    } else if spec_answer_matches(line, expected) {
        Typed::Right
    } else {
        Typed::Wrong
    }
}

pub fn typed_line(line: &str, expected: &str) -> (r: Typed)
    ensures
        r == spec_typed_line(line@, expected@),
{
    let v = chars_of(line);
    let t = crate::strs::trim_chars(v.as_slice());
    if t.len() == 0 {
        Typed::Revealed
    } else if answer_matches(line, expected) {
        Typed::Right
    } else {
        Typed::Wrong
    }
}

/// `str::replace`: every non-overlapping match of `pat`, left to right,
/// replaced by `with`.
pub open spec fn spec_replace(s: Seq<char>, pat: Seq<char>, with: Seq<char>) -> Seq<char> {
    join(split_on(s, pat), with)
}

/// A key hint, without its undo part when there is nothing to undo.
pub open spec fn spec_hint(hint: Seq<char>, can_undo: bool) -> Seq<char> {
    if can_undo {
        hint
    } else {
        spec_replace(hint, "  [←] undo"@, Seq::empty())
    }
}

pub fn key_hint(text: &str, can_undo: bool) -> (r: String)
    ensures
        r@ == spec_hint(text@, can_undo),
{
    if can_undo {
        return owned(text);
    }
    let v = chars_of(text);
    let pat = chars_of("  [←] undo");
    proof {
        reveal_strlit("  [←] undo");
    }
    let parts = split_on_exec(v.as_slice(), pat.as_slice());
    let empty: Vec<char> = Vec::new();
    let j = crate::text::join_words(&parts, empty.as_slice());
    assert(empty@ =~= Seq::<char>::empty());
    string_of(j.as_slice())
}


/// How far a card got before it was graded, kept so an undo can show it
/// again as it was.
#[derive(Debug)]
pub enum Stage {
    Fresh,
    Revealed,
    Checked { typed: String, correct: bool },
}

/// A card that was graded or skipped in this session.
#[derive(Debug)]
pub struct Done {
    pub item: Item,
    pub origin: Origin,
    pub stage: Stage,
    /// Graded Again and put back for relearning.
    pub requeued: bool,
    /// The queue's counters before the card was shown.
    pub counters: Counters,
    /// The grade, or `None` for a skip.
    pub graded: Option<Grade>,
}

pub open spec fn count_graded(d: Seq<Done>) -> nat
    decreases d.len(),
{
    if d.len() == 0 {
        0
    } else {
        count_graded(d.drop_last()) + if d.last().graded is Some {
            1nat
        } else {
            0nat
        }
    }
}

pub open spec fn count_correct(d: Seq<Done>) -> nat
    decreases d.len(),
{
    if d.len() == 0 {
        0
    } else {
        count_correct(d.drop_last()) + if d.last().graded matches Some(g) && g != Grade::Again {
            1nat
        } else {
            0nat
        }
    }
}

pub open spec fn count_skipped(d: Seq<Done>) -> nat
    decreases d.len(),
{
    if d.len() == 0 {
        0
    } else {
        count_skipped(d.drop_last()) + if d.last().graded is None {
            1nat
        } else {
            0nat
        }
    }
}

pub open spec fn count_new(d: Seq<Done>) -> nat
    decreases d.len(),
{
    if d.len() == 0 {
        0
    } else {
        count_new(d.drop_last()) + if d.last().graded is Some && d.last().origin == Origin::New {
            1nat
        } else {
            0nat
        }
    }
}

/// A session's queue, the cards it has done, and its running summary.
pub struct Session {
    pub queue: Queue,
    pub done: Vec<Done>,
    pub summary: Summary,
    /// Cards in the session when it started.
    pub pool: usize,
}

impl Session {
    /// The summary counts exactly what the done cards add up to.
    pub open spec fn wf(&self) -> bool {
        &&& self.summary.reviews == count_graded(self.done@)
        &&& self.summary.correct == count_correct(self.done@)
        &&& self.summary.skipped == count_skipped(self.done@)
        &&& self.summary.new_seen == count_new(self.done@)
    }

    /// A session over a plan's due and new cards.
    pub fn start(due: Vec<Item>, new: Vec<Item>, new_limit: usize) -> (s: Session)
        requires
            due@.len() + new@.len() <= usize::MAX,
        ensures
            s.wf(),
            s.queue@.due == due@,
            s.queue@.new == new@,
            s.queue@.relearn.len() == 0,
            s.queue.new_limit == new_limit,
            s.queue.shown == 0 && s.queue.new_taken == 0 && s.queue.since_new == 0,
            s.done@.len() == 0,
            s.pool == spec_remaining(s.queue@),
            !s.summary.quit,
    {
        let queue = Queue::new(due, new, new_limit);
        let pool = queue.remaining();
        let s = Session { queue, done: Vec::new(), summary: Summary::default(), pool };
        s
    }

    /// Counts a card as shown and hands back the counters from before, for
    /// an undo.
    pub fn show(&mut self, origin: Origin) -> (c: Counters)
        requires
            room(old(self).queue@),
        ensures
            c == (old(self).queue.shown, old(self).queue.new_taken, old(self).queue.since_new),
            final(self).queue@ == spec_account(old(self).queue@, origin),
            final(self).done@ == old(self).done@,
            final(self).summary == old(self).summary,
            final(self).pool == old(self).pool,
    {
        let c = self.queue.counters();
        self.queue.account(origin);
        c
    }

    /// A card was graded (its row is written): an Again comes back later.
    pub fn graded(&mut self, item: Item, origin: Origin, counters: Counters, grade: Grade, stage: Stage)
        requires
            old(self).wf(),
            old(self).done@.len() < usize::MAX,
            old(self).queue.shown <= usize::MAX - RELEARN_GAP,
        ensures
            final(self).wf(),
            final(self).done@.len() == old(self).done@.len() + 1,
            final(self).done@.drop_last() == old(self).done@,
            final(self).done@.last().item == item,
            final(self).done@.last().origin == origin,
            final(self).done@.last().counters == counters,
            final(self).done@.last().graded == Some(grade),
            final(self).done@.last().stage == stage,
            final(self).done@.last().requeued == (grade == Grade::Again),
            grade == Grade::Again ==> final(self).queue@ == (QueueV {
                relearn: old(self).queue@.relearn.push(
                    (item, (old(self).queue.shown + RELEARN_GAP) as usize),
                ),
                ..old(self).queue@
            }),
            grade != Grade::Again ==> final(self).queue@ == old(self).queue@,
            final(self).summary.quit == old(self).summary.quit,
            final(self).pool == old(self).pool,
    {
        proof {
            lemma_counts_bounded(self.done@);
        }
        let requeued = grade == Grade::Again;
        if requeued {
            self.queue.requeue(item);
        }
        self.summary.reviews = self.summary.reviews + 1;
        if grade.is_success() {
            self.summary.correct = self.summary.correct + 1;
        }
        if origin == Origin::New {
            self.summary.new_seen = self.summary.new_seen + 1;
        }
        let ghost before = self.done@;
        self.done.push(Done { item, origin, stage, requeued, counters, graded: Some(grade) });
        assert(self.done@.drop_last() =~= before);
    }

    /// A card was skipped (its row is written).
    pub fn skipped(&mut self, item: Item, origin: Origin, counters: Counters)
        requires
            old(self).wf(),
            old(self).done@.len() < usize::MAX,
        ensures
            final(self).wf(),
            final(self).done@.drop_last() == old(self).done@,
            final(self).done@.len() == old(self).done@.len() + 1,
            final(self).done@.last().item == item,
            final(self).done@.last().origin == origin,
            final(self).done@.last().counters == counters,
            final(self).done@.last().graded is None,
            final(self).done@.last().stage == Stage::Fresh,
            !final(self).done@.last().requeued,
            final(self).queue@ == old(self).queue@,
            final(self).summary.quit == old(self).summary.quit,
            final(self).pool == old(self).pool,
    {
        proof {
            lemma_counts_bounded(self.done@);
        }
        self.summary.skipped = self.summary.skipped + 1;
        let ghost before = self.done@;
        self.done.push(
            Done { item, origin, stage: Stage::Fresh, requeued: false, counters, graded: None },
        );
        assert(self.done@.drop_last() =~= before);
    }

    /// The user quit while `item` was shown: it goes back, uncounted.
    pub fn quit(&mut self, item: Item, origin: Origin, counters: Counters)
        requires
            old(self).wf(),
        ensures
            final(self).wf(),
            final(self).summary.quit,
            final(self).done@ == old(self).done@,
            final(self).queue@ == (QueueV {
                shown: counters.0,
                new_taken: counters.1,
                since_new: counters.2,
                ..spec_push_front(old(self).queue@, item, origin)
            }),
            final(self).pool == old(self).pool,
    {
        self.queue.push_front(item, origin);
        self.queue.restore(counters);
        self.summary.quit = true;
    }

    /// The user took back the last grade or skip while `item` was shown:
    /// `item` goes back, the last done card's relearn entry is withdrawn, the
    /// counters are as before that card was shown, and the summary no longer
    /// counts it. The done card is handed back to be shown again.
    pub fn undo(&mut self, item: Item, origin: Origin) -> (d: Done)
        requires
            old(self).wf(),
            old(self).done@.len() > 0,
        ensures
            final(self).wf(),
            final(self).done@ == old(self).done@.drop_last(),
            d == old(self).done@.last(),
            final(self).queue@ == ({
                let q1 = spec_push_front(old(self).queue@, item, origin);
                let q2 = if d.requeued {
                    spec_withdraw(q1, d.item)
                } else {
                    q1
                };
                QueueV { shown: d.counters.0, new_taken: d.counters.1, since_new: d.counters.2, ..q2 }
            }),
            final(self).summary.quit == old(self).summary.quit,
            final(self).pool == old(self).pool,
    {
        let ghost all = self.done@;
        let d = self.done.pop().unwrap();
        proof {
            assert(all.drop_last() =~= self.done@);
            assert(d == all.last());
        }
        match d.graded {
            Some(grade) => {
                self.summary.reviews = self.summary.reviews - 1;
                if grade.is_success() {
                    self.summary.correct = self.summary.correct - 1;
                }
                if d.origin == Origin::New {
                    self.summary.new_seen = self.summary.new_seen - 1;
                }
            },
            None => {
                self.summary.skipped = self.summary.skipped - 1;
            },
        }
        self.queue.push_front(item, origin);
        if d.requeued {
            self.queue.withdraw(&d.item);
        }
        self.queue.restore(d.counters);
        d
    }

    /// Cards done out of the session's pool.
    pub fn done_of_pool(&self) -> (r: usize)
        requires
            self.queue.due@.len() + self.queue.relearn@.len() + self.queue.new@.len() <= usize::MAX,
        ensures
            r == (if self.pool >= spec_remaining(self.queue@) {
                self.pool - spec_remaining(self.queue@)
            } else {
                0
            }),
    {
        self.pool.saturating_sub(self.queue.remaining())
    }
}

proof fn lemma_counts_bounded(d: Seq<Done>)
    ensures
        count_graded(d) <= d.len(),
        count_correct(d) <= d.len(),
        count_skipped(d) <= d.len(),
        count_new(d) <= d.len(),
    decreases d.len(),
{
    if d.len() > 0 {
        lemma_counts_bounded(d.drop_last());
    }
}

/// An undo takes back exactly what the grade or skip it undoes added to the
/// summary: what a session adds up to depends only on the cards still done.
pub proof fn lemma_undo_takes_back(done: Seq<Done>, d: Done)
    ensures
        count_graded(done.push(d).drop_last()) == count_graded(done),
        count_graded(done.push(d)) == count_graded(done) + if d.graded is Some {
            1nat
        } else {
            0nat
        },
        count_correct(done.push(d)) == count_correct(done) + if d.graded matches Some(g) && g
            != Grade::Again {
            1nat
        } else {
            0nat
        },
        count_skipped(done.push(d)) == count_skipped(done) + if d.graded is None {
            1nat
        } else {
            0nat
        },
        count_new(done.push(d)) == count_new(done) + if d.graded is Some && d.origin == Origin::New {
            1nat
        } else {
            0nat
        },
{
    assert(done.push(d).drop_last() =~= done);
}

/// How long a session took, for its summary line.
pub open spec fn spec_took(secs: u64) -> Seq<char> {
    if secs < 60 {
        dec(secs as nat) + " s"@
    } else {
        let m = (secs as int + 30) / 60;
        spec_plural(if m < 1 {
            1nat
        } else {
            m as nat
        }, "minute"@)
    }
}

/// The share of correct reviews in percent, rounded half up.
pub open spec fn spec_percent(correct: nat, reviews: nat) -> nat {
    if reviews == 0 {
        0
    } else {
        ((200 * correct + reviews) / (2 * reviews)) as nat
    }
}

/// One line that sums up a session.
pub open spec fn spec_summary_line(s: Summary, secs: u64) -> Seq<char> {
    if s.reviews == 0 {
        if s.skipped > 0 {
            spec_plural(s.skipped as nat, "card"@) + " skipped, nothing graded."@
        } else {
            "Nothing reviewed."@
        }
    } else {
        let parts = seq![
            spec_plural(s.reviews as nat, "review"@) + " in "@ + spec_took(secs),
            dec(s.correct as nat) + " correct ("@ + dec(spec_percent(s.correct as nat, s.reviews as nat)) + "%)"@,
        ];
        let parts2 = if s.new_seen > 0 {
            parts.push(dec(s.new_seen as nat) + " new"@)
        } else {
            parts
        };
        let parts3 = if s.skipped > 0 {
            parts2.push(dec(s.skipped as nat) + " skipped"@)
        } else {
            parts2
        };
        join(parts3, " · "@)
    }
}

/// Sums up a session that has run `secs` seconds.
pub fn summary_line(s: &Summary, secs: u64) -> (r: String)
    requires
        s.correct <= s.reviews,
    ensures
        r@ == spec_summary_line(*s, secs),
{
    if s.reviews == 0 {
        if s.skipped > 0 {
            let mut out = plural(s.skipped, "card");
            push_str(&mut out, " skipped, nothing graded.");
            return out;
        }
        return owned("Nothing reviewed.");
    }
    let took = if secs < 60 {
        let mut t = String::new();
        push_dec(&mut t, secs);
        push_str(&mut t, " s");
        t
    } else {
        let m = (secs / 2 + 15) / 30;
        assert(m == (secs as int + 30) / 60) by (nonlinear_arith)
            requires
                m == (secs / 2 + 15) / 30,
                secs >= 60,
        ;
        let m1: u64 = if m < 1 {
            1
        } else {
            m
        };
        let mut t = String::new();
        push_dec(&mut t, m1);
        push_str(&mut t, " minute");
        if m1 != 1 {
            crate::strs::push_char(&mut t, 's');
        }
        proof {
            reveal_strlit(" minute");
            reveal_strlit("minute");
            assert(" minute"@ =~= seq![' '] + "minute"@);
            let mm: int = (secs as int + 30) / 60;
            let mn: nat = if mm < 1 { 1nat } else { mm as nat };
            assert(mn == m1 as nat);
            if m1 != 1 {
                assert(t@ =~= dec(mn) + seq![' '] + "minute"@ + seq!['s']);
            } else {
                assert(t@ =~= dec(mn) + seq![' '] + "minute"@);
            }
        }
        t
    };
    assert(took@ == spec_took(secs));
    let reviews = s.reviews as u128;
    let correct = s.correct as u128;
    let pct = (200 * correct + reviews) / (2 * reviews);
    assert(pct <= 100) by (nonlinear_arith)
        requires
            pct == (200 * correct + reviews) / (2 * reviews),
            correct <= reviews,
            reviews > 0,
    ;
    let mut parts: Vec<String> = Vec::new();
    let mut p0 = plural(s.reviews, "review");
    push_str(&mut p0, " in ");
    push_str(&mut p0, took.as_str());
    assert(p0@ == spec_plural(s.reviews as nat, "review"@) + " in "@ + spec_took(secs));
    parts.push(p0);
    let mut p1 = String::new();
    push_dec(&mut p1, s.correct as u64);
    push_str(&mut p1, " correct (");
    push_dec(&mut p1, pct as u64);
    push_str(&mut p1, "%)");
    assert(pct as nat == spec_percent(s.correct as nat, s.reviews as nat));
    assert(p1@ == dec(s.correct as nat) + " correct ("@ + dec(spec_percent(s.correct as nat, s.reviews as nat)) + "%)"@);
    parts.push(p1);
    let ghost v2 = crate::text::strings_view(parts@);
    assert(v2 =~= seq![
            spec_plural(s.reviews as nat, "review"@) + " in "@ + spec_took(secs),
            dec(s.correct as nat) + " correct ("@ + dec(spec_percent(s.correct as nat, s.reviews as nat)) + "%)"@,
        ]);
    if s.new_seen > 0 {
        let mut p = String::new();
        push_dec(&mut p, s.new_seen as u64);
        push_str(&mut p, " new");
        let ghost b = crate::text::strings_view(parts@);
        parts.push(p);
        assert(crate::text::strings_view(parts@) =~= b.push(p@));
    }
    if s.skipped > 0 {
        let mut p = String::new();
        push_dec(&mut p, s.skipped as u64);
        push_str(&mut p, " skipped");
        let ghost b = crate::text::strings_view(parts@);
        parts.push(p);
        assert(crate::text::strings_view(parts@) =~= b.push(p@));
    }
    let r = crate::text::join_strings(&parts, " · ");
    proof {
        let expect = seq![
            spec_plural(s.reviews as nat, "review"@) + " in "@ + spec_took(secs),
            dec(s.correct as nat) + " correct ("@ + dec(spec_percent(s.correct as nat, s.reviews as nat)) + "%)"@,
        ];
        let parts2 = if s.new_seen > 0 {
            expect.push(dec(s.new_seen as nat) + " new"@)
        } else {
            expect
        };
        let parts3 = if s.skipped > 0 {
            parts2.push(dec(s.skipped as nat) + " skipped"@)
        } else {
            parts2
        };
        assert(crate::text::strings_view(parts@) =~= parts3);
    }
    r
}

/// Where a session stands: cards done of its pool and the time left.
pub open spec fn spec_progress(done: nat, pool: nat, secs_left: u64) -> Seq<char> {
    let mins = (secs_left as int + 59) / 60;
    dec(done) + "/"@ + dec(pool) + " · "@ + if mins == 0 {
        "time's up"@
    } else {
        dec(mins as nat) + " min left"@
    }
}

pub fn progress(done: usize, pool: usize, secs_left: u64) -> (r: String)
    ensures
        r@ == spec_progress(done as nat, pool as nat, secs_left),
{
    let mins: u64 = secs_left / 60 + if secs_left % 60 > 0 {
        1
    } else {
        0
    };
    assert(mins == (secs_left as int + 59) / 60) by (nonlinear_arith)
        requires
            mins == secs_left / 60 + if secs_left % 60 > 0 {
                1int
            } else {
                0int
            },
    ;
    let mut s = String::new();
    push_dec(&mut s, done as u64);
    push_str(&mut s, "/");
    push_dec(&mut s, pool as u64);
    push_str(&mut s, " · ");
    if mins == 0 {
        push_str(&mut s, "time's up");
    } else {
        push_dec(&mut s, mins);
        push_str(&mut s, " min left");
    }
    s
}

/// What to do before the next card, as far as time goes.
#[derive(Clone, Copy, Debug, PartialEq, Eq, Structural)]
pub enum TimeCheck {
    /// Time is left, or there is no limit: go on.
    Go,
    /// Time is up and nothing remains: stop.
    Stop,
    /// Time is up and cards remain: ask whether to go on.
    Ask,
}

/// Time is up once `elapsed` reaches the budget; then the session stops if
/// no card remains and asks otherwise. No budget never runs out.
pub fn time_check(elapsed_secs: u64, budget_secs: Option<u64>, remaining: usize) -> (r: TimeCheck)
    ensures
        r == (match budget_secs {
            None => TimeCheck::Go,
            Some(b) => if elapsed_secs < b {
                TimeCheck::Go
            } else if remaining == 0 {
                TimeCheck::Stop
            } else {
                TimeCheck::Ask
            },
        }),
{
    match budget_secs {
        None => TimeCheck::Go,
        Some(b) => if elapsed_secs < b {
            TimeCheck::Go
        } else if remaining == 0 {
            TimeCheck::Stop
        } else {
            TimeCheck::Ask
        },
    }
}

/// `-n N` stops a session once N cards were graded or skipped.
pub fn cap_reached(done: usize, cap: Option<usize>) -> (r: bool)
    ensures
        r == (cap matches Some(n) && done >= n),
{
    match cap {
        Some(n) => done >= n,
        None => false,
    }
}

/// A typed answer that matches, typed just now, is graded Good at once;
/// any other is graded by a key.
pub fn typed_auto_grade(t: Typed, fresh: bool) -> (r: Option<Grade>)
    ensures
        r == (if t == Typed::Right && fresh {
            Some(Grade::Good)
        } else {
            None
        }),
{
    if t == Typed::Right && fresh {
        Some(Grade::Good)
    } else {
        None
    }
}

/// What grading a typed-mode card records: the grade, the typed answer
/// (none when the answer was only revealed), whether a wrong answer was
/// counted as Good, and the stage that an undo brings the card back to.
#[derive(Debug)]
pub struct TypedGrade {
    pub grade: Grade,
    pub answer: Option<String>,
    pub overridden: bool,
    pub stage: Stage,
}

/// The record a typed-mode reaction makes, given what was typed and how it
/// compared. A grade keeps its value; "typo, count it" is a single Good
/// marked as overridden; a revealed card carries no answer and comes back
/// revealed, a checked one carries the typed text and comes back checked.
/// Other reactions record nothing.
pub fn typed_grade(state: Typed, reaction: Reaction, typed: String) -> (r: Option<TypedGrade>)
    ensures
        r is Some <==> (reaction is Grade || reaction is Override),
        reaction matches Reaction::Grade(g) ==> (r matches Some(t) && t.grade == g && !t.overridden),
        reaction is Override ==> (r matches Some(t) && t.grade == Grade::Good && t.overridden),
        r matches Some(t) ==> (state == Typed::Revealed ==> t.answer is None && t.stage is Revealed),
        r matches Some(t) ==> (state != Typed::Revealed ==> (t.answer matches Some(a) && a@ == typed@)
            && (t.stage matches Stage::Checked { typed: s, correct } && s@ == typed@ && correct == (
        state == Typed::Right))),
{
    let (grade, overridden) = match reaction {
        Reaction::Grade(g) => (g, false),
        Reaction::Override => (Grade::Good, true),
        _ => {
            return None;
        },
    };
    let (answer, stage) = match state {
        Typed::Revealed => (None, Stage::Revealed),
        Typed::Right => (Some(typed.clone()), Stage::Checked { typed, correct: true }),
        Typed::Wrong => (Some(typed.clone()), Stage::Checked { typed, correct: false }),
    };
    Some(TypedGrade { grade, answer, overridden, stage })
}

/// The question asked when the time is up and cards remain.
pub open spec fn spec_continue_prompt(remaining: nat, minutes: nat) -> Seq<char> {
    spec_plural(remaining, "card"@) + " remain. Continue for "@ + spec_plural(minutes, "minute"@)
        + " more? [y/N] "@
}

pub fn continue_prompt(remaining: usize, minutes: u32) -> (r: String)
    ensures
        r@ == spec_continue_prompt(remaining as nat, minutes as nat),
{
    let mut s = plural(remaining, "card");
    push_str(&mut s, " remain. Continue for ");
    let m = plural(minutes as usize, "minute");
    push_str(&mut s, m.as_str());
    push_str(&mut s, " more? [y/N] ");
    s
}

/// Only `y` continues a session whose time is up.
pub fn continue_key(k: Key) -> (r: bool)
    ensures
        r == (k == Key::Char('y') || k == Key::Char('Y')),
{
    k == Key::Char('y') || k == Key::Char('Y')
}
} // verus!
