//! What `add`, `rename` and `check` decide about card lines: which words
//! are deck, front and back; which cards may be written; how a renamed line
//! reads; and what `check` reports.

use vstd::prelude::*;

use crate::deck::{spec_front_is_ignored, spec_split_card, split_card, front_is_ignored};
use crate::error::Error;
use crate::ledger::{History, Ledger};
use crate::store::{deck_name_from_arg, spec_deck_name_from_arg};
use crate::strs::{
    chars_of, contains, contains_exec, dec, lemma_find_first, lemma_find_none, lemma_occurs_contains, occurs_at, lead_ws, owned, push_dec, push_str, slice_chars, str_eq,
    string_of, trail_ws, trim,
};
use crate::text::{front_key, spec_front_key, spec_plural, strings_view};
use crate::types::Goal;

verus! {

/// `reword add` as the command line gave it.
pub struct AddArgs {
    pub deck: Option<String>,
    pub front: Option<String>,
    pub back: Option<String>,
    /// Also ask back → front (writes a `:::` line).
    pub reverse: bool,
}

/// Is `name` among `decks`?
pub open spec fn among(decks: Seq<Seq<char>>, name: Seq<char>) -> bool {
    exists|i: int| 0 <= i < decks.len() && decks[i] == name
}

fn among_exec(decks: &Vec<String>, name: &str) -> (r: bool)
    ensures
        r == among(strings_view(decks@), name@),
{
    let mut i: usize = 0;
    while i < decks.len()
        invariant
            i <= decks@.len(),
            forall|j: int| 0 <= j < i ==> strings_view(decks@)[j] != name@,
        decreases decks@.len() - i,
    {
        if str_eq(decks[i].as_str(), name) {
            assert(strings_view(decks@)[i as int] == name@);
            return true;
        }
        i = i + 1;
    }
    false
}


pub open spec fn opt_view(o: Option<String>) -> Option<Seq<char>> {
    match o {
        Some(s) => Some(s@),
        None => None,
    }
}

pub open spec fn word_at(ws: Seq<Seq<char>>, i: int) -> Option<Seq<char>> {
    if 0 <= i < ws.len() {
        Some(ws[i])
    } else {
        None
    }
}

/// The words given to `add`, sorted into deck, front and back without
/// guessing: a word that names an existing deck is the deck; with exactly
/// one deck and no deck word, the words are front and back.
pub open spec fn spec_sort_words(ws: Seq<Seq<char>>, decks: Seq<Seq<char>>) -> (
    Option<Seq<char>>,
    Option<Seq<char>>,
    Option<Seq<char>>,
) {
    if ws.len() == 3 {
        (Some(ws[0]), Some(ws[1]), Some(ws[2]))
    } else if ws.len() == 0 {
        (None, None, None)
    } else if among(decks, spec_deck_name_from_arg(ws[0])) || decks.len() != 1 {
        (Some(ws[0]), word_at(ws, 1), None)
    } else {
        (None, Some(ws[0]), word_at(ws, 1))
    }
}

fn word_at_exec(ws: &Vec<String>, i: usize) -> (r: Option<String>)
    ensures
        opt_view(r) == word_at(strings_view(ws@), i as int),
{
    if i < ws.len() {
        Some(owned(ws[i].as_str()))
    } else {
        None
    }
}

pub fn sort_words(words: &Vec<String>, decks: &Vec<String>) -> (r: (Option<String>, Option<String>, Option<String>))
    ensures
        (opt_view(r.0), opt_view(r.1), opt_view(r.2)) == spec_sort_words(strings_view(words@), strings_view(decks@)),
{
    let ghost wv = strings_view(words@);
    if words.len() == 3 {
        return (word_at_exec(words, 0), word_at_exec(words, 1), word_at_exec(words, 2));
    }
    if words.len() == 0 {
        return (None, None, None);
    }
    let first = deck_name_from_arg(words[0].as_str());
    if among_exec(decks, first.as_str()) || decks.len() != 1 {
        (word_at_exec(words, 0), word_at_exec(words, 1), None)
    } else {
        (None, word_at_exec(words, 0), word_at_exec(words, 1))
    }
}

/// Why a card cannot be added as entered, if it cannot; the front is
/// compared as a card key (trimmed, NFC) and the back trimmed.
pub open spec fn spec_card_problem(front: Seq<char>, back: Seq<char>, reverse: bool) -> Option<Seq<char>> {
    if front.len() == 0 || back.len() == 0 {
        Some("front and back cannot be empty"@)
    } else if contains(front, "::"@) {
        Some("the front cannot contain \"::\" (it is the card separator)"@)
    } else if spec_front_is_ignored(front) {
        Some(
            "the front cannot start with \"#\" or \"```\"; the deck parser treats such lines as comments"@,
        )
    } else if !reverse && contains(back, ":::"@) {
        Some("a \"::\" card's back cannot contain \":::\"; use --reverse or rephrase"@)
    } else if contains(front, seq!['\n']) || contains(back, seq!['\n']) {
        Some("cards are one line each"@)
    } else {
        None
    }
}

/// The card `add` writes: the front as a card key and the back trimmed, or
/// why it cannot be written.
pub fn check_card(front_raw: &str, back_raw: &str, reverse: bool) -> (r: Result<(String, String), Error>)
    ensures
        match spec_card_problem(spec_front_key(front_raw@), trim(back_raw@), reverse) {
            None => r matches Ok((f, b)) && f@ == spec_front_key(front_raw@) && b@ == trim(back_raw@),
            Some(m) => r matches Err(e) && e.message@ == m,
        },
{
    let front = front_key(front_raw);
    let bv = chars_of(back_raw);
    let bt = crate::strs::trim_chars(bv.as_slice());
    let back = string_of(bt.as_slice());
    let fv = chars_of(front.as_str());
    let d2: Vec<char> = vec![':', ':'];
    let d3: Vec<char> = vec![':', ':', ':'];
    let nl: Vec<char> = vec!['\n'];
    proof {
        reveal_strlit("::");
        reveal_strlit(":::");
        assert(d2@ == "::"@);
        assert(d3@ == ":::"@);
        assert(nl@ == seq!['\n']);
    }
    if fv.len() == 0 || bt.len() == 0 {
        return Err(Error::new(owned("front and back cannot be empty")));
    }
    if contains_exec(fv.as_slice(), d2.as_slice()) {
        return Err(Error::new(owned("the front cannot contain \"::\" (it is the card separator)")));
    }
    if front_is_ignored(front.as_str()) {
        return Err(
            Error::new(
                owned(
                    "the front cannot start with \"#\" or \"```\"; the deck parser treats such lines as comments",
                ),
            ),
        );
    }
    if !reverse && contains_exec(bt.as_slice(), d3.as_slice()) {
        return Err(Error::new(owned("a \"::\" card's back cannot contain \":::\"; use --reverse or rephrase")));
    }
    if contains_exec(fv.as_slice(), nl.as_slice()) || contains_exec(bt.as_slice(), nl.as_slice()) {
        return Err(Error::new(owned("cards are one line each")));
    }
    Ok((front, back))
}

/// A card line: `front::back`, or `front:::back` for both directions.
pub open spec fn spec_card_line(front: Seq<char>, back: Seq<char>, reverse: bool) -> Seq<char> {
    front + if reverse {
        ":::"@
    } else {
        "::"@
    } + back
}

pub fn card_line(front: &str, back: &str, reverse: bool) -> (r: String)
    ensures
        r@ == spec_card_line(front@, back@, reverse),
{
    let mut s = owned(front);
    if reverse {
        push_str(&mut s, ":::");
    } else {
        push_str(&mut s, "::");
    }
    push_str(&mut s, back);
    s
}

/// The line `add` writes reads back as the card entered: it splits into
/// the same front and back, as a two-way card exactly when `reverse` is
/// set. This holds when the front has no `::` and does not end in `:`, and,
/// for a one-way card, the back has no `:::` and does not start with `:`
/// (otherwise the separator would run into the text beside it).
pub proof fn lemma_card_line_reads_back(front: Seq<char>, back: Seq<char>, reverse: bool)
    requires
        !contains(front, seq![':', ':']),
        !(front.len() > 0 && front.last() == ':'),
        !reverse ==> !contains(back, seq![':', ':', ':']) && !(back.len() > 0 && back[0] == ':'),
    ensures
        spec_split_card(spec_card_line(front, back, reverse)) == Some((front, back, reverse)),
{
    reveal_strlit(":::");
    reveal_strlit("::");
    let n = front.len() as int;
    let p3 = seq![':', ':', ':'];
    let p2 = seq![':', ':'];
    let line = spec_card_line(front, back, reverse);
    // A `::` that starts inside the front would be in the front, or make it
    // end in `:`.
    assert forall|j: int| 0 <= j < n && #[trigger] occurs_at(line, p2, j) implies false by {
        assert(line[j] == front[j]);
        if j + 1 < n {
            assert(line[j + 1] == front[j + 1]);
            assert(front.subrange(j, j + 2) =~= p2);
            lemma_occurs_contains(front, p2, j);
        } else {
            assert(front.last() == front[j]);
        }
    }
    assert forall|j: int| 0 <= j < n && #[trigger] occurs_at(line, p3, j) implies false by {
        assert(line.subrange(j, j + 2) =~= p2);
        assert(occurs_at(line, p2, j));
    }
    if reverse {
        assert(line =~= front + p3 + back);
        assert(line.subrange(n, n + 3) =~= p3);
        lemma_find_first(line, p3, n);
        assert(line.take(n) =~= front);
        assert(line.skip(n + 3) =~= back);
    } else {
        assert(line =~= front + p2 + back);
        assert forall|j: int| 0 <= j <= line.len() implies !#[trigger] occurs_at(line, p3, j) by {
            if occurs_at(line, p3, j) {
                if j < n {
                } else if j <= n + 1 {
                    assert(line[j + 2] == back[0]);
                } else {
                    let b = j - n - 2;
                    assert(back.subrange(b, b + 3) =~= line.subrange(j, j + 3));
                    lemma_occurs_contains(back, p3, b);
                }
            }
        }
        lemma_find_none(line, p3);
        assert(line.subrange(n, n + 2) =~= p2);
        lemma_find_first(line, p2, n);
        assert(line.take(n) =~= front);
        assert(line.skip(n + 2) =~= back);
    }
}

/// A deck's text with a line appended, and whether a line ending had to be
/// added first so the new line does not join the last one.
pub open spec fn spec_with_line(text: Seq<char>, line: Seq<char>) -> (Seq<char>, bool) {
    let needs = text.len() > 0 && text.last() != '\n';
    ((if needs {
        text.push('\n')
    } else {
        text
    }) + line + seq!['\n'], needs)
}

pub fn with_line(text: &str, line: &str) -> (r: (String, bool))
    ensures
        (r.0@, r.1) == spec_with_line(text@, line@),
{
    let v = chars_of(text);
    let needs = v.len() > 0 && v[v.len() - 1] != '\n';
    let mut s = owned(text);
    if needs {
        crate::strs::push_char(&mut s, '\n');
    }
    push_str(&mut s, line);
    crate::strs::push_char(&mut s, '\n');
    (s, needs)
}

/// Why a rename cannot go ahead, if it cannot; both fronts are compared as
/// card keys.
pub open spec fn spec_rename_problem(old: Seq<char>, new: Seq<char>) -> Option<Seq<char>> {
    if old.len() == 0 || new.len() == 0 {
        Some("fronts cannot be empty"@)
    } else if old == new {
        Some("old and new fronts are the same"@)
    } else if contains(new, "::"@) {
        Some("the new front cannot contain \"::\""@)
    } else if spec_front_is_ignored(new) {
        Some(
            "the new front cannot start with \"#\" or \"```\"; the deck parser treats such lines as comments"@,
        )
    } else {
        None
    }
}

/// A front that `add` or `rename` accepts is one the deck parser reads as a
/// card's front: not empty, without the separator, and not a line it
/// ignores.
pub proof fn lemma_accepted_fronts_are_cards(front: Seq<char>, back: Seq<char>, reverse: bool, old: Seq<char>)
    ensures
        spec_card_problem(front, back, reverse) is None ==> front.len() > 0 && !contains(front, "::"@)
            && !crate::deck::spec_front_is_ignored(front),
        spec_rename_problem(old, front) is None ==> front.len() > 0 && !contains(front, "::"@)
            && !crate::deck::spec_front_is_ignored(front),
{
}

/// The card keys of a rename, or why it cannot go ahead.
pub fn check_rename(old: &str, new: &str) -> (r: Result<(String, String), Error>)
    ensures
        match spec_rename_problem(spec_front_key(old@), spec_front_key(new@)) {
            None => r matches Ok((o, n)) && o@ == spec_front_key(old@) && n@ == spec_front_key(new@),
            Some(m) => r matches Err(e) && e.message@ == m,
        },
{
    let old_key = front_key(old);
    let new_key = front_key(new);
    let nv = chars_of(new_key.as_str());
    let d2: Vec<char> = vec![':', ':'];
    proof {
        reveal_strlit("::");
        assert(d2@ == "::"@);
    }
    if old_key.as_str().is_empty() || new_key.as_str().is_empty() {
        return Err(Error::new(owned("fronts cannot be empty")));
    }
    if str_eq(old_key.as_str(), new_key.as_str()) {
        return Err(Error::new(owned("old and new fronts are the same")));
    }
    if contains_exec(nv.as_slice(), d2.as_slice()) {
        return Err(Error::new(owned("the new front cannot contain \"::\"")));
    }
    if front_is_ignored(new_key.as_str()) {
        return Err(
            Error::new(
                owned(
                    "the new front cannot start with \"#\" or \"```\"; the deck parser treats such lines as comments",
                ),
            ),
        );
    }
    Ok((old_key, new_key))
}

/// A deck line with its front replaced, keeping the whitespace around the
/// front and everything from the separator on; `None` if it is no longer a
/// card line.
pub open spec fn spec_rebuild_line(raw: Seq<char>, new_key: Seq<char>) -> Option<Seq<char>> {
    match spec_split_card(raw) {
        None => None,
        Some((f, _, _)) => {
            let lead = lead_ws(f);
            let trail = trail_ws(f);
            Some(f.take(lead as int) + new_key + f.skip(f.len() - trail) + raw.skip(f.len() as int))
        },
    }
}

pub fn rebuild_line(raw: &str, new_key: &str) -> (r: Option<String>)
    ensures
        match spec_rebuild_line(raw@, new_key@) {
            None => r is None,
            Some(l) => r matches Some(s) && s@ == l,
        },
{
    match split_card(raw) {
        None => None,
        Some((front_part, _, _)) => {
            let fv = chars_of(front_part);
            let rv = chars_of(raw);
            let lead = crate::strs::lead_ws_len(fv.as_slice());
            let trail = crate::strs::trail_ws_len(fv.as_slice());
            let n = fv.len();
            proof {
                crate::strs::lemma_lead_ws_bound(fv@);
                crate::strs::lemma_trail_bound(fv@);
                lemma_split_front_len(raw@);
            }
            let head = slice_chars(fv.as_slice(), 0, lead);
            let tail = slice_chars(fv.as_slice(), n - trail, n);
            let rest = slice_chars(rv.as_slice(), n, rv.len());
            let mut s = string_of(head.as_slice());
            push_str(&mut s, new_key);
            crate::strs::push_chars(&mut s, tail.as_slice());
            crate::strs::push_chars(&mut s, rest.as_slice());
            proof {
                assert(head@ =~= front_part@.take(lead as int));
                assert(tail@ =~= front_part@.skip(n - trail));
                assert(rest@ =~= raw@.skip(n as int));
            }
            Some(s)
        },
    }
}

proof fn lemma_split_front_len(raw: Seq<char>)
    ensures
        spec_split_card(raw) matches Some((f, _, _)) ==> f.len() <= raw.len(),
{
    crate::strs::lemma_find_range(raw, seq![':', ':', ':']);
    crate::strs::lemma_find_range(raw, seq![':', ':']);
}

/// The lines of a text, each with its line ending, as
/// `str::split_inclusive('\n')` gives them.
pub open spec fn inclusive_lines(s: Seq<char>) -> Seq<Seq<char>>
    decreases s.len(),
{
    if s.len() == 0 {
        Seq::empty()
    } else {
        match crate::strs::find(s, seq!['\n']) {
            Some(i) => if 0 <= i < s.len() {
                seq![s.take(i + 1)] + inclusive_lines(s.skip(i + 1))
            } else {
                seq![s]
            },
            None => seq![s],
        }
    }
}

/// The history a check reports as orphaned: a front and direction whose
/// card is gone, with its number of reviews.
pub struct Orphan {
    pub front: String,
    pub goal: Goal,
    pub reviews: usize,
}

/// How `check` reports an orphaned history.
pub open spec fn spec_orphan_message(log_label: Seq<char>, deck: Seq<char>, front: Seq<char>, goal: Goal, n: nat) -> Seq<
    char,
> {
    log_label + ": history for \""@ + front + "\""@ + (if goal == Goal::Reverse {
        " (reverse side)"@
    } else {
        Seq::empty()
    }) + " has no card ("@ + spec_plural(n, "review"@)
        + "). Re-add the card to resume it, or carry it over: reword rename "@ + deck + " \""@ + front
        + "\" NEW"@
}

pub fn orphan_message(log_label: &str, deck: &str, o: &Orphan) -> (r: String)
    ensures
        r@ == spec_orphan_message(log_label@, deck@, o.front@, o.goal, o.reviews as nat),
{
    let mut s = owned(log_label);
    push_str(&mut s, ": history for \"");
    push_str(&mut s, o.front.as_str());
    push_str(&mut s, "\"");
    if o.goal == Goal::Reverse {
        push_str(&mut s, " (reverse side)");
    }
    push_str(&mut s, " has no card (");
    let p = crate::text::plural(o.reviews, "review");
    push_str(&mut s, p.as_str());
    push_str(&mut s, "). Re-add the card to resume it, or carry it over: reword rename ");
    push_str(&mut s, deck);
    push_str(&mut s, " \"");
    push_str(&mut s, o.front.as_str());
    push_str(&mut s, "\" NEW");
    proof {
        if o.goal != Goal::Reverse {
            assert(s@ =~= spec_orphan_message(log_label@, deck@, o.front@, o.goal, o.reviews as nat));
        }
    }
    s
}

/// How `check` reports a log without its deck file.
pub open spec fn spec_stray_message(log_label: Seq<char>, stray: Seq<char>) -> Seq<char> {
    log_label + ": no deck file beside it (decks/"@ + stray
        + ".md). Restore the deck or delete the log."@
}

pub fn stray_message(log_label: &str, stray: &str) -> (r: String)
    ensures
        r@ == spec_stray_message(log_label@, stray@),
{
    let mut s = owned(log_label);
    push_str(&mut s, ": no deck file beside it (decks/");
    push_str(&mut s, stray);
    push_str(&mut s, ".md). Restore the deck or delete the log.");
    s
}

/// The last line of `check`.
pub open spec fn spec_check_verdict(decks: nat, cards: nat, problems: nat, notes: nat) -> Seq<char> {
    spec_plural(decks, "deck"@) + ", "@ + spec_plural(cards, "card"@) + ": "@ + (if problems == 0 {
        "no problems"@
    } else {
        spec_plural(problems, "problem"@)
    }) + if notes > 0 {
        ", "@ + spec_plural(notes, "note"@)
    } else {
        Seq::empty()
    }
}

pub fn check_verdict(decks: usize, cards: usize, problems: usize, notes: usize) -> (r: String)
    ensures
        r@ == spec_check_verdict(decks as nat, cards as nat, problems as nat, notes as nat),
{
    let mut s = crate::text::plural(decks, "deck");
    push_str(&mut s, ", ");
    let c = crate::text::plural(cards, "card");
    push_str(&mut s, c.as_str());
    push_str(&mut s, ": ");
    if problems == 0 {
        push_str(&mut s, "no problems");
    } else {
        let p = crate::text::plural(problems, "problem");
        push_str(&mut s, p.as_str());
    }
    if notes > 0 {
        push_str(&mut s, ", ");
        let n = crate::text::plural(notes, "note");
        push_str(&mut s, n.as_str());
    }
    proof {
        if notes == 0 {
            assert(s@ =~= spec_check_verdict(decks as nat, cards as nat, problems as nat, notes as nat));
        }
    }
    s
}

/// An orphan as plain values.
pub struct OrphanV {
    pub front: Seq<char>,
    pub goal: Goal,
    pub reviews: nat,
}

impl View for Orphan {
    type V = OrphanV;

    open spec fn view(&self) -> OrphanV {
        OrphanV { front: self.front@, goal: self.goal, reviews: self.reviews as nat }
    }
}

pub open spec fn orphans_view(v: Seq<Orphan>) -> Seq<OrphanV> {
    v.map_values(|o: Orphan| o@)
}

/// Is the card of this history still in the deck, in this direction?
pub open spec fn history_present(cards: Seq<crate::deck::CardV>, front: Seq<char>, goal: Goal) -> bool {
    match crate::deck::find_card(cards, front) {
        Some(i) => goal == Goal::Forward || cards[i].reverse,
        None => false,
    }
}

/// The histories whose card is gone, in ledger order.
pub open spec fn orphans_of(items: Seq<History>, cards: Seq<crate::deck::CardV>) -> Seq<OrphanV>
    decreases items.len(),
{
    if items.len() == 0 {
        Seq::empty()
    } else {
        let rest = orphans_of(items.drop_last(), cards);
        let h = items.last();
        if history_present(cards, h.front@, h.goal) {
            rest
        } else {
            rest.push(OrphanV { front: h.front@, goal: h.goal, reviews: h.reviews@.len() })
        }
    }
}

pub open spec fn goal_rank(g: Goal) -> int {
    match g {
        Goal::Forward => 0,
        Goal::Reverse => 1,
    }
}

/// Orphans in order of front, then direction, then count.
pub open spec fn orphan_before() -> spec_fn(OrphanV, OrphanV) -> bool {
    |a: OrphanV, b: OrphanV|
        crate::commands::text_less(a.front, b.front) || (a.front == b.front && (goal_rank(a.goal)
            < goal_rank(b.goal) || (a.goal == b.goal && a.reviews < b.reviews)))
}

fn orphan_before_exec(a: &Orphan, b: &Orphan) -> (r: bool)
    ensures
        r == (orphan_before())(a@, b@),
{
    if crate::commands::text_less_pub(a.front.as_str(), b.front.as_str()) {
        return true;
    }
    if !str_eq(a.front.as_str(), b.front.as_str()) {
        return false;
    }
    let ga: u8 = match a.goal {
        Goal::Forward => 0,
        Goal::Reverse => 1,
    };
    let gb: u8 = match b.goal {
        Goal::Forward => 0,
        Goal::Reverse => 1,
    };
    ga < gb || (ga == gb && a.reviews < b.reviews)
}

/// The histories of a deck whose card is gone, sorted.
pub fn orphans(ld: &crate::store::LoadedDeck) -> (r: Vec<Orphan>)
    ensures
        orphans_view(r@) == crate::sorting::sort_by_before(
            orphans_of(ld.ledger.items@, crate::commands::deck_cards(*ld)),
            orphan_before(),
        ),
{
    let items = &ld.ledger.items;
    let ghost cs = crate::commands::deck_cards(*ld);
    let mut out: Vec<Orphan> = Vec::new();
    let mut i: usize = 0;
    while i < items.len()
        invariant
            i <= items@.len(),
            items@ == ld.ledger.items@,
            cs == ld.deck.cards@.map_values(|c: crate::deck::Card| c@),
            orphans_view(out@) == orphans_of(items@.take(i as int), cs),
        decreases items@.len() - i,
    {
        let h = &items[i];
        proof {
            assert(items@.take(i + 1).drop_last() =~= items@.take(i as int));
            assert(items@.take(i + 1).last() == *h);
        }
        let found = ld.deck.find(h.front.as_str());
        let present = match found {
            Some(card) => h.goal == Goal::Forward || card.reverse,
            None => false,
        };
        proof {
            crate::deck::lemma_find_card(cs, h.front@);
            match crate::deck::find_card(cs, h.front@) {
                Some(q) => {
                    assert(cs[q] == ld.deck.cards@[q]@);
                },
                None => {},
            }
            assert(present == history_present(cs, h.front@, h.goal));
        }
        if !present {
            let o = Orphan { front: owned(h.front.as_str()), goal: h.goal, reviews: h.reviews.len() };
            let ghost b = orphans_view(out@);
            out.push(o);
            assert(orphans_view(out@) =~= b.push(o@));
        }
        i = i + 1;
    }
    assert(items@.take(i as int) =~= items@);
    sort_orphans(&out)
}

spec fn picked_orphans(order: Seq<usize>, ov: Seq<OrphanV>) -> Seq<OrphanV> {
    order.map_values(|j: usize| ov[j as int])
}

/// Stable sort of orphans.
fn sort_orphans(v: &Vec<Orphan>) -> (r: Vec<Orphan>)
    ensures
        orphans_view(r@) == crate::sorting::sort_by_before(orphans_view(v@), orphan_before()),
{
    let ghost ov = orphans_view(v@);
    let mut order: Vec<usize> = Vec::new();
    let mut i: usize = 0;
    while i < v.len()
        invariant
            i <= v@.len(),
            ov == orphans_view(v@),
            order@.len() == i,
            forall|k: int| 0 <= k < order@.len() ==> (#[trigger] order@[k]) < i,
            picked_orphans(order@, ov) == crate::sorting::sort_by_before(ov.take(i as int), orphan_before()),
        decreases v@.len() - i,
    {
        let mut pos: usize = order.len();
        while pos > 0 && orphan_before_exec(&v[i], &v[order[pos - 1]])
            invariant
                pos <= order@.len(),
                i < v@.len(),
                ov == orphans_view(v@),
                forall|k: int| 0 <= k < order@.len() ==> (#[trigger] order@[k]) < i,
                forall|j: int| pos <= j < order@.len() ==> (orphan_before())(ov[i as int], #[trigger] picked_orphans(order@, ov)[j]),
            decreases pos,
        {
            assert(picked_orphans(order@, ov)[pos - 1] == ov[order@[pos - 1] as int]);
            pos = pos - 1;
        }
        let ghost s = picked_orphans(order@, ov);
        let ghost x = ov[i as int];
        proof {
            if pos > 0 {
                assert(s[pos - 1] == ov[order@[pos - 1] as int]);
            }
            crate::sorting::lemma_insert_by_at(s, x, orphan_before(), pos as int);
            assert(ov.take(i + 1).drop_last() =~= ov.take(i as int));
            assert(ov.take(i + 1).last() == x);
        }
        order.insert(pos, i);
        assert(picked_orphans(order@, ov) =~= s.take(pos as int).push(x) + s.skip(pos as int));
        i = i + 1;
    }
    assert(ov.take(i as int) =~= ov);
    let mut r: Vec<Orphan> = Vec::new();
    let mut k: usize = 0;
    while k < order.len()
        invariant
            k <= order@.len(),
            order@.len() == v@.len(),
            ov == orphans_view(v@),
            forall|q: int| 0 <= q < order@.len() ==> (#[trigger] order@[q]) < v@.len(),
            orphans_view(r@) == picked_orphans(order@, ov).take(k as int),
        decreases order@.len() - k,
    {
        let o = &v[order[k]];
        let copy = Orphan { front: owned(o.front.as_str()), goal: o.goal, reviews: o.reviews };
        let ghost b = orphans_view(r@);
        assert(copy@ == ov[order@[k as int] as int]);
        r.push(copy);
        assert(orphans_view(r@) =~= b.push(copy@));
        assert(orphans_view(r@) =~= picked_orphans(order@, ov).take(k + 1));
        k = k + 1;
    }
    assert(picked_orphans(order@, ov).take(k as int) =~= picked_orphans(order@, ov));
    r
}
} // verus!
