//! Deck files: one card per line in the Obsidian `front::back` convention.
//! Everything that is not a card line is ignored, so a deck can be an
//! ordinary Markdown note. Lines starting with `#` (headings, comments) and
//! fenced code blocks are never cards, so `# 食::to eat` comments a card out.

use vstd::prelude::*;
use vstd::string::*;

use crate::strs::{
    chars_eq, chars_of, dec, find, find_exec, find_from, lemma_find_range, occurs_at, owned, push_dec, push_str,
    slice_chars, starts_with, starts_with_exec, string_of, trim, trim_chars, trim_start,
    trim_start_chars,
};
use crate::text::{front_key, nfc, spec_front_key, spec_nfc};
use crate::types::Goal;

verus! {

#[derive(Clone, Debug, PartialEq, Eq)]
pub struct Card {
    /// Normalized front: trimmed, NFC. This is the card's identity.
    pub front: String,
    /// Trimmed, NFC.
    pub back: String,
    /// `:::` lines also produce a reverse (back → front) goal.
    pub reverse: bool,
    /// 1-based line number in the deck file.
    pub line: usize,
}

/// What a card is, as plain values.
#[verifier::ext_equal]
pub struct CardV {
    pub front: Seq<char>,
    pub back: Seq<char>,
    pub reverse: bool,
    pub line: nat,
}

impl View for Card {
    type V = CardV;

    open spec fn view(&self) -> CardV {
        CardV { front: self.front@, back: self.back@, reverse: self.reverse, line: self.line as nat }
    }
}

pub open spec fn card_prompt(c: CardV, goal: Goal) -> Seq<char> {
    match goal {
        Goal::Forward => c.front,
        Goal::Reverse => c.back,
    }
}

pub open spec fn card_answer(c: CardV, goal: Goal) -> Seq<char> {
    match goal {
        Goal::Forward => c.back,
        Goal::Reverse => c.front,
    }
}

impl Card {
    /// The side shown as the prompt for a goal.
    pub fn prompt(&self, goal: Goal) -> (r: &str)
        ensures
            r@ == card_prompt(self@, goal),
    {
        match goal {
            Goal::Forward => self.front.as_str(),
            Goal::Reverse => self.back.as_str(),
        }
    }

    /// The side expected as the answer for a goal.
    pub fn answer(&self, goal: Goal) -> (r: &str)
        ensures
            r@ == card_answer(self@, goal),
    {
        match goal {
            Goal::Forward => self.back.as_str(),
            Goal::Reverse => self.front.as_str(),
        }
    }
}

/// A non-fatal problem in a deck or log file, reported with its location.
#[derive(Clone, Debug, PartialEq, Eq)]
pub struct Warning {
    pub file: String,
    pub line: usize,
    pub message: String,
}

#[verifier::ext_equal]
pub struct WarningV {
    pub file: Seq<char>,
    pub line: nat,
    pub message: Seq<char>,
}

impl View for Warning {
    type V = WarningV;

    open spec fn view(&self) -> WarningV {
        WarningV { file: self.file@, line: self.line as nat, message: self.message@ }
    }
}

pub open spec fn warning_text(w: WarningV) -> Seq<char> {
    w.file + seq![':'] + dec(w.line) + seq![':', ' '] + w.message
}

impl Warning {
    /// `file:line: message`, as the warning is shown to the user.
    pub fn to_text(&self) -> (r: String)
        ensures
            r@ == warning_text(self@),
    {
        let mut s = owned(self.file.as_str());
        push_str(&mut s, ":");
        push_dec(&mut s, self.line as u64);
        push_str(&mut s, ": ");
        push_str(&mut s, self.message.as_str());
        proof {
            reveal_strlit(":");
            reveal_strlit(": ");
        }
        s
    }
}

#[derive(Debug)]
pub struct Deck {
    pub name: String,
    pub cards: Vec<Card>,
    pub warnings: Vec<Warning>,
}

/// `str::lines`: split at `\n`, dropping a `\r` right before it; a final
/// line ending is optional.
pub open spec fn lines(s: Seq<char>) -> Seq<Seq<char>>
    decreases s.len(),
{
    if s.len() == 0 {
        Seq::empty()
    } else {
        match find(s, seq!['\n']) {
            None => seq![s],
            Some(i) => if 0 <= i < s.len() {
                seq![strip_cr(s.take(i))] + lines(s.skip(i + 1))
            } else {
                seq![s]
            },
        }
    }
}

pub open spec fn strip_cr(l: Seq<char>) -> Seq<char> {
    if l.len() > 0 && l.last() == '\r' {
        l.drop_last()
    } else {
        l
    }
}

/// `str::lines` on characters.
pub fn split_lines(v: &[char]) -> (r: Vec<Vec<char>>)
    ensures
        r@.map_values(|w: Vec<char>| w@) == lines(v@),
{
    let mut out: Vec<Vec<char>> = Vec::new();
    let mut rest: Vec<char> = slice_chars(v, 0, v.len());
    assert(v@.subrange(0, v@.len() as int) == v@);
    let nl: Vec<char> = vec!['\n'];
    assert(nl@ == seq!['\n']);
    loop
        invariant
            nl@ == seq!['\n'],
            out@.map_values(|w: Vec<char>| w@) + lines(rest@) == lines(v@),
        decreases rest@.len(),
    {
        if rest.len() == 0 {
            assert(out@.map_values(|w: Vec<char>| w@) + lines(rest@) =~= out@.map_values(
                |w: Vec<char>| w@,
            ));
            return out;
        }
        proof {
            lemma_find_range(rest@, nl@);
        }
        let ghost before = out@.map_values(|w: Vec<char>| w@);
        match find_exec(rest.as_slice(), nl.as_slice()) {
            None => {
                let ghost r = rest@;
                out.push(rest);
                assert(out@.map_values(|w: Vec<char>| w@) =~= before.push(r));
                assert(lines(r) == seq![r]);
                assert(out@.map_values(|w: Vec<char>| w@) =~= before + lines(r));
                return out;
            },
            Some(i) => {
                let rl = rest.len();
                assert(i < rl);
                let mut end = i;
                if end > 0 && rest[end - 1] == '\r' {
                    end = end - 1;
                }
                let piece = slice_chars(rest.as_slice(), 0, end);
                assert(piece@ == strip_cr(rest@.take(i as int)));
                let tail = slice_chars(rest.as_slice(), i + 1, rl);
                assert(tail@ == rest@.skip(i + 1));
                assert(lines(rest@) == seq![strip_cr(rest@.take(i as int))] + lines(tail@));
                out.push(piece);
                assert(out@.map_values(|w: Vec<char>| w@) =~= before.push(piece@));
                assert(out@.map_values(|w: Vec<char>| w@) + lines(tail@) =~= before + lines(
                    rest@,
                ));
                rest = tail;
            },
        }
    }
}

/// Split a line into (front, back, reverse) if it is a card line: on the
/// first `:::` if present, otherwise the first `::`.
pub open spec fn spec_split_card(s: Seq<char>) -> Option<(Seq<char>, Seq<char>, bool)> {
    match find(s, seq![':', ':', ':']) {
        Some(i) => Some((s.take(i), s.skip(i + 3), true)),
        None => match find(s, seq![':', ':']) {
            Some(i) => Some((s.take(i), s.skip(i + 2), false)),
            None => None,
        },
    }
}

/// Split a line into (front, back, reverse) if it is a card line.
/// Splits on the first `:::` if present, otherwise the first `::`.
pub fn split_card(line: &str) -> (r: Option<(&str, &str, bool)>)
    ensures
        match spec_split_card(line@) {
            Some((f, b, rev)) => r matches Some((rf, rb, rr)) && rf@ == f && rb@ == b && rr == rev,
            None => r is None,
        },
{
    let v = chars_of(line);
    let n = line.unicode_len();
    let triple: Vec<char> = vec![':', ':', ':'];
    let double: Vec<char> = vec![':', ':'];
    assert(triple@ == seq![':', ':', ':']);
    assert(double@ == seq![':', ':']);
    proof {
        lemma_find_range(v@, triple@);
        lemma_find_range(v@, double@);
    }
    match find_exec(v.as_slice(), triple.as_slice()) {
        Some(i) => {
            let front = line.substring_char(0, i);
            let back = line.substring_char(i + 3, n);
            assert(line@.subrange(0, i as int) == line@.take(i as int));
            assert(line@.subrange(i + 3, n as int) == line@.skip(i + 3));
            Some((front, back, true))
        },
        None => match find_exec(v.as_slice(), double.as_slice()) {
            Some(i) => {
                let front = line.substring_char(0, i);
                let back = line.substring_char(i + 2, n);
                assert(line@.subrange(0, i as int) == line@.take(i as int));
                assert(line@.subrange(i + 2, n as int) == line@.skip(i + 2));
                Some((front, back, false))
            },
            None => None,
        },
    }
}

pub open spec fn fence() -> Seq<char> {
    seq!['`', '`', '`']
}

/// Would a line beginning with this front be ignored by the parser?
pub open spec fn spec_front_is_ignored(front: Seq<char>) -> bool {
    let f = trim_start(front);
    starts_with(f, seq!['#']) || starts_with(f, fence())
}

/// Would a line beginning with this front be ignored by the parser? Fronts
/// that start with `#` or a code fence can never become cards, so `add` and
/// `rename` refuse them instead of writing a line that silently disappears.
pub fn front_is_ignored(front: &str) -> (r: bool)
    ensures
        r == spec_front_is_ignored(front@),
{
    let v = chars_of(front);
    let f = trim_start_chars(v.as_slice());
    let hash: Vec<char> = vec!['#'];
    let fen: Vec<char> = vec!['`', '`', '`'];
    assert(hash@ == seq!['#']);
    assert(fen@ == fence());
    starts_with_exec(f.as_slice(), hash.as_slice()) || starts_with_exec(
        f.as_slice(),
        fen.as_slice(),
    )
}

/// What the parser has built after some lines.
#[verifier::ext_equal]
pub struct ParseState {
    pub cards: Seq<CardV>,
    pub warnings: Seq<WarningV>,
    pub in_fence: bool,
}

pub open spec fn empty_front_message() -> Seq<char> {
    "card line has an empty front; skipped"@
}

pub open spec fn empty_back_message(front: Seq<char>) -> Seq<char> {
    seq!['"'] + front + "\" has an empty back; skipped"@
}

pub open spec fn duplicate_message(front: Seq<char>, first: nat) -> Seq<char> {
    "duplicate front \""@ + front + "\" (first seen on line "@ + dec(first) + "); using line "@
        + dec(first) + ". Merge the backs or disambiguate the front."@
}

/// First card with this front, by position.
pub open spec fn find_card(cards: Seq<CardV>, front: Seq<char>) -> Option<int>
    decreases cards.len(),
{
    if cards.len() == 0 {
        None
    } else {
        match find_card(cards.drop_last(), front) {
            Some(i) => Some(i),
            None => if cards.last().front == front {
                Some(cards.len() - 1)
            } else {
                None
            },
        }
    }
}

/// One line of a deck file, applied to the parser state.
pub open spec fn parse_step(st: ParseState, raw: Seq<char>, line_no: nat, file: Seq<char>) -> ParseState {
    if starts_with(trim_start(raw), fence()) {
        ParseState { in_fence: !st.in_fence, ..st }
    } else if st.in_fence || spec_front_is_ignored(raw) {
        st
    } else {
        match spec_split_card(raw) {
            None => st,
            Some((front_raw, back_raw, reverse)) => {
                let front = spec_front_key(front_raw);
                let back = spec_nfc(trim(back_raw));
                if front.len() == 0 {
                    ParseState {
                        warnings: st.warnings.push(
                            WarningV { file, line: line_no, message: empty_front_message() },
                        ),
                        ..st
                    }
                } else if back.len() == 0 {
                    ParseState {
                        warnings: st.warnings.push(
                            WarningV { file, line: line_no, message: empty_back_message(front) },
                        ),
                        ..st
                    }
                } else {
                    match find_card(st.cards, front) {
                        Some(k) => ParseState {
                            warnings: st.warnings.push(
                                WarningV {
                                    file,
                                    line: line_no,
                                    message: duplicate_message(front, st.cards[k].line),
                                },
                            ),
                            ..st
                        },
                        None => ParseState {
                            cards: st.cards.push(CardV { front, back, reverse, line: line_no }),
                            ..st
                        },
                    }
                }
            },
        }
    }
}

/// The parser state after the given lines.
pub open spec fn parse_lines(ls: Seq<Seq<char>>, file: Seq<char>) -> ParseState
    decreases ls.len(),
{
    if ls.len() == 0 {
        ParseState { cards: Seq::empty(), warnings: Seq::empty(), in_fence: false }
    } else {
        parse_step(parse_lines(ls.drop_last(), file), ls.last(), ls.len(), file)
    }
}

/// A deck file's cards and warnings.
pub open spec fn parse_deck(text: Seq<char>, file: Seq<char>) -> ParseState {
    parse_lines(lines(text), file)
}

/// Every card's front is unique, and no card is empty on either side.
pub open spec fn cards_wf(cards: Seq<CardV>) -> bool {
    &&& forall|i: int, j: int|
        0 <= i < j < cards.len() ==> #[trigger] cards[i].front != #[trigger] cards[j].front
    &&& forall|i: int|
        0 <= i < cards.len() ==> (#[trigger] cards[i]).front.len() > 0 && cards[i].back.len()
            > 0
}

/// Position of the first card with this front.
fn find_index(cards: &Vec<Card>, front: &[char]) -> (r: Option<usize>)
    ensures
        r matches Some(k) ==> find_card(cards@.map_values(|c: Card| c@), front@) == Some(k as int),
        r is None ==> find_card(cards@.map_values(|c: Card| c@), front@) is None,
        r matches Some(k) ==> k < cards@.len(),
{
    proof {
        lemma_find_card(cards@.map_values(|c: Card| c@), front@);
    }
    let ghost cv = cards@.map_values(|c: Card| c@);
    let mut i: usize = 0;
    while i < cards.len()
        invariant
            i <= cards@.len(),
            cv == cards@.map_values(|c: Card| c@),
            find_card(cv.take(i as int), front@) is None,
        decreases cards@.len() - i,
    {
        let cf = chars_of(cards[i].front.as_str());
        assert(cv.take(i + 1).drop_last() == cv.take(i as int));
        assert(cv.take(i + 1).last() == cv[i as int]);
        if chars_eq(cf.as_slice(), front) {
            proof {
                lemma_find_card_prefix(cv, i as int + 1, front@);
            }
            return Some(i);
        }
        i = i + 1;
    }
    assert(cv.take(i as int) == cv);
    None
}

/// Once a prefix finds a card, the whole list finds the same one.
pub proof fn lemma_find_card_prefix(cards: Seq<CardV>, n: int, front: Seq<char>)
    requires
        0 <= n <= cards.len(),
        find_card(cards.take(n), front) is Some,
    ensures
        find_card(cards, front) == find_card(cards.take(n), front),
    decreases cards.len() - n,
{
    if n < cards.len() {
        assert(cards.take(n + 1).drop_last() == cards.take(n));
        assert(find_card(cards.take(n + 1), front) == find_card(cards.take(n), front));
        lemma_find_card_prefix(cards, n + 1, front);
    } else {
        assert(cards.take(n) == cards);
    }
}

/// A found card is a card with that front, and nothing before it has it.
pub proof fn lemma_find_card(cards: Seq<CardV>, front: Seq<char>)
    ensures
        find_card(cards, front) matches Some(k) ==> 0 <= k < cards.len() && cards[k].front
            == front,
        find_card(cards, front) is None ==> forall|j: int|
            0 <= j < cards.len() ==> #[trigger] cards[j].front != front,
    decreases cards.len(),
{
    if cards.len() > 0 {
        lemma_find_card(cards.drop_last(), front);
        assert forall|j: int| 0 <= j < cards.len() - 1 implies #[trigger] cards[j].front
            == cards.drop_last()[j].front by {}
    }
}

/// Each parsing step keeps the cards well formed.
pub proof fn lemma_parse_step_wf(st: ParseState, raw: Seq<char>, line_no: nat, file: Seq<char>)
    requires
        cards_wf(st.cards),
    ensures
        cards_wf(parse_step(st, raw, line_no, file).cards),
{
    if let Some((front_raw, back_raw, reverse)) = spec_split_card(raw) {
        let front = spec_front_key(front_raw);
        lemma_find_card(st.cards, front);
        let n = parse_step(st, raw, line_no, file).cards;
        if n.len() > st.cards.len() {
            assert forall|i: int, j: int| 0 <= i < j < n.len() implies #[trigger] n[i].front
                != #[trigger] n[j].front by {
                if j == st.cards.len() {
                    assert(n[i] == st.cards[i]);
                } else {
                    assert(n[i] == st.cards[i]);
                    assert(n[j] == st.cards[j]);
                }
            }
            assert forall|i: int| 0 <= i < n.len() implies (#[trigger] n[i]).front.len() > 0
                && n[i].back.len() > 0 by {
                if i < st.cards.len() {
                    assert(n[i] == st.cards[i]);
                }
            }
        }
    }
}

/// How a card comes from its line: the line is outside any code fence and
/// not ignored, it splits into the card's two sides at its separator, and
/// the front key and the normalized back are the card's.
pub open spec fn card_from_line(ls: Seq<Seq<char>>, file: Seq<char>, c: CardV) -> bool {
    let raw = ls[c.line - 1];
    &&& 1 <= c.line <= ls.len()
    &&& !parse_lines(ls.take(c.line - 1), file).in_fence
    &&& !starts_with(trim_start(raw), fence())
    &&& !spec_front_is_ignored(raw)
    &&& spec_split_card(raw) matches Some((f, b, rev)) && rev == c.reverse && spec_front_key(f) == c.front
        && spec_nfc(trim(b)) == c.back
}

/// Line `n` (counted from 1) offers a card with this front: it lies outside
/// code fences, is neither a fence nor ignored, and splits into a front with
/// this key (not empty) and a back that is not empty once normalized.
pub open spec fn line_offers(ls: Seq<Seq<char>>, file: Seq<char>, n: int, front: Seq<char>) -> bool {
    let raw = ls[n - 1];
    &&& 1 <= n <= ls.len()
    &&& !parse_lines(ls.take(n - 1), file).in_fence
    &&& !starts_with(trim_start(raw), fence())
    &&& !spec_front_is_ignored(raw)
    &&& front.len() > 0
    &&& spec_split_card(raw) matches Some((f, b, rev)) && spec_front_key(f) == front
        && spec_nfc(trim(b)).len() > 0
}

/// The first line that offers a front is the one that becomes its card:
/// no earlier line offers a card's front, and every line that offers a
/// front has a card with that front on it or above it.
proof fn lemma_first_line_wins(ls: Seq<Seq<char>>, file: Seq<char>)
    ensures
        forall|k: int, n: int|
            0 <= k < parse_lines(ls, file).cards.len() && 1 <= n < parse_lines(ls, file).cards[k].line
                ==> !#[trigger] line_offers(ls, file, n, #[trigger] parse_lines(ls, file).cards[k].front),
        forall|n: int, f: Seq<char>|
            #[trigger] line_offers(ls, file, n, f) ==> exists|k: int|
                0 <= k < parse_lines(ls, file).cards.len() && (#[trigger] parse_lines(
                    ls,
                    file,
                ).cards[k]).front == f && parse_lines(ls, file).cards[k].line <= n,
    decreases ls.len(),
{
    lemma_parse_law_base(ls, file);
    if ls.len() > 0 {
        let d = ls.drop_last();
        let m = ls.len();
        lemma_first_line_wins(d, file);
        lemma_parse_law_base(d, file);
        let st = parse_lines(d, file);
        let cs = parse_lines(ls, file).cards;
        assert(d =~= ls.take(m - 1));
        // The cards before the last line stay, in place.
        assert(cs.len() == st.cards.len() || cs.len() == st.cards.len() + 1);
        assert forall|k: int| 0 <= k < st.cards.len() implies cs[k] == st.cards[k] by {}
        // Lines above the last read the same in both.
        assert forall|n: int, f: Seq<char>| 1 <= n < m implies line_offers(ls, file, n, f)
            == line_offers(d, file, n, f) by {
            assert(ls[n - 1] == d[n - 1]);
            assert(ls.take(n - 1) =~= d.take(n - 1));
        }
        assert forall|k: int, n: int|
            0 <= k < cs.len() && 1 <= n < cs[k].line implies !#[trigger] line_offers(
            ls,
            file,
            n,
            #[trigger] cs[k].front,
        ) by {
            if k < st.cards.len() {
                assert(card_from_line(d, file, st.cards[k]));
                assert(!line_offers(d, file, n, st.cards[k].front));
            } else {
                // The new card: a front offered earlier would have a card.
                if line_offers(d, file, n, cs[k].front) {
                    let j = choose|j: int|
                        0 <= j < st.cards.len() && (#[trigger] st.cards[j]).front == cs[k].front
                            && st.cards[j].line <= n;
                    lemma_find_card(st.cards, cs[k].front);
                }
            }
        }
        assert forall|n: int, f: Seq<char>| #[trigger] line_offers(ls, file, n, f) implies exists|k: int|
            0 <= k < cs.len() && (#[trigger] cs[k]).front == f && cs[k].line <= n by {
            if n < m {
                assert(line_offers(d, file, n, f));
                let j = choose|j: int|
                    0 <= j < st.cards.len() && (#[trigger] st.cards[j]).front == f && st.cards[j].line
                        <= n;
                assert(cs[j] == st.cards[j]);
            } else {
                lemma_find_card(st.cards, f);
                match find_card(st.cards, f) {
                    Some(j) => {
                        assert(card_from_line(d, file, st.cards[j]));
                        assert(cs[j] == st.cards[j]);
                    },
                    None => {
                        assert(cs[st.cards.len() as int].front == f);
                    },
                }
            }
        }
    }
}

/// The deck parser's law: fronts are distinct and no side is empty, cards
/// stand in the order of their lines, each card comes from its line, and
/// that line is the first to offer its front.
pub proof fn lemma_parse_law(ls: Seq<Seq<char>>, file: Seq<char>)
    ensures
        forall|k: int, n: int|
            0 <= k < parse_lines(ls, file).cards.len() && 1 <= n < parse_lines(ls, file).cards[k].line
                ==> !#[trigger] line_offers(ls, file, n, #[trigger] parse_lines(ls, file).cards[k].front),
        forall|n: int, f: Seq<char>|
            #[trigger] line_offers(ls, file, n, f) ==> exists|k: int|
                0 <= k < parse_lines(ls, file).cards.len() && (#[trigger] parse_lines(
                    ls,
                    file,
                ).cards[k]).front == f && parse_lines(ls, file).cards[k].line <= n,

        cards_wf(parse_lines(ls, file).cards),
        forall|i: int, j: int|
            0 <= i < j < parse_lines(ls, file).cards.len() ==> (#[trigger] parse_lines(ls, file).cards[i]).line
                < (#[trigger] parse_lines(ls, file).cards[j]).line,
        forall|k: int|
            0 <= k < parse_lines(ls, file).cards.len() ==> card_from_line(
                ls,
                file,
                #[trigger] parse_lines(ls, file).cards[k],
            ),
{
    lemma_parse_law_base(ls, file);
    lemma_first_line_wins(ls, file);
}

proof fn lemma_parse_law_base(ls: Seq<Seq<char>>, file: Seq<char>)
    ensures
        cards_wf(parse_lines(ls, file).cards),
        forall|i: int, j: int|
            0 <= i < j < parse_lines(ls, file).cards.len() ==> (#[trigger] parse_lines(ls, file).cards[i]).line
                < (#[trigger] parse_lines(ls, file).cards[j]).line,
        forall|k: int|
            0 <= k < parse_lines(ls, file).cards.len() ==> card_from_line(
                ls,
                file,
                #[trigger] parse_lines(ls, file).cards[k],
            ),
    decreases ls.len(),
{
    lemma_parsed_cards_wf(ls, file);
    if ls.len() > 0 {
        let d = ls.drop_last();
        lemma_parse_law_base(d, file);
        let st = parse_lines(d, file);
        let cs = parse_lines(ls, file).cards;
        assert(d =~= ls.take(ls.len() - 1));
        assert forall|k: int| 0 <= k < cs.len() implies card_from_line(ls, file, #[trigger] cs[k]) && cs[k].line
            <= ls.len() by {
            if k < st.cards.len() {
                let c = st.cards[k];
                assert(cs[k] == c);
                assert(card_from_line(d, file, c));
                assert(ls[c.line - 1] == d[c.line - 1]);
                assert(ls.take(c.line - 1) =~= d.take(c.line - 1));
            } else {
                assert(cs[k].line == ls.len());
                assert(ls.take(cs[k].line - 1) =~= d);
            }
        }
        assert forall|i: int, j: int| 0 <= i < j < cs.len() implies (#[trigger] cs[i]).line < (
        #[trigger] cs[j]).line by {
            if j < st.cards.len() {
                assert(cs[i] == st.cards[i] && cs[j] == st.cards[j]);
            } else {
                assert(cs[i] == st.cards[i]);
                assert(card_from_line(d, file, st.cards[i]));
            }
        }
    }
}

/// A line that starts with `#` or a code fence never becomes a card: each
/// card comes from a line of the file that the parser does not ignore.
pub proof fn lemma_ignored_lines_make_no_card(ls: Seq<Seq<char>>, file: Seq<char>)
    ensures
        forall|k: int|
            0 <= k < parse_lines(ls, file).cards.len() ==> 1 <= (#[trigger] parse_lines(ls, file).cards[k]).line
                <= ls.len() && !spec_front_is_ignored(ls[parse_lines(ls, file).cards[k].line - 1]),
    decreases ls.len(),
{
    if ls.len() > 0 {
        let d = ls.drop_last();
        lemma_ignored_lines_make_no_card(d, file);
        let st = parse_lines(d, file);
        let cs = parse_lines(ls, file).cards;
        assert forall|k: int| 0 <= k < cs.len() implies 1 <= (#[trigger] cs[k]).line <= ls.len()
            && !spec_front_is_ignored(ls[cs[k].line - 1]) by {
            if k < st.cards.len() {
                assert(cs[k] == st.cards[k]);
                assert(ls[cs[k].line - 1] == d[cs[k].line - 1]);
            }
        }
    }
}

/// A parsed deck never holds two cards with the same front, nor a card with
/// an empty side.
pub proof fn lemma_parsed_cards_wf(ls: Seq<Seq<char>>, file: Seq<char>)
    ensures
        cards_wf(parse_lines(ls, file).cards),
    decreases ls.len(),
{
    if ls.len() > 0 {
        lemma_parsed_cards_wf(ls.drop_last(), file);
        lemma_parse_step_wf(parse_lines(ls.drop_last(), file), ls.last(), ls.len(), file);
    }
}

impl Deck {
    /// Parses a deck file. `file` is how the deck is named in messages,
    /// e.g. `decks/cantonese.md`.
    pub fn parse(name: &str, file: &str, text: &str) -> (d: Deck)
        requires
            text@.len() < usize::MAX,
        ensures
            d.name@ == name@,
            d.cards@.map_values(|c: Card| c@) == parse_deck(text@, file@).cards,
            d.warnings@.map_values(|w: Warning| w@) == parse_deck(text@, file@).warnings,
            cards_wf(d.cards@.map_values(|c: Card| c@)),
    {
        let v = chars_of(text);
        let ls = split_lines(v.as_slice());
        let ghost lv = ls@.map_values(|w: Vec<char>| w@);
        let ghost fv = file@;
        let mut cards: Vec<Card> = Vec::new();
        let mut warnings: Vec<Warning> = Vec::new();
        let mut in_fence = false;
        let fen: Vec<char> = vec!['`', '`', '`'];
        assert(fen@ == fence());
        let mut idx: usize = 0;
        proof {
            lemma_lines_bound(v@);
        }
        assert(lv.take(0) =~= Seq::<Seq<char>>::empty());
        assert(cards@.map_values(|c: Card| c@) =~= Seq::<CardV>::empty());
        assert(warnings@.map_values(|w: Warning| w@) =~= Seq::<WarningV>::empty());
        while idx < ls.len()
            invariant
                idx <= ls@.len(),
                ls@.len() <= v@.len(),
                v@.len() < usize::MAX,
                lv == ls@.map_values(|w: Vec<char>| w@),
                fv == file@,
                fen@ == fence(),
                parse_lines(lv.take(idx as int), fv) == (ParseState {
                    cards: cards@.map_values(|c: Card| c@),
                    warnings: warnings@.map_values(|w: Warning| w@),
                    in_fence,
                }),
            decreases ls@.len() - idx,
        {
            let line_no = idx + 1;
            let raw = &ls[idx];
            let ghost st = parse_lines(lv.take(idx as int), fv);
            assert(lv.take(idx + 1).drop_last() == lv.take(idx as int));
            assert(lv.take(idx + 1).last() == raw@);
            let ghost cv = cards@.map_values(|c: Card| c@);
            let ghost wv = warnings@.map_values(|w: Warning| w@);
            let ghost st2 = parse_step(st, raw@, line_no as nat, fv);
            assert(parse_lines(lv.take(idx + 1), fv) == st2);
            assert(st =~= ParseState { cards: cv, warnings: wv, in_fence });
            let lead = trim_start_chars(raw.as_slice());
            if starts_with_exec(lead.as_slice(), fen.as_slice()) {
                in_fence = !in_fence;
                assert(st2 =~= ParseState { cards: cv, warnings: wv, in_fence });
                idx = idx + 1;
                continue;
            }
            let raw_s = string_of(raw.as_slice());
            if in_fence || front_is_ignored(raw_s.as_str()) {
                assert(st2 =~= st);
                idx = idx + 1;
                continue;
            }
            let parts = split_card(raw_s.as_str());
            match parts {
                None => {
                    assert(st2 =~= st);
                    idx = idx + 1;
                    continue;
                },
                Some((front_raw, back_raw, reverse)) => {
                    assert(spec_split_card(raw@) == Some((front_raw@, back_raw@, reverse)));
                    assert(!st.in_fence && !spec_front_is_ignored(raw@));
                    assert(!starts_with(trim_start(raw@), fence()));
                    let front = front_key(front_raw);
                    let bv = chars_of(back_raw);
                    let bt = trim_chars(bv.as_slice());
                    let bts = string_of(bt.as_slice());
                    let back = nfc(bts.as_str());
                    if front.as_str().is_empty() {
                        warnings.push(
                            Warning {
                                file: owned(file),
                                line: line_no,
                                message: owned("card line has an empty front; skipped"),
                            },
                        );
                        assert(warnings@.map_values(|w: Warning| w@) =~= wv.push(
                            WarningV { file: fv, line: line_no as nat, message: empty_front_message() },
                        ));
                        assert(st2.warnings =~= warnings@.map_values(|w: Warning| w@));
                        assert(st2.cards =~= cards@.map_values(|c: Card| c@));
                        assert(st2.in_fence == in_fence);
                    } else if back.as_str().is_empty() {
                        let mut m = owned("\"");
                        push_str(&mut m, front.as_str());
                        push_str(&mut m, "\" has an empty back; skipped");
                        proof {
                            reveal_strlit("\"");
                        }
                        assert(m@ == empty_back_message(front@));
                        warnings.push(Warning { file: owned(file), line: line_no, message: m });
                        assert(warnings@.map_values(|w: Warning| w@) =~= wv.push(
                            WarningV { file: fv, line: line_no as nat, message: empty_back_message(front@) },
                        ));
                        assert(st2.warnings =~= warnings@.map_values(|w: Warning| w@));
                        assert(st2.cards =~= cards@.map_values(|c: Card| c@));
                        assert(st2.in_fence == in_fence);
                    } else {
                        let fc = chars_of(front.as_str());
                        match find_index(&cards, fc.as_slice()) {
                            Some(k) => {
                                assert(find_card(cv, front@) == Some(k as int));
                                assert(find_card(st.cards, spec_front_key(front_raw@)) == Some(k as int));
                                let first = cards[k].line;
                                let mut m = owned("duplicate front \"");
                                push_str(&mut m, front.as_str());
                                push_str(&mut m, "\" (first seen on line ");
                                push_dec(&mut m, first as u64);
                                push_str(&mut m, "); using line ");
                                push_dec(&mut m, first as u64);
                                push_str(&mut m, ". Merge the backs or disambiguate the front.");
                                assert(m@ == duplicate_message(front@, cv[k as int].line));
                                warnings.push(Warning { file: owned(file), line: line_no, message: m });
                                assert(warnings@.map_values(|w: Warning| w@) =~= wv.push(
                                    WarningV {
                                        file: fv,
                                        line: line_no as nat,
                                        message: duplicate_message(front@, cv[k as int].line),
                                    },
                                ));
                                assert(st2.warnings =~= warnings@.map_values(|w: Warning| w@));
                                assert(st2.cards =~= cards@.map_values(|c: Card| c@));
                            },
                            None => {
                                cards.push(Card { front, back, reverse, line: line_no });
                                assert(cards@.map_values(|c: Card| c@) =~= cv.push(
                                    CardV {
                                        front: spec_front_key(front_raw@),
                                        back: spec_nfc(trim(back_raw@)),
                                        reverse,
                                        line: line_no as nat,
                                    },
                                ));
                                assert(st2.warnings =~= warnings@.map_values(|w: Warning| w@));
                                assert(st2.cards =~= cards@.map_values(|c: Card| c@));
                            },
                        }
                    }
                    assert(st2 =~= ParseState {
                        cards: cards@.map_values(|c: Card| c@),
                        warnings: warnings@.map_values(|w: Warning| w@),
                        in_fence,
                    });
                    idx = idx + 1;
                },
            }
        }
        assert(lv.take(ls@.len() as int) == lv);
        proof {
            lemma_parsed_cards_wf(lv, fv);
        }
        Deck { name: owned(name), cards, warnings }
    }

    /// The card with this front, if any.
    pub fn find(&self, front: &str) -> (r: Option<&Card>)
        ensures
            match find_card(self.cards@.map_values(|c: Card| c@), front@) {
                Some(k) => r matches Some(c) && *c == self.cards@[k],
                None => r is None,
            },
    {
        let fc = chars_of(front);
        proof {
            lemma_find_card(self.cards@.map_values(|c: Card| c@), front@);
        }
        match find_index(&self.cards, fc.as_slice()) {
            Some(k) => {
                let c = &self.cards[k];
                assert(*c == self.cards@[k as int]);
                Some(c)
            },
            None => None,
        }
    }

    /// Is there a card with this front?
    pub fn has(&self, front: &str) -> (r: bool)
        ensures
            r == find_card(self.cards@.map_values(|c: Card| c@), front@) is Some,
    {
        self.find(front).is_some()
    }
}

proof fn lemma_find_newline_from(s: Seq<char>, i: int, k: int)
    requires
        0 <= i <= k < s.len(),
        s[k] == '\n',
        forall|j: int| i <= j < k ==> s[j] != '\n',
    ensures
        find_from(s, seq!['\n'], i) == Some(k),
    decreases k - i,
{
    if i < k {
        assert(!occurs_at(s, seq!['\n'], i)) by {
            assert(s.subrange(i, i + 1)[0] == s[i]);
        }
        lemma_find_newline_from(s, i + 1, k);
    } else {
        assert(s.subrange(k, k + 1) =~= seq!['\n']);
    }
}

/// The first line ending of `s` is at `k`.
proof fn lemma_find_newline(s: Seq<char>, k: int)
    requires
        0 <= k < s.len(),
        s[k] == '\n',
        forall|j: int| 0 <= j < k ==> s[j] != '\n',
    ensures
        find(s, seq!['\n']) == Some(k),
{
    lemma_find_newline_from(s, 0, k);
}

proof fn lemma_no_newline(s: Seq<char>, i: int)
    requires
        0 <= i,
        forall|j: int| i <= j < s.len() ==> s[j] != '\n',
    ensures
        find_from(s, seq!['\n'], i) is None,
    decreases s.len() + 1 - i,
{
    if i + 1 <= s.len() {
        assert(!occurs_at(s, seq!['\n'], i)) by {
            assert(s.subrange(i, i + 1)[0] == s[i]);
        }
        lemma_no_newline(s, i + 1);
    }
}

/// Text that ends a line, followed by more text, reads as its own lines
/// followed by those of the rest.
pub proof fn lemma_lines_append(a: Seq<char>, b: Seq<char>)
    requires
        a.len() > 0,
        a.last() == '\n',
    ensures
        lines(a + b) == lines(a) + lines(b),
    decreases a.len(),
{
    let s = a + b;
    lemma_find_range(a, seq!['\n']);
    let k = choose|k: int| 0 <= k < a.len() && a[k] == '\n' && forall|j: int| 0 <= j < k ==> a[j] != '\n';
    assert(exists|k: int| 0 <= k < a.len() && a[k] == '\n' && forall|j: int| 0 <= j < k ==> a[j] != '\n') by {
        lemma_first_newline(a, a.len() - 1);
    }
    lemma_find_newline(a, k);
    assert forall|j: int| 0 <= j < k implies s[j] != '\n' by {
        assert(s[j] == a[j]);
    }
    assert(s[k] == a[k]);
    lemma_find_newline(s, k);
    assert(s.take(k) =~= a.take(k));
    let ra = a.skip(k + 1);
    assert(s.skip(k + 1) =~= ra + b);
    if ra.len() > 0 {
        assert(ra.last() == a.last());
        lemma_lines_append(ra, b);
        assert(lines(s) =~= seq![strip_cr(a.take(k))] + (lines(ra) + lines(b)));
    } else {
        assert(ra + b =~= b);
        assert(lines(ra) =~= Seq::<Seq<char>>::empty());
    }
}

proof fn lemma_first_newline(a: Seq<char>, n: int)
    requires
        0 <= n < a.len(),
        a[n] == '\n',
    ensures
        exists|k: int| 0 <= k < a.len() && a[k] == '\n' && forall|j: int| 0 <= j < k ==> a[j] != '\n',
    decreases n,
{
    if exists|j: int| 0 <= j < n && a[j] == '\n' {
        let j = choose|j: int| 0 <= j < n && a[j] == '\n';
        lemma_first_newline(a, j);
    } else {
        assert(forall|j: int| 0 <= j < n ==> a[j] != '\n');
    }
}

/// One line and its ending read as that line.
pub proof fn lemma_lines_one(t: Seq<char>)
    requires
        forall|j: int| 0 <= j < t.len() ==> t[j] != '\n',
    ensures
        lines(t.push('\n')) == seq![strip_cr(t)],
{
    let s = t.push('\n');
    assert forall|j: int| 0 <= j < t.len() implies s[j] != '\n' by {
        assert(s[j] == t[j]);
    }
    lemma_find_newline(s, t.len() as int);
    assert(s.take(t.len() as int) =~= t);
    let rest = s.skip(t.len() as int + 1);
    assert(rest =~= Seq::<char>::empty());
    assert(lines(rest) =~= Seq::<Seq<char>>::empty());
    assert(lines(s) == seq![strip_cr(s.take(t.len() as int))] + lines(rest));
    assert(seq![strip_cr(t)] + Seq::<Seq<char>>::empty() =~= seq![strip_cr(t)]);
}

/// Ending a last line that has no line ending does not change the lines,
/// unless it ends in a carriage return.
pub proof fn lemma_lines_close(s: Seq<char>)
    requires
        s.len() > 0,
        s.last() != '\n',
        s.last() != '\r',
    ensures
        lines(s.push('\n')) == lines(s),
    decreases s.len(),
{
    let p = s.push('\n');
    if exists|j: int| 0 <= j < s.len() && s[j] == '\n' {
        let n = choose|j: int| 0 <= j < s.len() && s[j] == '\n';
        lemma_first_newline(s, n);
        let k = choose|k: int| 0 <= k < s.len() && s[k] == '\n' && forall|j: int| 0 <= j < k ==> s[j] != '\n';
        lemma_find_newline(s, k);
        assert forall|j: int| 0 <= j < k implies p[j] != '\n' by {
            assert(p[j] == s[j]);
        }
        assert(p[k] == s[k]);
        lemma_find_newline(p, k);
        assert(p.take(k) =~= s.take(k));
        let r = s.skip(k + 1);
        assert(r.len() > 0);
        assert(r.last() == s.last());
        assert(p.skip(k + 1) =~= r.push('\n'));
        lemma_lines_close(r);
    } else {
        lemma_no_newline(s, 0);
        lemma_lines_one(s);
    }
}

/// A text has no more lines than characters.
pub proof fn lemma_lines_bound(s: Seq<char>)
    ensures
        lines(s).len() <= s.len(),
    decreases s.len(),
{
    if s.len() > 0 {
        lemma_find_range(s, seq!['\n']);
        if let Some(i) = find(s, seq!['\n']) {
            if 0 <= i < s.len() {
                lemma_lines_bound(s.skip(i + 1));
            }
        }
    }
}

} // verus!
