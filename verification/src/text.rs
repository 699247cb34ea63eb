//! Unicode-aware text helpers: card keys, typed-answer matching, log escaping.

use unicode_normalization::UnicodeNormalization;
use unicode_width::UnicodeWidthStr;
use vstd::prelude::*;
use vstd::string::*;

use crate::strs::{
    chars_of, dec, dec_string, find, find_exec, is_ws, is_ws_char, lemma_find_range, owned, push_char,
    push_str, slice_chars, str_eq, string_of, trim, trim_chars,
};

verus! {

/// Unicode Normalization Form C of a string, as `unicode_normalization`
/// computes it.
pub uninterp spec fn spec_nfc(s: Seq<char>) -> Seq<char>;

/// Unicode lowercase mapping of a string, as `str::to_lowercase` computes it.
pub uninterp spec fn spec_lowercase(s: Seq<char>) -> Seq<char>;

/// Display width in terminal cells, as `unicode_width` computes it.
pub uninterp spec fn spec_width(s: Seq<char>) -> usize;

/// NFC normalization: `UnicodeNormalization::nfc` from `unicode_normalization`,
/// collected into a string. The contract names the result and says nothing
/// more about it.
#[verifier::external_body]
pub fn nfc(s: &str) -> (r: String)
    ensures
        r@ == spec_nfc(s@),
{
    s.nfc().collect()
}

/// `str::to_lowercase`. The contract names the result and says nothing more.
#[verifier::external_body]
pub(crate) fn lowercase(s: &str) -> (r: String)
    ensures
        r@ == spec_lowercase(s@),
{
    s.to_lowercase()
}

/// Display width in terminal cells (CJK counts double):
/// `UnicodeWidthStr::width` from `unicode_width`. The contract names the
/// result; of its value it says only that the empty string is 0 cells wide
/// (the sum over no characters).
#[verifier::external_body]
pub fn width(s: &str) -> (r: usize)
    ensures
        r == spec_width(s@),
        s@.len() == 0 ==> r == 0,
{
    UnicodeWidthStr::width(s)
}

/// The identity of a card within a deck: trimmed and NFC-normalized front.
pub open spec fn spec_front_key(s: Seq<char>) -> Seq<char> {
    spec_nfc(trim(s))
}

/// The identity of a card within a deck: trimmed and NFC-normalized front.
pub fn front_key(s: &str) -> (r: String)
    ensures
        r@ == spec_front_key(s@),
{
    let v = chars_of(s);
    let t = trim_chars(v.as_slice());
    let ts = string_of(t.as_slice());
    nfc(ts.as_str())
}

/// Words split at whitespace, the way `str::split_whitespace` does: a pair
/// (finished words, the word in progress).
pub open spec fn word_state(s: Seq<char>) -> (Seq<Seq<char>>, Seq<char>)
    decreases s.len(),
{
    if s.len() == 0 {
        (Seq::empty(), Seq::empty())
    } else {
        let (done, cur) = word_state(s.drop_last());
        if is_ws(s.last()) {
            if cur.len() > 0 {
                (done.push(cur), Seq::empty())
            } else {
                (done, Seq::empty())
            }
        } else {
            (done, cur.push(s.last()))
        }
    }
}

/// `str::split_whitespace`.
pub open spec fn words(s: Seq<char>) -> Seq<Seq<char>> {
    let (done, cur) = word_state(s);
    if cur.len() > 0 {
        done.push(cur)
    } else {
        done
    }
}

/// `join` of a list of strings with a separator.
pub open spec fn join(parts: Seq<Seq<char>>, sep: Seq<char>) -> Seq<char>
    decreases parts.len(),
{
    if parts.len() == 0 {
        Seq::empty()
    } else if parts.len() == 1 {
        parts[0]
    } else {
        join(parts.drop_last(), sep) + sep + parts.last()
    }
}

/// Normalization used when checking a typed answer: NFC, trimmed, internal
/// whitespace collapsed, case-insensitive.
pub open spec fn spec_normalize_answer(s: Seq<char>) -> Seq<char> {
    spec_lowercase(join(words(spec_nfc(s)), seq![' ']))
}

/// `str::split_whitespace` on characters.
pub fn split_words(v: &[char]) -> (r: Vec<Vec<char>>)
    ensures
        r@.map_values(|w: Vec<char>| w@) == words(v@),
{
    let mut done: Vec<Vec<char>> = Vec::new();
    let mut cur: Vec<char> = Vec::new();
    let mut i: usize = 0;
    while i < v.len()
        invariant
            i <= v@.len(),
            (done@.map_values(|w: Vec<char>| w@), cur@) == word_state(v@.take(i as int)),
        decreases v@.len() - i,
    {
        let ghost before = v@.take(i as int);
        assert(v@.take(i + 1).drop_last() == before);
        let c = v[i];
        if is_ws_char(c) {
            if cur.len() > 0 {
                let w = cur;
                done.push(w);
                cur = Vec::new();
                assert(done@.map_values(|w: Vec<char>| w@) =~= word_state(before).0.push(
                    word_state(before).1,
                ));
            }
        } else {
            cur.push(c);
        }
        i = i + 1;
        assert(cur@ == word_state(v@.take(i as int)).1);
        assert(done@.map_values(|w: Vec<char>| w@) =~= word_state(v@.take(i as int)).0);
    }
    assert(v@.take(v@.len() as int) == v@);
    if cur.len() > 0 {
        done.push(cur);
        assert(done@.map_values(|w: Vec<char>| w@) =~= words(v@));
    }
    done
}

/// Joins words with a separator.
pub fn join_words(parts: &Vec<Vec<char>>, sep: &[char]) -> (r: Vec<char>)
    ensures
        r@ == join(parts@.map_values(|w: Vec<char>| w@), sep@),
{
    let ghost ps = parts@.map_values(|w: Vec<char>| w@);
    let mut out: Vec<char> = Vec::new();
    let mut i: usize = 0;
    while i < parts.len()
        invariant
            i <= parts@.len(),
            ps == parts@.map_values(|w: Vec<char>| w@),
            out@ == join(ps.take(i as int), sep@),
        decreases parts@.len() - i,
    {
        assert(ps.take(i + 1).drop_last() == ps.take(i as int));
        if i > 0 {
            let mut k: usize = 0;
            let ghost base = out@;
            while k < sep.len()
                invariant
                    k <= sep@.len(),
                    out@ == base + sep@.take(k as int),
                decreases sep@.len() - k,
            {
                out.push(sep[k]);
                k = k + 1;
                assert(sep@.take(k as int) == sep@.take(k - 1).push(sep@[k - 1]));
            }
            assert(sep@.take(sep@.len() as int) == sep@);
        }
        let w = &parts[i];
        let mut k: usize = 0;
        let ghost base2 = out@;
        while k < w.len()
            invariant
                k <= w@.len(),
                out@ == base2 + w@.take(k as int),
            decreases w@.len() - k,
        {
            out.push(w[k]);
            k = k + 1;
            assert(w@.take(k as int) == w@.take(k - 1).push(w@[k - 1]));
        }
        assert(w@.take(w@.len() as int) == w@);
        assert(ps[i as int] == w@);
        i = i + 1;
        if i == 1 {
            assert(ps.take(1)[0] == w@);
            assert(out@ =~= join(ps.take(i as int), sep@));
        } else {
            assert(ps.take(i as int).last() == w@);
            assert(out@ =~= join(ps.take(i as int), sep@));
        }
    }
    assert(ps.take(parts@.len() as int) == ps);
    out
}

/// Normalization used when checking a typed answer: NFC, trimmed, internal
/// whitespace collapsed, case-insensitive. Deliberately nothing else.
pub fn normalize_answer(s: &str) -> (r: String)
    ensures
        r@ == spec_normalize_answer(s@),
{
    let n = nfc(s);
    let v = chars_of(n.as_str());
    let ws = split_words(v.as_slice());
    let sep: Vec<char> = vec![' '];
    let joined = join_words(&ws, sep.as_slice());
    assert(sep@ == seq![' ']);
    let js = string_of(joined.as_slice());
    lowercase(js.as_str())
}

/// `str::split` with a non-empty string pattern: the pieces between
/// non-overlapping matches, left to right.
pub open spec fn split_on(s: Seq<char>, pat: Seq<char>) -> Seq<Seq<char>>
    recommends
        pat.len() > 0,
    decreases s.len(),
{
    match find(s, pat) {
        None => seq![s],
        Some(i) => if pat.len() > 0 && 0 <= i && i + pat.len() <= s.len() {
            seq![s.take(i)] + split_on(s.skip(i + pat.len()), pat)
        } else {
            seq![s]
        },
    }
}

/// The separator between alternatives on an answer side.
pub open spec fn alt_sep() -> Seq<char> {
    seq![' ', '/', ' ']
}

/// Alternatives on an answer side are separated by " / ".
pub open spec fn spec_alternatives(answer: Seq<char>) -> Seq<Seq<char>> {
    split_on(answer, alt_sep())
}

/// Splits characters on a non-empty pattern.
pub fn split_on_exec(v: &[char], pat: &[char]) -> (r: Vec<Vec<char>>)
    requires
        pat@.len() > 0,
    ensures
        r@.map_values(|w: Vec<char>| w@) == split_on(v@, pat@),
{
    let mut out: Vec<Vec<char>> = Vec::new();
    let mut rest: Vec<char> = slice_chars(v, 0, v.len());
    assert(v@.subrange(0, v@.len() as int) == v@);
    loop
        invariant
            pat@.len() > 0,
            out@.map_values(|w: Vec<char>| w@) + split_on(rest@, pat@) == split_on(v@, pat@),
        decreases rest@.len(),
    {
        proof {
            lemma_find_range(rest@, pat@);
        }
        match find_exec(rest.as_slice(), pat) {
            None => {
                let ghost last = rest@;
                out.push(rest);
                assert(out@.map_values(|w: Vec<char>| w@) =~= split_on(v@, pat@));
                return out;
            },
            Some(i) => {
                let rl = rest.len();
                assert(i + pat@.len() <= rl);
                let piece = slice_chars(rest.as_slice(), 0, i);
                let tail = slice_chars(rest.as_slice(), i + pat.len(), rest.len());
                assert(piece@ == rest@.take(i as int));
                assert(tail@ == rest@.skip(i + pat@.len()));
                let ghost before = out@.map_values(|w: Vec<char>| w@);
                out.push(piece);
                assert(out@.map_values(|w: Vec<char>| w@) =~= before.push(rest@.take(i as int)));
                assert(split_on(rest@, pat@) == seq![rest@.take(i as int)] + split_on(tail@, pat@));
                assert(out@.map_values(|w: Vec<char>| w@) + split_on(tail@, pat@) =~= before
                    + split_on(rest@, pat@));
                rest = tail;
            },
        }
    }
}

/// Alternatives on an answer side are separated by " / ".
pub fn alternatives(answer: &str) -> (r: Vec<String>)
    ensures
        r@.map_values(|w: String| w@) == spec_alternatives(answer@),
{
    let v = chars_of(answer);
    let sep: Vec<char> = vec![' ', '/', ' '];
    assert(sep@ == alt_sep());
    let parts = split_on_exec(v.as_slice(), sep.as_slice());
    let mut out: Vec<String> = Vec::new();
    let mut i: usize = 0;
    while i < parts.len()
        invariant
            i <= parts@.len(),
            out@.map_values(|w: String| w@) == parts@.map_values(|w: Vec<char>| w@).take(
                i as int,
            ),
        decreases parts@.len() - i,
    {
        let ghost before = out@.map_values(|w: String| w@);
        let w = string_of(parts[i].as_slice());
        out.push(w);
        assert(out@.map_values(|w: String| w@) =~= before.push(parts@[i as int]@));
        i = i + 1;
        assert(out@.map_values(|w: String| w@) =~= parts@.map_values(|w: Vec<char>| w@).take(
            i as int,
        ));
    }
    assert(parts@.map_values(|w: Vec<char>| w@).take(parts@.len() as int) == parts@.map_values(
        |w: Vec<char>| w@,
    ));
    out
}

/// The whitespace step of answer normalization: the words, joined by
/// single spaces. `spec_normalize_answer` is the lowercase of this step
/// applied to the NFC form.
pub open spec fn collapse(s: Seq<char>) -> Seq<char> {
    join(words(s), seq![' '])
}

/// All of `s` is whitespace.
pub open spec fn all_ws(s: Seq<char>) -> bool {
    forall|i: int| 0 <= i < s.len() ==> is_ws(#[trigger] s[i])
}

/// A word: not empty, and no whitespace in it.
pub open spec fn is_word(w: Seq<char>) -> bool {
    w.len() > 0 && forall|i: int| 0 <= i < w.len() ==> !is_ws(#[trigger] w[i])
}

proof fn lemma_word_state_words(s: Seq<char>)
    ensures
        forall|i: int| 0 <= i < word_state(s).0.len() ==> is_word(#[trigger] word_state(s).0[i]),
        forall|i: int| 0 <= i < word_state(s).1.len() ==> !is_ws(#[trigger] word_state(s).1[i]),
    decreases s.len(),
{
    if s.len() > 0 {
        let d = s.drop_last();
        lemma_word_state_words(d);
        let (done, cur) = word_state(d);
        if !is_ws(s.last()) {
            let c2 = cur.push(s.last());
            assert forall|i: int| 0 <= i < c2.len() implies !is_ws(#[trigger] c2[i]) by {
                if i < cur.len() {
                    assert(c2[i] == cur[i]);
                }
            }
        }
    }
}

proof fn lemma_words_are_words(s: Seq<char>)
    ensures
        forall|i: int| 0 <= i < words(s).len() ==> is_word(#[trigger] words(s)[i]),
{
    lemma_word_state_words(s);
}

proof fn lemma_word_state_trailing(s: Seq<char>, w: Seq<char>)
    requires
        all_ws(w),
    ensures
        w.len() > 0 ==> word_state(s + w).1.len() == 0 && word_state(s + w).0 == words(s),
    decreases w.len(),
{
    if w.len() > 0 {
        let d = w.drop_last();
        assert(all_ws(d)) by {
            assert forall|i: int| 0 <= i < d.len() implies is_ws(#[trigger] d[i]) by {
                assert(d[i] == w[i]);
            }
        }
        assert((s + w).drop_last() =~= s + d);
        assert((s + w).last() == w[w.len() - 1]);
        if d.len() == 0 {
            assert(s + d =~= s);
        } else {
            lemma_word_state_trailing(s, d);
        }
    }
}

/// Whitespace after the text changes no word.
proof fn lemma_words_trailing(s: Seq<char>, w: Seq<char>)
    requires
        all_ws(w),
    ensures
        words(s + w) == words(s),
{
    if w.len() == 0 {
        assert(s + w =~= s);
    } else {
        lemma_word_state_trailing(s, w);
    }
}

/// Whitespace before the text changes no word.
proof fn lemma_word_state_leading(a: Seq<char>, s: Seq<char>)
    requires
        all_ws(a),
    ensures
        word_state(a + s) == word_state(s),
    decreases a.len() + s.len(),
{
    if s.len() == 0 {
        assert(a + s =~= a);
        if a.len() > 0 {
            let d = a.drop_last();
            assert(all_ws(d)) by {
                assert forall|i: int| 0 <= i < d.len() implies is_ws(#[trigger] d[i]) by {
                    assert(d[i] == a[i]);
                }
            }
            lemma_word_state_leading(d, s);
            assert(d + s =~= d);
            assert(is_ws(a[a.len() - 1]));
        }
    } else {
        let d = s.drop_last();
        lemma_word_state_leading(a, d);
        assert((a + s).drop_last() =~= a + d);
        assert((a + s).last() == s.last());
    }
}

proof fn lemma_join_spaced(parts: Seq<Seq<char>>)
    requires
        forall|i: int| 0 <= i < parts.len() ==> is_word(#[trigger] parts[i]),
    ensures
        (join(parts, seq![' ']).len() == 0) == (parts.len() == 0),
        parts.len() > 0 ==> !is_ws(join(parts, seq![' '])[0]) && !is_ws(
            join(parts, seq![' '])[join(parts, seq![' ']).len() - 1],
        ),
        forall|i: int|
            0 <= i < join(parts, seq![' ']).len() && is_ws(#[trigger] join(parts, seq![' '])[i]) ==> join(
                parts,
                seq![' '],
            )[i] == ' ' && 0 < i < join(parts, seq![' ']).len() - 1 && !is_ws(join(parts, seq![' '])[i - 1])
                && !is_ws(join(parts, seq![' '])[i + 1]),
    decreases parts.len(),
{
    let c = join(parts, seq![' ']);
    if parts.len() == 1 {
        assert(is_word(parts[0]));
    } else if parts.len() > 1 {
        let d = parts.drop_last();
        assert forall|i: int| 0 <= i < d.len() implies is_word(#[trigger] d[i]) by {
            assert(d[i] == parts[i]);
        }
        lemma_join_spaced(d);
        let j = join(d, seq![' ']);
        let p = parts.last();
        assert(is_word(parts[parts.len() - 1]));
        assert(c == j + seq![' '] + p);
        assert(c[0] == j[0]);
        assert(c[c.len() - 1] == p[p.len() - 1]);
        assert forall|i: int| 0 <= i < c.len() && is_ws(#[trigger] c[i]) implies c[i] == ' ' && 0 < i < c.len() - 1
            && !is_ws(c[i - 1]) && !is_ws(c[i + 1]) by {
            if i < j.len() {
                assert(c[i] == j[i]);
                assert(is_ws(j[i]));
                assert(c[i - 1] == j[i - 1]);
                assert(c[i + 1] == j[i + 1]);
            } else if i == j.len() {
                assert(c[i - 1] == j[j.len() - 1]);
                assert(c[i + 1] == p[0]);
            } else {
                assert(c[i] == p[i - j.len() - 1]);
            }
        }
    }
}

/// Answer normalization's whitespace step: the result has no whitespace
/// at either end, none but single spaces between words, and whitespace
/// around the text changes nothing.
pub proof fn lemma_collapse_law(s: Seq<char>, a: Seq<char>, b: Seq<char>)
    requires
        all_ws(a),
        all_ws(b),
    ensures
        collapse(a + s + b) == collapse(s),
        collapse(s).len() > 0 ==> !is_ws(collapse(s)[0]) && !is_ws(collapse(s)[collapse(s).len() - 1]),
        forall|i: int|
            0 <= i < collapse(s).len() && is_ws(#[trigger] collapse(s)[i]) ==> collapse(s)[i] == ' ' && !is_ws(
                collapse(s)[i - 1],
            ) && !is_ws(collapse(s)[i + 1]) && 0 < i < collapse(s).len() - 1,
        spec_normalize_answer(s) == spec_lowercase(collapse(spec_nfc(s))),
{
    lemma_words_are_words(s);
    lemma_join_spaced(words(s));
    lemma_words_trailing(a + s, b);
    lemma_word_state_leading(a, s);
    assert(words(a + s) == words(s));
}

/// Does a typed answer match the expected side, or any of its alternatives?
pub open spec fn spec_answer_matches(typed: Seq<char>, expected: Seq<char>) -> bool {
    let t = spec_normalize_answer(typed);
    let alts = spec_alternatives(expected);
    &&& t.len() > 0
    &&& (spec_normalize_answer(expected) == t || exists|i: int|
        0 <= i < alts.len() && spec_normalize_answer(#[trigger] alts[i]) == t)
}

/// Nothing but a whole answer is accepted: a typed answer matches exactly
/// when it does not normalize to nothing and its normal form is the normal
/// form of the whole answer side or of one whole alternative. No prefix,
/// part or near miss of an answer counts.
pub proof fn lemma_only_whole_answers_match(typed: Seq<char>, expected: Seq<char>)
    ensures
        spec_answer_matches(typed, expected) <==> (spec_normalize_answer(typed).len() > 0 && (
        spec_normalize_answer(typed) == spec_normalize_answer(expected) || exists|i: int|
            0 <= i < spec_alternatives(expected).len() && spec_normalize_answer(
                #[trigger] spec_alternatives(expected)[i],
            ) == spec_normalize_answer(typed))),
{
}

/// Typing any one alternative of the answer side is accepted, unless it
/// normalizes to nothing.
pub proof fn lemma_each_alternative_matches(expected: Seq<char>, i: int)
    requires
        0 <= i < spec_alternatives(expected).len(),
        spec_normalize_answer(spec_alternatives(expected)[i]).len() > 0,
    ensures
        spec_answer_matches(spec_alternatives(expected)[i], expected),
{
}

/// A typed answer is judged by its normal form alone: two that normalize
/// alike are both accepted or both refused.
pub proof fn lemma_matching_goes_by_normal_form(a: Seq<char>, b: Seq<char>, expected: Seq<char>)
    requires
        spec_normalize_answer(a) == spec_normalize_answer(b),
    ensures
        spec_answer_matches(a, expected) == spec_answer_matches(b, expected),
{
}

/// Does a typed answer match the expected side, or any of its alternatives?
pub fn answer_matches(typed: &str, expected: &str) -> (r: bool)
    ensures
        r == spec_answer_matches(typed@, expected@),
{
    let t = normalize_answer(typed);
    if t.as_str().is_empty() {
        return false;
    }
    let e = normalize_answer(expected);
    if str_eq(e.as_str(), t.as_str()) {
        return true;
    }
    let alts = alternatives(expected);
    let ghost av = alts@.map_values(|w: String| w@);
    let mut i: usize = 0;
    while i < alts.len()
        invariant
            i <= alts@.len(),
            av == alts@.map_values(|w: String| w@),
            av == spec_alternatives(expected@),
            t@ == spec_normalize_answer(typed@),
            t@.len() > 0,
            forall|j: int| 0 <= j < i ==> spec_normalize_answer(#[trigger] av[j]) != t@,
        decreases alts@.len() - i,
    {
        let a = normalize_answer(alts[i].as_str());
        assert(av[i as int] == alts@[i as int]@);
        if str_eq(a.as_str(), t.as_str()) {
            assert(spec_normalize_answer(av[i as int]) == t@);
            return true;
        }
        i = i + 1;
    }
    false
}

/// The escaped form of one character in a log field.
pub open spec fn escape_char(c: char) -> Seq<char> {
    if c == '\\' {
        seq!['\\', '\\']
    } else if c == '\t' {
        seq!['\\', 't']
    } else if c == '\n' {
        seq!['\\', 'n']
    } else if c == '\r' {
        seq!['\\', 'r']
    } else {
        seq![c]
    }
}

/// Log fields are tab-separated, so tabs, newlines and backslashes inside a
/// field are escaped.
pub open spec fn spec_escape(s: Seq<char>) -> Seq<char>
    decreases s.len(),
{
    if s.len() == 0 {
        Seq::empty()
    } else {
        escape_char(s[0]) + spec_escape(s.drop_first())
    }
}

/// Reverses `spec_escape`; a backslash before any other character, or at the
/// end, is kept as it is.
pub open spec fn spec_unescape(s: Seq<char>) -> Seq<char>
    decreases s.len(),
{
    if s.len() == 0 {
        Seq::empty()
    } else if s[0] != '\\' {
        seq![s[0]] + spec_unescape(s.drop_first())
    } else if s.len() == 1 {
        seq!['\\']
    } else {
        let c = s[1];
        let head = if c == 't' {
            seq!['\t']
        } else if c == 'n' {
            seq!['\n']
        } else if c == 'r' {
            seq!['\r']
        } else if c == '\\' {
            seq!['\\']
        } else {
            seq!['\\', c]
        };
        head + spec_unescape(s.skip(2))
    }
}

/// Log fields are tab-separated, so tabs, newlines and backslashes inside a
/// field are escaped. Fronts and answers almost never contain them; this
/// keeps the format lossless when they do.
pub fn escape_field(s: &str) -> (r: String)
    ensures
        r@ == spec_escape(s@),
{
    let v = chars_of(s);
    let mut out = String::new();
    let mut i: usize = 0;
    assert(v@.skip(0) =~= v@);
    assert(out@ + spec_escape(v@) =~= spec_escape(v@));
    while i < v.len()
        invariant
            i <= v@.len(),
            out@ + spec_escape(v@.skip(i as int)) == spec_escape(v@),
        decreases v@.len() - i,
    {
        let c = v[i];
        assert(v@.skip(i as int).drop_first() == v@.skip(i + 1));
        assert(v@.skip(i as int)[0] == c);
        let ghost before = out@;
        if c == '\\' {
            push_char(&mut out, '\\');
            push_char(&mut out, '\\');
        } else if c == '\t' {
            push_char(&mut out, '\\');
            push_char(&mut out, 't');
        } else if c == '\n' {
            push_char(&mut out, '\\');
            push_char(&mut out, 'n');
        } else if c == '\r' {
            push_char(&mut out, '\\');
            push_char(&mut out, 'r');
        } else {
            push_char(&mut out, c);
        }
        assert(out@ =~= before + escape_char(c));
        i = i + 1;
    }
    assert(v@.skip(v@.len() as int) =~= Seq::<char>::empty());
    assert(out@ + Seq::<char>::empty() =~= out@);
    out
}

/// Reverses `escape_field`.
pub fn unescape_field(s: &str) -> (r: String)
    ensures
        r@ == spec_unescape(s@),
{
    let v = chars_of(s);
    let mut out = String::new();
    let mut i: usize = 0;
    assert(v@.skip(0) =~= v@);
    assert(out@ + spec_unescape(v@) =~= spec_unescape(v@));
    while i < v.len()
        invariant
            i <= v@.len(),
            out@ + spec_unescape(v@.skip(i as int)) == spec_unescape(v@),
        decreases v@.len() - i,
    {
        let c = v[i];
        let ghost rest = v@.skip(i as int);
        let ghost before = out@;
        assert(rest[0] == c);
        if c != '\\' {
            assert(rest.drop_first() == v@.skip(i + 1));
            push_char(&mut out, c);
            i = i + 1;
            assert(out@ + spec_unescape(v@.skip(i as int)) =~= before + spec_unescape(rest));
        } else if i + 1 == v.len() {
            push_char(&mut out, '\\');
            i = i + 1;
            assert(rest.len() == 1);
            assert(v@.skip(i as int) =~= Seq::<char>::empty());
            assert(out@ + spec_unescape(v@.skip(i as int)) =~= before + spec_unescape(rest));
        } else {
            let n = v[i + 1];
            assert(rest[1] == n);
            assert(rest.skip(2) == v@.skip(i + 2));
            if n == 't' {
                push_char(&mut out, '\t');
            } else if n == 'n' {
                push_char(&mut out, '\n');
            } else if n == 'r' {
                push_char(&mut out, '\r');
            } else if n == '\\' {
                push_char(&mut out, '\\');
            } else {
                push_char(&mut out, '\\');
                push_char(&mut out, n);
            }
            i = i + 2;
            assert(out@ + spec_unescape(v@.skip(i as int)) =~= before + spec_unescape(rest));
        }
    }
    assert(v@.skip(v@.len() as int) =~= Seq::<char>::empty());
    assert(out@ + Seq::<char>::empty() =~= out@);
    out
}

/// Unescaping an escaped field gives the field back, and an escaped field
/// holds no tab, newline or carriage return, so it never breaks a log line.
pub proof fn lemma_escape_round_trip(s: Seq<char>)
    ensures
        spec_unescape(spec_escape(s)) == s,
        forall|i: int|
            0 <= i < spec_escape(s).len() ==> #[trigger] spec_escape(s)[i] != '\t' && spec_escape(
                s,
            )[i] != '\n' && spec_escape(s)[i] != '\r',
    decreases s.len(),
{
    if s.len() > 0 {
        let c = s[0];
        let rest = spec_escape(s.drop_first());
        lemma_escape_round_trip(s.drop_first());
        let e = escape_char(c) + rest;
        assert(spec_escape(s) == e);
        if c == '\\' || c == '\t' || c == '\n' || c == '\r' {
            assert(e.skip(2) =~= rest);
            assert(e[0] == '\\');
        } else {
            assert(e.drop_first() =~= rest);
        }
        assert(seq![c] + s.drop_first() =~= s);
        assert forall|i: int| 0 <= i < e.len() implies #[trigger] e[i] != '\t' && e[i] != '\n'
            && e[i] != '\r' by {
            if i >= escape_char(c).len() {
                assert(e[i] == rest[i - escape_char(c).len()]);
            }
        }
    }
}

/// Pad on the right to `cells` display cells.
pub open spec fn spec_pad_right(s: Seq<char>, cells: usize) -> Seq<char> {
    let w = spec_width(s);
    if w >= cells {
        s
    } else {
        s + Seq::new((cells - w) as nat, |i: int| ' ')
    }
}

/// Pad on the left to `cells` display cells.
pub open spec fn spec_pad_left(s: Seq<char>, cells: usize) -> Seq<char> {
    let w = spec_width(s);
    if w >= cells {
        s
    } else {
        Seq::new((cells - w) as nat, |i: int| ' ') + s
    }
}

/// `n` spaces appended to a string.
fn push_spaces(out: &mut String, n: usize)
    ensures
        final(out)@ == old(out)@ + Seq::new(n as nat, |i: int| ' '),
{
    let ghost start = out@;
    let mut k: usize = 0;
    while k < n
        invariant
            k <= n,
            out@ == start + Seq::new(k as nat, |i: int| ' '),
        decreases n - k,
    {
        push_char(out, ' ');
        k = k + 1;
        assert(out@ =~= start + Seq::new(k as nat, |i: int| ' '));
    }
}

/// Pad on the right to `cells` display cells.
pub fn pad_right(s: &str, cells: usize) -> (r: String)
    ensures
        r@ == spec_pad_right(s@, cells),
{
    let w = width(s);
    let mut out = owned(s);
    if w < cells {
        push_spaces(&mut out, cells - w);
    }
    out
}

/// Pad on the left to `cells` display cells.
pub fn pad_left(s: &str, cells: usize) -> (r: String)
    ensures
        r@ == spec_pad_left(s@, cells),
{
    let w = width(s);
    let mut out = String::new();
    if w < cells {
        push_spaces(&mut out, cells - w);
    }
    push_str(&mut out, s);
    assert(w >= cells ==> out@ =~= s@);
    out
}

/// "1 card comes due" / "3 cards come due".
pub open spec fn spec_cards_come_due(n: nat) -> Seq<char> {
    if n == 1 {
        "1 card comes due"@
    } else {
        dec(n) + " cards come due"@
    }
}

/// "1 card comes due" / "3 cards come due".
pub fn cards_come_due(n: usize) -> (r: String)
    ensures
        r@ == spec_cards_come_due(n as nat),
{
    if n == 1 {
        owned("1 card comes due")
    } else {
        let mut s = dec_string(n as u64);
        push_str(&mut s, " cards come due");
        s
    }
}

/// `plural(1, "card")` → "1 card", `plural(2, "card")` → "2 cards".
pub open spec fn spec_plural(n: nat, noun: Seq<char>) -> Seq<char> {
    if n == 1 {
        dec(n) + seq![' '] + noun
    } else {
        dec(n) + seq![' '] + noun + seq!['s']
    }
}

/// Plural helper: `plural(1, "card")` → "1 card", `plural(2, "card")` → "2 cards".
pub fn plural(n: usize, noun: &str) -> (r: String)
    ensures
        r@ == spec_plural(n as nat, noun@),
{
    let mut s = dec_string(n as u64);
    push_char(&mut s, ' ');
    push_str(&mut s, noun);
    if n != 1 {
        push_char(&mut s, 's');
    }
    s
}


pub open spec fn strings_view(v: Seq<String>) -> Seq<Seq<char>> {
    v.map_values(|w: String| w@)
}

/// Joins strings with a separator, as `[String]::join` does.
pub fn join_strings(parts: &Vec<String>, sep: &str) -> (r: String)
    ensures
        r@ == join(strings_view(parts@), sep@),
{
    let mut vs: Vec<Vec<char>> = Vec::new();
    let mut i: usize = 0;
    while i < parts.len()
        invariant
            i <= parts@.len(),
            vs@.map_values(|w: Vec<char>| w@) == strings_view(parts@).take(i as int),
        decreases parts@.len() - i,
    {
        let ghost before = vs@.map_values(|w: Vec<char>| w@);
        let c = chars_of(parts[i].as_str());
        assert(strings_view(parts@)[i as int] == c@);
        vs.push(c);
        assert(strings_view(parts@).take(i + 1) =~= strings_view(parts@).take(i as int).push(c@));
        assert(vs@.map_values(|w: Vec<char>| w@) =~= before.push(c@));
        i = i + 1;
    }
    assert(strings_view(parts@).take(i as int) =~= strings_view(parts@));
    let sv = chars_of(sep);
    let j = join_words(&vs, sv.as_slice());
    string_of(j.as_slice())
}


/// Wrapping in progress: finished lines, the line being filled, its width.
pub struct WrapState {
    pub lines: Seq<Seq<char>>,
    pub line: Seq<char>,
    pub w: nat,
}

/// One character of a word too long for any line.
pub open spec fn wrap_char(st: WrapState, ch: char, cells: nat) -> WrapState {
    let cw = spec_width(seq![ch]) as nat;
    if st.w + cw > cells && st.line.len() > 0 {
        WrapState { lines: st.lines.push(st.line), line: seq![ch], w: cw }
    } else {
        WrapState { lines: st.lines, line: st.line.push(ch), w: st.w + cw }
    }
}

pub open spec fn wrap_chars(st: WrapState, cs: Seq<char>, cells: nat) -> WrapState
    decreases cs.len(),
{
    if cs.len() == 0 {
        st
    } else {
        wrap_char(wrap_chars(st, cs.drop_last(), cells), cs.last(), cells)
    }
}

/// The line being filled, finished, unless it is empty.
pub open spec fn close_line(st: WrapState) -> WrapState {
    if st.line.len() > 0 {
        WrapState { lines: st.lines.push(st.line), line: Seq::empty(), w: 0 }
    } else {
        st
    }
}

/// One word: onto the line if it fits after a space, else onto a new line;
/// a word wider than a line starts a line of its own and is broken by
/// character.
pub open spec fn wrap_word(st: WrapState, word: Seq<char>, cells: nat) -> WrapState {
    let ww = spec_width(word) as nat;
    if ww > cells {
        wrap_chars(close_line(st), word, cells)
    } else {
        let sep: nat = if st.line.len() == 0 {
            0
        } else {
            1
        };
        if st.w + sep + ww > cells {
            WrapState { lines: st.lines.push(st.line), line: word, w: ww }
        } else {
            WrapState {
                lines: st.lines,
                line: if sep == 1 {
                    st.line.push(' ') + word
                } else {
                    st.line + word
                },
                w: st.w + sep + ww,
            }
        }
    }
}

pub open spec fn wrap_words(st: WrapState, words: Seq<Seq<char>>, cells: nat) -> WrapState
    decreases words.len(),
{
    if words.len() == 0 {
        st
    } else {
        wrap_word(wrap_words(st, words.drop_last(), cells), words.last(), cells)
    }
}

pub open spec fn wrap_paras(paras: Seq<Seq<char>>, cells: nat) -> Seq<Seq<char>>
    decreases paras.len(),
{
    if paras.len() == 0 {
        Seq::empty()
    } else {
        let before = wrap_paras(paras.drop_last(), cells);
        let st = wrap_words(
            WrapState { lines: before, line: Seq::empty(), w: 0 },
            split_on(paras.last(), seq![' ']),
            cells,
        );
        st.lines.push(st.line)
    }
}

/// Greedy word wrap to `cells` display cells (at least one), paragraph by
/// paragraph.
pub open spec fn spec_wrap(s: Seq<char>, cells: usize) -> Seq<Seq<char>> {
    wrap_paras(split_on(s, seq!['\n']), if cells < 1 {
        1nat
    } else {
        cells as nat
    })
}

fn char_width(ch: char) -> (r: usize)
    ensures
        r == spec_width(seq![ch]),
{
    let mut s = String::new();
    push_char(&mut s, ch);
    assert(s@ =~= seq![ch]);
    width(s.as_str())
}

/// Greedy word wrap to `cells` display cells, keeping paragraphs.
pub fn wrap(s: &str, cells: usize) -> (r: Vec<String>)
    ensures
        strings_view(r@) == spec_wrap(s@, cells),
{
    let cells: usize = if cells < 1 {
        1
    } else {
        cells
    };
    let ghost cn = cells as nat;
    let v = chars_of(s);
    let nl: Vec<char> = vec!['\n'];
    let sp: Vec<char> = vec![' '];
    assert(nl@ == seq!['\n']);
    assert(sp@ == seq![' ']);
    let paras = split_on_exec(v.as_slice(), nl.as_slice());
    let ghost pv = paras@.map_values(|w: Vec<char>| w@);
    let mut lines: Vec<String> = Vec::new();
    let mut p: usize = 0;
    assert(strings_view(lines@) =~= wrap_paras(pv.take(0), cn));
    while p < paras.len()
        invariant
            p <= paras@.len(),
            cells >= 1,
            cn == cells as nat,
            sp@ == seq![' '],
            pv == paras@.map_values(|w: Vec<char>| w@),
            strings_view(lines@) == wrap_paras(pv.take(p as int), cn),
        decreases paras@.len() - p,
    {
        proof {
            assert(pv.take(p + 1).drop_last() =~= pv.take(p as int));
            assert(pv.take(p + 1).last() == paras@[p as int]@);
        }
        let words = split_on_exec(paras[p].as_slice(), sp.as_slice());
        let ghost wv = words@.map_values(|w: Vec<char>| w@);
        let ghost start = WrapState { lines: strings_view(lines@), line: Seq::empty(), w: 0 };
        let mut line = String::new();
        let mut line_w: usize = 0;
        let mut k: usize = 0;
        assert(wv.take(0) =~= Seq::<Seq<char>>::empty());
        while k < words.len()
            invariant
                k <= words@.len(),
                cells >= 1,
                cn == cells as nat,
                wv == words@.map_values(|w: Vec<char>| w@),
                (WrapState { lines: strings_view(lines@), line: line@, w: line_w as nat }) == wrap_words(
                    start,
                    wv.take(k as int),
                    cn,
                ),
                line@.len() == 0 ==> line_w == 0,
            decreases words@.len() - k,
        {
            proof {
                assert(wv.take(k + 1).drop_last() =~= wv.take(k as int));
                assert(wv.take(k + 1).last() == words@[k as int]@);
            }
            let word = &words[k];
            let wstr = string_of(word.as_slice());
            let ww = width(wstr.as_str());
            if ww > cells {
                if line.as_str().unicode_len() > 0 {
                    let ghost before = strings_view(lines@);
                    let done = line;
                    lines.push(done);
                    assert(strings_view(lines@) =~= before.push(done@));
                    line = String::new();
                    line_w = 0;
                }
                let ghost st0 = WrapState { lines: strings_view(lines@), line: line@, w: line_w as nat };
                let mut c: usize = 0;
                assert(word@.take(0) =~= Seq::<char>::empty());
                while c < word.len()
                    invariant
                        c <= word@.len(),
                        (WrapState { lines: strings_view(lines@), line: line@, w: line_w as nat })
                            == wrap_chars(st0, word@.take(c as int), cn),
                        cn == cells as nat,
                        line@.len() == 0 ==> line_w == 0,
                    decreases word@.len() - c,
                {
                    proof {
                        assert(word@.take(c + 1).drop_last() =~= word@.take(c as int));
                        assert(word@.take(c + 1).last() == word@[c as int]);
                    }
                    let ch = word[c];
                    let cw = char_width(ch);
                    if (line_w as u128) + (cw as u128) > (cells as u128) && line.as_str().unicode_len() > 0 {
                        let ghost before = strings_view(lines@);
                        let done = line;
                        lines.push(done);
                        assert(strings_view(lines@) =~= before.push(done@));
                        line = String::new();
                        push_char(&mut line, ch);
                        assert(line@ =~= seq![ch]);
                        line_w = cw;
                    } else {
                        push_char(&mut line, ch);
                        line_w = line_w + cw;
                    }
                    c = c + 1;
                }
                assert(word@.take(c as int) =~= word@);
            } else {
                let empty = line.as_str().unicode_len() == 0;
                let sep: usize = if empty {
                    0
                } else {
                    1
                };
                if (line_w as u128) + (sep as u128) + (ww as u128) > (cells as u128) {
                    let ghost before = strings_view(lines@);
                    let done = line;
                    lines.push(done);
                    assert(strings_view(lines@) =~= before.push(done@));
                    line = wstr;
                    line_w = ww;
                } else {
                    if sep == 1 {
                        push_char(&mut line, ' ');
                        line_w = line_w + 1;
                    }
                    push_str(&mut line, wstr.as_str());
                    line_w = line_w + ww;
                }
            }
            k = k + 1;
        }
        assert(wv.take(k as int) =~= wv);
        let ghost before = strings_view(lines@);
        let last = line;
        lines.push(last);
        assert(strings_view(lines@) =~= before.push(last@));
        p = p + 1;
    }
    assert(pv.take(p as int) =~= pv);
    lines
}

/// The characters of a text other than spaces and line breaks.
pub open spec fn visible(s: Seq<char>) -> Seq<char> {
    s.filter(|c: char| c != ' ' && c != '\n')
}

/// Lines put end to end.
pub open spec fn flat(ls: Seq<Seq<char>>) -> Seq<char>
    decreases ls.len(),
{
    if ls.len() == 0 {
        Seq::empty()
    } else {
        flat(ls.drop_last()) + ls.last()
    }
}

proof fn lemma_visible_empty()
    ensures
        visible(Seq::<char>::empty()) == Seq::<char>::empty(),
{
    reveal(Seq::filter);
}

proof fn lemma_visible_one(c: char)
    ensures
        visible(seq![c]) == (if c != ' ' && c != '\n' {
            seq![c]
        } else {
            Seq::<char>::empty()
        }),
{
    lemma_visible_empty();
    let e = Seq::<char>::empty();
    e.lemma_filter_push(c, |c: char| c != ' ' && c != '\n');
    assert(e.push(c) =~= seq![c]);
}

proof fn lemma_visible_add(a: Seq<char>, b: Seq<char>)
    ensures
        visible(a + b) == visible(a) + visible(b),
{
    Seq::filter_distributes_over_add(a, b, |c: char| c != ' ' && c != '\n');
}

proof fn lemma_flat_first(ls: Seq<Seq<char>>)
    requires
        ls.len() > 0,
    ensures
        flat(ls) == ls[0] + flat(ls.drop_first()),
    decreases ls.len(),
{
    if ls.len() == 1 {
        assert(ls.drop_last() =~= Seq::<Seq<char>>::empty());
        assert(ls.drop_first() =~= Seq::<Seq<char>>::empty());
        assert(flat(ls.drop_last()) =~= Seq::<char>::empty());
        assert(flat(ls.drop_first()) =~= Seq::<char>::empty());
        assert(flat(ls) =~= ls[0]);
    } else {
        let d = ls.drop_last();
        lemma_flat_first(d);
        assert(d.drop_first() =~= ls.drop_first().drop_last());
        assert(ls.drop_first().last() == ls.last());
        assert(flat(ls) =~= ls[0] + flat(ls.drop_first()));
    }
}

proof fn lemma_flat_push(ls: Seq<Seq<char>>, l: Seq<char>)
    ensures
        flat(ls.push(l)) == flat(ls) + l,
{
    assert(ls.push(l).drop_last() =~= ls);
}

/// Splitting at spaces or line breaks loses nothing visible.
proof fn lemma_split_visible(s: Seq<char>, c: char)
    requires
        c == ' ' || c == '\n',
    ensures
        visible(flat(split_on(s, seq![c]))) == visible(s),
    decreases s.len(),
{
    lemma_find_range(s, seq![c]);
    match find(s, seq![c]) {
        None => {
            assert(flat(seq![s]) =~= s) by {
                assert(seq![s].drop_last() =~= Seq::<Seq<char>>::empty());
                assert(flat(seq![s].drop_last()) =~= Seq::<char>::empty());
            }
        },
        Some(i) => {
            let head = s.take(i);
            let tail = s.skip(i + 1);
            assert(s.subrange(i, i + 1) =~= seq![c]);
            assert(s =~= head + seq![c] + tail);
            lemma_split_visible(tail, c);
            let parts = split_on(s, seq![c]);
            assert(parts == seq![head] + split_on(tail, seq![c]));
            lemma_flat_first(parts);
            assert(parts.drop_first() =~= split_on(tail, seq![c]));
            lemma_visible_add(head, flat(split_on(tail, seq![c])));
            lemma_visible_add(head + seq![c], tail);
            lemma_visible_add(head, seq![c]);
            lemma_visible_one(c);
        },
    }
}

/// What a wrap in progress holds that is visible, in order.
pub open spec fn wrap_content(st: WrapState) -> Seq<char> {
    visible(flat(st.lines)) + visible(st.line)
}

proof fn lemma_close_line(st: WrapState)
    ensures
        visible(flat(st.lines.push(st.line))) == wrap_content(st),
{
    lemma_flat_push(st.lines, st.line);
    lemma_visible_add(flat(st.lines), st.line);
}

proof fn lemma_wrap_char_content(st: WrapState, ch: char, cells: nat)
    ensures
        wrap_content(wrap_char(st, ch, cells)) == wrap_content(st) + visible(seq![ch]),
{
    let cw = spec_width(seq![ch]) as nat;
    if st.w + cw > cells && st.line.len() > 0 {
        lemma_close_line(st);
    } else {
        lemma_visible_add(st.line, seq![ch]);
        assert(st.line.push(ch) =~= st.line + seq![ch]);
    }
}

proof fn lemma_wrap_chars_content(st: WrapState, cs: Seq<char>, cells: nat)
    ensures
        wrap_content(wrap_chars(st, cs, cells)) == wrap_content(st) + visible(cs),
    decreases cs.len(),
{
    if cs.len() == 0 {
        lemma_visible_empty();
        assert(cs =~= Seq::<char>::empty());
    } else {
        let d = cs.drop_last();
        lemma_wrap_chars_content(st, d, cells);
        lemma_wrap_char_content(wrap_chars(st, d, cells), cs.last(), cells);
        assert(cs =~= d + seq![cs.last()]);
        lemma_visible_add(d, seq![cs.last()]);
    }
}

proof fn lemma_wrap_word_content(st: WrapState, word: Seq<char>, cells: nat)
    ensures
        wrap_content(wrap_word(st, word, cells)) == wrap_content(st) + visible(word),
{
    let ww = spec_width(word) as nat;
    if ww > cells {
        if st.line.len() > 0 {
            lemma_close_line(st);
            lemma_visible_empty();
        }
        lemma_wrap_chars_content(close_line(st), word, cells);
    } else {
        let sep: nat = if st.line.len() == 0 {
            0
        } else {
            1
        };
        if st.w + sep + ww > cells {
            lemma_close_line(st);
        } else if sep == 1 {
            lemma_visible_add(st.line.push(' '), word);
            lemma_visible_add(st.line, seq![' ']);
            assert(st.line.push(' ') =~= st.line + seq![' ']);
            lemma_visible_one(' ');
        } else {
            lemma_visible_add(st.line, word);
        }
    }
}

proof fn lemma_wrap_words_content(st: WrapState, words: Seq<Seq<char>>, cells: nat)
    ensures
        wrap_content(wrap_words(st, words, cells)) == wrap_content(st) + visible(flat(words)),
    decreases words.len(),
{
    if words.len() == 0 {
        lemma_visible_empty();
        assert(flat(words) =~= Seq::<char>::empty());
    } else {
        let d = words.drop_last();
        lemma_wrap_words_content(st, d, cells);
        lemma_wrap_word_content(wrap_words(st, d, cells), words.last(), cells);
        lemma_flat_push(d, words.last());
        assert(d.push(words.last()) =~= words);
        lemma_visible_add(flat(d), words.last());
    }
}

proof fn lemma_wrap_paras_content(paras: Seq<Seq<char>>, cells: nat)
    ensures
        visible(flat(wrap_paras(paras, cells))) == visible(flat(paras)),
    decreases paras.len(),
{
    if paras.len() > 0 {
        let d = paras.drop_last();
        lemma_wrap_paras_content(d, cells);
        let before = wrap_paras(d, cells);
        let st0 = WrapState { lines: before, line: Seq::empty(), w: 0 };
        let words = split_on(paras.last(), seq![' ']);
        lemma_wrap_words_content(st0, words, cells);
        lemma_split_visible(paras.last(), ' ');
        lemma_visible_empty();
        let st = wrap_words(st0, words, cells);
        lemma_close_line(st);
        lemma_flat_push(d, paras.last());
        assert(d.push(paras.last()) =~= paras);
        lemma_visible_add(flat(d), paras.last());
    }
}

/// Wrapping never drops, adds or reorders a character other than spaces
/// and line breaks: the lines, put end to end, hold the text's characters.
pub proof fn lemma_wrap_keeps_text(s: Seq<char>, cells: usize)
    ensures
        visible(flat(spec_wrap(s, cells))) == visible(s),
{
    let c: nat = if cells < 1 {
        1nat
    } else {
        cells as nat
    };
    lemma_wrap_paras_content(split_on(s, seq!['\n']), c);
    lemma_split_visible(s, '\n');
}

} // verus!
