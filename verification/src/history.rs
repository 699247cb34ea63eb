//! Per-deck append-only review logs, and the replay that turns them into
//! per-card review histories. History is the source of truth; memory state
//! is derived from it.

use vstd::prelude::*;

use crate::clock::{
    format_ts, parse_ts, spec_format_ts, spec_parse_ts, ts_char, ts_in_range, ts_representable, NANOS_PER_SECOND,
};
use crate::deck::{
    lemma_lines_append, lemma_lines_bound, lemma_lines_close, lemma_lines_one, lines, split_lines, strip_cr,
    Warning, WarningV,
};
pub use crate::ledger::{History, Ledger, ReviewEvent};
use crate::strs::{
    chars_of, dec, dec_string, digit, digits_value, find, find_from, is_digit, number_body,
    occurs_at, owned, parse_u64, parse_u64_exec, push_chars, push_str, str_eq, string_of, all_digits,
    is_ws, lemma_trim_nonempty, trim,
};
use crate::text::{
    escape_field, lemma_escape_round_trip, spec_escape, spec_unescape, split_on, split_on_exec,
    unescape_field,
};
use crate::types::{
    goal_from_name, goal_name, grade_from_name, grade_name, lemma_names_round_trip, mode_from_name,
    mode_name, Goal, Grade, Mode,
};

verus! {

#[derive(Debug, PartialEq)]
pub struct Row {
    /// Nanoseconds since the Unix epoch (UTC).
    pub ts: i128,
    pub front: String,
    pub kind: RowKind,
}

#[derive(Debug, PartialEq)]
pub enum RowKind {
    Review {
        goal: Goal,
        mode: Mode,
        grade: Grade,
        elapsed_ms: u64,
        answer: Option<String>,
        overridden: bool,
    },
    /// A postponed card. Never fed to FSRS.
    Skip { goal: Goal, mode: Mode, elapsed_ms: u64 },
    /// Cancels the most recent review or skip row for the same card and goal.
    Undo { goal: Goal, mode: Mode },
    /// Carries history from `front` to `to`.
    Rename { to: String },
}

/// A log row as plain values.
#[verifier::ext_equal]
pub struct RowV {
    pub ts: i128,
    pub front: Seq<char>,
    pub kind: RowKindV,
}

#[verifier::ext_equal]
pub enum RowKindV {
    Review {
        goal: Goal,
        mode: Mode,
        grade: Grade,
        elapsed_ms: u64,
        answer: Option<Seq<char>>,
        overridden: bool,
    },
    Skip { goal: Goal, mode: Mode, elapsed_ms: u64 },
    Undo { goal: Goal, mode: Mode },
    Rename { to: Seq<char> },
}

pub open spec fn opt_view(o: Option<String>) -> Option<Seq<char>> {
    match o {
        Some(s) => Some(s@),
        None => None,
    }
}

impl View for RowKind {
    type V = RowKindV;

    open spec fn view(&self) -> RowKindV {
        match self {
            RowKind::Review { goal, mode, grade, elapsed_ms, answer, overridden } => RowKindV::Review {
                goal: *goal,
                mode: *mode,
                grade: *grade,
                elapsed_ms: *elapsed_ms,
                answer: opt_view(*answer),
                overridden: *overridden,
            },
            RowKind::Skip { goal, mode, elapsed_ms } => RowKindV::Skip {
                goal: *goal,
                mode: *mode,
                elapsed_ms: *elapsed_ms,
            },
            RowKind::Undo { goal, mode } => RowKindV::Undo { goal: *goal, mode: *mode },
            RowKind::Rename { to } => RowKindV::Rename { to: to@ },
        }
    }
}

impl View for Row {
    type V = RowV;

    open spec fn view(&self) -> RowV {
        RowV { ts: self.ts, front: self.front@, kind: self.kind@ }
    }
}

/// Columns joined with a separator, first to last.
pub open spec fn join_cols(parts: Seq<Seq<char>>, sep: char) -> Seq<char>
    decreases parts.len(),
{
    if parts.len() == 0 {
        Seq::empty()
    } else if parts.len() == 1 {
        parts[0]
    } else {
        parts[0] + seq![sep] + join_cols(parts.drop_first(), sep)
    }
}

pub open spec fn tab() -> char {
    '\t'
}

/// The columns of a log row.
pub open spec fn row_cols(r: RowV) -> Seq<Seq<char>> {
    let ts = spec_format_ts(r.ts);
    let f = spec_escape(r.front);
    match r.kind {
        RowKindV::Review { goal, mode, grade, elapsed_ms, answer, overridden } => {
            let base = seq![ts, f, goal_name(goal), mode_name(mode), grade_name(grade), dec(elapsed_ms as nat)];
            let with_answer = if answer is Some || overridden {
                base.push(spec_escape(
                    match answer {
                        Some(a) => a,
                        None => Seq::empty(),
                    },
                ))
            } else {
                base
            };
            if overridden {
                with_answer.push("override"@)
            } else {
                with_answer
            }
        },
        RowKindV::Skip { goal, mode, elapsed_ms } => seq![ts, f, goal_name(goal), mode_name(mode), "skip"@, dec(elapsed_ms as nat)],
        RowKindV::Undo { goal, mode } => seq![ts, f, goal_name(goal), mode_name(mode), "undo"@],
        RowKindV::Rename { to } => seq![ts, f, "rename"@, spec_escape(to)],
    }
}

/// A log row as one line of its file: tab-separated columns.
pub open spec fn spec_to_line(r: RowV) -> Seq<char> {
    join_cols(row_cols(r), tab())
}

/// Column `i`, if there is one.
pub open spec fn col(cols: Seq<Seq<char>>, i: int) -> Option<Seq<char>> {
    if 0 <= i < cols.len() {
        Some(cols[i])
    } else {
        None
    }
}

pub open spec fn quoted(pre: Seq<char>, s: Seq<char>) -> Seq<char> {
    pre + seq!['"'] + s + seq!['"']
}

/// The elapsed-time column: missing or empty means 0.
pub open spec fn elapsed_of(c: Option<Seq<char>>) -> Result<u64, Seq<char>> {
    match c {
        None => Ok(0),
        Some(v) => if v.len() == 0 {
            Ok(0)
        } else {
            match parse_u64(v) {
                Some(n) => Ok(n),
                None => Err(quoted("bad elapsed_ms "@, v)),
            }
        },
    }
}

/// What a log line reads as: a row, or why it is malformed.
pub open spec fn spec_parse_row(line: Seq<char>) -> Result<RowV, Seq<char>> {
    let cols = split_on(line, seq![tab()]);
    if cols.len() < 3 {
        Err("expected at least 3 tab-separated columns"@)
    } else {
        match spec_parse_ts(cols[0]) {
            None => Err(quoted("bad timestamp "@, cols[0])),
            Some(ts) => {
                let front = spec_unescape(cols[1]);
                if front.len() == 0 {
                    Err("empty front"@)
                } else if cols[2] == "rename"@ {
                    let to = if cols.len() > 3 {
                        spec_unescape(cols[3])
                    } else {
                        Seq::empty()
                    };
                    if to.len() == 0 {
                        Err("rename row without a new front"@)
                    } else {
                        Ok(RowV { ts, front, kind: RowKindV::Rename { to } })
                    }
                } else {
                    match goal_from_name(cols[2]) {
                        None => Err(quoted("unknown goal "@, cols[2])),
                        Some(goal) => {
                            let mode_s = if cols.len() > 3 {
                                cols[3]
                            } else {
                                Seq::empty()
                            };
                            match mode_from_name(mode_s) {
                                None => Err(quoted("unknown mode "@, mode_s)),
                                Some(mode) => {
                                    let grade_s = if cols.len() > 4 {
                                        cols[4]
                                    } else {
                                        Seq::empty()
                                    };
                                    if grade_s == "undo"@ {
                                        Ok(RowV { ts, front, kind: RowKindV::Undo { goal, mode } })
                                    } else if grade_s == "skip"@ {
                                        match elapsed_of(col(cols, 5)) {
                                            Err(e) => Err(e),
                                            Ok(n) => Ok(
                                                RowV {
                                                    ts,
                                                    front,
                                                    kind: RowKindV::Skip { goal, mode, elapsed_ms: n },
                                                },
                                            ),
                                        }
                                    } else {
                                        match grade_from_name(grade_s) {
                                            None => Err(quoted("unknown grade "@, grade_s)),
                                            Some(grade) => {
                                                let answer = if cols.len() > 6 && cols[6].len() > 0 {
                                                    Some(spec_unescape(cols[6]))
                                                } else {
                                                    None
                                                };
                                                let overridden = cols.len() > 7 && cols[7]
                                                    == "override"@;
                                                match elapsed_of(col(cols, 5)) {
                                                    Err(e) => Err(e),
                                                    Ok(n) => Ok(
                                                        RowV {
                                                            ts,
                                                            front,
                                                            kind: RowKindV::Review {
                                                                goal,
                                                                mode,
                                                                grade,
                                                                elapsed_ms: n,
                                                                answer,
                                                                overridden,
                                                            },
                                                        },
                                                    ),
                                                }
                                            },
                                        }
                                    }
                                },
                            }
                        },
                    }
                }
            },
        }
    }
}

/// Joins columns with a tab.
fn join_tab(cols: &Vec<Vec<char>>) -> (r: Vec<char>)
    requires
        cols@.len() > 0,
    ensures
        r@ == join_cols(cols@.map_values(|w: Vec<char>| w@), tab()),
{
    let ghost cv = cols@.map_values(|w: Vec<char>| w@);
    let n = cols.len();
    let mut out: Vec<char> = Vec::new();
    let mut i: usize = n;
    // Build from the last column backwards.
    let mut k: usize = 0;
    while k < cols[n - 1].len()
        invariant
            n == cols@.len(),
            n > 0,
            k <= cols@[n - 1]@.len(),
            out@ == cols@[n - 1]@.take(k as int),
        decreases cols@[n - 1]@.len() - k,
    {
        out.push(cols[n - 1][k]);
        k = k + 1;
        assert(out@ =~= cols@[n - 1]@.take(k as int));
    }
    assert(cols@[n - 1]@.take(k as int) =~= cols@[n - 1]@);
    i = n - 1;
    assert(cv.skip(i as int) =~= seq![cv[i as int]]);
    while i > 0
        invariant
            n == cols@.len(),
            i < n,
            cv == cols@.map_values(|w: Vec<char>| w@),
            out@ == join_cols(cv.skip(i as int), tab()),
        decreases i,
    {
        i = i - 1;
        let mut piece: Vec<char> = Vec::new();
        let mut k: usize = 0;
        while k < cols[i].len()
            invariant
                i < cols@.len(),
                k <= cols@[i as int]@.len(),
                piece@ == cols@[i as int]@.take(k as int),
            decreases cols@[i as int]@.len() - k,
        {
            piece.push(cols[i][k]);
            k = k + 1;
            assert(piece@ =~= cols@[i as int]@.take(k as int));
        }
        assert(cols@[i as int]@.take(k as int) =~= cols@[i as int]@);
        piece.push('\t');
        let ghost old_out = out@;
        piece.append(&mut out);
        out = piece;
        assert(cv.skip(i as int).drop_first() =~= cv.skip(i + 1));
        assert(cv.skip(i as int)[0] == cv[i as int]);
        assert(out@ =~= join_cols(cv.skip(i as int), tab()));
    }
    assert(cv.skip(0) =~= cv);
    out
}

/// `pre"s"`.
fn quoted_exec(pre: &str, s: &[char]) -> (r: String)
    ensures
        r@ == quoted(pre@, s@),
{
    let mut m = owned(pre);
    crate::strs::push_char(&mut m, '"');
    push_chars(&mut m, s);
    crate::strs::push_char(&mut m, '"');
    m
}

/// The elapsed-time column `i`, if any.
fn elapsed_exec(parts: &Vec<Vec<char>>, i: usize) -> (r: Result<u64, String>)
    ensures
        match elapsed_of(col(parts@.map_values(|w: Vec<char>| w@), i as int)) {
            Ok(n) => r == Ok::<u64, String>(n),
            Err(e) => r matches Err(m) && m@ == e,
        },
{
    let ghost cols = parts@.map_values(|w: Vec<char>| w@);
    if i >= parts.len() {
        return Ok(0);
    }
    assert(cols[i as int] == parts@[i as int]@);
    let c = &parts[i];
    if c.len() == 0 {
        return Ok(0);
    }
    match parse_u64_exec(c.as_slice()) {
        Some(n) => Ok(n),
        None => Err(quoted_exec("bad elapsed_ms ", c.as_slice())),
    }
}

impl Row {
    /// Reads one log line: a row, or why the line is malformed.
    pub fn parse(line: &str) -> (r: Result<Row, String>)
        ensures
            match spec_parse_row(line@) {
                Ok(rv) => r matches Ok(row) && row@ == rv,
                Err(e) => r matches Err(m) && m@ == e,
            },
    {
        let v = chars_of(line);
        let tabv: Vec<char> = vec!['\t'];
        assert(tabv@ == seq![tab()]);
        let parts = split_on_exec(v.as_slice(), tabv.as_slice());
        let ghost cols = parts@.map_values(|w: Vec<char>| w@);
        assert(cols == split_on(line@, seq![tab()]));
        if parts.len() < 3 {
            return Err(owned("expected at least 3 tab-separated columns"));
        }
        assert(cols[0] == parts@[0]@);
        assert(cols[1] == parts@[1]@);
        assert(cols[2] == parts@[2]@);
        let c0 = string_of(parts[0].as_slice());
        let ts = match parse_ts(c0.as_str()) {
            None => {
                return Err(quoted_exec("bad timestamp ", parts[0].as_slice()));
            },
            Some(t) => t,
        };
        let c1 = string_of(parts[1].as_slice());
        let front = unescape_field(c1.as_str());
        if front.as_str().is_empty() {
            return Err(owned("empty front"));
        }
        let c2 = string_of(parts[2].as_slice());
        if str_eq(c2.as_str(), "rename") {
            let to = if parts.len() > 3 {
                assert(cols[3] == parts@[3]@);
                let c3 = string_of(parts[3].as_slice());
                unescape_field(c3.as_str())
            } else {
                String::new()
            };
            if to.as_str().is_empty() {
                return Err(owned("rename row without a new front"));
            }
            return Ok(Row { ts, front, kind: RowKind::Rename { to } });
        }
        let goal = match Goal::parse(c2.as_str()) {
            None => {
                return Err(quoted_exec("unknown goal ", parts[2].as_slice()));
            },
            Some(g) => g,
        };
        let mode_s = if parts.len() > 3 {
            assert(cols[3] == parts@[3]@);
            string_of(parts[3].as_slice())
        } else {
            String::new()
        };
        let mode = match Mode::parse(mode_s.as_str()) {
            None => {
                let mv = chars_of(mode_s.as_str());
                return Err(quoted_exec("unknown mode ", mv.as_slice()));
            },
            Some(m) => m,
        };
        let grade_s = if parts.len() > 4 {
            assert(cols[4] == parts@[4]@);
            string_of(parts[4].as_slice())
        } else {
            String::new()
        };
        if str_eq(grade_s.as_str(), "undo") {
            return Ok(Row { ts, front, kind: RowKind::Undo { goal, mode } });
        }
        if str_eq(grade_s.as_str(), "skip") {
            let n = match elapsed_exec(&parts, 5) {
                Err(e) => {
                    return Err(e);
                },
                Ok(n) => n,
            };
            return Ok(Row { ts, front, kind: RowKind::Skip { goal, mode, elapsed_ms: n } });
        }
        let grade = match Grade::parse(grade_s.as_str()) {
            None => {
                let gv = chars_of(grade_s.as_str());
                return Err(quoted_exec("unknown grade ", gv.as_slice()));
            },
            Some(g) => g,
        };
        let answer = if parts.len() > 6 && parts[6].len() > 0 {
            assert(cols[6] == parts@[6]@);
            let c6 = string_of(parts[6].as_slice());
            Some(unescape_field(c6.as_str()))
        } else {
            None
        };
        let overridden = if parts.len() > 7 {
            assert(cols[7] == parts@[7]@);
            let c7 = string_of(parts[7].as_slice());
            str_eq(c7.as_str(), "override")
        } else {
            false
        };
        let n = match elapsed_exec(&parts, 5) {
            Err(e) => {
                return Err(e);
            },
            Ok(n) => n,
        };
        Ok(Row { ts, front, kind: RowKind::Review { goal, mode, grade, elapsed_ms: n, answer, overridden } })
    }

    /// The row as one log line.
    pub fn to_line(&self) -> (r: String)
        requires
            ts_representable(self.ts),
        ensures
            r@ == spec_to_line(self@),
            row_reads_back(self@) ==> spec_parse_row(r@) == Ok::<RowV, Seq<char>>(self@),
            row_is_lossless(self@) ==> spec_parse_row(r@) == Ok::<RowV, Seq<char>>(self@),
            no_char(r@, '\n') && no_char(r@, '\r') && trim(r@).len() > 0,
    {
        let ts = format_ts(self.ts);
        proof {
            if row_reads_back(self@) {
                lemma_row_round_trip(self@);
            }
            lemma_line_shape(self@);
        }
        let mut cols: Vec<Vec<char>> = Vec::new();
        cols.push(chars_of(ts.as_str()));
        cols.push(chars_of(escape_field(self.front.as_str()).as_str()));
        match &self.kind {
            RowKind::Review { goal, mode, grade, elapsed_ms, answer, overridden } => {
                cols.push(chars_of(goal.as_str()));
                cols.push(chars_of(mode.as_str()));
                cols.push(chars_of(grade.as_str()));
                cols.push(chars_of(dec_string(*elapsed_ms).as_str()));
                if answer.is_some() || *overridden {
                    let a = match answer {
                        Some(a) => escape_field(a.as_str()),
                        None => escape_field(""),
                    };
                    proof {
                        reveal_strlit("");
                    }
                    cols.push(chars_of(a.as_str()));
                }
                if *overridden {
                    cols.push(chars_of("override"));
                }
            },
            RowKind::Skip { goal, mode, elapsed_ms } => {
                cols.push(chars_of(goal.as_str()));
                cols.push(chars_of(mode.as_str()));
                cols.push(chars_of("skip"));
                cols.push(chars_of(dec_string(*elapsed_ms).as_str()));
            },
            RowKind::Undo { goal, mode } => {
                cols.push(chars_of(goal.as_str()));
                cols.push(chars_of(mode.as_str()));
                cols.push(chars_of("undo"));
            },
            RowKind::Rename { to } => {
                cols.push(chars_of("rename"));
                cols.push(chars_of(escape_field(to.as_str()).as_str()));
            },
        }
        assert(cols@.map_values(|w: Vec<char>| w@) =~= row_cols(self@));
        let joined = join_tab(&cols);
        string_of(joined.as_slice())
    }
}

} // verus!

verus! {

pub open spec fn no_char(s: Seq<char>, c: char) -> bool {
    forall|i: int| 0 <= i < s.len() ==> #[trigger] s[i] != c
}

proof fn lemma_find_char(s: Seq<char>, c: char, i: int, k: int)
    requires
        0 <= i <= k <= s.len(),
        forall|j: int| i <= j < k ==> #[trigger] s[j] != c,
        k == s.len() || s[k] == c,
    ensures
        find_from(s, seq![c], i) == (if k < s.len() { Some(k) } else { None::<int> }),
    decreases k - i,
{
    if i < k {
        assert(s.subrange(i, i + 1)[0] == s[i]);
        assert(!occurs_at(s, seq![c], i));
        lemma_find_char(s, c, i + 1, k);
    } else if k < s.len() {
        assert(s.subrange(k, k + 1) =~= seq![c]);
    }
}

/// Splitting columns joined by a character that none of them holds gives the
/// columns back.
pub proof fn lemma_split_join(parts: Seq<Seq<char>>, c: char)
    requires
        parts.len() > 0,
        forall|i: int| 0 <= i < parts.len() ==> no_char(#[trigger] parts[i], c),
    ensures
        split_on(join_cols(parts, c), seq![c]) == parts,
    decreases parts.len(),
{
    let s = join_cols(parts, c);
    let p0 = parts[0];
    if parts.len() == 1 {
        lemma_find_char(p0, c, 0, p0.len() as int);
        assert(split_on(s, seq![c]) =~= parts);
    } else {
        let rest = join_cols(parts.drop_first(), c);
        assert(s == p0 + seq![c] + rest);
        assert forall|j: int| 0 <= j < p0.len() implies #[trigger] s[j] != c by {
            assert(s[j] == p0[j]);
        }
        assert(s[p0.len() as int] == c);
        lemma_find_char(s, c, 0, p0.len() as int);
        assert(s.take(p0.len() as int) =~= p0);
        assert(s.skip(p0.len() as int + 1) =~= rest);
        assert forall|i: int| 0 <= i < parts.drop_first().len() implies no_char(
            #[trigger] parts.drop_first()[i],
            c,
        ) by {
            assert(parts.drop_first()[i] == parts[i + 1]);
        }
        lemma_split_join(parts.drop_first(), c);
        assert(split_on(s, seq![c]) =~= parts);
    }
}

proof fn lemma_digit(d: nat)
    requires
        d < 10,
    ensures
        is_digit(digit(d)),
        (digit(d) as u32) - 48 == d,
        digit(d) != '\t',
{
}

/// A decimal number reads back as itself.
pub proof fn lemma_dec(n: nat)
    ensures
        dec(n).len() > 0,
        all_digits(dec(n)),
        digits_value(dec(n)) == n,
    decreases n,
{
    if n < 10 {
        lemma_digit(n);
        assert(dec(n).drop_last() =~= Seq::<char>::empty());
        assert(digits_value(Seq::<char>::empty()) == 0);
        assert(dec(n).last() == digit(n));
        assert(digits_value(dec(n)) == digits_value(dec(n).drop_last()) * 10 + ((dec(n).last() as u32) - 48) as nat);
    } else {
        lemma_dec(n / 10);
        lemma_digit(n % 10);
        let s = dec(n);
        assert(s.drop_last() =~= dec(n / 10));
        assert(s.last() == digit(n % 10));
        assert((n / 10) * 10 + n % 10 == n) by (nonlinear_arith);
        assert(digits_value(s) == digits_value(s.drop_last()) * 10 + ((s.last() as u32) - 48) as nat);
        assert(all_digits(s)) by {
            assert forall|i: int| 0 <= i < s.len() implies is_digit(#[trigger] s[i]) by {
                if i < s.len() - 1 {
                    assert(s[i] == dec(n / 10)[i]);
                }
            }
        }
    }
}

pub proof fn lemma_parse_dec(n: u64)
    ensures
        parse_u64(dec(n as nat)) == Some(n),
        no_char(dec(n as nat), '\t'),
{
    lemma_dec(n as nat);
    let s = dec(n as nat);
    assert(is_digit(s[0]));
    assert(number_body(s) == s);
    assert forall|i: int| 0 <= i < s.len() implies #[trigger] s[i] != '\t' by {
        assert(is_digit(s[i]));
    }
}

proof fn lemma_no_tab_escape(s: Seq<char>)
    ensures
        no_char(spec_escape(s), '\t'),
        spec_unescape(spec_escape(s)) == s,
{
    lemma_escape_round_trip(s);
}

proof fn lemma_escape_nonempty(s: Seq<char>)
    requires
        s.len() > 0,
    ensures
        spec_escape(s).len() > 0,
{
    assert(crate::text::escape_char(s[0]).len() > 0);
}

proof fn lemma_words_no_tab(g: Goal, m: Mode, r: Grade)
    ensures
        no_char(goal_name(g), '\t'),
        no_char(mode_name(m), '\t'),
        no_char(grade_name(r), '\t'),
        no_char("skip"@, '\t'),
        no_char("undo"@, '\t'),
        no_char("rename"@, '\t'),
        no_char("override"@, '\t'),
        goal_name(g) != "rename"@,
        grade_name(r) != "undo"@,
        grade_name(r) != "skip"@,
        "skip"@ != "undo"@,
{
    reveal_strlit("forward");
    reveal_strlit("reverse");
    reveal_strlit("recall");
    reveal_strlit("typed");
    reveal_strlit("again");
    reveal_strlit("hard");
    reveal_strlit("good");
    reveal_strlit("easy");
    reveal_strlit("rename");
    reveal_strlit("skip");
    reveal_strlit("undo");
    reveal_strlit("override");
    lemma_names_round_trip(g, m, r);
    assert("skip"@[0] != "undo"@[0]);
    assert(goal_from_name(goal_name(g)) is Some);
    assert(grade_from_name(grade_name(r)) is Some);
}

proof fn lemma_join_no_char(parts: Seq<Seq<char>>, sep: char, c: char)
    requires
        sep != c,
        forall|i: int| 0 <= i < parts.len() ==> no_char(#[trigger] parts[i], c),
    ensures
        no_char(join_cols(parts, sep), c),
    decreases parts.len(),
{
    if parts.len() == 1 {
        assert(no_char(parts[0], c));
    } else if parts.len() > 1 {
        let rest = parts.drop_first();
        assert forall|i: int| 0 <= i < rest.len() implies no_char(#[trigger] rest[i], c) by {
            assert(rest[i] == parts[i + 1]);
        }
        lemma_join_no_char(rest, sep, c);
        let p0 = parts[0];
        assert(no_char(p0, c));
        let s = join_cols(parts, sep);
        let tail = join_cols(rest, sep);
        assert(s == p0 + seq![sep] + tail);
        assert forall|i: int| 0 <= i < s.len() implies #[trigger] s[i] != c by {
            if i < p0.len() {
                assert(s[i] == p0[i]);
            } else if i == p0.len() {
                assert(s[i] == sep);
            } else {
                assert(s[i] == tail[i - p0.len() - 1]);
            }
        }
    }
}

proof fn lemma_words_no_line_end(g: Goal, m: Mode, r: Grade, c: char)
    requires
        c == '\n' || c == '\r',
    ensures
        no_char(goal_name(g), c),
        no_char(mode_name(m), c),
        no_char(grade_name(r), c),
        no_char("skip"@, c),
        no_char("undo"@, c),
        no_char("rename"@, c),
        no_char("override"@, c),
        goal_name(g).len() > 0 && !is_ws(goal_name(g)[0]),
        "rename"@.len() > 0 && !is_ws("rename"@[0]),
{
    reveal_strlit("forward");
    reveal_strlit("reverse");
    reveal_strlit("recall");
    reveal_strlit("typed");
    reveal_strlit("again");
    reveal_strlit("hard");
    reveal_strlit("good");
    reveal_strlit("easy");
    reveal_strlit("rename");
    reveal_strlit("skip");
    reveal_strlit("undo");
    reveal_strlit("override");
}

/// The columns of a row hold no line ending.
proof fn lemma_cols_no_line_end(r: RowV, c: char)
    requires
        c == '\n' || c == '\r',
        forall|i: int| 0 <= i < spec_format_ts(r.ts).len() ==> ts_char(#[trigger] spec_format_ts(r.ts)[i]),
    ensures
        forall|i: int| 0 <= i < row_cols(r).len() ==> no_char(#[trigger] row_cols(r)[i], c),
{
    let cols = row_cols(r);
    let ts = spec_format_ts(r.ts);
    assert(no_char(ts, c)) by {
        assert forall|i: int| 0 <= i < ts.len() implies #[trigger] ts[i] != c by {
            assert(ts_char(ts[i]));
        }
    }
    lemma_escape_round_trip(r.front);
    assert(no_char(spec_escape(r.front), c));
    let (g, m, gr) = match r.kind {
        RowKindV::Review { goal, mode, grade, .. } => (goal, mode, grade),
        RowKindV::Skip { goal, mode, .. } => (goal, mode, Grade::Good),
        RowKindV::Undo { goal, mode } => (goal, mode, Grade::Good),
        RowKindV::Rename { .. } => (Goal::Forward, Mode::Recall, Grade::Good),
    };
    lemma_words_no_line_end(g, m, gr, c);
    match r.kind {
        RowKindV::Review { elapsed_ms, answer, .. } => {
            lemma_dec(elapsed_ms as nat);
            let d = dec(elapsed_ms as nat);
            assert(no_char(d, c)) by {
                assert forall|i: int| 0 <= i < d.len() implies #[trigger] d[i] != c by {
                    assert(is_digit(d[i]));
                }
            }
            let a = match answer {
                Some(a) => a,
                None => Seq::empty(),
            };
            lemma_escape_round_trip(a);
            assert(no_char(spec_escape(a), c));
        },
        RowKindV::Skip { elapsed_ms, .. } => {
            lemma_dec(elapsed_ms as nat);
            let d = dec(elapsed_ms as nat);
            assert(no_char(d, c)) by {
                assert forall|i: int| 0 <= i < d.len() implies #[trigger] d[i] != c by {
                    assert(is_digit(d[i]));
                }
            }
        },
        RowKindV::Undo { .. } => {},
        RowKindV::Rename { to } => {
            lemma_escape_round_trip(to);
            assert(no_char(spec_escape(to), c));
        },
    }
}

/// A log line holds no line ending, and more than whitespace.
pub proof fn lemma_line_shape(r: RowV)
    requires
        forall|i: int| 0 <= i < spec_format_ts(r.ts).len() ==> ts_char(#[trigger] spec_format_ts(r.ts)[i]),
    ensures
        no_char(spec_to_line(r), '\n'),
        no_char(spec_to_line(r), '\r'),
        trim(spec_to_line(r)).len() > 0,
{
    let cols = row_cols(r);
    lemma_cols_no_line_end(r, '\n');
    lemma_cols_no_line_end(r, '\r');
    lemma_join_no_char(cols, tab(), '\n');
    lemma_join_no_char(cols, tab(), '\r');
    let line = spec_to_line(r);
    let p0 = cols[0];
    let p1 = cols[1];
    let p2 = cols[2];
    let rest1 = cols.drop_first();
    let rest2 = rest1.drop_first();
    assert(rest1[0] == p1 && rest2[0] == p2);
    assert(cols.len() >= 4);
    assert(line == p0 + seq![tab()] + join_cols(rest1, tab()));
    assert(join_cols(rest1, tab()) == p1 + seq![tab()] + join_cols(rest2, tab()));
    assert(join_cols(rest2, tab()) == p2 + seq![tab()] + join_cols(rest2.drop_first(), tab()));
    lemma_words_no_line_end(Goal::Forward, Mode::Recall, Grade::Good, '\n');
    match r.kind {
        RowKindV::Review { goal, mode, grade, .. } => lemma_words_no_line_end(goal, mode, grade, '\n'),
        RowKindV::Skip { goal, mode, .. } => lemma_words_no_line_end(goal, mode, Grade::Good, '\n'),
        RowKindV::Undo { goal, mode } => lemma_words_no_line_end(goal, mode, Grade::Good, '\n'),
        RowKindV::Rename { .. } => {},
    }
    assert(p2.len() > 0 && !is_ws(p2[0]));
    let k: int = p0.len() as int + 1 + p1.len() as int + 1;
    assert(line[k] == p2[0]);
    lemma_trim_nonempty(line, k);
}

/// Rows that a log line can carry without loss: a whole-second timestamp in
/// range, a non-empty front, a non-empty rename target, and no empty typed
/// answer (an empty answer column reads back as no answer).
pub open spec fn row_is_lossless(r: RowV) -> bool {
    &&& ts_in_range(r.ts)
    &&& r.ts % NANOS_PER_SECOND == 0
    &&& row_fields_lossless(r)
}

/// A row whose line reads back as itself: its fields carry without loss,
/// and its timestamp, printed, reads back as itself.
pub open spec fn row_reads_back(r: RowV) -> bool {
    row_fields_lossless(r) && spec_parse_ts(spec_format_ts(r.ts)) == Some(r.ts)
}

/// The fields other than the timestamp that a log line carries without
/// loss: a non-empty front, a non-empty rename target, and no empty typed
/// answer.
pub open spec fn row_fields_lossless(r: RowV) -> bool {
    &&& r.front.len() > 0
    &&& match r.kind {
        RowKindV::Rename { to } => to.len() > 0,
        RowKindV::Review { answer, .. } => answer != Some(Seq::<char>::empty()),
        _ => true,
    }
}

proof fn lemma_review_round_trip(r: RowV)
    requires
        row_fields_lossless(r),
        r.kind is Review,
        no_char(spec_format_ts(r.ts), '\t'),
        spec_parse_ts(spec_format_ts(r.ts)) == Some(r.ts),
    ensures
        spec_parse_row(spec_to_line(r)) =~~= Ok::<RowV, Seq<char>>(r),
{
    let cols = row_cols(r);
    lemma_no_tab_escape(r.front);
    match r.kind {
        RowKindV::Review { goal, mode, grade, elapsed_ms, answer, overridden } => {
            lemma_words_no_tab(goal, mode, grade);
            lemma_parse_dec(elapsed_ms);
            lemma_names_round_trip(goal, mode, grade);
            let a = match answer {
                Some(a) => a,
                None => Seq::empty(),
            };
            lemma_no_tab_escape(a);
            if answer is Some {
                lemma_escape_nonempty(a);
            }
            assert forall|i: int| 0 <= i < cols.len() implies no_char(#[trigger] cols[i], '\t') by {}
            lemma_split_join(cols, '\t');
            assert(split_on(spec_to_line(r), seq![tab()]) == cols);
            assert(cols[2] != "rename"@);
            assert(goal_from_name(cols[2]) == Some(goal));
            assert(mode_from_name(cols[3]) == Some(mode));
            assert(cols[4] != "undo"@ && cols[4] != "skip"@);
            assert(grade_from_name(cols[4]) == Some(grade));
            assert(col(cols, 5) == Some(dec(elapsed_ms as nat)));
            assert(elapsed_of(col(cols, 5)) == Ok::<u64, Seq<char>>(elapsed_ms));
            reveal_strlit("override");
            if overridden {
                assert(cols.len() > 7 && cols[7] == "override"@);
            } else {
                assert(cols.len() <= 7);
            }
            let parsed_answer = if cols.len() > 6 && cols[6].len() > 0 {
                Some(spec_unescape(cols[6]))
            } else {
                None
            };
            match answer {
                Some(x) => {
                    assert(cols.len() > 6 && cols[6] == spec_escape(x));
                    assert(parsed_answer == Some(x));
                },
                None => {
                    if overridden {
                        assert(cols[6] == spec_escape(Seq::<char>::empty()));
                        assert(spec_escape(Seq::<char>::empty()) =~= Seq::<char>::empty());
                    } else {
                        assert(cols.len() == 6);
                    }
                    assert(parsed_answer is None);
                },
            }
            assert(spec_parse_row(spec_to_line(r)) == Ok::<RowV, Seq<char>>(RowV {
                ts: r.ts,
                front: r.front,
                kind: RowKindV::Review { goal, mode, grade, elapsed_ms, answer: parsed_answer, overridden },
            }));
            assert(parsed_answer == answer);
            assert(r == RowV {
                ts: r.ts,
                front: r.front,
                kind: RowKindV::Review { goal, mode, grade, elapsed_ms, answer, overridden },
            });
            assert(spec_parse_row(spec_to_line(r)) =~~= Ok::<RowV, Seq<char>>(r));
                },
        _ => {},
    }
}

/// Reading back a line built from a lossless row gives the row, given what
/// `format_ts` guarantees of the timestamp column.
proof fn lemma_row_round_trip(r: RowV)
    requires
        row_fields_lossless(r),
        forall|i: int| 0 <= i < spec_format_ts(r.ts).len() ==> ts_char(#[trigger] spec_format_ts(r.ts)[i]),
        spec_parse_ts(spec_format_ts(r.ts)) == Some(r.ts),
    ensures
        spec_parse_row(spec_to_line(r)) =~~= Ok::<RowV, Seq<char>>(r),
{
    let cols = row_cols(r);
    let ts = spec_format_ts(r.ts);
    assert(no_char(ts, '\t')) by {
        assert forall|i: int| 0 <= i < ts.len() implies #[trigger] ts[i] != '\t' by {
            assert(ts_char(ts[i]));
        }
    }
    lemma_no_tab_escape(r.front);
    match r.kind {
        RowKindV::Review { .. } => {
            lemma_review_round_trip(r);
            assert(spec_parse_row(spec_to_line(r)) == Ok::<RowV, Seq<char>>(r));
        },
        RowKindV::Skip { goal, mode, elapsed_ms } => {
            lemma_words_no_tab(goal, mode, Grade::Good);
            lemma_parse_dec(elapsed_ms);
            lemma_names_round_trip(goal, mode, Grade::Good);
            assert forall|i: int| 0 <= i < cols.len() implies no_char(#[trigger] cols[i], '\t') by {}
            lemma_split_join(cols, '\t');
        },
        RowKindV::Undo { goal, mode } => {
            lemma_words_no_tab(goal, mode, Grade::Good);
            lemma_names_round_trip(goal, mode, Grade::Good);
            assert forall|i: int| 0 <= i < cols.len() implies no_char(#[trigger] cols[i], '\t') by {}
            lemma_split_join(cols, '\t');
            assert(split_on(spec_to_line(r), seq![tab()]) == cols);
            assert(cols.len() == 5);
            assert(cols[2] != "rename"@);
            assert(goal_from_name(cols[2]) == Some(goal));
            assert(mode_from_name(cols[3]) == Some(mode));
            assert(cols[4] == "undo"@);
            assert(spec_parse_row(spec_to_line(r)) == Ok::<RowV, Seq<char>>(
                RowV { ts: r.ts, front: r.front, kind: RowKindV::Undo { goal, mode } },
            ));
        },
        RowKindV::Rename { to } => {
            lemma_words_no_tab(Goal::Forward, Mode::Recall, Grade::Good);
            lemma_no_tab_escape(to);
            assert forall|i: int| 0 <= i < cols.len() implies no_char(#[trigger] cols[i], '\t') by {}
            lemma_split_join(cols, '\t');
        },
    }
}

} // verus!

verus! {

/// How a malformed log line is reported.
pub open spec fn skipped_message(m: Seq<char>) -> Seq<char> {
    m + "; line skipped"@
}

/// The rows of a log's lines and a warning for each malformed line; blank
/// lines are ignored.
pub open spec fn parse_log_lines(ls: Seq<Seq<char>>, file: Seq<char>) -> (Seq<RowV>, Seq<WarningV>)
    decreases ls.len(),
{
    if ls.len() == 0 {
        (Seq::empty(), Seq::empty())
    } else {
        let (rows, warnings) = parse_log_lines(ls.drop_last(), file);
        let l = ls.last();
        if crate::strs::trim(l).len() == 0 {
            (rows, warnings)
        } else {
            match spec_parse_row(l) {
                Ok(r) => (rows.push(r), warnings),
                Err(m) => (
                    rows,
                    warnings.push(WarningV { file, line: ls.len(), message: skipped_message(m) }),
                ),
            }
        }
    }
}

/// What a log file's text reads as.
pub open spec fn spec_parse_log(text: Seq<char>, file: Seq<char>) -> (Seq<RowV>, Seq<WarningV>) {
    parse_log_lines(lines(text), file)
}

/// A log's text after a row is appended: a line ending first when the log
/// lacks one, then the row's line and its ending.
pub open spec fn spec_appended(current: Seq<char>, r: RowV) -> Seq<char> {
    (if current.len() > 0 && current.last() != '\n' {
        seq!['\n']
    } else {
        Seq::empty()
    }) + spec_to_line(r) + seq!['\n']
}

/// What to append to a log whose text is `current` so that `row` becomes
/// its last line. A row a line carries without loss then reads back as the
/// last row of the log, and nothing else changes, unless the log ends in a
/// bare carriage return.
pub fn appended(current: &str, row: &Row) -> (r: String)
    requires
        ts_representable(row.ts),
    ensures
        r@ == spec_appended(current@, row@),
        (row_is_lossless(row@) || row_reads_back(row@)) && !(current@.len() > 0 && current@.last() == '\r')
            ==> forall|file: Seq<char>|
            #[trigger] spec_parse_log(current@ + r@, file) == (
                spec_parse_log(current@, file).0.push(row@),
                spec_parse_log(current@, file).1,
            ),
{
    let v = chars_of(current);
    let needs = v.len() > 0 && v[v.len() - 1] != '\n';
    let mut s = String::new();
    if needs {
        push_str(&mut s, "\n");
    }
    let line = row.to_line();
    push_str(&mut s, line.as_str());
    push_str(&mut s, "\n");
    proof {
        reveal_strlit("\n");
        let c = current@;
        let l = line@;
        assert(s@ =~= spec_appended(c, row@));
        if (row_is_lossless(row@) || row_reads_back(row@)) && !(c.len() > 0 && c.last() == '\r') {
            assert(spec_parse_row(l) == Ok::<RowV, Seq<char>>(row@));
            assert forall|j: int| 0 <= j < l.len() implies l[j] != '\n' by {
                assert(no_char(l, '\n'));
            }
            lemma_lines_one(l);
            assert(strip_cr(l) == l) by {
                if l.len() > 0 {
                    assert(no_char(l, '\r'));
                    assert(l[l.len() - 1] != '\r');
                }
            }
            let tail = l.push('\n');
            assert(lines(tail) == seq![l]);
            let text = c + s@;
            if c.len() == 0 {
                assert(text =~= tail);
                assert(lines(c) =~= Seq::<Seq<char>>::empty());
            } else if c.last() == '\n' {
                assert(text =~= c + tail);
                lemma_lines_append(c, tail);
            } else {
                let closed = c.push('\n');
                assert(text =~= closed + tail);
                lemma_lines_append(closed, tail);
                lemma_lines_close(c);
            }
            assert(lines(text) == lines(c) + seq![l]);
            assert forall|file: Seq<char>|
                #[trigger] spec_parse_log(c + s@, file) == (
                    spec_parse_log(c, file).0.push(row@),
                    spec_parse_log(c, file).1,
                ) by {
                let ls = lines(text);
                assert(ls.drop_last() =~= lines(c));
                assert(ls.last() == l);
            }
        }
    }
    s
}

/// Reads a log's text. Malformed lines become warnings and are skipped;
/// they are never fatal. `file` is how the log is named in messages.
pub fn parse_log(text: &str, file: &str) -> (r: (Vec<Row>, Vec<Warning>))
    requires
        text@.len() < usize::MAX,
    ensures
        r.0@.map_values(|x: Row| x@) == spec_parse_log(text@, file@).0,
        r.1@.map_values(|w: Warning| w@) == spec_parse_log(text@, file@).1,
{
    let v = chars_of(text);
    let ls = split_lines(v.as_slice());
    let ghost lv = ls@.map_values(|w: Vec<char>| w@);
    proof {
        lemma_lines_bound(v@);
    }
    let mut rows: Vec<Row> = Vec::new();
    let mut warnings: Vec<Warning> = Vec::new();
    let mut i: usize = 0;
    assert(lv.take(0) =~= Seq::<Seq<char>>::empty());
    assert(rows@.map_values(|x: Row| x@) =~= Seq::<RowV>::empty());
    assert(warnings@.map_values(|w: Warning| w@) =~= Seq::<WarningV>::empty());
    while i < ls.len()
        invariant
            i <= ls@.len(),
            ls@.len() < usize::MAX,
            lv == ls@.map_values(|w: Vec<char>| w@),
            rows@.map_values(|x: Row| x@) == parse_log_lines(lv.take(i as int), file@).0,
            warnings@.map_values(|w: Warning| w@) == parse_log_lines(lv.take(i as int), file@).1,
        decreases ls@.len() - i,
    {
        proof {
            assert(lv.take(i + 1).drop_last() =~= lv.take(i as int));
            assert(lv.take(i + 1).last() == lv[i as int]);
            assert(lv[i as int] == ls@[i as int]@);
        }
        let t = crate::strs::trim_chars(ls[i].as_slice());
        if t.len() > 0 {
            let line = string_of(ls[i].as_slice());
            match Row::parse(line.as_str()) {
                Ok(row) => {
                    let ghost before = rows@.map_values(|x: Row| x@);
                    rows.push(row);
                    assert(rows@.map_values(|x: Row| x@) =~= before.push(row@));
                },
                Err(m) => {
                    let mut msg = m;
                    push_str(&mut msg, "; line skipped");
                    let w = Warning { file: owned(file), line: i + 1, message: msg };
                    let ghost before = warnings@.map_values(|w: Warning| w@);
                    warnings.push(w);
                    assert(warnings@.map_values(|w: Warning| w@) =~= before.push(w@));
                },
            }
        }
        i = i + 1;
    }
    assert(lv.take(i as int) =~= lv);
    (rows, warnings)
}

} // verus!
