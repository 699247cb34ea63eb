//! What `reword review` decides around a session: the mode, the new-card
//! policy, the session's label, and what to say when nothing is due or when
//! the session is over.

use vstd::prelude::*;

use crate::clock::{in_days_label, spec_in_days_label};
use crate::planner::{nd_view, NewPolicy, Plan};
use crate::strs::{dec, owned, push_dec, push_str};
use crate::term::{painted, Key, Style};
use crate::text::{cards_come_due, join, join_strings, plural, spec_cards_come_due, spec_plural, strings_view};
use crate::types::Mode;

verus! {

/// `reword review` as the command line gave it.
pub struct ReviewArgs {
    /// Decks to review (default: all).
    pub decks: Vec<String>,
    pub typed: bool,
    pub recall: bool,
    /// Time budget in minutes.
    pub minutes: Option<u32>,
    /// Stop after this many cards.
    pub cards: Option<usize>,
    /// Only cards under this Markdown heading.
    pub under: Option<String>,
    /// New cards to introduce this session, ignoring the daily cap.
    pub new: Option<usize>,
    pub no_new: bool,
    pub endless: bool,
}

/// The session's mode: `--typed`, then `--recall`, then the configured
/// mode; `None` means ask.
pub fn choose_mode(typed: bool, recall: bool, configured: Option<Mode>) -> (r: Option<Mode>)
    ensures
        r == (if typed {
            Some(Mode::Typed)
        } else if recall {
            Some(Mode::Recall)
        } else {
            configured
        }),
{
    if typed {
        Some(Mode::Typed)
    } else if recall {
        Some(Mode::Recall)
    } else {
        configured
    }
}

/// What a key pressed at the mode question means.
#[derive(Clone, Copy, Debug, PartialEq, Eq, Structural)]
pub enum ModeKey {
    Pick(Mode),
    Cancel,
    Ignore,
}

/// Enter picks recall; `t` typed; `q`, Esc, Ctrl-C or Ctrl-D give up.
pub fn mode_key(k: Key) -> (r: ModeKey)
    ensures
        r == (if k == Key::Char('r') || k == Key::Char('R') || k == Key::Enter || k == Key::Space {
            ModeKey::Pick(Mode::Recall)
        } else if k == Key::Char('t') || k == Key::Char('T') {
            ModeKey::Pick(Mode::Typed)
        } else if k == Key::Char('q') || k == Key::Esc || k == Key::CtrlC || k == Key::CtrlD {
            ModeKey::Cancel
        } else {
            ModeKey::Ignore
        }),
{
    if k == Key::Char('r') || k == Key::Char('R') || k == Key::Enter || k == Key::Space {
        ModeKey::Pick(Mode::Recall)
    } else if k == Key::Char('t') || k == Key::Char('T') {
        ModeKey::Pick(Mode::Typed)
    } else if k == Key::Char('q') || k == Key::Esc || k == Key::CtrlC || k == Key::CtrlD {
        ModeKey::Cancel
    } else {
        ModeKey::Ignore
    }
}

/// `--no-new` is none, `--new N` exactly N, `--endless` every new card
/// with no daily cap, otherwise the daily cap.
pub fn choose_policy(no_new: bool, new: Option<usize>, endless: bool) -> (r: NewPolicy)
    ensures
        no_new ==> r == NewPolicy::Explicit(0),
        !no_new && new is Some ==> r == NewPolicy::Explicit(new->0),
        !no_new && new is None && endless ==> r == NewPolicy::Explicit(usize::MAX),
        !no_new && new is None && !endless ==> r == NewPolicy::Daily,
{
    if no_new {
        NewPolicy::Explicit(0)
    } else {
        match new {
            Some(n) => NewPolicy::Explicit(n),
            None => if endless {
                NewPolicy::Explicit(usize::MAX)
            } else {
                NewPolicy::Daily
            },
        }
    }
}

/// The session's time budget in minutes, `None` for no limit: `--endless`
/// has none, and neither has `-n` without `-m`; otherwise `-m` (at least
/// one minute) or the configured length.
pub fn session_minutes(endless: bool, cards: Option<usize>, minutes: Option<u32>, configured: u32) -> (r: Option<u32>)
    ensures
        r == (if endless || (cards is Some && minutes is None) {
            None
        } else {
            match minutes {
                Some(m) => Some(if m < 1 {
                    1u32
                } else {
                    m
                }),
                None => Some(configured),
            }
        }),
{
    if endless || (cards.is_some() && minutes.is_none()) {
        None
    } else {
        match minutes {
            Some(m) => Some(if m < 1 {
                1
            } else {
                m
            }),
            None => Some(configured),
        }
    }
}

/// How a session names what it reviews.
pub open spec fn spec_session_label(decks_given: bool, names: Seq<Seq<char>>, under: Option<Seq<char>>) -> Seq<
    char,
> {
    let base = if !decks_given && names.len() > 1 {
        "all decks ("@ + dec(names.len()) + ")"@
    } else {
        join(names, ", "@)
    };
    match under {
        Some(u) => base + " · "@ + u,
        None => base,
    }
}

pub fn session_label(decks_given: bool, names: &Vec<String>, under: Option<&str>) -> (r: String)
    ensures
        r@ == spec_session_label(decks_given, strings_view(names@), match under {
            Some(u) => Some(u@),
            None => None,
        }),
{
    let mut s = if !decks_given && names.len() > 1 {
        let mut s = owned("all decks (");
        push_dec(&mut s, names.len() as u64);
        push_str(&mut s, ")");
        s
    } else {
        join_strings(names, ", ")
    };
    match under {
        Some(u) => {
            push_str(&mut s, " · ");
            push_str(&mut s, u);
        },
        None => {},
    }
    s
}

/// "1 new card is" / "3 new cards are".
pub open spec fn spec_new_cards_are(n: nat) -> Seq<char> {
    if n == 1 {
        "1 new card is"@
    } else {
        dec(n) + " new cards are"@
    }
}

fn new_cards_are(n: usize) -> (r: String)
    ensures
        r@ == spec_new_cards_are(n as nat),
{
    if n == 1 {
        owned("1 new card is")
    } else {
        let mut s = String::new();
        push_dec(&mut s, n as u64);
        push_str(&mut s, " new cards are");
        s
    }
}

/// Days from `today` to `day`, as day numbers.
pub open spec fn days_from(today: i32, day: i32) -> i32 {
    if day - today > i32::MAX {
        i32::MAX
    } else if day - today < i32::MIN {
        i32::MIN
    } else {
        (day - today) as i32
    }
}

fn days_from_exec(today: i32, day: i32) -> (r: i32)
    ensures
        r == days_from(today, day),
{
    let d: i64 = day as i64 - today as i64;
    if d > i32::MAX as i64 {
        i32::MAX
    } else if d < i32::MIN as i64 {
        i32::MIN
    } else {
        d as i32
    }
}

/// What `review` says when a plan has nothing to do. `today` is the study
/// day as a day number, like the plan's due days.
pub open spec fn spec_nothing_due(
    on: bool,
    label: Seq<char>,
    first_deck: Seq<char>,
    total_goals: nat,
    next_due: Option<(i32, nat)>,
    throttled: bool,
    new_waiting: nat,
    learned: nat,
    today: i32,
) -> Seq<char> {
    if total_goals == 0 {
        label + " has no cards. Add some: "@ + painted(on, "1"@, "reword add "@ + first_deck) + " or edit "@
            + "decks/"@ + first_deck + ".md"@ + "."@
    } else {
        let m1 = "Nothing due in "@ + label + "."@;
        let m2 = match next_due {
            Some((day, n)) => m1 + " "@ + spec_cards_come_due(n) + " "@ + spec_in_days_label(
                days_from(today, day),
            ) + "."@,
            None => m1,
        };
        let m3 = if throttled {
            m2 + " New cards are paused while the backlog is large."@
        } else if new_waiting > 0 {
            m2 + " "@ + spec_new_cards_are(new_waiting) + " waiting; "@ + painted(on, "1"@, "--new 5"@)
                + " to learn ahead."@
        } else {
            m2
        };
        if learned > 0 {
            m3 + " "@ + painted(on, "1"@, "--endless"@) + " keeps going anyway."@
        } else {
            m3
        }
    }
}

pub fn nothing_due(style: Style, label: &str, first_deck: &str, plan: &Plan, today: i32) -> (r: String)
    ensures
        r@ == spec_nothing_due(
            style.on,
            label@,
            first_deck@,
            plan.total_goals as nat,
            nd_view(plan.next_due),
            plan.throttled,
            (if plan.new@.len() >= plan.new_limit {
                plan.new@.len() - plan.new_limit
            } else {
                0
            }) as nat,
            plan.learned as nat,
            today,
        ),
{
    if plan.total_goals == 0 {
        let mut s = owned(label);
        push_str(&mut s, " has no cards. Add some: ");
        let mut cmd = owned("reword add ");
        push_str(&mut cmd, first_deck);
        let b = style.bold(cmd.as_str());
        push_str(&mut s, b.as_str());
        push_str(&mut s, " or edit ");
        push_str(&mut s, "decks/");
        push_str(&mut s, first_deck);
        push_str(&mut s, ".md");
        push_str(&mut s, ".");
        return s;
    }
    let mut s = owned("Nothing due in ");
    push_str(&mut s, label);
    push_str(&mut s, ".");
    match plan.next_due {
        Some((day, n)) => {
            push_str(&mut s, " ");
            let c = cards_come_due(n);
            push_str(&mut s, c.as_str());
            push_str(&mut s, " ");
            let d = in_days_label(days_from_exec(today, day));
            push_str(&mut s, d.as_str());
            push_str(&mut s, ".");
        },
        None => {},
    }
    let waiting = plan.new_waiting();
    if plan.throttled {
        push_str(&mut s, " New cards are paused while the backlog is large.");
    } else if waiting > 0 {
        push_str(&mut s, " ");
        let w = new_cards_are(waiting);
        push_str(&mut s, w.as_str());
        push_str(&mut s, " waiting; ");
        let b = style.bold("--new 5");
        push_str(&mut s, b.as_str());
        push_str(&mut s, " to learn ahead.");
    }
    if plan.learned > 0 {
        push_str(&mut s, " ");
        let b = style.bold("--endless");
        push_str(&mut s, b.as_str());
        push_str(&mut s, " keeps going anyway.");
    }
    s
}

/// What `review` says after a session that was not endless. `deck_arg` is
/// what follows `reword review` to name the same decks (empty for all).
pub open spec fn spec_after_session(
    on: bool,
    remaining: nat,
    new_waiting: nat,
    next_due: Option<(i32, nat)>,
    today: i32,
    deck_arg: Seq<char>,
) -> Seq<char> {
    if remaining > 0 {
        spec_plural(remaining, "card"@) + " remain. Next: "@ + painted(on, "1"@, "reword review"@ + deck_arg)
    } else if new_waiting > 0 {
        "All caught up. "@ + spec_new_cards_are(new_waiting) + " waiting: "@ + painted(
            on,
            "1"@,
            "reword review"@ + deck_arg + " --new 5"@,
        )
    } else {
        match next_due {
            Some((day, n)) => "All caught up. "@ + spec_cards_come_due(n) + " "@ + spec_in_days_label(
                days_from(today, day),
            ) + ". "@ + painted(on, "1"@, "reword review"@ + deck_arg + " --endless"@) + " keeps going."@,
            None => "All caught up."@,
        }
    }
}

pub fn after_session(
    style: Style,
    remaining: usize,
    new_waiting: usize,
    next_due: Option<(i32, usize)>,
    today: i32,
    deck_arg: &str,
) -> (r: String)
    ensures
        r@ == spec_after_session(
            style.on,
            remaining as nat,
            new_waiting as nat,
            nd_view(next_due),
            today,
            deck_arg@,
        ),
{
    if remaining > 0 {
        let mut s = plural(remaining, "card");
        push_str(&mut s, " remain. Next: ");
        let mut cmd = owned("reword review");
        push_str(&mut cmd, deck_arg);
        let b = style.bold(cmd.as_str());
        push_str(&mut s, b.as_str());
        return s;
    }
    if new_waiting > 0 {
        let mut s = owned("All caught up. ");
        let w = new_cards_are(new_waiting);
        push_str(&mut s, w.as_str());
        push_str(&mut s, " waiting: ");
        let mut cmd = owned("reword review");
        push_str(&mut cmd, deck_arg);
        push_str(&mut cmd, " --new 5");
        let b = style.bold(cmd.as_str());
        push_str(&mut s, b.as_str());
        return s;
    }
    match next_due {
        Some((day, n)) => {
            let mut s = owned("All caught up. ");
            let c = cards_come_due(n);
            push_str(&mut s, c.as_str());
            push_str(&mut s, " ");
            let d = in_days_label(days_from_exec(today, day));
            push_str(&mut s, d.as_str());
            push_str(&mut s, ". ");
            let mut cmd = owned("reword review");
            push_str(&mut cmd, deck_arg);
            push_str(&mut cmd, " --endless");
            let b = style.bold(cmd.as_str());
            push_str(&mut s, b.as_str());
            push_str(&mut s, " keeps going.");
            s
        },
        None => owned("All caught up."),
    }
}

} // verus!
