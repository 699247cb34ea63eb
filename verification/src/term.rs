//! Terminal vocabulary: styles, keys, and what typed answers to a prompt
//! mean. Detecting the terminal and reading from it is the caller's.

use vstd::prelude::*;

use crate::strs::{chars_of, owned, push_str, str_eq, string_of, trim, trim_chars};
use crate::text::{lowercase, spec_lowercase};

verus! {

#[derive(Clone, Copy, Debug)]
pub struct Style {
    pub on: bool,
}

/// `s` wrapped in the ANSI escape for `code` when styling is on.
pub open spec fn painted(on: bool, code: Seq<char>, s: Seq<char>) -> Seq<char> {
    if on {
        "\x1b["@ + code + "m"@ + s + "\x1b[0m"@
    } else {
        s
    }
}

impl Style {
    pub fn paint(self, code: &str, s: &str) -> (r: String)
        ensures
            r@ == painted(self.on, code@, s@),
    {
        if self.on {
            let mut out = owned("\x1b[");
            push_str(&mut out, code);
            push_str(&mut out, "m");
            push_str(&mut out, s);
            push_str(&mut out, "\x1b[0m");
            out
        } else {
            owned(s)
        }
    }

    pub fn dim(self, s: &str) -> (r: String)
        ensures
            r@ == painted(self.on, "2"@, s@),
    {
        self.paint("2", s)
    }

    pub fn bold(self, s: &str) -> (r: String)
        ensures
            r@ == painted(self.on, "1"@, s@),
    {
        self.paint("1", s)
    }

    pub fn green(self, s: &str) -> (r: String)
        ensures
            r@ == painted(self.on, "32"@, s@),
    {
        self.paint("32", s)
    }

    pub fn red(self, s: &str) -> (r: String)
        ensures
            r@ == painted(self.on, "31"@, s@),
    {
        self.paint("31", s)
    }

    pub fn yellow(self, s: &str) -> (r: String)
        ensures
            r@ == painted(self.on, "33"@, s@),
    {
        self.paint("33", s)
    }
}

#[derive(Clone, Copy, Debug)]
pub struct Term {
    /// Style for stdout.
    pub out: Style,
    /// Style for stderr.
    pub err: Style,
    /// stdin and stdout are terminals and `--no-input` is not set.
    pub interactive: bool,
    pub quiet: bool,
}

/// Styling is allowed unless `--no-color`, a non-empty `NO_COLOR` or
/// `TERM=dumb` says otherwise; each stream is styled only on a terminal.
pub fn styles(
    no_color: bool,
    env_no_color: bool,
    dumb: bool,
    stdout_tty: bool,
    stderr_tty: bool,
    stdin_tty: bool,
    no_input: bool,
    quiet: bool,
) -> (t: Term)
    ensures
        t.out.on == (!no_color && !env_no_color && !dumb && stdout_tty),
        t.err.on == (!no_color && !env_no_color && !dumb && stderr_tty),
        t.interactive == (stdin_tty && stdout_tty && !no_input),
        t.quiet == quiet,
{
    let allow = !no_color && !env_no_color && !dumb;
    Term {
        out: Style { on: allow && stdout_tty },
        err: Style { on: allow && stderr_tty },
        interactive: stdin_tty && stdout_tty && !no_input,
        quiet,
    }
}

#[derive(Clone, Copy, Debug, PartialEq, Eq, Structural)]
pub enum Key {
    Space,
    Enter,
    Char(char),
    Left,
    Right,
    Up,
    Down,
    Backspace,
    Esc,
    CtrlC,
    CtrlD,
    Other,
}

/// Column where transient key hints start, when the terminal is wide enough.
pub const HINT_COL: usize = 38;

/// Where a key hint of `hint_width` cells starts on a terminal `width`
/// cells wide.
pub fn hint_column(hint_width: usize, width: usize) -> (r: usize)
    ensures
        r == (if HINT_COL + hint_width < width {
            HINT_COL
        } else {
            2
        }),
{
    if hint_width < width && HINT_COL < width - hint_width {
        HINT_COL
    } else {
        2
    }
}

/// The question of a yes/no prompt, with the default shown.
pub open spec fn spec_confirm_prompt(prompt: Seq<char>, default_yes: bool) -> Seq<char> {
    prompt + " "@ + if default_yes {
        "[Y/n] "@
    } else {
        "[y/N] "@
    }
}

pub fn confirm_prompt(prompt: &str, default_yes: bool) -> (r: String)
    ensures
        r@ == spec_confirm_prompt(prompt@, default_yes),
{
    let mut s = owned(prompt);
    push_str(&mut s, " ");
    if default_yes {
        push_str(&mut s, "[Y/n] ");
    } else {
        push_str(&mut s, "[y/N] ");
    }
    s
}

/// What a line typed at a yes/no prompt means: an answer, or `None` to ask
/// again. Empty means the default; case does not matter.
pub open spec fn spec_confirm_answer(line: Seq<char>, default_yes: bool) -> Option<bool> {
    let a = spec_lowercase(trim(line));
    if a.len() == 0 {
        Some(default_yes)
    } else if a == "y"@ || a == "yes"@ {
        Some(true)
    } else if a == "n"@ || a == "no"@ {
        Some(false)
    } else {
        None
    }
}

pub fn confirm_answer(line: &str, default_yes: bool) -> (r: Option<bool>)
    ensures
        r == spec_confirm_answer(line@, default_yes),
{
    let v = chars_of(line);
    let t = trim_chars(v.as_slice());
    let ts = string_of(t.as_slice());
    let a = lowercase(ts.as_str());
    if a.as_str().is_empty() {
        proof {
            assert(a@.len() == 0);
        }
        Some(default_yes)
    } else if str_eq(a.as_str(), "y") || str_eq(a.as_str(), "yes") {
        Some(true)
    } else if str_eq(a.as_str(), "n") || str_eq(a.as_str(), "no") {
        Some(false)
    } else {
        None
    }
}

/// What a line typed at a free-text prompt means: the trimmed answer, or
/// `None` to ask again when it is blank.
pub fn ask_answer(line: &str) -> (r: Option<String>)
    ensures
        trim(line@).len() == 0 ==> r is None,
        trim(line@).len() > 0 ==> (r matches Some(s) && s@ == trim(line@)),
{
    let v = chars_of(line);
    let t = trim_chars(v.as_slice());
    if t.len() == 0 {
        None
    } else {
        Some(string_of(t.as_slice()))
    }
}

} // verus!
