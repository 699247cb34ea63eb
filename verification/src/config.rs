//! The settings of `config.toml` that are whole numbers or words: their
//! defaults and what the file may say of them. Reading the file is the
//! caller's, and so is the retention target, a fraction.

use vstd::prelude::*;

use crate::error::Error;
use crate::strs::{owned, push_str};
use crate::types::{mode_from_name, Mode};

verus! {

/// Minutes per session unless `-m` is given.
pub const DEFAULT_SESSION_MINUTES: u32 = 10;

/// Cap on new cards introduced per day across all decks.
pub const DEFAULT_NEW_PER_DAY: u32 = 10;

/// The settings `config.toml` gives, as read; `None` where a key is absent.
pub struct FileSettings {
    pub session_minutes: Option<u32>,
    pub new_per_day: Option<u32>,
    pub mode: Option<String>,
}

/// The settings in force.
#[derive(Clone, Copy, Debug)]
pub struct Chosen {
    pub session_minutes: u32,
    pub new_per_day: u32,
    /// `None`: ask at the start of each session.
    pub mode: Option<Mode>,
}

/// What the file's settings come to: the first one it gets wrong, or the
/// settings with defaults where it is silent.
pub open spec fn spec_settle(minutes: Option<u32>, per_day: Option<u32>, mode: Option<Seq<char>>) -> Result<
    (u32, u32, Option<Mode>),
    Seq<char>,
> {
    if minutes == Some(0u32) {
        Err("config.toml: session_minutes must be at least 1"@)
    } else if mode matches Some(m) && mode_from_name(m) is None {
        Err("config.toml: mode = \""@ + mode->0 + "\" is not \"recall\" or \"typed\""@)
    } else {
        Ok(
            (
                match minutes {
                    Some(n) => n,
                    None => DEFAULT_SESSION_MINUTES,
                },
                match per_day {
                    Some(n) => n,
                    None => DEFAULT_NEW_PER_DAY,
                },
                match mode {
                    Some(m) => mode_from_name(m),
                    None => None,
                },
            ),
        )
    }
}

pub fn settle(file: &FileSettings) -> (r: Result<Chosen, Error>)
    ensures
        match spec_settle(
            file.session_minutes,
            file.new_per_day,
            match &file.mode {
                Some(m) => Some(m@),
                None => None,
            },
        ) {
            Ok((minutes, per_day, mode)) => r matches Ok(c) && c.session_minutes == minutes && c.new_per_day
                == per_day && c.mode == mode,
            Err(msg) => r matches Err(e) && e.message@ == msg && e.hint is None,
        },
{
    let session_minutes = match file.session_minutes {
        Some(0) => {
            return Err(Error::new(owned("config.toml: session_minutes must be at least 1")));
        },
        Some(n) => n,
        None => DEFAULT_SESSION_MINUTES,
    };
    let new_per_day = match file.new_per_day {
        Some(n) => n,
        None => DEFAULT_NEW_PER_DAY,
    };
    let mode = match &file.mode {
        Some(m) => match Mode::parse(m.as_str()) {
            Some(md) => Some(md),
            None => {
                let mut msg = owned("config.toml: mode = \"");
                push_str(&mut msg, m.as_str());
                push_str(&mut msg, "\" is not \"recall\" or \"typed\"");
                return Err(Error::new(msg));
            },
        },
        None => None,
    };
    Ok(Chosen { session_minutes, new_per_day, mode })
}

} // verus!
