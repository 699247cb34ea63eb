//! One error type: a message for the user plus an optional hint of what to do.

use vstd::prelude::*;

use crate::strs::{owned, push_str};

verus! {

#[derive(Debug)]
pub struct Error {
    pub message: String,
    pub hint: Option<String>,
}

/// How an error reads: the message, then the hint indented on a line of
/// its own.
pub open spec fn error_text(message: Seq<char>, hint: Option<Seq<char>>) -> Seq<char> {
    match hint {
        Some(h) => message + "\n  "@ + h,
        None => message,
    }
}

impl Error {
    pub fn new(message: String) -> (e: Error)
        ensures
            e.message@ == message@,
            e.hint is None,
    {
        Error { message, hint: None }
    }

    /// The same error with a hint of what to do.
    pub fn hint(self, hint: String) -> (e: Error)
        ensures
            e.message@ == self.message@,
            e.hint matches Some(h) && h@ == hint@,
    {
        Error { message: self.message, hint: Some(hint) }
    }

    /// The error as shown to the user.
    pub fn to_text(&self) -> (r: String)
        ensures
            r@ == error_text(
                self.message@,
                match &self.hint {
                    Some(h) => Some(h@),
                    None => None,
                },
            ),
    {
        let mut s = owned(self.message.as_str());
        match &self.hint {
            Some(h) => {
                push_str(&mut s, "\n  ");
                push_str(&mut s, h.as_str());
            },
            None => {},
        }
        s
    }
}

} // verus!
