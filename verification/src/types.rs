//! Small vocabulary shared by every module: goals, modes, grades.

use vstd::prelude::*;

use crate::strs::str_eq;

verus! {

/// Which direction a card is asked in.
#[derive(Clone, Copy, PartialEq, Eq, Structural, Hash, Debug)]
pub enum Goal {
    /// front → back
    Forward,
    /// back → front (only for `:::` lines)
    Reverse,
}

/// How a session is run. Never mixed within one session.
#[derive(Clone, Copy, PartialEq, Eq, Structural, Hash, Debug)]
pub enum Mode {
    Recall,
    Typed,
}

/// A memory observation. Maps 1:1 onto FSRS ratings.
#[derive(Clone, Copy, PartialEq, Eq, Structural, Hash, Debug)]
pub enum Grade {
    Again,
    Hard,
    Good,
    Easy,
}

pub open spec fn goal_name(g: Goal) -> Seq<char> {
    match g {
        Goal::Forward => "forward"@,
        Goal::Reverse => "reverse"@,
    }
}

pub open spec fn goal_from_name(s: Seq<char>) -> Option<Goal> {
    if s == "forward"@ {
        Some(Goal::Forward)
    } else if s == "reverse"@ {
        Some(Goal::Reverse)
    } else {
        None
    }
}

pub open spec fn goal_slot(g: Goal) -> int {
    match g {
        Goal::Forward => 0,
        Goal::Reverse => 1,
    }
}

pub open spec fn mode_name(m: Mode) -> Seq<char> {
    match m {
        Mode::Recall => "recall"@,
        Mode::Typed => "typed"@,
    }
}

pub open spec fn mode_from_name(s: Seq<char>) -> Option<Mode> {
    if s == "recall"@ {
        Some(Mode::Recall)
    } else if s == "typed"@ {
        Some(Mode::Typed)
    } else {
        None
    }
}

pub open spec fn grade_name(g: Grade) -> Seq<char> {
    match g {
        Grade::Again => "again"@,
        Grade::Hard => "hard"@,
        Grade::Good => "good"@,
        Grade::Easy => "easy"@,
    }
}

pub open spec fn grade_from_name(s: Seq<char>) -> Option<Grade> {
    if s == "again"@ {
        Some(Grade::Again)
    } else if s == "hard"@ {
        Some(Grade::Hard)
    } else if s == "good"@ {
        Some(Grade::Good)
    } else if s == "easy"@ {
        Some(Grade::Easy)
    } else {
        None
    }
}

pub open spec fn grade_rating(g: Grade) -> u32 {
    match g {
        Grade::Again => 1,
        Grade::Hard => 2,
        Grade::Good => 3,
        Grade::Easy => 4,
    }
}

impl Goal {
    pub fn as_str(self) -> (r: &'static str)
        ensures
            r@ == goal_name(self),
    {
        match self {
            Goal::Forward => "forward",
            Goal::Reverse => "reverse",
        }
    }

    pub fn parse(s: &str) -> (r: Option<Goal>)
        ensures
            r == goal_from_name(s@),
    {
        if str_eq(s, "forward") {
            Some(Goal::Forward)
        } else if str_eq(s, "reverse") {
            Some(Goal::Reverse)
        } else {
            None
        }
    }

    /// Slot in a per-goal pair: forward first, reverse second.
    pub fn index(self) -> (r: usize)
        ensures
            r == goal_slot(self),
    {
        match self {
            Goal::Forward => 0,
            Goal::Reverse => 1,
        }
    }
}

impl Mode {
    pub fn as_str(self) -> (r: &'static str)
        ensures
            r@ == mode_name(self),
    {
        match self {
            Mode::Recall => "recall",
            Mode::Typed => "typed",
        }
    }

    pub fn parse(s: &str) -> (r: Option<Mode>)
        ensures
            r == mode_from_name(s@),
    {
        if str_eq(s, "recall") {
            Some(Mode::Recall)
        } else if str_eq(s, "typed") {
            Some(Mode::Typed)
        } else {
            None
        }
    }
}

impl Grade {
    pub fn as_str(self) -> (r: &'static str)
        ensures
            r@ == grade_name(self),
    {
        match self {
            Grade::Again => "again",
            Grade::Hard => "hard",
            Grade::Good => "good",
            Grade::Easy => "easy",
        }
    }

    pub fn parse(s: &str) -> (r: Option<Grade>)
        ensures
            r == grade_from_name(s@),
    {
        if str_eq(s, "again") {
            Some(Grade::Again)
        } else if str_eq(s, "hard") {
            Some(Grade::Hard)
        } else if str_eq(s, "good") {
            Some(Grade::Good)
        } else if str_eq(s, "easy") {
            Some(Grade::Easy)
        } else {
            None
        }
    }

    /// FSRS rating: again=1, hard=2, good=3, easy=4.
    pub fn rating(self) -> (r: u32)
        ensures
            r == grade_rating(self),
    {
        match self {
            Grade::Again => 1,
            Grade::Hard => 2,
            Grade::Good => 3,
            Grade::Easy => 4,
        }
    }

    pub fn is_success(self) -> (r: bool)
        ensures
            r == (self != Grade::Again),
    {
        !matches!(self, Grade::Again)
    }
}

/// Every goal, mode and grade reads back as itself from its name, and the
/// names never collide with each other or with the words `skip`, `undo` and
/// `rename` that log rows also use.
pub proof fn lemma_names_round_trip(g: Goal, m: Mode, r: Grade)
    ensures
        goal_from_name(goal_name(g)) == Some(g),
        mode_from_name(mode_name(m)) == Some(m),
        grade_from_name(grade_name(r)) == Some(r),
        goal_from_name("rename"@) is None,
        grade_from_name("skip"@) is None,
        grade_from_name("undo"@) is None,
{
    reveal_strlit("forward");
    reveal_strlit("reverse");
    reveal_strlit("recall");
    reveal_strlit("typed");
    reveal_strlit("again");
    reveal_strlit("hard");
    reveal_strlit("good");
    reveal_strlit("easy");
    reveal_strlit("rename");
    reveal_strlit("skip");
    reveal_strlit("undo");
    assert("forward"@[0] != "reverse"@[0]);
    assert("forward"@.len() != "rename"@.len());
    assert("reverse"@.len() != "rename"@.len());
    assert("recall"@.len() != "typed"@.len());
    assert("again"@.len() != "hard"@.len());
    assert("again"@.len() != "good"@.len());
    assert("again"@.len() != "easy"@.len());
    assert("hard"@[0] != "good"@[0]);
    assert("hard"@[0] != "easy"@[0]);
    assert("good"@[0] != "easy"@[0]);
    assert("skip"@.len() != "again"@.len());
    assert("skip"@[0] != "hard"@[0]);
    assert("skip"@[0] != "good"@[0]);
    assert("skip"@[0] != "easy"@[0]);
    assert("undo"@.len() != "again"@.len());
    assert("undo"@[0] != "hard"@[0]);
    assert("undo"@[0] != "good"@[0]);
    assert("undo"@[0] != "easy"@[0]);
}

/// Grades map one to one onto the FSRS ratings 1 to 4, and only Again is
/// a failure.
pub proof fn lemma_ratings_one_to_one(a: Grade, b: Grade)
    ensures
        1 <= grade_rating(a) <= 4,
        grade_rating(a) == grade_rating(b) ==> a == b,
        (a != Grade::Again) <==> grade_rating(a) > 1,
{
}

} // verus!
