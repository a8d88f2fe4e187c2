//! The phases of a game year.

use vstd::prelude::*;

verus! {

/// A phase of a game year.
#[derive(Clone, Copy, Debug, PartialEq, Eq, Structural, Hash)]
pub enum GamePhase {
    Spring,
    SpringRetreat,
    Fall,
    FallRetreat,
    Winter,
}

impl GamePhase {
    /// Whether units are ordered to move in this phase.
    pub fn is_move(self) -> (r: bool)
        ensures
            r == (self == GamePhase::Spring || self == GamePhase::Fall),
    {
        match self {
            GamePhase::Fall | GamePhase::Spring => true,
            GamePhase::SpringRetreat | GamePhase::FallRetreat => false,
            GamePhase::Winter => false,
        }
    }

    /// Whether dislodged units retreat in this phase.
    pub fn is_retreat(self) -> (r: bool)
        ensures
            r == (self == GamePhase::SpringRetreat || self == GamePhase::FallRetreat),
    {
        match self {
            GamePhase::Fall | GamePhase::Spring => false,
            GamePhase::SpringRetreat | GamePhase::FallRetreat => true,
            GamePhase::Winter => false,
        }
    }

    /// Whether units are built and disbanded in this phase.
    pub fn is_build(self) -> (r: bool)
        ensures
            r == (self == GamePhase::Winter),
    {
        match self {
            GamePhase::Fall | GamePhase::Spring => false,
            GamePhase::SpringRetreat | GamePhase::FallRetreat => false,
            GamePhase::Winter => true,
        }
    }

    /// The phase that follows this one: what it is as a mathematical value.
    pub open spec fn successor(self) -> GamePhase {
        match self {
            GamePhase::Spring => GamePhase::SpringRetreat,
            GamePhase::SpringRetreat => GamePhase::Fall,
            GamePhase::Fall => GamePhase::FallRetreat,
            GamePhase::FallRetreat => GamePhase::Winter,
            GamePhase::Winter => GamePhase::Spring,
        }
    }

    /// The phase that follows this one, with its year: winter is followed by
    /// the spring of the next year.
    pub fn next(self, year: u8) -> (r: (Self, u8))
        requires
            self == GamePhase::Winter ==> year < u8::MAX,
        ensures
            r.0 == self.successor(),
            r.1 == if self == GamePhase::Winter {
                year + 1
            } else {
                year as int
            },
    {
        match self {
            GamePhase::Spring => (GamePhase::SpringRetreat, year),
            GamePhase::SpringRetreat => (GamePhase::Fall, year),
            GamePhase::Fall => (GamePhase::FallRetreat, year),
            GamePhase::FallRetreat => (GamePhase::Winter, year),
            GamePhase::Winter => (GamePhase::Spring, year + 1),
        }
    }

    /// The movement phase that this phase belongs to: a retreat belongs to
    /// the movement before it, and winter to itself.
    pub fn mvmt(self) -> (r: Self)
        ensures
            r == (match self {
                GamePhase::FallRetreat | GamePhase::Fall => GamePhase::Fall,
                GamePhase::SpringRetreat | GamePhase::Spring => GamePhase::Spring,
                GamePhase::Winter => GamePhase::Winter,
            }),
    {
        match self {
            GamePhase::FallRetreat | GamePhase::Fall => GamePhase::Fall,
            GamePhase::SpringRetreat | GamePhase::Spring => GamePhase::Spring,
            GamePhase::Winter => GamePhase::Winter,
        }
    }
}

} // verus!
