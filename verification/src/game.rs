//! Streets and kinds of betting action.
use vstd::prelude::*;

verus! {

/// A betting round.
#[derive(Clone, Copy, Debug, PartialEq, Eq)]
pub enum Street {
    Preflop,
    Flop,
    Turn,
    River,
}

/// The kind of a betting action as recorded in a trajectory.
#[derive(Clone, Copy, Debug, PartialEq, Eq)]
pub enum TrajectoryActionKind {
    Fold,
    Check,
    Call,
    Bet,
    Raise,
    AllIn,
}

/// Streets in dealing order, preflop first.
pub open spec fn street_number(street: Street) -> int {
    match street {
        Street::Preflop => 0,
        Street::Flop => 1,
        Street::Turn => 2,
        Street::River => 3,
    }
}

/// Public board cards dealt by the street.
pub open spec fn board_cards(street: Street) -> int {
    match street {
        Street::Preflop => 0,
        Street::Flop => 3,
        Street::Turn => 4,
        Street::River => 5,
    }
}

impl Street {
    /// Number of public board cards dealt on this street.
    pub fn board_len(&self) -> (n: usize)
        ensures
            n == board_cards(*self),
    {
        match self {
            Street::Preflop => 0,
            Street::Flop => 3,
            Street::Turn => 4,
            Street::River => 5,
        }
    }
}

/// Position of a street in the feature encoding (preflop first).
pub fn street_index(street: Street) -> (i: usize)
    ensures
        i == street_number(street),
{
    match street {
        Street::Preflop => 0,
        Street::Flop => 1,
        Street::Turn => 2,
        Street::River => 3,
    }
}

/// Action kinds in feature order.
pub open spec fn kind_number(kind: TrajectoryActionKind) -> int {
    match kind {
        TrajectoryActionKind::Fold => 0,
        TrajectoryActionKind::Check => 1,
        TrajectoryActionKind::Call => 2,
        TrajectoryActionKind::Bet => 3,
        TrajectoryActionKind::Raise => 4,
        TrajectoryActionKind::AllIn => 5,
    }
}

/// Position of an action kind in the feature encoding.
pub fn trajectory_kind_index(kind: TrajectoryActionKind) -> (i: usize)
    ensures
        i == kind_number(kind),
{
    match kind {
        TrajectoryActionKind::Fold => 0,
        TrajectoryActionKind::Check => 1,
        TrajectoryActionKind::Call => 2,
        TrajectoryActionKind::Bet => 3,
        TrajectoryActionKind::Raise => 4,
        TrajectoryActionKind::AllIn => 5,
    }
}

/// Distinct streets, and distinct action kinds, occupy distinct feature slots.
pub proof fn law_feature_slots_distinct(s: Street, t: Street, a: TrajectoryActionKind, b: TrajectoryActionKind)
    ensures
        (street_number(s) == street_number(t)) <==> (s == t),
        (kind_number(a) == kind_number(b)) <==> (a == b),
        0 <= street_number(s) < 4,
        0 <= kind_number(a) < 6,
{
}

} // verus!
