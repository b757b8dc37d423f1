use vstd::prelude::*;

verus! {

/// A move in one round of the prisoner's dilemma.
#[derive(Clone, Copy, PartialEq, Eq, Structural, Debug, Hash)]
pub enum Action {
    Cooperate,
    Defect,
}

/// One round as seen by a player: (own move, opponent's move).
pub type Round = (Action, Action);

/// A sequence of rounds, from the point of view of one player.
pub type History = [(Action, Action)];

impl Action {
    /// The other move.
    pub open spec fn flipped(self) -> Action {
        match self {
            Action::Cooperate => Action::Defect,
            Action::Defect => Action::Cooperate,
        }
    }

    /// Returns the opposite move.
    pub fn flip(&self) -> (r: Action)
        ensures
            r == self.flipped(),
    {
        match self {
            Action::Cooperate => Action::Defect,
            Action::Defect => Action::Cooperate,
        }
    }
}

/// Flipping twice gives the move back, and flipping always changes the move.
pub proof fn lemma_flip_involution(a: Action)
    ensures
        a.flipped().flipped() == a,
        a.flipped() != a,
{
}

} // verus!
