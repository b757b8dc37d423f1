use vstd::prelude::*;
use crate::action::{Action, Round};
use crate::strategy::Strategy;

verus! {

/// Pavlov (win-stay, lose-shift): cooperates after a round in which both
/// players made the same move, defects otherwise; cooperates first.
#[derive(Clone, Copy, Default, Debug)]
pub struct Pavlov;

/// The move Pavlov makes after the given history.
pub open spec fn pavlov_move(h: Seq<Round>) -> Action {
    if h.len() == 0 {
        Action::Cooperate
    } else if h.last().0 == h.last().1 {
        Action::Cooperate
    } else {
        Action::Defect
    }
}

impl Strategy for Pavlov {
    open spec fn label(&self) -> Seq<char> {
        "Pavlov"@
    }

    open spec fn is_reactive() -> bool {
        true
    }

    open spec fn reply(&self, history: Seq<Round>) -> Action {
        pavlov_move(history)
    }

    fn name(&self) -> (r: &str) {
        "Pavlov"
    }

    fn next_move(&mut self, history: &[Round]) -> (r: Action)
        ensures
            r == pavlov_move(history@),
    {
        if history.len() == 0 {
            Action::Cooperate
        } else {
            let (mine, theirs) = history[history.len() - 1];
            if mine == theirs {
                Action::Cooperate
            } else {
                Action::Defect
            }
        }
    }

    fn clone_box(&self) -> (r: Self) {
        Pavlov
    }
}

/// Win-stay, lose-shift: after a round in which Pavlov earned the reward or
/// the temptation (it cooperated with a cooperator, or defected against
/// one), it repeats its move; after a sucker's payoff or mutual
/// punishment it changes it.
pub proof fn lemma_pavlov_win_stay_lose_shift(h: Seq<Round>, r: Round)
    ensures
        r.1 == Action::Cooperate ==> pavlov_move(h.push(r)) == r.0,
        r.1 == Action::Defect ==> pavlov_move(h.push(r)) == r.0.flipped(),
{
}

} // verus!
