use vstd::prelude::*;
use crate::action::{Action, Round};
use crate::strategy::Strategy;

verus! {

/// Alternator: cooperates in even rounds and defects in odd ones.
#[derive(Clone, Copy, Default, Debug)]
pub struct Alternator;

/// The move Alternator makes after the given history.
pub open spec fn alternator_move(h: Seq<Round>) -> Action {
    if h.len() % 2 == 0 {
        Action::Cooperate
    } else {
        Action::Defect
    }
}

impl Strategy for Alternator {
    open spec fn label(&self) -> Seq<char> {
        "Alternator"@
    }

    open spec fn is_reactive() -> bool {
        true
    }

    open spec fn reply(&self, history: Seq<Round>) -> Action {
        alternator_move(history)
    }

    fn name(&self) -> (r: &str) {
        "Alternator"
    }

    fn next_move(&mut self, history: &[Round]) -> (r: Action)
        ensures
            r == alternator_move(history@),
    {
        if history.len() % 2 == 0 {
            Action::Cooperate
        } else {
            Action::Defect
        }
    }

    fn clone_box(&self) -> (r: Self) {
        Alternator
    }
}

/// Alternator changes its move from each round to the next.
pub proof fn lemma_alternator_alternates(h: Seq<Round>, r: Round)
    ensures
        alternator_move(h.push(r)) == alternator_move(h).flipped(),
{
}

} // verus!
