use vstd::prelude::*;
use crate::action::{Action, Round};
use crate::history::opponent_defected;
use crate::strategies::grudger::any_opponent_defection;
use crate::strategy::Strategy;
use vstd::slice::slice_subrange;

verus! {

/// Detective: opens with Cooperate, Defect, Cooperate, Cooperate. If the
/// opponent did not defect during those four rounds it defects forever to
/// exploit it, whatever the opponent does later; if the opponent defected
/// during the opening it plays Tit For Tat.
#[derive(Clone, Copy, Default, Debug)]
pub struct Detective;

/// The fixed opening of Detective, round by round.
pub open spec fn detective_opening(turn: int) -> Action {
    if turn == 1 {
        Action::Defect
    } else {
        Action::Cooperate
    }
}

/// The move Detective makes after the given history.
pub open spec fn detective_move(h: Seq<Round>) -> Action {
    if h.len() < 4 {
        detective_opening(h.len() as int)
    } else if !opponent_defected(h.take(4)) {
        Action::Defect
    } else {
        h.last().1
    }
}

impl Strategy for Detective {
    open spec fn label(&self) -> Seq<char> {
        "Detective"@
    }

    open spec fn is_reactive() -> bool {
        true
    }

    open spec fn reply(&self, history: Seq<Round>) -> Action {
        detective_move(history)
    }

    fn name(&self) -> (r: &str) {
        "Detective"
    }

    fn next_move(&mut self, history: &[Round]) -> (r: Action)
        ensures
            r == detective_move(history@),
    {
        let turn = history.len();
        let opening: [Action; 4] = [Action::Cooperate, Action::Defect, Action::Cooperate, Action::Cooperate];
        if turn < 4 {
            return opening[turn];
        }
        let opening_rounds = slice_subrange(history, 0, 4);
        assert(opening_rounds@ =~= history@.take(4));
        if !any_opponent_defection(opening_rounds) {
            Action::Defect
        } else {
            history[turn - 1].1
        }
    }

    fn clone_box(&self) -> (r: Self) {
        Detective
    }
}

/// After its opening, Detective exploits an opponent that did not defect
/// during the opening, and plays Tit For Tat against one that did.
pub proof fn lemma_detective_after_opening(h: Seq<Round>)
    requires
        h.len() >= 4,
    ensures
        !opponent_defected(h.take(4)) ==> detective_move(h) == Action::Defect,
        opponent_defected(h.take(4)) ==> detective_move(h) == h.last().1,
{
}

} // verus!
