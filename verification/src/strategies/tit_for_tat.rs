use vstd::prelude::*;
use crate::action::{Action, Round};
use crate::strategy::Strategy;

verus! {

/// Tit For Tat: starts by cooperating, then repeats the opponent's last move.
#[derive(Clone, Copy, Default, Debug)]
pub struct TitForTat;

/// The move Tit For Tat makes after the given history.
pub open spec fn tit_for_tat_move(h: Seq<Round>) -> Action {
    if h.len() == 0 {
        Action::Cooperate
    } else {
        h.last().1
    }
}

impl Strategy for TitForTat {
    open spec fn label(&self) -> Seq<char> {
        "Tit For Tat"@
    }

    open spec fn is_reactive() -> bool {
        true
    }

    open spec fn reply(&self, history: Seq<Round>) -> Action {
        tit_for_tat_move(history)
    }

    fn name(&self) -> (r: &str) {
        "Tit For Tat"
    }

    fn next_move(&mut self, history: &[Round]) -> (r: Action)
        ensures
            r == tit_for_tat_move(history@),
    {
        if history.len() == 0 {
            Action::Cooperate
        } else {
            history[history.len() - 1].1
        }
    }

    fn clone_box(&self) -> (r: Self) {
        TitForTat
    }
}

/// Tit For Tat is never the first to defect: against an opponent that has
/// always cooperated, it cooperates.
pub proof fn lemma_tit_for_tat_nice(h: Seq<Round>)
    requires
        forall|k: int| 0 <= k < h.len() ==> h[k].1 == Action::Cooperate,
    ensures
        tit_for_tat_move(h) == Action::Cooperate,
{
    if h.len() > 0 {
        assert(h.last() == h[h.len() - 1]);
    }
}

} // verus!
