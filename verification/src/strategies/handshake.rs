use vstd::prelude::*;
use crate::action::{Action, Round};
use crate::strategy::Strategy;

verus! {

/// Handshake: opens with Cooperate then Defect. If the opponent answered the
/// same opening, it plays Tit For Tat from then on; otherwise it defects.
#[derive(Clone, Copy, Default, Debug)]
pub struct Handshake;

/// The move Handshake makes after the given history.
pub open spec fn handshake_move(h: Seq<Round>) -> Action {
    if h.len() == 0 {
        Action::Cooperate
    } else if h.len() == 1 {
        Action::Defect
    } else if h[0].1 == Action::Cooperate && h[1].1 == Action::Defect {
        h.last().1
    } else {
        Action::Defect
    }
}

impl Strategy for Handshake {
    open spec fn label(&self) -> Seq<char> {
        "Handshake"@
    }

    open spec fn is_reactive() -> bool {
        true
    }

    open spec fn reply(&self, history: Seq<Round>) -> Action {
        handshake_move(history)
    }

    fn name(&self) -> (r: &str) {
        "Handshake"
    }

    fn next_move(&mut self, history: &[Round]) -> (r: Action)
        ensures
            r == handshake_move(history@),
    {
        let turn = history.len();
        if turn == 0 {
            Action::Cooperate
        } else if turn == 1 {
            Action::Defect
        } else if history[0].1 == Action::Cooperate && history[1].1 == Action::Defect {
            history[turn - 1].1
        } else {
            Action::Defect
        }
    }

    fn clone_box(&self) -> (r: Self) {
        Handshake
    }
}

/// Against a partner that answered the handshake (Cooperate, then Defect),
/// Handshake plays Tit For Tat from the third round on; against any other
/// opponent it defects from the third round on.
pub proof fn lemma_handshake_after_opening(h: Seq<Round>)
    requires
        h.len() >= 2,
    ensures
        h[0].1 == Action::Cooperate && h[1].1 == Action::Defect ==> handshake_move(h) == h.last().1,
        !(h[0].1 == Action::Cooperate && h[1].1 == Action::Defect) ==> handshake_move(h) == Action::Defect,
{
}

} // verus!
