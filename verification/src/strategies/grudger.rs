use vstd::prelude::*;
use crate::action::{Action, Round};
use crate::history::opponent_defected;
use crate::strategy::Strategy;

verus! {

/// Grudger: cooperates until the opponent defects once, then defects forever.
#[derive(Clone, Copy, Default, Debug)]
pub struct Grudger;

/// The move Grudger makes after the given history.
pub open spec fn grudger_move(h: Seq<Round>) -> Action {
    if opponent_defected(h) {
        Action::Defect
    } else {
        Action::Cooperate
    }
}

/// Whether the opponent defected in some round of `history`.
pub fn any_opponent_defection(history: &[Round]) -> (r: bool)
    ensures
        r == opponent_defected(history@),
{
    let n = history.len();
    for i in 0..n
        invariant
            n == history@.len(),
            forall|k: int| 0 <= k < i ==> history@[k].1 != Action::Defect,
    {
        if history[i].1 == Action::Defect {
            return true;
        }
    }
    false
}

impl Strategy for Grudger {
    open spec fn label(&self) -> Seq<char> {
        "Grudger"@
    }

    open spec fn is_reactive() -> bool {
        true
    }

    open spec fn reply(&self, history: Seq<Round>) -> Action {
        grudger_move(history)
    }

    fn name(&self) -> (r: &str) {
        "Grudger"
    }

    fn next_move(&mut self, history: &[Round]) -> (r: Action)
        ensures
            r == grudger_move(history@),
    {
        if any_opponent_defection(history) {
            Action::Defect
        } else {
            Action::Cooperate
        }
    }

    fn clone_box(&self) -> (r: Self) {
        Grudger
    }
}

/// Grudger never forgives: once it defects, it defects after any further
/// rounds.
pub proof fn lemma_grudger_never_forgives(h: Seq<Round>, more: Seq<Round>)
    requires
        grudger_move(h) == Action::Defect,
    ensures
        grudger_move(h + more) == Action::Defect,
{
    let k = choose|k: int| 0 <= k < h.len() && h[k].1 == Action::Defect;
    assert((h + more)[k] == h[k]);
}

/// Grudger cooperates as long as the opponent has never defected.
pub proof fn lemma_grudger_cooperates_until_betrayed(h: Seq<Round>)
    requires
        forall|k: int| 0 <= k < h.len() ==> h[k].1 == Action::Cooperate,
    ensures
        grudger_move(h) == Action::Cooperate,
{
}

} // verus!
