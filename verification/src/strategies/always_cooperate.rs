use vstd::prelude::*;
use crate::action::{Action, Round};
use crate::strategy::Strategy;

verus! {

/// Cooperates in every round.
#[derive(Clone, Copy, Default, Debug)]
pub struct AlwaysCooperate;

impl Strategy for AlwaysCooperate {
    open spec fn label(&self) -> Seq<char> {
        "Always Cooperate"@
    }

    open spec fn is_reactive() -> bool {
        true
    }

    open spec fn reply(&self, history: Seq<Round>) -> Action {
        Action::Cooperate
    }

    fn name(&self) -> (r: &str) {
        "Always Cooperate"
    }

    fn next_move(&mut self, history: &[Round]) -> (r: Action)
        ensures
            r == Action::Cooperate,
    {
        Action::Cooperate
    }

    fn clone_box(&self) -> (r: Self) {
        AlwaysCooperate
    }
}

} // verus!
