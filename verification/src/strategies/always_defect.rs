use vstd::prelude::*;
use crate::action::{Action, Round};
use crate::strategy::Strategy;

verus! {

/// Defects in every round.
#[derive(Clone, Copy, Default, Debug)]
pub struct AlwaysDefect;

impl Strategy for AlwaysDefect {
    open spec fn label(&self) -> Seq<char> {
        "Always Defect"@
    }

    open spec fn is_reactive() -> bool {
        true
    }

    open spec fn reply(&self, history: Seq<Round>) -> Action {
        Action::Defect
    }

    fn name(&self) -> (r: &str) {
        "Always Defect"
    }

    fn next_move(&mut self, history: &[Round]) -> (r: Action)
        ensures
            r == Action::Defect,
    {
        Action::Defect
    }

    fn clone_box(&self) -> (r: Self) {
        AlwaysDefect
    }
}

} // verus!
