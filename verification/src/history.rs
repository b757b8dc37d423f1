use vstd::prelude::*;
use crate::action::{Action, Round};

verus! {

/// The round as the opponent sees it.
pub open spec fn swap_round(r: Round) -> Round {
    (r.1, r.0)
}

/// The whole history as the opponent sees it.
pub open spec fn swapped(h: Seq<Round>) -> Seq<Round> {
    Seq::new(h.len(), |i: int| swap_round(h[i]))
}

/// Returns the history from the other player's point of view: each round's
/// two moves exchanged.
pub fn swap_perspective(history: &[Round]) -> (r: Vec<Round>)
    ensures
        r@ == swapped(history@),
{
    let mut out: Vec<Round> = Vec::new();
    let n = history.len();
    for i in 0..n
        invariant
            n == history@.len(),
            out@.len() == i,
            forall|k: int| 0 <= k < i ==> out@[k] == swap_round(history@[k]),
    {
        let r = history[i];
        out.push((r.1, r.0));
    }
    assert(out@ =~= swapped(history@));
    out
}

/// Swapping the point of view twice gives the history back.
pub proof fn lemma_swap_involution(h: Seq<Round>)
    ensures
        swapped(swapped(h)) == h,
{
    assert(swapped(swapped(h)) =~= h);
}

/// Whether the opponent defected in some round of the history.
pub open spec fn opponent_defected(h: Seq<Round>) -> bool {
    exists|k: int| 0 <= k < h.len() && h[k].1 == Action::Defect
}

} // verus!
