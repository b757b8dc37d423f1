use vstd::prelude::*;
use crate::action::{Action, Round};
use crate::history::{swap_round, swapped};

verus! {

/// The number of cooperative moves in a round.
pub open spec fn round_cooperations(r: Round) -> nat {
    (if r.0 == Action::Cooperate { 1nat } else { 0nat }) + (if r.1 == Action::Cooperate {
        1nat
    } else {
        0nat
    })
}

/// The number of cooperative moves, both players together, over a history.
pub open spec fn cooperations(h: Seq<Round>) -> nat
    decreases h.len(),
{
    if h.len() == 0 {
        0
    } else {
        cooperations(h.drop_last()) + round_cooperations(h.last())
    }
}

/// Counts the cooperative moves of both players over the history; the
/// cooperation rate is this count over twice the number of rounds.
pub fn cooperation_count(history: &[Round]) -> (r: usize)
    requires
        history@.len() * 2 <= usize::MAX,
    ensures
        r == cooperations(history@),
{
    let n = history.len();
    let mut c: usize = 0;
    for k in 0..n
        invariant
            n == history@.len(),
            n * 2 <= usize::MAX,
            c == cooperations(history@.take(k as int)),
            c <= 2 * k,
    {
        let ghost before = history@.take(k as int);
        assert(history@.take(k + 1).drop_last() =~= before);
        let (a1, a2) = history[k];
        if a1 == Action::Cooperate {
            c = c + 1;
        }
        if a2 == Action::Cooperate {
            c = c + 1;
        }
    }
    assert(history@.take(n as int) =~= history@);
    c
}

/// There are at most two cooperative moves per round, so the cooperation
/// rate lies between zero and one.
pub proof fn lemma_cooperations_bounded(h: Seq<Round>)
    ensures
        cooperations(h) <= 2 * h.len(),
    decreases h.len(),
{
    if h.len() > 0 {
        lemma_cooperations_bounded(h.drop_last());
    }
}

/// The cooperation count does not depend on whose point of view the
/// history is written from.
pub proof fn lemma_cooperations_swapped(h: Seq<Round>)
    ensures
        cooperations(swapped(h)) == cooperations(h),
    decreases h.len(),
{
    if h.len() > 0 {
        assert(swapped(h).drop_last() =~= swapped(h.drop_last()));
        lemma_cooperations_swapped(h.drop_last());
        assert(swapped(h).last() == swap_round(h.last()));
    }
}

} // verus!
