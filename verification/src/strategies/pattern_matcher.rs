use vstd::prelude::*;
use crate::action::{Action, Round};
use crate::strategy::Strategy;

verus! {

/// Pattern Matcher with a window of four rounds: when the opponent's last
/// four moves repeat the four before them, it predicts that the cycle goes
/// on and answers the predicted next move (the first of the window) in
/// kind; otherwise it repeats the opponent's last move. It cooperates
/// during the first eight rounds.
#[derive(Clone, Copy, Default, Debug)]
pub struct PatternMatcher;

/// The opponent's moves, in order.
pub open spec fn opponent_moves(h: Seq<Round>) -> Seq<Action> {
    Seq::new(h.len(), |i: int| h[i].1)
}

/// The move the Pattern Matcher makes after the given history.
pub open spec fn pattern_matcher_move(h: Seq<Round>) -> Action {
    let n = h.len() as int;
    if n < 8 {
        Action::Cooperate
    } else if opponent_moves(h).subrange(n - 4, n) == opponent_moves(h).subrange(n - 8, n - 4) {
        h[n - 4].1
    } else {
        h.last().1
    }
}

/// Whether the opponent's last four moves repeat the four before them.
fn last_window_repeats(history: &[Round]) -> (r: bool)
    requires
        history@.len() >= 8,
    ensures
        r == (opponent_moves(history@).subrange(history@.len() - 4, history@.len() as int)
            == opponent_moves(history@).subrange(history@.len() - 8, history@.len() - 4)),
{
    let n = history.len();
    let ghost opp = opponent_moves(history@);
    let ghost last = opp.subrange(n - 4, n as int);
    let ghost prev = opp.subrange(n - 8, n - 4);
    for k in 0..4
        invariant
            n == history@.len(),
            n >= 8,
            opp == opponent_moves(history@),
            last == opp.subrange(n - 4, n as int),
            prev == opp.subrange(n - 8, n - 4),
            forall|j: int| 0 <= j < k ==> last[j] == prev[j],
    {
        if history[n - 4 + k].1 != history[n - 8 + k].1 {
            assert(last[k as int] != prev[k as int]);
            return false;
        }
    }
    assert(last =~= prev);
    true
}

impl Strategy for PatternMatcher {
    open spec fn label(&self) -> Seq<char> {
        "Pattern Matcher (W=4)"@
    }

    open spec fn is_reactive() -> bool {
        true
    }

    open spec fn reply(&self, history: Seq<Round>) -> Action {
        pattern_matcher_move(history)
    }

    fn name(&self) -> (r: &str) {
        "Pattern Matcher (W=4)"
    }

    fn next_move(&mut self, history: &[Round]) -> (r: Action)
        ensures
            r == pattern_matcher_move(history@),
    {
        let n = history.len();
        if n < 8 {
            return Action::Cooperate;
        }
        if last_window_repeats(history) {
            history[n - 4].1
        } else {
            history[n - 1].1
        }
    }

    fn clone_box(&self) -> (r: Self) {
        PatternMatcher
    }
}

/// When the opponent's last four moves repeat the four before them, the
/// Pattern Matcher predicts that the cycle goes on and answers the
/// predicted move, the opponent's move four rounds ago (the first of the
/// repeated window); otherwise, after eight rounds, it repeats the
/// opponent's last move, and before that it cooperates.
pub proof fn lemma_pattern_matcher_follows_the_cycle(h: Seq<Round>)
    ensures
        h.len() < 8 ==> pattern_matcher_move(h) == Action::Cooperate,
        h.len() >= 8 && (forall|k: int| h.len() - 4 <= k < h.len() ==> #[trigger] h[k].1 == h[k - 4].1)
            ==> pattern_matcher_move(h) == h[h.len() - 4].1,
        h.len() >= 8 && (exists|k: int| h.len() - 4 <= k < h.len() && #[trigger] h[k].1 != h[k - 4].1)
            ==> pattern_matcher_move(h) == h[h.len() - 1].1,
{
    if h.len() >= 8 {
        let n = h.len() as int;
        let opp = opponent_moves(h);
        if forall|k: int| n - 4 <= k < n ==> #[trigger] h[k].1 == h[k - 4].1 {
            assert(opp.subrange(n - 4, n) =~= opp.subrange(n - 8, n - 4)) by {
                assert forall|j: int| 0 <= j < 4 implies #[trigger] opp.subrange(n - 4, n)[j] == opp.subrange(n - 8, n - 4)[j] by {
                    assert(h[n - 4 + j].1 == h[n - 4 + j - 4].1);
                }
            }
        } else {
            let k = choose|k: int| n - 4 <= k < n && #[trigger] h[k].1 != h[k - 4].1;
            assert(opp.subrange(n - 4, n)[k - (n - 4)] != opp.subrange(n - 8, n - 4)[k - (n - 4)]);
        }
    }
}

} // verus!
