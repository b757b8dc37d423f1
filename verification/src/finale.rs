use vstd::prelude::*;
use crate::evolution::{is_first_named, reordered, score_keys, sort_scores_descending, sorted_by_score};
use crate::game::{lengthened, max_abs_payoff, Game};
use crate::ranking::{is_ranking, ranked_before};
use crate::scores::{
    count_of, distinct_names, is_tally, lemma_count_absent, lemma_count_once, lemma_distinct_names,
    lemma_distinct_names_len, string_views,
};
use crate::strategy::{labels, same_play, Strategy};
use crate::tournament::{all_played, round_robin_outcome, Tournament};

verus! {

/// Entry `k` has the highest score, and no later entry has as high a score:
/// the entry that `Iterator::max_by_key` picks by score.
pub open spec fn is_last_best(scores: Seq<(String, i32)>, k: int) -> bool {
    &&& 0 <= k < scores.len()
    &&& forall|j: int| 0 <= j < scores.len() ==> #[trigger] scores[j].1 <= scores[k].1
    &&& forall|j: int| k < j < scores.len() ==> #[trigger] scores[j].1 < scores[k].1
}

/// The position of the highest score, the last one among equals.
pub fn last_best(scores: &Vec<(String, i32)>) -> (r: usize)
    requires
        scores@.len() > 0,
    ensures
        is_last_best(scores@, r as int),
{
    let n = scores.len();
    let mut best: usize = 0;
    for k in 1..n
        invariant
            n == scores@.len(),
            best < k,
            forall|j: int| 0 <= j < k ==> #[trigger] scores@[j].1 <= scores@[best as int].1,
            forall|j: int| best < j < k ==> #[trigger] scores@[j].1 < scores@[best as int].1,
    {
        if scores[k].1 >= scores[best].1 {
            best = k;
        }
    }
    best
}

/// The names of the first `m` entries.
pub open spec fn leading_names(ranked: Seq<(String, i32)>, m: int) -> Seq<Seq<char>> {
    Seq::new(m as nat, |i: int| ranked[i].0@)
}

/// `finalists` are copies, in order, of the first strategy carrying each of
/// the first `m` ranked names: the same name, and for reactive strategies
/// the same play.
pub open spec fn chosen_finalists<S: Strategy>(
    strategies: Seq<S>,
    ranked: Seq<(String, i32)>,
    m: int,
    finalists: Seq<S>,
) -> bool {
    &&& finalists.len() == m
    &&& labels(finalists) == leading_names(ranked, m)
    &&& exists|picks: Seq<int>|
        picks.len() == m && forall|t: int|
            0 <= t < m ==> is_first_named(labels(strategies), ranked[t].0@, #[trigger] picks[t]) && (
            S::is_reactive() ==> same_play(finalists[t], strategies[picks[t]]))
}

/// `r` is the winner's name in a grand finale among `strategies` under
/// `game`: the qualifying round robin ranked as `ranked`, and the finals
/// among copies of the first `m` ranked, with five times as many rounds,
/// tallied as `finals`.
pub open spec fn finale_outcome<S: Strategy>(
    strategies: Seq<S>,
    game: Game,
    m: int,
    ranked: Seq<(String, i32)>,
    finals: Seq<(String, i32)>,
    r: Seq<char>,
) -> bool {
    &&& exists|qualifying: Seq<(String, i32)>, results: Seq<(usize, usize, i32, i32)>|
        #[trigger] round_robin_outcome(labels(strategies), game, results, qualifying) && all_played(
            game,
            strategies,
            results,
        ) && sorted_by_score(qualifying, ranked)
    &&& exists|finalists: Seq<S>, results: Seq<(usize, usize, i32, i32)>|
        #![trigger round_robin_outcome(leading_names(ranked, m), lengthened(game, 5), results, finals), chosen_finalists(strategies, ranked, m, finalists)]
        round_robin_outcome(leading_names(ranked, m), lengthened(game, 5), results, finals)
            && chosen_finalists(strategies, ranked, m, finalists) && all_played(
            lengthened(game, 5),
            finalists,
            results,
        )
    &&& exists|k: int| #[trigger] is_last_best(finals, k) && finals[k].0@ == r
}

/// The names of a ranked tally differ from each other.
proof fn lemma_ranked_distinct(
    views: Seq<Seq<char>>,
    game: Game,
    results: Seq<(usize, usize, i32, i32)>,
    scores: Seq<(String, i32)>,
    ranked: Seq<(String, i32)>,
)
    requires
        round_robin_outcome(views, game, results, scores),
        sorted_by_score(scores, ranked),
    ensures
        forall|a: int, b: int| 0 <= a < b < ranked.len() ==> #[trigger] ranked[a].0@ != #[trigger] ranked[b].0@,
{
    assert(is_tally(views, results, scores));
    lemma_distinct_names(views);
    let d = distinct_names(views);
    let order = choose|order: Seq<usize>| is_ranking(score_keys(scores), order) && #[trigger] reordered(scores, order, ranked);
    assert(is_ranking(score_keys(scores), order) && reordered(scores, order, ranked));
    assert forall|a: int, b: int| 0 <= a < b < ranked.len() implies #[trigger] ranked[a].0@ != #[trigger] ranked[b].0@ by {
        assert(order[a] < score_keys(scores).len() && order[b] < score_keys(scores).len());
        assert(ranked[a].0@ == d[order[a] as int]);
        assert(ranked[b].0@ == d[order[b] as int]);
        assert(ranked_before(score_keys(scores), order[a] as int, order[b] as int));
        assert(order[a] != order[b]);
    }
}

impl<S: Strategy> Tournament<S> {
    /// The number of finalists of a grand finale with `top_n` places.
    pub open spec fn finalists(&self, top_n: nat) -> nat {
        let d = distinct_names(self.names()).len();
        if top_n < d { top_n } else { d }
    }

    /// The finals take `top_n` names, or every name when there are no more
    /// than `top_n` of them.
    pub proof fn lemma_finalists_count(&self, top_n: nat)
        ensures
            top_n >= distinct_names(self.names()).len() ==> self.finalists(top_n) == distinct_names(
                self.names(),
            ).len(),
            top_n < distinct_names(self.names()).len() ==> self.finalists(top_n) == top_n,
    {
    }

    /// Whether a grand finale with `top_n` places fits the integer types:
    /// the qualifying round robin, five times as many rounds for the
    /// finals, and each finalist's total over its `m` finals.
    pub open spec fn finale_fits(&self, top_n: nat) -> bool {
        let m = self.finalists(top_n);
        let b = 5 * self.match_bound();
        &&& self.round_robin_fits()
        &&& self.game.iterations * 5 <= usize::MAX
        &&& 5 * self.game.iterations * max_abs_payoff(self.game.payoffs) <= i32::MAX
        &&& m * b <= i32::MAX
    }

    /// Plays a round robin, takes the `top_n` best names (the first strategy
    /// of each), plays a round robin among them with five times as many
    /// rounds, and returns the name that scored most in it (the last one
    /// listed among equals).
    pub fn run_grand_finale(&self, top_n: usize) -> (r: String)
        requires
            top_n > 0,
            self.strategies@.len() > 0,
            self.finale_fits(top_n as nat),
        ensures
            exists|ranked: Seq<(String, i32)>, finals: Seq<(String, i32)>|
                #[trigger] finale_outcome(
                    self.strategies@,
                    self.game,
                    self.finalists(top_n as nat) as int,
                    ranked,
                    finals,
                    r@,
                ),
    {
        let scores = self.run_round_robin();
        let ranked = sort_scores_descending(&scores);
        let names = self.strategy_names();
        let ghost views = self.names();
        let ghost qres = choose|results| #[trigger] round_robin_outcome(views, self.game, results, scores@) && all_played(self.game, self.strategies@, results);
        let ghost order = choose|order: Seq<usize>| is_ranking(score_keys(scores@), order) && #[trigger] reordered(scores@, order, ranked@);
        let ghost d = distinct_names(views);
        proof {
            assert(round_robin_outcome(views, self.game, qres, scores@) && all_played(self.game, self.strategies@, qres));
            assert(is_ranking(score_keys(scores@), order) && reordered(scores@, order, ranked@));
            lemma_distinct_names(views);
            assert(views.len() > 0);
            assert(d.contains(views[0]));
        }
        let m = if top_n < ranked.len() { top_n } else { ranked.len() };
        assert(m == self.finalists(top_n as nat));
        let mut finalists: Vec<S> = Vec::new();
        let ghost mut picked: Seq<int> = Seq::empty();
        for i in 0..m
            invariant
                m <= ranked@.len(),
                ranked@.len() == d.len(),
                d == distinct_names(views),
                views == self.names(),
                string_views(names@) == views,
                is_ranking(score_keys(scores@), order),
                reordered(scores@, order, ranked@),
                scores@.len() == d.len(),
                forall|k: int| 0 <= k < scores@.len() ==> (#[trigger] scores@[k]).0@ == d[k],
                forall|x: Seq<char>| d.contains(x) ==> views.contains(x),
                finalists@.len() == i,
                forall|t: int| 0 <= t < i ==> (#[trigger] finalists@[t]).label() == ranked@[t].0@,
                picked.len() == i,
                forall|t: int| 0 <= t < i ==> is_first_named(views, ranked@[t].0@, #[trigger] picked[t]),
                S::is_reactive() ==> forall|t: int| 0 <= t < i ==> same_play(#[trigger] finalists@[t], self.strategies@[picked[t]]),
        {
            let name = &ranked[i].0;
            proof {
                assert(order[i as int] < scores@.len());
                assert(ranked@[i as int].0@ == d[order[i as int] as int]);
                assert(d.contains(d[order[i as int] as int]));
                assert(views.contains(name@));
            }
            let n = names.len();
            let mut k: usize = 0;
            while k < n && !names[k].eq(name)
                invariant
                    n == names@.len(),
                    k <= n,
                    forall|j: int| 0 <= j < k ==> names@[j]@ != name@,
                    string_views(names@).contains(name@),
                decreases n - k,
            {
                k = k + 1;
            }
            proof {
                if k == n {
                    let j = choose|j: int| 0 <= j < n && string_views(names@)[j] == name@;
                    assert(names@[j]@ == name@);
                }
                assert(names@[k as int]@ == name@);
                assert(views[k as int] == self.strategies@[k as int].label());
                assert(is_first_named(views, name@, k as int));
            }
            let ghost before = finalists@;
            finalists.push(self.strategies[k].clone_box());
            proof {
                picked = picked.push(k as int);
                assert forall|t: int| 0 <= t < i + 1 implies is_first_named(views, ranked@[t].0@, #[trigger] picked[t]) by {
                }
                if S::is_reactive() {
                    assert forall|t: int| 0 <= t < i + 1 implies same_play(#[trigger] finalists@[t], self.strategies@[picked[t]]) by {
                        if t < i {
                            assert(finalists@[t] == before[t]);
                        }
                    }
                }
            }
        }
        let mut finals_game = self.game;
        finals_game.iterations = self.game.iterations * 5;
        let ghost fin = finalists@;
        let finals_tournament = Tournament::new(finalists, finals_game);
        proof {
            assert(finals_tournament.names() =~= leading_names(ranked@, m as int));
            assert(finals_tournament.match_bound() == 5 * self.match_bound()) by (nonlinear_arith)
                requires finals_tournament.match_bound() == (self.game.iterations * 5) * max_abs_payoff(self.game.payoffs),
                    self.match_bound() == self.game.iterations * max_abs_payoff(self.game.payoffs);
            lemma_distinct_names_len(views);
            assert(m * m <= usize::MAX) by (nonlinear_arith)
                requires m <= self.strategies@.len(), self.strategies@.len() * self.strategies@.len() <= usize::MAX;
            lemma_ranked_distinct(views, self.game, qres, scores@, ranked@);
            let fnames = finals_tournament.names();
            assert forall|x: Seq<char>| #[trigger] count_of(fnames, x) * m * finals_tournament.match_bound() <= i32::MAX by {
                assert(fnames.no_duplicates()) by {
                    assert forall|a: int, b: int| 0 <= a < fnames.len() && 0 <= b < fnames.len() && a != b implies fnames[a] != fnames[b] by {
                        if a < b {
                            assert(ranked@[a].0@ != ranked@[b].0@);
                        } else {
                            assert(ranked@[b].0@ != ranked@[a].0@);
                        }
                    }
                }
                if fnames.contains(x) {
                    lemma_count_once(fnames, x);
                } else {
                    lemma_count_absent(fnames, x);
                }
                let c = count_of(fnames, x);
                let fb = finals_tournament.match_bound();
                assert(fb >= 0) by (nonlinear_arith)
                    requires fb == finals_tournament.game.iterations * max_abs_payoff(finals_tournament.game.payoffs),
                        max_abs_payoff(finals_tournament.game.payoffs) >= 0;
                assert(c * m * fb <= m * fb) by (nonlinear_arith)
                    requires c <= 1, m >= 0, fb >= 0;
            }
            assert(finals_tournament.round_robin_fits());
        }
        let finals = finals_tournament.run_round_robin();
        let ghost fres = choose|results| #[trigger] round_robin_outcome(finals_tournament.names(), finals_tournament.game, results, finals@) && all_played(finals_tournament.game, finals_tournament.strategies@, results);
        proof {
            assert(round_robin_outcome(finals_tournament.names(), finals_tournament.game, fres, finals@) && all_played(finals_tournament.game, finals_tournament.strategies@, fres));
            lemma_distinct_names(finals_tournament.names());
            assert(finals_tournament.names().len() == m);
            if m > 0 {
                assert(distinct_names(finals_tournament.names()).contains(finals_tournament.names()[0]));
            }
        }
        let best = last_best(&finals);
        let r = finals[best].0.clone();
        proof {
            assert(round_robin_outcome(views, self.game, qres, scores@) && sorted_by_score(scores@, ranked@));
            assert(finals_tournament.game == lengthened(self.game, 5));
            assert(labels(finals_tournament.strategies@) =~= leading_names(ranked@, m as int));
            assert forall|t: int| 0 <= t < m implies is_first_named(labels(self.strategies@), ranked@[t].0@, #[trigger] picked[t])
                && (S::is_reactive() ==> same_play(finals_tournament.strategies@[t], self.strategies@[picked[t]])) by {
                assert(finals_tournament.strategies@[t] == fin[t]);
            }
            assert(finals_tournament.strategies@.len() == m);
            assert(labels(finals_tournament.strategies@) == leading_names(ranked@, m as int));
            assert(chosen_finalists(self.strategies@, ranked@, m as int, finals_tournament.strategies@));
            assert(round_robin_outcome(leading_names(ranked@, m as int), lengthened(self.game, 5), fres, finals@));
            assert(is_last_best(finals@, best as int) && finals@[best as int].0@ == r@);
            assert(finale_outcome(self.strategies@, self.game, m as int, ranked@, finals@, r@));
        }
        r
    }
}

} // verus!
