use vstd::prelude::*;
use crate::game::{
    abs, lemma_outcome_of_history, lemma_seed_fixes_match, lemma_totals_bounded, match_history,
    max_abs_payoff, possible_outcome, project, seeded_history, seeded_outcome, Game,
};
use crate::tournament::offset_seed;
use crate::ranking::{is_ranking, key_values, rank_descending};
use crate::scores::{distinct_names, lemma_distinct_names, string_views, find_name};
use crate::strategy::{labels, same_play, Strategy};
use crate::tournament::Tournament;

verus! {

/// A place in a Swiss standing: a score and the player (a position in the
/// population) who holds it.
pub type Standing = (i32, usize);

/// The scores of a standing, in order.
pub open spec fn standing_keys(e: Seq<Standing>) -> Seq<int> {
    Seq::new(e.len(), |k: int| e[k].0 as int)
}

/// The standing in the order that `order` gives.
pub open spec fn reorder(e: Seq<Standing>, order: Seq<usize>) -> Seq<Standing> {
    Seq::new(order.len(), |k: int| e[order[k] as int])
}

/// The standing after the round's matches: the players at places `2m` and
/// `2m + 1` played each other, and each adds what they earned.
pub open spec fn settle(e: Seq<Standing>, outcomes: Seq<(i32, i32)>) -> Seq<Standing> {
    Seq::new(
        e.len(),
        |k: int|
            if k / 2 < outcomes.len() {
                (
                    (e[k].0 + (if k % 2 == 0 {
                        outcomes[k / 2].0
                    } else {
                        outcomes[k / 2].1
                    })) as i32,
                    e[k].1,
                )
            } else {
                e[k]
            },
    )
}

/// Each pair of neighbouring places of the ranked standing earned what a
/// possible match between their two players gives, each score projected
/// from the rounds played to the game's full length; between reactive
/// strategies under a seeded game, what the match seeded with the game's
/// seed plus `round * n + i` gives, `i` being the pair's first place and
/// `n` the number of players.
pub open spec fn paired_matches<S: Strategy>(
    game: Game,
    players: Seq<S>,
    round: int,
    ranked: Seq<Standing>,
    outcomes: Seq<(i32, i32)>,
) -> bool {
    forall|m: int|
        0 <= m < outcomes.len() ==> possible_outcome(
            game,
            players[ranked[2 * m].1 as int],
            players[ranked[2 * m + 1].1 as int],
            (#[trigger] outcomes[m]).0 as int,
            outcomes[m].1 as int,
        ) && (S::is_reactive() ==> match game.seed {
            Some(x) => (outcomes[m].0 as int, outcomes[m].1 as int) == seeded_outcome(
                game,
                players[ranked[2 * m].1 as int],
                players[ranked[2 * m + 1].1 as int],
                offset_seed(x, round * players.len() + 2 * m),
            ),
            None => true,
        })
}

/// One Swiss round of `players` under `game`: the standing is sorted by
/// descending score (stably), neighbours in it are paired, and `outcomes`
/// holds what each pair earned in a possible match between them.
pub open spec fn swiss_round<S: Strategy>(
    game: Game,
    players: Seq<S>,
    round: int,
    before: Seq<Standing>,
    outcomes: Seq<(i32, i32)>,
    after: Seq<Standing>,
) -> bool {
    &&& outcomes.len() == before.len() / 2
    &&& exists|order: Seq<usize>|
        is_ranking(standing_keys(before), order) && after == #[trigger] settle(reorder(before, order), outcomes)
            && paired_matches(game, players, round, reorder(before, order), outcomes)
}

/// The standing before the first round: every player at zero, in
/// population order.
pub open spec fn initial_standing(n: nat) -> Seq<Standing> {
    Seq::new(n, |k: int| (0i32, k as usize))
}

/// `states` are the standings of a Swiss tournament among `players` under
/// `game`, one more than the rounds, whose rounds earned `outcomes`.
pub open spec fn swiss_history<S: Strategy>(
    players: Seq<S>,
    game: Game,
    outcomes: Seq<Seq<(i32, i32)>>,
    states: Seq<Seq<Standing>>,
) -> bool {
    &&& states.len() == outcomes.len() + 1
    &&& states[0] == initial_standing(players.len())
    &&& forall|r: int| 0 <= r < outcomes.len() ==> swiss_round(game, players, r, states[r], #[trigger] outcomes[r], states[r + 1])
}

/// The score of the last entry named `x`.
pub open spec fn last_score(pairs: Seq<(Seq<char>, i32)>, x: Seq<char>) -> i32
    decreases pairs.len(),
{
    if pairs.len() == 0 {
        0
    } else if pairs.last().0 == x {
        pairs.last().1
    } else {
        last_score(pairs.drop_last(), x)
    }
}

/// The names of the entries.
pub open spec fn pair_names(pairs: Seq<(Seq<char>, i32)>) -> Seq<Seq<char>> {
    Seq::new(pairs.len(), |k: int| pairs[k].0)
}

/// `r` lists each name of `pairs` once, in order of first occurrence, with
/// the score of its last entry (what collecting into a map keeps).
pub open spec fn is_collected(pairs: Seq<(Seq<char>, i32)>, r: Seq<(String, i32)>) -> bool {
    &&& r.len() == distinct_names(pair_names(pairs)).len()
    &&& forall|k: int|
        0 <= k < r.len() ==> (#[trigger] r[k]).0@ == distinct_names(pair_names(pairs))[k] && r[k].1
            == last_score(pairs, distinct_names(pair_names(pairs))[k])
}

/// The final standing as (name, score) pairs.
pub open spec fn named_standing(names: Seq<Seq<char>>, e: Seq<Standing>) -> Seq<(Seq<char>, i32)> {
    Seq::new(e.len(), |k: int| (names[e[k].1 as int], e[k].0))
}

/// Keeps, for each name, the score of its last entry. Names are listed once
/// each, in order of first occurrence.
pub fn collect_last_scores(pairs: &Vec<(String, i32)>) -> (r: Vec<(String, i32)>)
    ensures
        is_collected(Seq::new(pairs@.len(), |k: int| (pairs@[k].0@, pairs@[k].1)), r@),
{
    let ghost pv = Seq::new(pairs@.len(), |k: int| (pairs@[k].0@, pairs@[k].1));
    let ghost pn = pair_names(pv);
    let ghost d = distinct_names(pn);
    proof {
        lemma_distinct_names(pn);
    }
    let n = pairs.len();
    let mut keys: Vec<String> = Vec::new();
    let mut vals: Vec<i32> = Vec::new();
    for k in 0..n
        invariant
            n == pairs@.len(),
            pv == Seq::new(pairs@.len(), |k: int| (pairs@[k].0@, pairs@[k].1)),
            pn == pair_names(pv),
            string_views(keys@) == distinct_names(pn.take(k as int)),
            vals@.len() == keys@.len(),
            forall|q: int| 0 <= q < keys@.len() ==> #[trigger] vals@[q] == last_score(pv.take(k as int), keys@[q]@),
    {
        let ghost before = pv.take(k as int);
        let ghost after = pv.take(k + 1);
        assert(after.drop_last() =~= before);
        assert(pair_names(after) =~= pn.take(k + 1));
        assert(pair_names(before) =~= pn.take(k as int));
        assert(pn.take(k + 1).drop_last() =~= pn.take(k as int));
        assert(pn.take(k + 1).last() == pairs@[k as int].0@);
        match find_name(&keys, &pairs[k].0) {
            Some(j) => {
                assert(string_views(keys@)[j as int] == pairs@[k as int].0@);
                vals.set(j, pairs[k].1);
                proof {
                    lemma_distinct_names(pn.take(k as int));
                    assert forall|q: int| 0 <= q < keys@.len() implies #[trigger] vals@[q] == last_score(after, keys@[q]@) by {
                        if q != j {
                            assert(string_views(keys@)[q] != string_views(keys@)[j as int]);
                        }
                    }
                }
            },
            None => {
                let ghost old_keys = keys@;
                keys.push(pairs[k].0.clone());
                vals.push(pairs[k].1);
                assert(string_views(keys@) =~= string_views(old_keys).push(pairs@[k as int].0@));
                assert forall|q: int| 0 <= q < keys@.len() implies #[trigger] vals@[q] == last_score(after, keys@[q]@) by {
                    if q < old_keys.len() {
                        assert(keys@[q] == old_keys[q]);
                        assert(string_views(old_keys)[q] != pairs@[k as int].0@);
                    }
                }
            },
        }
    }
    assert(pv.take(n as int) =~= pv);
    assert(pn.take(n as int) =~= pn);
    let m = keys.len();
    let mut out: Vec<(String, i32)> = Vec::new();
    for q in 0..m
        invariant
            m == keys@.len(),
            vals@.len() == m,
            string_views(keys@) == d,
            out@.len() == q,
            forall|k: int| 0 <= k < q ==> (#[trigger] out@[k]).0@ == d[k] && out@[k].1 == last_score(pv, d[k]),
            forall|k: int| 0 <= k < m ==> #[trigger] vals@[k] == last_score(pv, keys@[k]@),
    {
        assert(keys@[q as int]@ == d[q as int]);
        out.push((keys[q].clone(), vals[q]));
    }
    out
}

/// Every player among the first `n` holds a place in the standing, which
/// has `n` places.
pub open spec fn holds_every_player(e: Seq<Standing>, n: nat) -> bool {
    &&& e.len() == n
    &&& forall|i: usize| i < n ==> #[trigger] holds_place(e, i)
}

/// The player holds a place in the standing.
pub open spec fn holds_place(e: Seq<Standing>, i: usize) -> bool {
    exists|k: int| 0 <= k < e.len() && #[trigger] e[k].1 == i
}

/// Throughout a Swiss tournament every player holds a place in the
/// standing: ranking and settling a round neither loses nor adds players.
pub proof fn lemma_swiss_keeps_players<S: Strategy>(
    players: Seq<S>,
    game: Game,
    outcomes: Seq<Seq<(i32, i32)>>,
    states: Seq<Seq<Standing>>,
)
    requires
        swiss_history(players, game, outcomes, states),
        players.len() <= usize::MAX,
    ensures
        forall|r: int| 0 <= r < states.len() ==> holds_every_player(#[trigger] states[r], players.len()),
{
    assert forall|r: int| 0 <= r < states.len() implies holds_every_player(#[trigger] states[r], players.len()) by {
        lemma_swiss_keeps_players_upto(players, game, outcomes, states, r);
    }
}

proof fn lemma_swiss_keeps_players_upto<S: Strategy>(
    players: Seq<S>,
    game: Game,
    outcomes: Seq<Seq<(i32, i32)>>,
    states: Seq<Seq<Standing>>,
    r: int,
)
    requires
        swiss_history(players, game, outcomes, states),
        players.len() <= usize::MAX,
        0 <= r < states.len(),
    ensures
        holds_every_player(states[r], players.len()),
    decreases r,
{
    let n = players.len();
    if r == 0 {
        let e = states[0];
        assert forall|i: usize| i < n implies #[trigger] holds_place(e, i) by {
            assert(e[i as int].1 == i);
        }
    } else {
        lemma_swiss_keeps_players_upto(players, game, outcomes, states, r - 1);
        let before = states[r - 1];
        let after = states[r];
        assert(swiss_round(game, players, r - 1, before, outcomes[r - 1], after));
        let order = choose|order: Seq<usize>|
            is_ranking(standing_keys(before), order) && after == #[trigger] settle(reorder(before, order), outcomes[r - 1]);
        assert(is_ranking(standing_keys(before), order));
        assert forall|i: usize| i < n implies #[trigger] holds_place(after, i) by {
            assert(holds_place(before, i));
            let p = choose|k: int| 0 <= k < before.len() && #[trigger] before[k].1 == i;
            assert(order.contains(p as usize));
            let k = choose|k: int| 0 <= k < order.len() && order[k] == p as usize;
            assert(order[k] as int == p);
            assert(reorder(before, order)[k] == before[p]);
            assert(after[k].1 == reorder(before, order)[k].1);
        }
    }
}

/// Every score of the standing lies within `bound` in absolute value, and
/// every player is among the first `n`.
pub open spec fn standing_within(e: Seq<Standing>, n: nat, bound: int) -> bool {
    forall|k: int| 0 <= k < e.len() ==> (#[trigger] e[k]).1 < n && abs(e[k].0 as int) <= bound
}

fn reorder_standing(e: &Vec<Standing>, order: &Vec<usize>) -> (r: Vec<Standing>)
    requires
        forall|k: int| 0 <= k < order@.len() ==> #[trigger] order@[k] < e@.len(),
    ensures
        r@ == reorder(e@, order@),
{
    let n = order.len();
    let mut out: Vec<Standing> = Vec::new();
    for k in 0..n
        invariant
            n == order@.len(),
            forall|k: int| 0 <= k < order@.len() ==> #[trigger] order@[k] < e@.len(),
            out@.len() == k,
            forall|j: int| 0 <= j < k ==> #[trigger] out@[j] == e@[order@[j] as int],
    {
        out.push(e[order[k]]);
    }
    assert(out@ =~= reorder(e@, order@));
    out
}

/// Sorts the standing by descending score, equal scores in their current
/// order.
pub fn rank_standing(e: &Vec<Standing>) -> (r: Vec<Standing>)
    ensures
        exists|order: Seq<usize>| is_ranking(standing_keys(e@), order) && r@ == #[trigger] reorder(e@, order),
{
    let n = e.len();
    let mut keys: Vec<i128> = Vec::new();
    for k in 0..n
        invariant
            n == e@.len(),
            keys@.len() == k,
            forall|j: int| 0 <= j < k ==> keys@[j] == e@[j].0,
    {
        keys.push(e[k].0 as i128);
    }
    assert(key_values(keys@) =~= standing_keys(e@));
    let order = rank_descending(&keys);
    let r = reorder_standing(e, &order);
    assert(is_ranking(standing_keys(e@), order@) && r@ == reorder(e@, order@));
    r
}

/// Adds each pair's earnings to the sorted standing: the players at places
/// `2m` and `2m + 1` earned `outcomes[m]`.
pub fn settle_round(ranked: &Vec<Standing>, outcomes: &Vec<(i32, i32)>) -> (r: Vec<Standing>)
    requires
        forall|k: int|
            0 <= k < ranked@.len() && k / 2 < outcomes@.len() ==> i32::MIN <= (#[trigger] ranked@[k]).0
                + (if k % 2 == 0 {
                outcomes@[k / 2].0
            } else {
                outcomes@[k / 2].1
            }) <= i32::MAX,
    ensures
        r@ == settle(ranked@, outcomes@),
{
    let n = ranked.len();
    let mut out: Vec<Standing> = Vec::new();
    for k in 0..n
        invariant
            n == ranked@.len(),
            forall|k: int|
                0 <= k < ranked@.len() && k / 2 < outcomes@.len() ==> i32::MIN <= (#[trigger] ranked@[k]).0
                    + (if k % 2 == 0 {
                    outcomes@[k / 2].0
                } else {
                    outcomes@[k / 2].1
                }) <= i32::MAX,
            out@.len() == k,
            forall|j: int| 0 <= j < k ==> #[trigger] out@[j] == settle(ranked@, outcomes@)[j],
    {
        let (score, who) = ranked[k];
        if k / 2 < outcomes.len() {
            let earned = if k % 2 == 0 { outcomes[k / 2].0 } else { outcomes[k / 2].1 };
            assert(i32::MIN <= ranked@[k as int].0 + earned <= i32::MAX);
            out.push((score + earned, who));
        } else {
            out.push((score, who));
        }
    }
    assert(out@ =~= settle(ranked@, outcomes@));
    out
}

impl<S: Strategy> Tournament<S> {
    /// Whether the seeds and scores of a Swiss tournament of `rounds` rounds
    /// fit their integer types.
    pub open spec fn swiss_fits(&self, rounds: nat) -> bool {
        &&& rounds * self.strategies@.len() <= usize::MAX
        &&& self.game.match_fits()
        &&& rounds * self.match_bound() <= i32::MAX
    }

    /// Plays `rounds` Swiss rounds on copies of the strategies. Each round
    /// sorts the standing by descending score (stably, ties in their current
    /// order), pairs places 0 and 1, 2 and 3, and so on (the last place sits
    /// out when the number is odd), plays the pairs, seeding the match at
    /// place `i` in round `r` with the game's seed plus `r * n + i`
    /// (wrapping), and adds each player's score per round played, projected
    /// to the game's full length. Returns each name once, in order of
    /// first occurrence in the final standing, with the score of its last
    /// place there.
    pub fn run_swiss(&self, rounds: usize) -> (r: Vec<(String, i32)>)
        requires
            self.swiss_fits(rounds as nat),
        ensures
            exists|outcomes: Seq<Seq<(i32, i32)>>, states: Seq<Seq<Standing>>|
                #[trigger] swiss_history(self.strategies@, self.game, outcomes, states)
                && outcomes.len() == rounds
                && is_collected(named_standing(self.names(), states.last()), r@),
    {
        let n = self.strategies.len();
        let ghost bound = self.match_bound();
        let mut pop: Vec<S> = Vec::new();
        for k in 0..n
            invariant
                n == self.strategies@.len(),
                pop@.len() == k,
                forall|j: int| 0 <= j < k ==> (#[trigger] pop@[j]).label() == self.strategies@[j].label(),
                S::is_reactive() ==> forall|j: int| 0 <= j < k ==> same_play(#[trigger] pop@[j], self.strategies@[j]),
        {
            pop.push(self.strategies[k].clone_box());
        }
        assert(labels(pop@) =~= self.names());
        let mut standing: Vec<Standing> = Vec::new();
        for k in 0..n
            invariant
                standing@.len() == k,
                forall|j: int| 0 <= j < k ==> #[trigger] standing@[j] == (0i32, j as usize),
        {
            standing.push((0, k));
        }
        assert(standing@ =~= initial_standing(n as nat));
        let ghost mut outs: Seq<Seq<(i32, i32)>> = Seq::empty();
        let ghost mut states: Seq<Seq<Standing>> = seq![standing@];
        for r in 0..rounds
            invariant
                n == self.strategies@.len(),
                n == pop@.len(),
                labels(pop@) == self.names(),
                S::is_reactive() ==> forall|j: int| 0 <= j < n ==> same_play(#[trigger] pop@[j], self.strategies@[j]),
                self.swiss_fits(rounds as nat),
                bound == self.match_bound(),
                swiss_history(self.strategies@, self.game, outs, states),
                outs.len() == r,
                states.last() == standing@,
                standing@.len() == n,
                standing_within(standing@, n as nat, r * bound),
        {
            let ranked = rank_standing(&standing);
            let ghost order = choose|order: Seq<usize>| is_ranking(standing_keys(standing@), order) && ranked@ == #[trigger] reorder(standing@, order);
            proof {
                assert(is_ranking(standing_keys(standing@), order) && ranked@ == reorder(standing@, order));
                assert forall|k: int| 0 <= k < ranked@.len() implies (#[trigger] ranked@[k]).1 < n && abs(ranked@[k].0 as int) <= r * bound by {
                    assert(order[k] < standing@.len());
                    assert(ranked@[k] == standing@[order[k] as int]);
                }
            }
            let mut outcomes: Vec<(i32, i32)> = Vec::new();
            let half = n / 2;
            for m in 0..half
                invariant
                    n == self.strategies@.len(),
                    n == pop@.len(),
                    half == n / 2,
                    r < rounds,
                    self.swiss_fits(rounds as nat),
                    bound == self.match_bound(),
                    ranked@.len() == n,
                    forall|k: int| 0 <= k < ranked@.len() ==> (#[trigger] ranked@[k]).1 < n,
                    outcomes@.len() == m,
                    forall|j: int| 0 <= j < m ==> abs((#[trigger] outcomes@[j]).0 as int) <= bound && abs(outcomes@[j].1 as int) <= bound,
                    S::is_reactive() ==> forall|j: int| 0 <= j < n ==> same_play(#[trigger] pop@[j], self.strategies@[j]),
                    paired_matches(self.game, self.strategies@, r as int, ranked@, outcomes@),
            {
                let i = 2 * m;
                assert(ranked@[i as int].1 < n && ranked@[i + 1].1 < n);
                let mut s1 = pop[ranked[i].1].clone_box();
                let mut s2 = pop[ranked[i + 1].1].clone_box();
                assert(r * n + i < rounds * n) by (nonlinear_arith)
                    requires r < rounds, i < n;
                let offset = (r * n + i) as u64;
                let seed = match self.game.seed {
                    Some(s) => Some(s.wrapping_add(offset)),
                    None => None,
                };
                assert(self.game.seed is Some ==> seed == Some(offset_seed(self.game.seed->0, r * n + i)));
                let ghost c1 = s1;
                let ghost c2 = s2;
                let (a, b, h) = self.game.play(&mut s1, &mut s2, seed);
                let ghost mm = max_abs_payoff(self.game.payoffs);
                proof {
                    let p1 = self.strategies@[ranked@[i as int].1 as int];
                    let p2 = self.strategies@[ranked@[i + 1].1 as int];
                    if S::is_reactive() {
                        assert(same_play(pop@[ranked@[i as int].1 as int], p1));
                        assert(same_play(pop@[ranked@[i + 1].1 as int], p2));
                        assert(same_play(c1, p1));
                        assert(same_play(c2, p2));
                        if self.game.seed is Some {
                            let x = offset_seed(self.game.seed->0, r * n + i);
                            lemma_seed_fixes_match(
                                self.game,
                                c1,
                                p1,
                                c2,
                                p2,
                                crate::rng::key_of_seed(x),
                                (self.game.iterations + 1) as nat,
                            );
                            assert(h@ == seeded_history(self.game, p1, p2, x));
                        }
                    }
                    let flips = choose|flips: Seq<(bool, bool)>| #[trigger] match_history(self.game, c1, c2, h@, flips);
                    lemma_outcome_of_history(self.game, c1, p1, c2, p2, h@, flips);
                    lemma_totals_bounded(self.game.payoffs, h@);
                }
                let pa = project(a, h.len(), self.game.iterations, Ghost(mm));
                let pb = project(b, h.len(), self.game.iterations, Ghost(mm));
                let ghost prev = outcomes@;
                outcomes.push((pa, pb));
                assert forall|j: int| 0 <= j < m + 1 implies abs((#[trigger] outcomes@[j]).0 as int) <= bound && abs(outcomes@[j].1 as int) <= bound by {
                    if j < m {
                        assert(outcomes@[j] == prev[j]);
                    }
                }
                assert forall|j: int| 0 <= j < m + 1 implies possible_outcome(
                    self.game,
                    self.strategies@[ranked@[2 * j].1 as int],
                    self.strategies@[ranked@[2 * j + 1].1 as int],
                    (#[trigger] outcomes@[j]).0 as int,
                    outcomes@[j].1 as int,
                ) && (S::is_reactive() ==> match self.game.seed {
                    Some(x) => (outcomes@[j].0 as int, outcomes@[j].1 as int) == seeded_outcome(
                        self.game,
                        self.strategies@[ranked@[2 * j].1 as int],
                        self.strategies@[ranked@[2 * j + 1].1 as int],
                        offset_seed(x, r * self.strategies@.len() + 2 * j),
                    ),
                    None => true,
                }) by {
                    if j < m {
                        assert(outcomes@[j] == prev[j]);
                    }
                }
            }
            proof {
                assert(r * bound + bound == (r + 1) * bound) by (nonlinear_arith);
                assert((r + 1) * bound <= rounds * bound) by (nonlinear_arith)
                    requires r < rounds, bound >= 0;
                assert forall|k: int|
                    0 <= k < ranked@.len() && k / 2 < outcomes@.len() implies i32::MIN <= (#[trigger] ranked@[k]).0
                        + (if k % 2 == 0 { outcomes@[k / 2].0 } else { outcomes@[k / 2].1 }) <= i32::MAX by {
                    assert(abs(ranked@[k].0 as int) <= r * bound);
                    assert(abs(outcomes@[k / 2].0 as int) <= bound && abs(outcomes@[k / 2].1 as int) <= bound);
                }
            }
            let next = settle_round(&ranked, &outcomes);
            proof {
                assert(paired_matches(self.game, self.strategies@, r as int, reorder(standing@, order), outcomes@));
                assert(swiss_round(self.game, self.strategies@, r as int, standing@, outcomes@, next@));
                let old_outs = outs;
                let old_states = states;
                outs = outs.push(outcomes@);
                states = states.push(next@);
                assert forall|q: int| 0 <= q < outs.len() implies swiss_round(self.game, self.strategies@, q, states[q], #[trigger] outs[q], states[q + 1]) by {
                    if q < old_outs.len() {
                        assert(outs[q] == old_outs[q]);
                        assert(states[q] == old_states[q] && states[q + 1] == old_states[q + 1]);
                    } else {
                        assert(states[q] == old_states.last());
                    }
                }
                assert forall|k: int| 0 <= k < next@.len() implies (#[trigger] next@[k]).1 < n && abs(next@[k].0 as int) <= (r + 1) * bound by {
                    assert(abs(ranked@[k].0 as int) <= r * bound);
                    if k / 2 < outcomes@.len() {
                        assert(abs(outcomes@[k / 2].0 as int) <= bound && abs(outcomes@[k / 2].1 as int) <= bound);
                    }
                }
            }
            standing = next;
        }
        let mut pairs: Vec<(String, i32)> = Vec::new();
        for k in 0..n
            invariant
                n == self.strategies@.len(),
                n == pop@.len(),
                labels(pop@) == self.names(),
                standing@.len() == n,
                forall|j: int| 0 <= j < n ==> (#[trigger] standing@[j]).1 < n,
                pairs@.len() == k,
                forall|j: int| 0 <= j < k ==> (#[trigger] pairs@[j]).0@ == self.names()[standing@[j].1 as int] && pairs@[j].1 == standing@[j].0,
        {
            assert(standing@[k as int].1 < n);
            let who = standing[k].1;
            pairs.push((String::from_str(pop[who].name()), standing[k].0));
        }
        let r = collect_last_scores(&pairs);
        proof {
            assert(Seq::new(pairs@.len(), |k: int| (pairs@[k].0@, pairs@[k].1)) =~= named_standing(self.names(), standing@));
            assert(swiss_history(self.strategies@, self.game, outs, states) && outs.len() == rounds && is_collected(named_standing(self.names(), states.last()), r@));
        }
        r
    }
}

} // verus!
