use vstd::prelude::*;
use crate::ranking::{is_ranking, key_values, rank_descending, ranked_before};
use crate::scores::{
    count_names, distinct_names, is_count, lemma_count_total, lemma_distinct_names, string_views,
    sum_counts, MatchScore,
};
use crate::strategy::{labels, same_play, Strategy};
use crate::game::Game;
use crate::tournament::{
    all_played, lemma_round_robin_schedule, pairs_of, round_robin_outcome, round_robin_pairs,
    Tournament,
};

verus! {

/// The scores of a tally, in order.
pub open spec fn score_keys(scores: Seq<(String, i32)>) -> Seq<int> {
    Seq::new(scores.len(), |k: int| scores[k].1 as int)
}

/// `r` holds the entries of `scores` in the order that `order` gives.
pub open spec fn reordered(scores: Seq<(String, i32)>, order: Seq<usize>, r: Seq<(String, i32)>) -> bool {
    &&& r.len() == order.len()
    &&& forall|k: int|
        0 <= k < r.len() ==> (#[trigger] r[k]).0@ == scores[order[k] as int].0@ && r[k].1
            == scores[order[k] as int].1
}

/// `r` holds the entries of `scores` from the highest score down, entries
/// with equal scores in the order they are given.
pub open spec fn sorted_by_score(scores: Seq<(String, i32)>, r: Seq<(String, i32)>) -> bool {
    exists|order: Seq<usize>| is_ranking(score_keys(scores), order) && #[trigger] reordered(scores, order, r)
}

/// Sorts the entries by descending score; the sort is stable.
pub fn sort_scores_descending(scores: &Vec<(String, i32)>) -> (r: Vec<(String, i32)>)
    ensures
        sorted_by_score(scores@, r@),
{
    let n = scores.len();
    let mut keys: Vec<i128> = Vec::new();
    for k in 0..n
        invariant
            n == scores@.len(),
            keys@.len() == k,
            forall|i: int| 0 <= i < k ==> keys@[i] == scores@[i].1,
    {
        keys.push(scores[k].1 as i128);
    }
    assert(key_values(keys@) =~= score_keys(scores@));
    let order = rank_descending(&keys);
    let mut out: Vec<(String, i32)> = Vec::new();
    for k in 0..n
        invariant
            n == scores@.len(),
            is_ranking(score_keys(scores@), order@),
            out@.len() == k,
            forall|i: int|
                0 <= i < k ==> (#[trigger] out@[i]).0@ == scores@[order@[i] as int].0@ && out@[i].1
                    == scores@[order@[i] as int].1,
    {
        assert(order@[k as int] < n);
        let idx = order[k];
        out.push((scores[idx].0.clone(), scores[idx].1));
    }
    assert(reordered(scores@, order@, out@));
    out
}

/// `k` is the first position that holds the name `x`.
pub open spec fn is_first_named(names: Seq<Seq<char>>, x: Seq<char>, k: int) -> bool {
    &&& 0 <= k < names.len()
    &&& names[k] == x
    &&& forall|m: int| 0 <= m < k ==> names[m] != x
}

/// The rank whose individual the `s`-th member of the next generation
/// copies: the survivors first, then copies of the best in turn.
pub open spec fn survivor_slot(s: int, keep_count: int) -> int {
    if s < keep_count {
        s
    } else {
        (s - keep_count) % (if keep_count > 1 { keep_count } else { 1 })
    }
}

/// What individual `i` scored over the matches of `results`: its score in
/// each match it played first, and in each match it played second against
/// another individual.
pub open spec fn individual_total(results: Seq<MatchScore>, i: int) -> int
    decreases results.len(),
{
    if results.len() == 0 {
        0
    } else {
        let r = results.last();
        individual_total(results.drop_last(), i) + (if r.0 as int == i { r.2 as int } else { 0 }) + (
        if r.1 as int == i && r.0 != r.1 {
            r.3 as int
        } else {
            0
        })
    }
}

/// The totals of the first `n` individuals.
pub open spec fn individual_totals(results: Seq<MatchScore>, n: nat) -> Seq<int> {
    Seq::new(n, |i: int| individual_total(results, i))
}

/// The individual totals of a round robin's matches, for `n` individuals.
pub fn sum_individuals(n: usize, results: &Vec<MatchScore>) -> (r: Vec<i128>)
    requires
        forall|k: int| 0 <= k < results@.len() ==> (#[trigger] results@[k]).0 < n && results@[k].1 < n,
    ensures
        key_values(r@) == individual_totals(results@, n as nat),
{
    let mut totals: Vec<i128> = Vec::new();
    for i in 0..n
        invariant
            totals@.len() == i,
            forall|j: int| 0 <= j < i ==> #[trigger] totals@[j] == 0,
    {
        totals.push(0);
    }
    let m = results.len();
    for k in 0..m
        invariant
            m == results@.len(),
            totals@.len() == n,
            forall|t: int| 0 <= t < results@.len() ==> (#[trigger] results@[t]).0 < n && results@[t].1 < n,
            forall|i: int| 0 <= i < n ==> #[trigger] totals@[i] as int == individual_total(results@.take(k as int), i),
            forall|i: int| 0 <= i < n ==> -(k * 0x1_0000_0000) <= #[trigger] totals@[i] <= k * 0x1_0000_0000,
    {
        let (a, b, sa, sb) = results[k];
        proof {
            assert(results@.take(k + 1).drop_last() =~= results@.take(k as int));
            assert(k * 0x1_0000_0000 + 0x1_0000_0000 == (k + 1) * 0x1_0000_0000);
            assert((k + 1) * 0x1_0000_0000 <= 0x1_0000_0000 * 0x1_0000_0000_0000_0000) by (nonlinear_arith)
                requires k < m, m <= usize::MAX;
        }
        let ta = totals[a] + sa as i128;
        totals.set(a, ta);
        if a != b {
            let tb = totals[b] + sb as i128;
            totals.set(b, tb);
        }
    }
    assert(results@.take(m as int) =~= results@);
    assert(key_values(totals@) =~= individual_totals(results@, n as nat));
    totals
}

/// `after` is the generation that follows `before` under `game`: the
/// population played a round robin (every match a possible match between
/// the two individuals), the individuals were ranked by what each scored
/// (stably, from the highest down; every individual plays one match against
/// each member, itself included, so this is the ranking by score per match
/// played), and the `s`-th member of `after` is a copy of the individual at
/// rank `survivor_slot(s, keep_count)`: the same name, and for reactive
/// strategies the same play.
pub open spec fn evolution_step<S: Strategy>(before: Seq<S>, game: Game, keep_count: int, after: Seq<S>) -> bool {
    exists|results: Seq<MatchScore>, order: Seq<usize>|
        #![trigger pairs_of(results), is_ranking(individual_totals(results, before.len()), order)]
        pairs_of(results) == round_robin_pairs(before.len()) && all_played(game, before, results)
            && is_ranking(individual_totals(results, before.len()), order) && after.len() == before.len()
            && forall|s: int|
            0 <= s < after.len() ==> (#[trigger] after[s]).label() == before[order[survivor_slot(
                s,
                keep_count,
            )] as int].label() && (S::is_reactive() ==> same_play(
                after[s],
                before[order[survivor_slot(s, keep_count)] as int],
            ))
}

/// The next generation keeps the `keep_count` best individuals, in rank
/// order, and its remaining places cycle through them from the best: the
/// member at place `s >= keep_count` copies the individual at rank
/// `(s - keep_count) mod keep_count`, or the best one when none survives.
pub proof fn lemma_next_generation_cycles<S: Strategy>(before: Seq<S>, game: Game, keep_count: int, after: Seq<S>)
    requires
        evolution_step(before, game, keep_count, after),
        0 <= keep_count,
    ensures
        exists|results: Seq<MatchScore>, order: Seq<usize>|
            #![trigger pairs_of(results), is_ranking(individual_totals(results, before.len()), order)]
            pairs_of(results) == round_robin_pairs(before.len()) && all_played(game, before, results)
                && is_ranking(individual_totals(results, before.len()), order) && after.len() == before.len()
                && (forall|s: int|
                0 <= s < after.len() && s < keep_count ==> (#[trigger] after[s]).label()
                    == before[order[s] as int].label())
                && (forall|s: int|
                0 <= s < after.len() && keep_count <= s && keep_count > 0 ==> (#[trigger] after[s]).label()
                    == before[order[(s - keep_count) % keep_count] as int].label())
                && (forall|s: int|
                0 <= s < after.len() && keep_count == 0 ==> (#[trigger] after[s]).label()
                    == before[order[0] as int].label()),
{
    let (results, order) = choose|results: Seq<MatchScore>, order: Seq<usize>|
        pairs_of(results) == round_robin_pairs(before.len()) && all_played(game, before, results)
            && is_ranking(individual_totals(results, before.len()), order) && after.len() == before.len()
            && forall|s: int|
            0 <= s < after.len() ==> (#[trigger] after[s]).label() == before[order[survivor_slot(
                s,
                keep_count,
            )] as int].label() && (S::is_reactive() ==> same_play(
                after[s],
                before[order[survivor_slot(s, keep_count)] as int],
            ));
    assert forall|s: int|
        0 <= s < after.len() && keep_count == 0 implies (#[trigger] after[s]).label() == before[order[0] as int].label() by {
        assert(survivor_slot(s, keep_count) == 0);
    }
}

/// Each population of `pops` is the generation that follows the one before.
pub open spec fn evolution_history<S: Strategy>(pops: Seq<Seq<S>>, game: Game, keep_count: int) -> bool {
    forall|g: int| 0 <= g < pops.len() - 1 ==> evolution_step(#[trigger] pops[g], game, keep_count, pops[g + 1])
}

/// The populations and recorded counts of a run of evolution.
pub open spec fn evolution_outcome<S: Strategy>(
    first: Seq<S>,
    last: Seq<S>,
    game: Game,
    keep_count: int,
    pops: Seq<Seq<S>>,
    counts: Seq<Vec<(String, usize)>>,
) -> bool {
    &&& pops.len() == counts.len()
    &&& pops.len() > 0
    &&& pops[0] == first
    &&& pops.last() == last
    &&& evolution_history(pops, game, keep_count)
    &&& forall|g: int| 0 <= g < pops.len() ==> is_count(labels(#[trigger] pops[g]), counts[g]@)
}

/// A generation carries only names of the one before, and as many members.
pub proof fn lemma_step_names<S: Strategy>(before: Seq<S>, game: Game, keep_count: int, after: Seq<S>)
    requires
        evolution_step(before, game, keep_count, after),
    ensures
        after.len() == before.len(),
        forall|x: Seq<char>| labels(after).contains(x) ==> labels(before).contains(x),
{
    let (results, order) = choose|results: Seq<MatchScore>, order: Seq<usize>|
        pairs_of(results) == round_robin_pairs(before.len()) && all_played(game, before, results)
            && is_ranking(individual_totals(results, before.len()), order) && after.len() == before.len()
            && forall|s: int|
            0 <= s < after.len() ==> (#[trigger] after[s]).label() == before[order[survivor_slot(
                s,
                keep_count,
            )] as int].label() && (S::is_reactive() ==> same_play(
                after[s],
                before[order[survivor_slot(s, keep_count)] as int],
            ));
    assert forall|x: Seq<char>| labels(after).contains(x) implies labels(before).contains(x) by {
        let t = choose|t: int| 0 <= t < labels(after).len() && labels(after)[t] == x;
        let slot = survivor_slot(t, keep_count);
        let k = order[slot] as int;
        assert(0 <= slot < order.len()) by {
            if t >= keep_count {
                let m = if keep_count > 1 { keep_count } else { 1 };
                assert(0 <= (t - keep_count) % m < m);
            }
        }
        assert(0 <= k < before.len());
        assert(labels(before)[k] == x);
    }
}

/// Throughout a run of evolution the population keeps its size and carries
/// only names of the first one: every generation's recorded counts add up
/// to the population's size and count no new name.
pub proof fn lemma_evolution_counts<S: Strategy>(
    first: Seq<S>,
    last: Seq<S>,
    game: Game,
    keep_count: int,
    pops: Seq<Seq<S>>,
    counts: Seq<Vec<(String, usize)>>,
)
    requires
        evolution_outcome(first, last, game, keep_count, pops, counts),
    ensures
        forall|g: int| 0 <= g < pops.len() ==> #[trigger] pops[g].len() == first.len(),
        forall|g: int| 0 <= g < counts.len() ==> sum_counts(#[trigger] counts[g]@) == first.len(),
        forall|g: int, k: int|
            0 <= g < counts.len() && 0 <= k < counts[g]@.len() ==> labels(first).contains(
                (#[trigger] counts[g]@[k]).0@,
            ),
{
    assert forall|g: int| 0 <= g < pops.len() implies #[trigger] pops[g].len() == first.len()
        && forall|x: Seq<char>| labels(pops[g]).contains(x) ==> labels(first).contains(x) by {
        lemma_evolution_prefix(first, game, keep_count, pops, g);
    }
    assert forall|g: int| 0 <= g < counts.len() implies sum_counts(#[trigger] counts[g]@) == first.len() by {
        assert(is_count(labels(pops[g]), counts[g]@));
        lemma_count_total(labels(pops[g]), counts[g]@);
        assert(pops[g].len() == first.len());
    }
    assert forall|g: int, k: int|
        0 <= g < counts.len() && 0 <= k < counts[g]@.len() implies labels(first).contains(
            (#[trigger] counts[g]@[k]).0@,
        ) by {
        assert(is_count(labels(pops[g]), counts[g]@));
        let d = distinct_names(labels(pops[g]));
        lemma_distinct_names(labels(pops[g]));
        assert(counts[g]@[k].0@ == d[k]);
        assert(d.contains(d[k]));
        assert(pops[g].len() == first.len());
    }
}

proof fn lemma_evolution_prefix<S: Strategy>(
    first: Seq<S>,
    game: Game,
    keep_count: int,
    pops: Seq<Seq<S>>,
    g: int,
)
    requires
        pops.len() > 0,
        pops[0] == first,
        evolution_history(pops, game, keep_count),
        0 <= g < pops.len(),
    ensures
        pops[g].len() == first.len(),
        forall|x: Seq<char>| labels(pops[g]).contains(x) ==> labels(first).contains(x),
    decreases g,
{
    if g > 0 {
        lemma_evolution_prefix(first, game, keep_count, pops, g - 1);
        assert(evolution_step(pops[g - 1], game, keep_count, pops[g]));
        lemma_step_names(pops[g - 1], game, keep_count, pops[g]);
    }
}

impl<S: Strategy> Tournament<S> {
    /// One generation: plays a round robin on copies of the population,
    /// ranks the individuals by what each scored (stably, from the highest
    /// down), and replaces the population: the `keep_count` best individuals
    /// survive and the remaining places go to copies of the best in turn.
    fn evolve_once(&mut self, keep_count: usize) -> (counts: Vec<(String, usize)>)
        requires
            old(self).schedule_fits(),
            keep_count <= old(self).strategies@.len(),
        ensures
            final(self).game == old(self).game,
            final(self).strategies@.len() == old(self).strategies@.len(),
            is_count(old(self).names(), counts@),
            evolution_step(old(self).strategies@, old(self).game, keep_count as int, final(self).strategies@),
    {
        let n = self.strategies.len();
        let ghost game = self.game;
        let ghost before = self.strategies@;
        let names = self.strategy_names();
        let counts = count_names(&names);
        let results = self.play_round_robin();
        proof {
            lemma_round_robin_schedule(n as nat);
            assert forall|k: int| 0 <= k < results@.len() implies (#[trigger] results@[k]).0 < n && results@[k].1 < n by {
                assert(pairs_of(results@)[k] == round_robin_pairs(n as nat)[k]);
            }
        }
        let totals = sum_individuals(n, &results);
        let order = rank_descending(&totals);
        let mut next: Vec<S> = Vec::new();
        for s in 0..n
            invariant
                n == self.strategies@.len(),
                before == self.strategies@,
                keep_count <= n,
                is_ranking(key_values(totals@), order@),
                key_values(totals@) == individual_totals(results@, n as nat),
                next@.len() == s,
                forall|t: int|
                    0 <= t < s ==> (#[trigger] next@[t]).label() == before[order@[survivor_slot(t, keep_count as int)] as int].label()
                        && (S::is_reactive() ==> same_play(next@[t], before[order@[survivor_slot(t, keep_count as int)] as int])),
        {
            let slot = if s < keep_count {
                s
            } else {
                let m = if keep_count > 1 { keep_count } else { 1 };
                (s - keep_count) % m
            };
            assert(slot == survivor_slot(s as int, keep_count as int));
            assert(slot < n);
            let who = order[slot];
            let ghost prev = next@;
            next.push(self.strategies[who].clone_box());
            assert forall|t: int|
                0 <= t < s + 1 implies (#[trigger] next@[t]).label() == before[order@[survivor_slot(t, keep_count as int)] as int].label()
                    && (S::is_reactive() ==> same_play(next@[t], before[order@[survivor_slot(t, keep_count as int)] as int])) by {
                if t < s {
                    assert(next@[t] == prev[t]);
                }
            }
        }
        proof {
            assert(is_ranking(individual_totals(results@, before.len()), order@));
            assert(evolution_step(before, game, keep_count as int, next@));
        }
        self.strategies = next;
        counts
    }

    /// Runs `generations` rounds of selection. Each generation records how
    /// many individuals carry each name, plays a round robin, ranks the
    /// individuals by what each scored per match played, and replaces the
    /// population: the `keep_count` best individuals survive and the
    /// remaining places go to copies of the best in turn. Returns a final
    /// round robin and the counts of every generation, the final one
    /// included. A population of `n` with reproduction rate `rate` keeps
    /// `floor(n * (1 - rate))` individuals each generation.
    pub fn run_evolution(&mut self, generations: usize, keep_count: usize) -> (r: (
        Vec<(String, i32)>,
        Vec<Vec<(String, usize)>>,
    ))
        requires
            old(self).population_fits(),
            generations > 0 ==> keep_count <= old(self).strategies@.len(),
        ensures
            final(self).game == old(self).game,
            final(self).strategies@.len() == old(self).strategies@.len(),
            generations == 0 ==> final(self).strategies@ == old(self).strategies@,
            forall|x: Seq<char>| final(self).names().contains(x) ==> old(self).names().contains(x),
            r.1@.len() == generations + 1,
            forall|g: int| 0 <= g < r.1@.len() ==> sum_counts(#[trigger] r.1@[g]@) == old(self).strategies@.len(),
            forall|g: int, k: int|
                0 <= g < r.1@.len() && 0 <= k < r.1@[g]@.len() ==> old(self).names().contains(
                    (#[trigger] r.1@[g]@[k]).0@,
                ),
            exists|pops: Seq<Seq<S>>|
                #[trigger] evolution_outcome(
                    old(self).strategies@,
                    final(self).strategies@,
                    old(self).game,
                    keep_count as int,
                    pops,
                    r.1@,
                ),
            exists|results|
                #[trigger] round_robin_outcome(final(self).names(), final(self).game, results, r.0@)
                    && all_played(final(self).game, final(self).strategies@, results),
    {
        let ghost first = self.strategies@;
        let ghost game = self.game;
        let ghost mut pops: Seq<Seq<S>> = seq![first];
        let n = self.strategies.len();
        let mut history: Vec<Vec<(String, usize)>> = Vec::new();
        for g in 0..generations
            invariant
                self.game == old(self).game,
                self.strategies@.len() == n,
                n == old(self).strategies@.len(),
                first == old(self).strategies@,
                self.population_fits(),
                generations > 0 ==> keep_count <= n,
                g == 0 ==> self.strategies@ == first,
                history@.len() == g,
                game == self.game,
                pops.len() == g + 1,
                pops[0] == first,
                pops.last() == self.strategies@,
                evolution_history(pops, game, keep_count as int),
                forall|h: int| 0 <= h < g ==> is_count(labels(#[trigger] pops[h]), history@[h]@),
        {
            let counts = self.evolve_once(keep_count);
            let ghost old_history = history@;
            history.push(counts);
            proof {
                let old_pops = pops;
                pops = pops.push(self.strategies@);
                assert forall|q: int| 0 <= q < pops.len() - 1 implies evolution_step(
                    #[trigger] pops[q],
                    game,
                    keep_count as int,
                    pops[q + 1],
                ) by {
                    if q < old_pops.len() - 1 {
                        assert(pops[q] == old_pops[q] && pops[q + 1] == old_pops[q + 1]);
                    } else {
                        assert(pops[q] == old_pops.last());
                    }
                }
                assert forall|h: int| 0 <= h < g + 1 implies is_count(labels(#[trigger] pops[h]), history@[h]@) by {
                    assert(pops[h] == old_pops[h]);
                    if h < g {
                        assert(history@[h] == old_history[h]);
                    }
                }
            }
        }
        let names = self.strategy_names();
        let counts = count_names(&names);
        let ghost old_history = history@;
        history.push(counts);
        proof {
            assert forall|h: int| 0 <= h < pops.len() implies is_count(labels(#[trigger] pops[h]), history@[h]@) by {
                if h < generations {
                    assert(history@[h] == old_history[h]);
                }
            }
            assert(evolution_outcome(first, self.strategies@, game, keep_count as int, pops, history@));
            lemma_evolution_prefix(first, game, keep_count as int, pops, pops.len() - 1);
            lemma_evolution_counts(first, self.strategies@, game, keep_count as int, pops, history@);
        }
        proof {
            self.lemma_population_fits();
        }
        let scores = self.run_round_robin();
        let ghost res = choose|results| #[trigger] round_robin_outcome(self.names(), self.game, results, scores@)
            && all_played(self.game, self.strategies@, results);
        let r = (scores, history);
        assert(round_robin_outcome(self.names(), self.game, res, r.0@) && all_played(self.game, self.strategies@, res));
        r
    }
}

} // verus!
