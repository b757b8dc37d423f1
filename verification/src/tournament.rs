use vstd::prelude::*;
use crate::game::{
    abs, lemma_outcome_of_history, lemma_seed_fixes_match, lemma_totals_bounded, match_history,
    max_abs_payoff, possible_outcome, project, seeded_history, seeded_outcome, Game,
};
use crate::scores::{
    appearances, count_of, earned_abs, is_tally, lemma_count_le_len, lemma_earned_abs_bounded,
    match_pairs, players_within, string_views, tally_scores, MatchScore,
};
use crate::strategy::{labels, Strategy};

verus! {

/// The matches that row `i` of a round robin among `n` players holds:
/// player `i` against every player from `i` on.
pub open spec fn round_robin_row(i: nat, n: nat) -> Seq<(usize, usize)> {
    Seq::new((n - i) as nat, |k: int| (i as usize, (i + k) as usize))
}

/// The first `i` rows of a round robin among `n` players.
pub open spec fn round_robin_rows(i: nat, n: nat) -> Seq<(usize, usize)>
    decreases i,
{
    if i == 0 {
        Seq::empty()
    } else {
        round_robin_rows((i - 1) as nat, n) + round_robin_row((i - 1) as nat, n)
    }
}

/// Every pair `(i, j)` with `i <= j < n`, in lexicographic order: each
/// player meets every other once, and itself once.
pub open spec fn round_robin_pairs(n: nat) -> Seq<(usize, usize)> {
    round_robin_rows(n, n)
}

/// The players of each match.
pub open spec fn pairs_of(results: Seq<MatchScore>) -> Seq<(usize, usize)> {
    Seq::new(results.len(), |k: int| (results[k].0, results[k].1))
}

/// Every score lies within `bound` in absolute value.
pub open spec fn scores_bounded(results: Seq<MatchScore>, bound: int) -> bool {
    forall|k: int|
        0 <= k < results.len() ==> abs((#[trigger] results[k]).2 as int) <= bound && abs(
            results[k].3 as int,
        ) <= bound
}

/// The game's seed plus `offset`, wrapping.
pub open spec fn offset_seed(seed: u64, offset: int) -> u64 {
    if seed + offset > u64::MAX {
        (seed + offset - 0x1_0000_0000_0000_0000) as u64
    } else {
        (seed + offset) as u64
    }
}

/// Every match's scores are those of a possible match between the two
/// strategies that it names, each projected from the rounds played to the
/// game's full length; between reactive strategies under a seeded game,
/// those of the match seeded with the game's seed plus `i * n + j` for the
/// match `(i, j)` among `n` strategies.
pub open spec fn all_played<S: Strategy>(game: Game, strategies: Seq<S>, results: Seq<MatchScore>) -> bool {
    forall|k: int|
        0 <= k < results.len() ==> possible_outcome(
            game,
            strategies[(#[trigger] results[k]).0 as int],
            strategies[results[k].1 as int],
            results[k].2 as int,
            results[k].3 as int,
        ) && (S::is_reactive() ==> match game.seed {
            Some(x) => (results[k].2 as int, results[k].3 as int) == seeded_outcome(
                game,
                strategies[results[k].0 as int],
                strategies[results[k].1 as int],
                offset_seed(x, results[k].0 * strategies.len() + results[k].1),
            ),
            None => true,
        })
}

/// `r` is the tally of a round robin among the named players under `game`,
/// whose matches scored `results`.
pub open spec fn round_robin_outcome(
    names: Seq<Seq<char>>,
    game: Game,
    results: Seq<MatchScore>,
    r: Seq<(String, i32)>,
) -> bool {
    &&& pairs_of(results) == round_robin_pairs(names.len())
    &&& is_tally(names, results, r)
}

proof fn lemma_rows_len(i: nat, n: nat)
    requires
        i <= n,
    ensures
        2 * round_robin_rows(i, n).len() == i * (2 * n - i + 1),
    decreases i,
{
    if i > 0 {
        let j: int = i - 1;
        lemma_rows_len(j as nat, n);
        assert(2 * round_robin_rows(i, n).len() == j * (2 * n - j + 1) + 2 * (n - j));
        assert(j * (2 * n - j + 1) + 2 * (n - j) == (j + 1) * (2 * n - (j + 1) + 1))
            by (nonlinear_arith);
    } else {
        assert(round_robin_rows(0, n).len() == 0);
    }
}

proof fn lemma_rows_in_range(i: nat, n: nat)
    requires
        i <= n,
    ensures
        forall|k: int|
            0 <= k < round_robin_rows(i, n).len() ==> (#[trigger] round_robin_rows(i, n)[k]).0 < n
                && round_robin_rows(i, n)[k].1 < n,
    decreases i,
{
    if i > 0 {
        lemma_rows_in_range((i - 1) as nat, n);
        let a = round_robin_rows((i - 1) as nat, n);
        let b = round_robin_row((i - 1) as nat, n);
        assert forall|k: int| 0 <= k < round_robin_rows(i, n).len() implies (
        #[trigger] round_robin_rows(i, n)[k]).0 < n && round_robin_rows(i, n)[k].1 < n by {
            if k >= a.len() {
                assert(round_robin_rows(i, n)[k] == b[k - a.len()]);
            } else {
                assert(round_robin_rows(i, n)[k] == a[k]);
            }
        }
    }
}

proof fn lemma_rows_shape(i: nat, n: nat)
    requires
        i <= n,
        n <= usize::MAX,
    ensures
        forall|k: int|
            0 <= k < round_robin_rows(i, n).len() ==> (#[trigger] round_robin_rows(i, n)[k]).0 < i
                && round_robin_rows(i, n)[k].0 <= round_robin_rows(i, n)[k].1 < n,
        round_robin_rows(i, n).no_duplicates(),
        forall|a: usize, b: usize| a < i && a <= b < n ==> #[trigger] round_robin_rows(i, n).contains((a, b)),
    decreases i,
{
    if i > 0 {
        let j = (i - 1) as nat;
        lemma_rows_shape(j, n);
        let a = round_robin_rows(j, n);
        let b = round_robin_row(j, n);
        let all = round_robin_rows(i, n);
        assert(all == a + b);
        assert forall|k: int| 0 <= k < all.len() implies (#[trigger] all[k]).0 < i && all[k].0 <= all[k].1 < n by {
            if k >= a.len() {
                assert(all[k] == b[k - a.len()]);
                assert(b[k - a.len()] == (j as usize, (j + (k - a.len())) as usize));
            } else {
                assert(all[k] == a[k]);
            }
        }
        assert forall|p: int, q: int| 0 <= p < all.len() && 0 <= q < all.len() && p != q implies all[p] != all[q] by {
            if p < a.len() && q < a.len() {
                assert(all[p] == a[p] && all[q] == a[q]);
            } else if p >= a.len() && q >= a.len() {
                assert(all[p] == b[p - a.len()] && all[q] == b[q - a.len()]);
                assert(b[p - a.len()] == (j as usize, (j + (p - a.len())) as usize));
                assert(b[q - a.len()] == (j as usize, (j + (q - a.len())) as usize));
            } else if p < a.len() {
                assert(all[p] == a[p] && all[q] == b[q - a.len()]);
                assert(a[p].0 < j);
                assert(b[q - a.len()].0 == j);
            } else {
                assert(all[q] == a[q] && all[p] == b[p - a.len()]);
                assert(a[q].0 < j);
                assert(b[p - a.len()].0 == j);
            }
        }
        assert forall|x: usize, y: usize| x < i && x <= y < n implies #[trigger] all.contains((x, y)) by {
            if x < j {
                assert(a.contains((x, y)));
                let k = choose|k: int| 0 <= k < a.len() && a[k] == (x, y);
                assert(all[k] == (x, y));
            } else {
                let k = y - j;
                assert(b[k] == (x, y));
                assert(all[a.len() + k] == (x, y));
            }
        }
    }
}

/// In a round robin among `n` players every player meets every other
/// exactly once and itself exactly once: the schedule holds each pair
/// `(i, j)` with `i <= j < n` once, and nothing else.
pub proof fn lemma_round_robin_schedule(n: nat)
    requires
        n <= usize::MAX,
    ensures
        round_robin_pairs(n).no_duplicates(),
        forall|k: int|
            0 <= k < round_robin_pairs(n).len() ==> (#[trigger] round_robin_pairs(n)[k]).0
                <= round_robin_pairs(n)[k].1 < n,
        forall|a: usize, b: usize| a <= b < n ==> #[trigger] round_robin_pairs(n).contains((a, b)),
        2 * round_robin_pairs(n).len() == n * (n + 1),
{
    lemma_rows_shape(n, n);
    lemma_rows_len(n, n);
    assert(n * (2 * n - n + 1) == n * (n + 1));
}

proof fn lemma_appearances_concat(
    names: Seq<Seq<char>>,
    p: Seq<(usize, usize)>,
    q: Seq<(usize, usize)>,
    x: Seq<char>,
)
    ensures
        appearances(names, p + q, x) == appearances(names, p, x) + appearances(names, q, x),
    decreases q.len(),
{
    if q.len() > 0 {
        lemma_appearances_concat(names, p, q.drop_last(), x);
        assert((p + q).drop_last() =~= p + q.drop_last());
    } else {
        assert(p + q =~= p);
    }
}

proof fn lemma_count_push(names: Seq<Seq<char>>, a: int, b: int, x: Seq<char>)
    requires
        0 <= a <= b < names.len(),
    ensures
        count_of(names.subrange(a, b + 1), x) == count_of(names.subrange(a, b), x) + (if names[b] == x {
            1int
        } else {
            0int
        }),
{
    assert(names.subrange(a, b + 1).drop_last() =~= names.subrange(a, b));
}

proof fn lemma_count_front(s: Seq<Seq<char>>, x: Seq<char>)
    requires
        s.len() > 0,
    ensures
        count_of(s, x) == (if s[0] == x { 1int } else { 0int }) + count_of(s.subrange(1, s.len() as int), x),
    decreases s.len(),
{
    if s.len() > 1 {
        lemma_count_front(s.drop_last(), x);
        assert(s.drop_last().subrange(1, s.len() - 1) =~= s.subrange(1, s.len() as int).drop_last());
    } else {
        assert(s.subrange(1, s.len() as int) =~= Seq::<Seq<char>>::empty());
        assert(s.drop_last() =~= Seq::<Seq<char>>::empty());
    }
}

proof fn lemma_row_appearances(names: Seq<Seq<char>>, i: nat, n: nat, x: Seq<char>, k: nat)
    requires
        names.len() == n,
        n <= usize::MAX,
        i < n,
        1 <= k <= n - i,
    ensures
        appearances(names, round_robin_row(i, n).take(k as int), x) == k * (if names[i as int] == x {
            1int
        } else {
            0int
        }) + count_of(names.subrange(i + 1int, i + k as int), x),
    decreases k,
{
    let row = round_robin_row(i, n);
    let e: int = if names[i as int] == x { 1int } else { 0int };
    assert((i as usize) as int == i);
    if k == 1 {
        assert(row.take(1).drop_last() =~= Seq::<(usize, usize)>::empty());
        assert(row.take(1).last() == (i as usize, i as usize));
        assert(names.subrange(i + 1int, i + 1int) =~= Seq::<Seq<char>>::empty());
        assert(count_of(names.subrange(i + 1int, i + 1int), x) == 0);
        assert(appearances(names, row.take(1).drop_last(), x) == 0);
        assert(appearances(names, row.take(1), x) == e);
    } else {
        assert(((i + k - 1) as usize) as int == i + k - 1);
        lemma_row_appearances(names, i, n, x, (k - 1) as nat);
        assert(row.take(k as int).drop_last() =~= row.take(k - 1));
        assert(row.take(k as int).last() == (i as usize, (i + k - 1) as usize));
        lemma_count_push(names, i + 1int, i + k - 1int, x);
        assert(k * e == (k - 1) * e + e) by (nonlinear_arith);
    }
}

proof fn lemma_rows_appearances(names: Seq<Seq<char>>, i: nat, n: nat, x: Seq<char>)
    requires
        names.len() == n,
        i <= n,
        n <= usize::MAX,
    ensures
        appearances(names, round_robin_rows(i, n), x) == n * count_of(names.subrange(0, i as int), x) + i
            * count_of(names.subrange(i as int, n as int), x),
    decreases i,
{
    if i == 0 {
        assert(names.subrange(0, 0) =~= Seq::<Seq<char>>::empty());
        assert(count_of(names.subrange(0, 0), x) == 0);
        let c = count_of(names.subrange(0, n as int), x);
        assert(n * 0 + 0 * c == 0) by (nonlinear_arith);
    } else {
        let j = (i - 1) as nat;
        lemma_rows_appearances(names, j, n, x);
        lemma_appearances_concat(names, round_robin_rows(j, n), round_robin_row(j, n), x);
        lemma_row_appearances(names, j, n, x, (n - j) as nat);
        assert(round_robin_row(j, n).take(n - j) =~= round_robin_row(j, n));
        lemma_count_push(names, 0, j as int, x);
        lemma_count_front(names.subrange(j as int, n as int), x);
        assert(names.subrange(j as int, n as int).subrange(1, n - j) =~= names.subrange(j + 1int, n as int));
        assert(names.subrange(j + 1int, j + (n - j)) =~= names.subrange(j + 1int, n as int));
        let e: int = if names[j as int] == x { 1int } else { 0int };
        let ca = count_of(names.subrange(0, j as int), x) as int;
        let cb = count_of(names.subrange(j + 1int, n as int), x) as int;
        assert(n * (ca + e) + (j + 1) * cb == n * ca + j * (e + cb) + ((n - j) * e + cb)) by (nonlinear_arith);
    }
}

/// In a round robin every player takes one score from each of the `n`
/// matches it plays: a name carried `c` times takes `c * n` scores.
pub proof fn lemma_round_robin_appearances(names: Seq<Seq<char>>, x: Seq<char>)
    requires
        names.len() <= usize::MAX,
    ensures
        appearances(names, round_robin_pairs(names.len()), x) == names.len() * count_of(names, x),
{
    let n = names.len();
    lemma_rows_appearances(names, n, n, x);
    assert(names.subrange(0, n as int) =~= names);
    assert(names.subrange(n as int, n as int) =~= Seq::<Seq<char>>::empty());
    assert(count_of(names.subrange(n as int, n as int), x) == 0);
    let c = count_of(names, x);
    assert(n * c + n * 0 == n * c) by (nonlinear_arith);
}

/// A round robin of strategies under one game.
pub struct Tournament<S: Strategy> {
    pub strategies: Vec<S>,
    pub game: Game,
}

impl<S: Strategy> Tournament<S> {
    pub fn new(strategies: Vec<S>, game: Game) -> (r: Self)
        ensures
            r.strategies == strategies,
            r.game == game,
    {
        Tournament { strategies, game }
    }

    /// The names of the strategies, in order.
    pub open spec fn names(&self) -> Seq<Seq<char>> {
        labels(self.strategies@)
    }

    /// The largest score, in absolute value, that one player can make in a
    /// match of this tournament.
    pub open spec fn match_bound(&self) -> int {
        self.game.iterations * max_abs_payoff(self.game.payoffs)
    }

    /// Whether the matches of a round robin can be played: their seeds fit
    /// and the game's matches can be played.
    pub open spec fn schedule_fits(&self) -> bool {
        let n = self.strategies@.len();
        &&& n * n <= usize::MAX
        &&& self.game.match_fits()
    }

    /// Whether a round robin fits the integer types: its matches can be
    /// played, and every name's total fits however the matches go (a name
    /// carried `c` times takes `c * n` scores, each at most the largest
    /// score of a match).
    pub open spec fn round_robin_fits(&self) -> bool {
        &&& self.schedule_fits()
        &&& forall|x: Seq<char>|
            #[trigger] count_of(self.names(), x) * self.strategies@.len() * self.match_bound() <= i32::MAX
    }

    /// Whether a round robin fits the integer types whatever names the
    /// strategies carry: even one name carried by all of them.
    pub open spec fn population_fits(&self) -> bool {
        let n = self.strategies@.len();
        &&& self.schedule_fits()
        &&& n * n * self.match_bound() <= i32::MAX
    }

    /// A population that fits whatever its names fits with the names it
    /// has.
    pub proof fn lemma_population_fits(&self)
        requires
            self.population_fits(),
        ensures
            self.round_robin_fits(),
    {
        let n = self.strategies@.len();
        let b = self.match_bound();
        assert(b >= 0) by (nonlinear_arith)
            requires b == self.game.iterations * max_abs_payoff(self.game.payoffs), max_abs_payoff(self.game.payoffs) >= 0;
        assert forall|x: Seq<char>| #[trigger] count_of(self.names(), x) * n * b <= i32::MAX by {
            lemma_count_le_len(self.names(), x);
            let c = count_of(self.names(), x);
            assert(c * n * b <= n * n * b) by (nonlinear_arith)
                requires c <= n, b >= 0;
        }
    }

    /// The names of the strategies, as strings.
    pub fn strategy_names(&self) -> (r: Vec<String>)
        ensures
            string_views(r@) == self.names(),
    {
        let n = self.strategies.len();
        let mut out: Vec<String> = Vec::new();
        for k in 0..n
            invariant
                n == self.strategies@.len(),
                out@.len() == k,
                forall|i: int| 0 <= i < k ==> #[trigger] out@[i]@ == self.strategies@[i].label(),
        {
            out.push(String::from_str(self.strategies[k].name()));
        }
        assert(string_views(out@) =~= self.names());
        out
    }

    /// Plays every match of a round robin on copies of the strategies and
    /// records each player's score per round played, projected to the
    /// game's full length. The match `(i, j)` is seeded with the game's seed
    /// plus `i * n + j` (wrapping), when the game has a seed.
    pub(crate) fn play_round_robin(&self) -> (r: Vec<MatchScore>)
        requires
            self.schedule_fits(),
        ensures
            pairs_of(r@) == round_robin_pairs(self.strategies@.len() as nat),
            scores_bounded(r@, self.match_bound()),
            all_played(self.game, self.strategies@, r@),
    {
        let n = self.strategies.len();
        let ghost bound = self.match_bound();
        let mut results: Vec<MatchScore> = Vec::new();
        for i in 0..n
            invariant
                n == self.strategies@.len(),
                self.schedule_fits(),
                bound == self.match_bound(),
                pairs_of(results@) == round_robin_rows(i as nat, n as nat),
                scores_bounded(results@, bound),
                all_played(self.game, self.strategies@, results@),
        {
            let ghost start = results@;
            for j in i..n
                invariant
                    n == self.strategies@.len(),
                    i < n,
                    self.schedule_fits(),
                    bound == self.match_bound(),
                    pairs_of(start) == round_robin_rows(i as nat, n as nat),
                    pairs_of(results@) == round_robin_rows(i as nat, n as nat) + round_robin_row(
                        i as nat,
                        n as nat,
                    ).take(j - i),
                    scores_bounded(results@, bound),
                    all_played(self.game, self.strategies@, results@),
            {
                let mut s1 = self.strategies[i].clone_box();
                let mut s2 = self.strategies[j].clone_box();
                assert(i * n + j < n * n) by (nonlinear_arith)
                    requires i < n, j < n;
                let offset = (i * n + j) as u64;
                let seed = match self.game.seed {
                    Some(s) => Some(s.wrapping_add(offset)),
                    None => None,
                };
                assert(self.game.seed is Some ==> seed == Some(offset_seed(self.game.seed->0, i * n + j)));
                let ghost c1 = s1;
                let ghost c2 = s2;
                let (a, b, h) = self.game.play(&mut s1, &mut s2, seed);
                let ghost m = max_abs_payoff(self.game.payoffs);
                proof {
                    if S::is_reactive() && self.game.seed is Some {
                        let x = offset_seed(self.game.seed->0, i * n + j);
                        lemma_seed_fixes_match(
                            self.game,
                            c1,
                            self.strategies@[i as int],
                            c2,
                            self.strategies@[j as int],
                            crate::rng::key_of_seed(x),
                            (self.game.iterations + 1) as nat,
                        );
                        assert(h@ == seeded_history(self.game, self.strategies@[i as int], self.strategies@[j as int], x));
                    }
                    let flips = choose|flips: Seq<(bool, bool)>| #[trigger] match_history(self.game, c1, c2, h@, flips);
                    lemma_outcome_of_history(
                        self.game,
                        c1,
                        self.strategies@[i as int],
                        c2,
                        self.strategies@[j as int],
                        h@,
                        flips,
                    );
                    lemma_totals_bounded(self.game.payoffs, h@);
                }
                let pa = project(a, h.len(), self.game.iterations, Ghost(m));
                let pb = project(b, h.len(), self.game.iterations, Ghost(m));
                let ghost prev = results@;
                results.push((i, j, pa, pb));
                proof {
                    let row = round_robin_row(i as nat, n as nat);
                    assert(row.take(j + 1 - i) =~= row.take(j - i).push((i, j)));
                    assert(pairs_of(results@) =~= pairs_of(prev).push((i, j)));
                    assert forall|k: int| 0 <= k < results@.len() implies abs(
                        (#[trigger] results@[k]).2 as int,
                    ) <= bound && abs(results@[k].3 as int) <= bound by {
                        if k < prev.len() {
                            assert(results@[k] == prev[k]);
                        }
                    }
                    assert forall|k: int| 0 <= k < results@.len() implies possible_outcome(
                        self.game,
                        self.strategies@[(#[trigger] results@[k]).0 as int],
                        self.strategies@[results@[k].1 as int],
                        results@[k].2 as int,
                        results@[k].3 as int,
                    ) && (S::is_reactive() ==> match self.game.seed {
                        Some(x) => (results@[k].2 as int, results@[k].3 as int) == seeded_outcome(
                            self.game,
                            self.strategies@[results@[k].0 as int],
                            self.strategies@[results@[k].1 as int],
                            offset_seed(x, results@[k].0 * self.strategies@.len() + results@[k].1),
                        ),
                        None => true,
                    }) by {
                        if k < prev.len() {
                            assert(results@[k] == prev[k]);
                        }
                    }
                }
            }
            assert(round_robin_row(i as nat, n as nat).take(n - i) =~= round_robin_row(
                i as nat,
                n as nat,
            ));
        }
        results
    }

    /// Plays a round robin (every strategy against every other and against
    /// itself, on copies) and adds up each name's scores, each match's score
    /// taken per round played and projected to the game's full length.
    /// Names are listed once each, in order of first occurrence.
    pub fn run_round_robin(&self) -> (r: Vec<(String, i32)>)
        requires
            self.round_robin_fits(),
        ensures
            exists|results: Seq<MatchScore>|
                #[trigger] round_robin_outcome(self.names(), self.game, results, r@) && all_played(
                    self.game,
                    self.strategies@,
                    results,
                ),
    {
        let names = self.strategy_names();
        let results = self.play_round_robin();
        let ghost n = self.strategies@.len();
        proof {
            lemma_rows_in_range(n, n);
            assert forall|k: int| 0 <= k < results@.len() implies (#[trigger] results@[k]).0 < n
                && results@[k].1 < n by {
                assert(pairs_of(results@)[k] == round_robin_pairs(n)[k]);
            }
            assert(names@.len() == string_views(names@).len());
            assert(players_within(results@, names@.len()));
            assert(match_pairs(results@) =~= pairs_of(results@));
            let b = self.match_bound();
            assert(b >= 0) by (nonlinear_arith)
                requires b == self.game.iterations * max_abs_payoff(self.game.payoffs), max_abs_payoff(self.game.payoffs) >= 0;
            assert(n <= usize::MAX) by (nonlinear_arith)
                requires n * n <= usize::MAX, n >= 0;
            assert forall|x: Seq<char>| #[trigger] earned_abs(string_views(names@), results@, x) <= i32::MAX by {
                lemma_earned_abs_bounded(string_views(names@), results@, x, b);
                lemma_round_robin_appearances(self.names(), x);
                let c = count_of(self.names(), x);
                assert(c * n * b <= i32::MAX);
                assert((n * c) * b == c * n * b) by (nonlinear_arith);
            }
        }
        let r = tally_scores(&names, &results);
        assert(round_robin_outcome(self.names(), self.game, results@, r@));
        assert(all_played(self.game, self.strategies@, results@));
        r
    }
}

} // verus!
