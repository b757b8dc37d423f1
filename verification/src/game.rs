use vstd::prelude::*;
use crate::action::{Action, Round};
use crate::history::{lemma_swap_involution, swap_perspective, swap_round, swapped};
use crate::draws::Draws;
use crate::rng::{key_of_seed, ratio_draw};
use crate::strategy::{same_play, Behaviour, Named, Strategy};

verus! {

/// The payoff table (T, R, P, S): temptation, reward, punishment, sucker.
pub type Payoffs = (i32, i32, i32, i32);

/// What each player earns for one round.
pub open spec fn payoff_pair(p: Payoffs, a1: Action, a2: Action) -> (i32, i32) {
    let (t, r, pun, s) = p;
    match (a1, a2) {
        (Action::Cooperate, Action::Cooperate) => (r, r),
        (Action::Cooperate, Action::Defect) => (s, t),
        (Action::Defect, Action::Cooperate) => (t, s),
        (Action::Defect, Action::Defect) => (pun, pun),
    }
}

pub open spec fn abs(x: int) -> int {
    if x < 0 { -x } else { x }
}

/// The largest payoff in absolute value.
pub open spec fn max_abs_payoff(p: Payoffs) -> int {
    let a = abs(p.0 as int);
    let b = abs(p.1 as int);
    let c = abs(p.2 as int);
    let d = abs(p.3 as int);
    let ab = if a >= b { a } else { b };
    let cd = if c >= d { c } else { d };
    if ab >= cd { ab } else { cd }
}

/// The two players' totals over a history (first player's view).
pub open spec fn total_scores(p: Payoffs, h: Seq<Round>) -> (int, int)
    decreases h.len(),
{
    if h.len() == 0 {
        (0, 0)
    } else {
        let prev = total_scores(p, h.drop_last());
        let now = payoff_pair(p, h.last().0, h.last().1);
        (prev.0 + now.0, prev.1 + now.1)
    }
}

/// A move after the noise: flipped when the noise struck.
pub open spec fn noisy(m: Action, struck: bool) -> Action {
    if struck { m.flipped() } else { m }
}

/// Returns what each player earns for one round.
pub fn round_payoffs(payoffs: Payoffs, a1: Action, a2: Action) -> (r: (i32, i32))
    ensures
        r == payoff_pair(payoffs, a1, a2),
{
    let (t, r, p, s) = payoffs;
    match (a1, a2) {
        (Action::Cooperate, Action::Cooperate) => (r, r),
        (Action::Cooperate, Action::Defect) => (s, t),
        (Action::Defect, Action::Cooperate) => (t, s),
        (Action::Defect, Action::Defect) => (p, p),
    }
}

/// The game is symmetric: exchanging the players exchanges their payoffs.
pub proof fn lemma_payoff_symmetric(p: Payoffs, a1: Action, a2: Action)
    ensures
        payoff_pair(p, a2, a1) == (payoff_pair(p, a1, a2).1, payoff_pair(p, a1, a2).0),
{
}

/// Each payoff of a round is bounded by the largest payoff in absolute value.
pub proof fn lemma_payoff_bounded(p: Payoffs, a1: Action, a2: Action)
    ensures
        abs(payoff_pair(p, a1, a2).0 as int) <= max_abs_payoff(p),
        abs(payoff_pair(p, a1, a2).1 as int) <= max_abs_payoff(p),
{
}

/// The totals over a history are bounded by its length times the largest
/// payoff in absolute value.
pub proof fn lemma_totals_bounded(p: Payoffs, h: Seq<Round>)
    ensures
        abs(total_scores(p, h).0) <= h.len() * max_abs_payoff(p),
        abs(total_scores(p, h).1) <= h.len() * max_abs_payoff(p),
    decreases h.len(),
{
    if h.len() > 0 {
        lemma_totals_bounded(p, h.drop_last());
        lemma_payoff_bounded(p, h.last().0, h.last().1);
        assert((h.len() - 1) * max_abs_payoff(p) + max_abs_payoff(p) == h.len() * max_abs_payoff(p))
            by (nonlinear_arith);
    }
}

/// Seen from the other side, a history gives each player the other's total.
pub proof fn lemma_totals_swapped(p: Payoffs, h: Seq<Round>)
    ensures
        total_scores(p, swapped(h)) == (total_scores(p, h).1, total_scores(p, h).0),
    decreases h.len(),
{
    if h.len() > 0 {
        assert(swapped(h).drop_last() =~= swapped(h.drop_last()));
        lemma_totals_swapped(p, h.drop_last());
        lemma_payoff_symmetric(p, h.last().0, h.last().1);
    }
}

/// A probability, as the ratio of two integers.
#[derive(Clone, Copy, PartialEq, Eq, Structural, Debug)]
pub struct Chance {
    pub numerator: u32,
    pub denominator: u32,
}

impl Chance {
    /// Whether the ratio is a probability: a positive denominator, and a
    /// numerator not above it.
    pub open spec fn valid(self) -> bool {
        0 < self.denominator && self.numerator <= self.denominator
    }

    /// The event never happens.
    pub open spec fn never(self) -> bool {
        self.numerator == 0
    }

    /// The event always happens.
    pub open spec fn certain(self) -> bool {
        0 < self.denominator && self.numerator == self.denominator
    }

    /// The probability zero.
    pub fn zero() -> (r: Chance)
        ensures
            r == (Chance { numerator: 0, denominator: 1 }),
    {
        Chance { numerator: 0, denominator: 1 }
    }
}

/// The rules of a match: its length, noise, chance of ending early, payoffs
/// and seed.
#[derive(Clone, Copy, Debug)]
pub struct Game {
    /// The number of rounds, unless the match ends early.
    pub iterations: usize,
    /// The chance that a player's move is flipped in a round.
    pub action_noise: Chance,
    /// The chance that a player misreads a move; carried with the game, not
    /// used in a match.
    pub perception_noise: Chance,
    /// The chance that the match ends before a round; zero when it never
    /// ends early.
    pub discount_factor: Chance,
    /// The payoff table (T, R, P, S).
    pub payoffs: Payoffs,
    /// The seed of every match, unless a match is given its own.
    pub seed: Option<u64>,
}

impl Default for Game {
    /// Two hundred rounds, no noise, no early end, payoffs (5, 3, 1, 0), no
    /// seed.
    fn default() -> (r: Game)
        ensures
            r.iterations == 200,
            r.action_noise == (Chance { numerator: 0, denominator: 1 }),
            r.perception_noise == (Chance { numerator: 0, denominator: 1 }),
            r.discount_factor == (Chance { numerator: 0, denominator: 1 }),
            r.payoffs == (5i32, 3i32, 1i32, 0i32),
            r.seed is None,
    {
        Game {
            iterations: 200,
            action_noise: Chance::zero(),
            perception_noise: Chance::zero(),
            discount_factor: Chance::zero(),
            payoffs: (5, 3, 1, 0),
            seed: None,
        }
    }
}

/// The rounds of a match between two reactive strategies, given for each
/// round whether the noise flipped the first and the second player's move:
/// each player answers the history so far, seen from its own side, and the
/// round records the moves as the noise left them.
pub open spec fn rounds_played<S1: Strategy, S2: Strategy>(
    s1: S1,
    s2: S2,
    flips: Seq<(bool, bool)>,
) -> Seq<Round>
    decreases flips.len(),
{
    if flips.len() == 0 {
        Seq::empty()
    } else {
        let h = rounds_played(s1, s2, flips.drop_last());
        h.push(
            (noisy(s1.reply(h), flips.last().0), noisy(s2.reply(swapped(h)), flips.last().1)),
        )
    }
}

/// `h` is the history of a possible match of `game` between `s1` and `s2`,
/// `flips` saying where the noise struck: at most `iterations` rounds, all
/// of them when the match cannot end early and none when it surely ends at
/// once; no flip without noise; and, between reactive strategies, the
/// rounds that their replies and the flips give.
pub open spec fn match_history<S1: Strategy, S2: Strategy>(
    game: Game,
    s1: S1,
    s2: S2,
    h: Seq<Round>,
    flips: Seq<(bool, bool)>,
) -> bool {
    &&& flips.len() == h.len()
    &&& h.len() <= game.iterations
    &&& (game.discount_factor.never() ==> h.len() == game.iterations)
    &&& (game.discount_factor.certain() ==> h.len() == 0)
    &&& (game.action_noise.never() ==> forall|k: int| 0 <= k < flips.len() ==> #[trigger] flips[k] == (false, false))
    &&& (S1::is_reactive() && S2::is_reactive() ==> h == rounds_played(s1, s2, flips))
}

/// `(a, b)` are the totals of a possible match of `game` between `s1` and
/// `s2`.
pub open spec fn possible_match<S1: Strategy, S2: Strategy>(
    game: Game,
    s1: S1,
    s2: S2,
    a: int,
    b: int,
) -> bool {
    exists|h: Seq<Round>, flips: Seq<(bool, bool)>|
        #[trigger] match_history(game, s1, s2, h, flips) && total_scores(game.payoffs, h) == (a, b)
}

/// Whether a draw of the chance `c` at the word position `pos` of the stream
/// of `key` happens: never for a zero numerator, always for a certain
/// chance, otherwise as drawn.
pub open spec fn chance_drawn(key: Seq<u8>, pos: int, c: Chance) -> bool {
    if c.numerator == 0 {
        false
    } else if c.numerator == c.denominator {
        true
    } else {
        ratio_draw(key, pos as u128, c.numerator, c.denominator)
    }
}

/// The word position after a draw of `c` at `pos`: a certain event takes no
/// word of the stream, any other one 64-bit number (two words); positions
/// wrap around at 2^128.
pub open spec fn after_draw(pos: int, c: Chance) -> int {
    if c.numerator == c.denominator {
        pos
    } else {
        (pos + 2) % (u128::MAX + 1)
    }
}

/// The first `k` steps of a match between reactive strategies whose draws
/// come from the stream of `key`: the rounds played, the word position
/// reached, and whether the match has ended early. Each step that finds
/// the match still going first draws its end (when the chance of it is not
/// zero), then, unless it ended, the noise on the first and on the second
/// player's move, and plays the round.
pub open spec fn seeded_run<S1: Strategy, S2: Strategy>(
    game: Game,
    s1: S1,
    s2: S2,
    key: Seq<u8>,
    k: nat,
) -> (Seq<Round>, int, bool)
    decreases k,
{
    if k == 0 {
        (Seq::empty(), 0, false)
    } else {
        let prev = seeded_run(game, s1, s2, key, (k - 1) as nat);
        let h = prev.0;
        let pos = prev.1;
        if prev.2 || h.len() >= game.iterations {
            prev
        } else {
            let end = game.discount_factor;
            let ends = end.numerator > 0 && chance_drawn(key, pos, end);
            let p1 = if end.numerator > 0 { after_draw(pos, end) } else { pos };
            if ends {
                (h, p1, true)
            } else {
                let noise = game.action_noise;
                let f1 = chance_drawn(key, p1, noise);
                let p2 = after_draw(p1, noise);
                let f2 = chance_drawn(key, p2, noise);
                let p3 = after_draw(p2, noise);
                (h.push((noisy(s1.reply(h), f1), noisy(s2.reply(swapped(h)), f2))), p3, false)
            }
        }
    }
}

/// The history of the match of `game` between reactive strategies `s1` and
/// `s2` played with the seed `seed`.
pub open spec fn seeded_history<S1: Strategy, S2: Strategy>(game: Game, s1: S1, s2: S2, seed: u64) -> Seq<Round> {
    seeded_run(game, s1, s2, key_of_seed(seed), (game.iterations + 1) as nat).0
}

/// The scores of the match of `game` between reactive strategies `s1` and
/// `s2` played with the seed `seed`, projected from the rounds played to
/// the full length.
pub open spec fn seeded_outcome<S1: Strategy, S2: Strategy>(game: Game, s1: S1, s2: S2, seed: u64) -> (int, int) {
    let h = seeded_history(game, s1, s2, seed);
    (
        projected(total_scores(game.payoffs, h).0, h.len() as int, game.iterations as int),
        projected(total_scores(game.payoffs, h).1, h.len() as int, game.iterations as int),
    )
}

/// Once a match has ended or played all its rounds, later steps change
/// nothing.
proof fn lemma_run_settled<S1: Strategy, S2: Strategy>(
    game: Game,
    s1: S1,
    s2: S2,
    key: Seq<u8>,
    k: nat,
    j: nat,
)
    requires
        k <= j,
        seeded_run(game, s1, s2, key, k).2 || seeded_run(game, s1, s2, key, k).0.len() >= game.iterations,
    ensures
        seeded_run(game, s1, s2, key, j) == seeded_run(game, s1, s2, key, k),
    decreases j - k,
{
    if k < j {
        lemma_run_settled(game, s1, s2, key, k, (j - 1) as nat);
    }
}

/// A seed fixes a whole match: the steps of a match between strategies
/// that play the same are the same.
pub proof fn lemma_seed_fixes_match<S1: Strategy, S2: Strategy>(
    game: Game,
    s1: S1,
    t1: S1,
    s2: S2,
    t2: S2,
    key: Seq<u8>,
    k: nat,
)
    requires
        same_play(s1, t1),
        same_play(s2, t2),
    ensures
        seeded_run(game, s1, s2, key, k) == seeded_run(game, t1, t2, key, k),
    decreases k,
{
    if k > 0 {
        lemma_seed_fixes_match(game, s1, t1, s2, t2, key, (k - 1) as nat);
        let h = seeded_run(game, s1, s2, key, (k - 1) as nat).0;
        assert(s1.reply(h) == t1.reply(h));
        assert(s2.reply(swapped(h)) == t2.reply(swapped(h)));
    }
}

/// Without noise, exchanging the players of a seeded match exchanges its
/// rounds: the end is drawn from the same words, and each player still
/// answers its own view of the history.
pub proof fn lemma_seeded_exchange<S1: Strategy, S2: Strategy>(
    game: Game,
    s1: S1,
    s2: S2,
    key: Seq<u8>,
    k: nat,
)
    requires
        game.action_noise.never(),
    ensures
        seeded_run(game, s2, s1, key, k).0 == swapped(seeded_run(game, s1, s2, key, k).0),
        seeded_run(game, s2, s1, key, k).1 == seeded_run(game, s1, s2, key, k).1,
        seeded_run(game, s2, s1, key, k).2 == seeded_run(game, s1, s2, key, k).2,
    decreases k,
{
    if k > 0 {
        lemma_seeded_exchange(game, s1, s2, key, (k - 1) as nat);
        let h = seeded_run(game, s1, s2, key, (k - 1) as nat).0;
        lemma_swap_involution(h);
        let a = seeded_run(game, s1, s2, key, k).0;
        let b = seeded_run(game, s2, s1, key, k).0;
        if a.len() > h.len() {
            assert(b =~= swapped(a));
        }
    }
}

/// A match's score per round played, projected to the game's full length:
/// `score * iterations / turns`, rounded toward zero; zero when no round
/// was played.
pub open spec fn projected(score: int, turns: int, iterations: int) -> int {
    if turns <= 0 {
        0
    } else if score >= 0 {
        score * iterations / turns
    } else {
        -((-score) * iterations / turns)
    }
}

/// `(a, b)` are the scores of a possible match of `game` between `s1` and
/// `s2`, each projected from the rounds played to the full length.
pub open spec fn possible_outcome<S1: Strategy, S2: Strategy>(
    game: Game,
    s1: S1,
    s2: S2,
    a: int,
    b: int,
) -> bool {
    exists|h: Seq<Round>, flips: Seq<(bool, bool)>|
        #[trigger] match_history(game, s1, s2, h, flips) && a == projected(
            total_scores(game.payoffs, h).0,
            h.len() as int,
            game.iterations as int,
        ) && b == projected(total_scores(game.payoffs, h).1, h.len() as int, game.iterations as int)
}

/// A match that lasts its full length is projected to its own scores.
pub proof fn lemma_projected_full(score: int, iterations: int)
    requires
        iterations > 0,
    ensures
        projected(score, iterations, iterations) == score,
{
    assert(score * iterations / iterations == score) by (nonlinear_arith)
        requires iterations > 0;
    assert((-score) * iterations / iterations == -score) by (nonlinear_arith)
        requires iterations > 0;
}

/// Returns a match's score per round played, projected to the full length.
pub fn project(score: i32, turns: usize, iterations: usize, Ghost(m): Ghost<int>) -> (r: i32)
    requires
        0 <= m,
        turns <= iterations,
        abs(score as int) <= turns * m,
        iterations * m <= i32::MAX,
    ensures
        r as int == projected(score as int, turns as int, iterations as int),
        abs(r as int) <= iterations * m,
{
    if turns == 0 {
        return 0;
    }
    let a: i128 = if score >= 0 { score as i128 } else { -(score as i128) };
    assert(a * iterations <= turns * m * iterations) by (nonlinear_arith)
        requires 0 <= a <= turns * m, iterations >= 0;
    assert(turns * m * iterations <= turns * i32::MAX) by (nonlinear_arith)
        requires iterations * m <= i32::MAX, turns >= 0, m >= 0;
    assert(turns * i32::MAX <= 0x1_0000_0000_0000_0000 * 0x8000_0000) by (nonlinear_arith)
        requires turns <= usize::MAX;
    let num: i128 = a * (iterations as i128);
    let q: i128 = num / (turns as i128);
    proof {
        vstd::arithmetic::div_mod::lemma_div_is_ordered(num as int, (iterations * m) * turns, turns as int);
        vstd::arithmetic::div_mod::lemma_div_by_multiple(iterations * m, turns as int);
        assert(num <= (iterations * m) * turns) by (nonlinear_arith)
            requires num <= turns * m * iterations;
        assert(0 <= q);
    }
    if score >= 0 {
        q as i32
    } else {
        -(q as i32)
    }
}

/// A history of a match between two copies is a history of a match
/// between the strategies copied, and gives their projected scores.
pub proof fn lemma_outcome_of_history<S1: Strategy, S2: Strategy>(
    game: Game,
    c1: S1,
    t1: S1,
    c2: S2,
    t2: S2,
    h: Seq<Round>,
    flips: Seq<(bool, bool)>,
)
    requires
        match_history(game, c1, c2, h, flips),
        S1::is_reactive() ==> same_play(c1, t1),
        S2::is_reactive() ==> same_play(c2, t2),
    ensures
        possible_outcome(
            game,
            t1,
            t2,
            projected(total_scores(game.payoffs, h).0, h.len() as int, game.iterations as int),
            projected(total_scores(game.payoffs, h).1, h.len() as int, game.iterations as int),
        ),
{
    if S1::is_reactive() && S2::is_reactive() {
        lemma_rounds_same_play(c1, t1, c2, t2, flips);
    }
    assert(match_history(game, t1, t2, h, flips));
}

/// The rounds of a longer run of flips begin with those of a shorter one.
proof fn lemma_rounds_prefix<S1: Strategy, S2: Strategy>(
    s1: S1,
    s2: S2,
    flips: Seq<(bool, bool)>,
    j: int,
)
    requires
        0 <= j <= flips.len(),
    ensures
        rounds_played(s1, s2, flips).len() == flips.len(),
        rounds_played(s1, s2, flips.take(j)) == rounds_played(s1, s2, flips).take(j),
    decreases flips.len(),
{
    if flips.len() > 0 {
        let f = flips.drop_last();
        if j < flips.len() {
            lemma_rounds_prefix(s1, s2, f, j);
            assert(f.take(j) =~= flips.take(j));
            assert(rounds_played(s1, s2, flips).take(j) =~= rounds_played(s1, s2, f).take(j));
        } else {
            lemma_rounds_prefix(s1, s2, f, 0);
            assert(flips.take(j) =~= flips);
            assert(rounds_played(s1, s2, flips).take(j) =~= rounds_played(s1, s2, flips));
        }
    } else {
        assert(flips.take(j) =~= flips);
    }
}

/// How a match between reactive strategies pays: each round holds each
/// player's reply to the history before it, seen from its own side, flipped
/// exactly where the noise struck.
pub proof fn lemma_rounds_answer_history<S1: Strategy, S2: Strategy>(
    s1: S1,
    s2: S2,
    flips: Seq<(bool, bool)>,
    k: int,
)
    requires
        0 <= k < flips.len(),
    ensures
        rounds_played(s1, s2, flips).len() == flips.len(),
        rounds_played(s1, s2, flips)[k] == (
            noisy(s1.reply(rounds_played(s1, s2, flips).take(k)), flips[k].0),
            noisy(s2.reply(swapped(rounds_played(s1, s2, flips).take(k))), flips[k].1),
        ),
{
    lemma_rounds_prefix(s1, s2, flips, k + 1);
    lemma_rounds_prefix(s1, s2, flips, k);
    let f = flips.take(k + 1);
    assert(f.drop_last() =~= flips.take(k));
    let h = rounds_played(s1, s2, flips);
    assert(rounds_played(s1, s2, f)[k] == h[k]);
}

/// A player that plays a behaviour deciding by the history alone makes, in
/// each round of a match, the behaviour's decision on the history before
/// that round from its own side: the rounds as recorded when it plays
/// first, with the two moves of each round exchanged when it plays second;
/// its move is flipped only where the noise struck.
pub proof fn lemma_behaviour_sees_own_view<B: Behaviour, S: Strategy>(
    named: Named<B>,
    other: S,
    flips: Seq<(bool, bool)>,
    k: int,
)
    requires
        B::decides_by_history(),
        0 <= k < flips.len(),
    ensures
        rounds_played(named, other, flips)[k].0 == noisy(
            named.behaviour.decision(rounds_played(named, other, flips).take(k)),
            flips[k].0,
        ),
        rounds_played(other, named, flips)[k].1 == noisy(
            named.behaviour.decision(swapped(rounds_played(other, named, flips).take(k))),
            flips[k].1,
        ),
{
    lemma_rounds_answer_history(named, other, flips, k);
    lemma_rounds_answer_history(other, named, flips, k);
}

/// The rounds of a match depend on the strategies' replies alone.
pub proof fn lemma_rounds_same_play<S1: Strategy, S2: Strategy>(
    s1: S1,
    t1: S1,
    s2: S2,
    t2: S2,
    flips: Seq<(bool, bool)>,
)
    requires
        same_play(s1, t1),
        same_play(s2, t2),
    ensures
        rounds_played(s1, s2, flips) == rounds_played(t1, t2, flips),
    decreases flips.len(),
{
    if flips.len() > 0 {
        lemma_rounds_same_play(s1, t1, s2, t2, flips.drop_last());
        let h = rounds_played(s1, s2, flips.drop_last());
        assert(s1.reply(h) == t1.reply(h));
        assert(s2.reply(swapped(h)) == t2.reply(swapped(h)));
    }
}

/// The game with `factor` times as many rounds.
pub open spec fn lengthened(g: Game, factor: nat) -> Game {
    Game { iterations: (g.iterations * factor) as usize, ..g }
}

impl Game {
    /// Whether a match of this game can be played: the chances that its
    /// rounds draw are probabilities (the end is drawn before each round
    /// when its chance is not zero, the noise in each round played), and a
    /// whole match's scores fit their integer type.
    pub open spec fn match_fits(&self) -> bool {
        &&& self.iterations * max_abs_payoff(self.payoffs) <= i32::MAX
        &&& self.iterations > 0 ==> (!self.discount_factor.never() ==> self.discount_factor.valid())
        &&& self.iterations > 0 && !self.discount_factor.certain() ==> self.action_noise.valid()
    }

    /// Resolves one round: applies the noise to the chosen moves and pays
    /// the players. Returns the moves as played and the two payoffs.
    pub fn resolve_round(&self, m1: Action, m2: Action, noise1: bool, noise2: bool) -> (r: (
        Round,
        (i32, i32),
    ))
        ensures
            r.0 == (noisy(m1, noise1), noisy(m2, noise2)),
            r.1 == payoff_pair(self.payoffs, r.0.0, r.0.1),
    {
        let a1 = if noise1 { m1.flip() } else { m1 };
        let a2 = if noise2 { m2.flip() } else { m2 };
        ((a1, a2), round_payoffs(self.payoffs, a1, a2))
    }

    /// Plays a match between two strategies, both reset first. Before each
    /// round the match may end (by `discount_factor`, drawn when it is not
    /// zero); then each strategy chooses from its own view of the history,
    /// each choice may be flipped by the noise, and the players are paid.
    /// The draws come, in that order, from one ChaCha8 stream seeded with
    /// `match_seed`, else the game's seed, else from the system. Returns
    /// both totals and the history as played, from the first player's view.
    pub fn play<S1: Strategy, S2: Strategy>(
        &self,
        s1: &mut S1,
        s2: &mut S2,
        match_seed: Option<u64>,
    ) -> (r: (i32, i32, Vec<Round>))
        requires
            self.match_fits(),
        ensures
            (r.0 as int, r.1 as int) == total_scores(self.payoffs, r.2@),
            exists|flips: Seq<(bool, bool)>| #[trigger] match_history(*self, *old(s1), *old(s2), r.2@, flips),
            possible_match(*self, *old(s1), *old(s2), r.0 as int, r.1 as int),
            S1::is_reactive() && S2::is_reactive() ==> match seed_in_use(match_seed, self.seed) {
                Some(x) => r.2@ == seeded_history(*self, *old(s1), *old(s2), x),
                None => true,
            },
            final(s1).label() == old(s1).label(),
            final(s2).label() == old(s2).label(),
    {
        let ghost first = *s1;
        let ghost second = *s2;
        s1.reset();
        s2.reset();
        let seed = match match_seed {
            Some(s) => Some(s),
            None => self.seed,
        };
        let mut draws = match seed {
            Some(s) => Draws::seeded(s),
            None => Draws::from_system(),
        };
        let ghost key = draws.key();
        let ghost both = S1::is_reactive() && S2::is_reactive();
        let ghost seeded = seed is Some;
        let mut history: Vec<Round> = Vec::new();
        let mut score1: i32 = 0;
        let mut score2: i32 = 0;
        let mut stopped = false;
        let ghost m = max_abs_payoff(self.payoffs);
        let ghost mut flips: Seq<(bool, bool)> = Seq::empty();
        let ghost mut k: nat = 0;
        let end = self.discount_factor;
        let noise = self.action_noise;
        while history.len() < self.iterations && !stopped
            invariant
                history@.len() <= self.iterations,
                self.match_fits(),
                end == self.discount_factor,
                noise == self.action_noise,
                m == max_abs_payoff(self.payoffs),
                end.never() ==> !stopped,
                end.certain() ==> history@.len() == 0,
                (score1 as int, score2 as int) == total_scores(self.payoffs, history@),
                flips.len() == history@.len(),
                noise.never() ==> forall|k: int| 0 <= k < flips.len() ==> #[trigger] flips[k] == (false, false),
                S1::is_reactive() ==> same_play(*s1, first),
                S2::is_reactive() ==> same_play(*s2, second),
                S1::is_reactive() && S2::is_reactive() ==> history@ == rounds_played(first, second, flips),
                s1.label() == first.label(),
                s2.label() == second.label(),
                both == (S1::is_reactive() && S2::is_reactive()),
                seeded == (seed is Some),
                seeded ==> key == key_of_seed(seed->0),
                both ==> draws.key() == key,
                both ==> 0 <= draws.position() <= 6 * history@.len() + (if stopped { 2int } else { 0int }),
                k == history@.len() + (if stopped { 1int } else { 0int }),
                both ==> seeded_run(*self, first, second, key, k) == (history@, draws.position(), stopped),
            decreases self.iterations - history@.len(), (if stopped { 0int } else { 1int }),
        {
            let ghost p0 = draws.position();
            proof {
                assert(6 * history@.len() + 6 <= 6 * (usize::MAX as int) + 6);
            }
            let ends = if end.numerator > 0 {
                draws.chance(end)
            } else {
                false
            };
            let ghost p1 = draws.position();
            proof {
                if both {
                    assert(ends == (end.numerator > 0 && chance_drawn(key, p0, end)));
                    assert(p1 == (if end.numerator > 0 { after_draw(p0, end) } else { p0 }));
                }
            }
            if ends {
                stopped = true;
                proof {
                    k = k + 1;
                }
            } else {
                let m1 = s1.respond(history.as_slice(), &mut draws);
                let other_view = swap_perspective(history.as_slice());
                let m2 = s2.respond(other_view.as_slice(), &mut draws);
                proof {
                    if both {
                        assert(draws.position() == p1);
                    }
                }
                let noise1 = draws.chance(noise);
                let ghost p2 = draws.position();
                let noise2 = draws.chance(noise);
                proof {
                    if both {
                        assert(noise1 == chance_drawn(key, p1, noise));
                        assert(p2 == after_draw(p1, noise));
                        assert(noise2 == chance_drawn(key, p2, noise));
                    }
                }
                let (moves, pay) = self.resolve_round(m1, m2, noise1, noise2);
                proof {
                    let h2 = history@.push(moves);
                    assert(h2.drop_last() =~= history@);
                    lemma_totals_bounded(self.payoffs, h2);
                    assert(h2.len() * m <= self.iterations * m) by (nonlinear_arith)
                        requires h2.len() <= self.iterations, m >= 0;
                    let f2 = flips.push((noise1, noise2));
                    assert(f2.drop_last() =~= flips);
                    if S1::is_reactive() && S2::is_reactive() {
                        assert(m1 == first.reply(history@));
                        assert(m2 == second.reply(swapped(history@)));
                    }
                    flips = f2;
                    k = k + 1;
                }
                score1 = score1 + pay.0;
                score2 = score2 + pay.1;
                history.push(moves);
            }
        }
        assert(flips.len() == history@.len());
        assert(history@.len() <= self.iterations);
        assert(end.never() ==> history@.len() == self.iterations);
        assert(end.certain() ==> history@.len() == 0);
        assert(match_history(*self, first, second, history@, flips));
        proof {
            if both && seeded {
                lemma_run_settled(*self, first, second, key, k, (self.iterations + 1) as nat);
            }
        }
        (score1, score2, history)
    }
}

/// Exchanging the players exchanges what a match pays them. Between
/// reactive strategies, without noise, and when a seed fixes the match or it
/// cannot end early: whatever two calls of `play` give with the same seeds,
/// the players exchanged, the second is the first seen from the other side.
pub proof fn lemma_exchange_players<S1: Strategy, S2: Strategy>(
    game: Game,
    s1: S1,
    s2: S2,
    match_seed: Option<u64>,
    a: int,
    b: int,
    h: Seq<Round>,
    c: int,
    d: int,
    k: Seq<Round>,
)
    requires
        game.action_noise.never(),
        S1::is_reactive(),
        S2::is_reactive(),
        seed_in_use(match_seed, game.seed) is Some || game.discount_factor.never(),
        (a, b) == total_scores(game.payoffs, h),
        exists|flips: Seq<(bool, bool)>| #[trigger] match_history(game, s1, s2, h, flips),
        match seed_in_use(match_seed, game.seed) {
            Some(x) => h == seeded_history(game, s1, s2, x),
            None => true,
        },
        (c, d) == total_scores(game.payoffs, k),
        exists|flips: Seq<(bool, bool)>| #[trigger] match_history(game, s2, s1, k, flips),
        match seed_in_use(match_seed, game.seed) {
            Some(x) => k == seeded_history(game, s2, s1, x),
            None => true,
        },
    ensures
        k == swapped(h),
        (c, d) == (b, a),
{
    match seed_in_use(match_seed, game.seed) {
        Some(x) => {
            lemma_seeded_exchange(game, s1, s2, key_of_seed(x), (game.iterations + 1) as nat);
        },
        None => {
            let f1 = choose|flips: Seq<(bool, bool)>| #[trigger] match_history(game, s1, s2, h, flips);
            let f2 = choose|flips: Seq<(bool, bool)>| #[trigger] match_history(game, s2, s1, k, flips);
            assert(exchanged_flips(f1) =~= f2) by {
                assert forall|j: int| 0 <= j < f2.len() implies exchanged_flips(f1)[j] == f2[j] by {
                    assert(f1[j] == (false, false));
                    assert(f2[j] == (false, false));
                }
            }
            lemma_rounds_exchanged(s1, s2, f1);
        },
    }
    lemma_totals_swapped(game.payoffs, h);
}

/// The seed a match uses: its own, else the game's.
pub open spec fn seed_in_use(match_seed: Option<u64>, game_seed: Option<u64>) -> Option<u64> {
    match match_seed {
        Some(s) => Some(s),
        None => game_seed,
    }
}

/// Exchanging the players exchanges the rounds: what one match gives the
/// first player, the match with the players and their noise exchanged gives
/// the second, seen from its side.
pub proof fn lemma_rounds_exchanged<S1: Strategy, S2: Strategy>(
    s1: S1,
    s2: S2,
    flips: Seq<(bool, bool)>,
)
    ensures
        rounds_played(s2, s1, exchanged_flips(flips)) == swapped(rounds_played(s1, s2, flips)),
    decreases flips.len(),
{
    if flips.len() > 0 {
        let f = flips.drop_last();
        lemma_rounds_exchanged(s1, s2, f);
        assert(exchanged_flips(flips).drop_last() =~= exchanged_flips(f));
        let h = rounds_played(s1, s2, f);
        lemma_swap_involution(h);
        assert(swapped(rounds_played(s1, s2, flips)) =~= swapped(h).push(
            swap_round(rounds_played(s1, s2, flips).last()),
        ));
    }
}

/// The flips of a match with the players exchanged.
pub open spec fn exchanged_flips(flips: Seq<(bool, bool)>) -> Seq<(bool, bool)> {
    Seq::new(flips.len(), |k: int| (flips[k].1, flips[k].0))
}

/// Exchanging two reactive players exchanges what a match pays them: the
/// history of a match is possible with the players exchanged, seen from the
/// other side, and gives each the other's total.
pub proof fn lemma_match_exchanged<S1: Strategy, S2: Strategy>(
    game: Game,
    s1: S1,
    s2: S2,
    h: Seq<Round>,
    flips: Seq<(bool, bool)>,
)
    requires
        match_history(game, s1, s2, h, flips),
    ensures
        match_history(game, s2, s1, swapped(h), exchanged_flips(flips)),
        total_scores(game.payoffs, swapped(h)) == (total_scores(game.payoffs, h).1, total_scores(
            game.payoffs,
            h,
        ).0),
{
    lemma_totals_swapped(game.payoffs, h);
    if S1::is_reactive() && S2::is_reactive() {
        lemma_rounds_exchanged(s1, s2, flips);
    }
    let ef = exchanged_flips(flips);
    if game.action_noise.never() {
        assert forall|k: int| 0 <= k < ef.len() implies #[trigger] ef[k] == (false, false) by {
            assert(flips[k] == (false, false));
        }
    }
}

} // verus!
