use game_theory::evolution::{sort_scores_descending, sum_individuals};
use game_theory::finale::last_best;
use game_theory::ranking::rank_descending;
use game_theory::scores::{count_names, distinct_strings, sort_counts_descending, tally_scores};
use game_theory::spatial::best_neighbors;
use game_theory::swiss::{collect_last_scores, rank_standing, settle_round};
use game_theory::strategy::{Behaviour, Named};
use game_theory::{Action, Chance, Draws, Game, Round, SpatialTournament, Strategy, Tournament};
use game_theory::strategies::player::Player;

fn game(iterations: usize) -> Game {
    Game {
        iterations,
        action_noise: Chance { numerator: 0, denominator: 1 },
        perception_noise: Chance { numerator: 0, denominator: 1 },
        discount_factor: Chance { numerator: 0, denominator: 1 },
        payoffs: (5, 3, 1, 0),
        seed: Some(1),
    }
}

fn trio() -> Vec<Player> {
    vec![Player::AlwaysCooperate, Player::AlwaysDefect, Player::TitForTat]
}

fn s(x: &str) -> String {
    x.to_string()
}

#[test]
fn round_robin_scores() {
    let t = Tournament::new(trio(), game(10));
    assert_eq!(
        t.run_round_robin(),
        vec![(s("Always Cooperate"), 60), (s("Always Defect"), 74), (s("Tit For Tat"), 69)]
    );
}

#[test]
fn round_robin_pools_equal_names() {
    let t = Tournament::new(
        vec![Player::AlwaysDefect, Player::TitForTat, Player::AlwaysDefect],
        game(10),
    );
    assert_eq!(t.run_round_robin(), vec![(s("Always Defect"), 68), (s("Tit For Tat"), 48)]);
}

#[test]
fn evolution_keeps_the_best() {
    let mut t = Tournament::new(trio(), game(10));
    let (scores, history) = t.run_evolution(1, 2);
    assert_eq!(history.len(), 2);
    assert_eq!(
        history[0],
        vec![(s("Always Cooperate"), 1), (s("Always Defect"), 1), (s("Tit For Tat"), 1)]
    );
    assert_eq!(history[1], vec![(s("Always Defect"), 2), (s("Tit For Tat"), 1)]);
    assert_eq!(t.strategies.len(), 3);
    let names: Vec<&str> = t.strategies.iter().map(|p| p.name()).collect();
    assert_eq!(names, vec!["Always Defect", "Tit For Tat", "Always Defect"]);
    assert_eq!(scores, vec![(s("Always Defect"), 68), (s("Tit For Tat"), 48)]);
}

#[test]
fn evolution_without_generations_only_counts() {
    let mut t = Tournament::new(trio(), game(10));
    let (scores, history) = t.run_evolution(0, 3);
    assert_eq!(history.len(), 1);
    assert_eq!(scores.len(), 3);
    assert_eq!(t.strategies.len(), 3);
}

#[test]
fn grand_finale_winner() {
    let t = Tournament::new(trio(), game(10));
    assert_eq!(t.run_grand_finale(2), "Tit For Tat");
    assert_eq!(t.run_grand_finale(1), "Always Defect");
}

#[test]
fn swiss_rounds() {
    let t = Tournament::new(trio(), game(10));
    assert_eq!(
        t.run_swiss(1),
        vec![(s("Always Cooperate"), 0), (s("Always Defect"), 50), (s("Tit For Tat"), 0)]
    );
    assert_eq!(
        t.run_swiss(2),
        vec![(s("Always Defect"), 100), (s("Always Cooperate"), 0), (s("Tit For Tat"), 0)]
    );
    assert_eq!(
        t.run_swiss(0),
        vec![(s("Always Cooperate"), 0), (s("Always Defect"), 0), (s("Tit For Tat"), 0)]
    );
}

#[test]
fn spatial_defector_takes_over() {
    let mut grid = Vec::new();
    for y in 0..3 {
        let mut row = Vec::new();
        for x in 0..3 {
            if y == 1 && x == 1 {
                row.push(Player::AlwaysDefect);
            } else {
                row.push(Player::AlwaysCooperate);
            }
        }
        grid.push(row);
    }
    let mut st = SpatialTournament { grid, game: game(10) };
    assert_eq!(
        st.get_population_counts(),
        vec![(s("Always Cooperate"), 8), (s("Always Defect"), 1)]
    );
    st.step();
    assert_eq!(st.grid.len(), 3);
    assert!(st.grid.iter().all(|r| r.len() == 3));
    assert_eq!(st.get_population_counts(), vec![(s("Always Defect"), 9)]);
}

#[test]
fn spatial_new_draws_from_the_strategies() {
    let st = SpatialTournament::new(4, 2, vec![Player::TitForTat], game(5));
    assert_eq!(st.grid.len(), 2);
    assert!(st.grid.iter().all(|r| r.len() == 4));
    assert_eq!(st.get_population_counts(), vec![(s("Tit For Tat"), 8)]);
    let empty: SpatialTournament<Player> = SpatialTournament::new(0, 3, vec![], game(5));
    assert_eq!(empty.grid.len(), 3);
    assert!(empty.get_population_counts().is_empty());
}

#[test]
fn best_neighbors_prefers_strictly_better() {
    // A 3 by 3 torus: every cell sees every other.
    let scores = vec![vec![1, 2, 3], vec![4, 9, 6], vec![9, 8, 7]];
    let choice = best_neighbors(&scores);
    // Around (0, 0) the neighbourhood is read from (2, 2): 7, then 9 at
    // (2, 0); the 9 at (1, 1) comes later and is not strictly better.
    assert_eq!(choice[0][0], (2, 0));
    assert_eq!(choice[1][1], (1, 1));
    // A cell is only replaced by a strictly better one: (2, 0) keeps its 9.
    assert_eq!(choice[2][0], (2, 0));
    assert_eq!(choice[0][1], (2, 0));
    // A 1 by 1 grid: the cell itself.
    assert_eq!(best_neighbors(&vec![vec![5]]), vec![vec![(0, 0)]]);
}

#[test]
fn ranking_is_stable_descending() {
    assert_eq!(rank_descending(&vec![3, 5, 3, 9, 5]), vec![3, 1, 4, 0, 2]);
    assert_eq!(rank_descending(&vec![]), Vec::<usize>::new());
    let sorted = sort_scores_descending(&vec![(s("a"), 1), (s("b"), 4), (s("c"), 1), (s("d"), 4)]);
    assert_eq!(sorted, vec![(s("b"), 4), (s("d"), 4), (s("a"), 1), (s("c"), 1)]);
}

#[test]
fn tally_counts_self_play_once() {
    let names = vec![s("x"), s("y"), s("x")];
    let results = vec![(0, 0, 3, 3), (0, 1, 0, 5), (1, 2, 1, 1), (2, 2, 2, 2)];
    let tally = tally_scores(&names, &results);
    assert_eq!(tally, vec![(s("x"), 6), (s("y"), 6)]);
    // The tally pays out what the matches paid: 3 + (0 + 5) + (1 + 1) + 2.
    assert_eq!(tally.iter().map(|(_, v)| v).sum::<i32>(), 12);
    assert_eq!(distinct_strings(&names), vec![s("x"), s("y")]);
    assert_eq!(count_names(&names), vec![(s("x"), 2), (s("y"), 1)]);
}

#[test]
fn individual_totals_count_self_play_once() {
    // Three individuals; the match (i, j) paid i the first score and j the
    // second; a match against itself pays once.
    let results = vec![(0, 0, 3, 3), (0, 1, 0, 5), (0, 2, 2, 7), (1, 1, 1, 1), (1, 2, 4, -1), (2, 2, 6, 6)];
    assert_eq!(sum_individuals(3, &results), vec![5, 10, 12]);
    assert_eq!(sum_individuals(0, &vec![]), Vec::<i128>::new());
}

#[test]
fn last_best_takes_the_last_maximum() {
    assert_eq!(last_best(&vec![(s("a"), 3), (s("b"), 7), (s("c"), 7), (s("d"), 1)]), 2);
    assert_eq!(last_best(&vec![(s("a"), -3)]), 0);
}

#[test]
fn swiss_helpers() {
    let standing = vec![(0, 0), (7, 1), (3, 2), (7, 3)];
    let ranked = rank_standing(&standing);
    assert_eq!(ranked, vec![(7, 1), (7, 3), (3, 2), (0, 0)]);
    let settled = settle_round(&ranked, &vec![(1, 5), (3, 0)]);
    assert_eq!(settled, vec![(8, 1), (12, 3), (6, 2), (0, 0)]);
    let odd = settle_round(&vec![(1, 0), (2, 1), (3, 2)], &vec![(10, 20)]);
    assert_eq!(odd, vec![(11, 0), (22, 1), (3, 2)]);
    let pairs = vec![(s("x"), 1), (s("y"), 2), (s("x"), 3)];
    assert_eq!(collect_last_scores(&pairs), vec![(s("x"), 3), (s("y"), 2)]);
}

#[test]
fn counts_add_up_to_the_population() {
    let names = vec![s("a"), s("b"), s("a"), s("c"), s("a")];
    let counts = count_names(&names);
    assert_eq!(counts, vec![(s("a"), 3), (s("b"), 1), (s("c"), 1)]);
    assert_eq!(counts.iter().map(|(_, c)| c).sum::<usize>(), names.len());
}

#[test]
fn evolution_without_survivors_copies_the_best() {
    let mut t = Tournament::new(trio(), game(10));
    let (scores, history) = t.run_evolution(1, 0);
    assert_eq!(history[1], vec![(s("Always Defect"), 3)]);
    assert_eq!(scores, vec![(s("Always Defect"), 90)]);
}

#[test]
fn every_pair_meets_once() {
    // Three strategies under distinct names: six matches, each name in
    // three of them (its own once).
    let t = Tournament::new(
        vec![
            Player::AlwaysCooperate,
            Player::AlwaysDefect,
            Player::TitForTat,
        ],
        game(1),
    );
    // One round each: AC earns 3 (self) + 0 + 3; AD 5 + 1 + 5; TFT 3 + 0 + 3.
    assert_eq!(
        t.run_round_robin(),
        vec![(s("Always Cooperate"), 6), (s("Always Defect"), 11), (s("Tit For Tat"), 6)]
    );
}

#[test]
fn counts_sorted_stably() {
    let counts = vec![(s("a"), 2), (s("b"), 5), (s("c"), 2), (s("d"), 7)];
    assert_eq!(
        sort_counts_descending(&counts),
        vec![(s("d"), 7), (s("b"), 5), (s("a"), 2), (s("c"), 2)]
    );
    assert!(sort_counts_descending(&vec![]).is_empty());
}

#[test]
fn swiss_pairs_by_standing() {
    let t = Tournament::new(
        vec![Player::TitForTat, Player::AlwaysDefect, Player::AlwaysCooperate],
        Game { iterations: 10, ..Game::default() },
    );
    assert_eq!(
        t.run_swiss(2),
        vec![(s("Always Defect"), 28), (s("Tit For Tat"), 18), (s("Always Cooperate"), 0)]
    );
}

#[test]
fn spatial_cooperator_surrounded_by_defectors() {
    let mut grid = Vec::new();
    for y in 0..3 {
        let mut row = Vec::new();
        for x in 0..3 {
            if y == 1 && x == 1 {
                row.push(Player::AlwaysCooperate);
            } else {
                row.push(Player::AlwaysDefect);
            }
        }
        grid.push(row);
    }
    let mut st = SpatialTournament { grid, game: Game { iterations: 10, ..Game::default() } };
    st.step();
    assert_eq!(st.get_population_counts(), vec![(s("Always Defect"), 9)]);
}

#[test]
fn spatial_placement_follows_the_seed() {
    let pool = vec![Player::AlwaysCooperate, Player::AlwaysDefect, Player::TitForTat];
    let a = SpatialTournament::new(5, 4, pool.clone(), game(5));
    let b = SpatialTournament::new(5, 4, pool, game(5));
    let names = |st: &SpatialTournament<Player>| -> Vec<String> {
        st.grid.iter().flat_map(|r| r.iter().map(|c| c.name().to_string())).collect()
    };
    assert_eq!(names(&a), names(&b));
}

#[test]
fn evolution_ranks_individuals() {
    // Two defectors and a Tit For Tat: pooled by name the defectors would
    // double their score; per individual, the ranking is by each one's own
    // total.
    let mut t = Tournament::new(
        vec![Player::AlwaysDefect, Player::TitForTat, Player::AlwaysDefect],
        game(10),
    );
    let (_, history) = t.run_evolution(1, 1);
    assert_eq!(history[0], vec![(s("Always Defect"), 2), (s("Tit For Tat"), 1)]);
    // Individual totals: each defector 10 + 14 + 10 = 34, Tit For Tat
    // 9 + 30 + 9 = 48; the best individual is Tit For Tat.
    assert_eq!(history[1], vec![(s("Tit For Tat"), 3)]);
}

#[test]
fn matches_ended_at_once_score_nothing() {
    let g = Game {
        iterations: 10,
        discount_factor: Chance { numerator: 1, denominator: 1 },
        ..Game::default()
    };
    let t = Tournament::new(vec![Player::AlwaysDefect, Player::AlwaysCooperate], g);
    assert_eq!(t.run_round_robin(), vec![(s("Always Defect"), 0), (s("Always Cooperate"), 0)]);
    assert_eq!(t.run_swiss(3), vec![(s("Always Defect"), 0), (s("Always Cooperate"), 0)]);
}

#[test]
fn early_ends_are_projected_to_the_full_length() {
    // Two cooperators earn 3 per round played; projected to the full length
    // every match is worth 3 * 20, however early it ended, unless it ended
    // before the first round.
    let g = Game {
        iterations: 20,
        discount_factor: Chance { numerator: 1, denominator: 10 },
        seed: Some(4),
        ..Game::default()
    };
    let t = Tournament::new(vec![Player::AlwaysCooperate], g);
    let r = t.run_round_robin();
    assert_eq!(r.len(), 1);
    assert!(r[0].1 == 60 || r[0].1 == 0);
}

#[derive(Clone)]
struct Stubborn(Action);

impl Behaviour for Stubborn {
    fn decide(&mut self, _history: &[Round], _draws: &mut Draws) -> Action {
        self.0
    }
    fn duplicate(&self) -> Self {
        self.clone()
    }
}

#[test]
fn named_behaviours_play_under_their_names() {
    let pool = vec![
        Named { name: s("Stubborn C"), behaviour: Stubborn(Action::Cooperate) },
        Named { name: s("Stubborn D"), behaviour: Stubborn(Action::Defect) },
    ];
    let t = Tournament::new(pool, game(10));
    assert_eq!(t.run_round_robin(), vec![(s("Stubborn C"), 30), (s("Stubborn D"), 60)]);
    let copy = t.strategies[1].clone_box();
    assert_eq!(copy.name(), "Stubborn D");
}

#[test]
fn seeded_placement_uses_the_whole_pool() {
    let pool = vec![Player::AlwaysCooperate, Player::AlwaysDefect];
    let st = SpatialTournament::new(5, 4, pool, game(5));
    let counts = st.get_population_counts();
    assert_eq!(counts.len(), 2);
    assert_eq!(counts.iter().map(|(_, c)| c).sum::<usize>(), 20);
}

/// Cooperates or defects at random, from the match's draws.
#[derive(Clone)]
struct Coin;

impl Behaviour for Coin {
    fn decide(&mut self, _history: &[Round], draws: &mut Draws) -> Action {
        if draws.chance(Chance { numerator: 1, denominator: 2 }) {
            Action::Cooperate
        } else {
            Action::Defect
        }
    }
    fn duplicate(&self) -> Self {
        Coin
    }
}

#[test]
fn a_seed_fixes_random_strategies_too() {
    let g = Game { iterations: 100, seed: Some(11), ..Game::default() };
    let coin = || Named { name: s("Coin"), behaviour: Coin };
    let r1 = g.play(&mut coin(), &mut coin(), None);
    let r2 = g.play(&mut coin(), &mut coin(), None);
    assert_eq!(r1, r2);
    let r3 = g.play(&mut coin(), &mut coin(), Some(12));
    assert_ne!(r1.2, r3.2);
    let defects = r1.2.iter().filter(|r| r.0 == Action::Defect).count();
    assert!(defects > 0 && defects < 100);
}

#[test]
fn evolution_counts_add_up_and_add_no_name() {
    let mut t = Tournament::new(
        vec![Player::AlwaysCooperate, Player::AlwaysDefect, Player::TitForTat, Player::Pavlov],
        game(10),
    );
    let (_, history) = t.run_evolution(3, 2);
    let first = ["Always Cooperate", "Always Defect", "Tit For Tat", "Pavlov"];
    for counts in &history {
        assert_eq!(counts.iter().map(|(_, c)| c).sum::<usize>(), 4);
        assert!(counts.iter().all(|(n, _)| first.contains(&n.as_str())));
    }
}

#[test]
fn spatial_matches_ended_at_once_change_nothing() {
    let g = Game {
        iterations: 10,
        discount_factor: Chance { numerator: 1, denominator: 1 },
        ..Game::default()
    };
    let grid = vec![
        vec![Player::AlwaysCooperate, Player::AlwaysDefect, Player::TitForTat],
        vec![Player::AlwaysDefect, Player::AlwaysCooperate, Player::AlwaysDefect],
        vec![Player::TitForTat, Player::AlwaysDefect, Player::AlwaysCooperate],
    ];
    let mut st = SpatialTournament { grid, game: g };
    let before: Vec<String> = st.grid.iter().flat_map(|r| r.iter().map(|c| c.name().to_string())).collect();
    st.step();
    let after: Vec<String> = st.grid.iter().flat_map(|r| r.iter().map(|c| c.name().to_string())).collect();
    assert_eq!(before, after);
}
