use game_theory::game::{round_payoffs, Chance, Game};
use game_theory::history::swap_perspective;
use game_theory::experiment::cooperation_count;
use game_theory::strategies::always_cooperate::AlwaysCooperate;
use game_theory::strategies::always_defect::AlwaysDefect;
use game_theory::strategies::tit_for_tat::TitForTat;
use game_theory::Action;

const C: Action = Action::Cooperate;
const D: Action = Action::Defect;

fn chance(numerator: u32, denominator: u32) -> Chance {
    Chance { numerator, denominator }
}

fn game(iterations: usize, noise: Chance, discount: Chance, seed: Option<u64>) -> Game {
    Game {
        iterations,
        action_noise: noise,
        perception_noise: chance(0, 1),
        discount_factor: discount,
        payoffs: (5, 3, 1, 0),
        seed,
    }
}

fn never() -> Chance {
    chance(0, 1)
}

#[test]
fn payoff_table() {
    let p = (5, 3, 1, 0);
    assert_eq!(round_payoffs(p, C, C), (3, 3));
    assert_eq!(round_payoffs(p, C, D), (0, 5));
    assert_eq!(round_payoffs(p, D, C), (5, 0));
    assert_eq!(round_payoffs(p, D, D), (1, 1));
}

#[test]
fn payoffs_are_symmetric() {
    let p = (7, 4, -2, -9);
    for a in [C, D] {
        for b in [C, D] {
            let (x, y) = round_payoffs(p, a, b);
            assert_eq!(round_payoffs(p, b, a), (y, x));
        }
    }
}

#[test]
fn default_game() {
    let g = Game::default();
    assert_eq!(g.iterations, 200);
    assert_eq!(g.payoffs, (5, 3, 1, 0));
    assert_eq!(g.seed, None);
    assert_eq!(g.discount_factor, never());
    assert_eq!(g.action_noise, never());
    assert_eq!(g.perception_noise, never());
}

#[test]
fn resolve_round_applies_noise() {
    let g = game(10, never(), never(), None);
    assert_eq!(g.resolve_round(C, D, false, false), ((C, D), (0, 5)));
    assert_eq!(g.resolve_round(C, D, true, false), ((D, D), (1, 1)));
    assert_eq!(g.resolve_round(C, D, false, true), ((C, C), (3, 3)));
    assert_eq!(g.resolve_round(C, D, true, true), ((D, C), (5, 0)));
}

#[test]
fn tit_for_tat_against_always_defect() {
    let g = game(200, never(), never(), Some(7));
    let (a, b, h) = g.play(&mut TitForTat, &mut AlwaysDefect, None);
    assert_eq!(h.len(), 200);
    assert_eq!(h[0], (C, D));
    assert!(h[1..].iter().all(|r| *r == (D, D)));
    assert_eq!((a, b), (199, 204));
}

#[test]
fn match_without_discount_lasts_every_round() {
    let g = game(37, chance(3, 10), never(), Some(11));
    let (a, b, h) = g.play(&mut TitForTat, &mut AlwaysCooperate, None);
    assert_eq!(h.len(), 37);
    let mut s1 = 0;
    let mut s2 = 0;
    for (x, y) in &h {
        let (p, q) = round_payoffs((5, 3, 1, 0), *x, *y);
        s1 += p;
        s2 += q;
    }
    assert_eq!((a, b), (s1, s2));
}

#[test]
fn certain_end_stops_before_first_round() {
    let g = game(50, never(), chance(1, 1), Some(3));
    let (a, b, h) = g.play(&mut TitForTat, &mut AlwaysCooperate, None);
    assert!(h.is_empty());
    assert_eq!((a, b), (0, 0));
}

#[test]
fn certain_noise_flips_every_move() {
    let g = game(3, chance(1, 1), never(), Some(3));
    let (_, _, h) = g.play(&mut AlwaysCooperate, &mut AlwaysDefect, None);
    assert_eq!(h, vec![(D, C), (D, C), (D, C)]);
}

#[test]
fn same_seed_same_match() {
    let g = game(100, chance(1, 5), chance(1, 100), Some(42));
    let r1 = g.play(&mut TitForTat, &mut TitForTat, None);
    let r2 = g.play(&mut TitForTat, &mut TitForTat, None);
    assert_eq!(r1, r2);
    let r3 = g.play(&mut TitForTat, &mut TitForTat, Some(42));
    assert_eq!(r1, r3);
}

#[test]
fn swap_perspective_exchanges_moves() {
    let h = vec![(C, D), (D, D), (D, C)];
    let s = swap_perspective(&h);
    assert_eq!(s, vec![(D, C), (D, D), (C, D)]);
    assert_eq!(swap_perspective(&s), h);
}

#[test]
fn cooperation_count_counts_both_players() {
    assert_eq!(cooperation_count(&[]), 0);
    assert_eq!(cooperation_count(&[(C, C), (C, D), (D, D)]), 3);
    let h = vec![(C, D), (D, D), (D, C)];
    assert_eq!(cooperation_count(&swap_perspective(&h)), cooperation_count(&h));
}

#[test]
fn exchanging_players_exchanges_scores() {
    let g = game(25, never(), never(), Some(9));
    let (a, b, h) = g.play(&mut TitForTat, &mut AlwaysDefect, None);
    let (c, d, k) = g.play(&mut AlwaysDefect, &mut TitForTat, None);
    assert_eq!((a, b), (d, c));
    assert_eq!(swap_perspective(&h), k);
}

#[test]
fn always_defect_against_tit_for_tat() {
    let mut g = Game::default();
    g.iterations = 3;
    let r = g.play(&mut AlwaysDefect, &mut TitForTat, Some(0));
    assert_eq!(r, (7, 2, vec![(D, C), (D, D), (D, D)]));
}

#[test]
fn certain_end_without_seed_plays_nothing() {
    let g = game(10, chance(1, 2), chance(3, 3), None);
    let (a, b, h) = g.play(&mut AlwaysDefect, &mut TitForTat, None);
    assert_eq!((a, b, h.len()), (0, 0, 0));
}

#[test]
fn uncertain_end_stays_within_the_rounds() {
    let g = game(40, never(), chance(1, 4), Some(5));
    let (a, b, h) = g.play(&mut AlwaysCooperate, &mut AlwaysCooperate, None);
    assert!(h.len() <= 40);
    assert_eq!((a, b), (3 * h.len() as i32, 3 * h.len() as i32));
}

#[test]
fn exchanging_players_under_a_seed_exchanges_the_match() {
    // The end of the match is drawn from the same words whichever player is
    // first: with the same seed and no noise the two matches mirror each
    // other.
    let g = game(60, never(), chance(1, 20), Some(5));
    let (a, b, h) = g.play(&mut TitForTat, &mut AlwaysDefect, None);
    let (c, d, k) = g.play(&mut AlwaysDefect, &mut TitForTat, None);
    assert_eq!((a, b), (d, c));
    assert_eq!(swap_perspective(&h), k);
}

#[test]
fn seeds_give_their_own_matches() {
    let g = game(100, chance(1, 10), chance(1, 50), None);
    let r1 = g.play(&mut TitForTat, &mut TitForTat, Some(1));
    let r2 = g.play(&mut TitForTat, &mut TitForTat, Some(1));
    assert_eq!(r1, r2);
}

#[test]
fn different_seeds_draw_different_noise() {
    let g = game(200, chance(1, 2), never(), None);
    let (_, _, h1) = g.play(&mut AlwaysCooperate, &mut AlwaysCooperate, Some(1));
    let (_, _, h2) = g.play(&mut AlwaysCooperate, &mut AlwaysCooperate, Some(2));
    assert_ne!(h1, h2);
    // Half the moves flipped, roughly: neither none nor all.
    let flipped = h1.iter().filter(|r| r.0 == D).count();
    assert!(flipped > 0 && flipped < 200);
}
