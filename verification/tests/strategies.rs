use game_theory::strategies::alternator::Alternator;
use game_theory::strategies::always_cooperate::AlwaysCooperate;
use game_theory::strategies::always_defect::AlwaysDefect;
use game_theory::strategies::detective::Detective;
use game_theory::strategies::grudger::{any_opponent_defection, Grudger};
use game_theory::strategies::handshake::Handshake;
use game_theory::strategies::memory_n::{same_rounds, MemoryN, ResponseTable};
use game_theory::strategies::pattern_matcher::PatternMatcher;
use game_theory::strategies::pavlov::Pavlov;
use game_theory::strategies::tit_for_tat::TitForTat;
use game_theory::{Action, Chance, Strategy};

const C: Action = Action::Cooperate;
const D: Action = Action::Defect;

#[test]
fn flip_swaps_moves() {
    assert_eq!(C.flip(), D);
    assert_eq!(D.flip(), C);
    assert_eq!(C.flip().flip(), C);
}

#[test]
fn always_cooperate_and_always_defect() {
    let mut ac = AlwaysCooperate;
    let mut ad = AlwaysDefect;
    assert_eq!(ac.next_move(&[]), C);
    assert_eq!(ac.next_move(&[(C, D), (C, D)]), C);
    assert_eq!(ad.next_move(&[]), D);
    assert_eq!(ad.next_move(&[(D, C)]), D);
    assert_eq!(ac.name(), "Always Cooperate");
    assert_eq!(ad.name(), "Always Defect");
}

#[test]
fn tit_for_tat_copies_last_opponent_move() {
    let mut s = TitForTat;
    assert_eq!(s.next_move(&[]), C);
    assert_eq!(s.next_move(&[(C, D)]), D);
    assert_eq!(s.next_move(&[(C, D), (D, C)]), C);
    assert_eq!(s.name(), "Tit For Tat");
    assert_eq!(s.clone_box().name(), "Tit For Tat");
}

#[test]
fn tit_for_tat_never_defects_first() {
    let mut s = TitForTat;
    let h = vec![(C, C); 7];
    assert_eq!(s.next_move(&h), C);
}

#[test]
fn pavlov_win_stay_lose_shift() {
    let mut s = Pavlov;
    assert_eq!(s.next_move(&[]), C);
    assert_eq!(s.next_move(&[(C, C)]), C);
    assert_eq!(s.next_move(&[(D, D)]), C);
    assert_eq!(s.next_move(&[(C, D)]), D);
    assert_eq!(s.next_move(&[(D, C)]), D);
}

#[test]
fn grudger_never_forgives() {
    let mut s = Grudger;
    assert_eq!(s.next_move(&[]), C);
    assert_eq!(s.next_move(&[(C, C), (C, C)]), C);
    assert_eq!(s.next_move(&[(C, D)]), D);
    assert_eq!(s.next_move(&[(C, D), (D, C), (D, C), (D, C)]), D);
    assert!(any_opponent_defection(&[(C, C), (D, D)]));
    assert!(!any_opponent_defection(&[(D, C), (D, C)]));
}

#[test]
fn handshake_recognises_partner() {
    let mut s = Handshake;
    assert_eq!(s.next_move(&[]), C);
    assert_eq!(s.next_move(&[(C, C)]), D);
    // A partner that answered C then D: Tit For Tat afterwards.
    assert_eq!(s.next_move(&[(C, C), (D, D), (C, C)]), C);
    assert_eq!(s.next_move(&[(C, C), (D, D), (C, D)]), D);
    // Any other opening: defect.
    assert_eq!(s.next_move(&[(C, C), (D, C), (D, C)]), D);
}

#[test]
fn alternator_alternates() {
    let mut s = Alternator;
    assert_eq!(s.next_move(&[]), C);
    assert_eq!(s.next_move(&[(C, C)]), D);
    assert_eq!(s.next_move(&[(C, C), (D, D)]), C);
}

#[test]
fn detective_opening_then_exploit_or_tft() {
    let mut s = Detective;
    assert_eq!(s.next_move(&[]), C);
    assert_eq!(s.next_move(&[(C, C)]), D);
    assert_eq!(s.next_move(&[(C, C), (D, C)]), C);
    assert_eq!(s.next_move(&[(C, C), (D, C), (C, C)]), C);
    // Never betrayed: exploit.
    assert_eq!(s.next_move(&[(C, C), (D, C), (C, C), (C, C)]), D);
    // Betrayed once: Tit For Tat.
    assert_eq!(s.next_move(&[(C, C), (D, D), (C, C), (C, C)]), C);
    assert_eq!(s.next_move(&[(C, C), (D, D), (C, C), (C, D)]), D);
    // Not betrayed during the opening: a later defection changes nothing.
    assert_eq!(s.next_move(&[(C, C), (D, C), (C, C), (C, C), (D, D), (D, C)]), D);
}

#[test]
fn pattern_matcher_detects_repeated_window() {
    let mut s = PatternMatcher;
    let short = vec![(C, D); 7];
    assert_eq!(s.next_move(&short), C);
    // The opponent repeats C, D, D, C twice: it is predicted to cooperate
    // next, and is answered in kind.
    let opp = [C, D, D, C, C, D, D, C];
    let h: Vec<(Action, Action)> = opp.iter().map(|o| (C, *o)).collect();
    assert_eq!(s.next_move(&h), C);
    // The opponent repeats D, C, C, D twice: it is predicted to defect.
    let opp = [D, C, C, D, D, C, C, D];
    let h: Vec<(Action, Action)> = opp.iter().map(|o| (C, *o)).collect();
    assert_eq!(s.next_move(&h), D);
    // The reply follows the prediction.
    assert_eq!(s.next_move(&vec![(C, C); 8]), C);
    assert_eq!(s.next_move(&vec![(C, D); 8]), D);
    // No repetition: copy the opponent's last move.
    let opp = [C, D, D, C, C, D, C, C];
    let h: Vec<(Action, Action)> = opp.iter().map(|o| (C, *o)).collect();
    assert_eq!(s.next_move(&h), C);
    assert_eq!(s.name(), "Pattern Matcher (W=4)");
}

#[test]
fn memory_n_is_named_after_its_memory() {
    assert_eq!(MemoryN::new(3, C, ResponseTable::new()).name, "Memory-3");
    assert_eq!(MemoryN::new(0, C, ResponseTable::new()).name, "Memory-0");
    assert_eq!(MemoryN::new(1024, D, ResponseTable::new()).name, "Memory-1024");
}

#[test]
fn response_table_insert_replaces() {
    let mut t = ResponseTable::new();
    assert_eq!(t.get(&[(C, C)]), None);
    t.insert(vec![(C, C)], D);
    t.insert(vec![(C, D), (D, D)], C);
    assert_eq!(t.get(&[(C, C)]), Some(D));
    assert_eq!(t.get(&[(C, D), (D, D)]), Some(C));
    t.insert(vec![(C, C)], C);
    assert_eq!(t.get(&[(C, C)]), Some(C));
    assert_eq!(t.get(&[(D, D)]), None);
    assert!(same_rounds(&[(C, D)], &[(C, D)]));
    assert!(!same_rounds(&[(C, D)], &[(D, C)]));
    assert!(!same_rounds(&[(C, D)], &[]));
}

#[test]
fn memory_n_answers_recent_rounds() {
    let mut t = ResponseTable::new();
    t.insert(vec![(C, D), (D, D)], C);
    let mut s = MemoryN::new(2, D, t);
    assert_eq!(s.next_move(&[]), D);
    // Fewer rounds than the memory: the whole history is the state.
    assert_eq!(s.next_move(&[(D, D)]), C);
    assert_eq!(s.next_move(&[(C, C), (C, D), (D, D)]), C);
    assert_eq!(s.next_move(&[(C, D), (D, D), (C, C)]), C);
}

#[test]
fn memory_one_from_responses_is_tit_for_tat() {
    let mut s = MemoryN::memory_1_from_responses(C, D, C, D, C, "TFT (as Memory-1)".to_string());
    assert_eq!(s.memory, 1);
    assert_eq!(s.name(), "TFT (as Memory-1)");
    assert_eq!(s.next_move(&[]), C);
    assert_eq!(s.next_move(&[(C, D)]), D);
    assert_eq!(s.next_move(&[(C, D), (D, C)]), C);
    assert_eq!(s.next_move(&[(D, D), (D, D)]), D);
    let copy = s.clone_box();
    assert_eq!(copy.name(), "TFT (as Memory-1)");
}

#[test]
fn memory_n_looks_only_at_its_window() {
    let mut t = ResponseTable::new();
    t.insert(vec![(C, D), (D, D)], D);
    let mut s = MemoryN::new(2, C, t);
    let h1 = vec![(D, D), (C, D), (D, D)];
    let h2 = vec![(C, C), (D, C), (C, D), (D, D)];
    assert_eq!(s.next_move(&h1), D);
    assert_eq!(s.next_move(&h2), D);
    // No response for the window: cooperate.
    assert_eq!(s.next_move(&[(C, C), (C, C)]), C);
}

#[test]
fn memory_one_with_certain_chances() {
    let always = Chance { numerator: 1, denominator: 1 };
    let never = Chance { numerator: 0, denominator: 7 };
    let mut m = MemoryN::memory_1(always, never, always, never, D, "TFT-like".to_string());
    assert_eq!(m.name(), "TFT-like");
    assert_eq!(m.next_move(&[]), D);
    assert_eq!(m.next_move(&[(C, C)]), C);
    assert_eq!(m.next_move(&[(C, D)]), D);
    assert_eq!(m.next_move(&[(D, C)]), C);
    assert_eq!(m.next_move(&[(D, D)]), D);
}
