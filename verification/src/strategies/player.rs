use vstd::prelude::*;
use crate::action::{Action, Round};
use crate::strategies::alternator::{alternator_move, Alternator};
use crate::strategies::always_cooperate::AlwaysCooperate;
use crate::strategies::always_defect::AlwaysDefect;
use crate::strategies::detective::{detective_move, Detective};
use crate::strategies::grudger::{grudger_move, Grudger};
use crate::strategies::handshake::{handshake_move, Handshake};
use crate::strategies::memory_n::{memory_move, MemoryN};
use crate::strategies::pattern_matcher::{pattern_matcher_move, PatternMatcher};
use crate::strategies::pavlov::{pavlov_move, Pavlov};
use crate::strategies::tit_for_tat::{tit_for_tat_move, TitForTat};
use crate::draws::Draws;
use crate::strategy::{Behaviour, Strategy};

verus! {

/// Any one of the library's strategies, so that a population can mix them
/// and every promise of the strategies still holds of it.
#[derive(Clone, Debug)]
pub enum Player {
    AlwaysCooperate,
    AlwaysDefect,
    TitForTat,
    Pavlov,
    Grudger,
    Detective,
    Alternator,
    Handshake,
    PatternMatcher,
    Memory(MemoryN),
}

impl Strategy for Player {
    open spec fn label(&self) -> Seq<char> {
        match self {
            Player::AlwaysCooperate => AlwaysCooperate.label(),
            Player::AlwaysDefect => AlwaysDefect.label(),
            Player::TitForTat => TitForTat.label(),
            Player::Pavlov => Pavlov.label(),
            Player::Grudger => Grudger.label(),
            Player::Detective => Detective.label(),
            Player::Alternator => Alternator.label(),
            Player::Handshake => Handshake.label(),
            Player::PatternMatcher => PatternMatcher.label(),
            Player::Memory(m) => m.label(),
        }
    }

    open spec fn is_reactive() -> bool {
        true
    }

    open spec fn reply(&self, history: Seq<Round>) -> Action {
        match self {
            Player::AlwaysCooperate => Action::Cooperate,
            Player::AlwaysDefect => Action::Defect,
            Player::TitForTat => tit_for_tat_move(history),
            Player::Pavlov => pavlov_move(history),
            Player::Grudger => grudger_move(history),
            Player::Detective => detective_move(history),
            Player::Alternator => alternator_move(history),
            Player::Handshake => handshake_move(history),
            Player::PatternMatcher => pattern_matcher_move(history),
            Player::Memory(m) => memory_move(m.memory as nat, m.table@, m.initial_move, history),
        }
    }

    fn name(&self) -> (r: &str) {
        match self {
            Player::AlwaysCooperate => AlwaysCooperate.name(),
            Player::AlwaysDefect => AlwaysDefect.name(),
            Player::TitForTat => TitForTat.name(),
            Player::Pavlov => Pavlov.name(),
            Player::Grudger => Grudger.name(),
            Player::Detective => Detective.name(),
            Player::Alternator => Alternator.name(),
            Player::Handshake => Handshake.name(),
            Player::PatternMatcher => PatternMatcher.name(),
            Player::Memory(m) => m.name(),
        }
    }

    fn next_move(&mut self, history: &[Round]) -> (r: Action) {
        match self {
            Player::AlwaysCooperate => AlwaysCooperate.next_move(history),
            Player::AlwaysDefect => AlwaysDefect.next_move(history),
            Player::TitForTat => TitForTat.next_move(history),
            Player::Pavlov => Pavlov.next_move(history),
            Player::Grudger => Grudger.next_move(history),
            Player::Detective => Detective.next_move(history),
            Player::Alternator => Alternator.next_move(history),
            Player::Handshake => Handshake.next_move(history),
            Player::PatternMatcher => PatternMatcher.next_move(history),
            Player::Memory(m) => m.next_move(history),
        }
    }

    fn clone_box(&self) -> (r: Self) {
        match self {
            Player::AlwaysCooperate => Player::AlwaysCooperate,
            Player::AlwaysDefect => Player::AlwaysDefect,
            Player::TitForTat => Player::TitForTat,
            Player::Pavlov => Player::Pavlov,
            Player::Grudger => Player::Grudger,
            Player::Detective => Player::Detective,
            Player::Alternator => Player::Alternator,
            Player::Handshake => Player::Handshake,
            Player::PatternMatcher => Player::PatternMatcher,
            Player::Memory(m) => {
                let c = m.clone_box();
                let r = Player::Memory(c);
                assert forall|h: Seq<Round>| #[trigger] r.reply(h) == self.reply(h) by {
                    assert(c.reply(h) == m.reply(h));
                }
                r
            },
        }
    }
}

/// A library strategy as a behaviour, so that it can play under another
/// name: it decides by its reply.
impl Behaviour for Player {
    open spec fn decides_by_history() -> bool {
        true
    }

    open spec fn decision(&self, history: Seq<Round>) -> Action {
        self.reply(history)
    }

    fn decide(&mut self, history: &[Round], draws: &mut Draws) -> (r: Action) {
        self.next_move(history)
    }

    fn duplicate(&self) -> (r: Self) {
        self.clone_box()
    }
}

} // verus!
