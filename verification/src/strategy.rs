use vstd::prelude::*;
use crate::action::{Action, Round};
use crate::draws::Draws;

verus! {

/// A player of the iterated prisoner's dilemma.
///
/// `next_move` receives the history from the player's own point of view:
/// each round is (own move, opponent's move). A strategy keeps its name for
/// its whole life: no call changes what `name` returns, and `clone_box`
/// gives a copy under the same name. A reactive strategy is one whose move
/// is a function of the history alone (`reply`): it keeps no state, so a
/// copy of it plays exactly as it does. The library's implementations are
/// verified to keep these promises. The spec functions have no default, so
/// a way of playing written outside Verus implements `Behaviour` instead and
/// takes part as `Named`, which keeps the name it is given.
pub trait Strategy: Sized {
    /// The name that `name` returns, as characters.
    spec fn label(&self) -> Seq<char>;

    /// Whether the strategy is reactive: its move depends on the history
    /// alone, and playing or resetting it changes nothing.
    spec fn is_reactive() -> bool;

    /// The move a reactive strategy makes after the given history.
    spec fn reply(&self, history: Seq<Round>) -> Action;

    fn name(&self) -> (r: &str)
        ensures
            r@ == self.label(),
    ;

    fn next_move(&mut self, history: &[Round]) -> (r: Action)
        ensures
            final(self).label() == old(self).label(),
            Self::is_reactive() ==> r == old(self).reply(history@),
            Self::is_reactive() ==> forall|h: Seq<Round>|
                #[trigger] final(self).reply(h) == old(self).reply(h),
    ;

    /// The move after the history within a match, with the match's draws at
    /// hand for a strategy that chooses at random. A reactive strategy makes
    /// its reply and draws nothing. By default, the move of `next_move`.
    fn respond(&mut self, history: &[Round], draws: &mut Draws) -> (r: Action)
        ensures
            final(self).label() == old(self).label(),
            Self::is_reactive() ==> r == old(self).reply(history@),
            Self::is_reactive() ==> forall|h: Seq<Round>|
                #[trigger] final(self).reply(h) == old(self).reply(h),
            Self::is_reactive() ==> *final(draws) == *old(draws),
    {
        self.next_move(history)
    }

    /// A copy of the strategy.
    fn clone_box(&self) -> (r: Self)
        ensures
            r.label() == self.label(),
            Self::is_reactive() ==> forall|h: Seq<Round>| #[trigger] r.reply(h) == self.reply(h),
    ;

    /// Forgets whatever was learnt during a match.
    fn reset(&mut self)
        ensures
            final(self).label() == old(self).label(),
            Self::is_reactive() ==> forall|h: Seq<Round>|
                #[trigger] final(self).reply(h) == old(self).reply(h),
    {
    }
}

/// A way of playing, with nothing promised of it: what a strategy written
/// outside the library implements.
pub trait Behaviour: Sized {
    /// Whether the behaviour decides by `decision` alone: from the history
    /// it is handed, keeping no state and drawing nothing. A behaviour
    /// written outside Verus keeps the default, and nothing is stated of it.
    closed spec fn decides_by_history() -> bool {
        false
    }

    /// The decision of a behaviour that decides by the history alone.
    closed spec fn decision(&self, history: Seq<Round>) -> Action {
        Action::Cooperate
    }

    /// The move after the given history (own move first in each round);
    /// a behaviour that chooses at random draws from `draws`.
    fn decide(&mut self, history: &[Round], draws: &mut Draws) -> (r: Action)
        ensures
            Self::decides_by_history() ==> r == old(self).decision(history@),
            Self::decides_by_history() ==> forall|h: Seq<Round>|
                #[trigger] final(self).decision(h) == old(self).decision(h),
            Self::decides_by_history() ==> *final(draws) == *old(draws),
    ;

    /// A copy of the behaviour.
    fn duplicate(&self) -> (r: Self)
        ensures
            Self::decides_by_history() ==> forall|h: Seq<Round>| #[trigger] r.decision(h) == self.decision(h),
    ;

    /// Forgets whatever was learnt during a match.
    fn forget(&mut self)
        ensures
            Self::decides_by_history() ==> forall|h: Seq<Round>|
                #[trigger] final(self).decision(h) == old(self).decision(h),
    {
    }
}

/// A behaviour playing under a name: a strategy whose name is the one it
/// was given, whatever the behaviour does. It plays the behaviour's
/// decisions on the history from its own side, and it is reactive when the
/// behaviour decides by the history alone.
pub struct Named<B: Behaviour> {
    pub name: String,
    pub behaviour: B,
}

impl<B: Behaviour> Strategy for Named<B> {
    open spec fn label(&self) -> Seq<char> {
        self.name@
    }

    open spec fn is_reactive() -> bool {
        B::decides_by_history()
    }

    open spec fn reply(&self, history: Seq<Round>) -> Action {
        self.behaviour.decision(history)
    }

    fn name(&self) -> (r: &str) {
        self.name.as_str()
    }

    /// Outside a match the behaviour draws from a generator seeded from the
    /// system.
    fn next_move(&mut self, history: &[Round]) -> (r: Action) {
        let mut draws = Draws::from_system();
        self.behaviour.decide(history, &mut draws)
    }

    fn respond(&mut self, history: &[Round], draws: &mut Draws) -> (r: Action) {
        self.behaviour.decide(history, draws)
    }

    fn clone_box(&self) -> (r: Self) {
        Named { name: self.name.clone(), behaviour: self.behaviour.duplicate() }
    }

    fn reset(&mut self) {
        self.behaviour.forget();
    }
}

/// The names of a sequence of strategies.
pub open spec fn labels<S: Strategy>(v: Seq<S>) -> Seq<Seq<char>> {
    Seq::new(v.len(), |i: int| v[i].label())
}

/// Two strategies make the same move after every history.
pub open spec fn same_play<S: Strategy>(a: S, b: S) -> bool {
    forall|h: Seq<Round>| #[trigger] a.reply(h) == b.reply(h)
}

} // verus!
