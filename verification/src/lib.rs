pub mod action;
pub mod draws;
pub mod evolution;
pub mod experiment;
pub mod finale;
pub mod game;
pub mod history;
pub mod ranking;
pub mod rng;
pub mod scores;
pub mod spatial;
pub mod strategies;
pub mod strategy;
pub mod swiss;
pub mod text;
pub mod tournament;

pub use action::{Action, History, Round};
pub use draws::Draws;
pub use game::{Chance, Game};
pub use spatial::SpatialTournament;
pub use strategies::player::Player;
pub use strategy::{Behaviour, Named, Strategy};
pub use tournament::Tournament;
