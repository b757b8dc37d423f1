pub mod alternator;
pub mod always_cooperate;
pub mod always_defect;
pub mod detective;
pub mod grudger;
pub mod handshake;
pub mod pattern_matcher;
pub mod pavlov;
pub mod tit_for_tat;
pub mod memory_n;
pub mod player;
