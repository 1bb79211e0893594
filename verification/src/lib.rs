//! Multi-agent competition arena for balanced ternary systems.
//!
//! Agents carrying ternary strategies compete in matches under a payoff
//! table, organised into single-elimination tournaments; a scoreboard
//! tracks standings and a spectator records match outcomes.

pub mod agent;
pub mod arena;
pub mod game;
pub mod rules;
pub mod scoreboard;
pub mod spectator;
pub mod tournament;
pub mod trit;

pub use agent::Agent;
pub use arena::Arena;
pub use game::{Match, RoundResult};
pub use rules::ArenaRules;
pub use scoreboard::ScoreBoard;
pub use spectator::{ArenaSpectator, MatchObservation};
pub use tournament::Tournament;
pub use trit::Trit;
