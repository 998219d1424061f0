//! Rules engine of a turn-based card battle game played on a hexagonal,
//! multi-level board ("the mountain"): the board geometry, the players'
//! combat state, the effect grammar, target resolution and effect
//! application, and the turn lifecycle of timed modifiers.
pub mod board;
pub mod collections;
pub mod effects;
pub mod errors;
pub mod game_state;
pub mod ids;
pub mod models;
pub mod server;

pub use collections::Collection;
pub use effects::{Effect, EffectTarget};
pub use errors::GameError;
pub use game_state::GameState;
pub use models::{Card, Deck, Player, Rarity};
