//! A turn-based grid game engine and its score-ranking companion.
//!
//! The `snek` module owns the board and the movement/collision/growth
//! state machine; the `highscores` module picks the winning record among
//! recorded attempts under a deterministic total order.

pub mod highscores;
pub mod snek;
