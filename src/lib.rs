//! Five-card poker hand evaluation and hold'em equity simulation.
pub mod card;
pub mod hands;
pub mod deck;
pub mod game;
