//! A deck of items: a draw pile worked from both ends, a discard pile and a
//! pile of items taken out of play, with shuffling and sparse insertion of a
//! batch of items at random, evenly spread depths of the draw pile.

pub mod deck;
pub mod layout;
mod random;

pub use deck::Deck;
