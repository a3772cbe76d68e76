//! A single-deck Blackjack engine: the card and deck model, ace-aware hand
//! scoring, the turn state machine and the byte format a match is saved in.
pub mod blackjack;
pub mod cards;
pub mod cli;
pub mod prompt;
pub mod terminal;

pub use crate::blackjack::{init_game, Action, BlackjackError, Game, Phase, Player};
pub use crate::cards::{Card, CardNumber, Deck, Suits};
pub use crate::cli::Args;
