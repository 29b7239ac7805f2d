//! Poker hand simulation: cards and shoes, hand evaluation with wild cards,
//! configurable table rules and a dealer that plays whole hands.

pub mod card;
pub mod deck;
pub mod hand;
pub mod player;
pub mod rules;
pub mod simulator;
pub mod text;

pub use card::{Card, CardParseError, Rank, Suit};
pub use deck::Deck;
pub use hand::{combinations, Hand, HandRank};
pub use player::Player;
pub use rules::{parse_hole_range, GameRules, GameRulesBuilder, RulesError};
pub use simulator::PokerSimulator;
