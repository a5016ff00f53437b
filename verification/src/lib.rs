//! The engine of a poker table: cards packed into machine words, the
//! strength of hands with wild cards and cards that win it all, the pots
//! of a hand and who wins them, and the rounds of a hand as a state
//! machine.

pub mod bitcard;
pub mod bot;
pub mod card;
pub mod comb;
pub mod fold_channel;
pub mod game;
pub mod gamestate;
pub mod order;
pub mod pots;
pub mod special_card;
pub mod static_files;
pub mod strength;
pub mod table;
pub mod viewstate;
