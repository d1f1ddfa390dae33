//! Verified core of the Kodecks game client: the bot's search over
//! attack and block choices, its scoring, the board state the player
//! edits, card-number rendering, save-data framing and the small
//! decisions the client makes around them.
#![allow(unused_imports)]

pub mod ids;
pub mod entropy;
pub mod combinations;
pub mod game;
pub mod score;
pub mod sorting;
pub mod choice;
pub mod simple;
pub mod bot;
pub mod mcts;
pub mod stable;
pub mod board;
pub mod save_data;
pub mod log;
pub mod deck;
pub mod painter;
pub mod client;
pub mod lang;
pub mod translator;
pub mod server;
pub mod card_info;
