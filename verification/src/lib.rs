//! Verified poker (Texas Hold'em and Omaha) game logic.

pub mod errors;
pub mod keys;
pub mod account;
pub mod essential;
pub mod effect;
pub mod holdem_evaluator;
pub mod card_views;
pub mod hand_history;
pub mod omaha_evaluator;
pub mod game;
pub mod settle;
pub mod event;
pub mod showdown;
pub mod handler;
pub mod variant;
pub mod mtt_base;
pub mod mtt_table;
pub mod mtt;
pub mod ltmtt;
pub mod ltmtt_player;
pub mod laws;
pub mod showdown_laws;
pub mod hand_laws;
pub mod omaha_laws;
pub mod tournament_laws;
