//! Domain logic of a real-time quiz game gateway: the game state machine,
//! its events and leaderboard, the msgpack layout of a stored game, cookie
//! based session lookup, configuration and the game actor's decisions.

pub mod assoc;
pub mod time;
pub mod player;
pub mod question;
pub mod events;
pub mod commands;
pub mod scoring;
pub mod game;
pub mod msgpack;
pub mod codec;
pub mod session;
pub mod config;
pub mod store;
pub mod actor;
pub mod socket;
