//! The server side: the world, the players and the commands they send.

pub mod commands;
pub mod flood;
pub mod game;
pub mod laws;
pub mod answers;
pub mod player;
pub mod reply;
pub mod session;
pub mod validate;
pub mod world;
