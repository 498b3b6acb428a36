//! Game logic of a line-based multiplayer text adventure: the wire protocol,
//! the client's reply reconciliation and the server's world and commands.

pub mod client;
pub mod server;
pub mod text;
