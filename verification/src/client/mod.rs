//! The client side: parsing server lines and reconciling them with the commands sent.

pub mod console;
pub mod laws;
pub mod protocol;
pub mod state;
pub mod tap;
