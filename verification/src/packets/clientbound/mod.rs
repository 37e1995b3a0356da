//! Packets from the server to the client, by connection state.

pub mod login;
pub mod play;
pub mod status;
