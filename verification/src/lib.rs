//! Session and protocol engine of a two-player word-guessing game server.
//!
//! The crate holds the wire codec, the client directory, the handshake, the
//! matchmaking commands and the game session as pure state machines: every
//! function maps a state and an incoming frame to the next state and the
//! frames to send. Sockets and scheduling belong to the program around it.

pub mod text;
pub mod constants;

pub mod codec;
pub mod registry;
pub mod game;
pub mod client_handler;
