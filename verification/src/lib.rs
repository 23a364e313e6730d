//! Core of a small real-time text relay: a binary frame codec, a concurrent
//! directory of logged-in users, and the per-connection session steps that
//! sequence login, chat, and logout.

pub mod codec;
pub mod context;
pub mod frame;
pub mod logic;
