//! A persistent key-value store: commands, replies, the append-only log, the
//! snapshot, and the framing of client input.
//!
//! The library computes; it never touches a file or a socket. Where the outside
//! has to act, a function returns what to do and a later call takes the outcome.

pub mod text;
pub mod glob;
pub mod reply;
pub mod command;
pub mod table;
pub mod lines;
pub mod journal;
pub mod config;
pub mod store;
pub mod server;
pub mod grammar;
pub mod recovery;
pub mod entries;
pub mod behaviour;
pub mod durability;
pub mod history;
pub mod framing;
