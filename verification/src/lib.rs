//! A small Redis-like key-value store with JSON values, reached through a
//! compact binary frame protocol.
//!
//! The store answers `PING`, `SET`, `GET`, `DEL`, `EXISTS`, `MGET`, `KEYS`,
//! `DUMP`, `LOAD`, `JSON.SET` and `JSON.GET`; keys under `const:` live in a
//! write-once namespace.

pub mod client;
pub mod clock;
pub mod codec;
pub mod command_line;
pub mod commands;
pub mod dump;
pub mod glob;
pub mod item;
pub mod json;
pub mod laws;
pub mod server;
pub mod size;
pub mod store;
pub mod table;
pub mod text;
pub mod transport;
pub mod ttl;

pub use codec::{decode_command, decode_response, encode_command, encode_response, CodecError, ResponseFrame};
pub use server::Iox2JsonServer;
pub use store::{JsonStore, StoreError};
