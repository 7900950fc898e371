//! An in-memory key/value server that speaks the Redis wire protocol (RESP2).
//!
//! - [`resp`] decodes and encodes frames, [`decimal`] the numbers in them; [`codec_laws`]
//!   says what holds of both directions together, [`wire_laws`] what each byte means.
//! - [`store`] holds keys with their values and expiries, and drops the least recently used
//!   key when it is full. It is built on [`table`], [`lru`] and [`clock`]; [`model`] says
//!   what each operation does, and [`store_laws`] what follows.
//! - [`command`] reads a frame as a request and executes it; [`command_laws`] says what
//!   holds of requests and replies, [`reply_laws`] what each command does. [`shared`] is the
//!   lock through which connections share a store.
//! - [`connection`] decides what to do next on a client connection.
//! - [`call_laws`] says what calls of all these functions give, and how they relate.

pub mod call_laws;
pub mod clock;
pub mod codec_laws;
pub mod command;
pub mod command_laws;
pub mod connection;
pub mod decimal;
pub mod lru;
pub mod model;
pub mod reply_laws;
pub mod resp;
pub mod shared;
pub mod store;
pub mod store_laws;
pub mod table;
pub mod wire_laws;
