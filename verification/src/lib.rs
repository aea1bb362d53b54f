//! Logic of a single-binary HTTP tunnel: header parsing, chunked decoding,
//! control-channel framing and authentication, admission rules and log formatting.

pub mod text;
pub mod proxy;
pub mod body;
pub mod codec;
pub mod protocol;
pub mod server;
pub mod store;
pub mod client;
pub mod config;
pub mod update;
pub mod log;
