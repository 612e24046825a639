//! A small Redis-compatible server core: the RESP wire format, command
//! decoding, and the in-memory key-value store, with their contracts.

pub mod buffer;
pub mod command;
pub mod command_laws;
pub mod db;
pub mod frame;
pub mod frame_laws;
pub mod server;
pub mod server_laws;
pub mod text;
