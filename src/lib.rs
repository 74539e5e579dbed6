//! Session protocol for remote annotation of board-face images: the binary
//! wire codec and the server and client session state machines.

pub mod types;
pub mod varint;
pub mod wire;
pub mod decode;
pub mod round_trip;
pub mod server;
pub mod client;
