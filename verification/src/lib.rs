pub mod cli;
pub mod entities;
pub mod exchange;
pub mod ffi;
pub mod handshake;
pub mod ids;
pub mod receiver;
pub mod registry;
pub mod sender;
pub mod wire;
