//! Framing, field codecs and connection-state handling for a length-prefixed,
//! state-dependent binary protocol in the style of the Minecraft handshake.

pub mod connection;
pub mod error;
pub mod field;
pub mod frame;
pub mod input;
pub mod types;
pub mod packet;
pub mod protocol;
pub mod utils;
