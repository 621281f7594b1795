//! Server side of the WebSocket protocol: the opening handshake and the
//! decoding of client frames.

pub mod masking;
pub mod websocket;
pub mod handshake;

pub use masking::decode;
