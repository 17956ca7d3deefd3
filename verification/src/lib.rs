//! Easement: the decisions behind a WebSocket bus and an HTTP tool gateway.

pub mod bus;
pub mod entry;
pub mod framing;
pub mod gateway;
pub mod hosts;
pub mod json;
pub mod normalize;
pub mod protocol;
pub mod screenshot;
pub mod serial;
pub mod text;
pub mod transcript;
