//! The bus: sockets, tool calls and the hosts that serve them.

pub mod laws;
pub mod model;
pub mod promises;
pub mod pump;
pub mod timers;
pub mod tools;
