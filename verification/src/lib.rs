//! Client-side network synchronization core for a grid-based multiplayer
//! game: a line-oriented protocol codec, an entity reconciler that mirrors
//! server snapshots, model-instance accounting, and the reconnect policy of
//! the non-blocking transport.

pub mod board;
pub mod codec;
pub mod registry;
pub mod session;
pub mod transport;
pub mod wire;
