//! Synchronization core of a collaborative jigsaw-puzzle client.

pub mod codec;
pub mod definition;
pub mod event;
pub mod pieces;
pub mod puzzle;
pub mod relay;
pub mod session;
pub mod stack;
pub mod text;
pub mod transport;
