//! Containers and small types that the protocol is built on.
pub mod bytes;
pub mod channel;
pub mod collections;
pub mod counting;
pub mod non_zero;
pub mod slot_map;
pub mod text;
