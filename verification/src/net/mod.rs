//! Connections between peers: reliable and ordered messages over datagrams.
pub mod acknowledge;
pub mod channel;
pub mod channel_data;
pub mod connection;
pub mod consistency;
pub mod handshake;
pub mod id;
pub mod initialize;
pub mod laws;
pub mod mapper;
pub mod model;
pub mod ordering;
pub mod packet;
pub mod provider;
pub mod resend;
pub mod segment;
pub mod send;
pub mod server;

use vstd::prelude::*;

verus! {

/// Brings connections into a program.
pub struct NetPlugin;

} // verus!
