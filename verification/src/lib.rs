//! A reliable, ordered messaging layer over datagrams.
//!
//! [`proto`] holds the byte format, [`util`] the containers, and [`net`] the protocol itself:
//! what a connection does with a datagram, with a message to send and with the passing of time.
pub mod proto;
pub mod util;
pub mod net;
