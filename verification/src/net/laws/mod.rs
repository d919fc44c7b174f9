//! What holds of sending and receiving together.
pub mod arrival;
pub mod course;
pub mod crossing;
pub mod layout;
pub mod limits;
pub mod receiving;
pub mod registering;
pub mod registration;
pub mod sending;
pub mod serving;
pub mod starting;
