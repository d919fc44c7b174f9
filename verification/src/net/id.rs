//! Channel ids, and the stages that decide what they mean.
use crate::util::slot_map::SlotMapKey;
use std::marker::PhantomData;
use vstd::prelude::*;

verus! {

/// The greatest number of 31 bits: the id of no channel.
pub const NULL_CHANNEL_ID: u32 = 0x7fff_ffff;

/// The id of the acknowledgement channel while channels are being registered.
pub const ACK_CHANNEL_ID_REGISTRATION_STAGE: u32 = NULL_CHANNEL_ID - 1;

/// The id of the channel management channel while channels are being registered.
pub const CHANNEL_MANAGEMENT_CHANNEL_ID_REGISTRATION_STAGE: u32 = ACK_CHANNEL_ID_REGISTRATION_STAGE
    - 1;

/// The id of a channel, among the ids of the kind `T`.
#[derive(PartialEq, Eq, Debug)]
pub struct ChannelId<T>(pub u32, pub PhantomData<T>);

impl<T> Clone for ChannelId<T> {
    fn clone(&self) -> (id: Self)
        ensures
            id == *self,
    {
        *self
    }
}

impl<T> Copy for ChannelId<T> {

}

/// Ids that one side gives to its channels: this side's own, or the other side's.
#[derive(PartialEq, Eq, Clone, Copy, Debug, Default)]
pub struct UniqueChannelId<const LOCAL: bool>;

/// Ids that the program gives to its channels.
#[derive(PartialEq, Eq, Clone, Copy, Debug, Default)]
pub struct GlobalChannelId;

impl<T> Default for ChannelId<T> {
    fn default() -> (id: Self)
        ensures
            id.0 == NULL_CHANNEL_ID,
    {
        ChannelId::new(NULL_CHANNEL_ID)
    }
}

impl<T> ChannelId<T> {
    pub fn new(val: u32) -> (id: Self)
        ensures
            id.0 == val,
    {
        ChannelId(val, PhantomData)
    }

    /// Whether this is the id of no channel.
    pub fn is_null(&self) -> (b: bool)
        ensures
            b == (self.0 == NULL_CHANNEL_ID),
    {
        self.0 == NULL_CHANNEL_ID
    }
}

/// Whether an id is one of the two that channels have while channels are being registered.
pub open spec fn is_stage_id(id: u32) -> bool {
    id == ACK_CHANNEL_ID_REGISTRATION_STAGE || id
        == CHANNEL_MANAGEMENT_CHANNEL_ID_REGISTRATION_STAGE
}

/// How far a connection has come.
#[derive(Clone, Copy, Debug, PartialEq, Eq, Structural)]
pub enum ConnectionState {
    /// Both sides are telling each other what their channels are called.
    Registration {
        /// Whether the other side has told its last channel.
        received_last_packet: bool,
        /// The key of the packet that tells that this side has told its last channel, until that
        /// packet is acknowledged.
        last_packet_resend_key: Option<SlotMapKey>,
    },
    /// Messages are being exchanged.
    Transfer,
}

impl Default for ConnectionState {
    fn default() -> (state: Self)
        ensures
            state == (ConnectionState::Registration {
                received_last_packet: false,
                last_packet_resend_key: None,
            }),
    {
        ConnectionState::Registration { received_last_packet: false, last_packet_resend_key: None }
    }
}

impl ConnectionState {
    /// Whether both sides have told their last channel and know it of each other.
    pub open spec fn registered(self) -> bool {
        self == (ConnectionState::Registration {
            received_last_packet: true,
            last_packet_resend_key: None,
        })
    }

    /// Goes over to the exchange of messages once registration is complete, and tells whether it
    /// did.
    pub fn convert_to_transfer_if_possible(&mut self) -> (converted: bool)
        ensures
            converted == old(self).registered(),
            *final(self) == (if old(self).registered() {
                ConnectionState::Transfer
            } else {
                *old(self)
            }),
    {
        let complete = match self {
            ConnectionState::Registration { received_last_packet, last_packet_resend_key } =>
                *received_last_packet && last_packet_resend_key.is_none(),
            ConnectionState::Transfer => false,
        };
        if complete {
            *self = ConnectionState::Transfer;
        }
        complete
    }
}

} // verus!
