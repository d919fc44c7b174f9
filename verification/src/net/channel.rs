//! Channels: how the messages that are sent through one are to be treated.
use crate::util::non_zero::{NonZeroU32, NonZeroUsize};
use bevy::platform::collections::HashMap;
use vstd::prelude::*;

verus! {

/// Channels by their names.
pub struct ChannelRegistry {
    pub channels: HashMap<String, Channel>,
}

/// How the messages of a channel are treated.
#[derive(Debug, Clone, Copy)]
pub struct Channel {
    pub reliability: Option<ReliableChannel>,
    pub orderability: Option<OrderedChannel>,
    pub frequency: ChannelFrequency,
}

#[derive(Debug, Clone, Copy)]
pub struct ReliableChannel {
    pub resend_interval: NonZeroU32,
    /// When `resend_attempts` is 0, the packets of this channel still get a resend key of their
    /// own, by which the other side can tell duplicates; but they are not resent. Such a packet
    /// is unreliable, and it is handled at most once.
    pub resend_attempts: u32,
    pub additional_capacity: usize,
}

#[derive(Debug, Clone, Copy)]
pub struct OrderedChannel {
    pub capacity: NonZeroUsize,
}

/// How often a channel is used; the more often, the shorter the id that it gets.
#[derive(PartialEq, Eq, PartialOrd, Ord, Debug, Clone, Copy, Structural)]
pub struct ChannelFrequency(pub u32);

impl ChannelFrequency {
    pub fn high() -> (f: ChannelFrequency)
        ensures
            f.0 == 0x10_0000,
    {
        ChannelFrequency(0x10_0000)
    }

    pub fn mid() -> (f: ChannelFrequency)
        ensures
            f.0 == 0x1_0000,
    {
        ChannelFrequency(0x1_0000)
    }

    pub fn low() -> (f: ChannelFrequency)
        ensures
            f.0 == 0x1000,
    {
        ChannelFrequency(0x1000)
    }

    pub fn never() -> (f: ChannelFrequency)
        ensures
            f.0 == 0,
    {
        ChannelFrequency(0)
    }
}

/// What is asked for reliability, in plain numbers.
pub struct Reliability {
    pub resend_interval: u32,
    pub resend_attempts: u32,
    pub additional_capacity: usize,
}

/// A channel in plain numbers: its reliability, the capacity of its orderer, and its frequency.
pub struct ChannelView {
    pub reliability: Option<Reliability>,
    pub orderability: Option<usize>,
    pub frequency: u32,
}

impl View for ReliableChannel {
    type V = Reliability;

    open spec fn view(&self) -> Reliability {
        Reliability {
            resend_interval: self.resend_interval@,
            resend_attempts: self.resend_attempts,
            additional_capacity: self.additional_capacity,
        }
    }
}

impl View for Channel {
    type V = ChannelView;

    open spec fn view(&self) -> ChannelView {
        ChannelView {
            reliability: match self.reliability {
                Some(r) => Some(r@),
                None => None,
            },
            orderability: match self.orderability {
                Some(o) => Some(o.capacity@),
                None => None,
            },
            frequency: self.frequency.0,
        }
    }
}

impl Channel {
    /// A channel that is neither reliable nor ordered.
    pub fn new(frequency: ChannelFrequency) -> (channel: Channel)
        ensures
            channel.reliability is None,
            channel.orderability is None,
            channel.frequency == frequency,
    {
        Channel { reliability: None, orderability: None, frequency }
    }

    pub fn with_reliability(self, reliable_channel: ReliableChannel) -> (channel: Channel)
        requires
            self.reliability is None,
        ensures
            channel == (Channel { reliability: Some(reliable_channel), ..self }),
    {
        Channel { reliability: Some(reliable_channel), ..self }
    }

    pub fn with_orderability(self, ordered_channel: OrderedChannel) -> (channel: Channel)
        requires
            self.orderability is None,
        ensures
            channel == (Channel { orderability: Some(ordered_channel), ..self }),
    {
        Channel { orderability: Some(ordered_channel), ..self }
    }

    pub fn is_ordered(&self) -> (b: bool)
        ensures
            b == (self@.orderability is Some),
    {
        self.orderability.is_some()
    }

    pub fn is_reliable(&self) -> (b: bool)
        ensures
            b == (self@.reliability is Some),
    {
        self.reliability.is_some()
    }
}

} // verus!
