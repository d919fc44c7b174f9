//! What a packet looks like.
//!
//! A packet starts with its metadata, and what is left is its payload:
//! 1. a [`VarInt<u32>`], whose lowest bit tells whether the packet is a segment of a larger one,
//!    and whose other 31 bits are the id of the channel;
//! 2. for a segment, a [`PacketSegmentMetadata`];
//! 3. on an ordered channel, the packet's order, a [`VarInt<u32>`];
//! 4. on a reliable channel, the packet's resend key, a [`SlotMapKey`].
use super::channel::{Channel, ChannelView};
use super::id::{ChannelId, UniqueChannelId};
use super::ordering::PacketOrdererError;
use super::resend::PacketResenderError;
use super::segment::{PacketSegmentJoinerError, PacketSegmentMetadata};
use crate::proto::decode::{Decode, Decoder};
use crate::proto::encode::{Encode, Encoder};
use crate::proto::num::Parsed;
use crate::proto::round_trip::RoundTrip;
use crate::proto::{StrWithMaxLen, VarInt};
use crate::util::slot_map::SlotMapKey;
use vstd::prelude::*;

verus! {

/// The length that no packet exceeds.
pub const MAX_PACKET_LEN: usize = 2000;

/// The length that the metadata of a packet that is no segment does not exceed.
pub const MAX_NON_SEGMENTED_PACKET_METADATA_LEN: usize = 20;

/// The length that the metadata of a packet does not exceed.
pub const MAX_PACKET_METADATA_LEN: usize = MAX_NON_SEGMENTED_PACKET_METADATA_LEN + 11;

/// The length that a payload may have without being cut into segments.
pub const MAX_NON_SEGMENTED_PAYLOAD_LEN: usize = MAX_PACKET_LEN
    - MAX_NON_SEGMENTED_PACKET_METADATA_LEN;

/// The length of every segment but the last.
pub const SEGMENT_LEN: usize = MAX_PACKET_LEN - MAX_PACKET_METADATA_LEN;

/// The name of a channel as it is sent.
pub type ChannelName<'a> = StrWithMaxLen<'a, 500>;

#[derive(Debug, PartialEq, Eq, Clone, Copy, Structural)]
pub enum ConnectionError {
    /// Error during decoding.
    DecodeError,
    /// Error during encoding.
    EncodeError,
    /// The message's metadata refers to an unknown channel.
    UnknownChannel,
    /// The channel registration stage check value is invalid.
    ChannelRegistrationStageInvalidValue,
    /// A channel was to be registered after the registration stage.
    RegistrationStageIsOver,
    /// Packet was already handled.
    PacketDuplicateDetected,
    /// Packet resender error.
    PacketResenderError(PacketResenderError),
    /// Packet orderer error.
    PacketOrdererError(PacketOrdererError),
    /// Packet segment joiner error.
    PacketSegmentJoinerError(PacketSegmentJoinerError),
}

/// Which channel a packet belongs to, and whether it is a segment of a larger one.
#[derive(Debug)]
pub struct PrimaryPacketMetadata<const LOCAL: bool> {
    pub channel_id: ChannelId<UniqueChannelId<LOCAL>>,
    pub segment: bool,
}

/// [`PrimaryPacketMetadata`] with the id as a number.
pub struct PrimaryView {
    pub channel_id: u32,
    pub segment: bool,
}

impl<const LOCAL: bool> View for PrimaryPacketMetadata<LOCAL> {
    type V = PrimaryView;

    open spec fn view(&self) -> PrimaryView {
        PrimaryView { channel_id: self.channel_id.0, segment: self.segment }
    }
}

/// Channel and flag in one number.
pub open spec fn primary_number(channel_id: u32, segment: bool) -> u32 {
    (2 * channel_id + if segment {
        1int
    } else {
        0
    }) as u32
}

impl<'a, const LOCAL: bool> Decode<'a> for PrimaryPacketMetadata<LOCAL> {
    open spec fn parse(input: Seq<u8>) -> Parsed<PrimaryView> {
        let number = VarInt::<u32>::parse(input);
        Parsed {
            value: match number.value {
                Some(n) => Some(
                    PrimaryView { channel_id: (n.0 / 2) as u32, segment: n.0 % 2 == 1 },
                ),
                None => None,
            },
            used: number.used,
        }
    }

    proof fn lemma_parse_used(input: Seq<u8>) {
        VarInt::<u32>::lemma_parse_used(input);
    }

    fn decode<D: Decoder<'a>>(decoder: &mut D) -> (r: Result<Self, ()>) {
        match VarInt::<u32>::decode(decoder) {
            Ok(number) => {
                let num: u32 = number.0;
                assert(num >> 1 == num / 2 && num & 1 == num % 2) by (bit_vector);
                Ok(
                    PrimaryPacketMetadata {
                        channel_id: ChannelId::new(num >> 1),
                        segment: num & 1 == 1,
                    },
                )
            },
            Err(_) => Err(()),
        }
    }
}

impl<const LOCAL: bool> Encode for PrimaryPacketMetadata<LOCAL> {
    open spec fn encodable(&self) -> bool {
        self.channel_id.0 < 0x8000_0000
    }

    open spec fn encoding(&self) -> Seq<u8> {
        VarInt(primary_number(self.channel_id.0, self.segment)).encoding()
    }

    fn encode<E: Encoder>(&self, encoder: &mut E) -> (r: Result<(), ()>) {
        let id: u32 = self.channel_id.0;
        assert(((id << 1) >> 1 == id) == (id < 0x8000_0000)) by (bit_vector);
        if (id << 1) >> 1 != id {
            return Err(());
        }
        assert(id < 0x8000_0000 ==> (id << 1) | 0 == 2 * id && (id << 1) | 1 == 2 * id + 1)
            by (bit_vector);
        VarInt(
            (id << 1) | (if self.segment {
                1
            } else {
                0
            }),
        ).encode(encoder)
    }
}

pub open spec fn segment_bytes(segment: Option<PacketSegmentMetadata>) -> Seq<u8> {
    match segment {
        Some(metadata) => metadata.encoding(),
        None => Seq::empty(),
    }
}

pub open spec fn order_bytes(order: Option<u32>) -> Seq<u8> {
    match order {
        Some(n) => VarInt(n).encoding(),
        None => Seq::empty(),
    }
}

pub open spec fn key_bytes(key: Option<SlotMapKey>) -> Seq<u8> {
    match key {
        Some(k) => k.encoding(),
        None => Seq::empty(),
    }
}

/// The bytes of a packet.
pub open spec fn packet_bytes(
    channel_id: u32,
    segment: Option<PacketSegmentMetadata>,
    order: Option<u32>,
    key: Option<SlotMapKey>,
    payload: Seq<u8>,
) -> Seq<u8> {
    VarInt(primary_number(channel_id, segment is Some)).encoding() + segment_bytes(segment)
        + order_bytes(order) + key_bytes(key) + payload
}

/// The metadata that depends on what the channel is like.
pub struct ChannelHeaders {
    pub order: Option<u32>,
    pub resend_key: Option<SlotMapKey>,
}

/// What reading the order and the resend key comes to.
pub open spec fn parse_headers(channel: ChannelView, input: Seq<u8>) -> Parsed<ChannelHeaders> {
    let order = if channel.orderability is Some {
        VarInt::<u32>::parse(input)
    } else {
        Parsed { value: None, used: 0 }
    };
    let key = if channel.reliability is Some {
        SlotMapKey::parse(input.skip(order.used as int))
    } else {
        Parsed { value: None, used: 0 }
    };
    if channel.orderability is Some && order.value is None {
        Parsed { value: None, used: order.used }
    } else if channel.reliability is Some && key.value is None {
        Parsed { value: None, used: order.used + key.used }
    } else {
        Parsed {
            value: Some(
                ChannelHeaders {
                    order: match order.value {
                        Some(n) => Some(n.0),
                        None => None,
                    },
                    resend_key: key.value,
                },
            ),
            used: order.used + key.used,
        }
    }
}

/// Reads the order, if the channel is ordered, and the resend key, if it is reliable.
pub fn read_order_and_resend_key(channel: &Channel, payload: &mut &[u8]) -> (r: Result<
    (Option<u32>, Option<SlotMapKey>),
    ConnectionError,
>)
    ensures
        final(payload)@ == old(payload)@.skip(parse_headers(channel@, old(payload)@).used as int),
        match r {
            Ok((order, resend_key)) => parse_headers(channel@, old(payload)@).value == Some(
                ChannelHeaders { order, resend_key },
            ),
            Err(e) => e == ConnectionError::DecodeError && parse_headers(
                channel@,
                old(payload)@,
            ).value is None,
        },
{
    let ghost input = payload@;
    proof {
        VarInt::<u32>::lemma_parse_used(input);
        SlotMapKey::lemma_parse_used(input);
        SlotMapKey::lemma_parse_used(input.skip(VarInt::<u32>::parse(input).used as int));
        assert(input.skip(0) =~= input);
    }
    let order: Option<u32> = if channel.is_ordered() {
        match VarInt::<u32>::decode(payload) {
            Ok(order) => Some(order.0),
            Err(_) => {
                return Err(ConnectionError::DecodeError);
            },
        }
    } else {
        None
    };
    let ghost between = payload@;
    assert(between.skip(0) =~= between);
    let resend_key = if channel.is_reliable() {
        match SlotMapKey::decode(payload) {
            Ok(key) => Some(key),
            Err(_) => {
                assert(payload@ =~= input.skip(parse_headers(channel@, input).used as int));
                return Err(ConnectionError::DecodeError);
            },
        }
    } else {
        None
    };
    assert(payload@ =~= input.skip(parse_headers(channel@, input).used as int));
    Ok((order, resend_key))
}

impl<'a, const LOCAL: bool> RoundTrip<'a> for PrimaryPacketMetadata<LOCAL> {
    open spec fn max_len() -> nat {
        5
    }

    proof fn law_round_trip(&self, rest: Seq<u8>) {
        VarInt(primary_number(self.channel_id.0, self.segment)).law_round_trip(rest);
    }
}

/// Reading the order and the resend key of a packet gives them, whatever follows them, and they
/// are at most fifteen bytes.
pub proof fn law_headers_round_trip(
    channel: ChannelView,
    order: Option<u32>,
    key: Option<SlotMapKey>,
    rest: Seq<u8>,
)
    requires
        order is Some == channel.orderability is Some,
        key is Some == channel.reliability is Some,
    ensures
        parse_headers(channel, order_bytes(order) + key_bytes(key) + rest) == (Parsed {
            value: Some(ChannelHeaders { order, resend_key: key }),
            used: (order_bytes(order) + key_bytes(key)).len(),
        }),
        (order_bytes(order) + key_bytes(key)).len() <= 15,
{
    let o = order_bytes(order);
    let k = key_bytes(key);
    let whole = o + k + rest;
    assert(whole =~= o + (k + rest));
    assert(whole.skip(o.len() as int) =~= k + rest);
    assert(whole.skip(0) =~= whole);
    if let Some(n) = order {
        VarInt(n).law_round_trip(k + rest);
    }
    if let Some(key) = key {
        key.law_round_trip(rest);
    }
}

/// A packet is never longer than [`MAX_PACKET_LEN`], if its payload is not longer than
/// [`MAX_NON_SEGMENTED_PAYLOAD_LEN`], or than [`SEGMENT_LEN`] if it is a segment.
pub proof fn law_packet_len(
    channel_id: u32,
    segment: Option<PacketSegmentMetadata>,
    order: Option<u32>,
    key: Option<SlotMapKey>,
    payload: Seq<u8>,
)
    requires
        segment is None ==> payload.len() <= MAX_NON_SEGMENTED_PAYLOAD_LEN,
        segment is Some ==> segment.unwrap().encodable() && payload.len() <= SEGMENT_LEN,
    ensures
        packet_bytes(channel_id, segment, order, key, payload).len() <= MAX_PACKET_LEN,
{
    VarInt(primary_number(channel_id, segment is Some)).law_round_trip(Seq::empty());
    if let Some(metadata) = segment {
        metadata.law_round_trip(Seq::empty());
    }
    if let Some(n) = order {
        VarInt(n).law_round_trip(Seq::empty());
    }
    if let Some(k) = key {
        k.law_round_trip(Seq::empty());
    }
}

} // verus!
