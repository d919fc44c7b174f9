//! Sending packets.
use super::channel::{Channel, ChannelView};
use super::channel_data::{ChannelData, ChannelDataView};
use super::id::{
    ChannelId, ConnectionState, GlobalChannelId, UniqueChannelId, ACK_CHANNEL_ID_REGISTRATION_STAGE,
    CHANNEL_MANAGEMENT_CHANNEL_ID_REGISTRATION_STAGE,
};
use super::packet::{
    key_bytes, order_bytes, packet_bytes, primary_number, segment_bytes, ConnectionError,
    PrimaryPacketMetadata, MAX_NON_SEGMENTED_PAYLOAD_LEN, SEGMENT_LEN,
};
use super::provider::{
    ack_channel, ack_channel_view, channel_management_channel, channel_management_channel_view,
    ChannelProvider, ProviderView,
};
use super::resend::{
    PacketResender, PacketResenderError, PacketView, ReliableBufferedPacket, ResenderView,
};
use super::segment::PacketSegmentMetadata;
use crate::proto::encode::Encode;
use crate::proto::VarInt;
use crate::util::bytes::{append_bytes, contents, copy_bytes};
use crate::util::slot_map::SlotMapKey;
use vstd::arithmetic::div_mod::lemma_fundamental_div_mod;
use vstd::prelude::*;
use vstd::slice::slice_subrange;

verus! {

/// A channel under the id that one side has given it.
#[derive(Clone, Copy, Debug)]
pub struct ConnectionChannel<const LOCAL: bool> {
    pub local_id: ChannelId<UniqueChannelId<LOCAL>>,
    pub channel: Channel,
}

/// What the channel with these ids is like, if there is one. While channels are being registered,
/// there are only the two that the protocol uses itself.
pub open spec fn channel_for(
    state: ConnectionState,
    local_id: u32,
    global_id: u32,
    provider: ProviderView,
) -> Option<ChannelView> {
    match state {
        ConnectionState::Registration { .. } => if local_id == ACK_CHANNEL_ID_REGISTRATION_STAGE {
            Some(ack_channel_view())
        } else if local_id == CHANNEL_MANAGEMENT_CHANNEL_ID_REGISTRATION_STAGE {
            Some(channel_management_channel_view())
        } else {
            None
        },
        ConnectionState::Transfer => if provider.channels.contains_key(global_id) {
            Some(provider.channels[global_id])
        } else {
            None
        },
    }
}

impl<const LOCAL: bool> ConnectionChannel<LOCAL> {
    pub fn new<P: ChannelProvider>(
        state: ConnectionState,
        local_id: ChannelId<UniqueChannelId<LOCAL>>,
        global_id: ChannelId<GlobalChannelId>,
        provider: &P,
    ) -> (r: Option<Self>)
        ensures
            match r {
                Some(c) => c.local_id == local_id && channel_for(
                    state,
                    local_id.0,
                    global_id.0,
                    provider.model(),
                ) == Some(c.channel@),
                None => channel_for(state, local_id.0, global_id.0, provider.model()) is None,
            },
    {
        let channel: Option<Channel> = match state {
            ConnectionState::Registration { .. } => {
                if local_id.0 == ACK_CHANNEL_ID_REGISTRATION_STAGE {
                    Some(ack_channel())
                } else if local_id.0 == CHANNEL_MANAGEMENT_CHANNEL_ID_REGISTRATION_STAGE {
                    Some(channel_management_channel())
                } else {
                    None
                }
            },
            ConnectionState::Transfer => match provider.by_id(global_id) {
                Some(channel) => Some(*channel),
                None => None,
            },
        };
        match channel {
            Some(channel) => Some(ConnectionChannel { local_id, channel }),
            None => None,
        }
    }
}

/// What sending packets reads and changes: the packets that may have to be sent again, the key
/// that the next segmented packet gets, the orders that the channels' next packets get, the
/// packets that were sent, and the resend keys that were given to them.
#[verifier::ext_equal]
pub struct SendingView {
    pub resender: ResenderView,
    pub segment_keys: u32,
    pub orders: ChannelDataView<u32>,
    pub outbox: Seq<Seq<u8>>,
    pub resend_keys: Seq<SlotMapKey>,
}

/// What becomes of it, and whether it went well.
pub struct SendOutcome {
    pub after: SendingView,
    pub result: Result<(), ConnectionError>,
}

/// The number that comes after `n`; after the greatest one it starts again.
pub open spec fn next_u32(n: u32) -> u32 {
    if n == u32::MAX {
        0
    } else {
        (n + 1) as u32
    }
}

/// Into how many segments a payload is cut.
pub open spec fn segment_count(len: nat) -> nat {
    len / SEGMENT_LEN as nat + if len % SEGMENT_LEN as nat == 0 {
        0nat
    } else {
        1
    }
}

/// The `i`-th segment of a payload.
pub open spec fn segment_of(payload: Seq<u8>, i: nat) -> Seq<u8> {
    let start = i * SEGMENT_LEN;
    if payload.len() - start > SEGMENT_LEN {
        payload.subrange(start as int, start + SEGMENT_LEN)
    } else {
        payload.skip(start as int)
    }
}

/// The segments cover the payload, and there are no more of them than bytes.
pub proof fn lemma_segment_count(len: nat)
    ensures
        segment_count(len) * SEGMENT_LEN >= len,
        segment_count(len) <= len,
{
    let n = SEGMENT_LEN as nat;
    let q = len / n;
    lemma_fundamental_div_mod(len as int, n as int);
    assert(q * n == n * q) by (nonlinear_arith);
    assert((q + 1) * n == q * n + n) by (nonlinear_arith);
    assert(q * n >= q) by (nonlinear_arith)
        requires
            n >= 1,
    ;
}

/// Where the `i`-th segment starts and ends.
pub proof fn lemma_segment_at(len: nat, i: nat)
    requires
        i < segment_count(len),
    ensures
        i * SEGMENT_LEN < len,
        (i + 1) * SEGMENT_LEN == i * SEGMENT_LEN + SEGMENT_LEN,
        i + 1 < segment_count(len) ==> i * SEGMENT_LEN + SEGMENT_LEN < len,
        i + 1 == segment_count(len) ==> i * SEGMENT_LEN + SEGMENT_LEN >= len,
{
    let n = SEGMENT_LEN as nat;
    let q = len / n;
    let c = segment_count(len);
    lemma_fundamental_div_mod(len as int, n as int);
    assert(q * n == n * q) by (nonlinear_arith);
    assert((q + 1) * n == q * n + n) by (nonlinear_arith);
    assert((i + 1) * n == i * n + n) by (nonlinear_arith);
    assert((i + 1) * n <= c * n) by (nonlinear_arith)
        requires
            i + 1 <= c,
    ;
    if i + 1 < c {
        assert((i + 2) * n == i * n + n + n) by (nonlinear_arith);
        assert((i + 2) * n <= c * n) by (nonlinear_arith)
            requires
                i + 2 <= c,
        ;
    }
}

impl SendingView {
    /// One packet is sent. It is refused if it has no form in bytes, or if it is a packet of a
    /// reliable channel and no more packets can be kept to be sent again.
    pub open spec fn send_one(
        self,
        channel_id: u32,
        channel: ChannelView,
        segment: Option<PacketSegmentMetadata>,
        order: Option<u32>,
        payload: Seq<u8>,
    ) -> SendOutcome {
        if channel_id >= 0x8000_0000 || (segment is Some && !segment.unwrap().encodable()) {
            SendOutcome { after: self, result: Err(ConnectionError::EncodeError) }
        } else {
            match channel.reliability {
                Some(reliability) => if self.resender.full() {
                    SendOutcome {
                        after: self,
                        result: Err(
                            ConnectionError::PacketResenderError(
                                PacketResenderError::CapacityReached,
                            ),
                        ),
                    }
                } else {
                    let key = self.resender.packets.next_key();
                    let bytes = packet_bytes(channel_id, segment, order, Some(key), payload);
                    SendOutcome {
                        after: SendingView {
                            resender: self.resender.add(
                                PacketView {
                                    payload: bytes,
                                    resend_interval: reliability.resend_interval,
                                    resend_attempts: reliability.resend_attempts,
                                    current_time: 0,
                                },
                            ),
                            outbox: self.outbox.push(bytes),
                            resend_keys: self.resend_keys.push(key),
                            ..self
                        },
                        result: Ok(()),
                    }
                },
                None => SendOutcome {
                    after: SendingView {
                        outbox: self.outbox.push(
                            packet_bytes(channel_id, segment, order, None, payload),
                        ),
                        ..self
                    },
                    result: Ok(()),
                },
            }
        }
    }

    /// The segments from the `from`-th on are sent, up to the first that is refused.
    pub open spec fn send_segments(
        self,
        channel_id: u32,
        channel: ChannelView,
        segment_key: u32,
        order: Option<u32>,
        payload: Seq<u8>,
        from: nat,
    ) -> SendOutcome
        decreases segment_count(payload.len()) - from,
    {
        let count = segment_count(payload.len());
        if from >= count {
            SendOutcome { after: self, result: Ok(()) }
        } else {
            let one = self.send_one(
                channel_id,
                channel,
                Some(
                    PacketSegmentMetadata {
                        segment_key,
                        segment: from as usize,
                        segment_count: count as usize,
                    },
                ),
                order,
                segment_of(payload, from),
            );
            if one.result is Ok {
                one.after.send_segments(
                    channel_id,
                    channel,
                    segment_key,
                    order,
                    payload,
                    from + 1,
                )
            } else {
                one
            }
        }
    }

    /// The order that the channel's next packet gets, if the channel is ordered.
    pub open spec fn order(self, state: ConnectionState, channel_id: u32, channel: ChannelView) -> Option<
        u32,
    > {
        if channel.orderability is Some {
            Some(self.orders.get(state, channel_id))
        } else {
            None
        }
    }

    /// After an order was given out, if the channel is ordered.
    pub open spec fn ordered(self, state: ConnectionState, channel_id: u32, channel: ChannelView) -> Self {
        if channel.orderability is Some {
            SendingView {
                orders: self.orders.put(
                    state,
                    channel_id,
                    next_u32(self.orders.get(state, channel_id)),
                ),
                ..self
            }
        } else {
            self
        }
    }

    /// A payload is sent, in segments if it is too long for one packet.
    pub open spec fn send(
        self,
        state: ConnectionState,
        channel_id: u32,
        channel: ChannelView,
        payload: Seq<u8>,
    ) -> SendOutcome {
        let order = self.order(state, channel_id, channel);
        let ready = self.ordered(state, channel_id, channel);
        if payload.len() <= MAX_NON_SEGMENTED_PAYLOAD_LEN {
            ready.send_one(channel_id, channel, None, order, payload)
        } else {
            SendingView {
                segment_keys: next_u32(ready.segment_keys),
                ..ready
            }.send_segments(channel_id, channel, ready.segment_keys, order, payload, 0)
        }
    }
}

/// Sends one packet.
fn send_real_packet(
    channel: ConnectionChannel<true>,
    segment: Option<PacketSegmentMetadata>,
    order: Option<u32>,
    payload: &[u8],
    resender: &mut PacketResender,
    outbox: &mut Vec<Vec<u8>>,
    resend_keys: &mut Vec<SlotMapKey>,
    Ghost(segment_keys): Ghost<u32>,
    Ghost(orders): Ghost<ChannelDataView<u32>>,
) -> (r: Result<(), ConnectionError>)
    requires
        old(resender).wf(),
    ensures
        final(resender).wf(),
        (SendOutcome {
            after: SendingView {
                resender: final(resender)@,
                segment_keys,
                orders,
                outbox: contents(final(outbox)@),
                resend_keys: final(resend_keys)@,
            },
            result: r,
        }) == (SendingView {
            resender: old(resender)@,
            segment_keys,
            orders,
            outbox: contents(old(outbox)@),
            resend_keys: old(resend_keys)@,
        }).send_one(channel.local_id.0, channel.channel@, segment, order, payload@),
{
    let mut to_send: Vec<u8> = Vec::new();
    let primary = PrimaryPacketMetadata { channel_id: channel.local_id, segment: segment.is_some() };
    match primary.encode(&mut to_send) {
        Ok(_) => {},
        Err(_) => {
            return Err(ConnectionError::EncodeError);
        },
    }
    if let Some(segment) = segment {
        match segment.encode(&mut to_send) {
            Ok(_) => {},
            Err(_) => {
                return Err(ConnectionError::EncodeError);
            },
        }
    }
    if let Some(order) = order {
        match VarInt(order).encode(&mut to_send) {
            Ok(_) => {},
            Err(_) => {
                return Err(ConnectionError::EncodeError);
            },
        }
    }
    let ghost head = VarInt(primary_number(channel.local_id.0, segment is Some)).encoding()
        + segment_bytes(segment) + order_bytes(order);
    assert(to_send@ =~= head);
    match channel.channel.reliability {
        Some(reliable_channel) => {
            let make = |key: SlotMapKey| -> (packet: ReliableBufferedPacket)
                ensures
                    packet@ == (PacketView {
                        payload: head + key_bytes(Some(key)) + payload@,
                        resend_interval: reliable_channel.resend_interval@,
                        resend_attempts: reliable_channel.resend_attempts,
                        current_time: 0,
                    })
                {
                    let mut bytes = to_send;
                    let _ = key.encode(&mut bytes);
                    append_bytes(&mut bytes, payload);
                    ReliableBufferedPacket::new(
                        bytes,
                        reliable_channel.resend_interval,
                        reliable_channel.resend_attempts,
                    )
                };
            let key = match resender.add(make) {
                Ok(key) => key,
                Err(e) => {
                    return Err(ConnectionError::PacketResenderError(e));
                },
            };
            resend_keys.push(key);
            proof {
                resender.lemma_wf();
            }
            match resender.map().get(key) {
                Some(packet) => {
                    let bytes = copy_bytes(packet.payload.as_slice());
                    outbox.push(bytes);
                    assert(contents(outbox@) =~= contents(old(outbox)@).push(bytes@));
                },
                None => {},
            }
            Ok(())
        },
        None => {
            append_bytes(&mut to_send, payload);
            assert(to_send@ =~= head + key_bytes(None) + payload@);
            outbox.push(to_send);
            assert(contents(outbox@) =~= contents(old(outbox)@).push(to_send@));
            Ok(())
        },
    }
}

/// Sends a payload through a channel: in one packet, or in segments that share a key if it is too
/// long for that.
pub fn send_packet(
    channel: ConnectionChannel<true>,
    payload: &[u8],
    state: ConnectionState,
    resender: &mut PacketResender,
    segment_keys_counter: &mut u32,
    orders: &mut ChannelData<u32, UniqueChannelId<true>>,
    outbox: &mut Vec<Vec<u8>>,
    resend_keys: &mut Vec<SlotMapKey>,
) -> (r: Result<(), ConnectionError>)
    requires
        old(resender).wf(),
        channel.channel@.orderability is Some ==> old(orders)@.holds(state, channel.local_id.0),
    ensures
        final(resender).wf(),
        (SendOutcome {
            after: SendingView {
                resender: final(resender)@,
                segment_keys: *final(segment_keys_counter),
                orders: final(orders)@,
                outbox: contents(final(outbox)@),
                resend_keys: final(resend_keys)@,
            },
            result: r,
        }) == (SendingView {
            resender: old(resender)@,
            segment_keys: *old(segment_keys_counter),
            orders: old(orders)@,
            outbox: contents(old(outbox)@),
            resend_keys: old(resend_keys)@,
        }).send(state, channel.local_id.0, channel.channel@, payload@),
{
    let ghost before = SendingView {
        resender: resender@,
        segment_keys: *segment_keys_counter,
        orders: orders@,
        outbox: contents(outbox@),
        resend_keys: resend_keys@,
    };
    let order: Option<u32> = if channel.channel.is_ordered() {
        let next = orders.get_mut(state, channel.local_id);
        let v: u32 = *next;
        *next = v.wrapping_add(1);
        Some(v)
    } else {
        None
    };
    let ghost ready = before.ordered(state, channel.local_id.0, channel.channel@);
    assert(order == before.order(state, channel.local_id.0, channel.channel@));
    assert(orders@ == ready.orders);
    if payload.len() <= MAX_NON_SEGMENTED_PAYLOAD_LEN {
        return send_real_packet(
            channel,
            None,
            order,
            payload,
            resender,
            outbox,
            resend_keys,
            Ghost(*segment_keys_counter),
            Ghost(orders@),
        );
    }
    let len: usize = payload.len();
    proof {
        lemma_segment_count(len as nat);
    }
    let count: usize = len / SEGMENT_LEN + if len % SEGMENT_LEN == 0 {
        0
    } else {
        1
    };
    let segment_key: u32 = *segment_keys_counter;
    *segment_keys_counter = segment_key.wrapping_add(1);
    let ghost start_view = SendingView { segment_keys: next_u32(segment_key), ..ready };
    let ghost whole = start_view.send_segments(
        channel.local_id.0,
        channel.channel@,
        segment_key,
        order,
        payload@,
        0,
    );
    assert(whole == before.send(state, channel.local_id.0, channel.channel@, payload@));
    let mut i: usize = 0;
    let mut start: usize = 0;
    while i < count
        invariant
            before == (SendingView {
                resender: old(resender)@,
                segment_keys: *old(segment_keys_counter),
                orders: old(orders)@,
                outbox: contents(old(outbox)@),
                resend_keys: old(resend_keys)@,
            }),
            whole == before.send(state, channel.local_id.0, channel.channel@, payload@),
            resender.wf(),
            len == payload@.len(),
            count == segment_count(len as nat),
            i <= count,
            start == if i < count {
                i * SEGMENT_LEN
            } else {
                len as int
            },
            *segment_keys_counter == start_view.segment_keys,
            orders@ == start_view.orders,
            whole == (SendingView {
                resender: resender@,
                segment_keys: *segment_keys_counter,
                orders: orders@,
                outbox: contents(outbox@),
                resend_keys: resend_keys@,
            }).send_segments(
                channel.local_id.0,
                channel.channel@,
                segment_key,
                order,
                payload@,
                i as nat,
            ),
        decreases count - i,
    {
        proof {
            lemma_segment_at(len as nat, i as nat);
        }
        let last = len - start <= SEGMENT_LEN;
        let end: usize = if last {
            len
        } else {
            start + SEGMENT_LEN
        };
        let segment = slice_subrange(payload, start, end);
        assert(segment@ =~= segment_of(payload@, i as nat));
        let metadata = PacketSegmentMetadata { segment_key, segment: i, segment_count: count };
        match send_real_packet(
            channel,
            Some(metadata),
            order,
            segment,
            resender,
            outbox,
            resend_keys,
            Ghost(*segment_keys_counter),
            Ghost(orders@),
        ) {
            Ok(_) => {},
            Err(e) => {
                return Err(e);
            },
        }
        i += 1;
        start = end;
    }
    Ok(())
}

} // verus!
