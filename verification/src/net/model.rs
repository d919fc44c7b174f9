//! What a connection is and what the packets that arrive do to it, in plain values.
use super::acknowledge::{acknowledged, flushed, parse_keys, remove_all, state_acknowledged};
use super::channel::ChannelView;
use super::channel_data::ChannelDataView;
use super::id::{ConnectionState, ACK_CHANNEL_ID_REGISTRATION_STAGE, NULL_CHANNEL_ID};
use super::mapper::{without, MapperView};
use super::ordering::{OrdererView, PacketOrdererError};
use super::packet::{
    parse_headers, ChannelName, ConnectionError, PrimaryPacketMetadata,
    MAX_NON_SEGMENTED_PAYLOAD_LEN,
};
use super::provider::ProviderView;
use super::resend::ResenderView;
use super::segment::{JoinerView, PacketSegmentMetadata};
use super::send::{channel_for, SendingView};
use crate::proto::decode::Decode;
use crate::proto::VarInt;
use crate::util::slot_map::SlotMapKey;
use vstd::prelude::*;

verus! {

/// One side of a connection.
#[verifier::ext_equal]
pub struct ConnectionView {
    pub state: ConnectionState,
    /// The ids that this side gives to channels.
    pub local: MapperView,
    /// The ids that the other side gives to channels.
    pub remote: MapperView,
    /// The acknowledgements that wait to be sent.
    pub unsent: Seq<u8>,
    /// The keys of the packets that have arrived.
    pub received: Set<SlotMapKey>,
    pub resender: ResenderView,
    pub segment_keys: u32,
    pub orders: ChannelDataView<u32>,
    pub orderers: ChannelDataView<Option<OrdererView>>,
    pub joiner: JoinerView,
    pub last_time_received_packet: u64,
}

/// A connection, the packets that it has sent, and the messages that were delivered, by the
/// global ids of their channels.
#[verifier::ext_equal]
pub struct ExchangeView {
    pub connection: ConnectionView,
    pub outbox: Seq<Seq<u8>>,
    pub buffers: Map<u32, Seq<Seq<u8>>>,
}

/// What becomes of a connection, and whether it went well.
pub struct ConnectionOutcome {
    pub after: ConnectionView,
    pub result: Result<(), ConnectionError>,
}

/// What becomes of a connection and of the packets that it has sent, and whether it went well.
pub struct UpdateOutcome {
    pub after: ConnectionView,
    pub outbox: Seq<Seq<u8>>,
    pub result: Result<(), ConnectionError>,
}

/// What becomes of it, and whether it went well.
pub struct ExchangeOutcome {
    pub after: ExchangeView,
    pub result: Result<(), ConnectionError>,
}

/// What becomes of it, how many messages were delivered, and whether it went well.
pub struct DeliveryOutcome {
    pub after: ExchangeView,
    pub count: nat,
    pub result: Result<(), ConnectionError>,
}

/// Whether the ids stand for known channels, as far as they stand for any.
pub open spec fn known_ids(locals: Seq<u32>, provider: ProviderView) -> bool {
    forall|i: int|
        0 <= i < locals.len() && #[trigger] locals[i] != NULL_CHANNEL_ID ==> provider.names_id(
            locals[i],
        )
}

/// Whether an id stands for an ordered channel.
pub open spec fn needs_orderer(global: u32, provider: ProviderView) -> bool {
    global != NULL_CHANNEL_ID && provider.channels[global].orderability is Some
}

/// A place for each of the first `len` channels, even where it is empty.
pub open spec fn padded<T>(values: Seq<Option<T>>, len: nat) -> Seq<Option<T>> {
    if values.len() >= len {
        values
    } else {
        values + Seq::new((len - values.len()) as nat, |i: int| None)
    }
}

impl ConnectionView {
    /// A connection nothing has happened to yet.
    pub open spec fn fresh(now: u64) -> Self {
        ConnectionView {
            state: ConnectionState::Registration {
                received_last_packet: false,
                last_packet_resend_key: None,
            },
            local: MapperView::empty(),
            remote: MapperView::empty(),
            unsent: Seq::empty(),
            received: Set::empty(),
            resender: ResenderView::empty(),
            segment_keys: 0,
            orders: ChannelDataView { basic: Seq::empty(), ack: 0, management: 0 },
            orderers: ChannelDataView {
                basic: Seq::empty(),
                ack: None,
                management: Some(OrdererView::new(1000)),
            },
            joiner: JoinerView::empty(),
            last_time_received_packet: now,
        }
    }

    /// The ids are consistent, what waits to be acknowledged fits in one packet, and every channel
    /// that the other side has registered is a known one and has an orderer if it is ordered.
    pub open spec fn wf(self, provider: ProviderView) -> bool {
        &&& self.coherent(provider)
        &&& self.orderers_fit(provider)
        &&& self.orderers.management is Some
    }

    pub open spec fn coherent(self, provider: ProviderView) -> bool {
        &&& self.local.wf()
        &&& self.remote.wf()
        &&& self.resender.wf()
        &&& self.unsent.len() <= MAX_NON_SEGMENTED_PAYLOAD_LEN
        &&& self.joiner.capacity == 0
        &&& self.joiner.packets.dom().finite()
        &&& self.orders.basic.len() >= self.local.locals.len()
        &&& known_ids(self.remote.locals, provider)
        &&& known_ids(self.local.locals, provider)
    }

    pub open spec fn orderers_fit(self, provider: ProviderView) -> bool {
        forall|i: int|
            0 <= i < self.remote.locals.len() && needs_orderer(
                #[trigger] self.remote.locals[i],
                provider,
            ) ==> i < self.orderers.basic.len() && self.orderers.basic[i] is Some
    }

    /// This side has told the other one which channels it has.
    pub open spec fn initialized(self) -> bool {
        self.local.ack_channel_id() is Some
    }

    /// Whether a packet with this resend key, if it has one, is acknowledged.
    pub open spec fn acknowledges(self, resend_key: Option<SlotMapKey>) -> bool {
        resend_key matches Some(key) && !self.received.contains(key)
    }

    /// The resend key of a packet that arrives on this channel, if it can be read.
    pub open spec fn resend_key_on(channel: ChannelView, segment: bool, body: Seq<u8>) -> Option<
        SlotMapKey,
    > {
        let metadata = PacketSegmentMetadata::parse(body);
        let rest = if segment {
            body.skip(metadata.used as int)
        } else {
            body
        };
        if segment && metadata.value is None {
            None
        } else {
            match parse_headers(channel, rest).value {
                Some(headers) => headers.resend_key,
                None => None,
            }
        }
    }

    /// Whether a packet that arrives is acknowledged, for which the acknowledgement channel has to
    /// have an id.
    pub open spec fn would_acknowledge(self, payload: Seq<u8>, provider: ProviderView) -> bool {
        let primary = PrimaryPacketMetadata::<false>::parse(payload);
        let body = payload.skip(primary.used as int);
        match primary.value {
            None => false,
            Some(p) => {
                let c = self.speculated(p.channel_id);
                match c.remote.global_id(c.state, p.channel_id) {
                    None => false,
                    Some(global) => match channel_for(c.state, p.channel_id, global, provider) {
                        None => false,
                        Some(channel) => c.acknowledges(
                            Self::resend_key_on(channel, p.segment, body),
                        ),
                    },
                }
            },
        }
    }

    /// What sending packets reads and changes.
    pub open spec fn sending(self, outbox: Seq<Seq<u8>>) -> SendingView {
        SendingView {
            resender: self.resender,
            segment_keys: self.segment_keys,
            orders: self.orders,
            outbox,
            resend_keys: Seq::empty(),
        }
    }

    /// After packets were sent.
    pub open spec fn sent(self, sending: SendingView) -> Self {
        ConnectionView {
            resender: sending.resender,
            segment_keys: sending.segment_keys,
            orders: sending.orders,
            ..self
        }
    }

    /// Messages are exchanged from now on; what concerned the packets of the registration stage
    /// is forgotten.
    pub open spec fn transferred(self) -> Self {
        ConnectionView {
            state: ConnectionState::Transfer,
            unsent: Seq::empty(),
            received: Set::empty(),
            resender: self.resender.clear(),
            ..self
        }
    }

    /// Messages are exchanged from now on if registration is complete.
    pub open spec fn converted(self) -> Self {
        if self.state.registered() {
            self.transferred()
        } else {
            self
        }
    }

    /// When a packet arrives that does not belong to the registration stage although the other
    /// side has told its last channel, then the other side knows that this one knows, and
    /// messages are exchanged from now on.
    pub open spec fn speculated(self, channel_id: u32) -> Self {
        match self.state {
            ConnectionState::Registration { received_last_packet: true, .. } =>
            if self.remote.global_id(self.state, channel_id) is None {
                self.transferred()
            } else {
                self
            },
            _ => self,
        }
    }

    /// The acknowledgements in a packet were taken note of.
    pub open spec fn noted(self, packet: Seq<u8>) -> Self {
        ConnectionView {
            resender: remove_all(self.resender, parse_keys(packet)),
            state: state_acknowledged(self.state, parse_keys(packet)),
            ..self
        }
    }

    /// The other side's channel `global` has the id `local_id` from now on.
    pub open spec fn registered_channel(
        self,
        local_id: u32,
        global: u32,
        name: Seq<char>,
        channel: ChannelView,
    ) -> Self {
        let locals = self.remote.locals;
        let all = padded(self.orderers.basic, locals.len());
        let others = if !locals.contains(global) {
            all
        } else if local_id <= without(locals, global).len() {
            all.remove(locals.index_of(global))
        } else {
            all.update(locals.index_of(global), None)
        };
        let orderer = match channel.orderability {
            Some(capacity) => Some(OrdererView::new(capacity)),
            None => None,
        };
        ConnectionView {
            remote: self.remote.insert(local_id, global, name),
            orderers: ChannelDataView {
                basic: others.insert(local_id as int, orderer),
                ..self.orderers
            },
            ..self
        }
    }

    /// Time passes: what is due is sent again, and what waits to be acknowledged is sent.
    pub open spec fn update(self, delta: u32, outbox: Seq<Seq<u8>>) -> UpdateOutcome {
        let aged = ConnectionView { resender: self.resender.aged(delta), ..self };
        let flush = flushed(
            self.unsent,
            aged.sending(outbox + self.resender.due(delta)),
            self.state,
            self.local.ack,
        );
        UpdateOutcome {
            after: ConnectionView { unsent: flush.buf, ..aged }.sent(flush.after),
            outbox: flush.after.outbox,
            result: flush.result,
        }
    }

    /// A packet arrives that registers a channel, or tells that the last one was registered.
    pub open spec fn register(self, packet: Seq<u8>, provider: ProviderView) -> ConnectionOutcome {
        let name = ChannelName::parse(packet);
        let local_id = VarInt::<u32>::parse(packet.skip(name.used as int));
        match name.value {
            None => self.refuse(ConnectionError::DecodeError),
            Some(n) => if n.len() == 0 {
                ConnectionOutcome { after: self.told_last().converted(), result: Ok(()) }
            } else {
                match local_id.value {
                    None => self.refuse(ConnectionError::DecodeError),
                    Some(id) => if !provider.names.contains_key(n) {
                        self.refuse(ConnectionError::UnknownChannel)
                    } else if !self.remote.accepts(id.0) {
                        self.refuse(ConnectionError::ChannelRegistrationStageInvalidValue)
                    } else {
                        let global = provider.names[n];
                        ConnectionOutcome {
                            after: self.registered_channel(
                                id.0,
                                global,
                                n,
                                provider.channels[global],
                            ),
                            result: Ok(()),
                        }
                    },
                }
            },
        }
    }

    pub open spec fn refuse(self, error: ConnectionError) -> ConnectionOutcome {
        ConnectionOutcome { after: self, result: Err(error) }
    }

    /// The other side has told its last channel.
    pub open spec fn told_last(self) -> Self {
        match self.state {
            ConnectionState::Registration { last_packet_resend_key, .. } => ConnectionView {
                state: ConnectionState::Registration {
                    received_last_packet: true,
                    last_packet_resend_key,
                },
                ..self
            },
            ConnectionState::Transfer => self,
        }
    }
}

impl ExchangeView {
    pub open spec fn with(self, connection: ConnectionView) -> Self {
        ExchangeView { connection, ..self }
    }

    pub open spec fn ok(self) -> ExchangeOutcome {
        ExchangeOutcome { after: self, result: Ok(()) }
    }

    pub open spec fn fail(self, error: ConnectionError) -> ExchangeOutcome {
        ExchangeOutcome { after: self, result: Err(error) }
    }

    /// A message arrives whose turn it is.
    pub open spec fn deliver(
        self,
        local_id: u32,
        global_id: u32,
        packet: Seq<u8>,
        provider: ProviderView,
    ) -> ExchangeOutcome {
        let c = self.connection;
        match c.state {
            ConnectionState::Registration { .. } => if local_id
                == ACK_CHANNEL_ID_REGISTRATION_STAGE {
                self.with(c.noted(packet).converted()).ok()
            } else {
                let registration = c.register(packet, provider);
                ExchangeOutcome {
                    after: self.with(registration.after),
                    result: registration.result,
                }
            },
            ConnectionState::Transfer => if c.remote.ack_channel_id() == Some(local_id) {
                self.with(c.noted(packet)).ok()
            } else if c.remote.management_channel_id() == Some(local_id) {
                self.fail(ConnectionError::RegistrationStageIsOver)
            } else if self.buffers.contains_key(global_id) {
                ExchangeView {
                    buffers: self.buffers.insert(global_id, self.buffers[global_id].push(packet)),
                    ..self
                }.ok()
            } else {
                self.fail(ConnectionError::UnknownChannel)
            },
        }
    }

    /// Messages arrive one after the other, up to the first that is refused.
    pub open spec fn deliver_all(
        self,
        local_id: u32,
        global_id: u32,
        packets: Seq<Seq<u8>>,
        provider: ProviderView,
    ) -> DeliveryOutcome
        decreases packets.len(),
    {
        if packets.len() == 0 {
            DeliveryOutcome { after: self, count: 0, result: Ok(()) }
        } else {
            let one = self.deliver(local_id, global_id, packets[0], provider);
            if one.result is Ok {
                let others = one.after.deliver_all(
                    local_id,
                    global_id,
                    packets.skip(1),
                    provider,
                );
                DeliveryOutcome { count: others.count + 1, ..others }
            } else {
                DeliveryOutcome { after: one.after, count: 0, result: one.result }
            }
        }
    }

    /// Another orderer for a channel.
    pub open spec fn with_orderer(
        self,
        state: ConnectionState,
        local_id: u32,
        orderer: Option<OrdererView>,
    ) -> Self {
        self.with(
            ConnectionView {
                orderers: self.connection.orderers.put(state, local_id, orderer),
                ..self.connection
            },
        )
    }

    /// A message arrives. On an ordered channel it waits for its turn, and those whose turn has
    /// come are delivered.
    pub open spec fn deliver_in_order(
        self,
        local_id: u32,
        global_id: u32,
        order: Option<u32>,
        packet: Seq<u8>,
        provider: ProviderView,
    ) -> ExchangeOutcome {
        match order {
            None => self.deliver(local_id, global_id, packet, provider),
            Some(n) => {
                let state = self.connection.state;
                let orderer = self.connection.orderers.get(state, local_id).unwrap();
                if !orderer.accepts(n as usize) {
                    self.fail(
                        ConnectionError::PacketOrdererError(PacketOrdererError::CapacityReached),
                    )
                } else {
                    let pushed = orderer.push(n as usize, packet);
                    let delivery = self.with_orderer(state, local_id, None).deliver_all(
                        local_id,
                        global_id,
                        pushed.ready(),
                        provider,
                    );
                    let left = if delivery.result is Ok {
                        pushed.handed_out(delivery.count)
                    } else {
                        pushed.handed_out(delivery.count).taken()
                    };
                    ExchangeOutcome {
                        after: delivery.after.with_orderer(state, local_id, Some(left)),
                        result: delivery.result,
                    }
                }
            },
        }
    }

    /// A packet with a resend key is acknowledged, unless one with the same key has arrived
    /// before.
    pub open spec fn acknowledge(self, resend_key: Option<SlotMapKey>) -> ExchangeOutcome {
        let c = self.connection;
        match resend_key {
            None => self.ok(),
            Some(key) => if c.received.contains(key) {
                self.fail(ConnectionError::PacketDuplicateDetected)
            } else {
                let outcome = acknowledged(
                    c.unsent,
                    key,
                    c.sending(self.outbox),
                    c.state,
                    c.local.ack,
                );
                ExchangeOutcome {
                    after: ExchangeView {
                        connection: ConnectionView {
                            unsent: outcome.buf,
                            received: c.received.insert(key),
                            ..c
                        }.sent(outcome.after),
                        outbox: outcome.after.outbox,
                        buffers: self.buffers,
                    },
                    result: outcome.result,
                }
            },
        }
    }

    /// The time at which a packet has arrived, unless it was refused.
    pub open spec fn timed(outcome: ExchangeOutcome, now: u64) -> ExchangeOutcome {
        if outcome.result is Ok {
            outcome.after.with(
                ConnectionView {
                    last_time_received_packet: now,
                    ..outcome.after.connection
                },
            ).ok()
        } else {
            outcome
        }
    }

    /// A packet arrives that is no segment.
    pub open spec fn receive_whole(
        self,
        local_id: u32,
        global_id: u32,
        channel: ChannelView,
        body: Seq<u8>,
        provider: ProviderView,
        now: u64,
    ) -> ExchangeOutcome {
        let headers = parse_headers(channel, body);
        match headers.value {
            None => self.fail(ConnectionError::DecodeError),
            Some(h) => {
                let acknowledged = self.acknowledge(h.resend_key);
                if acknowledged.result is Ok {
                    Self::timed(
                        acknowledged.after.deliver_in_order(
                            local_id,
                            global_id,
                            h.order,
                            body.skip(headers.used as int),
                            provider,
                        ),
                        now,
                    )
                } else {
                    acknowledged
                }
            },
        }
    }

    /// A segment arrives.
    pub open spec fn receive_segment(
        self,
        local_id: u32,
        global_id: u32,
        channel: ChannelView,
        body: Seq<u8>,
        provider: ProviderView,
        now: u64,
    ) -> ExchangeOutcome {
        let metadata = PacketSegmentMetadata::parse(body);
        let segment = body.skip(metadata.used as int);
        match metadata.value {
            None => self.fail(ConnectionError::DecodeError),
            Some(m) => match parse_headers(channel, segment).value {
                None => self.fail(ConnectionError::DecodeError),
                Some(h) => {
                    let acknowledged = self.acknowledge(h.resend_key);
                    if acknowledged.result is Ok {
                        acknowledged.after.join(
                            local_id,
                            global_id,
                            channel,
                            m,
                            segment,
                            provider,
                            now,
                        )
                    } else {
                        acknowledged
                    }
                },
            },
        }
    }

    /// A segment is put to the others, and once they are complete the message has arrived.
    pub open spec fn join(
        self,
        local_id: u32,
        global_id: u32,
        channel: ChannelView,
        metadata: PacketSegmentMetadata,
        segment: Seq<u8>,
        provider: ProviderView,
        now: u64,
    ) -> ExchangeOutcome {
        let c = self.connection;
        let joined = c.joiner.add(metadata, segment, true, None);
        let after = self.with(ConnectionView { joiner: joined.joiner, ..c });
        match joined.result {
            Err(e) => after.fail(ConnectionError::PacketSegmentJoinerError(e)),
            Ok(None) => after.ok(),
            Ok(Some(segments)) => match parse_headers(channel, segments[0]).value {
                None => after.fail(ConnectionError::DecodeError),
                Some(h) => Self::timed(
                    after.deliver_in_order(
                        local_id,
                        global_id,
                        h.order,
                        assembled(channel, segments),
                        provider,
                    ),
                    now,
                ),
            },
        }
    }

    /// A packet arrives.
    pub open spec fn receive(self, payload: Seq<u8>, provider: ProviderView, now: u64) -> ExchangeOutcome {
        let primary = PrimaryPacketMetadata::<false>::parse(payload);
        let body = payload.skip(primary.used as int);
        match primary.value {
            None => self.fail(ConnectionError::DecodeError),
            Some(p) => {
                let c = self.connection.speculated(p.channel_id);
                let after = self.with(c);
                match c.remote.global_id(c.state, p.channel_id) {
                    None => after.fail(ConnectionError::UnknownChannel),
                    Some(global) => match channel_for(c.state, p.channel_id, global, provider) {
                        None => after.fail(ConnectionError::UnknownChannel),
                        Some(channel) => if p.segment {
                            after.receive_segment(
                                p.channel_id,
                                global,
                                channel,
                                body,
                                provider,
                                now,
                            )
                        } else {
                            after.receive_whole(
                                p.channel_id,
                                global,
                                channel,
                                body,
                                provider,
                                now,
                            )
                        },
                    },
                }
            },
        }
    }
}

/// The payload of a packet, given its segments with their order and resend key.
pub open spec fn assembled(channel: ChannelView, segments: Seq<Seq<u8>>) -> Seq<u8>
    decreases segments.len(),
{
    if segments.len() == 0 {
        Seq::empty()
    } else {
        assembled(channel, segments.drop_last()) + stripped(channel, segments.last())
    }
}

/// A segment without its order and resend key.
pub open spec fn stripped(channel: ChannelView, segment: Seq<u8>) -> Seq<u8> {
    segment.skip(parse_headers(channel, segment).used as int)
}

} // verus!
