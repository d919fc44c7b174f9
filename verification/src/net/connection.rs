//! One side of a connection, and what the packets that arrive do to it.
use super::acknowledge::{acknowledge_locally, ConnectionAcknowledgeBuffer};
use super::channel::{Channel, ChannelView};
use super::channel_data::ChannelDataView;
use super::consistency::{
    addressable, law_receive_keeps_wf, lemma_acknowledge, lemma_deliver, lemma_no_victim,
    lemma_orderer, lemma_speculated,
};
use super::id::{
    ACK_CHANNEL_ID_REGISTRATION_STAGE, CHANNEL_MANAGEMENT_CHANNEL_ID_REGISTRATION_STAGE,
};
use super::mapper::ConnectionIdMapper;
use super::model::{
    assembled, padded, ConnectionOutcome, ConnectionView, DeliveryOutcome, ExchangeOutcome, ExchangeView,
    UpdateOutcome,
};
use super::ordering::{lemma_handed_out, OrdererView, PacketOrderer};
use super::packet::{read_order_and_resend_key, ChannelName, ConnectionError, PrimaryPacketMetadata};
use super::provider::channel_management_channel;
use super::resend::PacketResender;
use super::segment::{joined_view, JoinerView, PacketSegmentJoiner, PacketSegmentMetadata};
use super::send::ConnectionChannel;
use crate::proto::decode::Decode;
use crate::proto::VarInt;
use crate::util::bytes::{append_bytes, contents, copy_bytes};
use crate::util::slot_map::{SlotMapKey, SlotSet};
use vstd::prelude::*;

pub use super::channel_data::{
    ChannelData, ConnectionChannelMessageSwapBuffer, GlobalChannelData,
};
pub use super::id::{ChannelId, ConnectionState, GlobalChannelId, UniqueChannelId};
pub use super::mapper::{
    ConnectionIdMapperInner, ACK_CHANNEL_NAME, CHANNEL_MANAGEMENT_CHANNEL_NAME,
};
pub use super::packet::{MAX_NON_SEGMENTED_PAYLOAD_LEN, MAX_PACKET_LEN};
pub use super::provider::{ChannelProvider, DefaultChannelProvider};

verus! {

/// One side of a connection.
pub struct Connection {
    pub state: ConnectionState,
    pub id_mapper: ConnectionIdMapper,
    pub acknowledge_buffer: ConnectionAcknowledgeBuffer,
    pub resend_key_duplicate_checker: SlotSet,
    pub resender: PacketResender,
    pub segment_keys_counter: u32,
    pub orders: ChannelData<u32, UniqueChannelId<true>>,
    pub orderers: ChannelData<Option<PacketOrderer>, UniqueChannelId<false>>,
    pub joiner: PacketSegmentJoiner,
    /// In milliseconds, from the moment from which the program counts time.
    pub last_time_received_packet: u64,
}

pub open spec fn orderer_view(orderer: Option<PacketOrderer>) -> Option<OrdererView> {
    match orderer {
        Some(o) => Some(o@),
        None => None,
    }
}

pub open spec fn orderers_view(orderers: ChannelDataView<Option<PacketOrderer>>) -> ChannelDataView<
    Option<OrdererView>,
> {
    ChannelDataView {
        basic: orderers.basic.map_values(|o: Option<PacketOrderer>| orderer_view(o)),
        ack: orderer_view(orderers.ack),
        management: orderer_view(orderers.management),
    }
}

pub open spec fn orderer_wf(orderer: Option<PacketOrderer>) -> bool {
    match orderer {
        Some(o) => o.wf(),
        None => true,
    }
}

impl View for Connection {
    type V = ConnectionView;

    open spec fn view(&self) -> ConnectionView {
        ConnectionView {
            state: self.state,
            local: self.id_mapper.local_inner@,
            remote: self.id_mapper.not_local_inner@,
            unsent: self.acknowledge_buffer@,
            received: self.resend_key_duplicate_checker@,
            resender: self.resender@,
            segment_keys: self.segment_keys_counter,
            orders: self.orders@,
            orderers: orderers_view(self.orderers@),
            joiner: self.joiner@,
            last_time_received_packet: self.last_time_received_packet,
        }
    }
}

/// The messages that were delivered, by the global ids of their channels.
pub open spec fn buffers_view(buffers: Map<u32, ConnectionChannelMessageSwapBuffer>) -> Map<
    u32,
    Seq<Seq<u8>>,
> {
    buffers.map_values(|buffer: ConnectionChannelMessageSwapBuffer| buffer@)
}

/// A connection, the packets that it has sent, and the messages that were delivered.
pub open spec fn exchange(
    connection: ConnectionView,
    outbox: Seq<Vec<u8>>,
    buffers: Map<u32, ConnectionChannelMessageSwapBuffer>,
) -> ExchangeView {
    ExchangeView { connection, outbox: contents(outbox), buffers: buffers_view(buffers) }
}

impl Connection {
    /// The parts of the connection are well-formed.
    pub open spec fn wf(&self) -> bool {
        &&& self.id_mapper.local_inner.wf()
        &&& self.id_mapper.not_local_inner.wf()
        &&& self.resender.wf()
        &&& self.joiner.wf()
        &&& orderer_wf(self.orderers@.ack)
        &&& orderer_wf(self.orderers@.management)
        &&& forall|i: int|
            0 <= i < self.orderers@.basic.len() ==> orderer_wf(#[trigger] self.orderers@.basic[i])
    }

    pub fn new(now: u64) -> (connection: Self)
        ensures
            connection.wf(),
            connection@ == ConnectionView::fresh(now),
    {
        let mut orderers: ChannelData<Option<PacketOrderer>, UniqueChannelId<false>> =
            ChannelData::default();
        let capacity: usize = match channel_management_channel().orderability {
            Some(ordered_channel) => ordered_channel.capacity.get(),
            None => 0,
        };
        orderers.set(
            ConnectionState::default(),
            ChannelId::new(CHANNEL_MANAGEMENT_CHANNEL_ID_REGISTRATION_STAGE),
            Some(PacketOrderer::new(capacity)),
        );
        let connection = Connection {
            state: ConnectionState::default(),
            id_mapper: ConnectionIdMapper::default(),
            acknowledge_buffer: ConnectionAcknowledgeBuffer::default(),
            resend_key_duplicate_checker: SlotSet::default(),
            resender: PacketResender::default(),
            segment_keys_counter: 0,
            orders: ChannelData::default(),
            orderers,
            joiner: PacketSegmentJoiner::default(),
            last_time_received_packet: now,
        };
        assert(connection@ =~= ConnectionView::fresh(now));
        connection
    }

    /// Lets messages be exchanged from now on.
    fn transfer(&mut self)
        requires
            old(self).wf(),
        ensures
            final(self).wf(),
            final(self)@ == old(self)@.transferred(),
    {
        self.state = ConnectionState::Transfer;
        self.acknowledge_buffer.clear();
        self.resend_key_duplicate_checker.clear();
        proof {
            self.resender.lemma_wf();
        }
        self.resender.map_mut().clear();
        assert(self@ =~= old(self)@.transferred());
    }

    /// Lets messages be exchanged from now on if registration is complete.
    fn convert(&mut self)
        requires
            old(self).wf(),
        ensures
            final(self).wf(),
            final(self)@ == old(self)@.converted(),
    {
        let mut state = self.state;
        if state.convert_to_transfer_if_possible() {
            self.transfer();
        }
    }

    /// Registers the channel that a packet tells, or takes note that the last one was told.
    fn register<P: ChannelProvider>(&mut self, packet: &[u8], provider: &P) -> (r: Result<
        (),
        ConnectionError,
    >)
        requires
            old(self).wf(),
            old(self)@.coherent(provider.model()),
            provider.model().valid(),
        ensures
            final(self).wf(),
            (ConnectionOutcome { after: final(self)@, result: r }) == old(self)@.register(
                packet@,
                provider.model(),
            ),
    {
        let mut rest: &[u8] = packet;
        let channel_name = match ChannelName::decode(&mut rest) {
            Ok(name) => name.0,
            Err(_) => {
                return Err(ConnectionError::DecodeError);
            },
        };
        if channel_name.is_empty() {
            if let ConnectionState::Registration { last_packet_resend_key, .. } = self.state {
                self.state =
                ConnectionState::Registration {
                    received_last_packet: true,
                    last_packet_resend_key,
                };
            }
            self.convert();
            return Ok(());
        }
        let local_id = match VarInt::<u32>::decode(&mut rest) {
            Ok(id) => ChannelId::new(id.0),
            Err(_) => {
                return Err(ConnectionError::DecodeError);
            },
        };
        let global_id = match provider.by_name(channel_name) {
            Some(id) => id,
            None => {
                return Err(ConnectionError::UnknownChannel);
            },
        };
        let count: usize = self.id_mapper.not_local_inner.len();
        let position = self.id_mapper.not_local_inner.local_id(
            ConnectionState::Transfer,
            global_id,
        );
        if !self.id_mapper.not_local_inner.insert(local_id, global_id, channel_name) {
            return Err(ConnectionError::ChannelRegistrationStageInvalidValue);
        }
        let ghost before = self@.orderers;
        while self.orderers.len() < count
            invariant
                self.wf(),
                count == old(self)@.remote.locals.len() <= u32::MAX,
                before == old(self)@.orderers,
                self@ == (ConnectionView {
                    orderers: self@.orderers,
                    remote: self@.remote,
                    ..old(self)@
                }),
                self@.remote == old(self)@.remote.insert(local_id.0, global_id.0, channel_name@),
                before.basic.len() <= self@.orderers.basic.len(),
                before.basic.len() < count ==> self@.orderers.basic.len() <= count,
                before.basic.len() >= count ==> self@.orderers.basic.len() == before.basic.len(),
                forall|i: int|
                    0 <= i < before.basic.len() ==> self@.orderers.basic[i] == before.basic[i],
                forall|i: int|
                    before.basic.len() <= i < self@.orderers.basic.len()
                        ==> self@.orderers.basic[i] is None,
                self@.orderers.ack == before.ack,
                self@.orderers.management == before.management,
            decreases count - self@.orderers.basic.len(),
        {
            let ghost was = self@.orderers.basic;
            let end: u32 = self.orderers.len() as u32;
            self.orderers.insert(ChannelId::new(end), None);
            assert(self@.orderers.basic =~= was.push(None));
        }
        let ghost all = padded(before.basic, count as nat);
        assert(self@.orderers.basic =~= all);
        if let Some(position) = position {
            if (local_id.0 as usize) < count {
                self.orderers.remove(position);
            } else {
                *self.orderers.get_mut(ConnectionState::Transfer, position) = None;
            }
        }
        let orderer = match provider.by_id(global_id) {
            Some(channel) => match channel.orderability {
                Some(ordered_channel) => Some(PacketOrderer::new(ordered_channel.capacity.get())),
                None => None,
            },
            None => None,
        };
        self.orderers.insert(local_id, orderer);
        proof {
            let model = old(self)@.registered_channel(
                local_id.0,
                global_id.0,
                channel_name@,
                provider.model().channels[global_id.0],
            );
            assert(self@.orderers.basic =~= model.orderers.basic);
            assert(self@ =~= model);
        }
        Ok(())
    }

    /// Handles a message whose turn it is.
    fn deliver<P: ChannelProvider>(
        &mut self,
        local_id: ChannelId<UniqueChannelId<false>>,
        global_id: ChannelId<GlobalChannelId>,
        packet: Vec<u8>,
        provider: &P,
        buffers: &mut GlobalChannelData<ConnectionChannelMessageSwapBuffer>,
        Ghost(outbox): Ghost<Seq<Vec<u8>>>,
    ) -> (r: Result<(), ConnectionError>)
        requires
            old(self).wf(),
            old(self)@.coherent(provider.model()),
            provider.model().valid(),
        ensures
            final(self).wf(),
            (ExchangeOutcome { after: exchange(final(self)@, outbox, final(buffers)@), result: r })
                == exchange(old(self)@, outbox, old(buffers)@).deliver(
                local_id.0,
                global_id.0,
                packet@,
                provider.model(),
            ),
    {
        let ghost before = exchange(self@, outbox, buffers@);
        match self.state {
            ConnectionState::Registration { .. } => {
                if local_id.0 == ACK_CHANNEL_ID_REGISTRATION_STAGE {
                    acknowledge_locally(&mut self.resender, packet.as_slice(), &mut self.state);
                    assert(self@ =~= before.connection.noted(packet@));
                    self.convert();
                    Ok(())
                } else {
                    self.register(packet.as_slice(), provider)
                }
            },
            ConnectionState::Transfer => {
                let remote = &self.id_mapper.not_local_inner;
                let acknowledges = match remote.ack_channel_id() {
                    Some(id) => id.0 == local_id.0,
                    None => false,
                };
                let manages = match remote.channel_management_channel_id() {
                    Some(id) => id.0 == local_id.0,
                    None => false,
                };
                if acknowledges {
                    acknowledge_locally(&mut self.resender, packet.as_slice(), &mut self.state);
                    assert(self@ =~= before.connection.noted(packet@));
                    Ok(())
                } else if manages {
                    Err(ConnectionError::RegistrationStageIsOver)
                } else {
                    match buffers.get_mut(global_id) {
                        Some(buffer) => {
                            buffer.push(packet);
                            assert(buffers_view(buffers@) =~= before.buffers.insert(
                                global_id.0,
                                before.buffers[global_id.0].push(packet@),
                            ));
                            Ok(())
                        },
                        None => Err(ConnectionError::UnknownChannel),
                    }
                }
            },
        }
    }

    /// Puts an orderer where the channel's orderer belongs.
    fn put_orderer(
        &mut self,
        state: ConnectionState,
        local_id: ChannelId<UniqueChannelId<false>>,
        orderer: Option<PacketOrderer>,
    ) -> (before: Option<PacketOrderer>)
        requires
            old(self).wf(),
            old(self)@.orderers.holds(state, local_id.0),
            orderer_wf(orderer),
        ensures
            final(self).wf(),
            orderer_wf(before),
            orderer_view(before) == old(self)@.orderers.get(state, local_id.0),
            final(self)@ == (ConnectionView {
                orderers: old(self)@.orderers.put(state, local_id.0, orderer_view(orderer)),
                ..old(self)@
            }),
    {
        let place = self.orderers.get_mut(state, local_id);
        let before = place.take();
        *place = orderer;
        proof {
            let after = old(self)@.orderers.put(state, local_id.0, orderer_view(orderer));
            assert(self@.orderers.basic =~= after.basic);
            assert(self@.orderers =~= after);
        }
        before
    }

    /// Handles a message: at once, or when its turn has come if the channel is ordered.
    fn deliver_in_order<P: ChannelProvider>(
        &mut self,
        local_id: ChannelId<UniqueChannelId<false>>,
        global_id: ChannelId<GlobalChannelId>,
        order: Option<u32>,
        packet: Vec<u8>,
        provider: &P,
        buffers: &mut GlobalChannelData<ConnectionChannelMessageSwapBuffer>,
        Ghost(outbox): Ghost<Seq<Vec<u8>>>,
        Ghost(channel): Ghost<ChannelView>,
    ) -> (r: Result<(), ConnectionError>)
        requires
            old(self).wf(),
            old(self)@.wf(provider.model()),
            provider.model().valid(),
            addressable(old(self)@, local_id.0, global_id.0, channel, provider.model()),
            order is Some ==> channel.orderability is Some,
        ensures
            final(self).wf(),
            (ExchangeOutcome { after: exchange(final(self)@, outbox, final(buffers)@), result: r })
                == exchange(old(self)@, outbox, old(buffers)@).deliver_in_order(
                local_id.0,
                global_id.0,
                order,
                packet@,
                provider.model(),
            ),
    {
        let order: u32 = match order {
            Some(order) => order,
            None => {
                return self.deliver(
                    local_id,
                    global_id,
                    packet,
                    provider,
                    buffers,
                    Ghost(outbox),
                );
            },
        };
        let ghost before = exchange(self@, outbox, buffers@);
        let ghost model = provider.model();
        proof {
            lemma_orderer(self@, local_id.0, global_id.0, channel, model);
        }
        let state = self.state;
        let mut orderer = match self.put_orderer(state, local_id, None) {
            Some(orderer) => orderer,
            None => {
                return Err(ConnectionError::UnknownChannel);
            },
        };
        let ghost taken = before.with_orderer(state, local_id.0, None);
        assert(exchange(self@, outbox, buffers@) == taken);
        match orderer.push(order as usize, packet) {
            Ok(_) => {},
            Err(e) => {
                let _ = self.put_orderer(state, local_id, Some(orderer));
                assert(self@.orderers =~= before.connection.orderers);
                assert(self@ =~= before.connection);
                return Err(ConnectionError::PacketOrdererError(e));
            },
        }
        let ghost pushed = orderer@;
        let ghost ready = pushed.ready();
        let ghost whole = taken.deliver_all(local_id.0, global_id.0, ready, model);
        let ghost mut n: nat = 0;
        let mut result: Result<(), ConnectionError> = Ok(());
        let mut more = true;
        proof {
            orderer.lemma_wf();
            assert(ready.skip(0) =~= ready);
            assert(taken.connection.coherent(model));
        }
        while more
            invariant
                self.wf(),
                self@.coherent(model),
                model == provider.model(),
                model.valid(),
                self@.orderers.holds(state, local_id.0),
                orderer.wf(),
                pushed.wf(),
                ready == pushed.ready(),
                n <= ready.len(),
                more ==> result == Ok::<(), ConnectionError>(()) && orderer@ == pushed.handed_out(n) && whole.after
                    == exchange(self@, outbox, buffers@).deliver_all(
                    local_id.0,
                    global_id.0,
                    ready.skip(n as int),
                    model,
                ).after && whole.count == n + exchange(self@, outbox, buffers@).deliver_all(
                    local_id.0,
                    global_id.0,
                    ready.skip(n as int),
                    model,
                ).count && whole.result == exchange(self@, outbox, buffers@).deliver_all(
                    local_id.0,
                    global_id.0,
                    ready.skip(n as int),
                    model,
                ).result,
                !more ==> whole == (DeliveryOutcome {
                    after: exchange(self@, outbox, buffers@),
                    count: n,
                    result,
                }) && orderer@ == (if result is Ok {
                    pushed.handed_out(n)
                } else {
                    pushed.handed_out(n).taken()
                }),
            decreases
                    ready.len() - n + if more {
                        1int
                    } else {
                        0
                    },
        {
            proof {
                lemma_handed_out(pushed, n);
            }
            match orderer.take_current() {
                None => {
                    more = false;
                },
                Some(message) => {
                    proof {
                        lemma_deliver(
                            exchange(self@, outbox, buffers@),
                            local_id.0,
                            global_id.0,
                            message@,
                            model,
                        );
                        assert(ready.skip(n as int)[0] == ready[n as int]);
                        assert(ready.skip(n as int).skip(1) =~= ready.skip(n as int + 1));
                    }
                    match self.deliver(
                        local_id,
                        global_id,
                        message,
                        provider,
                        buffers,
                        Ghost(outbox),
                    ) {
                        Ok(_) => {
                            orderer.advance();
                            proof {
                                n = n + 1;
                            }
                        },
                        Err(e) => {
                            result = Err(e);
                            more = false;
                        },
                    }
                },
            }
        }
        let _ = self.put_orderer(state, local_id, Some(orderer));
        result
    }

    /// Acknowledges a packet that has a resend key, unless one with the same key has arrived
    /// before.
    fn acknowledge_if_needed(
        &mut self,
        resend_key: Option<SlotMapKey>,
        outbox: &mut Vec<Vec<u8>>,
        Ghost(buffers): Ghost<Map<u32, ConnectionChannelMessageSwapBuffer>>,
    ) -> (r: Result<(), ConnectionError>)
        requires
            old(self).wf(),
            old(self)@.acknowledges(resend_key) ==> old(self)@.initialized(),
        ensures
            final(self).wf(),
            (ExchangeOutcome { after: exchange(final(self)@, final(outbox)@, buffers), result: r })
                == exchange(old(self)@, old(outbox)@, buffers).acknowledge(resend_key),
    {
        let key = match resend_key {
            Some(key) => key,
            None => {
                return Ok(());
            },
        };
        match self.resend_key_duplicate_checker.insert(key) {
            Ok(_) => {},
            Err(_) => {
                assert(self@.received =~= old(self)@.received);
                return Err(ConnectionError::PacketDuplicateDetected);
            },
        }
        let ack_channel_id = match self.id_mapper.local_inner.ack_channel_id() {
            Some(id) => id,
            None => {
                return Err(ConnectionError::UnknownChannel);
            },
        };
        self.acknowledge_buffer.acknowledge(
            key,
            self.state,
            ack_channel_id,
            &mut self.resender,
            &mut self.segment_keys_counter,
            &mut self.orders,
            outbox,
        )
    }
}

/// Puts the payload of a packet together from its segments, each of which starts with the order
/// and the resend key.
fn assemble(channel: &Channel, segments: Vec<Vec<u8>>) -> (payload: Vec<u8>)
    ensures
        payload@ == assembled(channel@, contents(segments@)),
{
    let ghost all = contents(segments@);
    let mut payload: Vec<u8> = Vec::new();
    let mut i: usize = 0;
    assert(all.take(0) =~= Seq::empty());
    while i < segments.len()
        invariant
            all == contents(segments@),
            i <= segments@.len(),
            payload@ == assembled(channel@, all.take(i as int)),
        decreases segments@.len() - i,
    {
        let mut rest: &[u8] = segments[i].as_slice();
        assert(rest@ == all[i as int]);
        let _ = read_order_and_resend_key(channel, &mut rest);
        append_bytes(&mut payload, rest);
        i += 1;
        assert(all.take(i as int).drop_last() =~= all.take(i - 1));
        assert(all.take(i as int).last() == all[i - 1]);
    }
    assert(all.take(i as int) =~= all);
    payload
}

impl Connection {
    /// Handles a message, and takes note of the time unless it is refused.
    fn deliver_timed<P: ChannelProvider>(
        &mut self,
        channel: ConnectionChannel<false>,
        global_id: ChannelId<GlobalChannelId>,
        order: Option<u32>,
        message: Vec<u8>,
        provider: &P,
        buffers: &mut GlobalChannelData<ConnectionChannelMessageSwapBuffer>,
        now: u64,
        Ghost(outbox): Ghost<Seq<Vec<u8>>>,
    ) -> (r: Result<(), ConnectionError>)
        requires
            old(self).wf(),
            old(self)@.wf(provider.model()),
            provider.model().valid(),
            addressable(
                old(self)@,
                channel.local_id.0,
                global_id.0,
                channel.channel@,
                provider.model(),
            ),
            order is Some ==> channel.channel@.orderability is Some,
        ensures
            final(self).wf(),
            (ExchangeOutcome { after: exchange(final(self)@, outbox, final(buffers)@), result: r })
                == ExchangeView::timed(
                exchange(old(self)@, outbox, old(buffers)@).deliver_in_order(
                    channel.local_id.0,
                    global_id.0,
                    order,
                    message@,
                    provider.model(),
                ),
                now,
            ),
    {
        match self.deliver_in_order(
            channel.local_id,
            global_id,
            order,
            message,
            provider,
            buffers,
            Ghost(outbox),
            Ghost(channel.channel@),
        ) {
            Ok(_) => {
                self.last_time_received_packet = now;
                Ok(())
            },
            Err(e) => Err(e),
        }
    }

    /// Handles a packet that is no segment.
    fn receive_whole<P: ChannelProvider>(
        &mut self,
        channel: ConnectionChannel<false>,
        global_id: ChannelId<GlobalChannelId>,
        body: &[u8],
        provider: &P,
        buffers: &mut GlobalChannelData<ConnectionChannelMessageSwapBuffer>,
        outbox: &mut Vec<Vec<u8>>,
        now: u64,
    ) -> (r: Result<(), ConnectionError>)
        requires
            old(self).wf(),
            old(self)@.wf(provider.model()),
            old(self)@.acknowledges(
                ConnectionView::resend_key_on(channel.channel@, false, body@),
            ) ==> old(self)@.initialized(),
            provider.model().valid(),
            addressable(
                old(self)@,
                channel.local_id.0,
                global_id.0,
                channel.channel@,
                provider.model(),
            ),
        ensures
            final(self).wf(),
            (ExchangeOutcome {
                after: exchange(final(self)@, final(outbox)@, final(buffers)@),
                result: r,
            }) == exchange(old(self)@, old(outbox)@, old(buffers)@).receive_whole(
                channel.local_id.0,
                global_id.0,
                channel.channel@,
                body@,
                provider.model(),
                now,
            ),
    {
        let mut rest: &[u8] = body;
        let (order, resend_key) = match read_order_and_resend_key(&channel.channel, &mut rest) {
            Ok(headers) => headers,
            Err(e) => {
                return Err(e);
            },
        };
        let message = copy_bytes(rest);
        proof {
            lemma_acknowledge(
                exchange(self@, outbox@, buffers@),
                resend_key,
                provider.model(),
            );
        }
        match self.acknowledge_if_needed(resend_key, outbox, Ghost(buffers@)) {
            Ok(_) => {},
            Err(e) => {
                return Err(e);
            },
        }
        self.deliver_timed(
            channel,
            global_id,
            order,
            message,
            provider,
            buffers,
            now,
            Ghost(outbox@),
        )
    }

    /// Puts a segment to the others, and handles the message once they are complete.
    fn join<P: ChannelProvider>(
        &mut self,
        channel: ConnectionChannel<false>,
        global_id: ChannelId<GlobalChannelId>,
        metadata: PacketSegmentMetadata,
        segment: Vec<u8>,
        provider: &P,
        buffers: &mut GlobalChannelData<ConnectionChannelMessageSwapBuffer>,
        now: u64,
        Ghost(outbox): Ghost<Seq<Vec<u8>>>,
    ) -> (r: Result<(), ConnectionError>)
        requires
            old(self).wf(),
            old(self)@.wf(provider.model()),
            provider.model().valid(),
            addressable(
                old(self)@,
                channel.local_id.0,
                global_id.0,
                channel.channel@,
                provider.model(),
            ),
            metadata.segment_count >= 1,
        ensures
            final(self).wf(),
            (ExchangeOutcome { after: exchange(final(self)@, outbox, final(buffers)@), result: r })
                == exchange(old(self)@, outbox, old(buffers)@).join(
                channel.local_id.0,
                global_id.0,
                channel.channel@,
                metadata,
                segment@,
                provider.model(),
                now,
            ),
    {
        let ghost joiner = self.joiner@;
        let joined = self.joiner.add(metadata, segment, true);
        proof {
            let victim = choose|victim: Option<u32>| #[trigger]
                joiner.may_evict(metadata.segment_key, victim) && {
                    let outcome = joiner.add(metadata, segment@, true, victim);
                    &&& self.joiner@ == outcome.joiner
                    &&& joined_view(joined) == outcome.result
                };
            lemma_no_victim(joiner, metadata.segment_key, victim);
            lemma_joined(joiner, metadata, segment@);
        }
        assert(self@ == (ConnectionView {
            joiner: joiner.add(metadata, segment@, true, None).joiner,
            ..old(self)@
        }));
        match joined {
            Ok(Some(segments)) => {
                assert(contents(segments@)[0] == segments@[0]@);
                let mut first: &[u8] = segments[0].as_slice();
                let order = match read_order_and_resend_key(&channel.channel, &mut first) {
                    Ok((order, _)) => order,
                    Err(e) => {
                        return Err(e);
                    },
                };
                let message = assemble(&channel.channel, segments);
                self.deliver_timed(
                    channel,
                    global_id,
                    order,
                    message,
                    provider,
                    buffers,
                    now,
                    Ghost(outbox),
                )
            },
            Ok(None) => Ok(()),
            Err(e) => Err(ConnectionError::PacketSegmentJoinerError(e)),
        }
    }

    /// Handles a segment.
    fn receive_segment<P: ChannelProvider>(
        &mut self,
        channel: ConnectionChannel<false>,
        global_id: ChannelId<GlobalChannelId>,
        body: &[u8],
        provider: &P,
        buffers: &mut GlobalChannelData<ConnectionChannelMessageSwapBuffer>,
        outbox: &mut Vec<Vec<u8>>,
        now: u64,
    ) -> (r: Result<(), ConnectionError>)
        requires
            old(self).wf(),
            old(self)@.wf(provider.model()),
            old(self)@.acknowledges(
                ConnectionView::resend_key_on(channel.channel@, true, body@),
            ) ==> old(self)@.initialized(),
            provider.model().valid(),
            addressable(
                old(self)@,
                channel.local_id.0,
                global_id.0,
                channel.channel@,
                provider.model(),
            ),
        ensures
            final(self).wf(),
            (ExchangeOutcome {
                after: exchange(final(self)@, final(outbox)@, final(buffers)@),
                result: r,
            }) == exchange(old(self)@, old(outbox)@, old(buffers)@).receive_segment(
                channel.local_id.0,
                global_id.0,
                channel.channel@,
                body@,
                provider.model(),
                now,
            ),
    {
        let mut rest: &[u8] = body;
        let metadata = match PacketSegmentMetadata::decode(&mut rest) {
            Ok(metadata) => metadata,
            Err(_) => {
                return Err(ConnectionError::DecodeError);
            },
        };
        let segment = copy_bytes(rest);
        let resend_key = match read_order_and_resend_key(&channel.channel, &mut rest) {
            Ok((_, resend_key)) => resend_key,
            Err(e) => {
                return Err(e);
            },
        };
        proof {
            lemma_acknowledge(
                exchange(self@, outbox@, buffers@),
                resend_key,
                provider.model(),
            );
        }
        match self.acknowledge_if_needed(resend_key, outbox, Ghost(buffers@)) {
            Ok(_) => {},
            Err(e) => {
                return Err(e);
            },
        }
        self.join(
            channel,
            global_id,
            metadata,
            segment,
            provider,
            buffers,
            now,
            Ghost(outbox@),
        )
    }
}

/// A packet whose segments are complete has as many of them as was announced.
proof fn lemma_joined(joiner: JoinerView, metadata: PacketSegmentMetadata, segment: Seq<u8>)
    ensures
        joiner.add(metadata, segment, true, None).result matches Ok(Some(segments))
            ==> segments.len() == metadata.segment_count,
{
}

/// Handles a packet that has arrived.
pub fn handle_message<P: ChannelProvider>(
    payload: &[u8],
    connection: &mut Connection,
    provider: &P,
    buffers: &mut GlobalChannelData<ConnectionChannelMessageSwapBuffer>,
    outbox: &mut Vec<Vec<u8>>,
    now: u64,
) -> (r: Result<(), ConnectionError>)
    requires
        old(connection).wf(),
        old(connection)@.wf(provider.model()),
        old(connection)@.would_acknowledge(payload@, provider.model())
            ==> old(connection)@.initialized(),
        provider.model().valid(),
    ensures
        final(connection).wf(),
        final(connection)@.wf(provider.model()),
        final(connection)@.initialized() == old(connection)@.initialized(),
        (ExchangeOutcome {
            after: exchange(final(connection)@, final(outbox)@, final(buffers)@),
            result: r,
        }) == exchange(old(connection)@, old(outbox)@, old(buffers)@).receive(
            payload@,
            provider.model(),
            now,
        ),
{
    let ghost before = exchange(connection@, outbox@, buffers@);
    let ghost model = provider.model();
    proof {
        law_receive_keeps_wf(before, payload@, model, now);
    }
    let mut rest: &[u8] = payload;
    let primary = match PrimaryPacketMetadata::<false>::decode(&mut rest) {
        Ok(primary) => primary,
        Err(_) => {
            return Err(ConnectionError::DecodeError);
        },
    };
    let local_id = primary.channel_id;
    let received_last_packet = match connection.state {
        ConnectionState::Registration { received_last_packet, .. } => received_last_packet,
        ConnectionState::Transfer => false,
    };
    if received_last_packet && connection.id_mapper.not_local_inner.global_id(
        connection.state,
        local_id,
    ).is_none() {
        connection.transfer();
    }
    assert(connection@ == before.connection.speculated(local_id.0));
    proof {
        lemma_speculated(before.connection, local_id.0, model);
    }
    let global_id = match connection.id_mapper.not_local_inner.global_id(
        connection.state,
        local_id,
    ) {
        Some(id) => id,
        None => {
            return Err(ConnectionError::UnknownChannel);
        },
    };
    let channel = match ConnectionChannel::new(connection.state, local_id, global_id, provider) {
        Some(channel) => channel,
        None => {
            return Err(ConnectionError::UnknownChannel);
        },
    };
    if primary.segment {
        connection.receive_segment(channel, global_id, rest, provider, buffers, outbox, now)
    } else {
        connection.receive_whole(channel, global_id, rest, provider, buffers, outbox, now)
    }
}

/// Lets `delta` milliseconds pass: sends again what is due, and sends what waits to be
/// acknowledged.
pub fn update_connection(delta: u32, connection: &mut Connection, outbox: &mut Vec<Vec<u8>>) -> (r:
    Result<(), ConnectionError>)
    requires
        old(connection).wf(),
        old(connection)@.initialized(),
    ensures
        final(connection).wf(),
        (UpdateOutcome {
            after: final(connection)@,
            outbox: contents(final(outbox)@),
            result: r,
        }) == old(connection)@.update(delta, contents(old(outbox)@)),
{
    let mut due = connection.resender.update(delta);
    let ghost all = contents(due@);
    let ghost sent = contents(outbox@);
    outbox.append(&mut due);
    assert(contents(outbox@) =~= sent + all);
    let ack_channel_id = match connection.id_mapper.local_inner.ack_channel_id() {
        Some(id) => id,
        None => {
            return Err(ConnectionError::UnknownChannel);
        },
    };
    connection.acknowledge_buffer.flush(
        connection.state,
        ack_channel_id,
        &mut connection.resender,
        &mut connection.segment_keys_counter,
        &mut connection.orders,
        outbox,
    )
}

} // verus!
