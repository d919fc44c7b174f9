//! What a packet that arrives changes, and what it leaves alone.
use super::arrival::{is_accepted, is_message_channel, law_acknowledged, messages_of};
use super::registering::starts_to_transfer;
use super::sending::{keeps_what_it_sends, law_sent_packets_are_kept, law_sent_whole};
use crate::net::acknowledge::{ack_id, keys_bytes, parse_keys, remove_all};
use crate::net::channel::ChannelView;
use crate::net::channel_data::ChannelDataView;
use crate::net::consistency::addressable;
use crate::net::id::{
    is_stage_id, ConnectionState, ACK_CHANNEL_ID_REGISTRATION_STAGE,
    CHANNEL_MANAGEMENT_CHANNEL_ID_REGISTRATION_STAGE,
};
use crate::net::model::{assembled, ConnectionView, ExchangeView};
use crate::net::packet::{packet_bytes, parse_headers, ConnectionError, PrimaryPacketMetadata};
use crate::net::provider::{ack_channel_view, ProviderView};
use crate::net::segment::PacketSegmentMetadata;
use crate::net::send::channel_for;
use crate::proto::decode::Decode;
use crate::proto::encode::Encode;
use crate::proto::round_trip::RoundTrip;
use crate::util::slot_map::SlotMapKey;
use vstd::prelude::*;

verus! {

/// What is put for a channel is what it has afterwards, and every other channel has what it had.
pub proof fn law_put_then_get<T>(
    data: ChannelDataView<T>,
    state: ConnectionState,
    id: u32,
    value: T,
    other_state: ConnectionState,
    other: u32,
)
    requires
        data.holds(state, id),
        data.holds(other_state, other),
    ensures
        data.put(state, id, value).holds(other_state, other),
        data.put(state, id, value).get(other_state, other) == (if (other_state is Transfer) == (
        state is Transfer) && other == id {
            value
        } else {
            data.get(other_state, other)
        }),
        data.holds(ConnectionState::Transfer, id) <==> id < data.basic.len(),
        data.get(ConnectionState::Transfer, other) == data.basic[other as int],
        state is Registration ==> data.get(state, ACK_CHANNEL_ID_REGISTRATION_STAGE) == data.ack
            && data.get(state, CHANNEL_MANAGEMENT_CHANNEL_ID_REGISTRATION_STAGE)
            == data.management,
{
}

/// Acknowledging a packet takes note of its key and lets the key's bytes wait behind those that
/// wait already. Only where there is no more room for them in one packet, those that wait are sent
/// through the acknowledgement channel, in a packet that is kept to be sent again, and the key's
/// bytes are the first that wait then. Nothing else changes.
pub proof fn law_acknowledging(exchange: ExchangeView, key: SlotMapKey, provider: ProviderView)
    requires
        exchange.connection.wf(provider),
        exchange.connection.initialized(),
        !exchange.connection.received.contains(key),
    ensures
        ({
            let before = exchange.connection;
            let outcome = exchange.acknowledge(Some(key));
            let after = outcome.after.connection;
            let room = before.unsent.len() + key.encoding().len() <= 1980;
            &&& after == ConnectionView {
                unsent: after.unsent,
                received: before.received.insert(key),
                resender: after.resender,
                ..before
            }
            &&& outcome.after.buffers == exchange.buffers
            &&& if room {
                &&& outcome.result is Ok
                &&& after.unsent == before.unsent + key.encoding()
                &&& after.resender == before.resender
                &&& outcome.after.outbox == exchange.outbox
            } else if outcome.result is Ok {
                &&& after.unsent == key.encoding()
                &&& outcome.after.outbox == exchange.outbox.push(
                    packet_bytes(
                        match before.state {
                            ConnectionState::Registration { .. } => 0x7fff_fffe,
                            ConnectionState::Transfer => before.local.ack,
                        },
                        None,
                        None,
                        Some(before.resender.packets.next_key()),
                        before.unsent,
                    ),
                )
                &&& keeps_what_it_sends(
                    before.sending(exchange.outbox),
                    after.sending(outcome.after.outbox).with_keys(
                        seq![before.resender.packets.next_key()],
                    ),
                    ack_channel_view(),
                )
            } else {
                &&& after.unsent == before.unsent
                &&& after.resender == before.resender
                &&& outcome.after.outbox == exchange.outbox
            }
        }),
{
    let before = exchange.connection;
    law_acknowledged(exchange, Some(key), provider);
    let sending = before.sending(exchange.outbox);
    let id = ack_id(before.state, before.local.ack);
    let sent = sending.send(before.state, id, ack_channel_view(), before.unsent);
    law_sent_packets_are_kept(sending, before.state, id, ack_channel_view(), before.unsent);
    if sent.result is Ok {
        law_sent_whole(sending, before.state, id, ack_channel_view(), before.unsent);
        assert(sent.after.resend_keys =~= seq![before.resender.packets.next_key()]);
        assert(sending.forgetful() == sending);
    }
}

/// A message that is delivered changes nothing but the messages of its channel and, if the channel
/// is ordered, its orderer, which has then handed out what was delivered.
pub proof fn law_delivery_leaves_the_rest_alone(
    exchange: ExchangeView,
    local_id: u32,
    global_id: u32,
    order: Option<u32>,
    payload: Seq<u8>,
    provider: ProviderView,
)
    requires
        is_message_channel(exchange.connection, local_id),
        exchange.buffers.contains_key(global_id),
        is_accepted(exchange.connection, local_id, order),
    ensures
        ({
            let before = exchange.connection;
            let after = exchange.deliver_in_order(
                local_id,
                global_id,
                order,
                payload,
                provider,
            ).after;
            let messages = messages_of(before, local_id, order, payload);
            &&& after.outbox == exchange.outbox
            &&& match order {
                None => after.connection == before,
                Some(n) => {
                    let pushed = before.orderers.get(before.state, local_id).unwrap().push(
                        n as usize,
                        payload,
                    );
                    &&& messages == pushed.ready()
                    &&& after.connection == ConnectionView {
                        orderers: before.orderers.put(
                            before.state,
                            local_id,
                            None,
                        ).put(before.state, local_id, Some(pushed.handed_out(messages.len()))),
                        ..before
                    }
                },
            }
        }),
{
    if let Some(n) = order {
        let before = exchange.connection;
        let orderer = before.orderers.get(before.state, local_id).unwrap();
        let ready = orderer.push(n as usize, payload).ready();
        let taken = exchange.with_orderer(before.state, local_id, None);
        lemma_messages(taken, local_id, global_id, ready, provider);
    }
}

proof fn lemma_messages(
    exchange: ExchangeView,
    local_id: u32,
    global_id: u32,
    packets: Seq<Seq<u8>>,
    provider: ProviderView,
)
    requires
        is_message_channel(exchange.connection, local_id),
        exchange.buffers.contains_key(global_id),
    ensures
        ({
            let outcome = exchange.deliver_all(local_id, global_id, packets, provider);
            &&& outcome.after.connection == exchange.connection
            &&& outcome.after.outbox == exchange.outbox
            &&& outcome.count == packets.len()
            &&& outcome.result is Ok
        }),
    decreases packets.len(),
{
    if packets.len() > 0 {
        let one = exchange.deliver(local_id, global_id, packets[0], provider);
        lemma_messages(one.after, local_id, global_id, packets.skip(1), provider);
    }
}

/// What waits in the registration stage for the acknowledgement of a packet waits no longer once a
/// packet of acknowledgements names it, and only then. The packets that are named are kept no longer.
/// If the other side has told its last channel, messages are exchanged from then on. Bytes behind
/// the last key that make up no key are of no account.
pub proof fn law_acknowledgements_are_noted(
    exchange: ExchangeView,
    global_id: u32,
    keys: Seq<SlotMapKey>,
    rest: Seq<u8>,
    provider: ProviderView,
)
    requires
        exchange.connection.state is Registration,
        SlotMapKey::parse(rest).value is None,
    ensures
        ({
            let before = exchange.connection;
            let outcome = exchange.deliver(
                ACK_CHANNEL_ID_REGISTRATION_STAGE,
                global_id,
                keys_bytes(keys) + rest,
                provider,
            );
            let after = outcome.after.connection;
            let told = before.state->received_last_packet;
            let awaited = before.state->last_packet_resend_key;
            let left = match awaited {
                Some(key) => if keys.contains(key) {
                    None
                } else {
                    Some(key)
                },
                None => None,
            };
            let noted = ConnectionView {
                state: ConnectionState::Registration {
                    received_last_packet: told,
                    last_packet_resend_key: left,
                },
                resender: remove_all(before.resender, keys),
                ..before
            };
            &&& outcome.result is Ok
            &&& outcome.after == exchange.with(after)
            &&& if told && left is None {
                starts_to_transfer(noted, after)
            } else {
                after == noted
            }
        }),
{
    lemma_keys_and_rest(keys, rest);
}

/// Bytes that make up no key end the reading of keys.
proof fn lemma_keys_and_rest(keys: Seq<SlotMapKey>, rest: Seq<u8>)
    requires
        SlotMapKey::parse(rest).value is None,
    ensures
        parse_keys(keys_bytes(keys) + rest) == keys,
    decreases keys.len(),
{
    if keys.len() == 0 {
        assert(keys_bytes(keys) + rest =~= rest);
        assert(parse_keys(rest) =~= keys);
    } else {
        let others = keys.skip(1);
        let behind = keys_bytes(others) + rest;
        keys[0].law_round_trip(behind);
        lemma_keys_and_rest(others, rest);
        let whole = keys_bytes(keys) + rest;
        assert(whole =~= keys[0].encoding() + behind);
        assert(whole.skip(keys[0].encoding().len() as int) =~= behind);
        assert(seq![keys[0]] + others =~= keys);
    }
}

/// While messages are exchanged, acknowledgements only make the packets that they name be kept no
/// longer.
pub proof fn law_acknowledgements_are_noted_in_transfer(
    exchange: ExchangeView,
    local_id: u32,
    global_id: u32,
    keys: Seq<SlotMapKey>,
    rest: Seq<u8>,
    provider: ProviderView,
)
    requires
        exchange.connection.state is Transfer,
        exchange.connection.remote.ack_channel_id() == Some(local_id),
        SlotMapKey::parse(rest).value is None,
    ensures
        exchange.deliver(local_id, global_id, keys_bytes(keys) + rest, provider) == exchange.with(
            ConnectionView {
                resender: remove_all(exchange.connection.resender, keys),
                ..exchange.connection
            },
        ).ok(),
{
    lemma_keys_and_rest(keys, rest);
}

/// While messages are exchanged, a packet of the channel management channel is refused, and so is a
/// message of a channel whose messages nobody asked for; nothing changes.
pub proof fn law_refused_in_transfer(
    exchange: ExchangeView,
    local_id: u32,
    global_id: u32,
    packet: Seq<u8>,
    provider: ProviderView,
)
    requires
        exchange.connection.state is Transfer,
        exchange.connection.remote.ack_channel_id() != Some(local_id),
    ensures
        exchange.connection.remote.management_channel_id() == Some(local_id) ==> exchange.deliver(
            local_id,
            global_id,
            packet,
            provider,
        ) == exchange.fail(ConnectionError::RegistrationStageIsOver),
        exchange.connection.remote.management_channel_id() != Some(local_id)
            && !exchange.buffers.contains_key(global_id) ==> exchange.deliver(
            local_id,
            global_id,
            packet,
            provider,
        ) == exchange.fail(ConnectionError::UnknownChannel),
{
}

/// A packet is refused, and nothing changes, where not even its first number can be read, where it
/// comes through a channel that has no id, and where what its channel asks for cannot be read. In
/// the registration stage only the two channels of that stage have ids, as long as the other side
/// has not told its last channel.
pub proof fn law_unreadable_packet_is_refused(
    exchange: ExchangeView,
    payload: Seq<u8>,
    provider: ProviderView,
    now: u64,
)
    ensures
        ({
            let c = exchange.connection;
            let primary = PrimaryPacketMetadata::<false>::parse(payload);
            let outcome = exchange.receive(payload, provider, now);
            match primary.value {
                None => outcome == exchange.fail(ConnectionError::DecodeError),
                Some(p) => {
                    let body = payload.skip(primary.used as int);
                    let metadata = PacketSegmentMetadata::parse(body);
                    let rest = if p.segment {
                        body.skip(metadata.used as int)
                    } else {
                        body
                    };
                    let stays = match c.state {
                        ConnectionState::Registration { received_last_packet, .. } =>
                        !received_last_packet,
                        ConnectionState::Transfer => true,
                    };
                    let known = match c.state {
                        ConnectionState::Registration { .. } => p.channel_id == 0x7fff_fffe
                            || p.channel_id == 0x7fff_fffd,
                        ConnectionState::Transfer => p.channel_id < c.remote.locals.len()
                            && c.remote.locals[p.channel_id as int] != 0x7fff_ffff
                            && provider.channels.contains_key(
                            c.remote.locals[p.channel_id as int],
                        ),
                    };
                    &&& stays && !known ==> outcome == exchange.fail(
                        ConnectionError::UnknownChannel,
                    )
                    &&& forall|global: u32, channel: ChannelView|
                        (#[trigger] addressable(c, p.channel_id, global, channel, provider)) && ((
                        p.segment && metadata.value is None) || parse_headers(
                            channel,
                            rest,
                        ).value is None) ==> outcome == exchange.fail(ConnectionError::DecodeError)
                },
            }
        }),
{
    assert(exchange.with(exchange.connection) == exchange);
}

/// Which channels there are: in the registration stage the acknowledgement and the channel
/// management channel under their ids of that stage, afterwards those of the program.
pub proof fn law_channels_of_the_stages(
    state: ConnectionState,
    local_id: u32,
    global_id: u32,
    provider: ProviderView,
)
    ensures
        channel_for(state, local_id, global_id, provider) == (match state {
            ConnectionState::Registration { .. } => if local_id == 0x7fff_fffe {
                Some(ack_channel_view())
            } else if local_id == 0x7fff_fffd {
                Some(crate::net::provider::channel_management_channel_view())
            } else {
                None
            },
            ConnectionState::Transfer => if provider.channels.contains_key(global_id) {
                Some(provider.channels[global_id])
            } else {
                None
            },
        }),
        is_stage_id(local_id) <==> local_id == 0x7fff_fffe || local_id == 0x7fff_fffd,
{
}

/// Delivering notes no time.
proof fn lemma_deliver_all_notes_no_time(
    exchange: ExchangeView,
    local_id: u32,
    global_id: u32,
    packets: Seq<Seq<u8>>,
    provider: ProviderView,
)
    ensures
        exchange.deliver_all(
            local_id,
            global_id,
            packets,
            provider,
        ).after.connection.last_time_received_packet
            == exchange.connection.last_time_received_packet,
    decreases packets.len(),
{
    if packets.len() > 0 {
        let one = exchange.deliver(local_id, global_id, packets[0], provider);
        lemma_deliver_all_notes_no_time(one.after, local_id, global_id, packets.skip(1), provider);
    }
}

proof fn lemma_deliver_in_order_notes_no_time(
    exchange: ExchangeView,
    local_id: u32,
    global_id: u32,
    order: Option<u32>,
    payload: Seq<u8>,
    provider: ProviderView,
)
    ensures
        exchange.deliver_in_order(
            local_id,
            global_id,
            order,
            payload,
            provider,
        ).after.connection.last_time_received_packet
            == exchange.connection.last_time_received_packet,
{
    let c = exchange.connection;
    if let Some(n) = order {
        let orderer = c.orderers.get(c.state, local_id).unwrap();
        lemma_deliver_all_notes_no_time(
            exchange.with_orderer(c.state, local_id, None),
            local_id,
            global_id,
            orderer.push(n as usize, payload).ready(),
            provider,
        );
    }
}

/// The time of a packet that is handled is noted as the time at which something was heard last, in
/// whatever state the connection is; that of one that is refused is not, nor that of a segment
/// which does not complete its message.
pub proof fn law_time_is_noted(
    exchange: ExchangeView,
    payload: Seq<u8>,
    provider: ProviderView,
    now: u64,
)
    ensures
        ({
            let before = exchange.connection.last_time_received_packet;
            let outcome = exchange.receive(payload, provider, now);
            let after = outcome.after.connection.last_time_received_packet;
            let primary = PrimaryPacketMetadata::<false>::parse(payload);
            &&& outcome.result is Err ==> after == before
            &&& outcome.result is Ok ==> after == before || after == now
            &&& outcome.result is Ok && !primary.value.unwrap().segment ==> after == now
            &&& outcome.result is Ok && outcome.after.buffers != exchange.buffers ==> after == now
        }),
{
    let primary = PrimaryPacketMetadata::<false>::parse(payload);
    let body = payload.skip(primary.used as int);
    if let Some(p) = primary.value {
        let c = exchange.connection.speculated(p.channel_id);
        let after = exchange.with(c);
        if let Some(global) = c.remote.global_id(c.state, p.channel_id) {
            if let Some(channel) = channel_for(c.state, p.channel_id, global, provider) {
                if p.segment {
                    let metadata = PacketSegmentMetadata::parse(body);
                    let segment = body.skip(metadata.used as int);
                    if let Some(m) = metadata.value {
                        if let Some(h) = parse_headers(channel, segment).value {
                            lemma_join_notes_time(
                                after.acknowledge(h.resend_key).after,
                                p.channel_id,
                                global,
                                channel,
                                m,
                                segment,
                                provider,
                                now,
                            );
                        }
                    }
                } else {
                    let headers = parse_headers(channel, body);
                    if let Some(h) = headers.value {
                        lemma_deliver_in_order_notes_no_time(
                            after.acknowledge(h.resend_key).after,
                            p.channel_id,
                            global,
                            h.order,
                            body.skip(headers.used as int),
                            provider,
                        );
                    }
                }
            }
        }
    }
}

proof fn lemma_join_notes_time(
    exchange: ExchangeView,
    local_id: u32,
    global_id: u32,
    channel: ChannelView,
    metadata: PacketSegmentMetadata,
    segment: Seq<u8>,
    provider: ProviderView,
    now: u64,
)
    ensures
        ({
            let before = exchange.connection.last_time_received_packet;
            let outcome = exchange.join(
                local_id,
                global_id,
                channel,
                metadata,
                segment,
                provider,
                now,
            );
            let after = outcome.after.connection.last_time_received_packet;
            &&& outcome.result is Err ==> after == before
            &&& outcome.result is Ok ==> after == before || after == now
            &&& outcome.result is Ok && outcome.after.buffers != exchange.buffers ==> after == now
        }),
{
    let c = exchange.connection;
    let joined = c.joiner.add(metadata, segment, true, None);
    let after = exchange.with(ConnectionView { joiner: joined.joiner, ..c });
    if let Ok(Some(segments)) = joined.result {
        if let Some(h) = parse_headers(channel, segments[0]).value {
            lemma_deliver_in_order_notes_no_time(
                after,
                local_id,
                global_id,
                h.order,
                assembled(channel, segments),
                provider,
            );
        }
    }
}

/// When time passes, nothing changes but the packets that are kept and the acknowledgements that
/// wait: every packet ages, and the packet of acknowledgements that is sent is kept like any other
/// packet of its channel. The time at which something was heard last is not touched.
pub proof fn law_time_passes(
    connection: ConnectionView,
    delta: u32,
    outbox: Seq<Seq<u8>>,
    provider: ProviderView,
)
    requires
        connection.wf(provider),
        connection.initialized(),
    ensures
        ({
            let update = connection.update(delta, outbox);
            let aged = connection.resender.aged(delta);
            let resent = outbox + connection.resender.due(delta);
            &&& update.after == ConnectionView {
                resender: update.after.resender,
                unsent: update.after.unsent,
                ..connection
            }
            &&& update.after.last_time_received_packet == connection.last_time_received_packet
            &&& if update.result is Ok {
                &&& update.after.unsent.len() == 0
                &&& keeps_what_it_sends(
                    ConnectionView { resender: aged, ..connection }.sending(resent),
                    update.after.sending(update.outbox).with_keys(seq![aged.packets.next_key()]),
                    ack_channel_view(),
                )
            } else {
                &&& update.after.unsent == connection.unsent
                &&& update.after.resender == aged
                &&& update.outbox == resent
            }
        }),
{
    let aged = ConnectionView { resender: connection.resender.aged(delta), ..connection };
    let resent = outbox + connection.resender.due(delta);
    let sending = aged.sending(resent);
    let id = ack_id(connection.state, connection.local.ack);
    crate::net::consistency::law_update_keeps_wf(connection, delta, outbox, provider);
    crate::util::slot_map::lemma_replaced_keeps_wf(
        connection.resender.packets,
        crate::net::resend::aged_slots(connection.resender.packets.values, delta),
    );
    law_sent_packets_are_kept(
        sending,
        connection.state,
        id,
        ack_channel_view(),
        connection.unsent,
    );
    let sent = sending.send(connection.state, id, ack_channel_view(), connection.unsent);
    if sent.result is Ok {
        law_sent_whole(sending, connection.state, id, ack_channel_view(), connection.unsent);
        assert(sent.after.resend_keys =~= seq![aged.resender.packets.next_key()]);
    }
    assert(sending.forgetful() == sending);
}

} // verus!
