//! What holds in the course of a connection.
use super::arrival::{law_acknowledged, law_segment_read_back, law_whole_read_back};
use super::sending::fits_channel;
use crate::net::acknowledge::{ack_id, keys_bytes, law_keys_round_trip, remove_all};
use crate::net::channel::ChannelView;
use crate::net::consistency::{addressable, lemma_acknowledge};
use crate::net::id::{is_stage_id, ConnectionState, ACK_CHANNEL_ID_REGISTRATION_STAGE};
use crate::net::model::{assembled, ConnectionView, ExchangeView};
use crate::net::packet::{
    key_bytes, order_bytes, packet_bytes, parse_headers, ChannelName, ConnectionError,
    PrimaryPacketMetadata,
};
use crate::net::provider::{ack_channel_view, ProviderView};
use crate::net::resend::{PacketResenderError, ResenderView};
use crate::net::segment::PacketSegmentMetadata;
use crate::net::send::channel_for;
use crate::proto::decode::Decode;
use crate::proto::encode::Encode;
use crate::util::slot_map::{law_remove_then_get, SlotMapKey};
use vstd::prelude::*;

verus! {

/// While messages are exchanged, delivering keeps what has to do with addressing and duplicates.
proof fn lemma_deliver_in_transfer(
    exchange: ExchangeView,
    local_id: u32,
    global_id: u32,
    packets: Seq<Seq<u8>>,
    provider: ProviderView,
)
    requires
        exchange.connection.state is Transfer,
    ensures
        ({
            let before = exchange.connection;
            let after = exchange.deliver_all(
                local_id,
                global_id,
                packets,
                provider,
            ).after.connection;
            &&& after.state is Transfer
            &&& after.remote == before.remote
            &&& after.received == before.received
        }),
    decreases packets.len(),
{
    if packets.len() > 0 {
        let one = exchange.deliver(local_id, global_id, packets[0], provider);
        if one.result is Ok {
            lemma_deliver_in_transfer(
                one.after,
                local_id,
                global_id,
                packets.skip(1),
                provider,
            );
        }
    }
}

proof fn lemma_deliver_in_order_in_transfer(
    exchange: ExchangeView,
    local_id: u32,
    global_id: u32,
    order: Option<u32>,
    payload: Seq<u8>,
    provider: ProviderView,
)
    requires
        exchange.connection.state is Transfer,
    ensures
        ({
            let before = exchange.connection;
            let after = exchange.deliver_in_order(
                local_id,
                global_id,
                order,
                payload,
                provider,
            ).after.connection;
            &&& after.state is Transfer
            &&& after.remote == before.remote
            &&& after.received == before.received
        }),
{
    let c = exchange.connection;
    if let Some(n) = order {
        let orderer = c.orderers.get(c.state, local_id).unwrap();
        lemma_deliver_in_transfer(
            exchange.with_orderer(c.state, local_id, None),
            local_id,
            global_id,
            orderer.push(n as usize, payload).ready(),
            provider,
        );
    }
}

/// Once messages are exchanged, that stays so whatever arrives; the other side's ids stay the
/// same, and no key that has arrived is forgotten.
pub proof fn law_transfer_is_final(
    exchange: ExchangeView,
    payload: Seq<u8>,
    provider: ProviderView,
    now: u64,
)
    requires
        exchange.connection.state is Transfer,
    ensures
        ({
            let before = exchange.connection;
            let after = exchange.receive(payload, provider, now).after.connection;
            &&& after.state is Transfer
            &&& after.remote == before.remote
            &&& before.received.subset_of(after.received)
        }),
{
    let primary = PrimaryPacketMetadata::<false>::parse(payload);
    let body = payload.skip(primary.used as int);
    if let Some(p) = primary.value {
        assert(exchange.with(exchange.connection) == exchange);
        let c = exchange.connection;
        if let Some(global) = c.remote.global_id(c.state, p.channel_id) {
            if let Some(channel) = channel_for(c.state, p.channel_id, global, provider) {
                if p.segment {
                    let metadata = PacketSegmentMetadata::parse(body);
                    let segment = body.skip(metadata.used as int);
                    if let Some(m) = metadata.value {
                        if let Some(h) = parse_headers(channel, segment).value {
                            let acknowledged = exchange.acknowledge(h.resend_key).after;
                            lemma_join_in_transfer(
                                acknowledged,
                                p.channel_id,
                                global,
                                channel,
                                m,
                                segment,
                                provider,
                                now,
                            );
                        }
                    }
                } else {
                    let headers = parse_headers(channel, body);
                    if let Some(h) = headers.value {
                        lemma_deliver_in_order_in_transfer(
                            exchange.acknowledge(h.resend_key).after,
                            p.channel_id,
                            global,
                            h.order,
                            body.skip(headers.used as int),
                            provider,
                        );
                    }
                }
            }
        }
    }
}

proof fn lemma_join_in_transfer(
    exchange: ExchangeView,
    local_id: u32,
    global_id: u32,
    channel: ChannelView,
    metadata: PacketSegmentMetadata,
    segment: Seq<u8>,
    provider: ProviderView,
    now: u64,
)
    requires
        exchange.connection.state is Transfer,
    ensures
        ({
            let before = exchange.connection;
            let after = exchange.join(
                local_id,
                global_id,
                channel,
                metadata,
                segment,
                provider,
                now,
            ).after.connection;
            &&& after.state is Transfer
            &&& after.remote == before.remote
            &&& after.received == before.received
        }),
{
    let c = exchange.connection;
    let joined = c.joiner.add(metadata, segment, true, None);
    let after = exchange.with(ConnectionView { joiner: joined.joiner, ..c });
    if let Ok(Some(segments)) = joined.result {
        if let Some(h) = parse_headers(channel, segments[0]).value {
            lemma_deliver_in_order_in_transfer(
                after,
                local_id,
                global_id,
                h.order,
                assembled(channel, segments),
                provider,
            );
        }
    }
}

/// A packet whose key has arrived before is refused, and nothing changes.
pub proof fn law_duplicate_refused(
    exchange: ExchangeView,
    local_id: u32,
    global_id: u32,
    channel: ChannelView,
    segment: Option<PacketSegmentMetadata>,
    order: Option<u32>,
    key: SlotMapKey,
    payload: Seq<u8>,
    provider: ProviderView,
    now: u64,
)
    requires
        local_id < 0x8000_0000,
        segment is Some ==> segment.unwrap().encodable(),
        addressable(exchange.connection, local_id, global_id, channel, provider),
        fits_channel(channel, order, Some(key)),
        exchange.connection.received.contains(key),
    ensures
        exchange.receive(
            packet_bytes(local_id, segment, order, Some(key), payload),
            provider,
            now,
        ) == exchange.fail(ConnectionError::PacketDuplicateDetected),
{
    match segment {
        None => law_whole_read_back(
            exchange,
            local_id,
            global_id,
            channel,
            order,
            Some(key),
            payload,
            provider,
            now,
        ),
        Some(metadata) => law_segment_read_back(
            exchange,
            local_id,
            global_id,
            channel,
            metadata,
            order,
            Some(key),
            payload,
            provider,
            now,
        ),
    }
}

/// Packets arrive one after the other, each at its time, whatever becomes of it.
pub open spec fn receive_all(
    start: ExchangeView,
    packets: Seq<Seq<u8>>,
    provider: ProviderView,
    times: spec_fn(nat) -> u64,
) -> ExchangeView
    decreases packets.len(),
{
    if packets.len() == 0 {
        start
    } else {
        receive_all(start, packets.drop_last(), provider, times).receive(
            packets.last(),
            provider,
            times((packets.len() - 1) as nat),
        ).after
    }
}

proof fn lemma_receive_all_in_transfer(
    start: ExchangeView,
    packets: Seq<Seq<u8>>,
    provider: ProviderView,
    times: spec_fn(nat) -> u64,
)
    requires
        start.connection.state is Transfer,
    ensures
        ({
            let after = receive_all(start, packets, provider, times).connection;
            &&& after.state is Transfer
            &&& after.remote == start.connection.remote
            &&& start.connection.received.subset_of(after.received)
        }),
    decreases packets.len(),
{
    if packets.len() > 0 {
        lemma_receive_all_in_transfer(start, packets.drop_last(), provider, times);
        law_transfer_is_final(
            receive_all(start, packets.drop_last(), provider, times),
            packets.last(),
            provider,
            times((packets.len() - 1) as nat),
        );
    }
}

/// A packet with a resend key is handled at most once: whatever becomes of the first one that
/// arrives, and whatever else arrives after it, every later one with the same key is refused, and
/// nothing changes.
pub proof fn law_handled_at_most_once(
    exchange: ExchangeView,
    local_id: u32,
    global_id: u32,
    channel: ChannelView,
    segment: Option<PacketSegmentMetadata>,
    order: Option<u32>,
    key: SlotMapKey,
    payload: Seq<u8>,
    provider: ProviderView,
    now: u64,
    between: Seq<Seq<u8>>,
    times: spec_fn(nat) -> u64,
    later: u64,
)
    requires
        local_id < 0x8000_0000,
        segment is Some ==> segment.unwrap().encodable(),
        exchange.connection.state is Transfer,
        addressable(exchange.connection, local_id, global_id, channel, provider),
        fits_channel(channel, order, Some(key)),
    ensures
        ({
            let packet = packet_bytes(local_id, segment, order, Some(key), payload);
            let after = receive_all(
                exchange.receive(packet, provider, now).after,
                between,
                provider,
                times,
            );
            after.receive(packet, provider, later) == after.fail(
                ConnectionError::PacketDuplicateDetected,
            )
        }),
{
    let packet = packet_bytes(local_id, segment, order, Some(key), payload);
    let first = exchange.receive(packet, provider, now).after;
    let after = receive_all(first, between, provider, times);
    let acknowledged = exchange.acknowledge(Some(key));
    law_transfer_is_final(exchange, packet, provider, now);
    lemma_receive_all_in_transfer(first, between, provider, times);
    match segment {
        None => {
            law_whole_read_back(
                exchange,
                local_id,
                global_id,
                channel,
                order,
                Some(key),
                payload,
                provider,
                now,
            );
            lemma_deliver_in_order_in_transfer(
                acknowledged.after,
                local_id,
                global_id,
                order,
                payload,
                provider,
            );
        },
        Some(metadata) => {
            law_segment_read_back(
                exchange,
                local_id,
                global_id,
                channel,
                metadata,
                order,
                Some(key),
                payload,
                provider,
                now,
            );
            lemma_join_in_transfer(
                acknowledged.after,
                local_id,
                global_id,
                channel,
                metadata,
                order_bytes(order) + key_bytes(Some(key)) + payload,
                provider,
                now,
            );
        },
    }
    assert(first.connection.received.contains(key));
    assert(after.connection.received.contains(key));
    law_duplicate_refused(
        after,
        local_id,
        global_id,
        channel,
        segment,
        order,
        key,
        payload,
        provider,
        later,
    );
}

/// A packet that was acknowledged is kept no longer, and no other packet is dropped.
pub proof fn law_acknowledged_is_dropped(
    resender: ResenderView,
    keys: Seq<SlotMapKey>,
    key: SlotMapKey,
)
    requires
        resender.wf(),
    ensures
        remove_all(resender, keys).packets.get(key) == (if keys.contains(key) {
            None
        } else {
            resender.packets.get(key)
        }),
    decreases keys.len(),
{
    if keys.len() > 0 {
        let rest = keys.skip(1);
        law_remove_then_get(resender.packets, keys[0], key);
        law_acknowledged_is_dropped(resender.remove(keys[0]), rest, key);
        assert(keys.contains(key) <==> key == keys[0] || rest.contains(key)) by {
            if rest.contains(key) {
                let k = choose|k: int| 0 <= k < rest.len() && rest[k] == key;
                assert(keys[k + 1] == key);
            }
            if keys.contains(key) && key != keys[0] {
                let k = choose|k: int| 0 <= k < keys.len() && keys[k] == key;
                assert(rest[k - 1] == key);
            }
        }
    }
}

/// When time passes, a packet of acknowledgements is sent even if there is nothing to acknowledge,
/// so that the other side sees that this one is there; only when no more packets can be kept it is
/// not. What was due is sent before it.
pub proof fn law_keep_alive(
    connection: ConnectionView,
    delta: u32,
    outbox: Seq<Seq<u8>>,
    provider: ProviderView,
)
    requires
        connection.wf(provider),
        connection.initialized(),
    ensures
        ({
            let update = connection.update(delta, outbox);
            let aged = connection.resender.aged(delta);
            let resent = outbox + connection.resender.due(delta);
            if aged.full() {
                &&& update.result == Err::<(), ConnectionError>(
                    ConnectionError::PacketResenderError(PacketResenderError::CapacityReached),
                )
                &&& update.outbox == resent
                &&& update.after.unsent == connection.unsent
            } else {
                &&& update.result is Ok
                &&& update.outbox == resent.push(
                    packet_bytes(
                        ack_id(connection.state, connection.local.ack),
                        None,
                        None,
                        Some(aged.packets.next_key()),
                        connection.unsent,
                    ),
                )
                &&& update.after.unsent.len() == 0
            }
        }),
{
    assert(ack_id(connection.state, connection.local.ack) < 0x8000_0000);
}

/// What one side acknowledges, the other side takes note of: when a packet of acknowledgements is
/// not refused, the packets that it names are kept no longer, and no other packet is dropped.
pub proof fn law_acknowledgement_arrives(
    exchange: ExchangeView,
    local_id: u32,
    global_id: u32,
    key: SlotMapKey,
    keys: Seq<SlotMapKey>,
    provider: ProviderView,
    now: u64,
)
    requires
        exchange.connection.wf(provider),
        exchange.connection.initialized(),
        exchange.connection.state is Transfer,
        addressable(exchange.connection, local_id, global_id, ack_channel_view(), provider),
        exchange.connection.remote.ack_channel_id() == Some(local_id),
    ensures
        ({
            let acknowledged = exchange.acknowledge(Some(key));
            let outcome = exchange.receive(
                packet_bytes(local_id, None, None, Some(key), keys_bytes(keys)),
                provider,
                now,
            );
            &&& outcome.result is Ok <==> acknowledged.result is Ok
            &&& outcome.result is Ok ==> outcome.after.connection.resender == remove_all(
                acknowledged.after.connection.resender,
                keys,
            )
            &&& outcome.result is Ok ==> forall|k: SlotMapKey|
                keys.contains(k) ==> (
                #[trigger] outcome.after.connection.resender.packets.get(k)) is None
        }),
{
    law_whole_read_back(
        exchange,
        local_id,
        global_id,
        ack_channel_view(),
        None,
        Some(key),
        keys_bytes(keys),
        provider,
        now,
    );
    law_acknowledged(exchange, Some(key), provider);
    lemma_acknowledge(exchange, Some(key), provider);
    law_keys_round_trip(keys);
    let resender = exchange.acknowledge(Some(key)).after.connection.resender;
    assert forall|k: SlotMapKey| keys.contains(k) implies (#[trigger] remove_all(
        resender,
        keys,
    ).packets.get(k)) is None by {
        law_acknowledged_is_dropped(resender, keys, k);
    }
}

/// When the other side has told its last channel, a packet that does not belong to the registration
/// stage ends it on this side too.
pub proof fn law_next_stage_is_noticed(
    exchange: ExchangeView,
    payload: Seq<u8>,
    provider: ProviderView,
    now: u64,
)
    requires
        exchange.connection.state matches ConnectionState::Registration {
            received_last_packet,
            ..
        } && received_last_packet,
        PrimaryPacketMetadata::<false>::parse(payload).value matches Some(primary)
            && !is_stage_id(primary.channel_id),
    ensures
        exchange.receive(payload, provider, now).after.connection.state is Transfer,
{
    let primary = PrimaryPacketMetadata::<false>::parse(payload).value.unwrap();
    let transferred = exchange.with(exchange.connection.transferred());
    law_transfer_is_final(transferred, payload, provider, now);
    assert(transferred.with(transferred.connection) == transferred);
    assert(exchange.receive(payload, provider, now) == transferred.receive(payload, provider, now));
}

/// Delivering a message of the registration stage ends that stage if and only if after it the other
/// side has told its last channel and this side's last packet is acknowledged.
pub proof fn law_registration_ends_when_complete(
    exchange: ExchangeView,
    local_id: u32,
    global_id: u32,
    packet: Seq<u8>,
    provider: ProviderView,
)
    requires
        exchange.connection.state is Registration,
    ensures
        ({
            let c = exchange.connection;
            let outcome = exchange.deliver(local_id, global_id, packet, provider);
            let told_last = ChannelName::parse(packet).value matches Some(name) && name.len() == 0;
            outcome.after.connection.state is Transfer <==> if local_id
                == ACK_CHANNEL_ID_REGISTRATION_STAGE {
                c.noted(packet).state.registered()
            } else {
                told_last && c.told_last().state.registered()
            }
        }),
{
}

} // verus!
