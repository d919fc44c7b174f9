//! What is sent on one side arrives on the other.
use super::sending::{first_segments, fits_channel, law_segments_make_payload, segment_metadata};
use crate::net::acknowledge::ack_id;
use crate::net::channel::ChannelView;
use crate::net::consistency::{addressable, law_receive_keeps_wf};
use crate::net::model::{assembled, ConnectionView, ExchangeOutcome, ExchangeView};
use crate::net::ordering::PacketOrdererError;
use crate::net::packet::{
    key_bytes, law_headers_round_trip, order_bytes, packet_bytes, primary_number, segment_bytes,
    ConnectionError, PrimaryPacketMetadata, PrimaryView, MAX_NON_SEGMENTED_PAYLOAD_LEN,
};
use crate::net::provider::ProviderView;
use crate::net::resend::PacketResenderError;
use crate::net::segment::{
    join_all, law_joined_in_order, JoinerOutcome, JoinerView, PacketSegmentMetadata,
};
use crate::net::send::{segment_count, segment_of};
use crate::proto::VarInt;
use crate::proto::decode::Decode;
use crate::proto::encode::Encode;
use crate::proto::round_trip::RoundTrip;
use crate::util::counting::lemma_arrivals_at_most;
use crate::util::slot_map::SlotMapKey;
use vstd::prelude::*;

verus! {

/// What is sent as one packet is received as it was sent: the packet is acknowledged, and the
/// payload is delivered under its order.
pub proof fn law_whole_read_back(
    exchange: ExchangeView,
    local_id: u32,
    global_id: u32,
    channel: ChannelView,
    order: Option<u32>,
    key: Option<SlotMapKey>,
    payload: Seq<u8>,
    provider: ProviderView,
    now: u64,
)
    requires
        local_id < 0x8000_0000,
        addressable(exchange.connection, local_id, global_id, channel, provider),
        fits_channel(channel, order, key),
    ensures
        exchange.receive(packet_bytes(local_id, None, order, key, payload), provider, now) == ({
            let acknowledged = exchange.acknowledge(key);
            if acknowledged.result is Ok {
                ExchangeView::timed(
                    acknowledged.after.deliver_in_order(
                        local_id,
                        global_id,
                        order,
                        payload,
                        provider,
                    ),
                    now,
                )
            } else {
                acknowledged
            }
        }),
{
    let packet = packet_bytes(local_id, None, order, key, payload);
    let headers = order_bytes(order) + key_bytes(key);
    lemma_packet_parts(local_id, None, order, key, payload);
    lemma_addressed(
        exchange,
        local_id,
        global_id,
        channel,
        false,
        packet,
        headers + payload,
        provider,
        now,
    );
    law_headers_round_trip(channel, order, key, payload);
    assert((headers + payload).skip(headers.len() as int) =~= payload);
}

/// What is sent as a segment is received as it was sent: the packet is acknowledged, and the
/// segment is put to the others.
pub proof fn law_segment_read_back(
    exchange: ExchangeView,
    local_id: u32,
    global_id: u32,
    channel: ChannelView,
    metadata: PacketSegmentMetadata,
    order: Option<u32>,
    key: Option<SlotMapKey>,
    segment: Seq<u8>,
    provider: ProviderView,
    now: u64,
)
    requires
        local_id < 0x8000_0000,
        metadata.encodable(),
        addressable(exchange.connection, local_id, global_id, channel, provider),
        fits_channel(channel, order, key),
    ensures
        exchange.receive(
            packet_bytes(local_id, Some(metadata), order, key, segment),
            provider,
            now,
        ) == ({
            let acknowledged = exchange.acknowledge(key);
            if acknowledged.result is Ok {
                acknowledged.after.join(
                    local_id,
                    global_id,
                    channel,
                    metadata,
                    order_bytes(order) + key_bytes(key) + segment,
                    provider,
                    now,
                )
            } else {
                acknowledged
            }
        }),
{
    let packet = packet_bytes(local_id, Some(metadata), order, key, segment);
    let rest = order_bytes(order) + key_bytes(key) + segment;
    lemma_packet_parts(local_id, Some(metadata), order, key, segment);
    lemma_addressed(
        exchange,
        local_id,
        global_id,
        channel,
        true,
        packet,
        metadata.encoding() + rest,
        provider,
        now,
    );
    metadata.law_round_trip(rest);
    assert((metadata.encoding() + rest).skip(metadata.encoding().len() as int) =~= rest);
    law_headers_round_trip(channel, order, key, segment);
}

/// The first number of a packet is read, and the rest is left.
proof fn lemma_packet_parts(
    channel_id: u32,
    segment: Option<PacketSegmentMetadata>,
    order: Option<u32>,
    key: Option<SlotMapKey>,
    payload: Seq<u8>,
)
    requires
        channel_id < 0x8000_0000,
    ensures
        ({
            let packet = packet_bytes(channel_id, segment, order, key, payload);
            let primary = PrimaryPacketMetadata::<false>::parse(packet);
            let rest = order_bytes(order) + key_bytes(key) + payload;
            &&& primary.value == Some(PrimaryView { channel_id, segment: segment is Some })
            &&& packet.skip(primary.used as int) == (match segment {
                Some(metadata) => metadata.encoding() + rest,
                None => rest,
            })
        }),
{
    let packet = packet_bytes(channel_id, segment, order, key, payload);
    let head = VarInt(primary_number(channel_id, segment is Some));
    let rest = order_bytes(order) + key_bytes(key) + payload;
    let body = segment_bytes(segment) + rest;
    head.law_round_trip(body);
    assert(packet =~= head.encoding() + body);
    assert(packet.skip(head.encoding().len() as int) =~= body);
    assert(Seq::<u8>::empty() + rest =~= rest);
}

/// A packet that is addressed to a channel is received on that channel.
proof fn lemma_addressed(
    exchange: ExchangeView,
    local_id: u32,
    global_id: u32,
    channel: ChannelView,
    segment: bool,
    packet: Seq<u8>,
    body: Seq<u8>,
    provider: ProviderView,
    now: u64,
)
    requires
        addressable(exchange.connection, local_id, global_id, channel, provider),
        PrimaryPacketMetadata::<false>::parse(packet).value == Some(
            PrimaryView { channel_id: local_id, segment },
        ),
        packet.skip(PrimaryPacketMetadata::<false>::parse(packet).used as int) == body,
    ensures
        exchange.receive(packet, provider, now) == (if segment {
            exchange.receive_segment(local_id, global_id, channel, body, provider, now)
        } else {
            exchange.receive_whole(local_id, global_id, channel, body, provider, now)
        }),
{
    assert(exchange.with(exchange.connection) == exchange);
}

/// A segment as it is kept until the others have arrived.
pub open spec fn kept_segment(order: Option<u32>, key: Option<SlotMapKey>, segment: Seq<u8>) -> Seq<
    u8,
> {
    order_bytes(order) + key_bytes(key) + segment
}

/// The segments of a payload as they are kept.
pub open spec fn kept_segments(
    order: Option<u32>,
    keys: Seq<Option<SlotMapKey>>,
    payload: Seq<u8>,
) -> Seq<Seq<u8>> {
    Seq::new(
        segment_count(payload.len()),
        |i: int| kept_segment(order, keys[i], segment_of(payload, i as nat)),
    )
}

/// Putting together the segments of a payload gives the payload.
pub proof fn law_assembled(
    channel: ChannelView,
    order: Option<u32>,
    keys: Seq<Option<SlotMapKey>>,
    payload: Seq<u8>,
)
    requires
        keys.len() == segment_count(payload.len()),
        forall|i: int| 0 <= i < keys.len() ==> fits_channel(channel, order, #[trigger] keys[i]),
    ensures
        assembled(channel, kept_segments(order, keys, payload)) == payload,
{
    let all = kept_segments(order, keys, payload);
    lemma_assembled(channel, order, keys, payload, all.len());
    assert(all.take(all.len() as int) =~= all);
    law_segments_make_payload(payload);
}

proof fn lemma_assembled(
    channel: ChannelView,
    order: Option<u32>,
    keys: Seq<Option<SlotMapKey>>,
    payload: Seq<u8>,
    n: nat,
)
    requires
        n <= keys.len() == segment_count(payload.len()),
        forall|i: int| 0 <= i < keys.len() ==> fits_channel(channel, order, #[trigger] keys[i]),
    ensures
        assembled(channel, kept_segments(order, keys, payload).take(n as int)) == first_segments(
            payload,
            n,
        ),
    decreases n,
{
    let all = kept_segments(order, keys, payload);
    if n > 0 {
        let m = n - 1;
        lemma_assembled(channel, order, keys, payload, m as nat);
        assert(all.take(n as int).drop_last() =~= all.take(m));
        assert(fits_channel(channel, order, keys[m]));
        let segment = segment_of(payload, m as nat);
        law_headers_round_trip(channel, order, keys[m], segment);
        assert(all[m].skip((order_bytes(order) + key_bytes(keys[m])).len() as int) =~= segment);
    }
}

/// Whether messages are exchanged through the channel, as opposed to what the protocol itself
/// exchanges.
pub open spec fn is_message_channel(connection: ConnectionView, local_id: u32) -> bool {
    &&& connection.state is Transfer
    &&& connection.remote.ack_channel_id() != Some(local_id)
    &&& connection.remote.management_channel_id() != Some(local_id)
}

/// The messages that can be delivered when one more arrives: on an ordered channel, those whose
/// turn has come.
pub open spec fn messages_of(
    connection: ConnectionView,
    local_id: u32,
    order: Option<u32>,
    payload: Seq<u8>,
) -> Seq<Seq<u8>> {
    match order {
        None => seq![payload],
        Some(n) => connection.orderers.get(connection.state, local_id).unwrap().push(
            n as usize,
            payload,
        ).ready(),
    }
}

/// Whether there is room for the message until its turn comes.
pub open spec fn is_accepted(connection: ConnectionView, local_id: u32, order: Option<u32>) -> bool {
    match order {
        None => true,
        Some(n) => connection.orderers.get(connection.state, local_id).unwrap().accepts(n as usize),
    }
}

proof fn lemma_deliver_messages(
    exchange: ExchangeView,
    local_id: u32,
    global_id: u32,
    packets: Seq<Seq<u8>>,
    provider: ProviderView,
)
    requires
        is_message_channel(exchange.connection, local_id),
        exchange.buffers.contains_key(global_id),
    ensures
        exchange.deliver_all(local_id, global_id, packets, provider).after == (ExchangeView {
            buffers: exchange.buffers.insert(global_id, exchange.buffers[global_id] + packets),
            ..exchange
        }),
        exchange.deliver_all(local_id, global_id, packets, provider).result is Ok,
    decreases packets.len(),
{
    let old_messages = exchange.buffers[global_id];
    if packets.len() == 0 {
        assert(old_messages + packets =~= old_messages);
        assert(exchange.buffers.insert(global_id, old_messages) =~= exchange.buffers);
    } else {
        let one = exchange.deliver(local_id, global_id, packets[0], provider);
        lemma_deliver_messages(one.after, local_id, global_id, packets.skip(1), provider);
        assert(old_messages.push(packets[0]) + packets.skip(1) =~= old_messages + packets);
        assert(one.after.buffers.insert(global_id, old_messages + packets)
            =~= exchange.buffers.insert(global_id, old_messages + packets));
    }
}

/// A message that is accepted is delivered to its channel with those behind it whose turn has
/// come; one that is too far ahead or behind is refused, and nothing changes.
pub proof fn law_delivered(
    exchange: ExchangeView,
    local_id: u32,
    global_id: u32,
    order: Option<u32>,
    payload: Seq<u8>,
    provider: ProviderView,
)
    requires
        is_message_channel(exchange.connection, local_id),
        exchange.buffers.contains_key(global_id),
    ensures
        ({
            let outcome = exchange.deliver_in_order(
                local_id,
                global_id,
                order,
                payload,
                provider,
            );
            if is_accepted(exchange.connection, local_id, order) {
                &&& outcome.result is Ok
                &&& outcome.after.buffers == exchange.buffers.insert(
                    global_id,
                    exchange.buffers[global_id] + messages_of(
                        exchange.connection,
                        local_id,
                        order,
                        payload,
                    ),
                )
            } else {
                &&& outcome.result == Err::<(), ConnectionError>(
                    ConnectionError::PacketOrdererError(PacketOrdererError::CapacityReached),
                )
                &&& outcome.after == exchange
            }
        }),
{
    let c = exchange.connection;
    match order {
        None => {
            assert(exchange.buffers[global_id].push(payload) =~= exchange.buffers[global_id]
                + seq![payload]);
        },
        Some(n) => {
            let orderer = c.orderers.get(c.state, local_id).unwrap();
            if orderer.accepts(n as usize) {
                lemma_deliver_messages(
                    exchange.with_orderer(c.state, local_id, None),
                    local_id,
                    global_id,
                    orderer.push(n as usize, payload).ready(),
                    provider,
                );
            }
        },
    }
}

/// A packet is acknowledged unless its key is known or there is no more room for the
/// acknowledgement; what concerns the delivery of messages does not change.
pub proof fn law_acknowledged(
    exchange: ExchangeView,
    key: Option<SlotMapKey>,
    provider: ProviderView,
)
    requires
        exchange.connection.wf(provider),
        exchange.connection.initialized(),
    ensures
        ({
            let c = exchange.connection;
            let outcome = exchange.acknowledge(key);
            let after = outcome.after.connection;
            &&& outcome.result == (match key {
                None => Ok::<(), ConnectionError>(()),
                Some(k) => if c.received.contains(k) {
                    Err(ConnectionError::PacketDuplicateDetected)
                } else if c.unsent.len() + k.encoding().len() > MAX_NON_SEGMENTED_PAYLOAD_LEN
                    && c.resender.full() {
                    Err(
                        ConnectionError::PacketResenderError(PacketResenderError::CapacityReached),
                    )
                } else {
                    Ok(())
                },
            })
            &&& outcome.result is Ok && key is Some ==> after.received == c.received.insert(
                key.unwrap(),
            )
            &&& key is None || outcome.result == Err::<(), ConnectionError>(
                ConnectionError::PacketDuplicateDetected,
            ) ==> outcome.after == exchange
            &&& outcome.after.buffers == exchange.buffers
            &&& after.state == c.state
            &&& after.local == c.local
            &&& after.remote == c.remote
            &&& after.orderers == c.orderers
            &&& after.joiner == c.joiner
        }),
{
    let c = exchange.connection;
    if let Some(k) = key {
        let id = ack_id(c.state, c.local.ack);
        assert(id < 0x8000_0000);
    }
}

/// A message that was sent as one packet arrives on the other side: unless it is refused for want
/// of room or because its packet has arrived before, it is delivered to its channel, with those
/// behind it whose turn has come.
pub proof fn law_message_arrives(
    exchange: ExchangeView,
    local_id: u32,
    global_id: u32,
    channel: ChannelView,
    order: Option<u32>,
    key: Option<SlotMapKey>,
    payload: Seq<u8>,
    provider: ProviderView,
    now: u64,
)
    requires
        exchange.connection.wf(provider),
        exchange.connection.initialized(),
        addressable(exchange.connection, local_id, global_id, channel, provider),
        fits_channel(channel, order, key),
        is_message_channel(exchange.connection, local_id),
        exchange.buffers.contains_key(global_id),
    ensures
        ({
            let outcome = exchange.receive(
                packet_bytes(local_id, None, order, key, payload),
                provider,
                now,
            );
            &&& outcome.result is Ok <==> exchange.acknowledge(key).result is Ok && is_accepted(
                exchange.connection,
                local_id,
                order,
            )
            &&& outcome.after.buffers == (if outcome.result is Ok {
                exchange.buffers.insert(
                    global_id,
                    exchange.buffers[global_id] + messages_of(
                        exchange.connection,
                        local_id,
                        order,
                        payload,
                    ),
                )
            } else {
                exchange.buffers
            })
        }),
{
    law_whole_read_back(
        exchange,
        local_id,
        global_id,
        channel,
        order,
        key,
        payload,
        provider,
        now,
    );
    law_acknowledged(exchange, key, provider);
    law_delivered(
        exchange.acknowledge(key).after,
        local_id,
        global_id,
        order,
        payload,
        provider,
    );
}

/// The packet in which the `i`-th segment of a payload is sent.
pub open spec fn segment_packet(
    local_id: u32,
    segment_key: u32,
    order: Option<u32>,
    keys: Seq<Option<SlotMapKey>>,
    payload: Seq<u8>,
    i: nat,
) -> Seq<u8> {
    packet_bytes(
        local_id,
        Some(segment_metadata(payload, segment_key, i)),
        order,
        keys[i as int],
        segment_of(payload, i),
    )
}

/// The segments of a payload arrive in the order of `arrivals`, which holds their numbers, each at
/// its time, up to the first that is refused.
pub open spec fn receive_segments(
    start: ExchangeView,
    local_id: u32,
    segment_key: u32,
    order: Option<u32>,
    keys: Seq<Option<SlotMapKey>>,
    payload: Seq<u8>,
    arrivals: Seq<usize>,
    provider: ProviderView,
    times: spec_fn(nat) -> u64,
) -> ExchangeOutcome
    decreases arrivals.len(),
{
    if arrivals.len() == 0 {
        start.ok()
    } else {
        let before = receive_segments(
            start,
            local_id,
            segment_key,
            order,
            keys,
            payload,
            arrivals.drop_last(),
            provider,
            times,
        );
        if before.result is Ok {
            before.after.receive(
                segment_packet(
                    local_id,
                    segment_key,
                    order,
                    keys,
                    payload,
                    arrivals.last() as nat,
                ),
                provider,
                times((arrivals.len() - 1) as nat),
            )
        } else {
            before
        }
    }
}

/// What the law on segments is about: a consistent side that has nothing yet of a packet, and the
/// packet's segments with all that they need.
pub open spec fn awaits_segments(
    start: ExchangeView,
    local_id: u32,
    global_id: u32,
    channel: ChannelView,
    segment_key: u32,
    order: Option<u32>,
    keys: Seq<Option<SlotMapKey>>,
    payload: Seq<u8>,
    provider: ProviderView,
) -> bool {
    &&& start.connection.wf(provider)
    &&& start.connection.initialized()
    &&& provider.valid()
    &&& addressable(start.connection, local_id, global_id, channel, provider)
    &&& is_message_channel(start.connection, local_id)
    &&& start.buffers.contains_key(global_id)
    &&& !start.connection.joiner.packets.contains_key(segment_key)
    &&& 1 <= segment_count(payload.len()) <= u16::MAX + 1
    &&& keys.len() == segment_count(payload.len())
    &&& forall|i: int| 0 <= i < keys.len() ==> fits_channel(channel, order, #[trigger] keys[i])
}

/// What has not changed while segments arrive.
spec fn same_delivery(before: ExchangeView, after: ExchangeView) -> bool {
    &&& after.connection.state == before.connection.state
    &&& after.connection.local == before.connection.local
    &&& after.connection.remote == before.connection.remote
    &&& after.connection.orderers == before.connection.orderers
    &&& after.buffers == before.buffers
}

proof fn lemma_segment_arrives(
    exchange: ExchangeView,
    local_id: u32,
    global_id: u32,
    channel: ChannelView,
    segment_key: u32,
    order: Option<u32>,
    keys: Seq<Option<SlotMapKey>>,
    payload: Seq<u8>,
    i: nat,
    provider: ProviderView,
    now: u64,
)
    requires
        exchange.connection.wf(provider),
        exchange.connection.initialized(),
        addressable(exchange.connection, local_id, global_id, channel, provider),
        is_message_channel(exchange.connection, local_id),
        1 <= segment_count(payload.len()) <= u16::MAX + 1,
        i < keys.len() == segment_count(payload.len()),
        fits_channel(channel, order, keys[i as int]),
        exchange.receive(
            segment_packet(local_id, segment_key, order, keys, payload, i),
            provider,
            now,
        ).result is Ok,
    ensures
        ({
            let acknowledged = exchange.acknowledge(keys[i as int]);
            &&& acknowledged.result is Ok
            &&& same_delivery(exchange, acknowledged.after)
            &&& acknowledged.after.connection.joiner == exchange.connection.joiner
            &&& exchange.receive(
                segment_packet(local_id, segment_key, order, keys, payload, i),
                provider,
                now,
            ) == acknowledged.after.join(
                local_id,
                global_id,
                channel,
                segment_metadata(payload, segment_key, i),
                kept_segments(order, keys, payload)[i as int],
                provider,
                now,
            )
        }),
{
    law_segment_read_back(
        exchange,
        local_id,
        global_id,
        channel,
        segment_metadata(payload, segment_key, i),
        order,
        keys[i as int],
        segment_of(payload, i),
        provider,
        now,
    );
    law_acknowledged(exchange, keys[i as int], provider);
}

proof fn lemma_some_segments_arrive(
    start: ExchangeView,
    local_id: u32,
    global_id: u32,
    channel: ChannelView,
    segment_key: u32,
    order: Option<u32>,
    keys: Seq<Option<SlotMapKey>>,
    payload: Seq<u8>,
    arrivals: Seq<usize>,
    provider: ProviderView,
    times: spec_fn(nat) -> u64,
)
    requires
        awaits_segments(
            start,
            local_id,
            global_id,
            channel,
            segment_key,
            order,
            keys,
            payload,
            provider,
        ),
        arrivals.no_duplicates(),
        forall|i: int|
            0 <= i < arrivals.len() ==> (#[trigger] arrivals[i] as int) < segment_count(
                payload.len(),
            ),
        arrivals.len() < segment_count(payload.len()),
        receive_segments(
            start,
            local_id,
            segment_key,
            order,
            keys,
            payload,
            arrivals,
            provider,
            times,
        ).result is Ok,
    ensures
        ({
            let after = receive_segments(
                start,
                local_id,
                segment_key,
                order,
                keys,
                payload,
                arrivals,
                provider,
                times,
            ).after;
            &&& same_delivery(start, after)
            &&& after.connection.wf(provider)
            &&& after.connection.joiner == join_all(
                start.connection.joiner,
                segment_key,
                kept_segments(order, keys, payload),
                arrivals,
            ).joiner
        }),
    decreases arrivals.len(),
{
    if arrivals.len() > 0 {
        let earlier = arrivals.drop_last();
        let i = arrivals.last() as nat;
        assert((arrivals[arrivals.len() - 1] as int) < segment_count(payload.len()));
        lemma_some_segments_arrive(
            start,
            local_id,
            global_id,
            channel,
            segment_key,
            order,
            keys,
            payload,
            earlier,
            provider,
            times,
        );
        let before = receive_segments(
            start,
            local_id,
            segment_key,
            order,
            keys,
            payload,
            earlier,
            provider,
            times,
        ).after;
        assert(fits_channel(channel, order, keys[i as int]));
        lemma_segment_arrives(
            before,
            local_id,
            global_id,
            channel,
            segment_key,
            order,
            keys,
            payload,
            i,
            provider,
            times((arrivals.len() - 1) as nat),
        );
        law_receive_keeps_wf(
            before,
            segment_packet(local_id, segment_key, order, keys, payload, i),
            provider,
            times((arrivals.len() - 1) as nat),
        );
        lemma_may_join(start.connection.joiner, segment_key);
        law_joined_in_order(
            start.connection.joiner,
            segment_key,
            kept_segments(order, keys, payload),
            arrivals,
        );
    }
}

/// Where there is no room for packets at all, none has to make room.
proof fn lemma_may_join(joiner: JoinerView, key: u32)
    requires
        joiner.capacity == 0,
        joiner.packets.dom().finite(),
    ensures
        joiner.may_evict(key, None),
{
    if joiner.packets.dom().len() == 0 {
        assert(joiner.packets.dom() =~= Set::empty());
        assert(joiner.packets =~= Map::empty());
    }
}

/// A message that was sent in segments arrives on the other side, however and whenever its segments
/// arrive:
/// once all of them have and none was refused, the message is delivered to its channel, whole and
/// once, with those behind it whose turn has come; nothing was delivered before, and nothing of
/// its segments is kept.
pub proof fn law_segmented_message_arrives(
    start: ExchangeView,
    local_id: u32,
    global_id: u32,
    channel: ChannelView,
    segment_key: u32,
    order: Option<u32>,
    keys: Seq<Option<SlotMapKey>>,
    payload: Seq<u8>,
    arrivals: Seq<usize>,
    provider: ProviderView,
    times: spec_fn(nat) -> u64,
)
    requires
        awaits_segments(
            start,
            local_id,
            global_id,
            channel,
            segment_key,
            order,
            keys,
            payload,
            provider,
        ),
        arrivals.no_duplicates(),
        forall|i: int|
            0 <= i < arrivals.len() ==> (#[trigger] arrivals[i] as int) < segment_count(
                payload.len(),
            ),
        receive_segments(
            start,
            local_id,
            segment_key,
            order,
            keys,
            payload,
            arrivals,
            provider,
            times,
        ).result is Ok,
    ensures
        ({
            let after = receive_segments(
                start,
                local_id,
                segment_key,
                order,
                keys,
                payload,
                arrivals,
                provider,
                times,
            ).after;
            if arrivals.len() == segment_count(payload.len()) {
                &&& after.buffers == start.buffers.insert(
                    global_id,
                    start.buffers[global_id] + messages_of(
                        start.connection,
                        local_id,
                        order,
                        payload,
                    ),
                )
                &&& after.connection.joiner == start.connection.joiner
            } else {
                after.buffers == start.buffers
            }
        }),
{
    let count = segment_count(payload.len());
    lemma_arrivals_at_most(arrivals, count);
    if arrivals.len() < count {
        lemma_some_segments_arrive(
            start,
            local_id,
            global_id,
            channel,
            segment_key,
            order,
            keys,
            payload,
            arrivals,
            provider,
            times,
        );
    } else {
        lemma_all_segments_arrive(
            start,
            local_id,
            global_id,
            channel,
            segment_key,
            order,
            keys,
            payload,
            arrivals,
            provider,
            times,
        );
    }
}

/// The last of the segments arrives.
proof fn lemma_all_segments_arrive(
    start: ExchangeView,
    local_id: u32,
    global_id: u32,
    channel: ChannelView,
    segment_key: u32,
    order: Option<u32>,
    keys: Seq<Option<SlotMapKey>>,
    payload: Seq<u8>,
    arrivals: Seq<usize>,
    provider: ProviderView,
    times: spec_fn(nat) -> u64,
)
    requires
        awaits_segments(
            start,
            local_id,
            global_id,
            channel,
            segment_key,
            order,
            keys,
            payload,
            provider,
        ),
        arrivals.no_duplicates(),
        forall|i: int|
            0 <= i < arrivals.len() ==> (#[trigger] arrivals[i] as int) < segment_count(
                payload.len(),
            ),
        receive_segments(
            start,
            local_id,
            segment_key,
            order,
            keys,
            payload,
            arrivals,
            provider,
            times,
        ).result is Ok,
        arrivals.len() == segment_count(payload.len()),
    ensures
        ({
            let after = receive_segments(
                start,
                local_id,
                segment_key,
                order,
                keys,
                payload,
                arrivals,
                provider,
                times,
            ).after;
            &&& after.buffers == start.buffers.insert(
                global_id,
                start.buffers[global_id] + messages_of(
                    start.connection,
                    local_id,
                    order,
                    payload,
                ),
            )
            &&& after.connection.joiner == start.connection.joiner
        }),
{
    let count = segment_count(payload.len());
    let now = times((arrivals.len() - 1) as nat);
    let earlier = arrivals.drop_last();
    let i = arrivals.last() as nat;
    assert((arrivals[arrivals.len() - 1] as int) < count);
    lemma_some_segments_arrive(
        start,
        local_id,
        global_id,
        channel,
        segment_key,
        order,
        keys,
        payload,
        earlier,
        provider,
        times,
    );
    let before = receive_segments(
        start,
        local_id,
        segment_key,
        order,
        keys,
        payload,
        earlier,
        provider,
        times,
    ).after;
    assert(fits_channel(channel, order, keys[i as int]));
    lemma_segment_arrives(
        before,
        local_id,
        global_id,
        channel,
        segment_key,
        order,
        keys,
        payload,
        i,
        provider,
        now,
    );
    let all = kept_segments(order, keys, payload);
    lemma_may_join(start.connection.joiner, segment_key);
    law_joined_in_order(start.connection.joiner, segment_key, all, arrivals);
    lemma_last_segment(
        before.acknowledge(keys[i as int]).after,
        local_id,
        global_id,
        channel,
        segment_key,
        order,
        keys,
        payload,
        i,
        start.connection.joiner,
        provider,
        now,
    );
}

/// Once the last segment is put to the others, the message is delivered.
proof fn lemma_last_segment(
    exchange: ExchangeView,
    local_id: u32,
    global_id: u32,
    channel: ChannelView,
    segment_key: u32,
    order: Option<u32>,
    keys: Seq<Option<SlotMapKey>>,
    payload: Seq<u8>,
    i: nat,
    left: JoinerView,
    provider: ProviderView,
    now: u64,
)
    requires
        is_message_channel(exchange.connection, local_id),
        exchange.buffers.contains_key(global_id),
        1 <= segment_count(payload.len()),
        i < keys.len() == segment_count(payload.len()),
        forall|k: int| 0 <= k < keys.len() ==> fits_channel(channel, order, #[trigger] keys[k]),
        exchange.connection.joiner.add(
            segment_metadata(payload, segment_key, i),
            kept_segments(order, keys, payload)[i as int],
            true,
            None,
        ) == (JoinerOutcome {
            joiner: left,
            result: Ok(Some(kept_segments(order, keys, payload))),
        }),
        exchange.join(
            local_id,
            global_id,
            channel,
            segment_metadata(payload, segment_key, i),
            kept_segments(order, keys, payload)[i as int],
            provider,
            now,
        ).result is Ok,
    ensures
        ({
            let after = exchange.join(
                local_id,
                global_id,
                channel,
                segment_metadata(payload, segment_key, i),
                kept_segments(order, keys, payload)[i as int],
                provider,
                now,
            ).after;
            &&& after.buffers == exchange.buffers.insert(
                global_id,
                exchange.buffers[global_id] + messages_of(
                    exchange.connection,
                    local_id,
                    order,
                    payload,
                ),
            )
            &&& after.connection.joiner == left
        }),
{
    law_assembled(channel, order, keys, payload);
    assert(fits_channel(channel, order, keys[0]));
    law_headers_round_trip(channel, order, keys[0], segment_of(payload, 0));
    let joined = exchange.with(ConnectionView { joiner: left, ..exchange.connection });
    law_delivered(joined, local_id, global_id, order, payload, provider);
    lemma_delivery_keeps_joiner(joined, local_id, global_id, order, payload, provider);
}

proof fn lemma_delivery_keeps_joiner(
    exchange: ExchangeView,
    local_id: u32,
    global_id: u32,
    order: Option<u32>,
    payload: Seq<u8>,
    provider: ProviderView,
)
    requires
        is_message_channel(exchange.connection, local_id),
        exchange.buffers.contains_key(global_id),
    ensures
        exchange.deliver_in_order(
            local_id,
            global_id,
            order,
            payload,
            provider,
        ).after.connection.joiner == exchange.connection.joiner,
{
    let c = exchange.connection;
    if let Some(n) = order {
        let orderer = c.orderers.get(c.state, local_id).unwrap();
        lemma_deliver_messages(
            exchange.with_orderer(c.state, local_id, None),
            local_id,
            global_id,
            orderer.push(n as usize, payload).ready(),
            provider,
        );
    }
}

} // verus!
