//! Whatever happens to a connection, it stays consistent.
use super::acknowledge::{parse_keys, remove_all};
use super::channel::ChannelView;
use super::id::{ConnectionState, NULL_CHANNEL_ID};
use super::mapper::{law_insert, placed, without};
use super::model::{known_ids, padded, ConnectionView, ExchangeView};
use super::packet::{parse_headers, ChannelName, PrimaryPacketMetadata};
use super::provider::ProviderView;
use super::resend::{aged_slots, ResenderView};
use super::segment::{JoinerView, PacketSegmentMetadata};
use super::send::{channel_for, segment_count, SendingView};
use crate::proto::decode::Decode;
use crate::proto::round_trip::RoundTrip;
use crate::proto::VarInt;
use crate::util::slot_map::{
    law_next_key_is_new, law_remove_then_get, lemma_distinct_below, lemma_replaced_keeps_wf,
    SlotMapKey,
};
use vstd::prelude::*;

verus! {

/// There is room for one channel more among distinct known ones.
pub proof fn lemma_room(locals: Seq<u32>, provider: ProviderView, global: u32)
    requires
        locals.no_duplicates(),
        forall|i: int| 0 <= i < locals.len() ==> provider.names_id(#[trigger] locals[i]),
        provider.valid(),
        provider.names_id(global),
    ensures
        without(locals, global).len() < NULL_CHANNEL_ID,
        global < NULL_CHANNEL_ID,
{
    let others = without(locals, global);
    let all = others.push(global);
    assert forall|i: int| 0 <= i < others.len() implies (#[trigger] others[i] as int)
        < NULL_CHANNEL_ID && others[i] != global && locals.contains(others[i]) by {
        if locals.contains(global) {
            let p = locals.index_of(global);
            let j = if i < p {
                i
            } else {
                i + 1
            };
            assert(others[i] == locals[j]);
        }
        assert(provider.names_id(others[i]));
    }
    assert(all.no_duplicates());
    lemma_distinct_below(all, NULL_CHANNEL_ID as nat);
}

pub proof fn lemma_remove_all_wf(resender: ResenderView, keys: Seq<SlotMapKey>)
    requires
        resender.wf(),
    ensures
        remove_all(resender, keys).wf(),
    decreases keys.len(),
{
    if keys.len() > 0 {
        law_remove_then_get(resender.packets, keys[0], keys[0]);
        lemma_remove_all_wf(resender.remove(keys[0]), keys.skip(1));
    }
}

proof fn lemma_send_one_wf(
    sending: SendingView,
    channel_id: u32,
    channel: ChannelView,
    segment: Option<PacketSegmentMetadata>,
    order: Option<u32>,
    payload: Seq<u8>,
)
    requires
        sending.resender.wf(),
    ensures
        sending.send_one(channel_id, channel, segment, order, payload).after.resender.wf(),
        sending.send_one(channel_id, channel, segment, order, payload).after.orders
            == sending.orders,
{
    let after = sending.send_one(channel_id, channel, segment, order, payload).after;
    if after.resender != sending.resender {
        law_next_key_is_new(
            sending.resender.packets,
            after.resender.packets.values[sending.resender.packets.next_index()],
        );
    }
}

proof fn lemma_send_segments_wf(
    sending: SendingView,
    channel_id: u32,
    channel: ChannelView,
    segment_key: u32,
    order: Option<u32>,
    payload: Seq<u8>,
    from: nat,
)
    requires
        sending.resender.wf(),
    ensures
        sending.send_segments(
            channel_id,
            channel,
            segment_key,
            order,
            payload,
            from,
        ).after.resender.wf(),
        sending.send_segments(
            channel_id,
            channel,
            segment_key,
            order,
            payload,
            from,
        ).after.orders == sending.orders,
    decreases segment_count(payload.len()) - from,
{
    let count = segment_count(payload.len());
    if from < count {
        let metadata = PacketSegmentMetadata {
            segment_key,
            segment: from as usize,
            segment_count: count as usize,
        };
        let segment = super::send::segment_of(payload, from);
        lemma_send_one_wf(sending, channel_id, channel, Some(metadata), order, segment);
        let one = sending.send_one(channel_id, channel, Some(metadata), order, segment);
        lemma_send_segments_wf(
            one.after,
            channel_id,
            channel,
            segment_key,
            order,
            payload,
            from + 1,
        );
    }
}

/// Sending keeps the packets that wait for their acknowledgement well-formed, and no channel
/// loses its order.
pub proof fn lemma_send_wf(
    sending: SendingView,
    state: ConnectionState,
    channel_id: u32,
    channel: ChannelView,
    payload: Seq<u8>,
)
    requires
        sending.resender.wf(),
        channel.orderability is Some ==> sending.orders.holds(state, channel_id),
    ensures
        sending.send(state, channel_id, channel, payload).after.resender.wf(),
        sending.send(state, channel_id, channel, payload).after.orders.basic.len()
            == sending.orders.basic.len(),
{
    let order = sending.order(state, channel_id, channel);
    let ready = sending.ordered(state, channel_id, channel);
    lemma_send_one_wf(ready, channel_id, channel, None, order, payload);
    let keyed = SendingView { segment_keys: super::send::next_u32(ready.segment_keys), ..ready };
    lemma_send_segments_wf(keyed, channel_id, channel, ready.segment_keys, order, payload, 0);
}

proof fn lemma_transferred(connection: ConnectionView, provider: ProviderView)
    requires
        connection.coherent(provider),
    ensures
        connection.transferred().coherent(provider),
        connection.converted().coherent(provider),
        connection.orderers_fit(provider) ==> connection.transferred().orderers_fit(provider)
            && connection.converted().orderers_fit(provider),
{
}

pub proof fn lemma_speculated(connection: ConnectionView, channel_id: u32, provider: ProviderView)
    requires
        connection.wf(provider),
    ensures
        connection.speculated(channel_id).wf(provider),
{
    lemma_transferred(connection, provider);
}

proof fn lemma_noted(connection: ConnectionView, packet: Seq<u8>, provider: ProviderView)
    requires
        connection.coherent(provider),
    ensures
        connection.noted(packet).coherent(provider),
        connection.orderers_fit(provider) ==> connection.noted(packet).orderers_fit(provider),
{
    lemma_remove_all_wf(connection.resender, parse_keys(packet));
}

proof fn lemma_registered_channel(
    connection: ConnectionView,
    local_id: u32,
    global: u32,
    name: Seq<char>,
    provider: ProviderView,
)
    requires
        connection.coherent(provider),
        provider.valid(),
        provider.names_id(global),
        connection.remote.accepts(local_id),
    ensures
        connection.registered_channel(
            local_id,
            global,
            name,
            provider.channels[global],
        ).coherent(provider),
        connection.orderers_fit(provider) ==> connection.registered_channel(
            local_id,
            global,
            name,
            provider.channels[global],
        ).orderers_fit(provider),
{
    let after = connection.registered_channel(local_id, global, name, provider.channels[global]);
    let locals = connection.remote.locals;
    assert(global < NULL_CHANNEL_ID);
    law_insert(connection.remote, local_id, global, name);
    assert(after.remote.locals == placed(locals, local_id, global));
    assert forall|i: int| 0 <= i < after.remote.locals.len() && i != local_id
        && #[trigger] after.remote.locals[i] != NULL_CHANNEL_ID implies ({
        let k = came_from(locals, local_id, global, i);
        &&& 0 <= k < locals.len()
        &&& after.remote.locals[i] == locals[k]
        &&& after.orderers.basic.len() > i
        &&& after.orderers.basic[i] == padded(connection.orderers.basic, locals.len())[k]
    }) by {
        if locals.contains(global) {
            let p = locals.index_of(global);
            assert(locals[p] == global);
        }
    }
    assert(known_ids(after.remote.locals, provider));
    assert(connection.orderers_fit(provider) ==> after.orderers_fit(provider));
}

/// Where a channel was that has the id `i` now.
spec fn came_from(locals: Seq<u32>, local_id: u32, global: u32, i: int) -> int {
    let j = if i < local_id {
        i
    } else {
        i - 1
    };
    if locals.contains(global) && local_id <= without(locals, global).len() && j
        >= locals.index_of(global) {
        j + 1
    } else {
        j
    }
}

proof fn lemma_register(connection: ConnectionView, packet: Seq<u8>, provider: ProviderView)
    requires
        connection.coherent(provider),
        provider.valid(),
    ensures
        connection.register(packet, provider).after.coherent(provider),
        connection.orderers_fit(provider) ==> connection.register(
            packet,
            provider,
        ).after.orderers_fit(provider),
        connection.register(packet, provider).after.orderers.management
            == connection.orderers.management,
        connection.register(packet, provider).after.orderers.ack == connection.orderers.ack,
        connection.register(packet, provider).after.local == connection.local,
{
    lemma_transferred(connection.told_last(), provider);
    let name = ChannelName::parse(packet);
    let local_id = VarInt::<u32>::parse(packet.skip(name.used as int));
    if let Some(n) = name.value {
        if let Some(id) = local_id.value {
            if provider.names.contains_key(n) && connection.remote.accepts(id.0) {
                lemma_registered_channel(connection, id.0, provider.names[n], n, provider);
            }
        }
    }
}

/// Delivering a message keeps the connection consistent, and it touches no orderer that is in use
/// meanwhile.
pub proof fn lemma_deliver(
    exchange: ExchangeView,
    local_id: u32,
    global_id: u32,
    packet: Seq<u8>,
    provider: ProviderView,
)
    requires
        exchange.connection.coherent(provider),
        provider.valid(),
    ensures
        ({
            let before = exchange.connection;
            let after = exchange.deliver(local_id, global_id, packet, provider).after.connection;
            &&& after.coherent(provider)
            &&& after.local == before.local
            &&& after.orderers.management == before.orderers.management
            &&& after.orderers.ack == before.orderers.ack
            &&& before.orderers_fit(provider) ==> after.orderers_fit(provider)
            &&& before.state is Transfer ==> after.state is Transfer && after.orderers
                == before.orderers && after.remote == before.remote
        }),
{
    let c = exchange.connection;
    lemma_noted(c, packet, provider);
    lemma_transferred(c.noted(packet), provider);
    lemma_register(c, packet, provider);
}

pub proof fn lemma_deliver_all(
    exchange: ExchangeView,
    local_id: u32,
    global_id: u32,
    packets: Seq<Seq<u8>>,
    provider: ProviderView,
)
    requires
        exchange.connection.coherent(provider),
        provider.valid(),
    ensures
        ({
            let before = exchange.connection;
            let delivery = exchange.deliver_all(local_id, global_id, packets, provider);
            let after = delivery.after.connection;
            &&& delivery.count <= packets.len()
            &&& delivery.result is Ok ==> delivery.count == packets.len()
            &&& delivery.result is Err ==> delivery.count < packets.len()
            &&& after.coherent(provider)
            &&& after.local == before.local
            &&& after.orderers.management == before.orderers.management
            &&& after.orderers.ack == before.orderers.ack
            &&& before.orderers_fit(provider) ==> after.orderers_fit(provider)
            &&& before.state is Transfer ==> after.state is Transfer && after.orderers
                == before.orderers && after.remote == before.remote
        }),
    decreases packets.len(),
{
    if packets.len() > 0 {
        lemma_deliver(exchange, local_id, global_id, packets[0], provider);
        let one = exchange.deliver(local_id, global_id, packets[0], provider);
        if one.result is Ok {
            lemma_deliver_all(one.after, local_id, global_id, packets.skip(1), provider);
        }
    }
}

/// Which channel a packet can belong to: one that has an orderer if it is ordered.
pub open spec fn addressable(
    connection: ConnectionView,
    local_id: u32,
    global_id: u32,
    channel: ChannelView,
    provider: ProviderView,
) -> bool {
    &&& connection.remote.global_id(connection.state, local_id) == Some(global_id)
    &&& channel_for(connection.state, local_id, global_id, provider) == Some(channel)
}

/// An ordered channel has an orderer.
pub proof fn lemma_orderer(
    connection: ConnectionView,
    local_id: u32,
    global_id: u32,
    channel: ChannelView,
    provider: ProviderView,
)
    requires
        connection.wf(provider),
        addressable(connection, local_id, global_id, channel, provider),
        channel.orderability is Some,
    ensures
        connection.orderers.holds(connection.state, local_id),
        connection.orderers.get(connection.state, local_id) is Some,
{
    if connection.state is Transfer {
        assert(connection.orderers.basic[local_id as int] is Some);
    }
}

pub proof fn lemma_deliver_in_order(
    exchange: ExchangeView,
    local_id: u32,
    global_id: u32,
    channel: ChannelView,
    order: Option<u32>,
    packet: Seq<u8>,
    provider: ProviderView,
)
    requires
        exchange.connection.wf(provider),
        provider.valid(),
        addressable(exchange.connection, local_id, global_id, channel, provider),
        order is Some ==> channel.orderability is Some,
    ensures
        ({
            let after = exchange.deliver_in_order(
                local_id,
                global_id,
                order,
                packet,
                provider,
            ).after.connection;
            &&& after.wf(provider)
            &&& after.local == exchange.connection.local
        }),
{
    match order {
        None => lemma_deliver(exchange, local_id, global_id, packet, provider),
        Some(n) => {
            let c = exchange.connection;
            lemma_orderer(c, local_id, global_id, channel, provider);
            let pushed = c.orderers.get(c.state, local_id).unwrap().push(n as usize, packet);
            let taken = exchange.with_orderer(c.state, local_id, None);
            assert(taken.connection.coherent(provider));
            lemma_deliver_all(taken, local_id, global_id, pushed.ready(), provider);
            let delivery = taken.deliver_all(local_id, global_id, pushed.ready(), provider);
            if c.state is Registration {
                assert(taken.connection.orderers_fit(provider));
            } else {
                let after = exchange.deliver_in_order(
                    local_id,
                    global_id,
                    order,
                    packet,
                    provider,
                ).after.connection;
                assert(after.remote == c.remote);
                assert(after.orderers_fit(provider));
            }
        },
    }
}

pub proof fn lemma_acknowledge(
    exchange: ExchangeView,
    resend_key: Option<SlotMapKey>,
    provider: ProviderView,
)
    requires
        exchange.connection.wf(provider),
    ensures
        exchange.acknowledge(resend_key).after.connection.wf(provider),
        exchange.acknowledge(resend_key).after.connection.local == exchange.connection.local,
        exchange.acknowledge(resend_key).after.connection.state == exchange.connection.state,
        exchange.acknowledge(resend_key).after.connection.remote == exchange.connection.remote,
{
    let c = exchange.connection;
    if let Some(key) = resend_key {
        key.law_round_trip(Seq::empty());
        lemma_send_wf(
            c.sending(exchange.outbox).forgetful(),
            c.state,
            super::acknowledge::ack_id(c.state, c.local.ack),
            super::provider::ack_channel_view(),
            c.unsent,
        );
    }
}

/// With no more room than for none, no packet has to make room for another.
pub proof fn lemma_no_victim(joiner: JoinerView, key: u32, victim: Option<u32>)
    requires
        joiner.capacity == 0,
        joiner.packets.dom().finite(),
        joiner.may_evict(key, victim),
    ensures
        victim is None,
{
    if let Some(v) = victim {
        assert(joiner.packets.dom().contains(v));
        assert(joiner.packets.dom() =~= Set::empty());
    }
}

proof fn lemma_join(
    exchange: ExchangeView,
    local_id: u32,
    global_id: u32,
    channel: ChannelView,
    metadata: PacketSegmentMetadata,
    segment: Seq<u8>,
    provider: ProviderView,
    now: u64,
)
    requires
        exchange.connection.wf(provider),
        provider.valid(),
        addressable(exchange.connection, local_id, global_id, channel, provider),
    ensures
        ({
            let after = exchange.join(
                local_id,
                global_id,
                channel,
                metadata,
                segment,
                provider,
                now,
            ).after.connection;
            &&& after.wf(provider)
            &&& after.local == exchange.connection.local
        }),
{
    let c = exchange.connection;
    let joined = c.joiner.add(metadata, segment, true, None);
    let after = exchange.with(ConnectionView { joiner: joined.joiner, ..c });
    assert(joined.joiner.packets.dom().finite());
    if let Ok(Some(segments)) = joined.result {
        if let Some(h) = parse_headers(channel, segments[0]).value {
            lemma_deliver_in_order(
                after,
                local_id,
                global_id,
                channel,
                h.order,
                super::model::assembled(channel, segments),
                provider,
            );
        }
    }
}

/// Whatever packet arrives, the connection stays consistent, and the ids that this side has given
/// to its channels stay the same.
pub proof fn law_receive_keeps_wf(
    exchange: ExchangeView,
    payload: Seq<u8>,
    provider: ProviderView,
    now: u64,
)
    requires
        exchange.connection.wf(provider),
        provider.valid(),
    ensures
        exchange.receive(payload, provider, now).after.connection.wf(provider),
        exchange.receive(payload, provider, now).after.connection.local
            == exchange.connection.local,
{
    let primary = PrimaryPacketMetadata::<false>::parse(payload);
    let body = payload.skip(primary.used as int);
    if let Some(p) = primary.value {
        let c = exchange.connection.speculated(p.channel_id);
        lemma_transferred(exchange.connection, provider);
        assert(c.wf(provider));
        let after = exchange.with(c);
        if let Some(global) = c.remote.global_id(c.state, p.channel_id) {
            if let Some(channel) = channel_for(c.state, p.channel_id, global, provider) {
                if p.segment {
                    let metadata = PacketSegmentMetadata::parse(body);
                    let segment = body.skip(metadata.used as int);
                    if let Some(m) = metadata.value {
                        if let Some(h) = parse_headers(channel, segment).value {
                            lemma_acknowledge(after, h.resend_key, provider);
                            lemma_join(
                                after.acknowledge(h.resend_key).after,
                                p.channel_id,
                                global,
                                channel,
                                m,
                                segment,
                                provider,
                                now,
                            );
                        }
                    }
                } else {
                    let headers = parse_headers(channel, body);
                    if let Some(h) = headers.value {
                        lemma_acknowledge(after, h.resend_key, provider);
                        lemma_deliver_in_order(
                            after.acknowledge(h.resend_key).after,
                            p.channel_id,
                            global,
                            channel,
                            h.order,
                            body.skip(headers.used as int),
                            provider,
                        );
                    }
                }
            }
        }
    }
}

/// A connection nothing has happened to yet is consistent, whatever channels there are.
pub proof fn law_fresh_is_wf(provider: ProviderView, now: u64)
    ensures
        ConnectionView::fresh(now).wf(provider),
{
}

/// However much time passes, the connection stays consistent.
pub proof fn law_update_keeps_wf(
    connection: ConnectionView,
    delta: u32,
    outbox: Seq<Seq<u8>>,
    provider: ProviderView,
)
    requires
        connection.wf(provider),
    ensures
        connection.update(delta, outbox).after.wf(provider),
        connection.update(delta, outbox).after.local == connection.local,
{
    let resender = connection.resender;
    let aged = ConnectionView { resender: resender.aged(delta), ..connection };
    lemma_replaced_keeps_wf(resender.packets, aged_slots(resender.packets.values, delta));
    lemma_send_wf(
        aged.sending(outbox + resender.due(delta)).forgetful(),
        connection.state,
        super::acknowledge::ack_id(connection.state, connection.local.ack),
        super::provider::ack_channel_view(),
        connection.unsent,
    );
}

} // verus!
