//! How a connection starts, and when it goes over to exchanging messages.
use super::registering::starts_to_transfer;
use crate::net::channel::Channel;
use crate::net::channel_data::ChannelDataView;
use crate::net::connection::buffers_view;
use crate::net::consistency::lemma_send_wf;
use crate::net::channel_data::ConnectionChannelMessageSwapBuffer;
use crate::net::handshake::law_name_round_trip;
use crate::net::id::{ConnectionState, CHANNEL_MANAGEMENT_CHANNEL_ID_REGISTRATION_STAGE};
use crate::net::initialize::{
    by_frequency, law_initialize, ids_of, is_listing, name_bytes, short_names, NamedId,
};
use crate::net::model::{ConnectionView, ExchangeView, UpdateOutcome};
use crate::net::packet::{ConnectionError, PrimaryPacketMetadata};
use crate::net::provider::{
    ack_channel_view, channel_management_channel_view, ProviderView,
};
use crate::net::resend::{PacketResenderError, PacketView};
use crate::net::server::{reports, step_of, UpdatedPeer};
use crate::proto::decode::Decode;
use crate::proto::encode::Encode;
use crate::proto::round_trip::RoundTrip;
use crate::proto::VarInt;
use crate::util::bytes::contents;
use crate::util::slot_map::{entry_of, law_add_then_get, lemma_distinct_below, SlotMapKey};
use vstd::prelude::*;
use vstd::utf8::encode_utf8;

verus! {

/// How many packets more the reliable channels of a list ask to be kept.
pub open spec fn asked_capacity(all: Seq<NamedId>, provider: ProviderView) -> int
    decreases all.len(),
{
    if all.len() == 0 {
        0
    } else {
        let first = provider.channels[all[0].id];
        asked_capacity(all.skip(1), provider) + (if first.reliability is Some {
            first.reliability.unwrap().additional_capacity as int
        } else {
            0
        })
    }
}

/// Of two lists one behind the other, each asks for its own.
proof fn lemma_asked_capacity_push(all: Seq<NamedId>, last: NamedId, provider: ProviderView)
    ensures
        asked_capacity(all.push(last), provider) == asked_capacity(all, provider) + asked_capacity(
            seq![last],
            provider,
        ),
    decreases all.len(),
{
    if all.len() == 0 {
        assert(all.push(last) =~= seq![last]);
    } else {
        lemma_asked_capacity_push(all.skip(1), last, provider);
        assert(all.push(last).skip(1) =~= all.skip(1).push(last));
    }
}

proof fn lemma_added_capacity(all: Seq<NamedId>, n: nat, provider: ProviderView)
    requires
        n <= all.len(),
    ensures
        crate::net::initialize::added_capacity(all, n, provider) == asked_capacity(
            all.take(n as int),
            provider,
        ),
    decreases n,
{
    if n > 0 {
        let before = all.take(n - 1);
        let last = all[n - 1];
        lemma_added_capacity(all, (n - 1) as nat, provider);
        lemma_asked_capacity_push(before, last, provider);
        assert(all.take(n as int) =~= before.push(last));
        assert(seq![last].skip(1) =~= Seq::<NamedId>::empty());
        assert(asked_capacity(seq![last].skip(1), provider) == 0);
    } else {
        assert(all.take(0) =~= Seq::<NamedId>::empty());
    }
}

/// What giving ids to channels leaves as it was.
spec fn same_but_told(before: ConnectionView, after: ConnectionView) -> bool {
    &&& after.state == before.state
    &&& after.remote == before.remote
    &&& after.unsent == before.unsent
    &&& after.received == before.received
    &&& after.segment_keys == before.segment_keys
    &&& after.orderers == before.orderers
    &&& after.joiner == before.joiner
    &&& after.last_time_received_packet == before.last_time_received_packet
    &&& after.orders.ack == before.orders.ack
    &&& after.resender.capacity == before.resender.capacity
}

/// Whether this is the id of none of the channels from the `from`-th on.
pub open spec fn is_unlisted(all: Seq<NamedId>, from: nat, id: u32) -> bool {
    forall|i: int| from <= i < all.len() ==> (#[trigger] all[i]).id != id
}

/// Whether nothing waits in the buffers of the channels from the `from`-th on, and all other
/// buffers are as they were.
pub open spec fn buffers_are_empty(
    before: Map<u32, Seq<Seq<u8>>>,
    after: Map<u32, Seq<Seq<u8>>>,
    all: Seq<NamedId>,
    from: nat,
) -> bool {
    &&& forall|i: int|
        from <= i < all.len() ==> after.contains_key((#[trigger] all[i]).id)
            && after[all[i].id].len() == 0
    &&& others_stay(before, after, all, from)
}

/// Whether the buffers of channels that are not listed from the `from`-th on are as they were.
pub open spec fn others_stay(
    before: Map<u32, Seq<Seq<u8>>>,
    after: Map<u32, Seq<Seq<u8>>>,
    all: Seq<NamedId>,
    from: nat,
) -> bool {
    forall|id: u32| #[trigger]
        is_unlisted(all, from, id) ==> (after.contains_key(id) <==> before.contains_key(id))
            && (before.contains_key(id) ==> after[id] == before[id])
}

proof fn lemma_short_payload(name: Seq<char>, local_id: u32)
    requires
        encode_utf8(name).len() <= 500,
    ensures
        (name_bytes(name) + VarInt(local_id).encoding()).len() <= 1980,
        name_bytes(name).len() <= 1980,
{
    law_name_round_trip(name, Seq::empty());
    VarInt(local_id).law_round_trip(Seq::empty());
}

proof fn lemma_told_by(exchange: ExchangeView, all: Seq<NamedId>, from: nat)
    requires
        from <= all.len() <= 0x7fff_ffff,
        exchange.connection.orders.basic.len() >= from,
        exchange.connection.resender.wf(),
        exchange.connection.state is Registration,
        forall|i: int| 0 <= i < from ==> #[trigger] exchange.connection.orders.basic[i] == 0,
    ensures
        ({
            let outcome = exchange.announce_all(all, from);
            let after = outcome.after;
            &&& same_but_told(exchange.connection, after.connection)
            &&& after.connection.resender.wf()
            &&& outcome.result is Ok <==> short_names(all, from)
            &&& outcome.result is Err ==> outcome.result == Err::<(), _>(
                ConnectionError::EncodeError,
            )
            &&& outcome.result is Ok ==> after.connection.orders.basic.len() >= all.len()
                && forall|i: int|
                0 <= i < all.len() ==> #[trigger] after.connection.orders.basic[i] == 0
            &&& outcome.result is Ok ==> buffers_are_empty(
                exchange.buffers,
                after.buffers,
                all,
                from,
            )
            &&& others_stay(exchange.buffers, after.buffers, all, from)
        }),
    decreases all.len() - from,
{
    if from < all.len() {
        let channel = all[from as int];
        if encode_utf8(channel.name).len() <= 500 {
            lemma_short_payload(channel.name, from as u32);
            let given = exchange.with(exchange.connection.given(from as u32, channel));
            lemma_send_wf(
                given.connection.sending(exchange.outbox),
                exchange.connection.state,
                CHANNEL_MANAGEMENT_CHANNEL_ID_REGISTRATION_STAGE,
                channel_management_channel_view(),
                name_bytes(channel.name) + VarInt(from as u32).encoding(),
            );
            let next = exchange.announce(from as u32, channel);
            lemma_told_by(next, all, from + 1);
            assert(short_names(all, from) <==> short_names(all, from + 1));
            let after = exchange.announce_all(all, from).after;
            assert forall|id: u32| #[trigger] is_unlisted(all, from, id) implies is_unlisted(
                all,
                from + 1,
                id,
            ) && id != channel.id by {
                assert(all[from as int].id != id);
            }
            assert(others_stay(exchange.buffers, after.buffers, all, from));
            if exchange.announce_all(all, from).result is Ok {
                assert forall|i: int| from <= i < all.len() implies after.buffers.contains_key(
                    (#[trigger] all[i]).id,
                ) && after.buffers[all[i].id].len() == 0 by {
                    if i == from && is_unlisted(all, from + 1, channel.id) {
                        assert(after.buffers[channel.id] == next.buffers[channel.id]);
                    } else if i == from {
                        let j = choose|j: int|
                            from + 1 <= j < all.len() && (#[trigger] all[j]).id == channel.id;
                        assert(after.buffers.contains_key(all[j].id));
                    }
                }
            }
        } else {
            assert(!short_names(all, from));
        }
    }
}

/// When a connection starts, as many packets more can be kept as the reliable channels ask for, the
/// first message of every channel has the order zero, and no message waits in any of them. A name
/// of more than 500 bytes is refused, and so is the last packet if it cannot be kept; otherwise
/// that packet is kept, and its acknowledgement is waited for. All else stays as it was.
pub proof fn law_connection_starts(
    exchange: ExchangeView,
    all: Seq<NamedId>,
    provider: ProviderView,
)
    requires
        exchange.connection.wf(provider),
        exchange.connection.state is Registration,
        exchange.connection.local.locals.len() == 0,
        is_listing(all, provider),
        provider.valid(),
    ensures
        ({
            let before = exchange.connection;
            let outcome = exchange.initialize(all, provider);
            let after = outcome.after.connection;
            let room = before.resender.capacity + asked_capacity(all, provider);
            &&& outcome.result is Err ==> outcome.result == Err::<(), _>(
                if exists|i: int|
                    0 <= i < all.len() && encode_utf8((#[trigger] all[i]).name).len() > 500 {
                    ConnectionError::EncodeError
                } else {
                    ConnectionError::PacketResenderError(PacketResenderError::CapacityReached)
                },
            )
            &&& after.resender.capacity == (if room <= usize::MAX {
                room
            } else {
                usize::MAX as int
            })
            &&& after.remote == before.remote
            &&& after.unsent == before.unsent
            &&& after.received == before.received
            &&& after.segment_keys == before.segment_keys
            &&& after.orderers == before.orderers
            &&& after.joiner == before.joiner
            &&& after.last_time_received_packet == before.last_time_received_packet
            &&& after.orders.ack == before.orders.ack
            &&& outcome.result is Ok ==> {
                &&& after.orders.basic.len() >= all.len()
                &&& forall|i: int| 0 <= i < all.len() ==> #[trigger] after.orders.basic[i] == 0
                &&& buffers_are_empty(exchange.buffers, outcome.after.buffers, all, 0)
                &&& after.state is Registration
                &&& after.state->received_last_packet == before.state->received_last_packet
                &&& after.state->last_packet_resend_key is Some
                &&& after.resender.packets.get(after.state->last_packet_resend_key.unwrap())
                    == Some(
                    PacketView {
                        payload: outcome.after.outbox.last(),
                        resend_interval: 100,
                        resend_attempts: u32::MAX,
                        current_time: 0,
                    },
                )
            }
            &&& others_stay(exchange.buffers, outcome.after.buffers, all, 0)
        }),
{
    let ids = ids_of(all);
    assert forall|i: int| 0 <= i < ids.len() implies (#[trigger] ids[i] as int) < 0x7fff_ffff by {
        assert(provider.names.contains_key(all[i].name));
    }
    lemma_distinct_below(ids, 0x7fff_ffff);
    let added = crate::net::initialize::added_capacity(all, all.len(), provider);
    lemma_added_capacity(all, all.len(), provider);
    assert(all.take(all.len() as int) =~= all);
    let enlarged = exchange.with(exchange.connection.enlarged(added));
    lemma_told_by(enlarged, all, 0);
    law_initialize(exchange, all, provider);
    let told = enlarged.announce_all(all, 0);
    reveal_strlit("");
    assert(encode_utf8(""@) =~= Seq::empty());
    lemma_short_payload(""@, 0);
    if told.result is Ok {
        assert(short_names(all, 0));
        let slots = told.after.connection.resender.packets;
        let sent = told.after.tell(name_bytes(""@));
        if sent.result is Ok {
            let packet = PacketView {
                payload: sent.after.outbox.last(),
                resend_interval: 100,
                resend_attempts: u32::MAX,
                current_time: 0,
            };
            law_add_then_get(slots, Some(packet), slots.next_key());
            assert(sent.after.resender.packets == slots.add(Some(packet)));
            assert(sent.after.resend_keys[0] == slots.next_key());
        }
    } else {
        assert(!short_names(all, 0));
    }
}

/// A new connection knows no channels, keeps and awaits nothing, and has heard from the other side
/// just now; it can put up to a thousand packets of the other side's registration in order.
pub proof fn law_new_connection(now: u64)
    ensures
        ({
            let fresh = ConnectionView::fresh(now);
            &&& fresh.state is Registration
            &&& !fresh.state->received_last_packet
            &&& fresh.state->last_packet_resend_key is None
            &&& fresh.local.locals.len() == 0 && fresh.remote.locals.len() == 0
            &&& fresh.local.ack_channel_id() is None && fresh.remote.ack_channel_id() is None
            &&& fresh.local.management_channel_id() is None
            &&& fresh.remote.management_channel_id() is None
            &&& fresh.unsent.len() == 0
            &&& fresh.received =~= Set::empty()
            &&& fresh.resender.capacity == 0 && fresh.resender.packets.len() == 0
            &&& fresh.resender.packets.generations.len() == 0
            &&& fresh.segment_keys == 0
            &&& fresh.orders.basic.len() == 0 && fresh.orders.ack == 0 && fresh.orders.management
                == 0
            &&& fresh.orderers.basic.len() == 0 && fresh.orderers.ack is None
            &&& fresh.orderers.management matches Some(orderer) && orderer.next == 0
                && orderer.capacity == 1000 && orderer.pending =~= Map::empty()
            &&& fresh.joiner.packets =~= Map::empty() && fresh.joiner.capacity == 0
            &&& fresh.last_time_received_packet == now
        }),
{
}

/// When the other side has told its last channel and a packet comes whose channel is none of the
/// registration stage, the packet is handled as it is by a side that has gone over to exchanging
/// messages.
pub proof fn law_packet_of_the_next_stage(
    exchange: ExchangeView,
    ahead: ExchangeView,
    payload: Seq<u8>,
    provider: ProviderView,
    now: u64,
)
    requires
        exchange.connection.state is Registration,
        exchange.connection.state->received_last_packet,
        starts_to_transfer(exchange.connection, ahead.connection),
        ahead == exchange.with(ahead.connection),
    ensures
        PrimaryPacketMetadata::<false>::parse(payload).value matches Some(start) && (
        start.channel_id < 0x7fff_fffd || start.channel_id > 0x7fff_fffe) ==> exchange.receive(
            payload,
            provider,
            now,
        ) == ahead.receive(payload, provider, now),
{
    assert(ahead.connection =~= exchange.connection.transferred());
}

/// As long as the other side has not told its last channel, packets on channels that are none of
/// the registration stage are refused, and nothing changes.
pub proof fn law_packet_comes_too_early(
    exchange: ExchangeView,
    payload: Seq<u8>,
    provider: ProviderView,
    now: u64,
)
    requires
        exchange.connection.state is Registration,
        !exchange.connection.state->received_last_packet,
    ensures
        PrimaryPacketMetadata::<false>::parse(payload).value matches Some(start) && (
        start.channel_id < 0x7fff_fffd || start.channel_id > 0x7fff_fffe) ==> {
            let outcome = exchange.receive(payload, provider, now);
            outcome.result == Err::<(), _>(ConnectionError::UnknownChannel) && outcome.after
                == exchange
        },
{
    assert(exchange.with(exchange.connection) == exchange);
}

/// What the two channels that the protocol uses itself are like: acknowledgements are sent again
/// every 750 milliseconds and in no order, registrations every 100 milliseconds and in order, both
/// for as long as it takes; each asks for room for 300 packets.
pub proof fn law_own_channels()
    ensures
        ack_channel_view().orderability is None,
        ack_channel_view().frequency == 0x10_0000,
        ack_channel_view().reliability matches Some(r) && r.resend_interval == 750
            && r.resend_attempts == u32::MAX && r.additional_capacity == 300,
        channel_management_channel_view().orderability == Some(1000usize),
        channel_management_channel_view().frequency == 0,
        channel_management_channel_view().reliability matches Some(r) && r.resend_interval == 100
            && r.resend_attempts == u32::MAX && r.additional_capacity == 300,
{
}

/// A channel's model says of the channel what the channel says of itself.
pub proof fn law_channel_in_numbers(channel: Channel)
    ensures
        channel@.frequency == channel.frequency.0,
        channel.reliability is Some <==> channel@.reliability is Some,
        channel.orderability is Some <==> channel@.orderability is Some,
        channel.orderability matches Some(o) ==> channel@.orderability == Some(o.capacity@),
        channel.reliability matches Some(r) ==> {
            let asked = channel@.reliability.unwrap();
            &&& asked.resend_interval == r.resend_interval@
            &&& asked.resend_attempts == r.resend_attempts
            &&& asked.additional_capacity == r.additional_capacity
        },
{
}

/// In a list that is in the order of frequencies, no channel is used less often than one behind it.
pub proof fn law_frequent_channels_first(all: Seq<NamedId>, provider: ProviderView)
    ensures
        by_frequency(all, provider) <==> forall|i: int, j: int|
            0 <= i < j < all.len() && provider.channels[(#[trigger] all[i]).id].frequency
                < provider.channels[(#[trigger] all[j]).id].frequency ==> false,
{
}

/// What is reported of a peer that was updated is what came of the update: the packets in their
/// order, and the error if there is one.
pub proof fn law_update_is_reported(updated: UpdatedPeer, outcome: UpdateOutcome)
    requires
        reports(updated, outcome),
    ensures
        updated.packets@.len() == outcome.outbox.len(),
        forall|i: int|
            0 <= i < outcome.outbox.len() ==> (#[trigger] updated.packets@[i])@
                == outcome.outbox[i],
        updated.error is Some <==> outcome.result is Err,
        updated.error matches Some(e) ==> outcome.result == Err::<(), _>(e),
{
    assert forall|i: int| 0 <= i < outcome.outbox.len() implies (
    #[trigger] updated.packets@[i])@ == outcome.outbox[i] by {
        assert(contents(updated.packets@)[i] == outcome.outbox[i]);
    }
}

/// The milliseconds that have passed are told in 32 bits.
pub proof fn law_step(delta: u64, more: u64)
    ensures
        delta < 0x1_0000_0000 ==> step_of(delta) == delta,
        more as int == delta + 0x1_0000_0000 ==> step_of(more) == step_of(delta),
{
}

/// The messages that wait in each buffer, as plain values.
pub proof fn law_buffers_in_plain_values(
    buffers: Map<u32, ConnectionChannelMessageSwapBuffer>,
    id: u32,
)
    ensures
        buffers_view(buffers).contains_key(id) <==> buffers.contains_key(id),
        buffers.contains_key(id) ==> buffers_view(buffers)[id] == buffers[id]@,
{
}

/// A channel that gets a value has it, and every other channel keeps the one that it has.
pub proof fn law_set_then_get<T: Default>(
    data: ChannelDataView<T>,
    state: ConnectionState,
    id: u32,
    value: T,
    after: ChannelDataView<T>,
    other: u32,
)
    requires
        data.set_to(state, id, value, after),
        state is Transfer || id == 0x7fff_fffe || id == 0x7fff_fffd,
    ensures
        after.holds(state, id),
        after.get(state, id) == value,
        other != id && data.holds(state, other) ==> after.holds(state, other) && after.get(
            state,
            other,
        ) == data.get(state, other),
        state is Transfer ==> after.ack == data.ack && after.management == data.management,
        state is Registration ==> after.basic == data.basic,
        after.basic.len() >= data.basic.len(),
{
}

/// In a map with keys from elsewhere, a value that was put at a key is found there, no other key of
/// its index names anything, and the keys of other indices name what they did; what is removed is
/// found no longer.
pub proof fn law_entries<T>(map: Map<u32, (u32, T)>, key: SlotMapKey, value: T, other: SlotMapKey)
    ensures
        entry_of(map.insert(key.index, (key.generation, value)), key) == Some(value),
        other != key && other.index == key.index ==> entry_of(
            map.insert(key.index, (key.generation, value)),
            other,
        ) is None,
        other.index != key.index ==> entry_of(
            map.insert(key.index, (key.generation, value)),
            other,
        ) == entry_of(map, other),
        entry_of(map.remove(key.index), key) is None,
        other.index != key.index ==> entry_of(map.remove(key.index), other) == entry_of(
            map,
            other,
        ),
        entry_of(Map::<u32, (u32, T)>::empty(), key) is None,
{
}

} // verus!
