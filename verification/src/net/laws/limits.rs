//! Where sending, keeping and ordering reach their limits.
use crate::net::acknowledge::ack_id;
use crate::net::channel::ChannelView;
use crate::net::id::ConnectionState;
use crate::net::model::{ConnectionView, ExchangeView};
use crate::net::ordering::{lemma_handed_out_parts, lemma_run, order_after, order_distance};
use crate::net::packet::{packet_bytes, ConnectionError, SEGMENT_LEN};
use crate::net::provider::ProviderView;
use crate::net::resend::{aged_slots, PacketResenderError, PacketView, ResenderView};
use crate::net::send::{
    lemma_segment_at, lemma_segment_count, next_u32, segment_count, segment_of, SendingView,
};
use crate::util::slot_map::emptied;
use vstd::prelude::*;

verus! {

/// A payload is cut into segments of 1969 bytes, but for the last, which holds what is left, and
/// that is something.
pub proof fn law_segment_sizes(payload: Seq<u8>, i: nat)
    requires
        i < segment_count(payload.len()),
    ensures
        i + 1 < segment_count(payload.len()) ==> segment_of(payload, i) == payload.subrange(
            i as int * 1969,
            (i as int + 1) * 1969,
        ),
        i + 1 == segment_count(payload.len()) ==> segment_of(payload, i) == payload.skip(
            i as int * 1969,
        ),
        0 < segment_of(payload, i).len() <= 1969,
        (segment_count(payload.len()) - 1) * 1969 < payload.len() <= segment_count(payload.len())
            * 1969,
{
    let count = segment_count(payload.len());
    lemma_segment_count(payload.len());
    lemma_segment_at(payload.len(), i);
    lemma_segment_at(payload.len(), (count - 1) as nat);
    if i + 1 < count {
        lemma_segment_at(payload.len(), i + 1);
    }
}

/// A payload of up to 1980 bytes is sent in one packet, and a longer one in segments, of which the
/// first is the first 1969 bytes.
pub proof fn law_when_payloads_are_cut(
    sending: SendingView,
    state: ConnectionState,
    channel_id: u32,
    channel: ChannelView,
    payload: Seq<u8>,
)
    requires
        channel_id < 0x8000_0000,
        channel.reliability is None,
        payload.len() <= 0x1_0000 * 1969,
    ensures
        ({
            let outcome = sending.send(state, channel_id, channel, payload);
            &&& outcome.result is Ok
            &&& payload.len() <= 1980 ==> outcome.after.outbox.len() == sending.outbox.len() + 1
            &&& payload.len() > 1980 ==> outcome.after.outbox.len() == sending.outbox.len()
                + segment_count(payload.len())
        }),
{
    super::sending::law_sending_succeeds(sending, state, channel_id, channel, payload);
}

/// Where no more packets can be kept, nothing is sent through a reliable channel.
pub proof fn law_no_room_is_refused(
    sending: SendingView,
    state: ConnectionState,
    channel_id: u32,
    channel: ChannelView,
    payload: Seq<u8>,
)
    requires
        channel_id < 0x8000_0000,
        channel.reliability is Some,
        sending.resender.full(),
        payload.len() <= 0x1_0000 * 1969,
    ensures
        ({
            let outcome = sending.send(state, channel_id, channel, payload);
            &&& outcome.result == Err::<(), _>(
                ConnectionError::PacketResenderError(PacketResenderError::CapacityReached),
            )
            &&& outcome.after.outbox == sending.outbox
            &&& outcome.after.resender == sending.resender
        }),
{
    if payload.len() > 1980 {
        lemma_segment_count(payload.len());
        let count = segment_count(payload.len());
        if count > 0x1_0000 {
            lemma_segment_at(payload.len(), 0x1_0000);
        }
        lemma_segment_at(payload.len(), 0);
    }
}

/// A payload with more segments than can be numbered is not sent.
pub proof fn law_too_long_is_refused(
    sending: SendingView,
    state: ConnectionState,
    channel_id: u32,
    channel: ChannelView,
    payload: Seq<u8>,
)
    requires
        0x1_0000 * 1969 < payload.len() <= usize::MAX,
    ensures
        ({
            let outcome = sending.send(state, channel_id, channel, payload);
            &&& outcome.result == Err::<(), _>(ConnectionError::EncodeError)
            &&& outcome.after.outbox == sending.outbox
            &&& outcome.after.resender == sending.resender
        }),
{
    lemma_segment_count(payload.len());
    let count = segment_count(payload.len());
    let n = SEGMENT_LEN as nat;
    assert(count > 0x1_0000) by (nonlinear_arith)
        requires
            n == 1969,
            count * n >= payload.len() > 0x1_0000 * 1969,
    ;
    let ready = sending.ordered(state, channel_id, channel);
    let keyed = SendingView { segment_keys: next_u32(ready.segment_keys), ..ready };
    let order = sending.order(state, channel_id, channel);
    assert(keyed.send_segments(
        channel_id,
        channel,
        ready.segment_keys,
        order,
        payload,
        0,
    ).after == keyed);
}

/// A channel without an id of 31 bits cannot be sent through.
pub proof fn law_unnumbered_channel_is_refused(
    sending: SendingView,
    state: ConnectionState,
    channel_id: u32,
    channel: ChannelView,
    payload: Seq<u8>,
)
    requires
        channel_id >= 0x8000_0000,
    ensures
        ({
            let outcome = sending.send(state, channel_id, channel, payload);
            &&& outcome.result == Err::<(), _>(ConnectionError::EncodeError)
            &&& outcome.after.outbox == sending.outbox
            &&& outcome.after.resender == sending.resender
        }),
{
    lemma_segment_count(payload.len());
}

proof fn lemma_refused_one(
    exchange: ExchangeView,
    local_id: u32,
    global_id: u32,
    packets: Seq<Seq<u8>>,
    provider: ProviderView,
)
    ensures
        ({
            let outcome = exchange.deliver_all(local_id, global_id, packets, provider);
            &&& outcome.count <= packets.len()
            &&& outcome.result is Ok <==> outcome.count == packets.len()
        }),
    decreases packets.len(),
{
    if packets.len() > 0 {
        let one = exchange.deliver(local_id, global_id, packets[0], provider);
        lemma_refused_one(one.after, local_id, global_id, packets.skip(1), provider);
    }
}

/// A packet too far ahead on an ordered channel, or behind, is refused, and nothing changes. If
/// one of the packets whose turn has come is refused, then those before it are waited for no
/// longer, it waits no longer itself although it is its turn still, and those behind it wait as
/// before.
pub proof fn law_refused_packet_is_given_up(
    exchange: ExchangeView,
    local_id: u32,
    global_id: u32,
    order: u32,
    packet: Seq<u8>,
    provider: ProviderView,
)
    requires
        exchange.connection.orderers.holds(exchange.connection.state, local_id),
        exchange.connection.orderers.get(exchange.connection.state, local_id) is Some,
        exchange.connection.orderers.get(exchange.connection.state, local_id).unwrap().wf(),
    ensures
        ({
            let state = exchange.connection.state;
            let before = exchange.connection.orderers.get(state, local_id).unwrap();
            let outcome = exchange.deliver_in_order(
                local_id,
                global_id,
                Some(order),
                packet,
                provider,
            );
            let ahead = if order >= before.next {
                order - before.next
            } else {
                order - before.next + usize::MAX + 1
            };
            let waiting = before.pending.insert(order as usize, packet);
            if ahead >= before.capacity {
                &&& outcome.result == Err::<(), _>(
                    ConnectionError::PacketOrdererError(
                        crate::net::ordering::PacketOrdererError::CapacityReached,
                    ),
                )
                &&& outcome.after == exchange
            } else {
                let after = outcome.after.connection.orderers.get(state, local_id);
                let n = order_distance(before.next, after.unwrap().next);
                &&& after is Some
                &&& after.unwrap().capacity == before.capacity
                &&& after.unwrap().next == order_after(before.next, n)
                &&& forall|o: usize| #[trigger]
                    after.unwrap().pending.contains_key(o) <==> waiting.contains_key(o)
                        && order_distance(before.next, o) >= n + (if outcome.result is Ok {
                        0int
                    } else {
                        1
                    })
                &&& forall|o: usize| #[trigger]
                    after.unwrap().pending.contains_key(o) ==> after.unwrap().pending[o]
                        == waiting[o]
            }
        }),
{
    let state = exchange.connection.state;
    let before = exchange.connection.orderers.get(state, local_id).unwrap();
    if before.accepts(order as usize) {
        let pushed = before.push(order as usize, packet);
        let taken = exchange.with_orderer(state, local_id, None);
        let delivery = taken.deliver_all(local_id, global_id, pushed.ready(), provider);
        lemma_refused_one(taken, local_id, global_id, pushed.ready(), provider);
        lemma_run(pushed.pending, pushed.next, pushed.capacity as nat);
        lemma_handed_out_parts(pushed, delivery.count);
        lemma_orderers_stay_long(taken, local_id, global_id, pushed.ready(), provider, state);
        let next = order_after(before.next, delivery.count as int);
        assert(order_distance(before.next, next) == delivery.count);
        assert forall|o: usize| order_distance(before.next, o) == delivery.count implies o == next by {
        }
    }
}

/// Delivering keeps the places of the orderers that are there.
proof fn lemma_orderers_stay_long(
    exchange: ExchangeView,
    local_id: u32,
    global_id: u32,
    packets: Seq<Seq<u8>>,
    provider: ProviderView,
    state: ConnectionState,
)
    requires
        state is Transfer ==> exchange.connection.state is Transfer,
    ensures
        ({
            let after = exchange.deliver_all(
                local_id,
                global_id,
                packets,
                provider,
            ).after.connection;
            state is Transfer ==> after.state is Transfer && after.orderers
                == exchange.connection.orderers
        }),
    decreases packets.len(),
{
    if packets.len() > 0 {
        let one = exchange.deliver(local_id, global_id, packets[0], provider);
        lemma_orderers_stay_long(one.after, local_id, global_id, packets.skip(1), provider, state);
    }
}

proof fn lemma_emptied<T>(before: Seq<Option<T>>, after: Seq<Option<T>>, n: nat)
    requires
        n <= before.len() == after.len() <= u32::MAX + 1,
    ensures
        ({
            let slots = emptied(before, after, n);
            &&& forall|a: int, b: int| 0 <= a < b < slots.len() ==> slots[a] < slots[b]
            &&& forall|a: int| 0 <= a < slots.len() ==> (#[trigger] slots[a] as int) < n
            &&& forall|slot: u32| #[trigger]
                slots.contains(slot) <==> slot < n && before[slot as int] is Some
                    && after[slot as int] is None
        }),
    decreases n,
{
    if n > 0 {
        lemma_emptied(before, after, (n - 1) as nat);
        let rest = emptied(before, after, (n - 1) as nat);
        let slots = emptied(before, after, n);
        assert forall|slot: u32| #[trigger] slots.contains(slot) <==> slot < n
            && before[slot as int] is Some && after[slot as int] is None by {
            if rest.contains(slot) {
                let k = choose|k: int| 0 <= k < rest.len() && rest[k] == slot;
                assert(slots[k] == slot);
            }
            if slot == n - 1 && before[slot as int] is Some && after[slot as int] is None {
                assert(slots[rest.len() as int] == slot);
            }
            if slots.contains(slot) && !(slot == n - 1) {
                let k = choose|k: int| 0 <= k < slots.len() && slots[k] == slot;
                assert(rest[k] == slot);
            }
        }
    }
}

/// The slots of packets that are dropped because their attempts are used up are free from then on,
/// behind those that are free already, the lowest first; no other slot becomes free.
pub proof fn law_slots_of_dropped_packets(resender: ResenderView, delta: u32)
    requires
        resender.wf(),
    ensures
        ({
            let before = resender.packets;
            let after = resender.aged(delta).packets;
            let freed = after.free.skip(before.free.len() as int);
            &&& after.free.len() >= before.free.len()
            &&& after.free.take(before.free.len() as int) == before.free
            &&& forall|a: int, b: int| 0 <= a < b < freed.len() ==> freed[a] < freed[b]
            &&& forall|slot: u32| #[trigger]
                freed.contains(slot) <==> slot < before.values.len() && (
                before.values[slot as int] matches Some(packet) && packet.current_time + delta
                    >= packet.resend_interval && packet.resend_attempts <= 1)
        }),
{
    let before = resender.packets;
    let values = aged_slots(before.values, delta);
    let after = resender.aged(delta).packets;
    lemma_emptied(before.values, values, before.values.len());
    let slots = emptied(before.values, values, before.values.len());
    assert(after.free.skip(before.free.len() as int) =~= slots);
    assert(after.free.take(before.free.len() as int) =~= before.free);
}

/// When time passes, the packets whose time is up are sent again first; then the acknowledgements
/// that wait are sent through the acknowledgement channel, be there any or not. That goes well
/// exactly if one more packet can be kept.
pub proof fn law_what_is_sent_as_time_passes(
    connection: ConnectionView,
    delta: u32,
    outbox: Seq<Seq<u8>>,
    provider: ProviderView,
)
    requires
        connection.wf(provider),
        connection.initialized(),
    ensures
        ({
            let update = connection.update(delta, outbox);
            let aged = connection.resender.aged(delta);
            let resent = outbox + connection.resender.due(delta);
            let key = aged.packets.next_key();
            let id = match connection.state {
                ConnectionState::Registration { .. } => 0x7fff_fffeu32,
                ConnectionState::Transfer => connection.local.ack,
            };
            if aged.full() {
                &&& update.result == Err::<(), _>(
                    ConnectionError::PacketResenderError(PacketResenderError::CapacityReached),
                )
                &&& update.outbox == resent
                &&& update.after.unsent == connection.unsent
                &&& update.after.resender == aged
            } else {
                let packet = packet_bytes(id, None, None, Some(key), connection.unsent);
                &&& update.result is Ok
                &&& update.outbox == resent.push(packet)
                &&& update.after.unsent.len() == 0
                &&& update.after.resender == aged.add(
                    PacketView {
                        payload: packet,
                        resend_interval: 750,
                        resend_attempts: u32::MAX,
                        current_time: 0,
                    },
                )
            }
        }),
{
    assert(connection.local.locals.len() <= 0x7fff_ffff);
    assert(ack_id(connection.state, connection.local.ack) < 0x8000_0000);
}

/// A packet that arrives for the first time is acknowledged at once only if the bytes that wait
/// and its key do not fit into 1980 bytes together, and that goes well exactly if one more packet
/// can be kept; otherwise its key waits.
pub proof fn law_when_acknowledgements_are_sent(
    exchange: ExchangeView,
    key: crate::util::slot_map::SlotMapKey,
    provider: ProviderView,
)
    requires
        exchange.connection.wf(provider),
        exchange.connection.initialized(),
        !exchange.connection.received.contains(key),
    ensures
        ({
            let before = exchange.connection;
            let outcome = exchange.acknowledge(Some(key));
            let bytes = crate::proto::encode::Encode::encoding(&key);
            let fits = before.unsent.len() + bytes.len() <= 1980;
            &&& outcome.result is Ok <==> fits || !before.resender.full()
            &&& outcome.result is Err ==> outcome.result == Err::<(), _>(
                ConnectionError::PacketResenderError(PacketResenderError::CapacityReached),
            )
            &&& outcome.after.outbox.len() == exchange.outbox.len() + (if fits
                || before.resender.full() {
                0int
            } else {
                1
            })
        }),
{
    let before = exchange.connection;
    assert(before.local.locals.len() <= 0x7fff_ffff);
    assert(ack_id(before.state, before.local.ack) < 0x8000_0000);
}

} // verus!
