//! What becomes of the channels that the other side registers.
use crate::net::handshake::law_name_round_trip;
use crate::net::id::{
    ConnectionState, CHANNEL_MANAGEMENT_CHANNEL_ID_REGISTRATION_STAGE, NULL_CHANNEL_ID,
};
use crate::net::initialize::name_bytes;
use crate::net::mapper::{law_insert, placed, without};
use crate::net::model::{ConnectionView, ExchangeView};
use crate::net::ordering::{order_distance, OrdererView};
use crate::net::packet::ConnectionError;
use crate::net::provider::ProviderView;
use crate::proto::encode::Encode;
use crate::proto::round_trip::RoundTrip;
use crate::proto::VarInt;
use vstd::prelude::*;
use vstd::utf8::encode_utf8;

verus! {

/// The orderer of the channel with the id `id`, if it has one.
pub open spec fn orderer_at(connection: ConnectionView, id: int) -> Option<OrdererView> {
    if 0 <= id < connection.orderers.basic.len() {
        connection.orderers.basic[id]
    } else {
        None
    }
}

/// A packet that gives a channel of a known name an id that is not beyond the end registers it. The
/// channel has the id from then on. If it is ordered, it has an orderer that has handed out nothing,
/// holds nothing and waits for the order 0, and that accepts exactly the orders that are less than
/// the channel's capacity ahead; if not, it has none. Every other channel keeps the orderer that it
/// has, whatever its id is now. Nothing else changes: neither the state, nor this side's ids, nor
/// what is sent or kept or was delivered.
pub proof fn law_channel_is_registered(
    exchange: ExchangeView,
    global_id: u32,
    name: Seq<char>,
    id: u32,
    provider: ProviderView,
)
    requires
        exchange.connection.coherent(provider),
        provider.valid(),
        exchange.connection.state is Registration,
        provider.names.contains_key(name),
        0 < name.len(),
        encode_utf8(name).len() <= 500,
        id <= exchange.connection.remote.locals.len() < NULL_CHANNEL_ID,
    ensures
        ({
            let before = exchange.connection;
            let outcome = exchange.deliver(
                CHANNEL_MANAGEMENT_CHANNEL_ID_REGISTRATION_STAGE,
                global_id,
                name_bytes(name) + VarInt(id).encoding(),
                provider,
            );
            let after = outcome.after.connection;
            let global = provider.names[name];
            &&& outcome.result is Ok
            &&& after.remote.global_id(ConnectionState::Transfer, id) == Some(global)
            &&& after.remote.local_id(ConnectionState::Transfer, global) == Some(id)
            &&& match provider.channels[global].orderability {
                Some(capacity) => {
                    &&& orderer_at(after, id as int) matches Some(orderer)
                    &&& orderer.next == 0
                    &&& orderer.pending =~= Map::empty()
                    &&& orderer.capacity == capacity
                    &&& forall|order: usize| #[trigger] orderer.accepts(order) <==> order < capacity
                },
                None => orderer_at(after, id as int) is None,
            }
            &&& forall|i: int, j: int|
                #![trigger before.remote.locals[i], after.remote.locals[j]]
                0 <= i < before.remote.locals.len() && 0 <= j < after.remote.locals.len()
                    && before.remote.locals[i] == after.remote.locals[j]
                    && before.remote.locals[i] != NULL_CHANNEL_ID && before.remote.locals[i]
                    != global ==> orderer_at(after, j) == orderer_at(before, i)
            &&& after.orderers.ack == before.orderers.ack
            &&& after.orderers.management == before.orderers.management
            &&& outcome.after == exchange.with(
                ConnectionView { remote: after.remote, orderers: after.orderers, ..before },
            )
        }),
{
    let before = exchange.connection;
    let packet = name_bytes(name) + VarInt(id).encoding();
    let global = provider.names[name];
    law_name_round_trip(name, VarInt(id).encoding());
    VarInt(id).law_round_trip(Seq::empty());
    assert(VarInt(id).encoding() + Seq::<u8>::empty() =~= VarInt(id).encoding());
    assert(packet.skip(name_bytes(name).len() as int) =~= VarInt(id).encoding());
    law_insert(before.remote, id, global, name);
    let after = before.registered_channel(id, global, name, provider.channels[global]);
    let locals = before.remote.locals;
    assert(after.remote.locals == placed(locals, id, global));
    if locals.contains(global) {
        assert(locals[locals.index_of(global)] == global);
    }
    assert forall|i: int, j: int|
        #![trigger locals[i], after.remote.locals[j]]
        0 <= i < locals.len() && 0 <= j < after.remote.locals.len() && locals[i]
            == after.remote.locals[j] && locals[i] != NULL_CHANNEL_ID && locals[i]
            != global implies orderer_at(after, j) == orderer_at(before, i) by {
        let k = if j < id {
            j
        } else {
            j - 1
        };
        let source = if locals.contains(global) && id <= without(locals, global).len() && k
            >= locals.index_of(global) {
            k + 1
        } else {
            k
        };
        assert(j != id);
        assert(after.remote.locals[j] == locals[source]);
        assert(source == i);
    }
    if let Some(capacity) = provider.channels[global].orderability {
        let orderer = orderer_at(after, id as int).unwrap();
        assert forall|order: usize| #[trigger] orderer.accepts(order) <==> order < capacity by {
            assert(order_distance(0, order) == order);
        }
    }
}

/// A packet that gives a channel an id beyond the end, or whose channel has an unknown name, is
/// refused, and nothing changes.
pub proof fn law_registration_is_refused(
    exchange: ExchangeView,
    global_id: u32,
    name: Seq<char>,
    id: u32,
    provider: ProviderView,
)
    requires
        exchange.connection.state is Registration,
        0 < name.len(),
        encode_utf8(name).len() <= 500,
        !provider.names.contains_key(name) || id > exchange.connection.remote.locals.len(),
    ensures
        exchange.deliver(
            CHANNEL_MANAGEMENT_CHANNEL_ID_REGISTRATION_STAGE,
            global_id,
            name_bytes(name) + VarInt(id).encoding(),
            provider,
        ) == exchange.fail(
            if provider.names.contains_key(name) {
                ConnectionError::ChannelRegistrationStageInvalidValue
            } else {
                ConnectionError::UnknownChannel
            },
        ),
{
    let packet = name_bytes(name) + VarInt(id).encoding();
    law_name_round_trip(name, VarInt(id).encoding());
    VarInt(id).law_round_trip(Seq::empty());
    assert(VarInt(id).encoding() + Seq::<u8>::empty() =~= VarInt(id).encoding());
    assert(packet.skip(name_bytes(name).len() as int) =~= VarInt(id).encoding());
    assert(exchange.with(exchange.connection) == exchange);
}

/// The packet that tells that there are no more channels is taken note of. If this side's own last
/// packet is acknowledged by then, messages are exchanged from now on: no acknowledgement waits, no
/// key counts as received and no packet is kept any more, while the keys that were given to packets
/// stay used, and all the rest is as it was.
pub proof fn law_last_channel_is_told(exchange: ExchangeView, global_id: u32, provider: ProviderView)
    requires
        exchange.connection.state is Registration,
    ensures
        ({
            let before = exchange.connection;
            let key = before.state->last_packet_resend_key;
            let outcome = exchange.deliver(
                CHANNEL_MANAGEMENT_CHANNEL_ID_REGISTRATION_STAGE,
                global_id,
                name_bytes(""@),
                provider,
            );
            let after = outcome.after.connection;
            &&& outcome.result is Ok
            &&& outcome.after == exchange.with(after)
            &&& if key is Some {
                after == ConnectionView {
                    state: ConnectionState::Registration {
                        received_last_packet: true,
                        last_packet_resend_key: key,
                    },
                    ..before
                }
            } else {
                starts_to_transfer(before, after)
            }
        }),
{
    reveal_strlit("");
    assert(encode_utf8(""@) =~= Seq::empty());
    law_name_round_trip(""@, Seq::empty());
    assert(name_bytes(""@) + Seq::<u8>::empty() =~= name_bytes(""@));
}

/// Whether a side has gone over to exchanging messages.
pub open spec fn starts_to_transfer(before: ConnectionView, after: ConnectionView) -> bool {
    &&& after.state is Transfer
    &&& after.unsent.len() == 0
    &&& after.received =~= Set::empty()
    &&& after.resender.packets.values.len() == 0
    &&& after.resender.packets.free.len() == 0
    &&& after.resender.packets.generations == before.resender.packets.generations
    &&& after.resender.capacity == before.resender.capacity
    &&& after == ConnectionView {
        state: after.state,
        unsent: after.unsent,
        received: after.received,
        resender: after.resender,
        ..before
    }
}

} // verus!
