//! What one side tells about its channels is what the other side learns.
use super::consistency::lemma_deliver;
use super::id::{ConnectionState, CHANNEL_MANAGEMENT_CHANNEL_ID_REGISTRATION_STAGE, NULL_CHANNEL_ID};
use super::initialize::{added_capacity, ids_of, is_listing, name_bytes, short_names, NamedId};
use super::mapper::{law_insert, ACK_CHANNEL_NAME};
use super::model::{ConnectionView, ExchangeView};
use super::packet::{packet_bytes, ChannelName, MAX_NON_SEGMENTED_PAYLOAD_LEN};
use super::provider::ProviderView;
use crate::proto::decode::Decode;
use crate::proto::encode::Encode;
use crate::proto::num::Parsed;
use crate::proto::round_trip::RoundTrip;
use crate::proto::VarInt;
use crate::util::slot_map::{lemma_distinct_below, SlotMapKey};
use vstd::prelude::*;
use vstd::utf8::{encode_utf8, encode_utf8_decode_utf8, encode_utf8_valid_utf8};

verus! {

/// What is told about the `i`-th channel; after the last one, that there are no more.
pub open spec fn told(all: Seq<NamedId>, i: int) -> Seq<u8> {
    if i < all.len() {
        name_bytes(all[i].name) + VarInt(i as u32).encoding()
    } else {
        name_bytes(""@)
    }
}

/// The packet in which it is told.
pub open spec fn told_packet(all: Seq<NamedId>, i: int) -> Seq<u8> {
    packet_bytes(
        CHANNEL_MANAGEMENT_CHANNEL_ID_REGISTRATION_STAGE,
        None,
        Some(i as u32),
        Some(SlotMapKey { index: i as u32, generation: 0 }),
        told(all, i),
    )
}

/// Reading a name that was sent gives the name, whatever follows it.
pub proof fn law_name_round_trip(name: Seq<char>, rest: Seq<u8>)
    requires
        encode_utf8(name).len() <= 500,
    ensures
        ChannelName::parse(name_bytes(name) + rest) == (Parsed {
            value: Some(name),
            used: name_bytes(name).len(),
        }),
        name_bytes(name).len() <= 505,
{
    let bytes = encode_utf8(name);
    let head = VarInt(bytes.len() as u32);
    head.law_round_trip(bytes + rest);
    encode_utf8_valid_utf8(name);
    encode_utf8_decode_utf8(name);
    let whole = name_bytes(name) + rest;
    assert(whole =~= head.encoding() + (bytes + rest));
    assert(whole.subrange(
        head.encoding().len() as int,
        (head.encoding().len() + bytes.len()) as int,
    ) =~= bytes);
}

/// How far a new connection has come when `n` packets were sent.
spec fn has_told(connection: ConnectionView, n: nat) -> bool {
    let slots = connection.resender.packets;
    &&& connection.state is Registration
    &&& connection.orders.management == n
    &&& slots.values.len() == n
    &&& slots.generations.len() == n
    &&& slots.free.len() == 0
}

proof fn lemma_told_len(all: Seq<NamedId>, i: int)
    requires
        0 <= i <= all.len(),
        short_names(all, 0),
    ensures
        told(all, i).len() <= MAX_NON_SEGMENTED_PAYLOAD_LEN,
{
    reveal_strlit("");
    assert(encode_utf8(""@) =~= Seq::empty());
    law_name_round_trip(""@, Seq::empty());
    if i < all.len() {
        assert(encode_utf8(all[i].name).len() <= 500);
        law_name_round_trip(all[i].name, Seq::empty());
        VarInt(i as u32).law_round_trip(Seq::empty());
    }
}

proof fn lemma_tell(exchange: ExchangeView, all: Seq<NamedId>, n: nat)
    requires
        has_told(exchange.connection, n),
        n <= all.len() < u32::MAX,
        exchange.connection.resender.capacity > n,
        short_names(all, 0),
    ensures
        ({
            let sent = exchange.tell(told(all, n as int));
            &&& sent.result is Ok
            &&& sent.after.outbox == exchange.outbox.push(told_packet(all, n as int))
            &&& has_told(exchange.connection.sent(sent.after), n + 1)
            &&& sent.after.resend_keys == seq![SlotMapKey { index: n as u32, generation: 0 }]
            &&& sent.after.resender.capacity == exchange.connection.resender.capacity
        }),
{
    lemma_told_len(all, n as int);
    let sent = exchange.tell(told(all, n as int));
    assert(sent.after.resend_keys =~= seq![SlotMapKey { index: n as u32, generation: 0 }]);
}

proof fn lemma_announces(exchange: ExchangeView, all: Seq<NamedId>, from: nat)
    requires
        has_told(exchange.connection, from),
        from <= all.len() < u32::MAX,
        exchange.connection.resender.capacity > all.len(),
        short_names(all, 0),
    ensures
        ({
            let outcome = exchange.announce_all(all, from);
            &&& outcome.result is Ok
            &&& outcome.after.outbox == exchange.outbox + Seq::new(
                (all.len() - from) as nat,
                |i: int| told_packet(all, from + i),
            )
            &&& has_told(outcome.after.connection, all.len())
            &&& outcome.after.connection.resender.capacity == exchange.connection.resender.capacity
        }),
    decreases all.len() - from,
{
    if from < all.len() {
        let channel = all[from as int];
        assert(encode_utf8(channel.name).len() <= 500);
        let given = exchange.with(exchange.connection.given(from as u32, channel));
        lemma_tell(given, all, from);
        let next = exchange.announce(from as u32, channel);
        lemma_announces(next, all, from + 1);
        assert(exchange.outbox.push(told_packet(all, from as int)) + Seq::new(
            (all.len() - (from + 1)) as nat,
            |i: int| told_packet(all, from + 1 + i),
        ) =~= exchange.outbox + Seq::new(
            (all.len() - from) as nat,
            |i: int| told_packet(all, from + i),
        ));
    } else {
        assert(exchange.outbox + Seq::new(0, |i: int| told_packet(all, from + i))
            =~= exchange.outbox);
    }
}

/// A new connection with room for the packets tells the other side of every channel and that there
/// are no more, in this order, and waits for the acknowledgement of the last packet.
pub proof fn law_initialize_tells(
    now: u64,
    outbox: Seq<Seq<u8>>,
    buffers: Map<u32, Seq<Seq<u8>>>,
    all: Seq<NamedId>,
    provider: ProviderView,
)
    requires
        is_listing(all, provider),
        provider.valid(),
        short_names(all, 0),
        added_capacity(all, all.len(), provider) > all.len(),
    ensures
        ({
            let fresh = ExchangeView { connection: ConnectionView::fresh(now), outbox, buffers };
            let outcome = fresh.initialize(all, provider);
            &&& outcome.result is Ok
            &&& outcome.after.outbox == outbox + Seq::new(
                all.len() + 1,
                |i: int| told_packet(all, i),
            )
            &&& outcome.after.connection.state == (ConnectionState::Registration {
                received_last_packet: false,
                last_packet_resend_key: Some(
                    SlotMapKey { index: all.len() as u32, generation: 0 },
                ),
            })
        }),
{
    let n = all.len();
    let fresh = ExchangeView { connection: ConnectionView::fresh(now), outbox, buffers };
    let ids = ids_of(all);
    assert forall|i: int| 0 <= i < ids.len() implies (#[trigger] ids[i] as int)
        < NULL_CHANNEL_ID by {
        assert(provider.names.contains_key(all[i].name));
    }
    lemma_distinct_below(ids, NULL_CHANNEL_ID as nat);
    let enlarged = fresh.with(fresh.connection.enlarged(added_capacity(all, n, provider)));
    lemma_announces(enlarged, all, 0);
    super::consistency::law_fresh_is_wf(provider, now);
    super::initialize::lemma_announce_keeps_state(enlarged, all, 0);
    let announced = enlarged.announce_all(all, 0).after;
    lemma_tell(announced, all, n);
    assert(outbox + Seq::new(n, |i: int| told_packet(all, 0 + i)) + seq![told_packet(all, n as int)]
        =~= outbox + Seq::new(n + 1, |i: int| told_packet(all, i)));
    assert(fresh.initialize(all, provider).after.outbox =~= outbox + Seq::new(
        n + 1,
        |i: int| told_packet(all, i),
    ));
}

/// The other side's channels in the order of their ids, as this side knows them.
pub open spec fn learnt(all: Seq<NamedId>, n: nat, provider: ProviderView) -> Seq<u32> {
    Seq::new(n, |i: int| provider.names[all[i].name])
}

/// Whether this side knows channels of these names, no two of which are the same or empty.
pub open spec fn known_names(all: Seq<NamedId>, provider: ProviderView) -> bool {
    &&& forall|i: int|
        0 <= i < all.len() ==> provider.names.contains_key((#[trigger] all[i]).name)
            && all[i].name.len() > 0
    &&& forall|i: int, j: int|
        0 <= i < j < all.len() ==> (#[trigger] all[i]).name != (#[trigger] all[j]).name
}

/// How far this side has learnt the other side's channels.
pub open spec fn has_learnt(
    connection: ConnectionView,
    all: Seq<NamedId>,
    n: nat,
    provider: ProviderView,
) -> bool {
    &&& connection.coherent(provider)
    &&& connection.state is Registration
    &&& connection.remote.locals == learnt(all, n, provider)
    &&& forall|i: int|
        0 <= i < n && (#[trigger] all[i]).name == ACK_CHANNEL_NAME@ ==> connection.remote.ack == i
}

pub proof fn lemma_learn(
    exchange: ExchangeView,
    all: Seq<NamedId>,
    n: nat,
    global_id: u32,
    provider: ProviderView,
)
    requires
        has_learnt(exchange.connection, all, n, provider),
        known_names(all, provider),
        provider.valid(),
        short_names(all, 0),
        n < all.len() <= NULL_CHANNEL_ID,
    ensures
        ({
            let outcome = exchange.deliver(
                CHANNEL_MANAGEMENT_CHANNEL_ID_REGISTRATION_STAGE,
                global_id,
                told(all, n as int),
                provider,
            );
            &&& outcome.result is Ok
            &&& has_learnt(outcome.after.connection, all, n + 1, provider)
            &&& outcome.after.connection.state == exchange.connection.state
        }),
{
    let c = exchange.connection;
    let name = all[n as int].name;
    let packet = told(all, n as int);
    let id = VarInt(n as u32);
    assert(provider.names.contains_key(name) && name.len() > 0);
    assert(encode_utf8(name).len() <= 500);
    law_name_round_trip(name, id.encoding());
    assert(packet.skip(name_bytes(name).len() as int) =~= id.encoding());
    id.law_round_trip(Seq::empty());
    assert(id.encoding() + Seq::<u8>::empty() =~= id.encoding());
    let global = provider.names[name];
    let locals = c.remote.locals;
    assert(!locals.contains(global)) by {
        if locals.contains(global) {
            let i = choose|i: int| 0 <= i < locals.len() && locals[i] == global;
            assert(provider.names.contains_key(all[i].name));
            assert(all[i].name != all[n as int].name);
        }
    }
    assert(c.remote.accepts(n as u32));
    law_insert(c.remote, n as u32, global, name);
    lemma_deliver(
        exchange,
        CHANNEL_MANAGEMENT_CHANNEL_ID_REGISTRATION_STAGE,
        global_id,
        packet,
        provider,
    );
    let after = c.remote.insert(n as u32, global, name);
    assert(after.locals =~= learnt(all, n + 1, provider));
    assert forall|i: int| 0 <= i < n + 1 && (#[trigger] all[i]).name
        == ACK_CHANNEL_NAME@ implies after.ack == i by {
        if i < n {
            assert(all[i].name != all[n as int].name);
            assert(after.locals[after.ack as int] == locals[i]);
            assert(after.locals[i] == locals[i]);
        }
    }
}

proof fn lemma_learn_all(
    exchange: ExchangeView,
    all: Seq<NamedId>,
    from: nat,
    global_id: u32,
    provider: ProviderView,
)
    requires
        has_learnt(exchange.connection, all, from, provider),
        known_names(all, provider),
        provider.valid(),
        short_names(all, 0),
        from <= all.len() <= NULL_CHANNEL_ID,
    ensures
        ({
            let outcome = exchange.deliver_all(
                CHANNEL_MANAGEMENT_CHANNEL_ID_REGISTRATION_STAGE,
                global_id,
                Seq::new((all.len() - from) as nat, |i: int| told(all, from + i)),
                provider,
            );
            &&& outcome.result is Ok
            &&& has_learnt(outcome.after.connection, all, all.len(), provider)
            &&& outcome.after.connection.state == exchange.connection.state
        }),
    decreases all.len() - from,
{
    let packets = Seq::new((all.len() - from) as nat, |i: int| told(all, from + i));
    if from < all.len() {
        lemma_learn(exchange, all, from, global_id, provider);
        let one = exchange.deliver(
            CHANNEL_MANAGEMENT_CHANNEL_ID_REGISTRATION_STAGE,
            global_id,
            packets[0],
            provider,
        );
        lemma_learn_all(one.after, all, from + 1, global_id, provider);
        assert(packets.skip(1) =~= Seq::new(
            (all.len() - (from + 1)) as nat,
            |i: int| told(all, from + 1 + i),
        ));
    }
}

/// When everything that the other side tells about its channels has been delivered, in order, this
/// side knows them under the ids that the other side has given them, and knows that there are no
/// more.
pub proof fn law_registration_arrives(
    exchange: ExchangeView,
    all: Seq<NamedId>,
    global_id: u32,
    provider: ProviderView,
)
    requires
        exchange.connection.coherent(provider),
        exchange.connection.state is Registration,
        exchange.connection.remote.locals.len() == 0,
        known_names(all, provider),
        provider.valid(),
        short_names(all, 0),
        all.len() <= NULL_CHANNEL_ID,
    ensures
        ({
            let channels = exchange.deliver_all(
                CHANNEL_MANAGEMENT_CHANNEL_ID_REGISTRATION_STAGE,
                global_id,
                Seq::new(all.len(), |i: int| told(all, i)),
                provider,
            );
            let last = channels.after.deliver(
                CHANNEL_MANAGEMENT_CHANNEL_ID_REGISTRATION_STAGE,
                global_id,
                told(all, all.len() as int),
                provider,
            );
            &&& channels.result is Ok
            &&& channels.after.connection.state == exchange.connection.state
            &&& channels.after.connection.remote.locals == learnt(all, all.len(), provider)
            &&& forall|i: int|
                0 <= i < all.len() && (#[trigger] all[i]).name == ACK_CHANNEL_NAME@
                    ==> channels.after.connection.remote.ack == i
            &&& last.result is Ok
            &&& last.after.connection == channels.after.connection.told_last().converted()
        }),
{
    assert(exchange.connection.remote.locals =~= learnt(all, 0, provider));
    lemma_learn_all(exchange, all, 0, global_id, provider);
    assert(Seq::new(all.len(), |i: int| told(all, i)) =~= Seq::new(
        (all.len() - 0) as nat,
        |i: int| told(all, 0 + i),
    ));
    reveal_strlit("");
    assert(encode_utf8(""@) =~= Seq::empty());
    law_name_round_trip(""@, Seq::empty());
    assert(name_bytes(""@) + Seq::<u8>::empty() =~= name_bytes(""@));
}

/// Two sides with the same channels understand each other's ids alike: what one side has told is
/// what the other side has learnt.
pub proof fn law_sides_agree(all: Seq<NamedId>, provider: ProviderView)
    requires
        is_listing(all, provider),
    ensures
        learnt(all, all.len(), provider) == ids_of(all),
{
    assert(learnt(all, all.len(), provider) =~= ids_of(all));
}

} // verus!
