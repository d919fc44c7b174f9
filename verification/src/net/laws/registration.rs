//! The packets in which one side tells its channels teach the other side all of them.
use super::arrival::{law_acknowledged, law_whole_read_back};
use crate::net::consistency::{
    law_receive_keeps_wf, lemma_acknowledge, lemma_deliver, lemma_deliver_all,
};
use crate::net::handshake::{
    has_learnt, known_names, law_name_round_trip, learnt, lemma_learn, told, told_packet,
};
use crate::net::id::{CHANNEL_MANAGEMENT_CHANNEL_ID_REGISTRATION_STAGE, NULL_CHANNEL_ID};
use crate::net::initialize::{name_bytes, short_names, NamedId};
use crate::net::mapper::ACK_CHANNEL_NAME;
use crate::net::model::{ConnectionView, ExchangeOutcome, ExchangeView};
use crate::net::ordering::{holds_back, lemma_holds_back, OrdererView};
use crate::net::provider::{channel_management_channel_view, ProviderView};
use crate::util::counting::{lemma_all_arrived, lemma_arrivals_at_most, lemma_missing_arrival};
use crate::util::slot_map::SlotMapKey;
use vstd::prelude::*;
use vstd::utf8::encode_utf8;

verus! {

/// The packets in which channels are told arrive in the order of `arrivals`, which holds their
/// numbers, each at its time, up to the first that is refused.
pub open spec fn receive_told(
    start: ExchangeView,
    all: Seq<NamedId>,
    arrivals: Seq<usize>,
    provider: ProviderView,
    times: spec_fn(nat) -> u64,
) -> ExchangeOutcome
    decreases arrivals.len(),
{
    if arrivals.len() == 0 {
        start.ok()
    } else {
        let before = receive_told(start, all, arrivals.drop_last(), provider, times);
        if before.result is Ok {
            before.after.receive(
                told_packet(all, arrivals.last() as int),
                provider,
                times((arrivals.len() - 1) as nat),
            )
        } else {
            before
        }
    }
}

/// Everything that is told, in order.
spec fn all_told(all: Seq<NamedId>) -> Seq<Seq<u8>> {
    Seq::new(all.len() + 1, |i: int| told(all, i))
}

/// What the law on registration is about: a consistent side that knows none of the other side's
/// channels yet, and channels whose names it knows.
pub open spec fn awaits_registration(
    start: ExchangeView,
    all: Seq<NamedId>,
    provider: ProviderView,
) -> bool {
    &&& start.connection.wf(provider)
    &&& start.connection.initialized()
    &&& provider.valid()
    &&& start.connection.state is Registration
    &&& start.connection.remote.locals.len() == 0
    &&& start.connection.orderers.management == Some(OrdererView::new(1000))
    &&& known_names(all, provider)
    &&& short_names(all, 0)
    &&& all.len() < NULL_CHANNEL_ID
}

/// A packet arrives: it is acknowledged, and what can be delivered now is.
proof fn lemma_told_packet_arrives(
    exchange: ExchangeView,
    all: Seq<NamedId>,
    orderer: OrdererView,
    earlier: Seq<usize>,
    x: usize,
    provider: ProviderView,
    now: u64,
)
    requires
        exchange.connection.wf(provider),
        exchange.connection.initialized(),
        provider.valid(),
        exchange.connection.state is Registration,
        exchange.connection.orderers.management == Some(orderer),
        holds_back(orderer, all_told(all), earlier),
        forall|i: int| 0 <= i < earlier.len() ==> (#[trigger] earlier[i] as int) <= all.len(),
        !earlier.contains(x),
        x <= all.len() < NULL_CHANNEL_ID,
        exchange.receive(told_packet(all, x as int), provider, now).result is Ok,
    ensures
        ({
            let key = SlotMapKey { index: x as u32, generation: 0 };
            let state = exchange.connection.state;
            let id = CHANNEL_MANAGEMENT_CHANNEL_ID_REGISTRATION_STAGE;
            let acknowledged = exchange.acknowledge(Some(key)).after;
            let taken = acknowledged.with_orderer(state, id, None);
            let pushed = orderer.push(x, told(all, x as int));
            let after = pushed.handed_out(pushed.ready().len());
            let delivered = taken.deliver_all(
                id,
                id,
                all_told(all).subrange(orderer.next as int, after.next as int),
                provider,
            );
            let left = delivered.after.with_orderer(state, id, Some(after));
            let outcome = exchange.receive(told_packet(all, x as int), provider, now);
            &&& orderer.next <= after.next <= all.len() + 1
            &&& holds_back(after, all_told(all), earlier.push(x))
            &&& acknowledged.connection.wf(provider)
            &&& acknowledged.connection.state == state
            &&& acknowledged.connection.remote == exchange.connection.remote
            &&& acknowledged.connection.local == exchange.connection.local
            &&& delivered.result is Ok
            &&& outcome.after == left.with(
                ConnectionView { last_time_received_packet: now, ..left.connection },
            )
        }),
{
    let id = CHANNEL_MANAGEMENT_CHANNEL_ID_REGISTRATION_STAGE;
    let key = SlotMapKey { index: x as u32, generation: 0 };
    let packet = told(all, x as int);
    let state = exchange.connection.state;
    law_whole_read_back(
        exchange,
        id,
        id,
        channel_management_channel_view(),
        Some(x as u32),
        Some(key),
        packet,
        provider,
        now,
    );
    law_acknowledged(exchange, Some(key), provider);
    lemma_acknowledge(exchange, Some(key), provider);
    let acknowledged = exchange.acknowledge(Some(key)).after;
    let taken = acknowledged.with_orderer(state, id, None);
    assert(acknowledged.connection.orderers.get(state, id) == Some(orderer));
    assert(orderer.accepts(x));
    assert(all_told(all)[x as int] == packet);
    lemma_holds_back(orderer, all_told(all), earlier, x);
    let ready = orderer.push(x, packet).ready();
    assert(taken.connection.coherent(provider));
    lemma_deliver_all(taken, id, id, ready, provider);
}

/// How much of what is told has been delivered.
spec fn has_heard(
    start: ExchangeView,
    connection: ConnectionView,
    all: Seq<NamedId>,
    n: nat,
    provider: ProviderView,
) -> bool {
    if n <= all.len() {
        &&& has_learnt(connection, all, n, provider)
        &&& connection.state == start.connection.state
    } else {
        &&& connection.remote.locals == learnt(all, all.len(), provider)
        &&& forall|i: int|
            0 <= i < all.len() && (#[trigger] all[i]).name == ACK_CHANNEL_NAME@
                ==> connection.remote.ack == i
        &&& connection.state == start.connection.told_last().converted().state
    }
}

/// Some more of what is told is delivered.
proof fn lemma_hear(
    start: ExchangeView,
    exchange: ExchangeView,
    all: Seq<NamedId>,
    from: nat,
    to: nat,
    provider: ProviderView,
)
    requires
        awaits_registration(start, all, provider),
        from <= to <= all.len() + 1,
        has_heard(start, exchange.connection, all, from, provider),
        exchange.connection.orderers.management is None,
    ensures
        has_heard(
            start,
            exchange.deliver_all(
                CHANNEL_MANAGEMENT_CHANNEL_ID_REGISTRATION_STAGE,
                CHANNEL_MANAGEMENT_CHANNEL_ID_REGISTRATION_STAGE,
                all_told(all).subrange(from as int, to as int),
                provider,
            ).after.connection,
            all,
            to,
            provider,
        ),
    decreases to - from,
{
    let id = CHANNEL_MANAGEMENT_CHANNEL_ID_REGISTRATION_STAGE;
    let packets = all_told(all).subrange(from as int, to as int);
    if from < to {
        assert(packets[0] == told(all, from as int));
        assert(packets.skip(1) =~= all_told(all).subrange(from as int + 1, to as int));
        let one = exchange.deliver(id, id, packets[0], provider);
        if from < all.len() {
            lemma_learn(exchange, all, from, id, provider);
            lemma_deliver(exchange, id, id, packets[0], provider);
        } else {
            lemma_hear_last(exchange, all, provider);
        }
        assert(has_heard(start, one.after.connection, all, from + 1, provider));
        lemma_hear(start, one.after, all, from + 1, to, provider);
    }
}

/// It is delivered that there are no more channels.
proof fn lemma_hear_last(exchange: ExchangeView, all: Seq<NamedId>, provider: ProviderView)
    requires
        exchange.connection.state is Registration,
    ensures
        ({
            let one = exchange.deliver(
                CHANNEL_MANAGEMENT_CHANNEL_ID_REGISTRATION_STAGE,
                CHANNEL_MANAGEMENT_CHANNEL_ID_REGISTRATION_STAGE,
                told(all, all.len() as int),
                provider,
            );
            &&& one.result is Ok
            &&& one.after.connection == exchange.connection.told_last().converted()
        }),
{
    reveal_strlit("");
    assert(encode_utf8(""@) =~= Seq::empty());
    law_name_round_trip(""@, Seq::empty());
    assert(name_bytes(""@) + Seq::<u8>::empty() =~= name_bytes(""@));
}

/// How far the receiving side has come.
spec fn has_received(
    start: ExchangeView,
    after: ExchangeView,
    all: Seq<NamedId>,
    arrivals: Seq<usize>,
    provider: ProviderView,
) -> bool {
    &&& after.connection.wf(provider)
    &&& after.connection.initialized()
    &&& after.connection.orderers.management matches Some(orderer) && holds_back(
        orderer,
        all_told(all),
        arrivals,
    ) && has_heard(start, after.connection, all, orderer.next as nat, provider)
}

/// Whether these are numbers of packets, none of which occurs twice.
pub open spec fn are_numbers(arrivals: Seq<usize>, len: nat) -> bool {
    &&& arrivals.no_duplicates()
    &&& forall|i: int| 0 <= i < arrivals.len() ==> (#[trigger] arrivals[i] as int) < len
}

proof fn lemma_receive_told(
    start: ExchangeView,
    all: Seq<NamedId>,
    arrivals: Seq<usize>,
    provider: ProviderView,
    times: spec_fn(nat) -> u64,
)
    requires
        awaits_registration(start, all, provider),
        are_numbers(arrivals, all.len() + 1),
        receive_told(start, all, arrivals, provider, times).result is Ok,
    ensures
        has_received(
            start,
            receive_told(start, all, arrivals, provider, times).after,
            all,
            arrivals,
            provider,
        ),
    decreases arrivals.len(),
{
    if arrivals.len() == 0 {
        assert(start.connection.remote.locals =~= learnt(all, 0, provider));
        assert(holds_back(OrdererView::new(1000), all_told(all), arrivals));
    } else {
        let id = CHANNEL_MANAGEMENT_CHANNEL_ID_REGISTRATION_STAGE;
        let now = times((arrivals.len() - 1) as nat);
        let earlier = arrivals.drop_last();
        let x = arrivals.last();
        lemma_receive_told(start, all, earlier, provider, times);
        let before = receive_told(start, all, earlier, provider, times).after;
        let orderer = before.connection.orderers.management.unwrap();
        assert(arrivals =~= earlier.push(x));
        assert((arrivals[arrivals.len() - 1] as int) < all.len() + 1);
        assert(!earlier.contains(x)) by {
            if earlier.contains(x) {
                let k = choose|k: int| 0 <= k < earlier.len() && earlier[k] == x;
                assert(arrivals[k] == arrivals[arrivals.len() - 1]);
            }
        }
        lemma_next_is_missing(orderer, all, earlier, x);
        lemma_told_packet_arrives(before, all, orderer, earlier, x, provider, now);
        law_receive_keeps_wf(before, told_packet(all, x as int), provider, now);
        let key = SlotMapKey { index: x as u32, generation: 0 };
        let taken = before.acknowledge(Some(key)).after.with_orderer(
            before.connection.state,
            id,
            None,
        );
        let pushed = orderer.push(x, told(all, x as int));
        let after = pushed.handed_out(pushed.ready().len());
        assert(has_heard(start, taken.connection, all, orderer.next as nat, provider));
        lemma_hear(start, taken, all, orderer.next as nat, after.next as nat, provider);
    }
}

/// As long as a packet is missing, the end has not been heard.
proof fn lemma_next_is_missing(
    orderer: OrdererView,
    all: Seq<NamedId>,
    arrivals: Seq<usize>,
    missing: usize,
)
    requires
        holds_back(orderer, all_told(all), arrivals),
        missing <= all.len(),
        !arrivals.contains(missing),
    ensures
        orderer.next <= all.len(),
{
    if orderer.next > all.len() {
        assert(arrivals.contains(missing));
    }
}

/// The packets in which the other side tells its channels may arrive in any order and at any time.
/// As long as none is refused, this side knows the channels that come before the first that has
/// not arrived, under the ids that the other side has given them; and once all packets have
/// arrived, it knows all of them and that there are no more.
pub proof fn law_registration_crosses(
    start: ExchangeView,
    all: Seq<NamedId>,
    arrivals: Seq<usize>,
    provider: ProviderView,
    times: spec_fn(nat) -> u64,
)
    requires
        awaits_registration(start, all, provider),
        are_numbers(arrivals, all.len() + 1),
        receive_told(start, all, arrivals, provider, times).result is Ok,
    ensures
        ({
            let after = receive_told(start, all, arrivals, provider, times).after.connection;
            let ids = learnt(all, all.len(), provider);
            if arrivals.len() == all.len() + 1 {
                &&& after.remote.locals == ids
                &&& forall|i: int|
                    0 <= i < all.len() && (#[trigger] all[i]).name == ACK_CHANNEL_NAME@
                        ==> after.remote.ack == i
                &&& after.state == start.connection.told_last().converted().state
            } else {
                &&& after.state == start.connection.state
                &&& after.remote.locals.is_prefix_of(ids)
                &&& forall|i: usize|
                    i < after.remote.locals.len() ==> #[trigger] arrivals.contains(i)
                &&& !arrivals.contains(after.remote.locals.len() as usize)
            }
        }),
{
    let n = all.len() + 1;
    lemma_receive_told(start, all, arrivals, provider, times);
    let after = receive_told(start, all, arrivals, provider, times).after.connection;
    let orderer = after.orderers.management.unwrap();
    lemma_arrivals_at_most(arrivals, n);
    if arrivals.len() == n {
        if orderer.next <= all.len() {
            lemma_all_arrived(arrivals, n, orderer.next);
        }
    } else {
        lemma_missing_arrival(arrivals, n);
        let missing = choose|i: usize| (i as int) < n && !#[trigger] arrivals.contains(i);
        lemma_next_is_missing(orderer, all, arrivals, missing);
    }
}

} // verus!
