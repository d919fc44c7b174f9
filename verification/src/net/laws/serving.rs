//! What events and the passing of time do to the connections with all peers.
use super::receiving::law_time_is_noted;
use crate::net::initialize::{
    added_capacity, by_frequency, covers, ids_of, is_listing, law_initialize, NamedId,
};
use crate::net::model::{ConnectionView, ExchangeView};
use crate::net::packet::PrimaryPacketMetadata;
use crate::net::provider::ProviderView;
use crate::net::server::{
    may_come, step_of, ticked, timed_out, with_peer, PeerError, PeerEventView, PeerOutcome,
    PeerReport,
};
use crate::proto::decode::Decode;
use vstd::prelude::*;

verus! {

/// Closing a connection forgets it, in whatever state it is: there is none with the peer
/// afterwards, which is reported, nothing is sent and nothing is delivered.
pub proof fn law_close_forgets(
    connections: Map<u64, ConnectionView>,
    peer: u64,
    outbox: Seq<Seq<u8>>,
    buffers: Map<u32, Seq<Seq<u8>>>,
    provider: ProviderView,
    now: u64,
    outcome: PeerOutcome,
)
    requires
        may_come(
            connections,
            peer,
            PeerEventView::CloseConnection,
            outbox,
            buffers,
            provider,
            now,
            outcome,
        ),
    ensures
        !with_peer(connections, peer, outcome.after).contains_key(peer),
        outcome.report == (PeerReport { present: false, connected: false, error: None }),
        outcome.outbox == outbox,
        outcome.buffers == buffers,
{
}

/// Asking for a connection that is there already changes nothing, and is reported.
pub proof fn law_connect_again_changes_nothing(
    connections: Map<u64, ConnectionView>,
    peer: u64,
    outbox: Seq<Seq<u8>>,
    buffers: Map<u32, Seq<Seq<u8>>>,
    provider: ProviderView,
    now: u64,
    outcome: PeerOutcome,
)
    requires
        connections.contains_key(peer),
        may_come(
            connections,
            peer,
            PeerEventView::Connect,
            outbox,
            buffers,
            provider,
            now,
            outcome,
        ),
    ensures
        with_peer(connections, peer, outcome.after) == connections,
        outcome.report == (PeerReport {
            present: true,
            connected: false,
            error: Some(PeerError::AlreadyConnected),
        }),
        outcome.outbox == outbox,
        outcome.buffers == buffers,
{
    assert(with_peer(connections, peer, outcome.after) =~= connections);
}

/// Asking for a connection that is not there makes one. If that goes well, it is in the
/// registration stage, counts as heard from at that time, gives its ids to all channels that the
/// program has, those that are used more often first, and can take messages of all of them; nothing
/// is known of the other side's channels. Otherwise there is no connection, and why is reported.
pub proof fn law_connect_makes_a_connection(
    connections: Map<u64, ConnectionView>,
    peer: u64,
    outbox: Seq<Seq<u8>>,
    buffers: Map<u32, Seq<Seq<u8>>>,
    provider: ProviderView,
    now: u64,
    outcome: PeerOutcome,
)
    requires
        !connections.contains_key(peer),
        provider.valid(),
        may_come(
            connections,
            peer,
            PeerEventView::Connect,
            outbox,
            buffers,
            provider,
            now,
            outcome,
        ),
    ensures
        !outcome.report.connected,
        outcome.report.present == (outcome.report.error is None),
        outcome.report.present == with_peer(connections, peer, outcome.after).contains_key(peer),
        outcome.report.error matches Some(error) ==> error is Initialization,
        outcome.report.present ==> {
            let c = with_peer(connections, peer, outcome.after)[peer];
            &&& c.state is Registration
            &&& c.last_time_received_packet == now
            &&& c.remote.locals.len() == 0
            &&& c.received =~= Set::empty()
            &&& c.unsent.len() == 0
            &&& exists|all: Seq<NamedId>|
                {
                    &&& #[trigger] is_listing(all, provider)
                    &&& by_frequency(all, provider)
                    &&& c.local.locals == ids_of(all)
                    &&& covers(outcome.buffers, all, 0)
                }
        },
{
    let fresh = ExchangeView { connection: ConnectionView::fresh(now), outbox, buffers };
    let all = choose|all: Seq<NamedId>|
        {
            &&& #[trigger] is_listing(all, provider)
            &&& by_frequency(all, provider)
            &&& outcome == crate::net::server::opened_step(
                fresh.initialize(all, provider),
                PeerEventView::Connect,
                provider,
                now,
            )
        };
    crate::net::consistency::law_fresh_is_wf(provider, now);
    law_initialize(fresh, all, provider);
    lemma_initialize_keeps_the_rest(fresh, all, provider);
    assert(is_listing(all, provider));
}

proof fn lemma_announce_keeps_the_rest(exchange: ExchangeView, all: Seq<NamedId>, from: nat)
    ensures
        ({
            let before = exchange.connection;
            let after = exchange.announce_all(all, from).after.connection;
            &&& after.received == before.received
            &&& after.unsent == before.unsent
            &&& after.remote == before.remote
            &&& after.joiner == before.joiner
            &&& after.last_time_received_packet == before.last_time_received_packet
        }),
    decreases all.len() - from,
{
    if from < all.len() {
        lemma_announce_keeps_the_rest(
            exchange.announce(from as u32, all[from as int]),
            all,
            from + 1,
        );
    }
}

proof fn lemma_initialize_keeps_the_rest(
    exchange: ExchangeView,
    all: Seq<NamedId>,
    provider: ProviderView,
)
    ensures
        ({
            let before = exchange.connection;
            let after = exchange.initialize(all, provider).after.connection;
            &&& after.received == before.received
            &&& after.unsent == before.unsent
            &&& after.remote == before.remote
            &&& after.joiner == before.joiner
            &&& after.last_time_received_packet == before.last_time_received_packet
        }),
{
    let enlarged = exchange.with(
        exchange.connection.enlarged(added_capacity(all, all.len(), provider)),
    );
    lemma_announce_keeps_the_rest(enlarged, all, 0);
}

/// A message to a peer that there is no connection with is not sent, which is reported; nothing
/// changes.
pub proof fn law_send_without_connection(
    connections: Map<u64, ConnectionView>,
    peer: u64,
    channel: u32,
    payload: Seq<u8>,
    outbox: Seq<Seq<u8>>,
    buffers: Map<u32, Seq<Seq<u8>>>,
    provider: ProviderView,
    now: u64,
    outcome: PeerOutcome,
)
    requires
        !connections.contains_key(peer),
        may_come(
            connections,
            peer,
            PeerEventView::Send { channel, payload },
            outbox,
            buffers,
            provider,
            now,
            outcome,
        ),
    ensures
        with_peer(connections, peer, outcome.after) == connections,
        outcome.report == (PeerReport {
            present: false,
            connected: false,
            error: Some(PeerError::NotConnected),
        }),
        outcome.outbox == outbox,
        outcome.buffers == buffers,
{
    assert(with_peer(connections, peer, outcome.after) =~= connections);
}

/// A message is sent to a peer through the channel that is asked for, under the id that this side
/// has given it, and only if it has one; the connection stays, and only what sending concerns
/// changes: nothing is delivered, and what was heard and learnt of the other side stays. A channel
/// of the program has an id only once messages are exchanged.
pub proof fn law_send_to_a_peer(
    connections: Map<u64, ConnectionView>,
    peer: u64,
    channel: u32,
    payload: Seq<u8>,
    outbox: Seq<Seq<u8>>,
    buffers: Map<u32, Seq<Seq<u8>>>,
    provider: ProviderView,
    now: u64,
    outcome: PeerOutcome,
)
    requires
        connections.contains_key(peer),
        connections[peer].wf(provider),
        provider.valid(),
        channel < 0x7fff_fffd,
        may_come(
            connections,
            peer,
            PeerEventView::Send { channel, payload },
            outbox,
            buffers,
            provider,
            now,
            outcome,
        ),
    ensures
        ({
            let before = connections[peer];
            let after = with_peer(connections, peer, outcome.after)[peer];
            let registered = before.state is Transfer && before.local.locals.contains(channel);
            &&& with_peer(connections, peer, outcome.after).contains_key(peer)
            &&& outcome.report.present && !outcome.report.connected
            &&& outcome.buffers == buffers
            &&& after == ConnectionView {
                resender: after.resender,
                segment_keys: after.segment_keys,
                orders: after.orders,
                ..before
            }
            &&& !registered ==> after == before && outcome.outbox == outbox
                && outcome.report.error == Some(PeerError::ChannelNotRegistered)
            &&& registered ==> {
                let id = before.local.locals.index_of(channel) as u32;
                let sent = before.sending(outbox).send(
                    before.state,
                    id,
                    provider.channels[channel],
                    payload,
                );
                &&& before.local.locals[id as int] == channel
                &&& outcome.outbox == sent.after.outbox
                &&& after.resender == sent.after.resender
                &&& after.segment_keys == sent.after.segment_keys
                &&& after.orders == sent.after.orders
                &&& outcome.report.error == (match sent.result {
                    Ok(_) => None,
                    Err(e) => Some(PeerError::Sending(e)),
                })
            }
        }),
{
    let before = connections[peer];
    if before.local.locals.contains(channel) {
        let i = before.local.locals.index_of(channel);
        assert(before.local.locals[i] == channel);
        assert(provider.names_id(before.local.locals[i]));
    }
}

/// A packet that arrives from a peer is handled by the connection with it, which stays. That
/// messages can be exchanged is reported exactly when that begins, and an error exactly when there
/// is one.
pub proof fn law_read_from_a_peer(
    connections: Map<u64, ConnectionView>,
    peer: u64,
    payload: Seq<u8>,
    outbox: Seq<Seq<u8>>,
    buffers: Map<u32, Seq<Seq<u8>>>,
    provider: ProviderView,
    now: u64,
    outcome: PeerOutcome,
)
    requires
        connections.contains_key(peer),
        may_come(
            connections,
            peer,
            PeerEventView::Read { payload },
            outbox,
            buffers,
            provider,
            now,
            outcome,
        ),
    ensures
        ({
            let before = connections[peer];
            let received = (ExchangeView { connection: before, outbox, buffers }).receive(
                payload,
                provider,
                now,
            );
            let after = with_peer(connections, peer, outcome.after)[peer];
            &&& with_peer(connections, peer, outcome.after).contains_key(peer)
            &&& after == received.after.connection
            &&& outcome.outbox == received.after.outbox
            &&& outcome.buffers == received.after.buffers
            &&& outcome.report.present
            &&& outcome.report.connected <==> before.state is Registration
                && after.state is Transfer
            &&& outcome.report.error == (match received.result {
                Ok(_) => None,
                Err(e) => Some(PeerError::Handling(e)),
            })
        }),
{
}

/// A packet that arrives from a peer that there is no connection with makes one, as asking for it
/// does, and is then handled by it as if it had arrived afterwards.
pub proof fn law_read_makes_a_connection(
    connections: Map<u64, ConnectionView>,
    peer: u64,
    payload: Seq<u8>,
    outbox: Seq<Seq<u8>>,
    buffers: Map<u32, Seq<Seq<u8>>>,
    provider: ProviderView,
    now: u64,
    outcome: PeerOutcome,
)
    requires
        !connections.contains_key(peer),
        provider.valid(),
        may_come(
            connections,
            peer,
            PeerEventView::Read { payload },
            outbox,
            buffers,
            provider,
            now,
            outcome,
        ),
    ensures
        exists|connected: PeerOutcome|
            {
                &&& #[trigger] may_come(
                    connections,
                    peer,
                    PeerEventView::Connect,
                    outbox,
                    buffers,
                    provider,
                    now,
                    connected,
                )
                &&& if connected.report.present {
                    may_come(
                        with_peer(connections, peer, connected.after),
                        peer,
                        PeerEventView::Read { payload },
                        connected.outbox,
                        connected.buffers,
                        provider,
                        now,
                        outcome,
                    )
                } else {
                    outcome == connected
                }
            },
{
    let fresh = ExchangeView { connection: ConnectionView::fresh(now), outbox, buffers };
    let all = choose|all: Seq<NamedId>|
        {
            &&& #[trigger] is_listing(all, provider)
            &&& by_frequency(all, provider)
            &&& outcome == crate::net::server::opened_step(
                fresh.initialize(all, provider),
                PeerEventView::Read { payload },
                provider,
                now,
            )
        };
    let opening = fresh.initialize(all, provider);
    let connected = crate::net::server::opened_step(
        opening,
        PeerEventView::Connect,
        provider,
        now,
    );
    assert(is_listing(all, provider));
    assert(may_come(
        connections,
        peer,
        PeerEventView::Connect,
        outbox,
        buffers,
        provider,
        now,
        connected,
    ));
    if connected.report.present {
        let now_there = with_peer(connections, peer, connected.after);
        let blank = ExchangeView {
            connection: ConnectionView::fresh(now),
            outbox: connected.outbox,
            buffers: connected.buffers,
        };
        assert(now_there.contains_key(peer));
        assert(blank.with(now_there[peer]) == opening.after);
    }
}

/// When time passes, a peer is forgotten exactly if nothing was heard from it for more than thirty
/// seconds, in whatever state the connection is; for all others exactly the time that has passed
/// passes, and the time at which they were heard from stays.
pub proof fn law_silent_peers_are_forgotten(
    connections: Map<u64, ConnectionView>,
    delta: u64,
    now: u64,
    peer: u64,
    provider: ProviderView,
)
    requires
        delta <= u32::MAX,
        connections.contains_key(peer),
        connections[peer].wf(provider),
        connections[peer].initialized(),
    ensures
        ({
            let before = connections[peer];
            let after = ticked(connections, delta, now);
            &&& after.contains_key(peer) <==> before.last_time_received_packet + 30_000 >= now
            &&& timed_out(before, now) <==> before.last_time_received_packet + 30_000 < now
            &&& after.contains_key(peer) ==> after[peer] == before.update(
                delta as u32,
                Seq::empty(),
            ).after
            &&& after.contains_key(peer) ==> after[peer].last_time_received_packet
                == before.last_time_received_packet
            &&& step_of(delta) == delta
        }),
{
    super::receiving::law_time_passes(connections[peer], delta as u32, Seq::empty(), provider);
}

/// Time makes no connections.
pub proof fn law_time_makes_no_connections(
    connections: Map<u64, ConnectionView>,
    delta: u64,
    now: u64,
    peer: u64,
)
    ensures
        ticked(connections, delta, now).contains_key(peer) ==> connections.contains_key(peer),
{
}

/// A peer from which a packet was handled without error stays for thirty seconds from then on, in
/// whatever state the connection is, however often time is let pass meanwhile.
pub proof fn law_heard_peer_stays(
    connections: Map<u64, ConnectionView>,
    peer: u64,
    payload: Seq<u8>,
    outbox: Seq<Seq<u8>>,
    buffers: Map<u32, Seq<Seq<u8>>>,
    provider: ProviderView,
    now: u64,
    outcome: PeerOutcome,
    ticks: Seq<Tick>,
)
    requires
        connections.contains_key(peer),
        may_come(
            connections,
            peer,
            PeerEventView::Read { payload },
            outbox,
            buffers,
            provider,
            now,
            outcome,
        ),
        outcome.report.error is None,
        outcome.buffers != buffers || !PrimaryPacketMetadata::<false>::parse(
            payload,
        ).value.unwrap().segment,
        forall|i: int| 0 <= i < ticks.len() ==> (#[trigger] ticks[i]).now <= now + 30_000,
    ensures
        ticked_all(with_peer(connections, peer, outcome.after), ticks).contains_key(peer),
        ticked_all(
            with_peer(connections, peer, outcome.after),
            ticks,
        )[peer].last_time_received_packet == now,
    decreases ticks.len(),
{
    let before = ExchangeView { connection: connections[peer], outbox, buffers };
    law_time_is_noted(before, payload, provider, now);
    assert((ExchangeView { connection: ConnectionView::fresh(now), outbox, buffers }).with(
        connections[peer],
    ) == before);
    if ticks.len() > 0 {
        let earlier = ticks.drop_last();
        assert forall|i: int| 0 <= i < earlier.len() implies (#[trigger] earlier[i]).now <= now
            + 30_000 by {
            assert(earlier[i] == ticks[i]);
        }
        law_heard_peer_stays(
            connections,
            peer,
            payload,
            outbox,
            buffers,
            provider,
            now,
            outcome,
            earlier,
        );
        assert(ticks[ticks.len() - 1].now <= now + 30_000);
        let c = ticked_all(with_peer(connections, peer, outcome.after), earlier)[peer];
        lemma_update_notes_no_time(c, step_of(ticks.last().delta));
    }
}

proof fn lemma_update_notes_no_time(connection: ConnectionView, delta: u32)
    ensures
        connection.update(delta, Seq::empty()).after.last_time_received_packet
            == connection.last_time_received_packet,
{
}

/// A call of `tick`: how much time has passed, and what time it is.
pub struct Tick {
    pub delta: u64,
    pub now: u64,
}

/// The connections after time was let pass several times.
pub open spec fn ticked_all(
    connections: Map<u64, ConnectionView>,
    ticks: Seq<Tick>,
) -> Map<u64, ConnectionView>
    decreases ticks.len(),
{
    if ticks.len() == 0 {
        connections
    } else {
        ticked(ticked_all(connections, ticks.drop_last()), ticks.last().delta, ticks.last().now)
    }
}

} // verus!
