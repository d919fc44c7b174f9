//! The connections of a program with its peers, and what events do to them.
use super::channel_data::{ConnectionChannelMessageSwapBuffer, GlobalChannelData};
use super::connection::{buffers_view, exchange, handle_message, update_connection, Connection};
use super::consistency::{law_fresh_is_wf, law_update_keeps_wf, lemma_send_wf};
use super::id::{ChannelId, ConnectionState, GlobalChannelId};
use super::initialize::{by_frequency, initialize_connection, is_listing, NamedId};
use super::model::{ConnectionView, ExchangeOutcome, ExchangeView, UpdateOutcome};
use super::packet::ConnectionError;
use super::provider::{ChannelProvider, ProviderView};
use super::send::{channel_for, send_packet, ConnectionChannel};
use crate::util::bytes::contents;
use crate::util::slot_map::SlotMapKey;
use bevy::platform::collections::HashMap;
use vstd::prelude::*;

verus! {

/// Time is let pass for connections in steps of more milliseconds than this.
pub const DELTA_MIN: u64 = 25;

/// A peer that nothing was received from in more milliseconds than this is forgotten.
pub const CONNECTION_TIMEOUT: u64 = 30_000;

/// What happens to the connection with a peer.
#[derive(Debug)]
pub enum PeerEvent {
    /// A packet has arrived.
    Read { payload: Vec<u8> },
    /// The connection is to be forgotten.
    CloseConnection,
    /// A connection is to be established.
    Connect,
    /// A message is to be sent.
    Send { channel: ChannelId<GlobalChannelId>, payload: Vec<u8> },
}

/// [`PeerEvent`] in plain values.
pub enum PeerEventView {
    Read { payload: Seq<u8> },
    CloseConnection,
    Connect,
    Send { channel: u32, payload: Seq<u8> },
}

impl View for PeerEvent {
    type V = PeerEventView;

    open spec fn view(&self) -> PeerEventView {
        match self {
            PeerEvent::Read { payload } => PeerEventView::Read { payload: payload@ },
            PeerEvent::CloseConnection => PeerEventView::CloseConnection,
            PeerEvent::Connect => PeerEventView::Connect,
            PeerEvent::Send { channel, payload } => PeerEventView::Send {
                channel: channel.0,
                payload: payload@,
            },
        }
    }
}

/// Why an event did not have the effect that was meant.
#[derive(Debug, PartialEq, Eq, Clone, Copy, Structural)]
pub enum PeerError {
    /// The connection could not be initialized, hence it is forgotten.
    Initialization(ConnectionError),
    /// The packet could not be handled.
    Handling(ConnectionError),
    /// There is a connection already.
    AlreadyConnected,
    /// There is no connection.
    NotConnected,
    /// The channel has no id in this connection.
    ChannelNotRegistered,
    /// There is no such channel.
    UnknownChannel,
    /// The message could not be sent.
    Sending(ConnectionError),
}

/// What came of an event: whether there is a connection afterwards, whether messages can be
/// exchanged from now on, and what went wrong.
#[derive(Debug, PartialEq, Eq, Clone, Copy, Structural)]
pub struct PeerReport {
    pub present: bool,
    pub connected: bool,
    pub error: Option<PeerError>,
}

/// What becomes of the connection with a peer, of the packets that were sent and of the messages
/// that were delivered, and what is reported.
pub struct PeerOutcome {
    pub after: Option<ConnectionView>,
    pub outbox: Seq<Seq<u8>>,
    pub buffers: Map<u32, Seq<Seq<u8>>>,
    pub report: PeerReport,
}

impl ExchangeView {
    /// The connection stays, and this is reported.
    pub open spec fn stays(self, connected: bool, error: Option<PeerError>) -> PeerOutcome {
        PeerOutcome {
            after: Some(self.connection),
            outbox: self.outbox,
            buffers: self.buffers,
            report: PeerReport { present: true, connected, error },
        }
    }

    /// There is no connection afterwards, and this is reported.
    pub open spec fn ends(self, error: Option<PeerError>) -> PeerOutcome {
        PeerOutcome {
            after: None,
            outbox: self.outbox,
            buffers: self.buffers,
            report: PeerReport { present: false, connected: false, error },
        }
    }

    /// A packet arrives from a peer.
    pub open spec fn read(self, payload: Seq<u8>, provider: ProviderView, now: u64) -> PeerOutcome {
        let outcome = self.receive(payload, provider, now);
        outcome.after.stays(
            !(self.connection.state is Transfer) && outcome.after.connection.state is Transfer,
            match outcome.result {
                Ok(_) => None,
                Err(e) => Some(PeerError::Handling(e)),
            },
        )
    }

    /// A message is sent to a peer.
    pub open spec fn send_message(
        self,
        channel: u32,
        payload: Seq<u8>,
        provider: ProviderView,
    ) -> PeerOutcome {
        let c = self.connection;
        match c.local.local_id(c.state, channel) {
            None => self.stays(false, Some(PeerError::ChannelNotRegistered)),
            Some(id) => match channel_for(c.state, id, channel, provider) {
                None => self.stays(false, Some(PeerError::UnknownChannel)),
                Some(view) => {
                    let sent = c.sending(self.outbox).send(c.state, id, view, payload);
                    ExchangeView {
                        connection: c.sent(sent.after),
                        outbox: sent.after.outbox,
                        buffers: self.buffers,
                    }.stays(
                        false,
                        match sent.result {
                            Ok(_) => None,
                            Err(e) => Some(PeerError::Sending(e)),
                        },
                    )
                },
            },
        }
    }

    /// What an event does to a connection that is there.
    pub open spec fn known_step(self, event: PeerEventView, provider: ProviderView, now: u64) -> PeerOutcome {
        match event {
            PeerEventView::Read { payload } => self.read(payload, provider, now),
            PeerEventView::CloseConnection => self.ends(None),
            PeerEventView::Connect => self.stays(false, Some(PeerError::AlreadyConnected)),
            PeerEventView::Send { channel, payload } => self.send_message(
                channel,
                payload,
                provider,
            ),
        }
    }

    /// What an event does where no connection is there and none is made.
    pub open spec fn absent_step(self, event: PeerEventView) -> PeerOutcome {
        match event {
            PeerEventView::Send { .. } => self.ends(Some(PeerError::NotConnected)),
            _ => self.ends(None),
        }
    }
}

/// What an event does once a connection was made for it, given how that went.
pub open spec fn opened_step(
    opening: ExchangeOutcome,
    event: PeerEventView,
    provider: ProviderView,
    now: u64,
) -> PeerOutcome {
    match opening.result {
        Err(e) => opening.after.ends(Some(PeerError::Initialization(e))),
        Ok(_) => match event {
            PeerEventView::Read { payload } => opening.after.read(payload, provider, now),
            _ => opening.after.stays(false, None),
        },
    }
}

/// Whether a connection is made for an event where none is there.
pub open spec fn opens(event: PeerEventView) -> bool {
    event is Read || event is Connect
}

/// The connections in a table, by the numbers of their peers.
pub uninterp spec fn peer_table(table: HashMap<u64, Connection>) -> Map<u64, Connection>;

/// `HashMap::new`: a table without entries.
#[verifier::external_body]
fn peers_new() -> (table: HashMap<u64, Connection>)
    ensures
        (peer_table(table) == Map::<u64, Connection>::empty()),
{
    HashMap::new()
}

/// `HashMap::insert`: the peer's entry has the connection afterwards, and all others keep theirs.
#[verifier::external_body]
fn peers_insert(table: &mut HashMap<u64, Connection>, peer: u64, connection: Connection)
    ensures
        peer_table(*final(table)) == peer_table(*old(table)).insert(peer, connection),
{
    table.insert(peer, connection);
}

/// `HashMap::remove`: the peer has no entry afterwards, and the connection that it had before is
/// handed out.
#[verifier::external_body]
fn peers_remove(table: &mut HashMap<u64, Connection>, peer: u64) -> (r: Option<Connection>)
    ensures
        peer_table(*final(table)) == peer_table(*old(table)).remove(peer),
        match r {
            Some(was) => peer_table(*old(table)).contains_key(peer) && was == peer_table(
                *old(table),
            )[peer],
            None => !peer_table(*old(table)).contains_key(peer),
        },
{
    table.remove(&peer)
}

/// Whether `peers` holds every key once.
pub open spec fn lists_keys(keys: Set<u64>, peers: Seq<u64>) -> bool {
    &&& peers.no_duplicates()
    &&& forall|peer: u64| #[trigger] keys.contains(peer) <==> peers.contains(peer)
}

/// `HashMap::keys`: every key once, in an order that is left open.
#[verifier::external_body]
fn peers_keys(table: &HashMap<u64, Connection>) -> (peers: Vec<u64>)
    ensures
        lists_keys(peer_table(*table).dom(), peers@),
{
    table.keys().copied().collect()
}

/// The connections with all peers.
pub struct Server {
    connections: HashMap<u64, Connection>,
}

impl View for Server {
    type V = Map<u64, ConnectionView>;

    closed spec fn view(&self) -> Map<u64, ConnectionView> {
        peer_table(self.connections).map_values(|connection: Connection| connection@)
    }
}

/// The connections after that with one peer has changed.
pub open spec fn with_peer(
    connections: Map<u64, ConnectionView>,
    peer: u64,
    connection: Option<ConnectionView>,
) -> Map<u64, ConnectionView> {
    match connection {
        Some(c) => connections.insert(peer, c),
        None => connections.remove(peer),
    }
}

/// Whether every connection is consistent and the peers were told which channels there are.
pub open spec fn peers_wf(connections: Map<u64, ConnectionView>, provider: ProviderView) -> bool {
    forall|peer: u64| #[trigger]
        connections.contains_key(peer) ==> connections[peer].wf(provider)
            && connections[peer].initialized()
}

impl Server {
    /// The parts of the connections are well-formed.
    pub closed spec fn wf(&self) -> bool {
        forall|peer: u64| #[trigger]
            peer_table(self.connections).contains_key(peer) ==> peer_table(
                self.connections,
            )[peer].wf()
    }

    pub fn new() -> (server: Self)
        ensures
            server.wf(),
            server@ == Map::<u64, ConnectionView>::empty(),
    {
        let server = Server { connections: peers_new() };
        assert(server@ =~= Map::<u64, ConnectionView>::empty());
        server
    }

    /// Lets an event happen to the connection with a peer. What is delivered goes to `buffers`,
    /// and what is to be sent to the peer goes to `outbox`.
    pub fn handle_event<P: ChannelProvider>(
        &mut self,
        peer: u64,
        event: PeerEvent,
        buffers: &mut GlobalChannelData<ConnectionChannelMessageSwapBuffer>,
        outbox: &mut Vec<Vec<u8>>,
        provider: &P,
        now: u64,
    ) -> (report: PeerReport)
        requires
            old(self).wf(),
            peers_wf(old(self)@, provider.model()),
            provider.model().valid(),
        ensures
            final(self).wf(),
            peers_wf(final(self)@, provider.model()),
            exists|outcome: PeerOutcome|
                {
                    &&& #[trigger] may_come(
                        old(self)@,
                        peer,
                        event@,
                        contents(old(outbox)@),
                        buffers_view(old(buffers)@),
                        provider.model(),
                        now,
                        outcome,
                    )
                    &&& final(self)@ == with_peer(old(self)@, peer, outcome.after)
                    &&& contents(final(outbox)@) == outcome.outbox
                    &&& buffers_view(final(buffers)@) == outcome.buffers
                    &&& report == outcome.report
                },
    {
        let ghost model = provider.model();
        let ghost before = old(self)@;
        let taken = peers_remove(&mut self.connections, peer);
        let ghost others = peer_table(self.connections);
        assert(before.contains_key(peer) == (taken is Some));
        let (after, report) = match taken {
            Some(connection) => {
                assert(before[peer] == connection@);
                known_event(connection, event, buffers, outbox, provider, now)
            },
            None => absent_event(event, buffers, outbox, provider, now),
        };
        let ghost outcome = PeerOutcome {
            after: connection_view(after),
            outbox: contents(outbox@),
            buffers: buffers_view(buffers@),
            report,
        };
        assert(may_come(
            before,
            peer,
            event@,
            contents(old(outbox)@),
            buffers_view(old(buffers)@),
            model,
            now,
            outcome,
        ));
        match after {
            Some(connection) => {
                peers_insert(&mut self.connections, peer, connection);
            },
            None => {},
        }
        proof {
            assert(self@ =~= with_peer(before, peer, outcome.after));
            assert forall|p: u64| #[trigger] self@.contains_key(p) implies self@[p].wf(model)
                && self@[p].initialized() by {
                if p != peer {
                    assert(before.contains_key(p));
                }
            }
        }
        report
    }
}

/// A connection, if there is one, in plain values.
pub open spec fn connection_view(connection: Option<Connection>) -> Option<ConnectionView> {
    match connection {
        Some(c) => Some(c@),
        None => None,
    }
}

/// Whether a connection, if there is one, is as it should be.
spec fn connection_fit(connection: Option<Connection>, provider: ProviderView) -> bool {
    match connection {
        Some(c) => c.wf() && c@.wf(provider) && c@.initialized(),
        None => true,
    }
}

/// Lets an event happen to a connection that is there.
fn known_event<P: ChannelProvider>(
    connection: Connection,
    event: PeerEvent,
    buffers: &mut GlobalChannelData<ConnectionChannelMessageSwapBuffer>,
    outbox: &mut Vec<Vec<u8>>,
    provider: &P,
    now: u64,
) -> (r: (Option<Connection>, PeerReport))
    requires
        connection_fit(Some(connection), provider.model()),
        provider.model().valid(),
    ensures
        connection_fit(r.0, provider.model()),
        (PeerOutcome {
            after: connection_view(r.0),
            outbox: contents(final(outbox)@),
            buffers: buffers_view(final(buffers)@),
            report: r.1,
        }) == exchange(connection@, old(outbox)@, old(buffers)@).known_step(
            event@,
            provider.model(),
            now,
        ),
{
    let mut connection = connection;
    match event {
        PeerEvent::Read { payload } => {
            let report = read(
                &mut connection,
                payload.as_slice(),
                buffers,
                outbox,
                provider,
                now,
            );
            (Some(connection), report)
        },
        PeerEvent::CloseConnection => (
            None,
            PeerReport { present: false, connected: false, error: None },
        ),
        PeerEvent::Connect => (
            Some(connection),
            PeerReport { present: true, connected: false, error: Some(PeerError::AlreadyConnected) },
        ),
        PeerEvent::Send { channel, payload } => {
            let report = send_message(
                &mut connection,
                channel,
                payload.as_slice(),
                outbox,
                provider,
                Ghost(buffers@),
            );
            (Some(connection), report)
        },
    }
}

/// Lets an event happen where no connection is there.
fn absent_event<P: ChannelProvider>(
    event: PeerEvent,
    buffers: &mut GlobalChannelData<ConnectionChannelMessageSwapBuffer>,
    outbox: &mut Vec<Vec<u8>>,
    provider: &P,
    now: u64,
) -> (r: (Option<Connection>, PeerReport))
    requires
        provider.model().valid(),
    ensures
        connection_fit(r.0, provider.model()),
        comes_of_absence(
            exchange(ConnectionView::fresh(now), old(outbox)@, old(buffers)@),
            event@,
            provider.model(),
            now,
            (PeerOutcome {
                after: connection_view(r.0),
                outbox: contents(final(outbox)@),
                buffers: buffers_view(final(buffers)@),
                report: r.1,
            }),
        ),
{
    let payload: Option<Vec<u8>> = match event {
        PeerEvent::Read { payload } => Some(payload),
        PeerEvent::Connect => None,
        PeerEvent::CloseConnection => {
            return (None, PeerReport { present: false, connected: false, error: None });
        },
        PeerEvent::Send { .. } => {
            return (
                None,
                PeerReport { present: false, connected: false, error: Some(PeerError::NotConnected) },
            );
        },
    };
    let ghost model = provider.model();
    let ghost fresh = exchange(ConnectionView::fresh(now), outbox@, buffers@);
    let opened = open_connection(buffers, outbox, provider, now);
    let ghost all = choose|all: Seq<NamedId>|
        {
            &&& #[trigger] is_listing(all, model)
            &&& by_frequency(all, model)
            &&& opened_as(
                opened,
                exchange(ConnectionView::fresh(now), outbox@, buffers@),
                fresh.initialize(all, model),
            )
        };
    assert(is_listing(all, model));
    match opened {
        Ok(connection) => {
            let mut connection = connection;
            let report = match payload {
                Some(payload) => read(
                    &mut connection,
                    payload.as_slice(),
                    buffers,
                    outbox,
                    provider,
                    now,
                ),
                None => PeerReport { present: true, connected: false, error: None },
            };
            (Some(connection), report)
        },
        Err(e) => (
            None,
            PeerReport {
                present: false,
                connected: false,
                error: Some(PeerError::Initialization(e)),
            },
        ),
    }
}

/// What can come of an event where no connection is there. A connection that is made tells its
/// channels in an order that is open, except that those that are used more often come first.
pub open spec fn comes_of_absence(
    fresh: ExchangeView,
    event: PeerEventView,
    provider: ProviderView,
    now: u64,
    outcome: PeerOutcome,
) -> bool {
    if opens(event) {
        exists|all: Seq<NamedId>|
            {
                &&& #[trigger] is_listing(all, provider)
                &&& by_frequency(all, provider)
                &&& outcome == opened_step(fresh.initialize(all, provider), event, provider, now)
            }
    } else {
        outcome == fresh.absent_step(event)
    }
}

/// What can come of an event.
pub open spec fn may_come(
    connections: Map<u64, ConnectionView>,
    peer: u64,
    event: PeerEventView,
    outbox: Seq<Seq<u8>>,
    buffers: Map<u32, Seq<Seq<u8>>>,
    provider: ProviderView,
    now: u64,
    outcome: PeerOutcome,
) -> bool {
    let fresh = ExchangeView { connection: ConnectionView::fresh(now), outbox, buffers };
    if connections.contains_key(peer) {
        outcome == fresh.with(connections[peer]).known_step(event, provider, now)
    } else {
        comes_of_absence(fresh, event, provider, now, outcome)
    }
}

/// Whether the connection that was made, or the error in its place, is what came of it, the rest
/// being as in `rest`.
pub open spec fn opened_as(
    opened: Result<Connection, ConnectionError>,
    rest: ExchangeView,
    opening: ExchangeOutcome,
) -> bool {
    match opened {
        Ok(connection) => opening.result is Ok && opening.after == rest.with(connection@),
        Err(e) => opening.result == Err::<(), ConnectionError>(e) && opening.after.outbox
            == rest.outbox && opening.after.buffers == rest.buffers,
    }
}

/// Makes a connection and tells the peer which channels there are.
fn open_connection<P: ChannelProvider>(
    buffers: &mut GlobalChannelData<ConnectionChannelMessageSwapBuffer>,
    outbox: &mut Vec<Vec<u8>>,
    provider: &P,
    now: u64,
) -> (r: Result<Connection, ConnectionError>)
    requires
        provider.model().valid(),
    ensures
        r matches Ok(connection) ==> connection.wf() && connection@.wf(provider.model())
            && connection@.initialized(),
        exists|all: Seq<NamedId>|
            {
                &&& #[trigger] is_listing(all, provider.model())
                &&& by_frequency(all, provider.model())
                &&& opened_as(
                    r,
                    exchange(ConnectionView::fresh(now), final(outbox)@, final(buffers)@),
                    exchange(ConnectionView::fresh(now), old(outbox)@, old(buffers)@).initialize(
                        all,
                        provider.model(),
                    ),
                )
            },
{
    let mut connection = Connection::new(now);
    proof {
        law_fresh_is_wf(provider.model(), now);
    }
    match initialize_connection(&mut connection, buffers, outbox, provider) {
        Ok(_) => Ok(connection),
        Err(e) => Err(e),
    }
}

/// Handles a packet that has arrived from a peer.
fn read<P: ChannelProvider>(
    connection: &mut Connection,
    payload: &[u8],
    buffers: &mut GlobalChannelData<ConnectionChannelMessageSwapBuffer>,
    outbox: &mut Vec<Vec<u8>>,
    provider: &P,
    now: u64,
) -> (report: PeerReport)
    requires
        old(connection).wf(),
        old(connection)@.wf(provider.model()),
        old(connection)@.initialized(),
        provider.model().valid(),
    ensures
        final(connection).wf(),
        final(connection)@.wf(provider.model()),
        final(connection)@.initialized(),
        (PeerOutcome {
            after: Some(final(connection)@),
            outbox: contents(final(outbox)@),
            buffers: buffers_view(final(buffers)@),
            report,
        }) == exchange(old(connection)@, old(outbox)@, old(buffers)@).read(
            payload@,
            provider.model(),
            now,
        ),
{
    let before = match connection.state {
        ConnectionState::Transfer => true,
        _ => false,
    };
    let error = match handle_message(payload, connection, provider, buffers, outbox, now) {
        Ok(_) => None,
        Err(e) => Some(PeerError::Handling(e)),
    };
    let after = match connection.state {
        ConnectionState::Transfer => true,
        _ => false,
    };
    PeerReport { present: true, connected: !before && after, error }
}

/// Sends a message to a peer.
fn send_message<P: ChannelProvider>(
    connection: &mut Connection,
    channel: ChannelId<GlobalChannelId>,
    payload: &[u8],
    outbox: &mut Vec<Vec<u8>>,
    provider: &P,
    Ghost(buffers): Ghost<Map<u32, ConnectionChannelMessageSwapBuffer>>,
) -> (report: PeerReport)
    requires
        old(connection).wf(),
        old(connection)@.wf(provider.model()),
        old(connection)@.initialized(),
    ensures
        final(connection).wf(),
        final(connection)@.wf(provider.model()),
        final(connection)@.initialized(),
        (PeerOutcome {
            after: Some(final(connection)@),
            outbox: contents(final(outbox)@),
            buffers: buffers_view(buffers),
            report,
        }) == exchange(old(connection)@, old(outbox)@, buffers).send_message(
            channel.0,
            payload@,
            provider.model(),
        ),
{
    let local_id = match connection.id_mapper.local_inner.local_id(connection.state, channel) {
        Some(id) => id,
        None => {
            return PeerReport {
                present: true,
                connected: false,
                error: Some(PeerError::ChannelNotRegistered),
            };
        },
    };
    let connection_channel = match ConnectionChannel::new(
        connection.state,
        local_id,
        channel,
        provider,
    ) {
        Some(channel) => channel,
        None => {
            return PeerReport {
                present: true,
                connected: false,
                error: Some(PeerError::UnknownChannel),
            };
        },
    };
    proof {
        law_send_keeps_wf(
            connection@,
            channel.0,
            payload@,
            contents(outbox@),
            provider.model(),
        );
    }
    let mut resend_keys: Vec<SlotMapKey> = Vec::new();
    let error = match send_packet(
        connection_channel,
        payload,
        connection.state,
        &mut connection.resender,
        &mut connection.segment_keys_counter,
        &mut connection.orders,
        outbox,
        &mut resend_keys,
    ) {
        Ok(_) => None,
        Err(e) => Some(PeerError::Sending(e)),
    };
    PeerReport { present: true, connected: false, error }
}

/// Whatever message is sent, the connection stays consistent.
pub proof fn law_send_keeps_wf(
    connection: ConnectionView,
    channel: u32,
    payload: Seq<u8>,
    outbox: Seq<Seq<u8>>,
    provider: ProviderView,
)
    requires
        connection.wf(provider),
    ensures
        forall|buffers: Map<u32, Seq<Seq<u8>>>|
            (#[trigger] (ExchangeView { connection, outbox, buffers }).send_message(
                channel,
                payload,
                provider,
            )).after matches Some(after) && after.wf(provider) && after.local == connection.local,
        connection.local.local_id(connection.state, channel) matches Some(id)
            ==> connection.orders.holds(connection.state, id),
{
    if let Some(id) = connection.local.local_id(connection.state, channel) {
        if connection.state is Transfer {
            let i = connection.local.locals.index_of(channel);
            assert(connection.local.locals[i] == channel);
        }
        if let Some(view) = channel_for(connection.state, id, channel, provider) {
            lemma_send_wf(connection.sending(outbox), connection.state, id, view, payload);
        }
    }
}

/// A peer for whose connection time has passed: what is to be sent to it, and what went wrong.
pub struct UpdatedPeer {
    pub peer: u64,
    pub packets: Vec<Vec<u8>>,
    pub error: Option<ConnectionError>,
}

/// What came of time passing: the peers that are still there, and those that were forgotten.
pub struct TickReport {
    pub updated: Vec<UpdatedPeer>,
    pub timed_out: Vec<u64>,
}

/// Whether nothing was received from the peer for too long.
pub open spec fn timed_out(connection: ConnectionView, now: u64) -> bool {
    now - connection.last_time_received_packet > CONNECTION_TIMEOUT
}

/// The milliseconds that a connection is told have passed.
pub open spec fn step_of(delta: u64) -> u32 {
    (delta % 0x1_0000_0000) as u32
}

/// The connections after time has passed: those that have timed out are gone.
pub open spec fn ticked(connections: Map<u64, ConnectionView>, delta: u64, now: u64) -> Map<
    u64,
    ConnectionView,
> {
    Map::new(
        |peer: u64| connections.contains_key(peer) && !timed_out(connections[peer], now),
        |peer: u64| connections[peer].update(step_of(delta), Seq::empty()).after,
    )
}

/// The peers that were updated.
pub open spec fn peers_of(updated: Seq<UpdatedPeer>) -> Seq<u64> {
    updated.map_values(|u: UpdatedPeer| u.peer)
}

/// Whether this is what came of an update.
pub open spec fn reports(updated: UpdatedPeer, outcome: UpdateOutcome) -> bool {
    &&& contents(updated.packets@) == outcome.outbox
    &&& match outcome.result {
        Ok(_) => updated.error is None,
        Err(e) => updated.error == Some(e),
    }
}

/// The connections while time is being let pass, as far as it is done.
spec fn partly(
    before: Map<u64, ConnectionView>,
    after: Map<u64, ConnectionView>,
    done: Seq<u64>,
) -> Map<u64, ConnectionView> {
    Map::new(
        |peer: u64|
            if done.contains(peer) {
                after.contains_key(peer)
            } else {
                before.contains_key(peer)
            },
        |peer: u64|
            if done.contains(peer) {
                after[peer]
            } else {
                before[peer]
            },
    )
}

proof fn lemma_push_contains(s: Seq<u64>, x: u64)
    ensures
        forall|y: u64| #[trigger] s.push(x).contains(y) <==> s.contains(y) || y == x,
        s.no_duplicates() && !s.contains(x) ==> s.push(x).no_duplicates(),
{
    assert forall|y: u64| #[trigger] s.push(x).contains(y) <==> s.contains(y) || y == x by {
        if s.contains(y) {
            let k = choose|k: int| 0 <= k < s.len() && s[k] == y;
            assert(s.push(x)[k] == y);
        }
        assert(s.push(x)[s.len() as int] == x);
    }
}

impl Server {
    /// Lets time pass for all connections, if enough of it has passed, and forgets the peers that
    /// nothing was received from for too long.
    pub fn tick(&mut self, delta: u64, now: u64) -> (r: Option<TickReport>)
        requires
            old(self).wf(),
            forall|peer: u64| #[trigger]
                old(self)@.contains_key(peer) ==> old(self)@[peer].initialized(),
        ensures
            final(self).wf(),
            forall|provider: ProviderView| #[trigger]
                peers_wf(old(self)@, provider) ==> peers_wf(final(self)@, provider),
            r is None <==> delta <= 25,
            match r {
                None => delta <= DELTA_MIN && final(self)@ == old(self)@,
                Some(report) => {
                    &&& delta > DELTA_MIN
                    &&& final(self)@ == ticked(old(self)@, delta, now)
                    &&& report.timed_out@.no_duplicates()
                    &&& forall|peer: u64| #[trigger]
                        report.timed_out@.contains(peer) <==> old(self)@.contains_key(peer)
                            && timed_out(old(self)@[peer], now)
                    &&& lists_keys(final(self)@.dom(), peers_of(report.updated@))
                    &&& forall|i: int|
                        0 <= i < report.updated@.len() ==> reports(
                            #[trigger] report.updated@[i],
                            old(self)@[report.updated@[i].peer].update(
                                step_of(delta),
                                Seq::empty(),
                            ),
                        )
                },
            },
    {
        if delta <= DELTA_MIN {
            return None;
        }
        let ghost before = self@;
        let ghost after = ticked(before, delta, now);
        let step: u32 = (delta % 0x1_0000_0000) as u32;
        let peers = peers_keys(&self.connections);
        let mut updated: Vec<UpdatedPeer> = Vec::new();
        let mut gone: Vec<u64> = Vec::new();
        let ghost mut done: Seq<u64> = Seq::empty();
        let mut i: usize = 0;
        assert(self@ =~= partly(before, after, done));
        while i < peers.len()
            invariant
                before == old(self)@,
                step == step_of(delta),
                after == ticked(before, delta, now),
                self.wf(),
                forall|peer: u64| #[trigger]
                    before.contains_key(peer) ==> before[peer].initialized(),
                lists_keys(before.dom(), peers@),
                i <= peers@.len(),
                done == peers@.take(i as int),
                self@ == partly(before, after, done),
                gone@.no_duplicates(),
                forall|peer: u64| #[trigger]
                    gone@.contains(peer) <==> done.contains(peer) && timed_out(before[peer], now),
                peers_of(updated@).no_duplicates(),
                forall|peer: u64| #[trigger]
                    peers_of(updated@).contains(peer) <==> done.contains(peer)
                        && after.contains_key(peer),
                forall|k: int|
                    0 <= k < updated@.len() ==> reports(
                        #[trigger] updated@[k],
                        before[updated@[k].peer].update(step, Seq::empty()),
                    ),
            decreases peers@.len() - i,
        {
            let peer: u64 = peers[i];
            let ghost so_far = done;
            let ghost earlier = self@;
            proof {
                assert(peers@.contains(peer));
                assert(before.dom().contains(peer));
                if so_far.contains(peer) {
                    let k = choose|k: int| 0 <= k < so_far.len() && so_far[k] == peer;
                    assert(peers@[k] == peers@[i as int]);
                }
                assert(self@.contains_key(peer) && self@[peer] == before[peer]);
                lemma_push_contains(so_far, peer);
                lemma_push_contains(gone@, peer);
                lemma_push_contains(peers_of(updated@), peer);
                done = so_far.push(peer);
                assert(done =~= peers@.take(i + 1));
            }
            match peers_remove(&mut self.connections, peer) {
                Some(connection) => {
                    assert(connection@ == before[peer]);
                    if now > connection.last_time_received_packet && now
                        - connection.last_time_received_packet > CONNECTION_TIMEOUT {
                        gone.push(peer);
                        assert(self@ =~= earlier.remove(peer));
                        assert(!after.contains_key(peer));
                    } else {
                        let ghost was = updated@;
                        let mut connection = connection;
                        let mut packets: Vec<Vec<u8>> = Vec::new();
                        assert(contents(packets@) =~= Seq::empty());
                        let error = match update_connection(step, &mut connection, &mut packets) {
                            Ok(_) => None,
                            Err(e) => Some(e),
                        };
                        peers_insert(&mut self.connections, peer, connection);
                        assert(self@ =~= earlier.insert(peer, after[peer]));
                        updated.push(UpdatedPeer { peer, packets, error });
                        assert(peers_of(updated@) =~= peers_of(was).push(peer));
                    }
                },
                None => {},
            }
            assert forall|p: u64| #[trigger]
                self@.contains_key(p) == partly(before, after, done).contains_key(p) by {
                assert(done.contains(p) <==> so_far.contains(p) || p == peer);
            }
            assert(self@ =~= partly(before, after, done));
            i += 1;
        }
        proof {
            assert(done =~= peers@);
            assert forall|peer: u64| done.contains(peer) == #[trigger] before.contains_key(
                peer,
            ) by {
                assert(before.dom().contains(peer) <==> peers@.contains(peer));
            }
            assert(self@ =~= after);
            assert forall|provider: ProviderView| #[trigger]
                peers_wf(before, provider) implies peers_wf(self@, provider) by {
                assert forall|peer: u64| #[trigger] self@.contains_key(peer) implies self@[peer].wf(
                    provider,
                ) && self@[peer].initialized() by {
                    assert(before.contains_key(peer));
                    law_update_keeps_wf(before[peer], step, Seq::empty(), provider);
                }
            }
        }
        Some(TickReport { updated, timed_out: gone })
    }
}

/// What happens to the connection with one peer leaves all others alone.
pub proof fn law_other_peers_are_left_alone(
    connections: Map<u64, ConnectionView>,
    peer: u64,
    connection: Option<ConnectionView>,
    other: u64,
)
    requires
        other != peer,
    ensures
        with_peer(connections, peer, connection).contains_key(other) == connections.contains_key(
            other,
        ),
        connections.contains_key(other) ==> with_peer(connections, peer, connection)[other]
            == connections[other],
{
}

} // verus!
