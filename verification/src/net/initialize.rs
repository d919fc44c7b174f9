//! Telling the other side which channels there are.
//!
//! A packet of the registration stage holds a channel's name and the id that this side gives it.
//! The last one holds an empty name and nothing else.
use super::channel_data::{ChannelDataView, ConnectionChannelMessageSwapBuffer, GlobalChannelData};
use super::connection::{buffers_view, exchange, Connection};
use super::consistency::{lemma_room, lemma_send_wf};
use super::id::{
    ChannelId, ConnectionState, GlobalChannelId, CHANNEL_MANAGEMENT_CHANNEL_ID_REGISTRATION_STAGE,
    NULL_CHANNEL_ID,
};
use super::mapper::{law_insert, without, ACK_CHANNEL_NAME};
use super::model::{ConnectionView, ExchangeOutcome, ExchangeView};
use super::packet::{ChannelName, ConnectionError};
use super::provider::{
    channel_management_channel, channel_management_channel_view, lists, ChannelProvider,
    ProviderView,
};
use super::resend::ResenderView;
use super::send::{send_packet, ConnectionChannel, SendOutcome};
use crate::proto::encode::Encode;
use crate::proto::round_trip::RoundTrip;
use crate::proto::VarInt;
use crate::util::slot_map::SlotMapKey;
use vstd::prelude::*;
use vstd::string::StringSliceAdditionalSpecFns;
use vstd::utf8::encode_utf8;

verus! {

/// A channel by its name and its global id.
pub struct NamedId {
    pub name: Seq<char>,
    pub id: u32,
}

/// The names and ids in plain values.
pub open spec fn named(all: Seq<(&str, ChannelId<GlobalChannelId>)>) -> Seq<NamedId> {
    all.map_values(|entry: (&str, ChannelId<GlobalChannelId>)| NamedId {
        name: entry.0@,
        id: entry.1.0,
    })
}

/// Whether the channels that are used more often come first.
pub open spec fn by_frequency(all: Seq<NamedId>, provider: ProviderView) -> bool {
    forall|i: int, j: int|
        0 <= i < j < all.len() ==> provider.channels[(#[trigger] all[i]).id].frequency
            >= provider.channels[(#[trigger] all[j]).id].frequency
}

/// Whether channels that are used equally often are in the same order in both lists.
pub open spec fn keeps_ties(all: Seq<NamedId>, sorted: Seq<NamedId>, provider: ProviderView) -> bool {
    forall|a: int, b: int, c: int, d: int|
        #![trigger all[a], all[b], sorted[c], sorted[d]]
        0 <= a < b < all.len() && 0 <= c < sorted.len() && 0 <= d < sorted.len() && sorted[c]
            == all[a] && sorted[d] == all[b] && provider.channels[all[a].id].frequency
            == provider.channels[all[b].id].frequency ==> c < d
}

/// How many more packets may wait for their acknowledgement because of the first `n` channels.
pub open spec fn added_capacity(all: Seq<NamedId>, n: nat, provider: ProviderView) -> nat
    decreases n,
{
    if n == 0 {
        0
    } else {
        added_capacity(all, (n - 1) as nat, provider) + match provider.channels[all[n
            - 1].id].reliability {
            Some(reliability) => reliability.additional_capacity as nat,
            None => 0,
        }
    }
}

/// A channel's name as it is sent.
pub open spec fn name_bytes(name: Seq<char>) -> Seq<u8> {
    VarInt(encode_utf8(name).len() as u32).encoding() + encode_utf8(name)
}

impl ConnectionView {
    /// Room for more packets.
    pub open spec fn enlarged(self, capacity: nat) -> Self {
        let total = self.resender.capacity + capacity;
        ConnectionView {
            resender: ResenderView {
                capacity: if total <= usize::MAX {
                    total as usize
                } else {
                    usize::MAX
                },
                ..self.resender
            },
            ..self
        }
    }

    /// A channel has the id `local_id` from now on.
    pub open spec fn given(self, local_id: u32, channel: NamedId) -> Self {
        ConnectionView {
            local: self.local.insert(local_id, channel.id, channel.name),
            ..self
        }
    }

    /// The next message of the channel `local_id` is its first.
    pub open spec fn numbered(self, local_id: u32) -> Self {
        ConnectionView {
            orders: ChannelDataView {
                basic: if (local_id as int) < self.orders.basic.len() {
                    self.orders.basic.update(local_id as int, 0)
                } else {
                    self.orders.basic.push(0)
                },
                ..self.orders
            },
            ..self
        }
    }
}

impl ExchangeView {
    /// A packet of the registration stage is sent.
    pub open spec fn tell(self, payload: Seq<u8>) -> SendOutcome {
        self.connection.sending(self.outbox).send(
            self.connection.state,
            CHANNEL_MANAGEMENT_CHANNEL_ID_REGISTRATION_STAGE,
            channel_management_channel_view(),
            payload,
        )
    }

    /// One channel gets its id, and the other side is told.
    pub open spec fn announce(self, local_id: u32, channel: NamedId) -> ExchangeView {
        let given = self.with(self.connection.given(local_id, channel));
        let told = given.tell(name_bytes(channel.name) + VarInt(local_id).encoding());
        ExchangeView {
            connection: given.connection.sent(told.after).numbered(local_id),
            outbox: told.after.outbox,
            buffers: self.buffers.insert(channel.id, Seq::empty()),
        }
    }

    /// The channels from the `from`-th on get their ids, in this order, up to the first whose name
    /// is too long.
    pub open spec fn announce_all(self, all: Seq<NamedId>, from: nat) -> ExchangeOutcome
        decreases all.len() - from,
    {
        if from >= all.len() {
            self.ok()
        } else if encode_utf8(all[from as int].name).len() > 500 {
            self.with(self.connection.given(from as u32, all[from as int])).fail(
                ConnectionError::EncodeError,
            )
        } else {
            self.announce(from as u32, all[from as int]).announce_all(all, from + 1)
        }
    }

    /// The other side is told that there are no more channels; that packet's acknowledgement is
    /// waited for.
    pub open spec fn conclude(self) -> ExchangeOutcome {
        let told = self.tell(name_bytes(""@));
        let c = self.connection.sent(told.after);
        let after = ExchangeView { connection: c, outbox: told.after.outbox, ..self };
        match told.result {
            Err(e) => after.fail(e),
            Ok(_) => match c.state {
                ConnectionState::Registration { received_last_packet, .. } => after.with(
                    ConnectionView {
                        state: ConnectionState::Registration {
                            received_last_packet,
                            last_packet_resend_key: Some(told.after.resend_keys[0]),
                        },
                        ..c
                    },
                ).ok(),
                ConnectionState::Transfer => after.ok(),
            },
        }
    }

    /// All channels get their ids, in this order, and the other side is told.
    pub open spec fn initialize(self, all: Seq<NamedId>, provider: ProviderView) -> ExchangeOutcome {
        let enlarged = self.with(
            self.connection.enlarged(added_capacity(all, all.len(), provider)),
        );
        let announced = enlarged.announce_all(all, 0);
        if announced.result is Ok {
            announced.after.conclude()
        } else {
            announced
        }
    }
}

/// The channels, those that are used more often first; those that are used equally often stay in
/// the order in which they are given.
pub fn sorted_by_frequency<'a, P: ChannelProvider>(
    all: Vec<(&'a str, ChannelId<GlobalChannelId>)>,
    provider: &P,
) -> (sorted: Vec<(&'a str, ChannelId<GlobalChannelId>)>)
    requires
        lists(provider.model().names, all@),
        provider.model().valid(),
    ensures
        lists(provider.model().names, sorted@),
        by_frequency(named(sorted@), provider.model()),
        keeps_ties(named(all@), named(sorted@), provider.model()),
{
    let ghost model = provider.model();
    let mut sorted: Vec<(&'a str, ChannelId<GlobalChannelId>)> = Vec::new();
    let mut frequencies: Vec<u32> = Vec::new();
    let ghost mut places: Seq<int> = Seq::empty();
    let mut i: usize = 0;
    while i < all.len()
        invariant
            model == provider.model(),
            model.valid(),
            lists(model.names, all@),
            i <= all@.len(),
            sorted@.len() == i == places.len() == frequencies@.len(),
            forall|k: int| 0 <= k < i ==> 0 <= #[trigger] places[k] < i,
            forall|k: int| 0 <= k < i ==> #[trigger] sorted@[k] == all@[places[k]],
            forall|k: int|
                0 <= k < i ==> #[trigger] frequencies@[k]
                    == model.channels[sorted@[k].1.0].frequency,
            forall|a: int, b: int| 0 <= a < b < i ==> places[a] != places[b],
            forall|a: int, b: int| 0 <= a < b < i ==> frequencies@[a] >= frequencies@[b],
            forall|a: int, b: int|
                0 <= a < b < i && frequencies@[a] == frequencies@[b] ==> places[a] < places[b],
            forall|j: int| 0 <= j < i ==> places.contains(j),
        decreases all@.len() - i,
    {
        let entry = all[i];
        assert(model.names.contains_key(all@[i as int].0@));
        let frequency: u32 = match provider.by_id(entry.1) {
            Some(channel) => channel.frequency.0,
            None => 0,
        };
        let mut p: usize = i;
        while p > 0 && frequencies[p - 1] < frequency
            invariant
                p <= i,
                i == frequencies@.len(),
                forall|k: int| p <= k < i ==> frequencies@[k] < frequency,
            decreases p,
        {
            p -= 1;
        }
        let ghost before = places;
        sorted.insert(p, entry);
        frequencies.insert(p, frequency);
        proof {
            places = places.insert(p as int, i as int);
            assert forall|j: int| 0 <= j < i + 1 implies places.contains(j) by {
                if j == i {
                    assert(places[p as int] == j);
                } else {
                    assert(before.contains(j));
                    let k = choose|k: int| 0 <= k < before.len() && before[k] == j;
                    assert(places[if k < p { k } else { k + 1 }] == j);
                }
            }
        }
        i += 1;
    }
    proof {
        assert forall|name: Seq<char>| #[trigger] model.names.contains_key(name) implies exists|
            k: int,
        | 0 <= k < sorted@.len() && (#[trigger] sorted@[k]).0@ == name by {
            let j = choose|j: int| 0 <= j < all@.len() && (#[trigger] all@[j]).0@ == name;
            assert(places.contains(j));
            let k = choose|k: int| 0 <= k < places.len() && places[k] == j;
            assert(sorted@[k].0@ == name);
        }
        assert forall|a: int, b: int| 0 <= a < b < sorted@.len() implies (#[trigger] sorted@[a]).0@
            != (#[trigger] sorted@[b]).0@ by {
            assert(places[a] != places[b]);
        }
        assert forall|a: int, b: int| 0 <= a < b < named(sorted@).len() implies model.channels[(
        #[trigger] named(sorted@)[a]).id].frequency >= model.channels[(
        #[trigger] named(sorted@)[b]).id].frequency by {
            assert(frequencies@[a] >= frequencies@[b]);
        }
        let given = named(all@);
        let list = named(sorted@);
        assert forall|a: int, b: int, c: int, d: int|
            #![trigger given[a], given[b], list[c], list[d]]
            0 <= a < b < given.len() && 0 <= c < list.len() && 0 <= d < list.len() && list[c]
                == given[a] && list[d] == given[b] && model.channels[given[a].id].frequency
                == model.channels[given[b].id].frequency implies c < d by {
            lemma_same_entry(all@, model, places[c], a);
            lemma_same_entry(all@, model, places[d], b);
            assert(frequencies@[c] == frequencies@[d]);
            if d < c {
                assert(places[d] < places[c]);
            }
        }
    }
    sorted
}

/// An entry occurs once.
proof fn lemma_same_entry(
    all: Seq<(&str, ChannelId<GlobalChannelId>)>,
    provider: ProviderView,
    i: int,
    j: int,
)
    requires
        lists(provider.names, all),
        0 <= i < all.len(),
        0 <= j < all.len(),
        named(all)[i] == named(all)[j],
    ensures
        i == j,
{
    if i < j {
        assert(all[i].0@ != all[j].0@);
    } else if j < i {
        assert(all[j].0@ != all[i].0@);
    }
}

/// The channels' ids.
pub open spec fn ids_of(all: Seq<NamedId>) -> Seq<u32> {
    all.map_values(|channel: NamedId| channel.id)
}

/// Whether the channels are known ones, no two of which are the same.
pub open spec fn distinct_channels(all: Seq<NamedId>, provider: ProviderView) -> bool {
    &&& ids_of(all).no_duplicates()
    &&& forall|i: int|
        0 <= i < all.len() ==> provider.names.contains_key((#[trigger] all[i]).name)
            && provider.names[all[i].name] == all[i].id
}

/// A list in which each name occurs once holds distinct channels.
pub proof fn lemma_listed(all: Seq<(&str, ChannelId<GlobalChannelId>)>, provider: ProviderView)
    requires
        lists(provider.names, all),
        provider.valid(),
    ensures
        distinct_channels(named(all), provider),
        exists|i: int|
            0 <= i < named(all).len() && (#[trigger] named(all)[i]).name == ACK_CHANNEL_NAME@,
{
    let list = named(all);
    assert forall|i: int| 0 <= i < list.len() implies provider.names.contains_key(
        (#[trigger] list[i]).name,
    ) && provider.names[list[i].name] == list[i].id by {
        assert(provider.names.contains_key(all[i].0@));
    }
    assert forall|i: int, j: int| 0 <= i < list.len() && 0 <= j < list.len() && i
        != j implies ids_of(list)[i] != ids_of(list)[j] by {
        assert(all[i].0@ != all[j].0@);
        assert(provider.names.contains_key(list[i].name));
        assert(provider.names.contains_key(list[j].name));
    }
    let k = choose|k: int| 0 <= k < all.len() && (#[trigger] all[k]).0@ == ACK_CHANNEL_NAME@;
    assert(list[k].name == ACK_CHANNEL_NAME@);
}

/// How far the ids have been given out.
pub open spec fn announced(
    connection: ConnectionView,
    all: Seq<NamedId>,
    n: nat,
    provider: ProviderView,
) -> bool {
    &&& connection.wf(provider)
    &&& connection.state is Registration
    &&& connection.local.locals == ids_of(all).take(n as int)
}

proof fn lemma_given(
    connection: ConnectionView,
    all: Seq<NamedId>,
    n: nat,
    provider: ProviderView,
)
    requires
        announced(connection, all, n, provider),
        n < all.len(),
        distinct_channels(all, provider),
        provider.valid(),
    ensures
        connection.local.accepts(n as u32),
        without(connection.local.locals, all[n as int].id).len() < NULL_CHANNEL_ID,
        n < NULL_CHANNEL_ID,
        connection.given(n as u32, all[n as int]).local.wf(),
        connection.given(n as u32, all[n as int]).local.locals == ids_of(all).take(n as int + 1),
{
    let locals = connection.local.locals;
    let channel = all[n as int];
    assert(provider.names.contains_key(channel.name));
    assert(provider.names_id(channel.id));
    if locals.contains(channel.id) {
        let i = locals.index_of(channel.id);
        assert(ids_of(all)[i] == ids_of(all)[n as int]);
    }
    lemma_room(locals, provider, channel.id);
    law_insert(connection.local, n as u32, channel.id, channel.name);
    assert(locals.insert(n as int, channel.id) =~= ids_of(all).take(n as int + 1));
}

proof fn lemma_announce(
    exchange: ExchangeView,
    all: Seq<NamedId>,
    n: nat,
    provider: ProviderView,
)
    requires
        announced(exchange.connection, all, n, provider),
        n < all.len(),
        distinct_channels(all, provider),
        provider.valid(),
    ensures
        announced(
            exchange.announce(n as u32, all[n as int]).connection,
            all,
            n + 1,
            provider,
        ),
{
    let c = exchange.connection;
    let channel = all[n as int];
    lemma_given(c, all, n, provider);
    let given = exchange.with(c.given(n as u32, channel));
    let payload = name_bytes(channel.name) + VarInt(n as u32).encoding();
    lemma_send_wf(
        given.connection.sending(exchange.outbox),
        c.state,
        CHANNEL_MANAGEMENT_CHANNEL_ID_REGISTRATION_STAGE,
        channel_management_channel_view(),
        payload,
    );
    let after = exchange.announce(n as u32, channel).connection;
    assert forall|i: int| 0 <= i < after.local.locals.len() implies provider.names_id(
        #[trigger] after.local.locals[i],
    ) by {
        assert(after.local.locals[i] == all[i].id);
        assert(provider.names.contains_key(all[i].name));
    }
}

/// Gives ids to the channels in this order, and tells the other side.
fn announce_channels<P: ChannelProvider>(
    connection: &mut Connection,
    all: &Vec<(&str, ChannelId<GlobalChannelId>)>,
    buffers: &mut GlobalChannelData<ConnectionChannelMessageSwapBuffer>,
    outbox: &mut Vec<Vec<u8>>,
    provider: &P,
) -> (r: Result<(), ConnectionError>)
    requires
        old(connection).wf(),
        announced(old(connection)@, named(all@), 0, provider.model()),
        distinct_channels(named(all@), provider.model()),
        provider.model().valid(),
    ensures
        final(connection).wf(),
        final(connection)@.state == old(connection)@.state,
        (ExchangeOutcome {
            after: exchange(final(connection)@, final(outbox)@, final(buffers)@),
            result: r,
        }) == exchange(old(connection)@, old(outbox)@, old(buffers)@).announce_all(
            named(all@),
            0,
        ),
{
    let ghost model = provider.model();
    let ghost list = named(all@);
    let ghost whole = exchange(connection@, outbox@, buffers@).announce_all(list, 0);
    let channel = ConnectionChannel::<true> {
        local_id: ChannelId::new(CHANNEL_MANAGEMENT_CHANNEL_ID_REGISTRATION_STAGE),
        channel: channel_management_channel(),
    };
    let mut i: usize = 0;
    while i < all.len()
        invariant
            channel.local_id.0 == CHANNEL_MANAGEMENT_CHANNEL_ID_REGISTRATION_STAGE,
            channel.channel@ == channel_management_channel_view(),
            list == named(all@),
            model == provider.model(),
            model.valid(),
            distinct_channels(list, model),
            i <= all@.len(),
            connection.wf(),
            connection@.state == old(connection)@.state,
            announced(connection@, list, i as nat, model),
            whole == exchange(old(connection)@, old(outbox)@, old(buffers)@).announce_all(list, 0),
            whole == exchange(connection@, outbox@, buffers@).announce_all(list, i as nat),
        decreases all@.len() - i,
    {
        let ghost before = exchange(connection@, outbox@, buffers@);
        proof {
            lemma_given(connection@, list, i as nat, model);
            lemma_announce(before, list, i as nat, model);
        }
        let (name, id) = all[i];
        assert(list[i as int] == (NamedId { name: name@, id: id.0 }));
        let channel_id = ChannelId::new(i as u32);
        let _ = connection.id_mapper.local_inner.insert(channel_id, id, name);
        let ghost given = before.with(before.connection.given(i as u32, list[i as int]));
        assert(exchange(connection@, outbox@, buffers@) == given);
        let mut buffer: Vec<u8> = Vec::new();
        match ChannelName::new(name).encode(&mut buffer) {
            Ok(_) => {},
            Err(_) => {
                return Err(ConnectionError::EncodeError);
            },
        }
        let _ = VarInt(channel_id.0).encode(&mut buffer);
        assert(buffer@ =~= name_bytes(name@) + VarInt(i as u32).encoding());
        let mut resend_keys: Vec<SlotMapKey> = Vec::new();
        let _ = send_packet(
            channel,
            buffer.as_slice(),
            connection.state,
            &mut connection.resender,
            &mut connection.segment_keys_counter,
            &mut connection.orders,
            outbox,
            &mut resend_keys,
        );
        let ghost told = given.tell(buffer@);
        assert(connection@ =~= given.connection.sent(told.after));
        connection.orders.set(ConnectionState::Transfer, channel_id, 0);
        let _ = buffers.insert(id, ConnectionChannelMessageSwapBuffer::default());
        proof {
            let after = before.announce(i as u32, list[i as int]);
            assert(connection@.orders.basic =~= after.connection.orders.basic);
            assert(connection@ =~= after.connection);
            assert(buffers_view(buffers@) =~= after.buffers);
            assert(exchange(connection@, outbox@, buffers@) == after);
        }
        i += 1;
    }
    Ok(())
}

/// The empty name is sent as a single packet.
proof fn lemma_empty_name()
    ensures
        encode_utf8(""@).len() == 0,
        name_bytes(""@).len() <= 5,
{
    reveal_strlit("");
    assert(encode_utf8(""@) =~= Seq::empty());
    VarInt(0u32).law_round_trip(Seq::empty());
}

/// Whether each name occurs once in the list, with its id.
pub open spec fn is_listing(all: Seq<NamedId>, provider: ProviderView) -> bool {
    &&& distinct_channels(all, provider)
    &&& forall|name: Seq<char>| #[trigger]
        provider.names.contains_key(name) ==> exists|i: int|
            0 <= i < all.len() && (#[trigger] all[i]).name == name
}

/// Tells the other side which channels there are, in this order. It fails if a name is too long,
/// or if the last packet cannot be kept until it is acknowledged.
pub fn initialize_in_order<P: ChannelProvider>(
    connection: &mut Connection,
    all: &Vec<(&str, ChannelId<GlobalChannelId>)>,
    buffers: &mut GlobalChannelData<ConnectionChannelMessageSwapBuffer>,
    outbox: &mut Vec<Vec<u8>>,
    provider: &P,
) -> (r: Result<(), ConnectionError>)
    requires
        old(connection).wf(),
        old(connection)@.wf(provider.model()),
        old(connection)@.state is Registration,
        old(connection)@.local.locals.len() == 0,
        distinct_channels(named(all@), provider.model()),
        provider.model().valid(),
    ensures
        final(connection).wf(),
        (ExchangeOutcome {
            after: exchange(final(connection)@, final(outbox)@, final(buffers)@),
            result: r,
        }) == exchange(old(connection)@, old(outbox)@, old(buffers)@).initialize(
            named(all@),
            provider.model(),
        ),
{
    let ghost model = provider.model();
    let ghost list = named(all@);
    let ghost before = exchange(connection@, outbox@, buffers@);
    let mut i: usize = 0;
    while i < all.len()
        invariant
            model == provider.model(),
            model.valid(),
            list == named(all@),
            distinct_channels(list, model),
            i <= all@.len(),
            connection.wf(),
            connection@ == before.connection.enlarged(added_capacity(list, i as nat, model)),
        decreases all@.len() - i,
    {
        let (_, id) = all[i];
        assert(list[i as int].id == id.0);
        assert(model.names.contains_key(list[i as int].name));
        let more: usize = match provider.by_id(id) {
            Some(channel) => match channel.reliability {
                Some(reliable_channel) => reliable_channel.additional_capacity,
                None => 0,
            },
            None => 0,
        };
        let capacity = connection.resender.mut_capacity();
        *capacity = capacity.saturating_add(more);
        i += 1;
        assert(connection@ =~= before.connection.enlarged(added_capacity(list, i as nat, model)));
    }
    let ghost enlarged = before.with(
        before.connection.enlarged(added_capacity(list, list.len(), model)),
    );
    assert(connection@.local.locals =~= ids_of(list).take(0));
    match announce_channels(connection, all, buffers, outbox, provider) {
        Ok(_) => {},
        Err(e) => {
            return Err(e);
        },
    }
    let ghost told_all = exchange(connection@, outbox@, buffers@);
    proof {
        lemma_empty_name();
    }
    let mut buffer: Vec<u8> = Vec::new();
    match ChannelName::new("").encode(&mut buffer) {
        Ok(_) => {},
        Err(_) => {
            return Err(ConnectionError::EncodeError);
        },
    }
    assert(buffer@ =~= name_bytes(""@));
    let channel = ConnectionChannel::<true> {
        local_id: ChannelId::new(CHANNEL_MANAGEMENT_CHANNEL_ID_REGISTRATION_STAGE),
        channel: channel_management_channel(),
    };
    let mut resend_keys: Vec<SlotMapKey> = Vec::new();
    let told = send_packet(
        channel,
        buffer.as_slice(),
        connection.state,
        &mut connection.resender,
        &mut connection.segment_keys_counter,
        &mut connection.orders,
        outbox,
        &mut resend_keys,
    );
    assert(connection@ =~= told_all.connection.sent(told_all.tell(buffer@).after));
    match told {
        Ok(_) => {},
        Err(e) => {
            return Err(e);
        },
    }
    if let ConnectionState::Registration { received_last_packet, .. } = connection.state {
        connection.state =
        ConnectionState::Registration {
            received_last_packet,
            last_packet_resend_key: Some(resend_keys[0]),
        };
    }
    Ok(())
}

/// Tells the other side which channels there are, those that are used more often first; those that
/// are used equally often are told in the order in which the provider gives them.
pub fn initialize_connection<P: ChannelProvider>(
    connection: &mut Connection,
    buffers: &mut GlobalChannelData<ConnectionChannelMessageSwapBuffer>,
    outbox: &mut Vec<Vec<u8>>,
    provider: &P,
) -> (r: Result<(), ConnectionError>)
    requires
        old(connection).wf(),
        old(connection)@.wf(provider.model()),
        old(connection)@.state is Registration,
        old(connection)@.local.locals.len() == 0,
        provider.model().valid(),
    ensures
        final(connection).wf(),
        r is Ok ==> final(connection)@.wf(provider.model()) && final(connection)@.initialized(),
        exists|given: Vec<(&str, ChannelId<GlobalChannelId>)>, all: Seq<NamedId>|
            {
                &&& call_ensures(P::all, (provider,), given)
                &&& #[trigger] is_listing(all, provider.model())
                &&& by_frequency(all, provider.model())
                &&& #[trigger] keeps_ties(named(given@), all, provider.model())
                &&& (ExchangeOutcome {
                    after: exchange(final(connection)@, final(outbox)@, final(buffers)@),
                    result: r,
                }) == exchange(old(connection)@, old(outbox)@, old(buffers)@).initialize(
                    all,
                    provider.model(),
                )
            },
{
    let given = provider.all();
    let ghost before = given;
    let all = sorted_by_frequency(given, provider);
    proof {
        let list = named(all@);
        lemma_listed(all@, provider.model());
        assert forall|name: Seq<char>| #[trigger]
            provider.model().names.contains_key(name) implies exists|i: int|
            0 <= i < list.len() && (#[trigger] list[i]).name == name by {
            let k = choose|k: int| 0 <= k < all@.len() && (#[trigger] all@[k]).0@ == name;
            assert(list[k].name == name);
        }
        assert(is_listing(list, provider.model()));
        law_initialize(exchange(connection@, outbox@, buffers@), list, provider.model());
    }
    initialize_in_order(connection, &all, buffers, outbox, provider)
}

/// The acknowledgement channel is known under its id if it is among the first `n`.
pub open spec fn knows_ack(connection: ConnectionView, all: Seq<NamedId>, n: nat) -> bool {
    forall|i: int|
        0 <= i < n && (#[trigger] all[i]).name == ACK_CHANNEL_NAME@ ==> connection.local.ack
            != NULL_CHANNEL_ID && connection.local.locals[connection.local.ack as int] == all[i].id
}

/// Messages can be delivered to the channels from the `from`-th on.
pub open spec fn covers(buffers: Map<u32, Seq<Seq<u8>>>, all: Seq<NamedId>, from: nat) -> bool {
    forall|i: int| from <= i < all.len() ==> buffers.contains_key((#[trigger] all[i]).id)
}

/// Whether the names from the `from`-th on can be sent.
pub open spec fn short_names(all: Seq<NamedId>, from: nat) -> bool {
    forall|i: int| from <= i < all.len() ==> encode_utf8((#[trigger] all[i]).name).len() <= 500
}

proof fn lemma_announce_all(
    exchange: ExchangeView,
    all: Seq<NamedId>,
    from: nat,
    provider: ProviderView,
)
    requires
        announced(exchange.connection, all, from, provider),
        from <= all.len(),
        distinct_channels(all, provider),
        provider.valid(),
        knows_ack(exchange.connection, all, from),
    ensures
        ({
            let outcome = exchange.announce_all(all, from);
            let after = outcome.after.connection;
            &&& outcome.result is Ok <==> short_names(all, from)
            &&& outcome.result is Ok ==> announced(after, all, all.len(), provider)
            &&& outcome.result is Ok ==> knows_ack(after, all, all.len())
            &&& outcome.result is Ok ==> covers(outcome.after.buffers, all, from)
            &&& after.state == exchange.connection.state
            &&& after.remote == exchange.connection.remote
            &&& after.orderers == exchange.connection.orderers
            &&& forall|id: u32| #[trigger]
                exchange.buffers.contains_key(id) ==> outcome.after.buffers.contains_key(id)
        }),
    decreases all.len() - from,
{
    if from < all.len() {
        let channel = all[from as int];
        lemma_given(exchange.connection, all, from, provider);
        if encode_utf8(channel.name).len() <= 500 {
            lemma_announce(exchange, all, from, provider);
            let next = exchange.announce(from as u32, channel);
            law_insert(exchange.connection.local, from as u32, channel.id, channel.name);
            assert forall|i: int| 0 <= i < from + 1 && (#[trigger] all[i]).name
                == ACK_CHANNEL_NAME@ implies next.connection.local.ack != NULL_CHANNEL_ID
                && next.connection.local.locals[next.connection.local.ack as int] == all[i].id by {
                if i < from && channel.name == ACK_CHANNEL_NAME@ {
                    assert(ids_of(all)[i] == ids_of(all)[from as int]);
                }
            }
            lemma_announce_all(next, all, from + 1, provider);
            assert(next.buffers.contains_key(channel.id));
            assert(short_names(all, from) <==> short_names(all, from + 1));
            assert forall|id: u32| #[trigger]
                exchange.buffers.contains_key(id) implies exchange.announce_all(
                all,
                from,
            ).after.buffers.contains_key(id) by {
                assert(next.buffers.contains_key(id));
            }
        } else {
            assert(!short_names(all, from));
        }
    }
}

/// Once the other side is told which channels there are, the connection is consistent, the
/// channels have their ids in the order in which they were told, and messages can be delivered to
/// all of them; what the other side has told is not concerned. That goes well if the names are short enough and the last packet can be kept until
/// it is acknowledged, and only then.
pub proof fn law_initialize(exchange: ExchangeView, all: Seq<NamedId>, provider: ProviderView)
    requires
        exchange.connection.wf(provider),
        exchange.connection.state is Registration,
        exchange.connection.local.locals.len() == 0,
        is_listing(all, provider),
        provider.valid(),
    ensures
        ({
            let outcome = exchange.initialize(all, provider);
            let after = outcome.after.connection;
            let told = exchange.with(
                exchange.connection.enlarged(added_capacity(all, all.len(), provider)),
            ).announce_all(all, 0);
            &&& outcome.result is Ok <==> short_names(all, 0)
                && !told.after.connection.resender.full()
            &&& outcome.result is Ok ==> {
                &&& after.wf(provider)
                &&& after.state is Registration
                &&& after.initialized()
                &&& after.local.locals == ids_of(all)
                &&& after.local.locals[after.local.ack as int] == provider.names[ACK_CHANNEL_NAME@]
                &&& covers(outcome.after.buffers, all, 0)
                &&& after.remote == exchange.connection.remote
                &&& after.orderers == exchange.connection.orderers
            }
        }),
{
    let c = exchange.connection.enlarged(added_capacity(all, all.len(), provider));
    let enlarged = exchange.with(c);
    assert(c.local.locals =~= ids_of(all).take(0));
    lemma_announce_all(enlarged, all, 0, provider);
    let told = enlarged.announce_all(all, 0);
    let k = choose|k: int| 0 <= k < all.len() && (#[trigger] all[k]).name == ACK_CHANNEL_NAME@;
    assert(provider.names.contains_key(ACK_CHANNEL_NAME@));
    assert(ids_of(all).take(all.len() as int) =~= ids_of(all));
    lemma_empty_name();
    if told.result is Ok {
        lemma_send_wf(
            told.after.connection.sending(told.after.outbox),
            told.after.connection.state,
            CHANNEL_MANAGEMENT_CHANNEL_ID_REGISTRATION_STAGE,
            channel_management_channel_view(),
            name_bytes(""@),
        );
    }
}

/// Giving ids to channels does not change the state.
pub proof fn lemma_announce_keeps_state(exchange: ExchangeView, all: Seq<NamedId>, from: nat)
    ensures
        exchange.announce_all(all, from).after.connection.state == exchange.connection.state,
    decreases all.len() - from,
{
    if from < all.len() {
        lemma_announce_keeps_state(
            exchange.announce(from as u32, all[from as int]),
            all,
            from + 1,
        );
    }
}

} // verus!
