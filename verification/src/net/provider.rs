//! Which channels there are.
use super::channel::{
    Channel, ChannelFrequency, ChannelView, OrderedChannel, Reliability, ReliableChannel,
};
use super::id::{ChannelId, GlobalChannelId, NULL_CHANNEL_ID};
use super::mapper::{ACK_CHANNEL_NAME, CHANNEL_MANAGEMENT_CHANNEL_NAME};
use crate::util::non_zero::{NonZeroU32, NonZeroUsize};
use bevy::platform::collections::HashMap;
use vstd::prelude::*;

verus! {

/// The channels by their global ids, and the ids by the channels' names.
#[verifier::ext_equal]
pub struct ProviderView {
    pub channels: Map<u32, ChannelView>,
    pub names: Map<Seq<char>, u32>,
}

impl ProviderView {
    /// Every name stands for a channel of its own, ids are numbers of 31 bits, and the
    /// acknowledgement channel is there.
    pub open spec fn valid(self) -> bool {
        &&& self.names.contains_key(ACK_CHANNEL_NAME@)
        &&& forall|name: Seq<char>| #[trigger]
            self.names.contains_key(name) ==> self.channels.contains_key(self.names[name])
                && self.names[name] < NULL_CHANNEL_ID
        &&& self.one_name_each()
    }

    /// No two names stand for the same id.
    pub open spec fn one_name_each(self) -> bool {
        forall|a: Seq<char>, b: Seq<char>|
            #![trigger self.names.contains_key(a), self.names.contains_key(b)]
            self.names.contains_key(a) && self.names.contains_key(b) && self.names[a]
                == self.names[b] ==> a == b
    }

    /// Whether an id stands for a channel with a name.
    pub open spec fn names_id(self, id: u32) -> bool {
        exists|name: Seq<char>| #[trigger] self.names.contains_key(name) && self.names[name] == id
    }
}

/// Whether `all` lists the names and their ids, each name once.
pub open spec fn lists(names: Map<Seq<char>, u32>, all: Seq<(&str, ChannelId<GlobalChannelId>)>) -> bool {
    &&& forall|i: int|
        0 <= i < all.len() ==> names.contains_key((#[trigger] all[i]).0@) && names[all[i].0@]
            == all[i].1.0
    &&& forall|i: int, j: int|
        0 <= i < j < all.len() ==> (#[trigger] all[i]).0@ != (#[trigger] all[j]).0@
    &&& forall|name: Seq<char>| #[trigger]
        names.contains_key(name) ==> exists|i: int|
            0 <= i < all.len() && (#[trigger] all[i]).0@ == name
}

/// Knows the channels of a program.
pub trait ChannelProvider {
    /// The channels that it knows.
    spec fn model(&self) -> ProviderView;

    fn by_id(&self, id: ChannelId<GlobalChannelId>) -> (r: Option<&Channel>)
        ensures
            match r {
                Some(channel) => self.model().channels.contains_key(id.0) && channel@
                    == self.model().channels[id.0],
                None => !self.model().channels.contains_key(id.0),
            },
    ;

    fn by_name(&self, name: &str) -> (r: Option<ChannelId<GlobalChannelId>>)
        ensures
            match r {
                Some(id) => self.model().names.contains_key(name@) && id.0
                    == self.model().names[name@],
                None => !self.model().names.contains_key(name@),
            },
    ;

    /// All names with their ids, in no particular order.
    fn all(&self) -> (r: Vec<(&str, ChannelId<GlobalChannelId>)>)
        ensures
            lists(self.model().names, r@),
    ;
}

/// The channel through which packets are acknowledged.
pub open spec fn ack_channel_view() -> ChannelView {
    ChannelView {
        reliability: Some(
            Reliability {
                resend_interval: 750,
                resend_attempts: u32::MAX,
                additional_capacity: 300,
            },
        ),
        orderability: None,
        frequency: 0x10_0000,
    }
}

/// The channel through which channels are registered.
pub open spec fn channel_management_channel_view() -> ChannelView {
    ChannelView {
        reliability: Some(
            Reliability {
                resend_interval: 100,
                resend_attempts: u32::MAX,
                additional_capacity: 300,
            },
        ),
        orderability: Some(1000),
        frequency: 0,
    }
}

/// Reliability with every attempt there can be, and room for 300 packets more.
fn persistent(resend_interval: u32) -> (r: Option<ReliableChannel>)
    requires
        resend_interval != 0,
    ensures
        r matches Some(channel) && channel@ == (Reliability {
            resend_interval,
            resend_attempts: u32::MAX,
            additional_capacity: 300,
        }),
{
    match NonZeroU32::new(resend_interval) {
        Some(resend_interval) => Some(
            ReliableChannel {
                resend_interval,
                resend_attempts: u32::MAX,
                additional_capacity: 300,
            },
        ),
        None => None,
    }
}

pub fn ack_channel() -> (channel: Channel)
    ensures
        channel@ == ack_channel_view(),
{
    Channel {
        reliability: persistent(750),
        orderability: None,
        frequency: ChannelFrequency::high(),
    }
}

pub fn channel_management_channel() -> (channel: Channel)
    ensures
        channel@ == channel_management_channel_view(),
{
    Channel {
        reliability: persistent(100),
        orderability: match NonZeroUsize::new(1000) {
            Some(capacity) => Some(OrderedChannel { capacity }),
            None => None,
        },
        frequency: ChannelFrequency::never(),
    }
}

/// The names in a table, with their ids.
pub uninterp spec fn named_ids(table: HashMap<String, ChannelId<GlobalChannelId>>) -> Map<
    Seq<char>,
    u32,
>;

/// `HashMap::default`: a table without entries.
#[verifier::external_body]
fn names_new() -> (table: HashMap<String, ChannelId<GlobalChannelId>>)
    ensures
        (named_ids(table) == Map::<Seq<char>, u32>::empty()),
{
    HashMap::default()
}

/// `HashMap::insert`: the name's entry has the id afterwards, and all others keep theirs.
#[verifier::external_body]
fn names_insert(
    table: &mut HashMap<String, ChannelId<GlobalChannelId>>,
    name: String,
    id: ChannelId<GlobalChannelId>,
)
    ensures
        named_ids(*final(table)) == named_ids(*old(table)).insert(name@, id.0),
{
    table.insert(name, id);
}

/// `HashMap::get`: the id of the name's entry, if the name has one.
#[verifier::external_body]
fn names_get(table: &HashMap<String, ChannelId<GlobalChannelId>>, name: &str) -> (r: Option<
    ChannelId<GlobalChannelId>,
>)
    ensures
        match r {
            Some(id) => named_ids(*table).contains_key(name@) && id.0 == named_ids(*table)[name@],
            None => !named_ids(*table).contains_key(name@),
        },
{
    table.get(name).copied()
}

/// `HashMap::iter`: every entry once, in an order that is left open.
#[verifier::external_body]
fn names_iter(table: &HashMap<String, ChannelId<GlobalChannelId>>) -> (r: Vec<
    (&str, ChannelId<GlobalChannelId>),
>)
    ensures
        lists(named_ids(*table), r@),
{
    table.iter().map(|(name, id)| (name.as_str(), *id)).collect()
}

/// Knows the channels that were added to it, the two that the protocol itself uses being the
/// first.
pub struct DefaultChannelProvider {
    pub channels: Vec<Channel>,
    pub name_to_id: HashMap<String, ChannelId<GlobalChannelId>>,
}

impl DefaultChannelProvider {
    /// Every name stands for a channel of its own.
    pub open spec fn wf(&self) -> bool {
        &&& forall|name: Seq<char>| #[trigger]
            self.model().names.contains_key(name) ==> self.model().names[name]
                < self.channels@.len()
        &&& self.model().one_name_each()
        &&& self.model().names.contains_key(ACK_CHANNEL_NAME@)
    }

    /// As long as the ids are numbers of 31 bits, the channels can be used for connections.
    pub proof fn law_valid(&self)
        requires
            self.wf(),
            self.channels@.len() <= NULL_CHANNEL_ID,
        ensures
            self.model().valid(),
    {
    }

    pub fn new() -> (provider: Self)
        ensures
            provider.wf(),
            provider.channels@.len() == 2,
            provider.model().channels =~= map![
                0u32 => ack_channel_view(),
                1u32 => channel_management_channel_view(),
            ],
            provider.model().names =~= map![
                ACK_CHANNEL_NAME@ => 0u32,
                CHANNEL_MANAGEMENT_CHANNEL_NAME@ => 1u32,
            ],
    {
        let mut provider = DefaultChannelProvider { channels: Vec::new(), name_to_id: names_new() };
        proof {
            reveal_strlit("__ack");
            reveal_strlit("__channel");
            assert(ACK_CHANNEL_NAME@.len() == 5);
            assert(CHANNEL_MANAGEMENT_CHANNEL_NAME@.len() == 9);
        }
        let _ = provider.add(ACK_CHANNEL_NAME.to_string(), ack_channel());
        let _ = provider.add(
            CHANNEL_MANAGEMENT_CHANNEL_NAME.to_string(),
            channel_management_channel(),
        );
        provider
    }

    /// Adds a channel under a name. A channel that had the name before loses it.
    pub fn add(&mut self, name: String, channel: Channel) -> (id: ChannelId<GlobalChannelId>)
        requires
            old(self).channels@.len() <= u32::MAX,
        ensures
            id.0 == old(self).channels@.len(),
            final(self).channels@ == old(self).channels@.push(channel),
            final(self).model() =~= (ProviderView {
                channels: old(self).model().channels.insert(id.0, channel@),
                names: old(self).model().names.insert(name@, id.0),
            }),
            old(self).wf() ==> final(self).wf(),
    {
        let id = ChannelId::new(self.channels.len() as u32);
        self.channels.push(channel);
        names_insert(&mut self.name_to_id, name, id);
        id
    }
}

impl ChannelProvider for DefaultChannelProvider {
    open spec fn model(&self) -> ProviderView {
        ProviderView {
            channels: Map::new(
                |id: u32| (id as int) < self.channels@.len(),
                |id: u32| self.channels@[id as int]@,
            ),
            names: named_ids(self.name_to_id),
        }
    }

    fn by_id(&self, id: ChannelId<GlobalChannelId>) -> (r: Option<&Channel>) {
        let index: usize = id.0 as usize;
        if index < self.channels.len() {
            Some(&self.channels[index])
        } else {
            None
        }
    }

    fn by_name(&self, name: &str) -> (r: Option<ChannelId<GlobalChannelId>>) {
        names_get(&self.name_to_id, name)
    }

    fn all(&self) -> (r: Vec<(&str, ChannelId<GlobalChannelId>)>) {
        names_iter(&self.name_to_id)
    }
}

/// Whether connections can be made with the channels of a provider.
pub fn is_valid<P: ChannelProvider>(provider: &P) -> (valid: bool)
    ensures
        valid == provider.model().valid(),
{
    let ghost model = provider.model();
    if provider.by_name(ACK_CHANNEL_NAME).is_none() {
        return false;
    }
    let all = provider.all();
    let mut i: usize = 0;
    while i < all.len()
        invariant
            model == provider.model(),
            lists(model.names, all@),
            i <= all@.len(),
            forall|a: int|
                0 <= a < i ==> model.channels.contains_key((#[trigger] all@[a]).1.0)
                    && all@[a].1.0 < NULL_CHANNEL_ID,
            forall|a: int, b: int|
                0 <= a < b < i ==> (#[trigger] all@[a]).1.0 != (#[trigger] all@[b]).1.0,
        decreases all@.len() - i,
    {
        let id = all[i].1;
        assert(model.names.contains_key(all@[i as int].0@));
        if id.0 >= NULL_CHANNEL_ID || provider.by_id(id).is_none() {
            return false;
        }
        let mut k: usize = 0;
        while k < i
            invariant
                model == provider.model(),
                lists(model.names, all@),
                k <= i < all@.len(),
                id == all@[i as int].1,
                forall|a: int| 0 <= a < k ==> (#[trigger] all@[a]).1.0 != id.0,
            decreases i - k,
        {
            if all[k].1.0 == id.0 {
                proof {
                    let a = all@[k as int].0@;
                    let b = all@[i as int].0@;
                    assert(model.names.contains_key(a) && model.names.contains_key(b));
                    assert(a != b && model.names[a] == model.names[b]);
                }
                return false;
            }
            k += 1;
        }
        i += 1;
    }
    proof {
        assert forall|name: Seq<char>| #[trigger]
            model.names.contains_key(name) implies model.channels.contains_key(model.names[name])
            && model.names[name] < NULL_CHANNEL_ID by {
            let a = choose|a: int| 0 <= a < all@.len() && (#[trigger] all@[a]).0@ == name;
            assert(model.names[all@[a].0@] == all@[a].1.0);
        }
        assert forall|x: Seq<char>, y: Seq<char>|
            #![trigger model.names.contains_key(x), model.names.contains_key(y)]
            model.names.contains_key(x) && model.names.contains_key(y) && model.names[x]
                == model.names[y] implies x == y by {
            let a = choose|a: int| 0 <= a < all@.len() && (#[trigger] all@[a]).0@ == x;
            let b = choose|b: int| 0 <= b < all@.len() && (#[trigger] all@[b]).0@ == y;
            assert(model.names[all@[a].0@] == all@[a].1.0);
            assert(model.names[all@[b].0@] == all@[b].1.0);
        }
    }
    true
}

} // verus!
