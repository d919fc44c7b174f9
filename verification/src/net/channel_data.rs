//! Values that are kept for each channel.
use super::id::{
    is_stage_id, ChannelId, ConnectionState, GlobalChannelId, ACK_CHANNEL_ID_REGISTRATION_STAGE,
};
use crate::util::bytes::contents;
use std::marker::PhantomData;
use vstd::prelude::*;

verus! {

/// One value for each channel by its id, and one for each of the two channels that are in use
/// while channels are being registered.
#[verifier::ext_equal]
pub struct ChannelDataView<T> {
    pub basic: Seq<T>,
    pub ack: T,
    pub management: T,
}

impl<T> ChannelDataView<T> {
    /// Whether there is a value for this channel.
    pub open spec fn holds(self, state: ConnectionState, id: u32) -> bool {
        match state {
            ConnectionState::Registration { .. } => is_stage_id(id),
            ConnectionState::Transfer => (id as int) < self.basic.len(),
        }
    }

    pub open spec fn get(self, state: ConnectionState, id: u32) -> T {
        match state {
            ConnectionState::Registration { .. } => if id == ACK_CHANNEL_ID_REGISTRATION_STAGE {
                self.ack
            } else {
                self.management
            },
            ConnectionState::Transfer => self.basic[id as int],
        }
    }

    /// Another value for a channel that has one.
    pub open spec fn put(self, state: ConnectionState, id: u32, value: T) -> Self {
        match state {
            ConnectionState::Registration { .. } => if id == ACK_CHANNEL_ID_REGISTRATION_STAGE {
                ChannelDataView { ack: value, ..self }
            } else {
                ChannelDataView { management: value, ..self }
            },
            ConnectionState::Transfer => ChannelDataView {
                basic: self.basic.update(id as int, value),
                ..self
            },
        }
    }

    /// Whether `after` comes of this by giving a channel a value: the channels with smaller ids
    /// that had none get default ones, and all others keep theirs.
    pub open spec fn set_to(self, state: ConnectionState, id: u32, value: T, after: Self) -> bool where
        T: Default,
     {
        if self.holds(state, id) {
            after == self.put(state, id, value)
        } else {
            &&& after.ack == self.ack
            &&& after.management == self.management
            &&& after.basic.len() == id + 1
            &&& after.basic[id as int] == value
            &&& forall|i: int|
                0 <= i < self.basic.len() ==> #[trigger] after.basic[i] == self.basic[i]
            &&& forall|i: int|
                self.basic.len() <= i < id ==> call_ensures(T::default, (), #[trigger] after.basic[i])
        }
    }
}

#[derive(Debug)]
pub struct ChannelData<T, C> {
    basic_stage: Vec<T>,
    ack_channel_registration_stage: T,
    channel_management_registration_stage: T,
    _marker: PhantomData<C>,
}

impl<T, C> View for ChannelData<T, C> {
    type V = ChannelDataView<T>;

    closed spec fn view(&self) -> ChannelDataView<T> {
        ChannelDataView {
            basic: self.basic_stage@,
            ack: self.ack_channel_registration_stage,
            management: self.channel_management_registration_stage,
        }
    }
}

impl<T: Default, C> Default for ChannelData<T, C> {
    fn default() -> (data: Self)
        ensures
            data@.basic == Seq::<T>::empty(),
            call_ensures(T::default, (), data@.ack),
            call_ensures(T::default, (), data@.management),
    {
        ChannelData {
            basic_stage: Vec::new(),
            ack_channel_registration_stage: T::default(),
            channel_management_registration_stage: T::default(),
            _marker: PhantomData,
        }
    }
}

impl<T, C> ChannelData<T, C> {
    pub fn get(&self, state: ConnectionState, id: ChannelId<C>) -> (value: &T)
        requires
            self@.holds(state, id.0),
        ensures
            *value == self@.get(state, id.0),
    {
        match state {
            ConnectionState::Registration { .. } => {
                if id.0 == ACK_CHANNEL_ID_REGISTRATION_STAGE {
                    &self.ack_channel_registration_stage
                } else {
                    &self.channel_management_registration_stage
                }
            },
            ConnectionState::Transfer => &self.basic_stage[id.0 as usize],
        }
    }

    pub fn get_mut(&mut self, state: ConnectionState, id: ChannelId<C>) -> (value: &mut T)
        requires
            old(self)@.holds(state, id.0),
        ensures
            *value == old(self)@.get(state, id.0),
            final(self)@ == old(self)@.put(state, id.0, *final(value)),
    {
        match state {
            ConnectionState::Registration { .. } => {
                if id.0 == ACK_CHANNEL_ID_REGISTRATION_STAGE {
                    &mut self.ack_channel_registration_stage
                } else {
                    &mut self.channel_management_registration_stage
                }
            },
            ConnectionState::Transfer => &mut self.basic_stage[id.0 as usize],
        }
    }

    pub fn set(&mut self, state: ConnectionState, id: ChannelId<C>, value: T) where T: Default
        requires
            state is Registration ==> is_stage_id(id.0),
            (id.0 as int) < usize::MAX,
        ensures
            old(self)@.set_to(state, id.0, value, final(self)@),
    {
        match state {
            ConnectionState::Registration { .. } => {
                if id.0 == ACK_CHANNEL_ID_REGISTRATION_STAGE {
                    self.ack_channel_registration_stage = value;
                } else {
                    self.channel_management_registration_stage = value;
                }
            },
            ConnectionState::Transfer => {
                let index: usize = id.0 as usize;
                if index < self.basic_stage.len() {
                    self.basic_stage[index] = value;
                } else {
                    while self.basic_stage.len() < index
                        invariant
                            old(self)@.basic.len() <= self@.basic.len() <= index,
                            self@.ack == old(self)@.ack,
                            self@.management == old(self)@.management,
                            forall|i: int|
                                0 <= i < old(self)@.basic.len() ==> #[trigger] self@.basic[i]
                                    == old(self)@.basic[i],
                            forall|i: int|
                                old(self)@.basic.len() <= i < self@.basic.len() ==> call_ensures(
                                    T::default,
                                    (),
                                    #[trigger] self@.basic[i],
                                ),
                        decreases index - self@.basic.len(),
                    {
                        self.basic_stage.push(T::default());
                    }
                    self.basic_stage.push(value);
                }
            },
        }
    }

    /// The number of channels that have a value.
    pub fn len(&self) -> (len: usize)
        ensures
            len == self@.basic.len(),
    {
        self.basic_stage.len()
    }

    /// Takes the value of the channel `id` out; the values behind it move down.
    pub fn remove(&mut self, id: ChannelId<C>)
        requires
            (id.0 as int) < old(self)@.basic.len(),
        ensures
            final(self)@ == (ChannelDataView {
                basic: old(self)@.basic.remove(id.0 as int),
                ..old(self)@
            }),
    {
        let _ = self.basic_stage.remove(id.0 as usize);
    }

    /// Puts a value in for the channel `id`; the values from there on move up.
    pub fn insert(&mut self, id: ChannelId<C>, value: T)
        requires
            id.0 <= old(self)@.basic.len(),
        ensures
            final(self)@ == (ChannelDataView {
                basic: old(self)@.basic.insert(id.0 as int, value),
                ..old(self)@
            }),
    {
        self.basic_stage.insert(id.0 as usize, value);
    }
}

/// A value for each of some channels, by their global ids.
pub struct GlobalChannelData<T> {
    values: Vec<Option<T>>,
}

impl<T> View for GlobalChannelData<T> {
    type V = Map<u32, T>;

    closed spec fn view(&self) -> Map<u32, T> {
        Map::new(
            |id: u32| (id as int) < self.values@.len() && self.values@[id as int] is Some,
            |id: u32| self.values@[id as int].unwrap(),
        )
    }
}

impl<T> Default for GlobalChannelData<T> {
    fn default() -> (data: Self)
        ensures
            data@ == Map::<u32, T>::empty(),
    {
        let data = GlobalChannelData { values: Vec::new() };
        assert(data@ =~= Map::<u32, T>::empty());
        data
    }
}

impl<T> GlobalChannelData<T> {
    pub fn get(&self, id: ChannelId<GlobalChannelId>) -> (r: Option<&T>)
        ensures
            match r {
                Some(value) => self@.contains_key(id.0) && *value == self@[id.0],
                None => !self@.contains_key(id.0),
            },
    {
        let index: usize = id.0 as usize;
        if index < self.values.len() {
            self.values[index].as_ref()
        } else {
            None
        }
    }

    pub fn get_mut(&mut self, id: ChannelId<GlobalChannelId>) -> (r: Option<&mut T>)
        ensures
            match r {
                Some(value) => {
                    &&& old(self)@.contains_key(id.0)
                    &&& *value == old(self)@[id.0]
                    &&& final(self)@ =~= old(self)@.insert(id.0, *final(value))
                },
                None => !old(self)@.contains_key(id.0) && final(self)@ =~= old(self)@,
            },
    {
        let index: usize = id.0 as usize;
        if index < self.values.len() {
            self.values[index].as_mut()
        } else {
            None
        }
    }

    /// Keeps a value for a channel, and hands out the one that was kept before.
    pub fn insert(&mut self, id: ChannelId<GlobalChannelId>, value: T) -> (r: Option<T>)
        requires
            id.0 < u32::MAX,
            (id.0 as int) < usize::MAX,
        ensures
            final(self)@ == old(self)@.insert(id.0, value),
            r == (if old(self)@.contains_key(id.0) {
                Some(old(self)@[id.0])
            } else {
                None
            }),
    {
        let index: usize = id.0 as usize;
        while self.values.len() <= index
            invariant
                self@ == old(self)@,
                index < usize::MAX,
            decreases index + 1 - self.values@.len(),
        {
            self.values.push(None);
            assert(self@ =~= old(self)@);
        }
        let r = self.values[index].take();
        self.values[index] = Some(value);
        assert(self@ =~= old(self)@.insert(id.0, value));
        r
    }
}

/// The messages that have arrived on a channel and have not been taken yet.
pub struct ConnectionChannelMessageSwapBuffer {
    effective: Vec<Vec<u8>>,
}

impl View for ConnectionChannelMessageSwapBuffer {
    type V = Seq<Seq<u8>>;

    closed spec fn view(&self) -> Seq<Seq<u8>> {
        contents(self.effective@)
    }
}

impl Default for ConnectionChannelMessageSwapBuffer {
    fn default() -> (buffer: Self)
        ensures
            buffer@ == Seq::<Seq<u8>>::empty(),
    {
        let buffer = ConnectionChannelMessageSwapBuffer { effective: Vec::new() };
        assert(buffer@ =~= Seq::<Seq<u8>>::empty());
        buffer
    }
}

impl ConnectionChannelMessageSwapBuffer {
    /// Hands the messages out by exchanging them for what `swap` holds.
    pub fn take(&mut self, swap: &mut Vec<Vec<u8>>)
        ensures
            final(self)@ == contents(old(swap)@),
            contents(final(swap)@) == old(self)@,
    {
        std::mem::swap(&mut self.effective, swap);
    }

    /// Adds a message behind the others.
    pub fn push(&mut self, message: Vec<u8>)
        ensures
            final(self)@ == old(self)@.push(message@),
    {
        self.effective.push(message);
        assert(self@ =~= old(self)@.push(message@));
    }
}

} // verus!
