//! The correspondence between a side's channel ids and the program's.
use super::id::{
    is_stage_id, ChannelId, ConnectionState, GlobalChannelId, UniqueChannelId,
    ACK_CHANNEL_ID_REGISTRATION_STAGE, CHANNEL_MANAGEMENT_CHANNEL_ID_REGISTRATION_STAGE,
    NULL_CHANNEL_ID,
};
use crate::util::text::same_text;
use vstd::prelude::*;

verus! {

pub const ACK_CHANNEL_NAME: &'static str = "__ack";

pub const CHANNEL_MANAGEMENT_CHANNEL_NAME: &'static str = "__channel";

/// The global ids in the order of their local ids, the null id standing where a local id belongs to
/// no channel, and the local ids of the two channels that the protocol uses itself.
#[verifier::ext_equal]
pub struct MapperView {
    pub locals: Seq<u32>,
    pub ack: u32,
    pub management: u32,
}

/// `locals` without the global id `global`.
pub open spec fn without(locals: Seq<u32>, global: u32) -> Seq<u32> {
    if locals.contains(global) {
        locals.remove(locals.index_of(global))
    } else {
        locals
    }
}

/// Whether no global id occurs twice.
pub open spec fn distinct_ids(locals: Seq<u32>) -> bool {
    forall|i: int, j: int|
        0 <= i < locals.len() && 0 <= j < locals.len() && i != j && #[trigger] locals[i]
            == #[trigger] locals[j] ==> locals[i] == NULL_CHANNEL_ID
}

/// `locals` once `global` has the local id `local`. If it has one already, it is taken out first
/// and the ids behind it move down; but where the local id would then lie beyond the end, the id
/// that it had is left to no channel instead. The ids from `local` on move up.
pub open spec fn placed(locals: Seq<u32>, local: u32, global: u32) -> Seq<u32> {
    if local <= without(locals, global).len() {
        without(locals, global).insert(local as int, global)
    } else {
        locals.update(locals.index_of(global), NULL_CHANNEL_ID).push(global)
    }
}

/// The local id that a channel has after a change, given the one it had before; no channel stays
/// no channel.
pub open spec fn moved(before: Seq<u32>, after: Seq<u32>, id: u32) -> u32 {
    if id == NULL_CHANNEL_ID {
        NULL_CHANNEL_ID
    } else {
        after.index_of(before[id as int]) as u32
    }
}

impl MapperView {
    pub open spec fn empty() -> Self {
        MapperView { locals: Seq::empty(), ack: NULL_CHANNEL_ID, management: NULL_CHANNEL_ID }
    }

    /// No global id occurs twice, and the ids are numbers of 31 bits.
    pub open spec fn wf(self) -> bool {
        &&& distinct_ids(self.locals)
        &&& self.locals.len() <= NULL_CHANNEL_ID
        &&& self.stands(self.ack)
        &&& self.stands(self.management)
    }

    /// Whether an id is the null id or that of a channel.
    pub open spec fn stands(self, id: u32) -> bool {
        id == NULL_CHANNEL_ID || ((id as int) < self.locals.len() && self.locals[id as int]
            != NULL_CHANNEL_ID)
    }

    pub open spec fn local_id(self, state: ConnectionState, global: u32) -> Option<u32> {
        match state {
            ConnectionState::Registration { .. } => if is_stage_id(global) {
                Some(global)
            } else {
                None
            },
            ConnectionState::Transfer => if global != NULL_CHANNEL_ID && self.locals.contains(
                global,
            ) {
                Some(self.locals.index_of(global) as u32)
            } else {
                None
            },
        }
    }

    pub open spec fn global_id(self, state: ConnectionState, local: u32) -> Option<u32> {
        match state {
            ConnectionState::Registration { .. } => if is_stage_id(local) {
                Some(local)
            } else {
                None
            },
            ConnectionState::Transfer => if (local as int) < self.locals.len()
                && self.locals[local as int] != NULL_CHANNEL_ID {
                Some(self.locals[local as int])
            } else {
                None
            },
        }
    }

    /// Whether a channel can get the local id `local`: it does not lie beyond the end of the list,
    /// and the ids are not used up.
    pub open spec fn accepts(self, local: u32) -> bool {
        local <= self.locals.len() < NULL_CHANNEL_ID
    }

    /// `global` gets the local id `local`.
    pub open spec fn insert(self, local: u32, global: u32, name: Seq<char>) -> Self {
        let after = placed(self.locals, local, global);
        MapperView {
            locals: after,
            ack: if name == ACK_CHANNEL_NAME@ {
                local
            } else {
                moved(self.locals, after, self.ack)
            },
            management: if name == CHANNEL_MANAGEMENT_CHANNEL_NAME@ && name != ACK_CHANNEL_NAME@ {
                local
            } else {
                moved(self.locals, after, self.management)
            },
        }
    }

    pub open spec fn ack_channel_id(self) -> Option<u32> {
        if self.ack == NULL_CHANNEL_ID {
            None
        } else {
            Some(self.ack)
        }
    }

    pub open spec fn management_channel_id(self) -> Option<u32> {
        if self.management == NULL_CHANNEL_ID {
            None
        } else {
            Some(self.management)
        }
    }
}

/// The ids of one side's channels: this side's, or the other side's.
pub struct ConnectionIdMapperInner<const LOCAL: bool> {
    global_id_to_local_id: Vec<ChannelId<UniqueChannelId<LOCAL>>>,
    local_id_to_global_id: Vec<ChannelId<GlobalChannelId>>,
    ack_channel_id: ChannelId<UniqueChannelId<LOCAL>>,
    channel_management_channel_id: ChannelId<UniqueChannelId<LOCAL>>,
}

impl<const LOCAL: bool> View for ConnectionIdMapperInner<LOCAL> {
    type V = MapperView;

    closed spec fn view(&self) -> MapperView {
        MapperView {
            locals: numbers_of(self.local_id_to_global_id@),
            ack: self.ack_channel_id.0,
            management: self.channel_management_channel_id.0,
        }
    }
}

/// The ids as numbers.
pub open spec fn numbers_of<T>(ids: Seq<ChannelId<T>>) -> Seq<u32> {
    Seq::new(ids.len(), |i: int| ids[i].0)
}

/// Whether `inverse` holds at each number the place at which it stands in `locals`, if it does.
#[verifier::opaque]
spec fn is_inverse(locals: Seq<u32>, inverse: Seq<u32>) -> bool {
    &&& forall|g: int|
        0 <= g < inverse.len() && #[trigger] inverse[g] != NULL_CHANNEL_ID ==> g != NULL_CHANNEL_ID
            && (inverse[g] as int) < locals.len() && locals[inverse[g] as int] == g
    &&& forall|i: int|
        0 <= i < locals.len() && #[trigger] locals[i] != NULL_CHANNEL_ID ==> (locals[i] as int)
            < inverse.len() && inverse[locals[i] as int] == i
}

proof fn lemma_inverse_distinct(locals: Seq<u32>, inverse: Seq<u32>)
    requires
        is_inverse(locals, inverse),
    ensures
        distinct_ids(locals),
{
    reveal(is_inverse);
    assert forall|i: int, j: int|
        0 <= i < locals.len() && 0 <= j < locals.len() && i != j && #[trigger] locals[i]
            == #[trigger] locals[j] implies locals[i] == NULL_CHANNEL_ID by {
        if locals[i] != NULL_CHANNEL_ID {
            assert(inverse[locals[i] as int] == i);
            assert(inverse[locals[j] as int] == j);
        }
    }
}

/// An id that occurs once stands where it stands.
pub proof fn lemma_index_of(s: Seq<u32>, i: int)
    requires
        distinct_ids(s),
        0 <= i < s.len(),
        s[i] != NULL_CHANNEL_ID,
    ensures
        s.contains(s[i]),
        s.index_of(s[i]) == i,
{
    assert(s[i] == s[i]);
    let j = s.index_of(s[i]);
    assert(0 <= j < s.len() && s[j] == s[i]);
}

impl<const LOCAL: bool> Default for ConnectionIdMapperInner<LOCAL> {
    fn default() -> (mapper: Self)
        ensures
            mapper.wf(),
            mapper@ == MapperView::empty(),
    {
        proof {
            reveal(is_inverse);
        }
        let mapper = ConnectionIdMapperInner {
            global_id_to_local_id: Vec::new(),
            local_id_to_global_id: Vec::new(),
            ack_channel_id: ChannelId::default(),
            channel_management_channel_id: ChannelId::default(),
        };
        assert(mapper@ =~= MapperView::empty());
        mapper
    }
}

impl<const LOCAL: bool> ConnectionIdMapperInner<LOCAL> {
    /// The two directions agree.
    pub closed spec fn wf(&self) -> bool {
        &&& self@.wf()
        &&& is_inverse(self@.locals, numbers_of(self.global_id_to_local_id@))
    }

    /// A well-formed mapper has a well-formed view.
    pub proof fn lemma_wf(&self)
        requires
            self.wf(),
        ensures
            self@.wf(),
    {
    }

    /// The number of ids that were given.
    pub fn len(&self) -> (len: usize)
        ensures
            len == self@.locals.len(),
    {
        self.local_id_to_global_id.len()
    }

    pub fn local_id(&self, state: ConnectionState, global_id: ChannelId<GlobalChannelId>) -> (r:
        Option<ChannelId<UniqueChannelId<LOCAL>>>)
        requires
            self.wf(),
        ensures
            match r {
                Some(id) => self@.local_id(state, global_id.0) == Some(id.0),
                None => self@.local_id(state, global_id.0) is None,
            },
    {
        match state {
            ConnectionState::Registration { .. } => {
                if global_id.0 == ACK_CHANNEL_ID_REGISTRATION_STAGE || global_id.0
                    == CHANNEL_MANAGEMENT_CHANNEL_ID_REGISTRATION_STAGE {
                    Some(ChannelId::new(global_id.0))
                } else {
                    None
                }
            },
            ConnectionState::Transfer => {
                let ghost inverse = numbers_of(self.global_id_to_local_id@);
                proof {
                    reveal(is_inverse);
                }
                let index: usize = global_id.0 as usize;
                if index < self.global_id_to_local_id.len() {
                    let id = self.global_id_to_local_id[index];
                    assert(inverse[index as int] == id.0);
                    if id.is_null() {
                        assert(global_id.0 == NULL_CHANNEL_ID || !self@.locals.contains(
                            global_id.0,
                        )) by {
                            if global_id.0 != NULL_CHANNEL_ID && self@.locals.contains(
                                global_id.0,
                            ) {
                                let i = self@.locals.index_of(global_id.0);
                                assert(inverse[self@.locals[i] as int] == i);
                            }
                        }
                        None
                    } else {
                        proof {
                            lemma_index_of(self@.locals, id.0 as int);
                        }
                        Some(id)
                    }
                } else {
                    assert(global_id.0 == NULL_CHANNEL_ID || !self@.locals.contains(global_id.0)) by {
                        if global_id.0 != NULL_CHANNEL_ID && self@.locals.contains(global_id.0) {
                            let i = self@.locals.index_of(global_id.0);
                            assert((self@.locals[i] as int) < inverse.len());
                        }
                    }
                    None
                }
            },
        }
    }

    pub fn global_id(
        &self,
        state: ConnectionState,
        local_id: ChannelId<UniqueChannelId<LOCAL>>,
    ) -> (r: Option<ChannelId<GlobalChannelId>>)
        ensures
            match r {
                Some(id) => self@.global_id(state, local_id.0) == Some(id.0),
                None => self@.global_id(state, local_id.0) is None,
            },
    {
        match state {
            ConnectionState::Registration { .. } => {
                if local_id.0 == ACK_CHANNEL_ID_REGISTRATION_STAGE || local_id.0
                    == CHANNEL_MANAGEMENT_CHANNEL_ID_REGISTRATION_STAGE {
                    Some(ChannelId::new(local_id.0))
                } else {
                    None
                }
            },
            ConnectionState::Transfer => {
                let index: usize = local_id.0 as usize;
                if index < self.local_id_to_global_id.len()
                    && !self.local_id_to_global_id[index].is_null() {
                    Some(self.local_id_to_global_id[index])
                } else {
                    None
                }
            },
        }
    }

    /// Takes the channel at `position` out; the ids behind it move down.
    fn take_out(&mut self, position: usize)
        requires
            old(self).wf(),
            position < old(self)@.locals.len(),
            old(self)@.locals[position as int] != NULL_CHANNEL_ID,
            old(self)@.ack == NULL_CHANNEL_ID || old(self)@.ack != position,
            old(self)@.management == NULL_CHANNEL_ID || old(self)@.management != position,
        ensures
            final(self).wf(),
            final(self)@.locals == old(self)@.locals.remove(position as int),
            final(self)@.ack == moved_down(old(self)@.ack, position as int),
            final(self)@.management == moved_down(old(self)@.management, position as int),
    {
        let ghost locals = self@.locals;
        let ghost inverse = numbers_of(self.global_id_to_local_id@);
        proof {
            reveal(is_inverse);
        }
        let _ = self.local_id_to_global_id.remove(position);
        let ghost left = locals.remove(position as int);
        assert(numbers_of(self.local_id_to_global_id@) =~= left);
        let mut g: usize = 0;
        while g < self.global_id_to_local_id.len()
            invariant
                g <= self.global_id_to_local_id@.len() == inverse.len(),
                locals.len() <= NULL_CHANNEL_ID,
                position < locals.len(),
                is_inverse(locals, inverse),
                numbers_of(self.local_id_to_global_id@) == left,
                self.ack_channel_id == old(self).ack_channel_id,
                self.channel_management_channel_id == old(self).channel_management_channel_id,
                forall|k: int|
                    g <= k < inverse.len() ==> (#[trigger] self.global_id_to_local_id@[k]).0
                        == inverse[k],
                forall|k: int|
                    0 <= k < g ==> (#[trigger] self.global_id_to_local_id@[k]).0 == (if inverse[k]
                        == position {
                        NULL_CHANNEL_ID
                    } else {
                        moved_down(inverse[k], position as int)
                    }),
            decreases inverse.len() - g,
        {
            let id: u32 = self.global_id_to_local_id[g].0;
            proof {
                reveal(is_inverse);
                assert(id == inverse[g as int]);
            }
            if id != NULL_CHANNEL_ID {
                if id as usize == position {
                    self.global_id_to_local_id[g] = ChannelId::new(NULL_CHANNEL_ID);
                } else if id as usize > position {
                    self.global_id_to_local_id[g] = ChannelId::new(id - 1);
                }
            }
            g += 1;
        }
        if !self.ack_channel_id.is_null() && self.ack_channel_id.0 as usize > position {
            self.ack_channel_id = ChannelId::new(self.ack_channel_id.0 - 1);
        }
        if !self.channel_management_channel_id.is_null()
            && self.channel_management_channel_id.0 as usize > position {
            self.channel_management_channel_id =
            ChannelId::new(self.channel_management_channel_id.0 - 1);
        }
        proof {
            let now = numbers_of(self.global_id_to_local_id@);
            assert(self@.locals == left);
            lemma_inverse_distinct(locals, inverse);
            assert forall|k: int|
                0 <= k < now.len() && #[trigger] now[k] != NULL_CHANNEL_ID implies k
                != NULL_CHANNEL_ID && (now[k] as int) < left.len() && left[now[k] as int] == k by {
                assert(now[k] == self.global_id_to_local_id@[k].0);
                assert(locals[inverse[k] as int] == k);
            }
            assert forall|i: int|
                0 <= i < left.len() && #[trigger] left[i] != NULL_CHANNEL_ID implies (left[i] as int)
                < now.len() && now[left[i] as int] == i by {
                let j = if i < position {
                    i
                } else {
                    i + 1
                };
                assert(left[i] == locals[j]);
                assert(inverse[locals[j] as int] == j);
                assert(now[left[i] as int] == self.global_id_to_local_id@[left[i] as int].0);
            }
            lemma_inverse_distinct(left, now);
        }
    }

    /// Leaves the id `position` to no channel.
    fn vacate(&mut self, position: usize)
        requires
            old(self).wf(),
            position < old(self)@.locals.len(),
            old(self)@.locals[position as int] != NULL_CHANNEL_ID,
            old(self)@.ack == NULL_CHANNEL_ID || old(self)@.ack != position,
            old(self)@.management == NULL_CHANNEL_ID || old(self)@.management != position,
        ensures
            final(self).wf(),
            final(self)@ == (MapperView {
                locals: old(self)@.locals.update(position as int, NULL_CHANNEL_ID),
                ..old(self)@
            }),
    {
        let ghost locals = self@.locals;
        let ghost inverse = numbers_of(self.global_id_to_local_id@);
        proof {
            reveal(is_inverse);
        }
        let global: usize = self.local_id_to_global_id[position].0 as usize;
        assert(inverse[locals[position as int] as int] == position);
        self.local_id_to_global_id[position] = ChannelId::new(NULL_CHANNEL_ID);
        self.global_id_to_local_id[global] = ChannelId::new(NULL_CHANNEL_ID);
        proof {
            let now = numbers_of(self.global_id_to_local_id@);
            let left = locals.update(position as int, NULL_CHANNEL_ID);
            assert(self@.locals =~= left);
            assert(now =~= inverse.update(global as int, NULL_CHANNEL_ID));
            assert forall|k: int|
                0 <= k < now.len() && #[trigger] now[k] != NULL_CHANNEL_ID implies k
                != NULL_CHANNEL_ID && (now[k] as int) < left.len() && left[now[k] as int] == k by {
                assert(inverse[k] == now[k]);
            }
            assert forall|i: int|
                0 <= i < left.len() && #[trigger] left[i] != NULL_CHANNEL_ID implies (left[i] as int)
                < now.len() && now[left[i] as int] == i by {
                assert(left[i] == locals[i]);
            }
            lemma_inverse_distinct(left, now);
            assert(self@ =~= (MapperView { locals: left, ..old(self)@ }));
        }
    }

    /// Puts a channel that is not there yet at `position`; the ids from there on move up.
    fn put_in(&mut self, position: usize, global_id: ChannelId<GlobalChannelId>)
        requires
            old(self).wf(),
            position <= old(self)@.locals.len() < NULL_CHANNEL_ID,
            global_id.0 != NULL_CHANNEL_ID,
            !old(self)@.locals.contains(global_id.0),
            (global_id.0 as usize) < usize::MAX,
        ensures
            final(self).wf(),
            final(self)@.locals == old(self)@.locals.insert(position as int, global_id.0),
            final(self)@.ack == moved_up(old(self)@.ack, position as int),
            final(self)@.management == moved_up(old(self)@.management, position as int),
    {
        let ghost locals = self@.locals;
        let ghost inverse = numbers_of(self.global_id_to_local_id@);
        proof {
            reveal(is_inverse);
        }
        let index: usize = global_id.0 as usize;
        self.local_id_to_global_id.insert(position, global_id);
        let ghost more = locals.insert(position as int, global_id.0);
        assert(numbers_of(self.local_id_to_global_id@) =~= more);
        let mut g: usize = 0;
        while g < self.global_id_to_local_id.len()
            invariant
                g <= self.global_id_to_local_id@.len() == inverse.len(),
                position <= locals.len() < NULL_CHANNEL_ID,
                is_inverse(locals, inverse),
                numbers_of(self.local_id_to_global_id@) == more,
                self.ack_channel_id == old(self).ack_channel_id,
                self.channel_management_channel_id == old(self).channel_management_channel_id,
                forall|k: int|
                    g <= k < inverse.len() ==> (#[trigger] self.global_id_to_local_id@[k]).0
                        == inverse[k],
                forall|k: int|
                    0 <= k < g ==> (#[trigger] self.global_id_to_local_id@[k]).0 == moved_up(
                        inverse[k],
                        position as int,
                    ),
            decreases inverse.len() - g,
        {
            let id: u32 = self.global_id_to_local_id[g].0;
            proof {
                reveal(is_inverse);
                assert(id == inverse[g as int]);
            }
            if id != NULL_CHANNEL_ID && id as usize >= position {
                self.global_id_to_local_id[g] = ChannelId::new(id + 1);
            }
            g += 1;
        }
        let ghost shifted = numbers_of(self.global_id_to_local_id@);
        while self.global_id_to_local_id.len() <= index
            invariant
                index < usize::MAX,
                shifted.len() <= self.global_id_to_local_id@.len(),
                shifted.len() <= index ==> self.global_id_to_local_id@.len() <= index + 1,
                shifted.len() > index ==> self.global_id_to_local_id@.len() == shifted.len(),
                numbers_of(self.local_id_to_global_id@) == more,
                self.ack_channel_id == old(self).ack_channel_id,
                self.channel_management_channel_id == old(self).channel_management_channel_id,
                forall|k: int|
                    0 <= k < self.global_id_to_local_id@.len() ==> (
                    #[trigger] self.global_id_to_local_id@[k]).0 == (if k < shifted.len() {
                        shifted[k]
                    } else {
                        NULL_CHANNEL_ID
                    }),
            decreases index + 1 - self.global_id_to_local_id@.len(),
        {
            self.global_id_to_local_id.push(ChannelId::new(NULL_CHANNEL_ID));
        }
        self.global_id_to_local_id[index] = ChannelId::new(position as u32);
        if !self.ack_channel_id.is_null() && self.ack_channel_id.0 as usize >= position {
            self.ack_channel_id = ChannelId::new(self.ack_channel_id.0 + 1);
        }
        if !self.channel_management_channel_id.is_null()
            && self.channel_management_channel_id.0 as usize >= position {
            self.channel_management_channel_id =
            ChannelId::new(self.channel_management_channel_id.0 + 1);
        }
        proof {
            let now = numbers_of(self.global_id_to_local_id@);
            assert(self@.locals == more);
            assert forall|k: int|
                0 <= k < now.len() && #[trigger] now[k] != NULL_CHANNEL_ID implies k
                != NULL_CHANNEL_ID && (now[k] as int) < more.len() && more[now[k] as int] == k by {
                assert(now[k] == self.global_id_to_local_id@[k].0);
                if k != index {
                    assert(k < shifted.len());
                    assert(now[k] == shifted[k]);
                    assert(shifted[k] == moved_up(inverse[k], position as int));
                    assert(locals[inverse[k] as int] == k);
                }
            }
            assert forall|i: int|
                0 <= i < more.len() && #[trigger] more[i] != NULL_CHANNEL_ID implies (more[i] as int)
                < now.len() && now[more[i] as int] == i by {
                if i != position {
                    let j = if i < position {
                        i
                    } else {
                        i - 1
                    };
                    assert(more[i] == locals[j]);
                    assert(inverse[locals[j] as int] == j);
                    assert(locals[j] != global_id.0);
                    assert(shifted[locals[j] as int] == moved_up(j as u32, position as int));
                    assert(now[more[i] as int] == self.global_id_to_local_id@[more[i] as int].0);
                }
            }
            lemma_inverse_distinct(more, now);
        }
    }

    /// Maps the given local id to the given global id.
    ///
    /// All other ids are shifted if the local id is occupied already. If the global id is mapped
    /// already, it is removed first and the ids behind it move down, except where that would put
    /// the local id beyond the end of the list: then the id that it had is left to no channel.
    ///
    /// Returns whether the local id lies somewhere where it could be, that is, not beyond the end
    /// of the list as it is before anything is removed; the list holds at most as many ids as there
    /// are. If it returns false, nothing is changed.
    pub fn insert(
        &mut self,
        local_id: ChannelId<UniqueChannelId<LOCAL>>,
        global_id: ChannelId<GlobalChannelId>,
        name: &str,
    ) -> (r: bool)
        requires
            old(self).wf(),
            global_id.0 != NULL_CHANNEL_ID,
            (global_id.0 as usize) < usize::MAX,
        ensures
            final(self).wf(),
            r == old(self)@.accepts(local_id.0),
            final(self)@ == (if r {
                old(self)@.insert(local_id.0, global_id.0, name@)
            } else {
                old(self)@
            }),
    {
        let ghost before = self@;
        let len: usize = self.local_id_to_global_id.len();
        let local: usize = local_id.0 as usize;
        if local > len || len >= NULL_CHANNEL_ID as usize {
            return false;
        }
        let known = self.local_id(ConnectionState::Transfer, global_id);
        let mut ack_moves: bool = false;
        let mut management_moves: bool = false;
        proof {
            lemma_without(before.locals, global_id.0);
        }
        if let Some(id) = known {
            assert(before.locals[id.0 as int] == global_id.0);
            if self.ack_channel_id.0 == id.0 {
                ack_moves = true;
                self.ack_channel_id = ChannelId::new(NULL_CHANNEL_ID);
            }
            if self.channel_management_channel_id.0 == id.0 {
                management_moves = true;
                self.channel_management_channel_id = ChannelId::new(NULL_CHANNEL_ID);
            }
            if local < len {
                self.take_out(id.0 as usize);
            } else {
                self.vacate(id.0 as usize);
            }
        }
        self.put_in(local, global_id);
        assert(self@.locals =~= placed(before.locals, local_id.0, global_id.0));
        if ack_moves {
            self.ack_channel_id = local_id;
        }
        if management_moves {
            self.channel_management_channel_id = local_id;
        }
        proof {
            lemma_moved(before.locals, global_id.0, local_id.0, before.ack, self@.ack);
            lemma_moved(before.locals, global_id.0, local_id.0, before.management, self@.management);
        }
        if same_text(name, ACK_CHANNEL_NAME) {
            self.ack_channel_id = local_id;
        } else if same_text(name, CHANNEL_MANAGEMENT_CHANNEL_NAME) {
            self.channel_management_channel_id = local_id;
        }
        assert(self@ =~= before.insert(local_id.0, global_id.0, name@));
        true
    }

    pub fn ack_channel_id(&self) -> (r: Option<ChannelId<UniqueChannelId<LOCAL>>>)
        ensures
            match r {
                Some(id) => self@.ack_channel_id() == Some(id.0),
                None => self@.ack_channel_id() is None,
            },
    {
        if self.ack_channel_id.is_null() {
            None
        } else {
            Some(self.ack_channel_id)
        }
    }

    pub fn channel_management_channel_id(&self) -> (r: Option<ChannelId<UniqueChannelId<LOCAL>>>)
        ensures
            match r {
                Some(id) => self@.management_channel_id() == Some(id.0),
                None => self@.management_channel_id() is None,
            },
    {
        if self.channel_management_channel_id.is_null() {
            None
        } else {
            Some(self.channel_management_channel_id)
        }
    }
}

spec fn moved_down(id: u32, position: int) -> u32 {
    if id != NULL_CHANNEL_ID && id > position {
        (id - 1) as u32
    } else {
        id
    }
}

spec fn moved_up(id: u32, position: int) -> u32 {
    if id != NULL_CHANNEL_ID && id >= position {
        (id + 1) as u32
    } else {
        id
    }
}

/// What is left after an element was taken out, or its place was left to no channel, does not hold
/// it.
proof fn lemma_without(locals: Seq<u32>, global: u32)
    requires
        distinct_ids(locals),
        global != NULL_CHANNEL_ID,
    ensures
        !without(locals, global).contains(global),
        distinct_ids(without(locals, global)),
        locals.contains(global) ==> {
            let vacated = locals.update(locals.index_of(global), NULL_CHANNEL_ID);
            !vacated.contains(global) && distinct_ids(vacated)
        },
{
    if locals.contains(global) {
        let p = locals.index_of(global);
        let base = without(locals, global);
        assert forall|i: int| 0 <= i < base.len() implies #[trigger] base[i] == locals[if i < p {
            i
        } else {
            i + 1
        }] by {}
        if base.contains(global) {
            let i = base.index_of(global);
            assert(base[i] == global);
        }
        let vacated = locals.update(p, NULL_CHANNEL_ID);
        if vacated.contains(global) {
            let i = vacated.index_of(global);
            assert(vacated[i] == global);
            assert(locals[i] == global && locals[p] == global);
        }
    }
}

/// A channel that gets an id has it, and no other channel has it too.
proof fn lemma_placed(locals: Seq<u32>, local: u32, global: u32)
    requires
        distinct_ids(locals),
        global != NULL_CHANNEL_ID,
        local <= locals.len(),
    ensures
        distinct_ids(placed(locals, local, global)),
        placed(locals, local, global)[local as int] == global,
        local < placed(locals, local, global).len() <= locals.len() + 1,
{
    lemma_without(locals, global);
    let after = placed(locals, local, global);
    let base = if local <= without(locals, global).len() {
        without(locals, global)
    } else {
        locals.update(locals.index_of(global), NULL_CHANNEL_ID)
    };
    assert(after =~= base.insert(local as int, global));
    assert forall|i: int, j: int|
        0 <= i < after.len() && 0 <= j < after.len() && i != j && #[trigger] after[i]
            == #[trigger] after[j] implies after[i] == NULL_CHANNEL_ID by {
        let a = if i < local {
            i
        } else {
            i - 1
        };
        let b = if j < local {
            j
        } else {
            j - 1
        };
        if i != local {
            assert(after[i] == base[a]);
        }
        if j != local {
            assert(after[j] == base[b]);
        }
        if i == local {
            assert(base.contains(base[b]));
        }
        if j == local {
            assert(base.contains(base[a]));
        }
    }
}

/// Moving down past what is taken out and up past what is put in is where a channel ends up.
proof fn lemma_moved(locals: Seq<u32>, global: u32, local: u32, id: u32, now: u32)
    requires
        distinct_ids(locals),
        global != NULL_CHANNEL_ID,
        local <= locals.len() < NULL_CHANNEL_ID,
        id == NULL_CHANNEL_ID || ((id as int) < locals.len() && locals[id as int]
            != NULL_CHANNEL_ID),
        now == moved_to(locals, global, local, id),
    ensures
        now == moved(locals, placed(locals, local, global), id),
        same_channel(locals, id, placed(locals, local, global), now),
{
    lemma_placed(locals, local, global);
    let after = placed(locals, local, global);
    if id != NULL_CHANNEL_ID {
        if locals.contains(global) {
            let p = locals.index_of(global);
            assert(locals[p] == global);
        }
        assert(after[now as int] == locals[id as int]);
        lemma_index_of(after, now as int);
    }
}

/// Where a channel ends up when `global` gets the id `local`.
spec fn moved_to(locals: Seq<u32>, global: u32, local: u32, id: u32) -> u32 {
    if id == NULL_CHANNEL_ID {
        NULL_CHANNEL_ID
    } else if locals[id as int] == global {
        local
    } else if !locals.contains(global) {
        moved_up(id, local as int)
    } else if local <= without(locals, global).len() {
        moved_up(moved_down(id, locals.index_of(global)), local as int)
    } else {
        id
    }
}

/// While messages are exchanged, the two directions are each other's inverse.
pub proof fn law_inverse(mapper: MapperView, local: u32, global: u32)
    requires
        mapper.wf(),
    ensures
        mapper.local_id(ConnectionState::Transfer, global) == Some(local) <==> mapper.global_id(
            ConnectionState::Transfer,
            local,
        ) == Some(global),
{
    if mapper.locals.contains(global) {
        let i = mapper.locals.index_of(global);
        assert(mapper.locals[i] == global);
    }
    if (local as int) < mapper.locals.len() && mapper.locals[local as int] != NULL_CHANNEL_ID {
        lemma_index_of(mapper.locals, local as int);
    }
}

/// Whether an id stands for the same channel before and after a change.
pub open spec fn same_channel(before: Seq<u32>, id: u32, after: Seq<u32>, now: u32) -> bool {
    if id == NULL_CHANNEL_ID {
        now == NULL_CHANNEL_ID
    } else {
        now != NULL_CHANNEL_ID && (now as int) < after.len() && after[now as int]
            == before[id as int]
    }
}

/// A channel that gets an id has it afterwards; every other channel keeps its place among the
/// others, and those from the id on move up, or keeps its id where the new one lies at the end of
/// the list. The channels that the protocol uses itself are known
/// under their new ids.
pub proof fn law_insert(mapper: MapperView, local: u32, global: u32, name: Seq<char>)
    requires
        mapper.wf(),
        mapper.accepts(local),
        global != NULL_CHANNEL_ID,
    ensures
        mapper.insert(local, global, name).wf(),
        mapper.insert(local, global, name).global_id(ConnectionState::Transfer, local) == Some(
            global,
        ),
        mapper.insert(local, global, name).local_id(ConnectionState::Transfer, global) == Some(
            local,
        ),
        local <= without(mapper.locals, global).len() ==> without(
            mapper.insert(local, global, name).locals,
            global,
        ) == without(mapper.locals, global),
        local == mapper.locals.len() ==> forall|id: u32|
            #![trigger mapper.global_id(ConnectionState::Transfer, id)]
            id != local && mapper.global_id(ConnectionState::Transfer, id) != Some(global)
                ==> mapper.insert(local, global, name).global_id(ConnectionState::Transfer, id)
                == mapper.global_id(ConnectionState::Transfer, id),
        name == ACK_CHANNEL_NAME@ ==> mapper.insert(local, global, name).ack_channel_id() == Some(
            local,
        ),
        name == CHANNEL_MANAGEMENT_CHANNEL_NAME@ ==> mapper.insert(
            local,
            global,
            name,
        ).management_channel_id() == Some(local),
        name != ACK_CHANNEL_NAME@ ==> same_channel(
            mapper.locals,
            mapper.ack,
            mapper.insert(local, global, name).locals,
            mapper.insert(local, global, name).ack,
        ),
        name != CHANNEL_MANAGEMENT_CHANNEL_NAME@ ==> same_channel(
            mapper.locals,
            mapper.management,
            mapper.insert(local, global, name).locals,
            mapper.insert(local, global, name).management,
        ),
{
    reveal_strlit("__ack");
    reveal_strlit("__channel");
    assert(ACK_CHANNEL_NAME@.len() == 5);
    assert(CHANNEL_MANAGEMENT_CHANNEL_NAME@.len() == 9);
    let after = placed(mapper.locals, local, global);
    lemma_without(mapper.locals, global);
    lemma_placed(mapper.locals, local, global);
    lemma_moved(
        mapper.locals,
        global,
        local,
        mapper.ack,
        moved_to(mapper.locals, global, local, mapper.ack),
    );
    lemma_moved(
        mapper.locals,
        global,
        local,
        mapper.management,
        moved_to(mapper.locals, global, local, mapper.management),
    );
    lemma_index_of(after, local as int);
    if local <= without(mapper.locals, global).len() {
        assert(after.remove(local as int) =~= without(mapper.locals, global));
    }
}

/// The ids of both sides' channels.
pub struct ConnectionIdMapper {
    pub local_inner: ConnectionIdMapperInner<true>,
    pub not_local_inner: ConnectionIdMapperInner<false>,
}

impl Default for ConnectionIdMapper {
    fn default() -> (mapper: Self)
        ensures
            mapper.local_inner.wf(),
            mapper.not_local_inner.wf(),
            mapper.local_inner@ == MapperView::empty(),
            mapper.not_local_inner@ == MapperView::empty(),
    {
        ConnectionIdMapper {
            local_inner: ConnectionIdMapperInner::default(),
            not_local_inner: ConnectionIdMapperInner::default(),
        }
    }
}

} // verus!
