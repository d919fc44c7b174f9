//! Maps whose keys carry a generation, so that a key outlives its entry without ever naming
//! another one.
use crate::proto::decode::{Decode, Decoder};
use crate::proto::encode::{Encode, Encoder};
use crate::proto::num::Parsed;
use crate::proto::round_trip::RoundTrip;
use crate::proto::VarInt;
use crate::util::collections::{
    numbers, numbers_get, numbers_insert, numbers_new, numbers_remove, pairs, pairs_clear,
    pairs_insert, pairs_new,
};
use bevy::platform::collections::{HashMap, HashSet};
use std::collections::hash_map::Entry;
use vstd::prelude::*;

verus! {

/// Names an entry: the slot it lies in, and which of the slot's successive entries it is.
#[derive(Clone, Copy, Debug, Hash, PartialEq, Eq, PartialOrd, Ord, Structural)]
pub struct SlotMapKey {
    pub index: u32,
    pub generation: u32,
}

impl View for SlotMapKey {
    type V = SlotMapKey;

    open spec fn view(&self) -> SlotMapKey {
        *self
    }
}

impl SlotMapKey {
    pub fn index(&self) -> (index: u32)
        ensures
            index == self.index,
    {
        self.index
    }

    pub fn generation(&self) -> (generation: u32)
        ensures
            generation == self.generation,
    {
        self.generation
    }
}

impl Encode for SlotMapKey {
    open spec fn encodable(&self) -> bool {
        true
    }

    open spec fn encoding(&self) -> Seq<u8> {
        VarInt(self.index).encoding() + VarInt(self.generation).encoding()
    }

    fn encode<E: Encoder>(&self, encoder: &mut E) -> (r: Result<(), ()>) {
        match VarInt(self.index).encode(encoder) {
            Ok(_) => {},
            Err(_) => {
                return Err(());
            },
        }
        let r = VarInt(self.generation).encode(encoder);
        assert(r is Ok ==> encoder.written() =~= old(encoder).written() + self.encoding());
        r
    }
}

impl<'a> Decode<'a> for SlotMapKey {
    open spec fn parse(input: Seq<u8>) -> Parsed<SlotMapKey> {
        let index = VarInt::<u32>::parse(input);
        match index.value {
            Some(i) => {
                let generation = VarInt::<u32>::parse(input.skip(index.used as int));
                Parsed {
                    value: match generation.value {
                        Some(g) => Some(SlotMapKey { index: i.0, generation: g.0 }),
                        None => None,
                    },
                    used: index.used + generation.used,
                }
            },
            None => Parsed { value: None, used: index.used },
        }
    }

    proof fn lemma_parse_used(input: Seq<u8>) {
        VarInt::<u32>::lemma_parse_used(input);
        VarInt::<u32>::lemma_parse_used(input.skip(VarInt::<u32>::parse(input).used as int));
    }

    fn decode<D: Decoder<'a>>(decoder: &mut D) -> (r: Result<SlotMapKey, ()>) {
        let ghost input = decoder.remaining();
        let ghost used = VarInt::<u32>::parse(input).used as int;
        proof {
            VarInt::<u32>::lemma_parse_used(input);
            VarInt::<u32>::lemma_parse_used(input.skip(used));
        }
        let index: u32 = match VarInt::<u32>::decode(decoder) {
            Ok(index) => index.0,
            Err(_) => {
                return Err(());
            },
        };
        let r = match VarInt::<u32>::decode(decoder) {
            Ok(generation) => Ok(SlotMapKey { index, generation: generation.0 }),
            Err(_) => Err(()),
        };
        assert(decoder.remaining() =~= input.skip(SlotMapKey::parse(input).used as int));
        r
    }
}

impl<'a> RoundTrip<'a> for SlotMapKey {
    open spec fn max_len() -> nat {
        10
    }

    proof fn law_round_trip(&self, rest: Seq<u8>) {
        let i = VarInt(self.index).encoding();
        let g = VarInt(self.generation).encoding();
        VarInt(self.index).law_round_trip(g + rest);
        VarInt(self.generation).law_round_trip(rest);
        assert(self.encoding() + rest =~= i + (g + rest));
        assert((self.encoding() + rest).skip(i.len() as int) =~= g + rest);
    }
}

/// The slots of a map, the generation each of them has reached, and the slots that are free to be
/// used again, the last of which is used first.
#[verifier::ext_equal]
pub struct SlotMapView<T> {
    pub values: Seq<Option<T>>,
    pub generations: Seq<u32>,
    pub free: Seq<u32>,
}

/// The places at which `before` holds something and `after` does not, in ascending order, up to
/// the place `n`.
pub open spec fn emptied<T>(before: Seq<Option<T>>, after: Seq<Option<T>>, n: nat) -> Seq<u32>
    decreases n,
{
    if n == 0 {
        Seq::empty()
    } else {
        let rest = emptied(before, after, (n - 1) as nat);
        if before[n - 1] is Some && after[n - 1] is None {
            rest.push((n - 1) as u32)
        } else {
            rest
        }
    }
}

/// The values in their slots' order, up to the slot `n`.
pub open spec fn present<T>(values: Seq<Option<T>>, n: nat) -> Seq<T>
    decreases n,
{
    if n == 0 {
        Seq::empty()
    } else {
        match values[n - 1] {
            Some(v) => present(values, (n - 1) as nat).push(v),
            None => present(values, (n - 1) as nat),
        }
    }
}

impl<T> SlotMapView<T> {
    pub open spec fn empty() -> Self {
        SlotMapView { values: Seq::empty(), generations: Seq::empty(), free: Seq::empty() }
    }

    /// Every slot has a generation, slots can be numbered, and the free slots are distinct empty
    /// ones.
    pub open spec fn wf(self) -> bool {
        &&& self.values.len() <= self.generations.len()
        &&& self.values.len() <= u32::MAX + 1
        &&& self.free.len() <= self.values.len()
        &&& self.free.no_duplicates()
        &&& forall|i: int|
            0 <= i < self.free.len() ==> (#[trigger] self.free[i] as int) < self.values.len()
                && self.values[self.free[i] as int] is None
    }

    /// The number of slots in use.
    pub open spec fn len(self) -> nat {
        (self.values.len() - self.free.len()) as nat
    }

    /// What the key names, if it names anything.
    pub open spec fn get(self, key: SlotMapKey) -> Option<T> {
        if (key.index as int) < self.values.len() && self.generations[key.index as int]
            == key.generation {
            self.values[key.index as int]
        } else {
            None
        }
    }

    /// The slot that the next entry goes to.
    pub open spec fn next_index(self) -> int {
        if self.free.len() > 0 {
            self.free.last() as int
        } else {
            self.values.len() as int
        }
    }

    /// The generation that the next entry gets.
    pub open spec fn next_generation(self) -> int {
        if self.next_index() < self.generations.len() {
            self.generations[self.next_index()] + 1
        } else {
            0
        }
    }

    /// Whether there is a key left for the next entry.
    pub open spec fn has_next_key(self) -> bool {
        self.next_index() <= u32::MAX && self.next_generation() <= u32::MAX
    }

    /// The key that the next entry gets.
    pub open spec fn next_key(self) -> SlotMapKey {
        SlotMapKey { index: self.next_index() as u32, generation: self.next_generation() as u32 }
    }

    /// The map with one more entry, at the next key.
    pub open spec fn add(self, value: Option<T>) -> Self {
        let index = self.next_index();
        let generation = self.next_generation() as u32;
        SlotMapView {
            values: if index < self.values.len() {
                self.values.update(index, value)
            } else {
                self.values.push(value)
            },
            generations: if index < self.generations.len() {
                self.generations.update(index, generation)
            } else {
                self.generations.push(generation)
            },
            free: if self.free.len() > 0 {
                self.free.drop_last()
            } else {
                self.free
            },
        }
    }

    /// The map without what the key names.
    pub open spec fn remove(self, key: SlotMapKey) -> Self {
        if self.get(key) is Some {
            SlotMapView {
                values: self.values.update(key.index as int, None),
                generations: self.generations,
                free: self.free.push(key.index),
            }
        } else {
            self
        }
    }

    /// The map with its slots' values replaced by `values`, the emptied ones being free.
    pub open spec fn replaced(self, values: Seq<Option<T>>) -> Self {
        SlotMapView {
            values,
            generations: self.generations,
            free: self.free + emptied(self.values, values, self.values.len()),
        }
    }

    /// The map without any slot; the generations stay.
    pub open spec fn clear(self) -> Self {
        SlotMapView { values: Seq::empty(), generations: self.generations, free: Seq::empty() }
    }

    /// Whether the key was given to an entry, be it there still or not.
    pub open spec fn issued(self, key: SlotMapKey) -> bool {
        (key.index as int) < self.generations.len() && key.generation
            <= self.generations[key.index as int]
    }
}

/// A map that gives each entry a key of its own and reuses the slots of removed entries.
pub struct SlotMap<T> {
    values: Vec<Option<T>>,
    generations: Vec<u32>,
    free_slots: Vec<u32>,
}

impl<T> View for SlotMap<T> {
    type V = SlotMapView<T>;

    closed spec fn view(&self) -> SlotMapView<T> {
        SlotMapView {
            values: self.values@,
            generations: self.generations@,
            free: self.free_slots@,
        }
    }
}

impl<T> Default for SlotMap<T> {
    fn default() -> (map: Self)
        ensures
            map@ == SlotMapView::<T>::empty(),
            map@.wf(),
    {
        SlotMap::new()
    }
}

impl<T> SlotMap<T> {
    pub fn new() -> (map: Self)
        ensures
            map@ == SlotMapView::<T>::empty(),
            map@.wf(),
    {
        let map = SlotMap { values: Vec::new(), generations: Vec::new(), free_slots: Vec::new() };
        assert(map@ =~= SlotMapView::<T>::empty());
        map
    }

    /// The number of slots in use.
    pub fn len(&self) -> (len: usize)
        requires
            self@.wf(),
        ensures
            len == self@.len(),
    {
        self.values.len() - self.free_slots.len()
    }

    pub fn is_empty(&self) -> (b: bool)
        requires
            self@.wf(),
        ensures
            b == (self@.len() == 0),
    {
        self.len() == 0
    }

    pub fn get(&self, key: SlotMapKey) -> (r: Option<&T>)
        requires
            self@.wf(),
        ensures
            match r {
                Some(v) => self@.get(key) == Some(*v),
                None => self@.get(key) is None,
            },
    {
        let index: usize = key.index as usize;
        if index < self.values.len() && self.generations[index] == key.generation {
            self.values[index].as_ref()
        } else {
            None
        }
    }

    pub fn get_mut(&mut self, key: SlotMapKey) -> (r: Option<&mut T>)
        requires
            old(self)@.wf(),
        ensures
            final(self)@.wf(),
            match r {
                Some(v) => {
                    &&& old(self)@.get(key) == Some(*v)
                    &&& final(self)@ == (SlotMapView {
                        values: old(self)@.values.update(key.index as int, Some(*final(v))),
                        ..old(self)@
                    })
                },
                None => old(self)@.get(key) is None && final(self)@ == old(self)@,
            },
    {
        let index: usize = key.index as usize;
        if index < self.values.len() && self.generations[index] == key.generation {
            self.values[index].as_mut()
        } else {
            None
        }
    }

    /// Whether there is a key left for the next entry.
    pub fn has_next_key(&self) -> (b: bool)
        requires
            self@.wf(),
        ensures
            b == self@.has_next_key(),
    {
        let index: usize = if self.free_slots.len() > 0 {
            self.free_slots[self.free_slots.len() - 1] as usize
        } else {
            self.values.len()
        };
        index <= u32::MAX as usize && (index >= self.generations.len() || self.generations[index]
            < u32::MAX)
    }

    /// Adds what `value` makes of the new entry's key.
    pub fn add<F: FnOnce(SlotMapKey) -> Option<T>>(&mut self, value: F) -> (key: SlotMapKey)
        requires
            old(self)@.wf(),
            old(self)@.has_next_key(),
            call_requires(value, (old(self)@.next_key(),)),
        ensures
            final(self)@.wf(),
            key == old(self)@.next_key(),
            exists|v: Option<T>| #[trigger]
                call_ensures(value, (key,), v) && final(self)@ == old(self)@.add(v),
    {
        match self.free_slots.pop() {
            Some(free_slot) => {
                let index: usize = free_slot as usize;
                assert(old(self)@.free.last() == free_slot);
                let generation: u32 = self.generations[index] + 1;
                self.generations[index] = generation;
                let key = SlotMapKey { index: free_slot, generation };
                let v = value(key);
                let ghost made = v;
                self.values[index] = v;
                assert(self@ =~= old(self)@.add(made));
                key
            },
            None => {
                let index: usize = self.values.len();
                let generation: u32 = if self.generations.len() <= self.values.len() {
                    self.generations.push(0);
                    0
                } else {
                    let next: u32 = self.generations[index] + 1;
                    self.generations[index] = next;
                    next
                };
                let key = SlotMapKey { index: index as u32, generation };
                let v = value(key);
                let ghost made = v;
                self.values.push(v);
                assert(self@ =~= old(self)@.add(made));
                key
            },
        }
    }

    /// Takes out what the key names.
    pub fn remove(&mut self, key: SlotMapKey) -> (r: Option<T>)
        requires
            old(self)@.wf(),
        ensures
            final(self)@.wf(),
            r == old(self)@.get(key),
            final(self)@ == old(self)@.remove(key),
    {
        let index: usize = key.index as usize;
        if index >= self.values.len() || self.generations[index] != key.generation {
            return None;
        }
        let taken = self.values[index].take();
        if taken.is_some() {
            self.free_slots.push(key.index);
            proof {
                lemma_free_bound(self@, old(self)@, key);
            }
        }
        assert(self@ =~= old(self)@.remove(key));
        taken
    }

    /// The values, in their slots' order.
    pub fn iter(&self) -> (r: Vec<&T>)
        requires
            self@.wf(),
        ensures
            r@.map_values(|v: &T| *v) == present(self@.values, self@.values.len()),
    {
        let mut out: Vec<&T> = Vec::new();
        let mut i: usize = 0;
        assert(out@.map_values(|v: &T| *v) =~= present(self@.values, 0));
        while i < self.values.len()
            invariant
                i <= self.values@.len(),
                self@.values == self.values@,
                out@.map_values(|v: &T| *v) == present(self@.values, i as nat),
            decreases self.values@.len() - i,
        {
            let ghost before = out@;
            match &self.values[i] {
                Some(v) => {
                    out.push(v);
                    assert(out@.map_values(|v: &T| *v) =~= before.map_values(|v: &T| *v).push(*v));
                },
                None => {},
            }
            i += 1;
        }
        out
    }

    /// The values, in their slots' order, each to be changed in place.
    pub fn iter_mut(&mut self) -> (r: Vec<&mut T>)
        requires
            old(self)@.wf(),
        ensures
            r@.len() == present(old(self)@.values, old(self)@.values.len()).len(),
            forall|k: int|
                0 <= k < r@.len() ==> *(#[trigger] r@[k]) == present(
                    old(self)@.values,
                    old(self)@.values.len(),
                )[k],
            final(self)@.wf(),
            final(self)@.generations == old(self)@.generations,
            final(self)@.free == old(self)@.free,
            final(self)@.values.len() == old(self)@.values.len(),
            forall|i: int|
                0 <= i < old(self)@.values.len() ==> #[trigger] final(self)@.values[i] == (
                match old(self)@.values[i] {
                    Some(_) => Some(*final(r@[present(old(self)@.values, i as nat).len() as int])),
                    None => None,
                }),
    {
        let ghost values = self.values@;
        let mut out: Vec<&mut T> = Vec::new();
        let mut rest: &mut [Option<T>] = self.values.as_mut_slice();
        let ghost mut i: nat = 0;
        let ghost whole = final(rest)@;
        assert(values.skip(0) =~= values);
        while rest.len() > 0
            invariant
                i <= values.len(),
                rest@ == values.skip(i as int),
                whole.len() == i + final(rest)@.len(),
                forall|j: int| i <= j < whole.len() ==> #[trigger] whole[j] == final(rest)@[j - i],
                out@.len() == present(values, i).len(),
                forall|k: int| 0 <= k < out@.len() ==> *(#[trigger] out@[k]) == present(values, i)[k],
                forall|j: int|
                    0 <= j < i ==> #[trigger] whole[j] == (match values[j] {
                        Some(_) => Some(*final(out@[present(values, j as nat).len() as int])),
                        None => None,
                    }),
            decreases rest@.len(),
        {
            let (head, tail) = rest.split_at_mut(1);
            match head.first_mut() {
                Some(slot) => match slot.as_mut() {
                    Some(v) => out.push(v),
                    None => {},
                },
                None => {},
            }
            rest = tail;
            proof {
                assert forall|j: int| 0 <= j < i && values[j] is Some implies #[trigger] present(
                    values,
                    j as nat,
                ).len() < present(values, i).len() by {
                    lemma_present_rank(values, j as nat, i);
                }
                i = i + 1;
            }
        }
        proof {
            assert forall|j: int| 0 <= j < values.len() && values[j] is Some implies present(
                values,
                j as nat,
            ).len() < out@.len() by {
                lemma_present_rank(values, j as nat, values.len());
            }
        }
        out
    }

    /// Drops the values for which `func` holds; `func` may change those that stay.
    pub fn retain_if<F: FnMut(&mut T) -> bool>(&mut self, func: F)
        requires
            old(self)@.wf(),
            forall|v: &mut T| call_requires(func, (v,)),
        ensures
            final(self)@.wf(),
            final(self)@.values.len() == old(self)@.values.len(),
            final(self)@ == old(self)@.replaced(final(self)@.values),
            forall|i: int|
                0 <= i < old(self)@.values.len() ==> match #[trigger] old(self)@.values[i] {
                    None => final(self)@.values[i] is None,
                    Some(value) => exists|v: &mut T, drop: bool| #[trigger]
                        call_ensures(func, (v,), drop) && *v == value && final(self)@.values[i] == (
                        if drop {
                            None
                        } else {
                            Some(*final(v))
                        }),
                },
    {
        let mut func = func;
        let ghost given = func;
        let ghost before = self@;
        let mut i: usize = 0;
        assert(self.free_slots@ =~= before.free + emptied(before.values, self.values@, 0));
        while i < self.values.len()
            invariant
                func == given,
                forall|v: &mut T| call_requires(func, (v,)),
                before.wf(),
                self@.wf(),
                i <= self.values@.len() == before.values.len(),
                self.generations@ == before.generations,
                self@.values == self.values@,
                self@.free == self.free_slots@,
                self@.generations == self.generations@,
                self.free_slots@ == before.free + emptied(before.values, self.values@, i as nat),
                forall|j: int| i <= j < self.values@.len() ==> self.values@[j] == before.values[j],
                forall|j: int|
                    0 <= j < i ==> match #[trigger] before.values[j] {
                        None => self.values@[j] is None,
                        Some(value) => exists|v: &mut T, drop: bool| #[trigger]
                            call_ensures(func, (v,), drop) && *v == value && self.values@[j] == (
                            if drop {
                                None
                            } else {
                                Some(*final(v))
                            }),
                    },
            decreases self.values@.len() - i,
        {
            let ghost at_start = self@;
            let taken = self.values[i].take();
            if let Some(value) = taken {
                let mut value = value;
                let drop = func(&mut value);
                if drop {
                    self.free_slots.push(i as u32);
                    proof {
                        lemma_free_bound(
                            self@,
                            at_start,
                            SlotMapKey { index: i as u32, generation: at_start.generations[i as int] },
                        );
                    }
                } else {
                    self.values[i] = Some(value);
                }
            }
            proof {
                lemma_emptied_prefix(before.values, at_start.values, self.values@, i as nat);
                assert(self.free_slots@ =~= before.free + emptied(
                    before.values,
                    self.values@,
                    (i + 1) as nat,
                ));
            }
            i += 1;
        }
        assert(self@ =~= before.replaced(self@.values));
    }

    /// Drops every value; the keys given so far stay used.
    pub fn clear(&mut self)
        requires
            old(self)@.wf(),
        ensures
            final(self)@.wf(),
            final(self)@ == old(self)@.clear(),
    {
        self.values.clear();
        self.free_slots.clear();
        assert(self@ =~= old(self)@.clear());
    }
}

/// A value's place among the values is the number of values before it.
pub proof fn lemma_present_rank<T>(values: Seq<Option<T>>, j: nat, n: nat)
    requires
        j < n <= values.len(),
    ensures
        present(values, j).len() <= present(values, n).len(),
        values[j as int] matches Some(v) ==> present(values, j).len() < present(values, n).len()
            && present(values, n)[present(values, j).len() as int] == v,
    decreases n,
{
    if j < n - 1 {
        lemma_present_rank(values, j, (n - 1) as nat);
    }
}

/// A slot that was taken was not free, so freeing it keeps the free slots distinct, and there
/// are no more of them than there are slots.
proof fn lemma_free_bound<T>(after: SlotMapView<T>, before: SlotMapView<T>, key: SlotMapKey)
    requires
        before.wf(),
        before.get(key) is Some,
        after.free == before.free.push(key.index),
        after.values.len() == before.values.len(),
    ensures
        after.free.no_duplicates(),
        after.free.len() <= after.values.len(),
{
    assert(forall|i: int| 0 <= i < before.free.len() ==> before.free[i] != key.index);
    lemma_distinct_below(after.free, before.values.len());
}

/// Emptying slots keeps a map well-formed.
pub proof fn lemma_replaced_keeps_wf<T>(map: SlotMapView<T>, values: Seq<Option<T>>)
    requires
        map.wf(),
        values.len() == map.values.len(),
        forall|i: int|
            0 <= i < values.len() && map.values[i] is None ==> #[trigger] values[i] is None,
    ensures
        map.replaced(values).wf(),
{
    let n = map.values.len();
    let more = emptied(map.values, values, n);
    let all = map.free + more;
    lemma_emptied(map.values, values, n);
    assert forall|i: int| 0 <= i < all.len() implies (#[trigger] all[i] as int) < n
        && values[all[i] as int] is None by {
        if i < map.free.len() {
            assert(all[i] == map.free[i]);
        } else {
            assert(all[i] == more[i - map.free.len()]);
        }
    }
    assert forall|i: int, j: int| 0 <= i < all.len() && 0 <= j < all.len() && i
        != j implies all[i] != all[j] by {
        if i < map.free.len() {
            assert(all[i] == map.free[i]);
            assert(map.values[map.free[i] as int] is None);
        } else {
            assert(all[i] == more[i - map.free.len()]);
        }
        if j < map.free.len() {
            assert(all[j] == map.free[j]);
            assert(map.values[map.free[j] as int] is None);
        } else {
            assert(all[j] == more[j - map.free.len()]);
        }
    }
    lemma_distinct_below(all, n);
}

proof fn lemma_emptied<T>(before: Seq<Option<T>>, after: Seq<Option<T>>, n: nat)
    requires
        n <= before.len() <= u32::MAX + 1,
        before.len() == after.len(),
    ensures
        emptied(before, after, n).no_duplicates(),
        forall|i: int|
            0 <= i < emptied(before, after, n).len() ==> (#[trigger] emptied(
                before,
                after,
                n,
            )[i] as int) < n && before[emptied(before, after, n)[i] as int] is Some
                && after[emptied(before, after, n)[i] as int] is None,
        forall|i: int|
            0 <= i < n && #[trigger] before[i] is Some && after[i] is None ==> emptied(
                before,
                after,
                n,
            ).contains(i as u32),
    decreases n,
{
    if n > 0 {
        lemma_emptied(before, after, (n - 1) as nat);
        let rest = emptied(before, after, (n - 1) as nat);
        let all = emptied(before, after, n);
        assert forall|i: int|
            0 <= i < n && #[trigger] before[i] is Some && after[i] is None implies all.contains(
            i as u32,
        ) by {
            if i == n - 1 {
                assert(all[all.len() - 1] == i as u32);
            } else {
                let k = choose|k: int| 0 <= k < rest.len() && rest[k] == i as u32;
                assert(all[k] == i as u32);
            }
        }
    }
}

/// Distinct numbers below `n` are at most `n` many.
pub proof fn lemma_distinct_below(s: Seq<u32>, n: nat)
    requires
        s.no_duplicates(),
        forall|i: int| 0 <= i < s.len() ==> (#[trigger] s[i] as int) < n,
    ensures
        s.len() <= n,
    decreases n,
{
    if s.len() > 0 {
        if n == 0 {
            assert((s[0] as int) < n);
        } else if exists|i: int| 0 <= i < s.len() && s[i] == (n - 1) as u32 && (n - 1) as u32 == n - 1 {
            let i = choose|i: int|
                0 <= i < s.len() && s[i] == (n - 1) as u32 && (n - 1) as u32 == n - 1;
            let t = s.remove(i);
            assert forall|j: int| 0 <= j < t.len() implies (#[trigger] t[j] as int) < n - 1 by {
                let k = if j < i {
                    j
                } else {
                    j + 1
                };
                assert(t[j] == s[k]);
            }
            assert(t.no_duplicates());
            lemma_distinct_below(t, (n - 1) as nat);
        } else {
            assert forall|j: int| 0 <= j < s.len() implies (#[trigger] s[j] as int) < n - 1 by {
                if s[j] as int == n - 1 {
                    assert(s[j] == (n - 1) as u32 && (n - 1) as u32 == n - 1);
                }
            }
            lemma_distinct_below(s, (n - 1) as nat);
        }
    }
}

proof fn lemma_emptied_prefix<T>(
    before: Seq<Option<T>>,
    a: Seq<Option<T>>,
    b: Seq<Option<T>>,
    n: nat,
)
    requires
        forall|j: int| 0 <= j < n ==> a[j] == b[j],
    ensures
        emptied(before, a, n) == emptied(before, b, n),
    decreases n,
{
    if n > 0 {
        lemma_emptied_prefix(before, a, b, (n - 1) as nat);
    }
}

/// The next key was never given out before, and from then on it counts as given out.
pub proof fn law_next_key_is_new<T>(map: SlotMapView<T>, value: Option<T>)
    requires
        map.wf(),
        map.has_next_key(),
    ensures
        !map.issued(map.next_key()),
        map.add(value).issued(map.next_key()),
        forall|key: SlotMapKey|
            key != map.next_key() ==> map.add(value).issued(key) == #[trigger] map.issued(key),
        map.add(value).wf(),
{
    lemma_add_keeps_wf(map, value);
}

proof fn lemma_add_keeps_wf<T>(map: SlotMapView<T>, value: Option<T>)
    requires
        map.wf(),
        map.has_next_key(),
    ensures
        map.add(value).wf(),
{
    let after = map.add(value);
    assert forall|i: int| 0 <= i < after.free.len() implies (#[trigger] after.free[i] as int)
        < after.values.len() && after.values[after.free[i] as int] is None by {
        assert(after.free[i] == map.free[i]);
        assert(map.free[i] != map.free.last());
    }
}

/// An added value is found under its key, and no other key names anything else than before.
pub proof fn law_add_then_get<T>(map: SlotMapView<T>, value: Option<T>, key: SlotMapKey)
    requires
        map.wf(),
        map.has_next_key(),
    ensures
        map.add(value).get(key) == (if key == map.next_key() {
            value
        } else {
            map.get(key)
        }),
        map.add(value).len() == map.len() + 1,
{
    if map.free.len() > 0 {
        assert((map.free[map.free.len() - 1] as int) < map.values.len());
    }
}

/// A removed value is no longer found, and no other key names anything else than before.
pub proof fn law_remove_then_get<T>(map: SlotMapView<T>, removed: SlotMapKey, key: SlotMapKey)
    requires
        map.wf(),
    ensures
        map.remove(removed).get(key) == (if key == removed {
            None
        } else {
            map.get(key)
        }),
        map.remove(removed).len() == (if map.get(removed) is Some {
            map.len() - 1
        } else {
            map.len() as int
        }),
        map.remove(removed).wf(),
{
    if map.get(removed) is Some {
        lemma_free_bound(map.remove(removed), map, removed);
    }
}

/// A key that was given out and names nothing any more never names anything again, whatever is
/// done to the map.
pub proof fn law_stale_key_stays_stale<T>(
    map: SlotMapView<T>,
    key: SlotMapKey,
    value: Option<T>,
    other: SlotMapKey,
    values: Seq<Option<T>>,
)
    requires
        map.wf(),
        map.issued(key),
        map.get(key) is None,
        // a slot in use without a value stays as it is
        values.len() == map.values.len(),
        forall|i: int| 0 <= i < values.len() && map.values[i] is None ==> values[i] is None,
    ensures
        map.has_next_key() ==> map.add(value).issued(key) && map.add(value).get(key) is None,
        map.remove(other).issued(key) && map.remove(other).get(key) is None,
        map.replaced(values).issued(key) && map.replaced(values).get(key) is None,
        map.clear().issued(key) && map.clear().get(key) is None,
{
    if map.has_next_key() {
        law_next_key_is_new(map, value);
        law_add_then_get(map, value, key);
    }
}

/// One change of a map: what [`SlotMap::add`] does with a value, and what [`SlotMap::remove`],
/// [`SlotMap::retain_if`] and [`SlotMap::clear`] do.
pub enum SlotMapChange<T> {
    Add { value: T },
    Remove { key: SlotMapKey },
    Replace { values: Seq<Option<T>> },
    Clear,
}

impl<T> SlotMapView<T> {
    pub open spec fn changed(self, change: SlotMapChange<T>) -> Self {
        match change {
            SlotMapChange::Add { value } => self.add(Some(value)),
            SlotMapChange::Remove { key } => self.remove(key),
            SlotMapChange::Replace { values } => self.replaced(values),
            SlotMapChange::Clear => self.clear(),
        }
    }

    /// Whether the change can be made: there is a key left for what is added, and nothing is put
    /// where nothing is when values are replaced.
    pub open spec fn allows(self, change: SlotMapChange<T>) -> bool {
        match change {
            SlotMapChange::Add { .. } => self.has_next_key(),
            SlotMapChange::Replace { values } => {
                &&& values.len() == self.values.len()
                &&& forall|i: int|
                    0 <= i < values.len() && self.values[i] is None ==> #[trigger] values[i] is None
            },
            _ => true,
        }
    }

    /// The keys that name something.
    pub open spec fn live_keys(self) -> Set<SlotMapKey> {
        Set::new(|key: SlotMapKey| self.get(key) is Some)
    }

    /// Every slot without a value is free.
    spec fn no_slot_is_lost(self) -> bool {
        forall|i: int|
            0 <= i < self.values.len() && #[trigger] self.values[i] is None ==> self.free.contains(
                i as u32,
            )
    }
}

/// A new map after these changes.
pub open spec fn changed_all<T>(changes: Seq<SlotMapChange<T>>) -> SlotMapView<T>
    decreases changes.len(),
{
    if changes.len() == 0 {
        SlotMapView::empty()
    } else {
        changed_all(changes.drop_last()).changed(changes.last())
    }
}

/// Whether these changes can be made to a new map one after the other.
pub open spec fn allows_all<T>(changes: Seq<SlotMapChange<T>>) -> bool
    decreases changes.len(),
{
    changes.len() > 0 ==> allows_all(changes.drop_last()) && changed_all(
        changes.drop_last(),
    ).allows(changes.last())
}

/// Whatever was done to a map to which only values were added, its length is the number of the
/// values that it holds, and the number of the keys that name one.
pub proof fn law_len_counts_values<T>(changes: Seq<SlotMapChange<T>>)
    requires
        allows_all(changes),
    ensures
        ({
            let map = changed_all(changes);
            &&& map.wf()
            &&& map.len() == present(map.values, map.values.len()).len()
            &&& map.live_keys().finite()
            &&& map.len() == map.live_keys().len()
        }),
{
    let map = changed_all(changes);
    lemma_no_slot_is_lost(changes);
    lemma_count(map);
    lemma_live_keys(map, map.values.len());
    assert(map.live_keys() =~= live_keys_below(map, map.values.len()));
}

proof fn lemma_no_slot_is_lost<T>(changes: Seq<SlotMapChange<T>>)
    requires
        allows_all(changes),
    ensures
        changed_all(changes).wf(),
        changed_all(changes).no_slot_is_lost(),
    decreases changes.len(),
{
    if changes.len() > 0 {
        lemma_no_slot_is_lost(changes.drop_last());
        let map = changed_all(changes.drop_last());
        let after = changed_all(changes);
        match changes.last() {
            SlotMapChange::Add { value } => {
                law_next_key_is_new(map, Some(value));
                if map.free.len() > 0 {
                    assert((map.free[map.free.len() - 1] as int) < map.values.len());
                }
            },
            SlotMapChange::Remove { key } => {
                law_remove_then_get(map, key, key);
            },
            SlotMapChange::Replace { values } => {
                lemma_replaced_keeps_wf(map, values);
                lemma_emptied(map.values, values, values.len());
            },
            SlotMapChange::Clear => {},
        }
        assert forall|i: int|
            0 <= i < after.values.len() && #[trigger] after.values[i] is None implies after.free.contains(
            i as u32,
        ) by {
            lemma_still_free(map, changes.last(), i);
        }
    }
}

/// A slot without a value is free after a change.
proof fn lemma_still_free<T>(map: SlotMapView<T>, change: SlotMapChange<T>, i: int)
    requires
        map.wf(),
        map.no_slot_is_lost(),
        map.allows(change),
        0 <= i < map.changed(change).values.len(),
        map.changed(change).values[i] is None,
    ensures
        map.changed(change).free.contains(i as u32),
{
    let after = map.changed(change);
    if i < map.values.len() && map.values[i] is None {
        let k = choose|k: int| 0 <= k < map.free.len() && map.free[k] == i as u32;
        assert(map.free.contains(i as u32));
        assert(after.free[k] == i as u32);
    } else {
        match change {
            SlotMapChange::Remove { key } => {
                assert(after.free[after.free.len() - 1] == i as u32);
            },
            SlotMapChange::Replace { values } => {
                let more = emptied(map.values, values, values.len());
                lemma_emptied(map.values, values, values.len());
                assert(map.values[i] is Some);
                let k = choose|k: int| 0 <= k < more.len() && more[k] == i as u32;
                assert(after.free[map.free.len() + k] == i as u32);
            },
            _ => {},
        }
    }
}

spec fn empty_places<T>(values: Seq<Option<T>>, n: nat) -> Set<int> {
    Set::new(|i: int| 0 <= i < n && values[i] is None)
}

/// The places that are empty are those that hold no value.
proof fn lemma_empty_places<T>(values: Seq<Option<T>>, n: nat)
    requires
        n <= values.len(),
    ensures
        empty_places(values, n).finite(),
        empty_places(values, n).len() + present(values, n).len() == n,
    decreases n,
{
    if n == 0 {
        assert(empty_places(values, n) =~= Set::empty());
    } else {
        lemma_empty_places(values, (n - 1) as nat);
        if values[n - 1] is None {
            assert(empty_places(values, n) =~= empty_places(values, (n - 1) as nat).insert(n - 1));
        } else {
            assert(empty_places(values, n) =~= empty_places(values, (n - 1) as nat));
        }
    }
}

/// Where no slot is lost, the length is the number of values.
proof fn lemma_count<T>(map: SlotMapView<T>)
    requires
        map.wf(),
        map.no_slot_is_lost(),
    ensures
        map.len() == present(map.values, map.values.len()).len(),
{
    let n = map.values.len();
    let free = map.free.map_values(|slot: u32| slot as int);
    lemma_empty_places(map.values, n);
    assert(free.no_duplicates());
    free.unique_seq_to_set();
    assert forall|i: int| free.to_set().contains(i) <==> empty_places(map.values, n).contains(
        i,
    ) by {
        if free.to_set().contains(i) {
            let k = choose|k: int| 0 <= k < free.len() && free[k] == i;
            assert(map.free[k] as int == i);
        }
        if empty_places(map.values, n).contains(i) {
            assert(map.values[i] is None);
            let k = choose|k: int| 0 <= k < map.free.len() && map.free[k] == i as u32;
            assert(map.free.contains(i as u32));
            assert(free[k] == i);
        }
    }
    assert(free.to_set() =~= empty_places(map.values, n));
}

spec fn live_keys_below<T>(map: SlotMapView<T>, n: nat) -> Set<SlotMapKey> {
    Set::new(|key: SlotMapKey| key.index < n && map.get(key) is Some)
}

/// Every value has one key.
proof fn lemma_live_keys<T>(map: SlotMapView<T>, n: nat)
    requires
        map.wf(),
        n <= map.values.len(),
    ensures
        live_keys_below(map, n).finite(),
        live_keys_below(map, n).len() == present(map.values, n).len(),
    decreases n,
{
    if n == 0 {
        assert(live_keys_below(map, n) =~= Set::empty());
    } else {
        let m = (n - 1) as nat;
        lemma_live_keys(map, m);
        if map.values[m as int] is Some {
            let key = SlotMapKey { index: m as u32, generation: map.generations[m as int] };
            assert(live_keys_below(map, n) =~= live_keys_below(map, m).insert(key));
        } else {
            assert(live_keys_below(map, n) =~= live_keys_below(map, m));
        }
    }
}

/// A key as a pair of numbers.
pub open spec fn as_pair(key: SlotMapKey) -> (u32, u32) {
    (key.index, key.generation)
}

/// A map with keys from elsewhere: an entry at an index replaces the one of another generation.
pub struct HashSlotMap<T> {
    values: std::collections::HashMap<u32, T>,
    generations: HashMap<u32, u32>,
}

impl<T> View for HashSlotMap<T> {
    type V = Map<u32, (u32, T)>;

    /// The generation and the value at each index that has an entry.
    closed spec fn view(&self) -> Map<u32, (u32, T)> {
        Map::new(
            |index: u32| self.values@.contains_key(index) && numbers(self.generations).contains_key(index),
            |index: u32| (numbers(self.generations)[index], self.values@[index]),
        )
    }
}

/// What the key names in a map from indices to generations and values.
pub open spec fn entry_of<T>(map: Map<u32, (u32, T)>, key: SlotMapKey) -> Option<T> {
    if map.contains_key(key.index) && map[key.index].0 == key.generation {
        Some(map[key.index].1)
    } else {
        None
    }
}

impl<T> Default for HashSlotMap<T> {
    fn default() -> (map: Self)
        ensures
            map.wf(),
            map@ == Map::<u32, (u32, T)>::empty(),
    {
        broadcast use vstd::std_specs::hash::group_hash_axioms;

        let map = HashSlotMap {
            values: std::collections::HashMap::new(),
            generations: numbers_new(),
        };
        assert(map@ =~= Map::<u32, (u32, T)>::empty());
        map
    }
}

impl<T> HashSlotMap<T> {
    /// The two tables have the same indices.
    pub closed spec fn wf(&self) -> bool {
        &&& self.values@.dom() =~= numbers(self.generations).dom()
        &&& self.values@.dom().finite()
    }

    fn valid(&self, key: SlotMapKey) -> (b: bool)
        requires
            self.wf(),
        ensures
            b == (entry_of(self@, key) is Some),
    {
        match numbers_get(&self.generations, key.index) {
            Some(generation) => *generation == key.generation,
            None => false,
        }
    }

    pub fn get(&self, key: SlotMapKey) -> (r: Option<&T>)
        requires
            self.wf(),
        ensures
            match r {
                Some(v) => entry_of(self@, key) == Some(*v),
                None => entry_of(self@, key) is None,
            },
    {
        broadcast use vstd::std_specs::hash::group_hash_axioms;

        if self.valid(key) {
            self.values.get(&key.index)
        } else {
            None
        }
    }

    pub fn get_mut(&mut self, key: SlotMapKey) -> (r: Option<&mut T>)
        requires
            old(self).wf(),
        ensures
            final(self).wf(),
            match r {
                Some(v) => {
                    &&& entry_of(old(self)@, key) == Some(*v)
                    &&& final(self)@ == old(self)@.insert(key.index, (key.generation, *final(v)))
                },
                None => entry_of(old(self)@, key) is None && final(self)@ == old(self)@,
            },
    {
        broadcast use vstd::std_specs::hash::group_hash_axioms;

        if self.valid(key) {
            match self.values.entry(key.index) {
                Entry::Occupied(entry) => Some(entry.into_mut()),
                Entry::Vacant(_) => None,
            }
        } else {
            None
        }
    }

    pub fn remove(&mut self, key: SlotMapKey) -> (r: Option<T>)
        requires
            old(self).wf(),
        ensures
            final(self).wf(),
            r == entry_of(old(self)@, key),
            final(self)@ == (if entry_of(old(self)@, key) is Some {
                old(self)@.remove(key.index)
            } else {
                old(self)@
            }),
    {
        broadcast use vstd::std_specs::hash::group_hash_axioms;

        if self.valid(key) {
            let _ = numbers_remove(&mut self.generations, key.index);
            let r = self.values.remove(&key.index);
            assert(self@ =~= old(self)@.remove(key.index));
            r
        } else {
            None
        }
    }

    /// Puts a value at the key; the value that the key itself named before is handed out.
    pub fn insert(&mut self, key: SlotMapKey, value: T) -> (r: Option<T>)
        requires
            old(self).wf(),
        ensures
            final(self).wf(),
            r == entry_of(old(self)@, key),
            final(self)@ == old(self)@.insert(key.index, (key.generation, value)),
    {
        broadcast use vstd::std_specs::hash::group_hash_axioms;

        let old_value = self.remove(key);
        let ghost between = self@;
        let _ = numbers_insert(&mut self.generations, key.index, key.generation);
        let _ = self.values.insert(key.index, value);
        assert(self@ =~= between.insert(key.index, (key.generation, value)));
        assert(self@ =~= old(self)@.insert(key.index, (key.generation, value)));
        old_value
    }

    pub fn len(&self) -> (len: usize)
        requires
            self.wf(),
        ensures
            len == self@.dom().len(),
    {
        broadcast use vstd::std_specs::hash::group_hash_axioms;

        assert(self@.dom() =~= self.values@.dom());
        self.values.len()
    }
}

/// A set of keys.
pub struct SlotSet {
    set: HashSet<(u32, u32)>,
}

impl View for SlotSet {
    type V = Set<SlotMapKey>;

    closed spec fn view(&self) -> Set<SlotMapKey> {
        Set::new(|key: SlotMapKey| pairs(self.set).contains(as_pair(key)))
    }
}

#[derive(Debug, PartialEq, Eq, Clone, Copy, Structural)]
pub enum SlotSetInsertError {
    /// The key was already inserted into the set.
    InsertedError,
}

impl SlotSetInsertError {
    pub fn message(&self) -> (text: &'static str)
        ensures
            text@ == "The key was already inserted into the set"@,
    {
        "The key was already inserted into the set"
    }
}

impl Default for SlotSet {
    fn default() -> (set: Self)
        ensures
            set@ == Set::<SlotMapKey>::empty(),
    {
        let set = SlotSet { set: pairs_new() };
        assert(set@ =~= Set::<SlotMapKey>::empty());
        set
    }
}

impl SlotSet {
    /// Adds the key, or tells that it is there already.
    pub fn insert(&mut self, key: SlotMapKey) -> (r: Result<(), SlotSetInsertError>)
        ensures
            final(self)@ == old(self)@.insert(key),
            r == (if old(self)@.contains(key) {
                Err(SlotSetInsertError::InsertedError)
            } else {
                Ok(())
            }),
    {
        let fresh = pairs_insert(&mut self.set, (key.index, key.generation));
        assert(self@ =~= old(self)@.insert(key));
        if fresh {
            Ok(())
        } else {
            Err(SlotSetInsertError::InsertedError)
        }
    }

    pub fn clear(&mut self)
        ensures
            final(self)@ == Set::<SlotMapKey>::empty(),
    {
        pairs_clear(&mut self.set);
        assert(self@ =~= Set::<SlotMapKey>::empty());
    }
}

} // verus!
