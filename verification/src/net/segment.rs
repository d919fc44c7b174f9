//! Joining the segments of packets that are too large for one datagram.
use crate::proto::decode::{Decode, Decoder};
use crate::proto::encode::{Encode, Encoder};
use crate::proto::num::Parsed;
use crate::proto::round_trip::RoundTrip;
use crate::proto::VarInt;
use crate::util::bytes::contents;
use bevy::platform::collections::HashMap;
use crate::util::counting::{lemma_all_arrived, lemma_arrivals_at_most, lemma_missing_arrival};
use vstd::prelude::*;

verus! {

/// The type that segments are counted in on the wire.
pub type PacketSegmentMetadataIntType = u16;

/// Which packet a segment belongs to, which of its segments it is, and how many there are.
#[derive(Debug, Clone, Copy, PartialEq, Eq, Structural)]
pub struct PacketSegmentMetadata {
    pub segment_key: u32,
    pub segment: usize,
    pub segment_count: usize,
}

impl View for PacketSegmentMetadata {
    type V = PacketSegmentMetadata;

    open spec fn view(&self) -> PacketSegmentMetadata {
        *self
    }
}

impl<'a> Decode<'a> for PacketSegmentMetadata {
    open spec fn parse(input: Seq<u8>) -> Parsed<PacketSegmentMetadata> {
        let key = VarInt::<u32>::parse(input);
        let after_key = input.skip(key.used as int);
        let segment = VarInt::<PacketSegmentMetadataIntType>::parse(after_key);
        let after_segment = after_key.skip(segment.used as int);
        let last = VarInt::<PacketSegmentMetadataIntType>::parse(after_segment);
        match key.value {
            None => Parsed { value: None, used: key.used },
            Some(k) => match segment.value {
                None => Parsed { value: None, used: key.used + segment.used },
                Some(s) => Parsed {
                    value: match last.value {
                        None => None,
                        Some(l) => Some(
                            PacketSegmentMetadata {
                                segment_key: k.0,
                                segment: s.0 as usize,
                                segment_count: (l.0 + 1) as usize,
                            },
                        ),
                    },
                    used: key.used + segment.used + last.used,
                },
            },
        }
    }

    proof fn lemma_parse_used(input: Seq<u8>) {
        let key = VarInt::<u32>::parse(input);
        let after_key = input.skip(key.used as int);
        let segment = VarInt::<u16>::parse(after_key);
        VarInt::<u32>::lemma_parse_used(input);
        VarInt::<u16>::lemma_parse_used(after_key);
        VarInt::<u16>::lemma_parse_used(after_key.skip(segment.used as int));
    }

    fn decode<D: Decoder<'a>>(decoder: &mut D) -> (r: Result<PacketSegmentMetadata, ()>) {
        let ghost input = decoder.remaining();
        let ghost key = VarInt::<u32>::parse(input);
        let ghost after_key = input.skip(key.used as int);
        let ghost middle = VarInt::<u16>::parse(after_key);
        let ghost after_segment = after_key.skip(middle.used as int);
        proof {
            VarInt::<u32>::lemma_parse_used(input);
            VarInt::<u16>::lemma_parse_used(after_key);
            VarInt::<u16>::lemma_parse_used(after_segment);
            assert(after_segment =~= input.skip((key.used + middle.used) as int));
        }
        let segment_key: u32 = match VarInt::<u32>::decode(decoder) {
            Ok(key) => key.0,
            Err(_) => {
                return Err(());
            },
        };
        let segment: u16 = match VarInt::<PacketSegmentMetadataIntType>::decode(decoder) {
            Ok(segment) => segment.0,
            Err(_) => {
                return Err(());
            },
        };
        let last = VarInt::<PacketSegmentMetadataIntType>::decode(decoder);
        assert(decoder.remaining() =~= input.skip(
            PacketSegmentMetadata::parse(input).used as int,
        ));
        match last {
            Ok(last) => Ok(
                PacketSegmentMetadata {
                    segment_key,
                    segment: segment as usize,
                    segment_count: last.0 as usize + 1,
                },
            ),
            Err(_) => Err(()),
        }
    }
}

impl Encode for PacketSegmentMetadata {
    open spec fn encodable(&self) -> bool {
        self.segment <= u16::MAX && 1 <= self.segment_count <= u16::MAX + 1
    }

    open spec fn encoding(&self) -> Seq<u8> {
        VarInt(self.segment_key).encoding() + VarInt(self.segment as u16).encoding() + VarInt(
            (self.segment_count - 1) as u16,
        ).encoding()
    }

    fn encode<E: Encoder>(&self, encoder: &mut E) -> (r: Result<(), ()>) {
        if self.segment > u16::MAX as usize || self.segment_count == 0 || self.segment_count - 1
            > u16::MAX as usize {
            return Err(());
        }
        match VarInt(self.segment_key).encode(encoder) {
            Ok(_) => {},
            Err(_) => {
                return Err(());
            },
        }
        match VarInt(self.segment as PacketSegmentMetadataIntType).encode(encoder) {
            Ok(_) => {},
            Err(_) => {
                return Err(());
            },
        }
        let r = VarInt((self.segment_count - 1) as PacketSegmentMetadataIntType).encode(encoder);
        assert(r is Ok ==> encoder.written() =~= old(encoder).written() + self.encoding());
        r
    }
}

impl<'a> RoundTrip<'a> for PacketSegmentMetadata {
    open spec fn max_len() -> nat {
        11
    }

    proof fn law_round_trip(&self, rest: Seq<u8>) {
        let k = VarInt(self.segment_key).encoding();
        let s = VarInt(self.segment as u16).encoding();
        let c = VarInt((self.segment_count - 1) as u16).encoding();
        VarInt(self.segment_key).law_round_trip(s + c + rest);
        VarInt(self.segment as u16).law_round_trip(c + rest);
        VarInt((self.segment_count - 1) as u16).law_round_trip(rest);
        let whole = self.encoding() + rest;
        assert(whole =~= k + (s + c + rest));
        assert(whole.skip(k.len() as int) =~= s + (c + rest));
        assert((s + (c + rest)).skip(s.len() as int) =~= c + rest);
    }
}

#[derive(Debug, PartialEq, Eq, Clone, Copy, Structural)]
pub enum PacketSegmentJoinerError {
    /// Reached the maximum capacity.
    CapacityReached,
    /// Segment was received twice or more.
    SegmentRepeated,
    /// Segment metadata was malformed.
    SegmentMetadataMalformed,
}

/// The segments of one packet, as far as they have arrived.
pub struct PacketSegments {
    pub segments: Vec<Option<Vec<u8>>>,
    pub non_filled: usize,
}

/// A segment that may have arrived, in plain values.
pub open spec fn arrived(slot: Option<Vec<u8>>) -> Option<Seq<u8>> {
    match slot {
        Some(bytes) => Some(bytes@),
        None => None,
    }
}

impl View for PacketSegments {
    type V = Seq<Option<Seq<u8>>>;

    open spec fn view(&self) -> Seq<Option<Seq<u8>>> {
        self.segments@.map_values(|slot: Option<Vec<u8>>| arrived(slot))
    }
}

/// How many of the first `n` segments have not arrived.
pub open spec fn missing<T>(segments: Seq<Option<T>>, n: nat) -> nat
    decreases n,
{
    if n == 0 {
        0
    } else {
        missing(segments, (n - 1) as nat) + (if segments[n - 1] is None {
            1nat
        } else {
            0
        })
    }
}

/// Whether every segment has arrived.
pub open spec fn complete<T>(segments: Seq<Option<T>>) -> bool {
    forall|i: int| 0 <= i < segments.len() ==> #[trigger] segments[i] is Some
}

proof fn lemma_missing<T>(segments: Seq<Option<T>>, n: nat)
    requires
        n <= segments.len(),
    ensures
        missing(segments, n) <= n,
        missing(segments, n) == 0 <==> forall|i: int|
            0 <= i < n ==> #[trigger] segments[i] is Some,
    decreases n,
{
    if n > 0 {
        lemma_missing(segments, (n - 1) as nat);
        if missing(segments, n) == 0 {
            assert(segments[n - 1] is Some);
        }
    }
}

/// A segment that arrives is one less that is missing.
proof fn lemma_missing_update<T>(segments: Seq<Option<T>>, at: int, value: T, n: nat)
    requires
        0 <= at < segments.len(),
        segments[at] is None,
        n <= segments.len(),
    ensures
        missing(segments.update(at, Some(value)), n) == (if at < n {
            missing(segments, n) - 1
        } else {
            missing(segments, n) as int
        }),
    decreases n,
{
    if n > 0 {
        lemma_missing_update(segments, at, value, (n - 1) as nat);
    }
}

proof fn lemma_missing_none<T>(segments: Seq<Option<T>>, n: nat)
    requires
        n <= segments.len(),
        forall|i: int| 0 <= i < segments.len() ==> #[trigger] segments[i] is None,
    ensures
        missing(segments, n) == n,
    decreases n,
{
    if n > 0 {
        lemma_missing_none(segments, (n - 1) as nat);
    }
}

impl PacketSegments {
    /// The segments that have not arrived are counted right.
    pub open spec fn wf(self) -> bool {
        self.non_filled == missing(self.segments@, self.segments@.len())
    }

    fn new(segment_count: usize) -> (packet: Self)
        ensures
            packet.wf(),
            packet@ == unfilled(segment_count),
    {
        let mut segments: Vec<Option<Vec<u8>>> = Vec::new();
        while segments.len() < segment_count
            invariant
                segments@.len() <= segment_count,
                forall|i: int| 0 <= i < segments@.len() ==> #[trigger] segments@[i] is None,
            decreases segment_count - segments@.len(),
        {
            segments.push(None);
        }
        proof {
            lemma_missing_none(segments@, segments@.len());
        }
        let packet = PacketSegments { segments, non_filled: segment_count };
        assert(packet@ =~= unfilled(segment_count));
        packet
    }

    /// Puts the segment where it belongs, unless there is no such place or it has arrived before.
    fn fill(&mut self, segment: usize, segment_count: usize, payload: Vec<u8>) -> (r: Result<
        bool,
        PacketSegmentJoinerError,
    >)
        requires
            old(self).wf(),
        ensures
            final(self).wf(),
            r == fill_result(old(self)@, segment, segment_count, payload@),
            final(self)@ == (if r is Ok {
                old(self)@.update(segment as int, Some(payload@))
            } else {
                old(self)@
            }),
    {
        if segment_count != self.segments.len() || segment >= self.segments.len() {
            return Err(PacketSegmentJoinerError::SegmentMetadataMalformed);
        }
        let ghost before = self.segments@;
        if self.segments[segment].is_some() {
            return Err(PacketSegmentJoinerError::SegmentRepeated);
        }
        proof {
            lemma_missing_update(before, segment as int, payload, before.len());
            lemma_missing(before.update(segment as int, Some(payload)), before.len());
            lemma_missing(before, before.len());
        }
        self.segments[segment] = Some(payload);
        self.non_filled = self.non_filled - 1;
        assert(self@ =~= old(self)@.update(segment as int, Some(payload@)));
        proof {
            let filled = self.segments@;
            assert forall|i: int| 0 <= i < filled.len() implies (#[trigger] self@[i] is Some) == (
            filled[i] is Some) by {}
            if self.non_filled == 0 {
                assert(complete(self@));
            } else if complete(self@) {
                assert forall|i: int| 0 <= i < filled.len() implies #[trigger] filled[i] is Some by {
                    assert(self@[i] is Some);
                }
            }
        }
        Ok(self.non_filled == 0)
    }

    /// The segments in order, all of which have arrived.
    fn into_payloads(self) -> (payloads: Vec<Vec<u8>>)
        requires
            complete(self@),
        ensures
            contents(payloads@) == payloads_of(self@),
    {
        let mut segments = self.segments;
        let mut payloads: Vec<Vec<u8>> = Vec::new();
        let mut i: usize = 0;
        while i < segments.len()
            invariant
                i <= segments@.len() == self@.len(),
                complete(self@),
                payloads@.len() == i,
                forall|k: int| 0 <= k < i ==> (#[trigger] payloads@[k])@ == self@[k].unwrap(),
                forall|k: int| i <= k < self@.len() ==> arrived(#[trigger] segments@[k]) == self@[k],
            decreases segments@.len() - i,
        {
            assert(self@[i as int] is Some);
            assert(arrived(segments@[i as int]) == self@[i as int]);
            match segments[i].take() {
                Some(payload) => payloads.push(payload),
                None => {},
            }
            i += 1;
        }
        assert(contents(payloads@) =~= payloads_of(self@));
        payloads
    }
}

/// A packet none of whose segments has arrived.
pub open spec fn unfilled(segment_count: usize) -> Seq<Option<Seq<u8>>> {
    Seq::new(segment_count as nat, |i: int| None)
}

/// Whether a segment can be put in its place, and whether it is the last one if so.
pub open spec fn fill_result(
    segments: Seq<Option<Seq<u8>>>,
    segment: usize,
    segment_count: usize,
    payload: Seq<u8>,
) -> Result<bool, PacketSegmentJoinerError> {
    if segment_count != segments.len() || segment >= segments.len() {
        Err(PacketSegmentJoinerError::SegmentMetadataMalformed)
    } else if segments[segment as int] is Some {
        Err(PacketSegmentJoinerError::SegmentRepeated)
    } else {
        Ok(complete(segments.update(segment as int, Some(payload))))
    }
}

/// What the segments hold, in order.
pub open spec fn payloads_of(segments: Seq<Option<Seq<u8>>>) -> Seq<Seq<u8>> {
    segments.map_values(|segment: Option<Seq<u8>>| segment.unwrap())
}

/// The packets whose segments have not all arrived, by their keys, and how many there may be.
#[verifier::ext_equal]
pub struct JoinerView {
    pub packets: Map<u32, Seq<Option<Seq<u8>>>>,
    pub capacity: usize,
}

/// What becomes of a joiner, and what it answers.
pub struct JoinerOutcome {
    pub joiner: JoinerView,
    pub result: Result<Option<Seq<Seq<u8>>>, PacketSegmentJoinerError>,
}

impl JoinerView {
    pub open spec fn empty() -> Self {
        JoinerView { packets: Map::empty(), capacity: 0 }
    }

    /// Whether a packet with this key would be one too many.
    pub open spec fn crowded(self, key: u32) -> bool {
        !self.packets.contains_key(key) && self.packets.dom().len() == self.capacity
    }

    /// Whether `victim` may have to make room for a packet with this key: some packet, if there is
    /// any, when the packet would be one too many, and none otherwise.
    pub open spec fn may_evict(self, key: u32, victim: Option<u32>) -> bool {
        match victim {
            Some(v) => self.crowded(key) && self.packets.contains_key(v),
            None => self.crowded(key) ==> self.packets =~= Map::empty(),
        }
    }

    pub open spec fn evict(self, victim: Option<u32>) -> Self {
        match victim {
            Some(v) => JoinerView { packets: self.packets.remove(v), ..self },
            None => self,
        }
    }

    /// A packet with this key is known from now on, if it was not before.
    pub open spec fn open(self, metadata: PacketSegmentMetadata, victim: Option<u32>) -> Self {
        if self.packets.contains_key(metadata.segment_key) {
            self
        } else {
            JoinerView {
                packets: self.evict(victim).packets.insert(
                    metadata.segment_key,
                    unfilled(metadata.segment_count),
                ),
                ..self
            }
        }
    }

    /// A segment of a known packet arrives.
    pub open spec fn arrive(self, metadata: PacketSegmentMetadata, payload: Seq<u8>) -> JoinerOutcome {
        let key = metadata.segment_key;
        let segments = self.packets[key];
        match fill_result(segments, metadata.segment, metadata.segment_count, payload) {
            Err(e) => JoinerOutcome { joiner: self, result: Err(e) },
            Ok(last) => {
                let filled = segments.update(metadata.segment as int, Some(payload));
                if last {
                    JoinerOutcome {
                        joiner: JoinerView { packets: self.packets.remove(key), ..self },
                        result: Ok(Some(payloads_of(filled))),
                    }
                } else {
                    JoinerOutcome {
                        joiner: JoinerView { packets: self.packets.insert(key, filled), ..self },
                        result: Ok(None),
                    }
                }
            },
        }
    }

    /// A segment arrives.
    pub open spec fn add(
        self,
        metadata: PacketSegmentMetadata,
        payload: Seq<u8>,
        pop_first_on_capacity: bool,
        victim: Option<u32>,
    ) -> JoinerOutcome {
        if self.crowded(metadata.segment_key) && !pop_first_on_capacity {
            JoinerOutcome { joiner: self, result: Err(PacketSegmentJoinerError::CapacityReached) }
        } else {
            self.open(metadata, victim).arrive(metadata, payload)
        }
    }
}

/// The packets in a table, by their keys.
pub uninterp spec fn segment_table(table: HashMap<u32, PacketSegments>) -> Map<u32, PacketSegments>;

/// `HashMap::new`: a table without entries.
#[verifier::external_body]
fn table_new() -> (table: HashMap<u32, PacketSegments>)
    ensures
        (segment_table(table) == Map::<u32, PacketSegments>::empty()),
{
    HashMap::new()
}

/// The keys are finitely many, and this is their number.
pub open spec fn counts(len: usize, keys: Set<u32>) -> bool {
    keys.finite() && len == keys.len()
}

/// `HashMap::len`: the number of entries, which are finitely many.
#[verifier::external_body]
fn table_len(table: &HashMap<u32, PacketSegments>) -> (len: usize)
    ensures
        counts(len, segment_table(*table).dom()),
{
    table.len()
}

/// `HashMap::keys` and the first step of its iterator: the key of some entry, if there is any.
/// Which entry that is, is left open.
#[verifier::external_body]
fn table_some_key(table: &HashMap<u32, PacketSegments>) -> (key: Option<&u32>)
    ensures
        match key {
            Some(k) => segment_table(*table).contains_key(*k),
            None => segment_table(*table).dom() =~= Set::empty(),
        },
{
    table.keys().next()
}

/// `HashMap::insert`: the key's entry has the value afterwards, and the value that it had before
/// is handed out.
#[verifier::external_body]
fn table_insert(table: &mut HashMap<u32, PacketSegments>, key: u32, value: PacketSegments) -> (r:
    Option<PacketSegments>)
    ensures
        segment_table(*final(table)) == segment_table(*old(table)).insert(key, value),
        match r {
            Some(was) => segment_table(*old(table)).contains_key(key) && was == segment_table(
                *old(table),
            )[key],
            None => !segment_table(*old(table)).contains_key(key),
        },
{
    table.insert(key, value)
}

/// `HashMap::get_mut`: the value of the key's entry, to be changed in place, if the key has one.
#[verifier::external_body]
fn table_get_mut(table: &mut HashMap<u32, PacketSegments>, key: u32) -> (r: Option<
    &mut PacketSegments,
>)
    ensures
        match r {
            Some(value) => {
                &&& segment_table(*old(table)).contains_key(key)
                &&& *value == segment_table(*old(table))[key]
                &&& segment_table(*final(table)) == segment_table(*old(table)).insert(
                    key,
                    *final(value),
                )
            },
            None => {
                &&& !segment_table(*old(table)).contains_key(key)
                &&& segment_table(*final(table)) == segment_table(*old(table))
            },
        },
{
    table.get_mut(&key)
}

/// `HashMap::remove`: the key has no entry afterwards, and the value that it had before is handed
/// out.
#[verifier::external_body]
fn table_remove(table: &mut HashMap<u32, PacketSegments>, key: u32) -> (r: Option<PacketSegments>)
    ensures
        segment_table(*final(table)) == segment_table(*old(table)).remove(key),
        match r {
            Some(was) => segment_table(*old(table)).contains_key(key) && was == segment_table(
                *old(table),
            )[key],
            None => !segment_table(*old(table)).contains_key(key),
        },
{
    table.remove(&key)
}

/// Collects segments until packets are complete.
pub struct PacketSegmentJoiner {
    map: HashMap<u32, PacketSegments>,
    capacity: usize,
}

impl View for PacketSegmentJoiner {
    type V = JoinerView;

    closed spec fn view(&self) -> JoinerView {
        JoinerView {
            packets: segment_table(self.map).map_values(|packet: PacketSegments| packet@),
            capacity: self.capacity,
        }
    }
}

impl Default for PacketSegmentJoiner {
    fn default() -> (joiner: Self)
        ensures
            joiner.wf(),
            joiner@ == JoinerView::empty(),
    {
        let joiner = PacketSegmentJoiner { map: table_new(), capacity: 0 };
        assert(joiner@ =~= JoinerView::empty());
        joiner
    }
}

impl PacketSegmentJoiner {
    /// The missing segments of every packet are counted right.
    pub closed spec fn wf(&self) -> bool {
        forall|key: u32| #[trigger]
            segment_table(self.map).contains_key(key) ==> segment_table(self.map)[key].wf()
    }

    /// Forgets some packet, if there is any.
    pub fn pop_first(&mut self) -> (r: Option<()>)
        requires
            old(self).wf(),
        ensures
            final(self).wf(),
            match r {
                Some(_) => exists|victim: u32|
                    old(self)@.packets.contains_key(victim) && final(self)@ == (
                    #[trigger] old(self)@.evict(Some(victim))),
                None => old(self)@.packets =~= Map::empty() && final(self)@ == old(self)@,
            },
    {
        let key: u32 = match table_some_key(&self.map) {
            Some(key) => *key,
            None => {
                assert(self@.packets.dom() =~= Set::empty());
                return None;
            },
        };
        let _ = table_remove(&mut self.map, key);
        assert(old(self)@.packets.contains_key(key));
        assert(self@ =~= old(self)@.evict(Some(key)));
        Some(())
    }

    /// Takes a segment in, and hands the packet's segments out, in order, once they are complete.
    pub fn add(
        &mut self,
        metadata: PacketSegmentMetadata,
        payload: Vec<u8>,
        pop_first_on_capacity: bool,
    ) -> (r: Result<Option<Vec<Vec<u8>>>, PacketSegmentJoinerError>)
        requires
            old(self).wf(),
        ensures
            final(self).wf(),
            exists|victim: Option<u32>| #[trigger]
                old(self)@.may_evict(metadata.segment_key, victim) && {
                    let outcome = old(self)@.add(
                        metadata,
                        payload@,
                        pop_first_on_capacity,
                        victim,
                    );
                    &&& final(self)@ == outcome.joiner
                    &&& joined_view(r) == outcome.result
                },
    {
        let key: u32 = metadata.segment_key;
        let ghost before = self@;
        let ghost mut victim: Option<u32> = None;
        let known = match table_get_mut(&mut self.map, key) {
            Some(_) => true,
            None => false,
        };
        assert(self@ =~= before);
        assert(before.packets.contains_key(key) == known);
        if !known {
            let len = table_len(&self.map);
            assert(before.packets.dom() =~= segment_table(self.map).dom());
            if self.capacity == len {
                if pop_first_on_capacity {
                    let popped = self.pop_first();
                    proof {
                        if popped is Some {
                            victim = Some(
                                choose|v: u32|
                                    before.packets.contains_key(v) && self@ == (
                                    #[trigger] before.evict(Some(v))),
                            );
                        }
                    }
                } else {
                    proof {
                        if len > 0 {
                            let some = before.packets.dom().choose();
                            assert(before.packets.contains_key(some));
                            victim = Some(some);
                        } else {
                            assert(before.packets.dom() =~= Set::empty());
                            assert(before.packets =~= Map::empty());
                        }
                        assert(before.may_evict(key, victim));
                    }
                    return Err(PacketSegmentJoinerError::CapacityReached);
                }
            }
            assert(self@ == before.evict(victim));
            let fresh = PacketSegments::new(metadata.segment_count);
            let _ = table_insert(&mut self.map, key, fresh);
        }
        let ghost opened = self@;
        assert(opened =~= before.open(metadata, victim));
        assert(before.may_evict(key, victim));
        assert(opened.packets.contains_key(key));
        let filled = match table_get_mut(&mut self.map, key) {
            Some(segments) => segments.fill(metadata.segment, metadata.segment_count, payload),
            None => Err(PacketSegmentJoinerError::SegmentMetadataMalformed),
        };
        match filled {
            Err(e) => {
                assert(self@ =~= opened);
                Err(e)
            },
            Ok(last) => {
                let ghost full = self@.packets[key];
                assert(self@.packets =~= opened.packets.insert(
                    key,
                    opened.packets[key].update(metadata.segment as int, Some(payload@)),
                ));
                if last {
                    match table_remove(&mut self.map, key) {
                        Some(segments) => {
                            assert(self@.packets =~= opened.packets.remove(key));
                            Ok(Some(segments.into_payloads()))
                        },
                        None => Ok(None),
                    }
                } else {
                    Ok(None)
                }
            },
        }
    }
}

/// What the joiner answers, in plain values.
pub open spec fn joined_view(r: Result<Option<Vec<Vec<u8>>>, PacketSegmentJoinerError>) -> Result<
    Option<Seq<Seq<u8>>>,
    PacketSegmentJoinerError,
> {
    match r {
        Ok(Some(payloads)) => Ok(Some(contents(payloads@))),
        Ok(None) => Ok(None),
        Err(e) => Err(e),
    }
}

/// The segments of one packet arrive in the order of `arrivals`, which holds their numbers; the
/// answer is the one to the last of them.
pub open spec fn join_all(
    start: JoinerView,
    key: u32,
    segments: Seq<Seq<u8>>,
    arrivals: Seq<usize>,
) -> JoinerOutcome
    decreases arrivals.len(),
{
    if arrivals.len() == 0 {
        JoinerOutcome { joiner: start, result: Ok(None) }
    } else {
        let before = join_all(start, key, segments, arrivals.drop_last());
        let segment = arrivals.last();
        before.joiner.add(
            PacketSegmentMetadata {
                segment_key: key,
                segment,
                segment_count: segments.len() as usize,
            },
            segments[segment as int],
            true,
            None,
        )
    }
}

/// Those of a packet's segments that have arrived.
pub open spec fn filled_in(segments: Seq<Seq<u8>>, arrivals: Seq<usize>) -> Seq<Option<Seq<u8>>> {
    Seq::new(
        segments.len(),
        |i: int|
            if arrivals.contains(i as usize) {
                Some(segments[i])
            } else {
                None
            },
    )
}

/// However the segments of a packet arrive, the packet is handed out when the last of them does,
/// and not before, with its segments in order; nothing of it is kept after that, and other packets
/// are not concerned.
pub proof fn law_joined_in_order(
    start: JoinerView,
    key: u32,
    segments: Seq<Seq<u8>>,
    arrivals: Seq<usize>,
)
    requires
        start.may_evict(key, None),
        !start.packets.contains_key(key),
        1 <= segments.len() <= usize::MAX,
        1 <= arrivals.len(),
        arrivals.no_duplicates(),
        forall|i: int| 0 <= i < arrivals.len() ==> (#[trigger] arrivals[i] as int) < segments.len(),
    ensures
        arrivals.len() < segments.len() ==> join_all(start, key, segments, arrivals) == (
        JoinerOutcome {
            joiner: JoinerView {
                packets: start.packets.insert(key, filled_in(segments, arrivals)),
                ..start
            },
            result: Ok(None),
        }),
        arrivals.len() == segments.len() ==> join_all(start, key, segments, arrivals) == (
        JoinerOutcome { joiner: start, result: Ok(Some(segments)) }),
    decreases arrivals.len(),
{
    let n = segments.len();
    let earlier = arrivals.drop_last();
    let x = arrivals.last();
    assert((arrivals[arrivals.len() - 1] as int) < n);
    lemma_arrivals_at_most(arrivals, n);
    assert(!earlier.contains(x)) by {
        if earlier.contains(x) {
            let k = choose|k: int| 0 <= k < earlier.len() && earlier[k] == x;
            assert(arrivals[k] == arrivals[arrivals.len() - 1]);
        }
    }
    assert forall|i: usize| #[trigger]
        arrivals.contains(i) <==> earlier.contains(i) || i == x by {
        if earlier.contains(i) {
            let k = choose|k: int| 0 <= k < earlier.len() && earlier[k] == i;
            assert(arrivals[k] == i);
        }
        if arrivals.contains(i) && i != x {
            let k = choose|k: int| 0 <= k < arrivals.len() && arrivals[k] == i;
            assert(earlier[k] == i);
        }
        assert(arrivals[arrivals.len() - 1] == x);
    }
    let before = join_all(start, key, segments, earlier);
    let metadata = PacketSegmentMetadata {
        segment_key: key,
        segment: x,
        segment_count: n as usize,
    };
    if earlier.len() > 0 {
        law_joined_in_order(start, key, segments, earlier);
    } else {
        assert(unfilled(n as usize) =~= filled_in(segments, earlier));
    }
    let opened = before.joiner.open(metadata, None);
    assert(opened.packets =~= start.packets.insert(key, filled_in(segments, earlier)));
    let filled = filled_in(segments, earlier).update(x as int, Some(segments[x as int]));
    assert(filled =~= filled_in(segments, arrivals));
    if arrivals.len() == n {
        assert forall|i: int| 0 <= i < filled.len() implies #[trigger] filled[i] is Some by {
            lemma_all_arrived(arrivals, n, i as usize);
        }
        assert(payloads_of(filled) =~= segments);
        assert(opened.packets.remove(key) =~= start.packets);
    } else {
        if complete(filled) {
            lemma_missing_arrival(arrivals, n);
            let i = choose|i: usize| (i as int) < n && !#[trigger] arrivals.contains(i);
            assert(filled[i as int] is None);
        }
        assert(opened.packets.insert(key, filled) =~= start.packets.insert(
            key,
            filled_in(segments, arrivals),
        ));
    }
}

/// A call of [`PacketSegmentJoiner::add`], with the packet that makes room for it, if any has to.
pub struct SegmentArrival {
    pub metadata: PacketSegmentMetadata,
    pub payload: Seq<u8>,
    pub pop_first_on_capacity: bool,
    pub victim: Option<u32>,
}

impl SegmentArrival {
    pub open spec fn outcome(self, joiner: JoinerView) -> JoinerOutcome {
        joiner.add(self.metadata, self.payload, self.pop_first_on_capacity, self.victim)
    }
}

/// A joiner after segments of any packets have arrived.
pub open spec fn joiner_after(start: JoinerView, arrivals: Seq<SegmentArrival>) -> JoinerView
    decreases arrivals.len(),
{
    if arrivals.len() == 0 {
        start
    } else {
        arrivals.last().outcome(joiner_after(start, arrivals.drop_last())).joiner
    }
}

/// What the joiner answers to the last arrival.
pub open spec fn last_answer(start: JoinerView, arrivals: Seq<SegmentArrival>) -> Result<
    Option<Seq<Seq<u8>>>,
    PacketSegmentJoinerError,
> {
    arrivals.last().outcome(joiner_after(start, arrivals.drop_last())).result
}

/// The numbers of those that belong to one packet.
pub open spec fn numbers_seen(arrivals: Seq<SegmentArrival>, key: u32) -> Seq<usize>
    decreases arrivals.len(),
{
    if arrivals.len() == 0 {
        Seq::empty()
    } else {
        let earlier = numbers_seen(arrivals.drop_last(), key);
        if arrivals.last().metadata.segment_key == key {
            earlier.push(arrivals.last().metadata.segment)
        } else {
            earlier
        }
    }
}

/// Whether these arrivals do one packet no harm: those of its key are its segments, there is room
/// for it or room can be made, and it never has to make room for another packet.
pub open spec fn spare(
    start: JoinerView,
    arrivals: Seq<SegmentArrival>,
    key: u32,
    segments: Seq<Seq<u8>>,
) -> bool
    decreases arrivals.len(),
{
    arrivals.len() > 0 ==> {
        let before = joiner_after(start, arrivals.drop_last());
        let a = arrivals.last();
        &&& spare(start, arrivals.drop_last(), key, segments)
        &&& before.may_evict(a.metadata.segment_key, a.victim)
        &&& a.victim != Some(key)
        &&& a.metadata.segment_key == key ==> {
            &&& a.metadata.segment_count == segments.len()
            &&& a.metadata.segment < segments.len()
            &&& a.payload == segments[a.metadata.segment as int]
            &&& before.crowded(key) ==> a.pop_first_on_capacity
        }
    }
}

/// However the segments of a packet arrive, and whatever segments of other packets arrive in
/// between: as long as the packet does not have to make room for another one, each of its segments
/// but the last is answered with nothing, the last one with all of them in order; and after that
/// nothing of it is kept, so that the next segment of its key starts a new packet.
pub proof fn law_joined_among_others(
    start: JoinerView,
    arrivals: Seq<SegmentArrival>,
    key: u32,
    segments: Seq<Seq<u8>>,
)
    requires
        !start.packets.contains_key(key),
        1 <= segments.len() <= usize::MAX,
        spare(start, arrivals, key, segments),
        numbers_seen(arrivals, key).no_duplicates(),
    ensures
        forall|i: int|
            0 <= i < arrivals.len() && (#[trigger] arrivals[i]).metadata.segment_key == key
                ==> last_answer(start, arrivals.take(i + 1)) == (if numbers_seen(
                arrivals.take(i + 1),
                key,
            ).len() < segments.len() {
                Ok::<Option<Seq<Seq<u8>>>, PacketSegmentJoinerError>(None)
            } else {
                Ok(Some(segments))
            }),
        numbers_seen(arrivals, key).len() == segments.len() ==> !joiner_after(
            start,
            arrivals,
        ).packets.contains_key(key),
    decreases arrivals.len(),
{
    lemma_joined_among_others(start, arrivals, key, segments);
    if arrivals.len() > 0 {
        let earlier = arrivals.drop_last();
        let seen = numbers_seen(arrivals, key);
        lemma_prefix_distinct(arrivals, key);
        law_joined_among_others(start, earlier, key, segments);
        assert forall|i: int|
            0 <= i < arrivals.len() && (#[trigger] arrivals[i]).metadata.segment_key
                == key implies last_answer(start, arrivals.take(i + 1)) == (if numbers_seen(
            arrivals.take(i + 1),
            key,
        ).len() < segments.len() {
            Ok::<Option<Seq<Seq<u8>>>, PacketSegmentJoinerError>(None)
        } else {
            Ok(Some(segments))
        }) by {
            if i < earlier.len() {
                assert(earlier[i] == arrivals[i]);
                assert(earlier.take(i + 1) =~= arrivals.take(i + 1));
            } else {
                assert(arrivals.take(i + 1) =~= arrivals);
            }
        }
    }
}

proof fn lemma_prefix_distinct(arrivals: Seq<SegmentArrival>, key: u32)
    requires
        arrivals.len() > 0,
        numbers_seen(arrivals, key).no_duplicates(),
    ensures
        numbers_seen(arrivals.drop_last(), key).no_duplicates(),
{
    let seen = numbers_seen(arrivals, key);
    let earlier = numbers_seen(arrivals.drop_last(), key);
    assert forall|i: int, j: int| 0 <= i < earlier.len() && 0 <= j < earlier.len() && i
        != j implies earlier[i] != earlier[j] by {
        assert(seen[i] == earlier[i] && seen[j] == earlier[j]);
    }
}

/// What is kept of a packet of which these segments have arrived.
spec fn is_kept(
    joiner: JoinerView,
    key: u32,
    segments: Seq<Seq<u8>>,
    seen: Seq<usize>,
) -> bool {
    if 0 < seen.len() < segments.len() {
        joiner.packets.contains_key(key) && joiner.packets[key] == filled_in(segments, seen)
    } else {
        !joiner.packets.contains_key(key)
    }
}

proof fn lemma_joined_among_others(
    start: JoinerView,
    arrivals: Seq<SegmentArrival>,
    key: u32,
    segments: Seq<Seq<u8>>,
)
    requires
        !start.packets.contains_key(key),
        1 <= segments.len() <= usize::MAX,
        spare(start, arrivals, key, segments),
        numbers_seen(arrivals, key).no_duplicates(),
    ensures
        is_kept(joiner_after(start, arrivals), key, segments, numbers_seen(arrivals, key)),
        forall|i: int|
            0 <= i < numbers_seen(arrivals, key).len() ==> (#[trigger] numbers_seen(
                arrivals,
                key,
            )[i] as int) < segments.len(),
        arrivals.len() > 0 && arrivals.last().metadata.segment_key == key ==> last_answer(
            start,
            arrivals,
        ) == (if numbers_seen(arrivals, key).len() < segments.len() {
            Ok::<Option<Seq<Seq<u8>>>, PacketSegmentJoinerError>(None)
        } else {
            Ok(Some(segments))
        }),
    decreases arrivals.len(),
{
    if arrivals.len() > 0 {
        let earlier = arrivals.drop_last();
        lemma_prefix_distinct(arrivals, key);
        lemma_joined_among_others(start, earlier, key, segments);
        let before = joiner_after(start, earlier);
        let a = arrivals.last();
        if a.metadata.segment_key == key {
            lemma_own_segment(before, a, key, segments, numbers_seen(earlier, key));
        }
    }
}

/// A segment of the packet arrives.
proof fn lemma_own_segment(
    before: JoinerView,
    a: SegmentArrival,
    key: u32,
    segments: Seq<Seq<u8>>,
    earlier: Seq<usize>,
)
    requires
        1 <= segments.len() <= usize::MAX,
        is_kept(before, key, segments, earlier),
        earlier.push(a.metadata.segment).no_duplicates(),
        forall|i: int| 0 <= i < earlier.len() ==> (#[trigger] earlier[i] as int) < segments.len(),
        a.metadata.segment_key == key,
        a.metadata.segment_count == segments.len(),
        a.metadata.segment < segments.len(),
        a.payload == segments[a.metadata.segment as int],
        before.crowded(key) ==> a.pop_first_on_capacity,
        a.victim != Some(key),
    ensures
        is_kept(a.outcome(before).joiner, key, segments, earlier.push(a.metadata.segment)),
        a.outcome(before).result == (if earlier.len() + 1 < segments.len() {
            Ok::<Option<Seq<Seq<u8>>>, PacketSegmentJoinerError>(None)
        } else {
            Ok(Some(segments))
        }),
{
    let n = segments.len();
    let x = a.metadata.segment;
    let seen = earlier.push(x);
    assert forall|i: int| 0 <= i < seen.len() implies (#[trigger] seen[i] as int) < n by {
        if i < earlier.len() {
            assert(seen[i] == earlier[i]);
        }
    }
    lemma_arrivals_at_most(seen, n);
    assert(!earlier.contains(x)) by {
        if earlier.contains(x) {
            let k = choose|k: int| 0 <= k < earlier.len() && earlier[k] == x;
            assert(seen[k] == seen[earlier.len() as int]);
        }
    }
    assert forall|i: usize| #[trigger] seen.contains(i) <==> earlier.contains(i) || i == x by {
        if earlier.contains(i) {
            let k = choose|k: int| 0 <= k < earlier.len() && earlier[k] == i;
            assert(seen[k] == i);
        }
        assert(seen[earlier.len() as int] == x);
    }
    if earlier.len() == 0 {
        assert(unfilled(n as usize) =~= filled_in(segments, earlier));
    }
    let opened = before.open(a.metadata, a.victim);
    assert(opened.packets.contains_key(key));
    assert(opened.packets[key] == filled_in(segments, earlier));
    let filled = filled_in(segments, earlier).update(x as int, Some(segments[x as int]));
    assert(filled =~= filled_in(segments, seen));
    if seen.len() == n {
        assert forall|i: int| 0 <= i < filled.len() implies #[trigger] filled[i] is Some by {
            lemma_all_arrived(seen, n, i as usize);
        }
        assert(payloads_of(filled) =~= segments);
    } else if complete(filled) {
        lemma_missing_arrival(seen, n);
        let i = choose|i: usize| (i as int) < n && !#[trigger] seen.contains(i);
        assert(filled[i as int] is None);
    }
}

} // verus!
