//! How packets are laid out, and how segments, ids and waiting values are dealt with, one step at
//! a time.
use crate::net::channel::ChannelView;
use crate::net::id::ConnectionState;
use crate::net::mapper::MapperView;
use crate::net::packet::{packet_bytes, parse_headers, PrimaryPacketMetadata};
use crate::net::segment::{JoinerView, PacketSegmentJoinerError, PacketSegmentMetadata};
use crate::proto::decode::Decode;
use crate::proto::encode::Encode;
use crate::proto::VarInt;
use crate::util::channel::bunch_size;
use crate::util::slot_map::{SlotMapKey, SlotMapView};
use vstd::prelude::*;

verus! {

/// A packet starts with twice its channel's id, plus one if it is a segment. A segment goes on with
/// its packet's key, its number and the last segment's number; then come the order and the two
/// parts of the resend key, where there are any, and then the payload.
pub proof fn law_packet_layout(
    channel_id: u32,
    segment: Option<PacketSegmentMetadata>,
    order: Option<u32>,
    key: Option<SlotMapKey>,
    payload: Seq<u8>,
)
    requires
        channel_id < 0x8000_0000,
        segment matches Some(m) ==> m.segment <= u16::MAX && 1 <= m.segment_count <= 0x1_0000,
    ensures
        ({
            let tail = (match order {
                Some(n) => VarInt(n).encoding(),
                None => Seq::<u8>::empty(),
            }) + (match key {
                Some(k) => VarInt(k.index).encoding() + VarInt(k.generation).encoding(),
                None => Seq::<u8>::empty(),
            }) + payload;
            let packet = packet_bytes(channel_id, segment, order, key, payload);
            match segment {
                None => packet == VarInt((2 * channel_id) as u32).encoding() + tail,
                Some(m) => packet == VarInt((2 * channel_id + 1) as u32).encoding() + (VarInt(
                    m.segment_key,
                ).encoding() + VarInt(m.segment as u16).encoding() + VarInt(
                    (m.segment_count - 1) as u16,
                ).encoding()) + tail,
            }
        }),
        segment matches Some(m) ==> m.encodable(),
{
}

/// Whatever number a packet starts with, half of it is the channel's id, and it is odd where the
/// packet is a segment.
pub proof fn law_packet_start<const LOCAL: bool>(input: Seq<u8>)
    ensures
        ({
            let number = VarInt::<u32>::parse(input);
            let start = PrimaryPacketMetadata::<LOCAL>::parse(input);
            &&& start.value is Some <==> number.value is Some
            &&& start.used == number.used
            &&& start.value matches Some(s) ==> number.value.unwrap().0 == 2 * s.channel_id
                + if s.segment {
                1int
            } else {
                0
            }
        }),
{
}

/// What can be told of a packet's start can be written, if the channel's id has 31 bits.
pub proof fn law_packet_start_is_written<const LOCAL: bool>(start: PrimaryPacketMetadata<LOCAL>)
    ensures
        start.encodable() <==> start.channel_id.0 < 0x8000_0000,
        start.encodable() ==> start.encoding() == VarInt(
            (if start.segment {
                2 * start.channel_id.0 + 1
            } else {
                2 * start.channel_id.0
            }) as u32,
        ).encoding(),
{
}

/// A resend key is read where two numbers stand one behind the other, and they are its index and
/// its generation.
pub proof fn law_key_is_read(input: Seq<u8>)
    ensures
        ({
            let first = VarInt::<u32>::parse(input);
            let second = VarInt::<u32>::parse(input.skip(first.used as int));
            let key = SlotMapKey::parse(input);
            &&& key.value is Some <==> first.value is Some && second.value is Some
            &&& key.value matches Some(k) ==> k.index == first.value.unwrap().0 && k.generation
                == second.value.unwrap().0 && key.used == first.used + second.used
        }),
{
}

/// A segment's metadata is read where three numbers stand one behind the other, the last of which
/// is one less than the number of segments.
pub proof fn law_segment_metadata_is_read(input: Seq<u8>)
    ensures
        ({
            let first = VarInt::<u32>::parse(input);
            let second = VarInt::<u16>::parse(input.skip(first.used as int));
            let third = VarInt::<u16>::parse(
                input.skip(first.used as int).skip(second.used as int),
            );
            let metadata = PacketSegmentMetadata::parse(input);
            &&& metadata.value is Some <==> first.value is Some && second.value is Some
                && third.value is Some
            &&& metadata.value matches Some(m) ==> {
                &&& m.segment_key == first.value.unwrap().0
                &&& m.segment == second.value.unwrap().0
                &&& m.segment_count - 1 == third.value.unwrap().0
                &&& metadata.used == first.used + second.used + third.used
            }
        }),
{
}

/// Metadata of a segment can be written if its number and the last segment's number have 16 bits.
pub proof fn law_segment_metadata_is_written(metadata: PacketSegmentMetadata)
    ensures
        metadata.encodable() <==> metadata.segment < 0x1_0000 && 0 < metadata.segment_count
            <= 0x1_0000,
        metadata.encoding() == VarInt(metadata.segment_key).encoding() + VarInt(
            metadata.segment as u16,
        ).encoding() + VarInt((metadata.segment_count - 1) as u16).encoding(),
{
}

/// An order is read on ordered channels only, a resend key on reliable channels only, the order
/// first, and nothing is left out that the channel asks for.
pub proof fn law_headers_are_read(channel: ChannelView, input: Seq<u8>)
    ensures
        ({
            let headers = parse_headers(channel, input);
            let number = VarInt::<u32>::parse(input);
            let behind = if channel.orderability is Some {
                number.used as int
            } else {
                0
            };
            let key = SlotMapKey::parse(input.skip(behind));
            &&& headers.value is None <==> (channel.orderability is Some && number.value is None)
                || (channel.reliability is Some && key.value is None)
            &&& headers.value matches Some(h) ==> {
                &&& h.order == (match channel.orderability {
                    Some(_) => Some(number.value.unwrap().0),
                    None => None,
                })
                &&& h.resend_key == (match channel.reliability {
                    Some(_) => key.value,
                    None => None,
                })
                &&& headers.used == behind + (match channel.reliability {
                    Some(_) => key.used as int,
                    None => 0,
                })
            }
        }),
{
}

/// Where the place of every segment but this one is filled.
pub open spec fn is_last_missing(places: Seq<Option<Seq<u8>>>, number: usize) -> bool {
    forall|i: int| 0 <= i < places.len() && i != number ==> #[trigger] places[i] is Some
}

/// What becomes of a packet, and what is answered, when one of its segments comes to its places.
pub open spec fn takes_its_place(
    joiner: JoinerView,
    places: Seq<Option<Seq<u8>>>,
    metadata: PacketSegmentMetadata,
    payload: Seq<u8>,
    after: JoinerView,
    answer: Result<Option<Seq<Seq<u8>>>, PacketSegmentJoinerError>,
) -> bool {
    let key = metadata.segment_key;
    let number = metadata.segment;
    if number >= metadata.segment_count || metadata.segment_count != places.len() {
        &&& answer == Err::<Option<Seq<Seq<u8>>>, _>(
            PacketSegmentJoinerError::SegmentMetadataMalformed,
        )
        &&& after.packets.contains_key(key) && after.packets[key] == places
    } else if places[number as int] is Some {
        &&& answer == Err::<Option<Seq<Seq<u8>>>, _>(PacketSegmentJoinerError::SegmentRepeated)
        &&& after.packets.contains_key(key) && after.packets[key] == places
    } else if is_last_missing(places, number) {
        &&& !after.packets.contains_key(key)
        &&& answer matches Ok(Some(joined)) && joined.len() == places.len()
            && joined[number as int] == payload && forall|i: int|
            0 <= i < places.len() && i != number ==> Some(#[trigger] joined[i]) == places[i]
    } else {
        &&& answer == Ok::<Option<Seq<Seq<u8>>>, PacketSegmentJoinerError>(None)
        &&& after.packets.contains_key(key)
        &&& after.packets[key].len() == places.len()
        &&& after.packets[key][number as int] == Some(payload)
        &&& forall|i: int|
            0 <= i < places.len() && i != number ==> #[trigger] after.packets[key][i] == places[i]
    }
}

/// A segment of a packet of which segments wait is put in its place; it is refused, and nothing
/// changes, if it has come before or does not fit the others. A segment of another packet starts
/// it with nothing in its places; but where as many packets wait as may, it is refused, and nothing
/// changes, unless some waiting packet is to be given up for it. The other packets stay as they
/// are. With its last segment a packet is complete and waits no longer.
pub proof fn law_segment_comes(
    joiner: JoinerView,
    metadata: PacketSegmentMetadata,
    payload: Seq<u8>,
    pop_first_on_capacity: bool,
    victim: Option<u32>,
)
    requires
        joiner.packets.dom().finite(),
        joiner.may_evict(metadata.segment_key, victim),
    ensures
        ({
            let key = metadata.segment_key;
            let known = joiner.packets.contains_key(key);
            let full = joiner.packets.dom().len() == joiner.capacity;
            let outcome = joiner.add(metadata, payload, pop_first_on_capacity, victim);
            let after = outcome.joiner;
            &&& after.capacity == joiner.capacity
            &&& victim is Some ==> full && !known && joiner.packets.contains_key(victim.unwrap())
            &&& full && !known && joiner.capacity > 0 ==> victim is Some
            &&& if known {
                &&& takes_its_place(
                    joiner,
                    joiner.packets[key],
                    metadata,
                    payload,
                    after,
                    outcome.result,
                )
                &&& outcome.result is Err ==> after == joiner
                &&& after.packets.remove(key) == joiner.packets.remove(key)
            } else if full && !pop_first_on_capacity {
                &&& outcome.result == Err::<Option<Seq<Seq<u8>>>, _>(
                    PacketSegmentJoinerError::CapacityReached,
                )
                &&& after == joiner
            } else {
                &&& exists|places: Seq<Option<Seq<u8>>>|
                    {
                        &&& places.len() == metadata.segment_count
                        &&& forall|i: int|
                            0 <= i < places.len() ==> #[trigger] places[i] is None
                        &&& #[trigger] takes_its_place(
                            joiner,
                            places,
                            metadata,
                            payload,
                            after,
                            outcome.result,
                        )
                    }
                &&& forall|k: u32|
                    k != key ==> (#[trigger] after.packets.contains_key(k) <==> Some(k) != victim
                        && joiner.packets.contains_key(k))
                &&& forall|k: u32|
                    k != key && #[trigger] after.packets.contains_key(k) ==> after.packets[k]
                        == joiner.packets[k]
            }
        }),
        joiner.capacity > 0 && joiner.packets.dom().len() <= joiner.capacity ==> joiner.add(
            metadata,
            payload,
            pop_first_on_capacity,
            victim,
        ).joiner.packets.dom().len() <= joiner.capacity,
{
    let key = metadata.segment_key;
    let outcome = joiner.add(metadata, payload, pop_first_on_capacity, victim);
    let after = outcome.joiner;
    if joiner.packets.dom().len() > 0 {
        let some = joiner.packets.dom().choose();
        assert(joiner.packets.contains_key(some));
    }
    if joiner.packets.contains_key(key) {
        lemma_arrive(joiner, metadata, payload);
        assert(after.packets.remove(key) =~= joiner.packets.remove(key));
        assert(after.packets.dom().subset_of(joiner.packets.dom()));
        vstd::set_lib::lemma_len_subset(after.packets.dom(), joiner.packets.dom());
    } else if !(joiner.crowded(key) && !pop_first_on_capacity) {
        let opened = joiner.open(metadata, victim);
        let places = opened.packets[key];
        assert forall|i: int| 0 <= i < places.len() implies #[trigger] places[i] is None by {}
        lemma_arrive(opened, metadata, payload);
        assert(takes_its_place(joiner, places, metadata, payload, after, outcome.result));
        let kept = joiner.evict(victim).packets.dom();
        assert(after.packets.dom().subset_of(kept.insert(key)));
        vstd::set_lib::lemma_len_subset(after.packets.dom(), kept.insert(key));
        assert(kept =~= (match victim {
            Some(v) => joiner.packets.dom().remove(v),
            None => joiner.packets.dom(),
        }));
    }
}

proof fn lemma_arrive(joiner: JoinerView, metadata: PacketSegmentMetadata, payload: Seq<u8>)
    requires
        joiner.packets.contains_key(metadata.segment_key),
    ensures
        takes_its_place(
            joiner,
            joiner.packets[metadata.segment_key],
            metadata,
            payload,
            joiner.arrive(metadata, payload).joiner,
            joiner.arrive(metadata, payload).result,
        ),
{
    let places = joiner.packets[metadata.segment_key];
    let number = metadata.segment as int;
    if number < places.len() {
        let filled = places.update(number, Some(payload));
        if is_last_missing(places, metadata.segment) {
            assert forall|i: int| 0 <= i < filled.len() implies #[trigger] filled[i] is Some by {
                if i != number {
                    assert(places[i] is Some);
                }
            }
        } else {
            let hole = choose|i: int|
                0 <= i < places.len() && i != number && !(#[trigger] places[i] is Some);
            assert(filled[hole] is None);
        }
    }
}

/// A bunch takes no more than there is and no more than fits, and it takes all that fits: either
/// nothing is left waiting or the bunch is full.
pub proof fn law_bunch_is_filled(waiting: nat, len: nat, capacity: nat)
    ensures
        bunch_size(waiting, len, capacity) <= waiting,
        bunch_size(waiting, len, capacity) > 0 ==> len + bunch_size(waiting, len, capacity)
            <= capacity,
        bunch_size(waiting, len, capacity) < waiting ==> len + bunch_size(waiting, len, capacity)
            >= capacity,
{
}

/// While channels are being registered, the two channels of that stage have their ids on both
/// sides, and no other channel has any.
pub proof fn law_ids_of_the_registration_stage(
    mapper: MapperView,
    received_last_packet: bool,
    last_packet_resend_key: Option<SlotMapKey>,
    id: u32,
)
    ensures
        ({
            let state = ConnectionState::Registration {
                received_last_packet,
                last_packet_resend_key,
            };
            let expected = if id == 0x7fff_fffe || id == 0x7fff_fffd {
                Some(id)
            } else {
                None
            };
            mapper.local_id(state, id) == expected && mapper.global_id(state, id) == expected
        }),
{
}

/// While messages are exchanged, the channel at the place `id` of the list has that id, and places
/// without a channel and those beyond the end name nothing.
pub proof fn law_ids_while_transferring(mapper: MapperView, id: u32)
    ensures
        mapper.global_id(ConnectionState::Transfer, id) is Some <==> (id as int)
            < mapper.locals.len() && mapper.locals[id as int] != 0x7fff_ffff,
        mapper.global_id(ConnectionState::Transfer, id) is Some ==> mapper.global_id(
            ConnectionState::Transfer,
            id,
        ) == Some(mapper.locals[id as int]),
{
}

/// A channel can get every id up to the first that no channel has, as long as the list of ids may
/// grow.
pub proof fn law_which_ids_are_accepted(mapper: MapperView, local: u32)
    ensures
        mapper.accepts(local) <==> local <= mapper.locals.len() && mapper.locals.len()
            < 0x7fff_ffff,
{
}

/// There is a key for the next entry of a slot map as long as its slots can be numbered and its
/// slot has not been used up; a freed slot is used again first, and a fresh slot starts at the
/// first generation.
pub proof fn law_keys_are_given<T>(map: SlotMapView<T>)
    requires
        map.wf(),
    ensures
        map.free.len() > 0 ==> map.next_key().index == map.free.last(),
        map.free.len() == 0 && map.values.len() <= u32::MAX ==> map.next_key().index
            == map.values.len(),
        map.free.len() == 0 && map.values.len() == map.generations.len() && map.values.len()
            <= u32::MAX ==> map.has_next_key() && map.next_key().generation == 0,
        map.has_next_key() && (map.next_key().index as int) < map.generations.len()
            ==> map.next_key().generation == map.generations[map.next_key().index as int] + 1,
        !map.has_next_key() ==> (map.free.len() == 0 && map.values.len() > u32::MAX) || exists|
            i: int,
        |
            0 <= i < map.generations.len() && #[trigger] map.generations[i] == u32::MAX,
{
    if !map.has_next_key() && map.next_index() <= u32::MAX {
        assert(map.generations[map.next_index()] == u32::MAX);
    }
}

/// The slot of an entry that is removed is the next to be used, with the next generation, and then
/// those that were free before are, in the same order as before.
pub proof fn law_freed_slot_is_used_next<T>(map: SlotMapView<T>, key: SlotMapKey, value: T)
    requires
        map.wf(),
        map.get(key) is Some,
        key.generation < u32::MAX,
    ensures
        ({
            let after = map.remove(key);
            let again = after.add(Some(value));
            let next = SlotMapKey { index: key.index, generation: (key.generation + 1) as u32 };
            &&& after.has_next_key()
            &&& after.next_key() == next
            &&& again.free == map.free
            &&& again.values == map.values.update(key.index as int, Some(value))
            &&& again.get(next) == Some(value)
            &&& again.get(key) is None
            &&& after.len() + 1 == map.len()
        }),
{
    let after = map.remove(key);
    if map.free.contains(key.index) {
        let k = choose|k: int| 0 <= k < map.free.len() && map.free[k] == key.index;
        assert(map.values[map.free[k] as int] is None);
    }
    assert(after.free.drop_last() =~= map.free);
    assert(after.values.update(key.index as int, Some(value)) =~= map.values.update(
        key.index as int,
        Some(value),
    ));
    crate::util::slot_map::lemma_distinct_below(after.free, after.values.len());
}

/// A map that is cleared holds nothing, and gives its keys from the first slot on again, but none
/// that it has given before.
pub proof fn law_cleared<T>(map: SlotMapView<T>, key: SlotMapKey)
    requires
        map.wf(),
    ensures
        map.clear().len() == 0,
        map.clear().get(key) is None,
        map.clear().next_index() == 0,
        map.clear().has_next_key() && map.issued(key) ==> map.clear().next_key() != key,
{
}

} // verus!
