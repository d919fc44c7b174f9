use theta::net::channel::{Channel, ChannelFrequency, OrderedChannel, ReliableChannel};
use theta::net::channel_data::{
    ChannelData, ConnectionChannelMessageSwapBuffer, GlobalChannelData,
};
use theta::net::id::{
    ChannelId, ConnectionState, GlobalChannelId, UniqueChannelId,
    ACK_CHANNEL_ID_REGISTRATION_STAGE, CHANNEL_MANAGEMENT_CHANNEL_ID_REGISTRATION_STAGE,
    NULL_CHANNEL_ID,
};
use theta::net::mapper::{
    ConnectionIdMapperInner, ACK_CHANNEL_NAME, CHANNEL_MANAGEMENT_CHANNEL_NAME,
};
use theta::net::ordering::{PacketOrderer, PacketOrdererError};
use theta::net::resend::{PacketResender, PacketResenderError, ReliableBufferedPacket};
use theta::net::segment::{
    PacketSegmentJoiner, PacketSegmentJoinerError, PacketSegmentMetadata,
};
use theta::proto::decode::Decode;
use theta::proto::encode::Encode;
use theta::util::channel::ManyToSingleChannel;
use theta::util::non_zero::{NonZeroU32, NonZeroUsize};
use theta::util::slot_map::SlotMapKey;

fn registration() -> ConnectionState {
    ConnectionState::default()
}

fn global(id: u32) -> ChannelId<GlobalChannelId> {
    ChannelId::new(id)
}

fn local(id: u32) -> ChannelId<UniqueChannelId<true>> {
    ChannelId::new(id)
}

fn packet(byte: u8) -> Vec<u8> {
    vec![byte]
}

#[test]
fn zero_is_not_non_zero() {
    assert!(NonZeroU32::new(0).is_none());
    assert!(NonZeroUsize::new(0).is_none());
    assert_eq!(7, NonZeroU32::new(7).unwrap().get());
    assert_eq!(8, NonZeroUsize::new(8).unwrap().get());
}

#[test]
fn channel_builder() {
    let channel = Channel::new(ChannelFrequency::mid());
    assert!(!channel.is_reliable());
    assert!(!channel.is_ordered());
    assert_eq!(0x1_0000, channel.frequency.0);
    let channel = channel
        .with_reliability(ReliableChannel {
            resend_interval: NonZeroU32::new(5).unwrap(),
            resend_attempts: 6,
            additional_capacity: 7,
        })
        .with_orderability(OrderedChannel {
            capacity: NonZeroUsize::new(8).unwrap(),
        });
    assert!(channel.is_reliable());
    assert!(channel.is_ordered());
    assert_eq!(6, channel.reliability.unwrap().resend_attempts);
    assert_eq!(8, channel.orderability.unwrap().capacity.get());
    assert!(ChannelFrequency::high() > ChannelFrequency::mid());
    assert!(ChannelFrequency::mid() > ChannelFrequency::low());
    assert!(ChannelFrequency::low() > ChannelFrequency::never());
}

#[test]
fn ids_of_the_registration_stage() {
    assert_eq!((1u32 << 31) - 1, NULL_CHANNEL_ID);
    assert_eq!((1u32 << 31) - 2, ACK_CHANNEL_ID_REGISTRATION_STAGE);
    assert_eq!((1u32 << 31) - 3, CHANNEL_MANAGEMENT_CHANNEL_ID_REGISTRATION_STAGE);
    assert!(ChannelId::<GlobalChannelId>::default().is_null());
    assert!(!global(0).is_null());
}

#[test]
fn state_converts_once_registration_is_complete() {
    let key = SlotMapKey { index: 0, generation: 0 };
    for (received_last_packet, last_packet_resend_key, converts) in [
        (false, None, false),
        (true, Some(key), false),
        (false, Some(key), false),
        (true, None, true),
    ] {
        let mut state = ConnectionState::Registration {
            received_last_packet,
            last_packet_resend_key,
        };
        let before = state;
        assert_eq!(converts, state.convert_to_transfer_if_possible());
        let after = if converts { ConnectionState::Transfer } else { before };
        assert_eq!(after, state);
    }
    let mut state = ConnectionState::Transfer;
    assert!(!state.convert_to_transfer_if_possible());
    assert_eq!(ConnectionState::Transfer, state);
}

#[test]
fn mapper_maps_both_ways() {
    let mut mapper: ConnectionIdMapperInner<true> = ConnectionIdMapperInner::default();
    assert!(mapper.insert(local(0), global(5), "five"));
    assert!(mapper.insert(local(1), global(2), "two"));
    assert_eq!(2, mapper.len());
    assert_eq!(Some(local(0)), mapper.local_id(ConnectionState::Transfer, global(5)));
    assert_eq!(Some(global(2)), mapper.global_id(ConnectionState::Transfer, local(1)));
    assert_eq!(None, mapper.local_id(ConnectionState::Transfer, global(3)));
    assert_eq!(None, mapper.local_id(ConnectionState::Transfer, global(100)));
    assert_eq!(None, mapper.global_id(ConnectionState::Transfer, local(2)));
}

#[test]
fn mapper_shifts_ids_that_are_occupied() {
    let mut mapper: ConnectionIdMapperInner<true> = ConnectionIdMapperInner::default();
    assert!(mapper.insert(local(0), global(0), ACK_CHANNEL_NAME));
    assert!(mapper.insert(local(1), global(1), CHANNEL_MANAGEMENT_CHANNEL_NAME));
    assert!(mapper.insert(local(0), global(2), "two"));
    assert_eq!(Some(local(1)), mapper.ack_channel_id());
    assert_eq!(Some(local(2)), mapper.channel_management_channel_id());
    assert_eq!(Some(local(0)), mapper.local_id(ConnectionState::Transfer, global(2)));
    assert_eq!(Some(local(1)), mapper.local_id(ConnectionState::Transfer, global(0)));
    assert_eq!(Some(local(2)), mapper.local_id(ConnectionState::Transfer, global(1)));
}

#[test]
fn mapper_moves_a_channel_that_repeats() {
    let mut mapper: ConnectionIdMapperInner<true> = ConnectionIdMapperInner::default();
    for id in 0..3 {
        assert!(mapper.insert(local(id), global(id), "name"));
    }
    assert!(mapper.insert(local(2), global(0), "name"));
    assert_eq!(3, mapper.len());
    assert_eq!(Some(global(1)), mapper.global_id(ConnectionState::Transfer, local(0)));
    assert_eq!(Some(global(2)), mapper.global_id(ConnectionState::Transfer, local(1)));
    assert_eq!(Some(global(0)), mapper.global_id(ConnectionState::Transfer, local(2)));
}

#[test]
fn mapper_lets_a_channel_that_repeats_go_to_the_end() {
    let mut mapper: ConnectionIdMapperInner<true> = ConnectionIdMapperInner::default();
    assert!(mapper.insert(local(0), global(5), "five"));
    assert!(mapper.insert(local(1), global(7), ACK_CHANNEL_NAME));
    assert!(mapper.insert(local(2), global(7), "seven"));
    assert_eq!(3, mapper.len());
    assert_eq!(Some(local(2)), mapper.local_id(ConnectionState::Transfer, global(7)));
    assert_eq!(Some(global(7)), mapper.global_id(ConnectionState::Transfer, local(2)));
    assert_eq!(None, mapper.global_id(ConnectionState::Transfer, local(1)));
    assert_eq!(Some(global(5)), mapper.global_id(ConnectionState::Transfer, local(0)));
    assert_eq!(Some(local(2)), mapper.ack_channel_id());
    assert_eq!(None, mapper.local_id(ConnectionState::Transfer, global(NULL_CHANNEL_ID)));
    assert!(!mapper.insert(local(4), global(9), "nine"));
    assert!(mapper.insert(local(3), global(9), "nine"));
}

#[test]
fn mapper_refuses_a_gap() {
    let mut mapper: ConnectionIdMapperInner<true> = ConnectionIdMapperInner::default();
    assert!(!mapper.insert(local(1), global(0), "name"));
    assert_eq!(0, mapper.len());
    assert_eq!(None, mapper.ack_channel_id());
    assert_eq!(None, mapper.channel_management_channel_id());
}

#[test]
fn mapper_knows_two_ids_during_registration() {
    let mapper: ConnectionIdMapperInner<true> = ConnectionIdMapperInner::default();
    for id in [
        ACK_CHANNEL_ID_REGISTRATION_STAGE,
        CHANNEL_MANAGEMENT_CHANNEL_ID_REGISTRATION_STAGE,
    ] {
        assert_eq!(Some(global(id)), mapper.global_id(registration(), local(id)));
        assert_eq!(Some(local(id)), mapper.local_id(registration(), global(id)));
    }
    assert_eq!(None, mapper.global_id(registration(), local(0)));
    assert_eq!(None, mapper.local_id(registration(), global(0)));
}

#[test]
fn orderer_hands_out_in_order() {
    let mut orderer = PacketOrderer::new(4);
    let mut out: Vec<u8> = vec![];
    for order in [2usize, 0, 3, 1] {
        assert_eq!(Ok(()), orderer.push(order, packet(order as u8)));
        let r: Result<(), ()> = orderer.retain(|p| {
            out.push(p[0]);
            Ok(())
        });
        assert_eq!(Ok(()), r);
    }
    assert_eq!(vec![0, 1, 2, 3], out);
}

#[test]
fn orderer_goes_round() {
    let mut orderer = PacketOrderer::new(3);
    let mut out: Vec<u8> = vec![];
    for order in [1usize, 0, 3, 2, 5, 4, 6, 8, 7] {
        assert_eq!(Ok(()), orderer.push(order, packet(order as u8)));
        let r: Result<(), ()> = orderer.retain(|p| {
            out.push(p[0]);
            Ok(())
        });
        assert_eq!(Ok(()), r);
    }
    assert_eq!(vec![0, 1, 2, 3, 4, 5, 6, 7, 8], out);
}

#[test]
fn orderer_refuses_what_is_too_far_ahead_or_behind() {
    let mut orderer = PacketOrderer::new(2);
    assert_eq!(Err(PacketOrdererError::CapacityReached), orderer.push(2, packet(2)));
    assert_eq!(Ok(()), orderer.push(0, packet(0)));
    let r: Result<(), ()> = orderer.retain(|_| Ok(()));
    assert_eq!(Ok(()), r);
    assert_eq!(Err(PacketOrdererError::CapacityReached), orderer.push(0, packet(0)));
    assert_eq!(Ok(()), orderer.push(2, packet(2)));
}

#[test]
fn orderer_replaces_a_packet_of_the_same_order() {
    let mut orderer = PacketOrderer::new(2);
    assert_eq!(Ok(()), orderer.push(1, packet(1)));
    assert_eq!(Ok(()), orderer.push(1, packet(9)));
    assert_eq!(Ok(()), orderer.push(0, packet(0)));
    let mut out: Vec<u8> = vec![];
    let r: Result<(), ()> = orderer.retain(|p| {
        out.push(p[0]);
        Ok(())
    });
    assert_eq!(Ok(()), r);
    assert_eq!(vec![0, 9], out);
}

#[test]
fn orderer_stops_where_the_function_fails() {
    let mut orderer = PacketOrderer::new(4);
    for order in 0..3usize {
        assert_eq!(Ok(()), orderer.push(order, packet(order as u8)));
    }
    let r = orderer.retain(|p| if p[0] == 1 { Err("no") } else { Ok(()) });
    assert_eq!(Err("no"), r);
    let mut out: Vec<u8> = vec![];
    let r: Result<(), ()> = orderer.retain(|p| {
        out.push(p[0]);
        Ok(())
    });
    assert_eq!(Ok(()), r);
    assert!(out.is_empty());
    assert_eq!(Ok(()), orderer.push(1, packet(7)));
    let r: Result<(), ()> = orderer.retain(|p| {
        out.push(p[0]);
        Ok(())
    });
    assert_eq!(Ok(()), r);
    assert_eq!(vec![7, 2], out);
}

#[test]
fn empty_orderer_hands_out_nothing() {
    let mut orderer = PacketOrderer::new(1);
    let r: Result<(), ()> = orderer.retain(|_| Err(()));
    assert_eq!(Ok(()), r);
    orderer.flatten(1);
    assert!(orderer.take_current().is_none());
}

fn resender(capacity: usize) -> PacketResender {
    let mut resender = PacketResender::default();
    *resender.mut_capacity() += capacity;
    resender
}

fn add(resender: &mut PacketResender, byte: u8, interval: u32, attempts: u32) -> SlotMapKey {
    resender
        .add(|_| {
            ReliableBufferedPacket::new(packet(byte), NonZeroU32::new(interval).unwrap(), attempts)
        })
        .unwrap()
}

#[test]
fn packet_is_sent_again_as_often_as_it_has_attempts() {
    let mut resender = resender(1);
    let key = add(&mut resender, 7, 10, 2);
    assert!(resender.update(9).is_empty());
    assert_eq!(vec![packet(7)], resender.update(1));
    assert!(resender.update(9).is_empty());
    assert!(resender.map().get(key).is_some());
    assert_eq!(vec![packet(7)], resender.update(5));
    assert!(resender.map().get(key).is_none());
    assert!(resender.update(100).is_empty());
}

#[test]
fn packet_without_attempts_is_not_sent_again() {
    let mut resender = resender(1);
    let key = add(&mut resender, 7, 10, 0);
    assert!(resender.update(5).is_empty());
    assert!(resender.map().get(key).is_some());
    assert!(resender.update(5).is_empty());
    assert!(resender.map().get(key).is_none());
}

#[test]
fn acknowledged_packet_is_not_sent_again() {
    let mut resender = resender(2);
    let a = add(&mut resender, 1, 10, 5);
    let _b = add(&mut resender, 2, 10, 5);
    assert_eq!(packet(1), resender.remove(a).unwrap().payload);
    assert!(resender.remove(a).is_none());
    assert_eq!(vec![packet(2)], resender.update(10));
}

#[test]
fn resender_is_full_at_its_capacity() {
    let mut resender = resender(1);
    let _ = add(&mut resender, 1, 10, 1);
    let r = resender.add(|_| {
        ReliableBufferedPacket::new(packet(2), NonZeroU32::new(1).unwrap(), 1)
    });
    assert_eq!(Err(PacketResenderError::CapacityReached), r);
    resender.map_mut().clear();
    assert_eq!(
        SlotMapKey { index: 0, generation: 1 },
        add(&mut resender, 3, 10, 1)
    );
}

#[test]
fn long_times_do_not_overflow() {
    let mut resender = resender(1);
    let _ = add(&mut resender, 1, u32::MAX, 2);
    assert!(resender.update(u32::MAX - 1).is_empty());
    assert_eq!(vec![packet(1)], resender.update(u32::MAX));
}

fn segment(segment_key: u32, segment: usize, segment_count: usize) -> PacketSegmentMetadata {
    PacketSegmentMetadata { segment_key, segment, segment_count }
}

#[test]
fn segment_metadata_round_trip() {
    let mut out = vec![];
    assert!(segment(1, 300, 301).encode(&mut out).is_ok());
    assert_eq!(vec![1, 0xac, 2, 0xac, 2], out);
    assert_eq!(Ok(segment(1, 300, 301)), PacketSegmentMetadata::decode(&mut out.as_slice()));
    for len in 0..out.len() {
        assert_eq!(Err(()), PacketSegmentMetadata::decode(&mut &out[..len]));
    }
}

#[test]
fn segment_metadata_that_does_not_fit_is_refused() {
    let mut out = vec![];
    assert_eq!(Err(()), segment(0, 0, 0).encode(&mut out));
    assert_eq!(Err(()), segment(0, 0x1_0000, 0x1_0000).encode(&mut out));
    assert_eq!(Err(()), segment(0, 0, 0x1_0001).encode(&mut out));
    assert!(out.is_empty());
    assert_eq!(Ok(()), segment(u32::MAX, 0xffff, 0x1_0000).encode(&mut out));
    assert_eq!(11, out.len());
}

#[test]
fn joiner_joins_in_order_however_segments_arrive() {
    let mut joiner = PacketSegmentJoiner::default();
    assert_eq!(Ok(None), joiner.add(segment(5, 2, 3), packet(2), true));
    assert_eq!(Ok(None), joiner.add(segment(6, 0, 2), packet(9), true));
    assert_eq!(Ok(None), joiner.add(segment(5, 0, 3), packet(0), true));
    assert_eq!(
        Ok(Some(vec![packet(0), packet(1), packet(2)])),
        joiner.add(segment(5, 1, 3), packet(1), true)
    );
    assert_eq!(
        Ok(Some(vec![packet(9), packet(8)])),
        joiner.add(segment(6, 1, 2), packet(8), true)
    );
    assert_eq!(None, joiner.pop_first());
}

#[test]
fn joiner_refuses_what_does_not_fit() {
    let mut joiner = PacketSegmentJoiner::default();
    assert_eq!(
        Err(PacketSegmentJoinerError::CapacityReached),
        joiner.add(segment(1, 0, 2), packet(0), false)
    );
    assert_eq!(Ok(None), joiner.add(segment(1, 0, 2), packet(0), true));
    assert_eq!(
        Err(PacketSegmentJoinerError::SegmentRepeated),
        joiner.add(segment(1, 0, 2), packet(0), true)
    );
    assert_eq!(
        Err(PacketSegmentJoinerError::SegmentMetadataMalformed),
        joiner.add(segment(1, 1, 3), packet(0), true)
    );
    assert_eq!(
        Err(PacketSegmentJoinerError::SegmentMetadataMalformed),
        joiner.add(segment(1, 2, 2), packet(0), true)
    );
    assert_eq!(Some(()), joiner.pop_first());
    assert_eq!(None, joiner.pop_first());
}

#[test]
fn channel_data_is_kept_by_state_and_id() {
    let mut data: ChannelData<u32, UniqueChannelId<true>> = ChannelData::default();
    let ack = local(ACK_CHANNEL_ID_REGISTRATION_STAGE);
    let management = local(CHANNEL_MANAGEMENT_CHANNEL_ID_REGISTRATION_STAGE);
    data.set(registration(), ack, 1);
    data.set(registration(), management, 2);
    data.set(ConnectionState::Transfer, local(2), 3);
    *data.get_mut(ConnectionState::Transfer, local(0)) += 4;
    assert_eq!(&1, data.get(registration(), ack));
    assert_eq!(&2, data.get(registration(), management));
    assert_eq!(&4, data.get(ConnectionState::Transfer, local(0)));
    assert_eq!(&0, data.get(ConnectionState::Transfer, local(1)));
    assert_eq!(&3, data.get(ConnectionState::Transfer, local(2)));
    data.insert(local(1), 9);
    data.remove(local(0));
    assert_eq!(&9, data.get(ConnectionState::Transfer, local(0)));
    assert_eq!(&3, data.get(ConnectionState::Transfer, local(2)));
}

#[test]
fn global_channel_data_is_kept_by_id() {
    let mut data: GlobalChannelData<&str> = GlobalChannelData::default();
    assert_eq!(None, data.get(global(0)));
    assert_eq!(None, data.insert(global(3), "a"));
    assert_eq!(None, data.get(global(2)));
    assert_eq!(Some(&"a"), data.get(global(3)));
    *data.get_mut(global(3)).unwrap() = "b";
    assert!(data.get_mut(global(4)).is_none());
    assert_eq!(Some("b"), data.insert(global(3), "c"));
}

#[test]
fn swap_buffer_exchanges_messages() {
    let mut buffer = ConnectionChannelMessageSwapBuffer::default();
    buffer.push(packet(1));
    buffer.push(packet(2));
    let mut swap: Vec<Vec<u8>> = vec![];
    buffer.take(&mut swap);
    assert_eq!(vec![packet(1), packet(2)], swap);
    swap.clear();
    buffer.take(&mut swap);
    assert!(swap.is_empty());
}

#[test]
fn queue_is_emptied_in_order_up_to_the_bunch() {
    let mut queue: ManyToSingleChannel<u8> = ManyToSingleChannel::new();
    assert!(queue.is_empty());
    queue.push(1);
    queue.push_many(vec![2, 3, 4]);
    let mut bunch = vec![0];
    queue.take_bunch(&mut bunch, 3);
    assert_eq!(vec![0, 1, 2], bunch);
    queue.take_bunch(&mut bunch, 3);
    assert_eq!(vec![0, 1, 2], bunch);
    bunch.clear();
    queue.take_bunch(&mut bunch, 16);
    assert_eq!(vec![3, 4], bunch);
    assert!(queue.is_empty());
}
