use theta::net::acknowledge::ConnectionAcknowledgeBuffer;
use theta::net::channel::{Channel, ChannelFrequency, OrderedChannel, ReliableChannel};
use theta::net::channel_data::{
    ChannelData, ConnectionChannelMessageSwapBuffer, GlobalChannelData,
};
use theta::net::connection::{handle_message, update_connection, Connection};
use theta::net::id::{
    ChannelId, ConnectionState, GlobalChannelId, UniqueChannelId,
    ACK_CHANNEL_ID_REGISTRATION_STAGE, CHANNEL_MANAGEMENT_CHANNEL_ID_REGISTRATION_STAGE,
};
use theta::net::initialize::{initialize_connection, sorted_by_frequency};
use theta::net::ordering::{PacketOrderer, PacketOrdererError};
use theta::net::packet::{
    ConnectionError, PrimaryPacketMetadata, MAX_NON_SEGMENTED_PACKET_METADATA_LEN,
    MAX_NON_SEGMENTED_PAYLOAD_LEN, MAX_PACKET_LEN, MAX_PACKET_METADATA_LEN, SEGMENT_LEN,
};
use theta::net::provider::{
    ack_channel, channel_management_channel, ChannelProvider, DefaultChannelProvider,
};
use theta::net::resend::{PacketResender, PacketResenderError};
use theta::net::segment::{PacketSegmentJoinerError, PacketSegmentMetadata};
use theta::net::send::{send_packet, ConnectionChannel};
use theta::net::server::{PeerError, PeerEvent, PeerReport, Server};
use theta::proto::decode::Decode;
use theta::proto::encode::Encode;
use theta::proto::{StrWithMaxLen, VarInt};
use theta::util::non_zero::{NonZeroU32, NonZeroUsize};
use theta::util::slot_map::SlotMapKey;

type Buffers = GlobalChannelData<ConnectionChannelMessageSwapBuffer>;

struct Channels {
    provider: DefaultChannelProvider,
    plain: ChannelId<GlobalChannelId>,
    reliable: ChannelId<GlobalChannelId>,
    ordered: ChannelId<GlobalChannelId>,
}

fn reliability(resend_interval: u32, resend_attempts: u32) -> ReliableChannel {
    ReliableChannel {
        resend_interval: NonZeroU32::new(resend_interval).unwrap(),
        resend_attempts,
        additional_capacity: 10,
    }
}

fn channels() -> Channels {
    let mut provider = DefaultChannelProvider::new();
    let plain = provider.add("plain".to_string(), Channel::new(ChannelFrequency::low()));
    let reliable = provider.add(
        "reliable".to_string(),
        Channel::new(ChannelFrequency::mid()).with_reliability(reliability(50, 3)),
    );
    let ordered = provider.add(
        "ordered".to_string(),
        Channel::new(ChannelFrequency::mid())
            .with_reliability(reliability(50, 3))
            .with_orderability(OrderedChannel {
                capacity: NonZeroUsize::new(4).unwrap(),
            }),
    );
    Channels { provider, plain, reliable, ordered }
}

struct Side {
    connection: Connection,
    buffers: Buffers,
    outbox: Vec<Vec<u8>>,
}

impl Side {
    fn new(channels: &Channels) -> Side {
        let mut side = Side {
            connection: Connection::new(0),
            buffers: Buffers::default(),
            outbox: vec![],
        };
        let r = initialize_connection(
            &mut side.connection,
            &mut side.buffers,
            &mut side.outbox,
            &channels.provider,
        );
        assert_eq!(Ok(()), r);
        side
    }

    fn receive(&mut self, channels: &Channels, packet: &[u8]) -> Result<(), ConnectionError> {
        handle_message(
            packet,
            &mut self.connection,
            &channels.provider,
            &mut self.buffers,
            &mut self.outbox,
            1,
        )
    }

    fn update(&mut self, delta: u32) {
        assert_eq!(Ok(()), update_connection(delta, &mut self.connection, &mut self.outbox));
    }

    fn send(&mut self, channels: &Channels, id: ChannelId<GlobalChannelId>, payload: &[u8]) {
        let local_id =
            self.connection.id_mapper.local_inner.local_id(self.connection.state, id).unwrap();
        let channel =
            ConnectionChannel::new(self.connection.state, local_id, id, &channels.provider)
                .unwrap();
        let r = send_packet(
            channel,
            payload,
            self.connection.state,
            &mut self.connection.resender,
            &mut self.connection.segment_keys_counter,
            &mut self.connection.orders,
            &mut self.outbox,
            &mut vec![],
        );
        assert_eq!(Ok(()), r);
    }

    fn take(&mut self, id: ChannelId<GlobalChannelId>) -> Vec<Vec<u8>> {
        let mut messages = vec![];
        self.buffers.get_mut(id).unwrap().take(&mut messages);
        messages
    }

    fn sent(&mut self) -> Vec<Vec<u8>> {
        std::mem::take(&mut self.outbox)
    }
}

/// Two sides that have registered their channels with each other.
fn connected(channels: &Channels) -> (Side, Side) {
    let mut a = Side::new(channels);
    let mut b = Side::new(channels);
    for _ in 0..4 {
        let packets = a.sent();
        for packet in packets {
            let _ = b.receive(channels, &packet);
        }
        b.update(1);
        let packets = b.sent();
        for packet in packets {
            let _ = a.receive(channels, &packet);
        }
        a.update(1);
    }
    assert_eq!(ConnectionState::Transfer, a.connection.state);
    assert_eq!(ConnectionState::Transfer, b.connection.state);
    a.sent();
    b.sent();
    (a, b)
}

fn varint(n: u32) -> Vec<u8> {
    let mut out = vec![];
    assert!(VarInt(n).encode(&mut out).is_ok());
    out
}

#[test]
fn lengths_of_packets() {
    assert_eq!(2000, MAX_PACKET_LEN);
    assert_eq!(20, MAX_NON_SEGMENTED_PACKET_METADATA_LEN);
    assert_eq!(31, MAX_PACKET_METADATA_LEN);
    assert_eq!(1980, MAX_NON_SEGMENTED_PAYLOAD_LEN);
    assert_eq!(1969, SEGMENT_LEN);
}

#[test]
fn primary_metadata_round_trip() {
    let metadata = PrimaryPacketMetadata::<false> { channel_id: ChannelId::new(150), segment: true };
    let mut out = vec![];
    assert!(metadata.encode(&mut out).is_ok());
    assert_eq!(varint(301), out);
    let read = PrimaryPacketMetadata::<false>::decode(&mut out.as_slice()).unwrap();
    assert_eq!(150, read.channel_id.0);
    assert!(read.segment);
    let too_large = PrimaryPacketMetadata::<true> {
        channel_id: ChannelId::new(1 << 31),
        segment: false,
    };
    assert_eq!(Err(()), too_large.encode(&mut out));
    assert!(PrimaryPacketMetadata::<false>::decode(&mut [].as_slice()).is_err());
}

#[test]
fn provider_finds_channels_by_name_and_id() {
    let c = channels();
    assert_eq!(Some(ChannelId::new(0)), c.provider.by_name("__ack"));
    assert_eq!(Some(ChannelId::new(1)), c.provider.by_name("__channel"));
    assert_eq!(Some(c.ordered), c.provider.by_name("ordered"));
    assert_eq!(None, c.provider.by_name("other"));
    assert!(c.provider.by_id(c.ordered).unwrap().is_ordered());
    assert!(c.provider.by_id(ChannelId::new(5)).is_none());
    let mut names: Vec<&str> = c.provider.all().into_iter().map(|(name, _)| name).collect();
    names.sort();
    assert_eq!(vec!["__ack", "__channel", "ordered", "plain", "reliable"], names);
}

#[test]
fn provider_gives_a_name_to_the_last_channel_that_gets_it() {
    let mut c = channels();
    let id = c.provider.add("plain".to_string(), Channel::new(ChannelFrequency::high()));
    assert_eq!(ChannelId::new(5), id);
    assert_eq!(Some(id), c.provider.by_name("plain"));
    assert_eq!(0x1000, c.provider.by_id(c.plain).unwrap().frequency.0);
    assert_eq!(5, c.provider.all().len());
}

#[test]
fn channels_of_the_protocol() {
    let ack = ack_channel();
    assert!(!ack.is_ordered());
    assert_eq!(750, ack.reliability.unwrap().resend_interval.get());
    assert_eq!(u32::MAX, ack.reliability.unwrap().resend_attempts);
    assert_eq!(300, ack.reliability.unwrap().additional_capacity);
    assert_eq!(ChannelFrequency::high(), ack.frequency);
    let management = channel_management_channel();
    assert_eq!(100, management.reliability.unwrap().resend_interval.get());
    assert_eq!(1000, management.orderability.unwrap().capacity.get());
    assert_eq!(ChannelFrequency::never(), management.frequency);
}

#[test]
fn channels_that_are_used_more_often_come_first() {
    let c = channels();
    let sorted = sorted_by_frequency(c.provider.all(), &c.provider);
    assert_eq!("__ack", sorted[0].0);
    let mut middle = vec![sorted[1].0, sorted[2].0];
    middle.sort();
    assert_eq!(vec!["ordered", "reliable"], middle);
    assert_eq!("plain", sorted[3].0);
    assert_eq!("__channel", sorted[4].0);
}

#[test]
fn channels_that_are_used_equally_often_keep_their_order() {
    let mut c = channels();
    for name in ["a", "b", "c", "d"] {
        c.provider.add(name.to_string(), Channel::new(ChannelFrequency::low()));
    }
    let ties = |list: Vec<(&str, ChannelId<GlobalChannelId>)>| -> Vec<String> {
        list.iter()
            .filter(|(_, id)| c.provider.by_id(*id).unwrap().frequency.0 == 0x1000)
            .map(|(name, _)| name.to_string())
            .collect()
    };
    let mut all = c.provider.all();
    for _ in 0..2 {
        let sorted = sorted_by_frequency(all.clone(), &c.provider);
        assert_eq!(5, ties(all.clone()).len());
        assert_eq!(ties(all.clone()), ties(sorted));
        all.reverse();
    }
}

#[test]
fn channels_are_learnt_however_they_are_told() {
    let c = channels();
    let packets = Side::new(&c).sent();
    for arrivals in [[5, 4, 3, 2, 1, 0], [2, 0, 5, 1, 4, 3]] {
        let mut b = Side::new(&c);
        for i in arrivals {
            assert!(matches!(
                b.connection.state,
                ConnectionState::Registration { received_last_packet: false, .. }
            ));
            assert_eq!(Ok(()), b.receive(&c, &packets[i]));
        }
        assert!(matches!(
            b.connection.state,
            ConnectionState::Registration { received_last_packet: true, .. }
        ));
        let mut sender = Side::new(&c);
        assert_eq!(packets, sender.sent());
        for i in 0..5 {
            assert_eq!(
                sender.connection.id_mapper.local_inner.global_id(
                    ConnectionState::Transfer,
                    ChannelId::new(i),
                ),
                b.connection.id_mapper.not_local_inner.global_id(
                    ConnectionState::Transfer,
                    ChannelId::new(i),
                )
            );
        }
    }
}

#[test]
fn initialization_tells_every_channel_and_the_end() {
    let c = channels();
    let mut side = Side::new(&c);
    let packets = side.sent();
    assert_eq!(6, packets.len());
    for (i, packet) in packets.iter().enumerate() {
        let mut rest = packet.as_slice();
        let primary = PrimaryPacketMetadata::<false>::decode(&mut rest).unwrap();
        assert_eq!(CHANNEL_MANAGEMENT_CHANNEL_ID_REGISTRATION_STAGE, primary.channel_id.0);
        assert!(!primary.segment);
        assert_eq!(Ok(VarInt(i as u32)), VarInt::<u32>::decode(&mut rest));
        let key = SlotMapKey { index: i as u32, generation: 0 };
        assert_eq!(Ok(key), SlotMapKey::decode(&mut rest));
        let name = StrWithMaxLen::<500>::decode(&mut rest).unwrap().0;
        if i < 5 {
            assert_eq!(Ok(VarInt(i as u32)), VarInt::<u32>::decode(&mut rest));
            let id = c.provider.by_name(name).unwrap();
            let local = side.connection.id_mapper.local_inner.local_id(
                ConnectionState::Transfer,
                id,
            );
            assert_eq!(Some(ChannelId::new(i as u32)), local);
        } else {
            assert_eq!("", name);
        }
        assert!(rest.is_empty());
    }
    assert_eq!(
        ConnectionState::Registration {
            received_last_packet: false,
            last_packet_resend_key: Some(SlotMapKey { index: 5, generation: 0 }),
        },
        side.connection.state
    );
}

#[test]
fn initialization_fails_where_a_name_is_too_long() {
    let mut c = channels();
    c.provider.add("n".repeat(501), Channel::new(ChannelFrequency::high()));
    let mut connection = Connection::new(0);
    let r = initialize_connection(
        &mut connection,
        &mut Buffers::default(),
        &mut vec![],
        &c.provider,
    );
    assert_eq!(Err(ConnectionError::EncodeError), r);
}

#[test]
fn initialization_fails_where_the_last_packet_cannot_be_kept() {
    let mut c = channels();
    c.provider = DefaultChannelProvider::new();
    for i in 0..620 {
        c.provider.add(format!("channel {}", i), Channel::new(ChannelFrequency::low()));
    }
    let mut connection = Connection::new(0);
    let r = initialize_connection(
        &mut connection,
        &mut Buffers::default(),
        &mut vec![],
        &c.provider,
    );
    assert_eq!(
        Err(ConnectionError::PacketResenderError(PacketResenderError::CapacityReached)),
        r
    );
}

#[test]
fn message_arrives() {
    let c = channels();
    let (mut a, mut b) = connected(&c);
    a.send(&c, c.plain, b"hello");
    let packets = a.sent();
    assert_eq!(1, packets.len());
    assert_eq!(vec![3 << 1, b'h', b'e', b'l', b'l', b'o'], packets[0]);
    assert_eq!(Ok(()), b.receive(&c, &packets[0]));
    assert_eq!(1, b.connection.last_time_received_packet);
    assert_eq!(vec![b"hello".to_vec()], b.take(c.plain));
}

#[test]
fn reliable_packet_is_handled_once_and_acknowledged() {
    let c = channels();
    let (mut a, mut b) = connected(&c);
    a.send(&c, c.reliable, b"hello");
    let packets = a.sent();
    assert_eq!(Ok(()), b.receive(&c, &packets[0]));
    assert_eq!(
        Err(ConnectionError::PacketDuplicateDetected),
        b.receive(&c, &packets[0])
    );
    assert_eq!(vec![b"hello".to_vec()], b.take(c.reliable));
    a.update(50);
    assert!(a.sent().contains(&packets[0]));
    b.update(1);
    for packet in b.sent() {
        assert_eq!(Ok(()), a.receive(&c, &packet));
    }
    a.update(50);
    assert!(!a.sent().contains(&packets[0]));
}

#[test]
fn ordered_messages_arrive_in_order() {
    let c = channels();
    let (mut a, mut b) = connected(&c);
    for byte in 0..4u8 {
        a.send(&c, c.ordered, &[byte]);
    }
    let packets = a.sent();
    for i in [3, 1, 0, 2] {
        assert_eq!(Ok(()), b.receive(&c, &packets[i]));
    }
    assert_eq!(vec![vec![0], vec![1], vec![2], vec![3]], b.take(c.ordered));
}

#[test]
fn ordered_message_that_is_too_far_ahead_is_refused() {
    let c = channels();
    let (mut a, mut b) = connected(&c);
    for byte in 0..6u8 {
        a.send(&c, c.ordered, &[byte]);
    }
    let packets = a.sent();
    assert_eq!(
        Err(ConnectionError::PacketOrdererError(PacketOrdererError::CapacityReached)),
        b.receive(&c, &packets[4])
    );
    assert_eq!(Ok(()), b.receive(&c, &packets[0]));
    assert_eq!(Ok(()), b.receive(&c, &packets[1]));
    assert_eq!(Ok(()), b.receive(&c, &packets[5]));
    assert_eq!(vec![vec![0], vec![1]], b.take(c.ordered));
}

#[test]
fn long_message_arrives_however_its_segments_do() {
    let c = channels();
    for id in [c.plain, c.reliable, c.ordered] {
        let (mut a, mut b) = connected(&c);
        let message: Vec<u8> = (0..5000u32).map(|i| (i % 251) as u8).collect();
        a.send(&c, id, &message);
        let packets = a.sent();
        assert_eq!(3, packets.len());
        for packet in &packets {
            assert!(packet.len() <= MAX_PACKET_LEN);
        }
        for i in [2, 0, 1] {
            assert!(b.take(id).is_empty());
            assert_eq!(Ok(()), b.receive(&c, &packets[i]));
        }
        assert_eq!(vec![message], b.take(id));
    }
}

#[test]
fn segment_that_repeats_is_refused() {
    let c = channels();
    let (mut a, mut b) = connected(&c);
    a.send(&c, c.plain, &[7; 3000]);
    let packets = a.sent();
    assert_eq!(2, packets.len());
    assert_eq!(Ok(()), b.receive(&c, &packets[1]));
    assert_eq!(
        Err(ConnectionError::PacketSegmentJoinerError(PacketSegmentJoinerError::SegmentRepeated)),
        b.receive(&c, &packets[1])
    );
    assert_eq!(Ok(()), b.receive(&c, &packets[0]));
    assert_eq!(vec![vec![7; 3000]], b.take(c.plain));
}

#[test]
fn payload_is_cut_where_it_does_not_fit() {
    let c = channels();
    let (mut a, _) = connected(&c);
    a.send(&c, c.plain, &[1; 1980]);
    assert_eq!(vec![1 + 1980], a.sent().iter().map(|p| p.len()).collect::<Vec<_>>());
    a.send(&c, c.plain, &[1; 1981]);
    let packets = a.sent();
    assert_eq!(2, packets.len());
    let mut rest = packets[1].as_slice();
    assert!(PrimaryPacketMetadata::<false>::decode(&mut rest).unwrap().segment);
    assert_eq!(
        Ok(PacketSegmentMetadata { segment_key: 0, segment: 1, segment_count: 2 }),
        PacketSegmentMetadata::decode(&mut rest)
    );
    assert_eq!([1; 12].as_slice(), rest);
    assert_eq!(1, a.connection.segment_keys_counter);
}

#[test]
fn payload_with_too_many_segments_is_refused() {
    let c = channels();
    let (mut a, _) = connected(&c);
    let channel = ConnectionChannel {
        local_id: ChannelId::new(3),
        channel: *c.provider.by_id(c.plain).unwrap(),
    };
    let payload = vec![0; 0x1_0000 * SEGMENT_LEN + 1];
    let r = send_packet(
        channel,
        &payload,
        a.connection.state,
        &mut a.connection.resender,
        &mut a.connection.segment_keys_counter,
        &mut a.connection.orders,
        &mut a.outbox,
        &mut vec![],
    );
    assert_eq!(Err(ConnectionError::EncodeError), r);
    assert!(a.outbox.is_empty());
}

#[test]
fn malformed_packets_are_refused() {
    let c = channels();
    let (_, mut b) = connected(&c);
    assert_eq!(Err(ConnectionError::DecodeError), b.receive(&c, &[]));
    assert_eq!(Err(ConnectionError::DecodeError), b.receive(&c, &[0x80]));
    assert_eq!(Err(ConnectionError::UnknownChannel), b.receive(&c, &[50 << 1]));
    let reliable = b
        .connection
        .id_mapper
        .local_inner
        .local_id(ConnectionState::Transfer, c.reliable)
        .unwrap()
        .0 as u8;
    assert_eq!(Err(ConnectionError::DecodeError), b.receive(&c, &[reliable << 1, 1]));
    assert_eq!(Err(ConnectionError::DecodeError), b.receive(&c, &[3 << 1 | 1, 0]));
    assert_eq!(
        Err(ConnectionError::PacketSegmentJoinerError(
            PacketSegmentJoinerError::SegmentMetadataMalformed
        )),
        b.receive(&c, &[3 << 1 | 1, 0, 5, 1, 9])
    );
}

#[test]
fn channels_cannot_be_registered_any_longer() {
    let c = channels();
    let (_, mut b) = connected(&c);
    let packet = [4 << 1, 0, 9, 9, 0];
    assert_eq!(Err(ConnectionError::RegistrationStageIsOver), b.receive(&c, &packet));
}

fn management_packet(order: u32, payload: &[u8]) -> Vec<u8> {
    let mut packet = varint(CHANNEL_MANAGEMENT_CHANNEL_ID_REGISTRATION_STAGE << 1);
    packet.extend(varint(order));
    packet.extend(varint(order));
    packet.extend(varint(0));
    packet.extend_from_slice(payload);
    packet
}

fn naming(name: &str, id: u32) -> Vec<u8> {
    let mut payload = vec![];
    assert!(StrWithMaxLen::<500>::new(name).encode(&mut payload).is_ok());
    payload.extend(varint(id));
    payload
}

#[test]
fn registration_packets_are_checked() {
    let c = channels();
    let mut b = Side::new(&c);
    assert_eq!(
        Err(ConnectionError::UnknownChannel),
        b.receive(&c, &management_packet(0, &naming("other", 0)))
    );
    let mut b = Side::new(&c);
    assert_eq!(
        Err(ConnectionError::ChannelRegistrationStageInvalidValue),
        b.receive(&c, &management_packet(0, &naming("plain", 1)))
    );
    let mut b = Side::new(&c);
    assert_eq!(Err(ConnectionError::DecodeError), b.receive(&c, &management_packet(0, &[5])));
    assert_eq!(Err(ConnectionError::UnknownChannel), b.receive(&c, &[0]));
}

#[test]
fn other_side_decides_its_ids() {
    let c = channels();
    let mut b = Side::new(&c);
    assert_eq!(Ok(()), b.receive(&c, &management_packet(0, &naming("plain", 0))));
    assert_eq!(Ok(()), b.receive(&c, &management_packet(2, &naming("__ack", 0))));
    assert_eq!(Ok(()), b.receive(&c, &management_packet(1, &naming("ordered", 0))));
    let remote = &b.connection.id_mapper.not_local_inner;
    let ids: Vec<_> = (0..3)
        .map(|i| remote.global_id(ConnectionState::Transfer, ChannelId::new(i)).unwrap())
        .collect();
    assert_eq!(vec![ChannelId::new(0), c.ordered, c.plain], ids);
    assert_eq!(Some(ChannelId::new(0)), remote.ack_channel_id());
}

#[test]
fn packet_of_the_next_stage_ends_registration() {
    let c = channels();
    let mut b = Side::new(&c);
    assert_eq!(Ok(()), b.receive(&c, &management_packet(0, &naming("plain", 0))));
    assert_eq!(Err(ConnectionError::UnknownChannel), b.receive(&c, &[0, 1]));
    assert_eq!(Ok(()), b.receive(&c, &management_packet(1, &[0])));
    assert!(matches!(
        b.connection.state,
        ConnectionState::Registration { received_last_packet: true, .. }
    ));
    assert_eq!(Ok(()), b.receive(&c, &[0, 1]));
    assert_eq!(ConnectionState::Transfer, b.connection.state);
    assert_eq!(vec![vec![1]], b.take(c.plain));
}

#[test]
fn acknowledgement_of_the_last_packet_ends_registration() {
    let c = channels();
    let mut b = Side::new(&c);
    assert_eq!(Ok(()), b.receive(&c, &management_packet(0, &[0])));
    let mut packet = varint(ACK_CHANNEL_ID_REGISTRATION_STAGE << 1);
    packet.extend([9, 0, 4, 0]);
    assert_eq!(Ok(()), b.receive(&c, &packet));
    assert!(matches!(b.connection.state, ConnectionState::Registration { .. }));
    let mut packet = varint(ACK_CHANNEL_ID_REGISTRATION_STAGE << 1);
    packet.extend([10, 0, 5, 0]);
    assert_eq!(Ok(()), b.receive(&c, &packet));
    assert_eq!(ConnectionState::Transfer, b.connection.state);
    b.update(1000);
    assert_eq!(1, b.sent().len() - 6);
}

/// A connection that has told nothing, whose peer has one channel under the id 0.
fn with_remote_channel(
    channel: Channel,
) -> (DefaultChannelProvider, ChannelId<GlobalChannelId>, Connection, Buffers) {
    let mut provider = DefaultChannelProvider::new();
    let id = provider.add("x".to_string(), channel);
    let mut connection = Connection::new(0);
    assert!(connection.id_mapper.not_local_inner.insert(ChannelId::new(0), id, "x"));
    let mut buffers = Buffers::default();
    buffers.insert(id, ConnectionChannelMessageSwapBuffer::default());
    (provider, id, connection, buffers)
}

fn messages(buffers: &mut Buffers, id: ChannelId<GlobalChannelId>) -> Vec<Vec<u8>> {
    let mut messages = vec![];
    buffers.get_mut(id).unwrap().take(&mut messages);
    messages
}

#[test]
fn channel_is_unknown_during_registration() {
    let (provider, x, mut c, mut buffers) =
        with_remote_channel(Channel::new(ChannelFrequency::mid()));
    let mut outbox = vec![];
    let r = handle_message(&[0x00, 0x41], &mut c, &provider, &mut buffers, &mut outbox, 1);
    assert_eq!(Err(ConnectionError::UnknownChannel), r);
    assert_eq!(ConnectionState::default(), c.state);
    assert!(messages(&mut buffers, x).is_empty());
    assert!(outbox.is_empty());
}

#[test]
fn unreliable_packet_of_the_next_stage_needs_no_acknowledgement_channel() {
    let (provider, x, mut c, mut buffers) =
        with_remote_channel(Channel::new(ChannelFrequency::mid()));
    c.state = ConnectionState::Registration {
        received_last_packet: true,
        last_packet_resend_key: Some(SlotMapKey { index: 0, generation: 0 }),
    };
    let mut outbox = vec![];
    let r = handle_message(&[0x00, 0x41], &mut c, &provider, &mut buffers, &mut outbox, 1);
    assert_eq!(Ok(()), r);
    assert_eq!(ConnectionState::Transfer, c.state);
    assert_eq!(vec![vec![0x41]], messages(&mut buffers, x));
    assert!(c.resender.map().is_empty());
    assert!(outbox.is_empty());
}

#[test]
fn refused_packet_leaves_the_channel_usable() {
    let (provider, o, mut c, mut buffers) = with_remote_channel(
        Channel::new(ChannelFrequency::mid()).with_orderability(OrderedChannel {
            capacity: NonZeroUsize::new(1).unwrap(),
        }),
    );
    c.state = ConnectionState::Transfer;
    c.orderers.set(ConnectionState::Transfer, ChannelId::new(0), Some(PacketOrderer::new(1)));
    let mut outbox = vec![];
    let r = handle_message(&[0, 5, 0x41], &mut c, &provider, &mut buffers, &mut outbox, 1);
    assert_eq!(
        Err(ConnectionError::PacketOrdererError(PacketOrdererError::CapacityReached)),
        r
    );
    let r = handle_message(&[0, 0, 0x42], &mut c, &provider, &mut buffers, &mut outbox, 1);
    assert_eq!(Ok(()), r);
    assert_eq!(vec![vec![0x42]], messages(&mut buffers, o));
}

#[test]
fn channel_that_is_registered_again_starts_anew() {
    let c = channels();
    let mut b = Side::new(&c);
    assert_eq!(Ok(()), b.receive(&c, &management_packet(0, &naming("plain", 0))));
    assert_eq!(Ok(()), b.receive(&c, &management_packet(1, &naming("ordered", 1))));
    assert_eq!(Ok(()), b.receive(&c, &management_packet(2, &naming("ordered", 2))));
    assert_eq!(Ok(()), b.receive(&c, &management_packet(3, &[0])));
    assert_eq!(Err(ConnectionError::UnknownChannel), b.receive(&c, &[1 << 1, 0, 0, 0, 9]));
    assert_eq!(Ok(()), b.receive(&c, &[2 << 1, 0, 0, 0, 9]));
    assert_eq!(vec![vec![9]], b.take(c.ordered));
}

#[test]
fn acknowledgements_hold_every_key_once() {
    let mut buffer = ConnectionAcknowledgeBuffer::default();
    let mut resender = PacketResender::default();
    *resender.mut_capacity() = 100;
    let mut counter = 0;
    let mut orders: ChannelData<u32, UniqueChannelId<true>> = ChannelData::default();
    let mut outbox = vec![];
    let keys: Vec<SlotMapKey> = (0..2000u32)
        .map(|i| SlotMapKey { index: i * i, generation: i % 300 })
        .collect();
    for key in &keys {
        let r = buffer.acknowledge(
            *key,
            ConnectionState::Transfer,
            ChannelId::new(0),
            &mut resender,
            &mut counter,
            &mut orders,
            &mut outbox,
        );
        assert_eq!(Ok(()), r);
    }
    let before = outbox.len();
    assert!(before > 1);
    let r = buffer.flush(
        ConnectionState::Transfer,
        ChannelId::new(0),
        &mut resender,
        &mut counter,
        &mut orders,
        &mut outbox,
    );
    assert_eq!(Ok(()), r);
    assert_eq!(before + 1, outbox.len());
    let mut read = vec![];
    for packet in &outbox {
        assert!(packet.len() <= MAX_PACKET_LEN);
        let mut rest = packet.as_slice();
        assert!(PrimaryPacketMetadata::<false>::decode(&mut rest).is_ok());
        assert!(SlotMapKey::decode(&mut rest).is_ok());
        while !rest.is_empty() {
            read.push(SlotMapKey::decode(&mut rest).unwrap());
        }
    }
    assert_eq!(keys, read);
}

#[test]
fn connection_is_kept_alive() {
    let c = channels();
    let (mut a, _) = connected(&c);
    a.update(1);
    let packets = a.sent();
    assert_eq!(1, packets.len());
    let primary = PrimaryPacketMetadata::<false>::decode(&mut packets[0].as_slice()).unwrap();
    assert_eq!(0, primary.channel_id.0);
}

#[test]
fn acknowledgements_are_sent_when_there_is_no_more_room() {
    let mut buffer = ConnectionAcknowledgeBuffer::default();
    let mut resender = PacketResender::default();
    *resender.mut_capacity() = 1;
    let mut counter = 0;
    let mut orders: ChannelData<u32, UniqueChannelId<true>> = ChannelData::default();
    let mut outbox = vec![];
    for index in 0..990 {
        let r = buffer.acknowledge(
            SlotMapKey { index: index % 100, generation: 0 },
            ConnectionState::Transfer,
            ChannelId::new(0),
            &mut resender,
            &mut counter,
            &mut orders,
            &mut outbox,
        );
        assert_eq!(Ok(()), r);
    }
    assert!(outbox.is_empty());
    let last = SlotMapKey { index: 7, generation: 1 };
    let r = buffer.acknowledge(
        last,
        ConnectionState::Transfer,
        ChannelId::new(0),
        &mut resender,
        &mut counter,
        &mut orders,
        &mut outbox,
    );
    assert_eq!(Ok(()), r);
    assert_eq!(1, outbox.len());
    assert_eq!(1 + 2 + 1980, outbox[0].len());
    let r = buffer.flush(
        ConnectionState::Transfer,
        ChannelId::new(0),
        &mut resender,
        &mut counter,
        &mut orders,
        &mut outbox,
    );
    assert_eq!(
        Err(ConnectionError::PacketResenderError(PacketResenderError::CapacityReached)),
        r
    );
    *resender.mut_capacity() = 2;
    let r = buffer.flush(
        ConnectionState::Registration { received_last_packet: false, last_packet_resend_key: None },
        ChannelId::new(0),
        &mut resender,
        &mut counter,
        &mut orders,
        &mut outbox,
    );
    assert_eq!(Ok(()), r);
    let mut expected = varint(ACK_CHANNEL_ID_REGISTRATION_STAGE << 1);
    expected.extend([1, 0, 7, 1]);
    assert_eq!(expected, outbox[1]);
    buffer.clear();
}

const QUIET: PeerReport = PeerReport { present: true, connected: false, error: None };
const GONE: PeerReport = PeerReport { present: false, connected: false, error: None };

fn event(
    server: &mut Server,
    peer: u64,
    event: PeerEvent,
    buffers: &mut Buffers,
    outbox: &mut Vec<Vec<u8>>,
    channels: &Channels,
    now: u64,
) -> PeerReport {
    server.handle_event(peer, event, buffers, outbox, &channels.provider, now)
}

#[test]
fn servers_connect_and_exchange_messages() {
    let c = channels();
    let (mut one, mut two) = (Server::new(), Server::new());
    let (mut one_buffers, mut two_buffers) = (Buffers::default(), Buffers::default());
    let mut to_two = vec![];
    let connect = event(&mut one, 2, PeerEvent::Connect, &mut one_buffers, &mut to_two, &c, 0);
    assert_eq!(QUIET, connect);
    let (mut one_connected, mut two_connected) = (0, 0);
    for now in 1..6u64 {
        let mut to_one = vec![];
        for payload in to_two.drain(..) {
            let read = PeerEvent::Read { payload };
            let report = event(&mut two, 1, read, &mut two_buffers, &mut to_one, &c, now);
            assert_eq!(None, report.error);
            two_connected += report.connected as u32;
        }
        for updated in two.tick(26, now).unwrap().updated {
            assert_eq!(1, updated.peer);
            assert_eq!(None, updated.error);
            to_one.extend(updated.packets);
        }
        for payload in to_one {
            let read = PeerEvent::Read { payload };
            let report = event(&mut one, 2, read, &mut one_buffers, &mut to_two, &c, now);
            one_connected += report.connected as u32;
        }
        for updated in one.tick(26, now).unwrap().updated {
            to_two.extend(updated.packets);
        }
    }
    assert_eq!((1, 1), (one_connected, two_connected));
    to_two.clear();
    let send = PeerEvent::Send { channel: c.ordered, payload: vec![1, 2, 3] };
    assert_eq!(QUIET, event(&mut one, 2, send, &mut one_buffers, &mut to_two, &c, 7));
    assert_eq!(1, to_two.len());
    let read = PeerEvent::Read { payload: to_two.remove(0) };
    assert_eq!(QUIET, event(&mut two, 1, read, &mut two_buffers, &mut vec![], &c, 7));
    let mut messages = vec![];
    two_buffers.get_mut(c.ordered).unwrap().take(&mut messages);
    assert_eq!(vec![vec![1, 2, 3]], messages);
}

#[test]
fn events_that_have_no_effect_are_reported() {
    let mut c = channels();
    let mut server = Server::new();
    let mut buffers = Buffers::default();
    let mut outbox = vec![];
    let failed = |present: bool, error: PeerError| PeerReport {
        present,
        connected: false,
        error: Some(error),
    };
    let send = PeerEvent::Send { channel: c.plain, payload: vec![] };
    assert_eq!(
        failed(false, PeerError::NotConnected),
        event(&mut server, 1, send, &mut buffers, &mut outbox, &c, 0)
    );
    let close = PeerEvent::CloseConnection;
    assert_eq!(GONE, event(&mut server, 1, close, &mut buffers, &mut outbox, &c, 0));
    let connect = PeerEvent::Connect;
    assert_eq!(QUIET, event(&mut server, 1, connect, &mut buffers, &mut outbox, &c, 0));
    assert_eq!(6, outbox.len());
    let connect = PeerEvent::Connect;
    assert_eq!(
        failed(true, PeerError::AlreadyConnected),
        event(&mut server, 1, connect, &mut buffers, &mut outbox, &c, 0)
    );
    let send = PeerEvent::Send { channel: c.plain, payload: vec![] };
    assert_eq!(
        failed(true, PeerError::ChannelNotRegistered),
        event(&mut server, 1, send, &mut buffers, &mut outbox, &c, 0)
    );
    let read = PeerEvent::Read { payload: vec![] };
    assert_eq!(
        failed(true, PeerError::Handling(ConnectionError::DecodeError)),
        event(&mut server, 1, read, &mut buffers, &mut outbox, &c, 0)
    );
    let close = PeerEvent::CloseConnection;
    assert_eq!(GONE, event(&mut server, 1, close, &mut buffers, &mut outbox, &c, 0));
    c.provider.add("n".repeat(501), Channel::new(ChannelFrequency::high()));
    let connect = PeerEvent::Connect;
    assert_eq!(
        failed(false, PeerError::Initialization(ConnectionError::EncodeError)),
        event(&mut server, 1, connect, &mut buffers, &mut outbox, &c, 0)
    );
    assert!(server.tick(26, 0).unwrap().updated.is_empty());
}

#[test]
fn message_that_cannot_be_kept_is_reported() {
    let c = channels();
    let mut server = Server::new();
    let mut buffers = Buffers::default();
    let mut outbox = vec![];
    let connect = PeerEvent::Connect;
    assert_eq!(QUIET, event(&mut server, 1, connect, &mut buffers, &mut outbox, &c, 0));
    let channel = ChannelId::new(ACK_CHANNEL_ID_REGISTRATION_STAGE);
    for _ in 6..620 {
        let send = PeerEvent::Send { channel, payload: vec![] };
        assert_eq!(QUIET, event(&mut server, 1, send, &mut buffers, &mut outbox, &c, 0));
    }
    let send = PeerEvent::Send { channel, payload: vec![] };
    let report = event(&mut server, 1, send, &mut buffers, &mut outbox, &c, 0);
    assert_eq!(
        Some(PeerError::Sending(ConnectionError::PacketResenderError(
            PacketResenderError::CapacityReached
        ))),
        report.error
    );
    let updated = server.tick(26, 0).unwrap().updated;
    assert_eq!(
        Some(ConnectionError::PacketResenderError(PacketResenderError::CapacityReached)),
        updated[0].error
    );
}

#[test]
fn silent_peer_is_forgotten() {
    let c = channels();
    let mut server = Server::new();
    for (peer, now) in [(1, 0), (2, 1000)] {
        let mut buffers = Buffers::default();
        let connect = PeerEvent::Connect;
        assert_eq!(QUIET, event(&mut server, peer, connect, &mut buffers, &mut vec![], &c, now));
    }
    assert!(server.tick(25, 40_000).is_none());
    let report = server.tick(26, 30_000).unwrap();
    assert!(report.timed_out.is_empty());
    assert_eq!(2, report.updated.len());
    let report = server.tick(26, 30_001).unwrap();
    assert_eq!(vec![1], report.timed_out);
    assert_eq!(1, report.updated.len());
    assert_eq!(2, report.updated[0].peer);
    let report = server.tick(26, 31_001).unwrap();
    assert_eq!(vec![2], report.timed_out);
    assert!(report.updated.is_empty());
}
