//! What is sent, in which packets.
use crate::net::channel::ChannelView;
use crate::net::id::ConnectionState;
use crate::net::packet::{
    law_packet_len, packet_bytes, ConnectionError, MAX_NON_SEGMENTED_PAYLOAD_LEN, MAX_PACKET_LEN, SEGMENT_LEN,
};
use crate::net::segment::PacketSegmentMetadata;
use crate::net::send::{
    lemma_segment_at, lemma_segment_count, next_u32, segment_count, segment_of, SendingView,
};
use crate::proto::encode::Encode;
use crate::util::slot_map::SlotMapKey;
use crate::net::resend::{PacketResenderError, PacketView};
use crate::util::slot_map::{law_add_then_get, law_next_key_is_new};
use vstd::prelude::*;

verus! {

/// The first `n` segments of a payload, one after the other.
pub open spec fn first_segments(payload: Seq<u8>, n: nat) -> Seq<u8>
    decreases n,
{
    if n == 0 {
        Seq::empty()
    } else {
        first_segments(payload, (n - 1) as nat) + segment_of(payload, (n - 1) as nat)
    }
}

/// The segments of a payload, one after the other, are the payload; none of them is empty or
/// longer than [`SEGMENT_LEN`].
pub proof fn law_segments_make_payload(payload: Seq<u8>)
    ensures
        first_segments(payload, segment_count(payload.len())) == payload,
        forall|i: nat|
            i < segment_count(payload.len()) ==> 0 < (#[trigger] segment_of(payload, i)).len()
                <= SEGMENT_LEN,
{
    let len = payload.len();
    let count = segment_count(len);
    lemma_segment_count(len);
    assert forall|i: nat| i < count implies 0 < (#[trigger] segment_of(payload, i)).len()
        <= SEGMENT_LEN by {
        lemma_segment_at(len, i);
    }
    if count > 0 {
        let i = (count - 1) as nat;
        lemma_first_segments(payload, i);
        lemma_segment_at(len, i);
        assert(payload.take((i * SEGMENT_LEN) as int) + payload.skip((i * SEGMENT_LEN) as int)
            =~= payload);
    } else {
        assert(count * SEGMENT_LEN == 0) by (nonlinear_arith)
            requires
                count == 0,
        ;
        assert(payload =~= Seq::empty());
    }
}

proof fn lemma_first_segments(payload: Seq<u8>, n: nat)
    requires
        n < segment_count(payload.len()),
    ensures
        n * SEGMENT_LEN < payload.len(),
        first_segments(payload, n) == payload.take((n * SEGMENT_LEN) as int),
    decreases n,
{
    lemma_segment_at(payload.len(), n);
    if n > 0 {
        let m = (n - 1) as nat;
        lemma_first_segments(payload, m);
        lemma_segment_at(payload.len(), m);
        assert(payload.take((m * SEGMENT_LEN) as int) + segment_of(payload, m) =~= payload.take(
            (n * SEGMENT_LEN) as int,
        ));
    } else {
        assert(n * SEGMENT_LEN == 0) by (nonlinear_arith)
            requires
                n == 0,
        ;
        assert(payload.take(0) =~= Seq::empty());
    }
}

/// The metadata of the `i`-th segment of a payload.
pub open spec fn segment_metadata(payload: Seq<u8>, segment_key: u32, i: nat) -> PacketSegmentMetadata {
    PacketSegmentMetadata {
        segment_key,
        segment: i as usize,
        segment_count: segment_count(payload.len()) as usize,
    }
}

/// Whether the `i`-th segment was sent as the packet `at + i`, with the resend key `key_at + i`.
pub open spec fn is_segment(
    after: SendingView,
    at: int,
    key_at: int,
    channel_id: u32,
    channel: ChannelView,
    segment_key: u32,
    order: Option<u32>,
    payload: Seq<u8>,
    i: nat,
) -> bool {
    &&& at + i < after.outbox.len()
    &&& channel.reliability is Some ==> key_at + i < after.resend_keys.len()
    &&& after.outbox[at + i] == packet_bytes(
        channel_id,
        Some(segment_metadata(payload, segment_key, i)),
        order,
        if channel.reliability is Some {
            Some(after.resend_keys[key_at + i])
        } else {
            None
        },
        segment_of(payload, i),
    )
}

proof fn lemma_segments_sent(
    sending: SendingView,
    channel_id: u32,
    channel: ChannelView,
    segment_key: u32,
    order: Option<u32>,
    payload: Seq<u8>,
    from: nat,
)
    requires
        from <= segment_count(payload.len()),
    ensures
        ({
            let outcome = sending.send_segments(
                channel_id,
                channel,
                segment_key,
                order,
                payload,
                from,
            );
            let after = outcome.after;
            &&& sending.outbox.is_prefix_of(after.outbox)
            &&& sending.resend_keys.is_prefix_of(after.resend_keys)
            &&& outcome.result is Ok ==> after.outbox.len() == sending.outbox.len() + (
            segment_count(payload.len()) - from)
            &&& outcome.result is Ok ==> forall|i: nat|
                from <= i < segment_count(payload.len()) ==> #[trigger] is_segment(
                    after,
                    sending.outbox.len() - from,
                    sending.resend_keys.len() - from,
                    channel_id,
                    channel,
                    segment_key,
                    order,
                    payload,
                    i,
                )
        }),
    decreases segment_count(payload.len()) - from,
{
    let count = segment_count(payload.len());
    if from < count {
        let one = sending.send_one(
            channel_id,
            channel,
            Some(segment_metadata(payload, segment_key, from)),
            order,
            segment_of(payload, from),
        );
        if one.result is Ok {
            lemma_segments_sent(
                one.after,
                channel_id,
                channel,
                segment_key,
                order,
                payload,
                from + 1,
            );
            let outcome = one.after.send_segments(
                channel_id,
                channel,
                segment_key,
                order,
                payload,
                from + 1,
            );
            let after = outcome.after;
            if outcome.result is Ok {
                let at = sending.outbox.len() - from;
                let key_at = sending.resend_keys.len() - from;
                assert(at == one.after.outbox.len() - (from + 1));
                assert forall|i: nat| from <= i < count implies #[trigger] is_segment(
                    after,
                    at,
                    key_at,
                    channel_id,
                    channel,
                    segment_key,
                    order,
                    payload,
                    i,
                ) by {
                    if i == from {
                        assert(one.after.outbox.is_prefix_of(after.outbox));
                        assert(after.outbox[at + i] == one.after.outbox[at + i]);
                        if channel.reliability is Some {
                            assert(after.resend_keys[key_at + i] == one.after.resend_keys[key_at
                                + i]);
                        }
                    } else {
                        assert(is_segment(
                            after,
                            one.after.outbox.len() - (from + 1),
                            one.after.resend_keys.len() - (from + 1),
                            channel_id,
                            channel,
                            segment_key,
                            order,
                            payload,
                            i,
                        ));
                    }
                }
            }
        }
    }
}

/// Whether a packet has the metadata that the channel asks for.
pub open spec fn fits_channel(
    channel: ChannelView,
    order: Option<u32>,
    key: Option<SlotMapKey>,
) -> bool {
    &&& order is Some == channel.orderability is Some
    &&& key is Some == channel.reliability is Some
}

/// A payload that is short enough is sent as one packet, with the order and the resend key that
/// the channel asks for.
pub proof fn law_sent_whole(
    sending: SendingView,
    state: ConnectionState,
    channel_id: u32,
    channel: ChannelView,
    payload: Seq<u8>,
)
    requires
        payload.len() <= MAX_NON_SEGMENTED_PAYLOAD_LEN,
        sending.send(state, channel_id, channel, payload).result is Ok,
    ensures
        ({
            let order = sending.order(state, channel_id, channel);
            let key = if channel.reliability is Some {
                Some(sending.resender.packets.next_key())
            } else {
                None
            };
            &&& fits_channel(channel, order, key)
            &&& sending.send(state, channel_id, channel, payload).after.outbox
                == sending.outbox.push(packet_bytes(channel_id, None, order, key, payload))
        }),
{
}

/// A payload that is too long for one packet is sent as its segments, in order, all of them under
/// the same segment key and with the same order.
pub proof fn law_sent_in_segments(
    sending: SendingView,
    state: ConnectionState,
    channel_id: u32,
    channel: ChannelView,
    payload: Seq<u8>,
)
    requires
        payload.len() > MAX_NON_SEGMENTED_PAYLOAD_LEN,
        sending.send(state, channel_id, channel, payload).result is Ok,
    ensures
        forall|i: nat|
            i < segment_count(payload.len()) ==> #[trigger] is_segment(
                sending.send(state, channel_id, channel, payload).after,
                sending.outbox.len() as int,
                sending.resend_keys.len() as int,
                channel_id,
                channel,
                sending.segment_keys,
                sending.order(state, channel_id, channel),
                payload,
                i,
            ),
        sending.send(state, channel_id, channel, payload).after.outbox.len() == sending.outbox.len()
            + segment_count(payload.len()),
        sending.outbox.is_prefix_of(sending.send(state, channel_id, channel, payload).after.outbox),
{
    let ready = sending.ordered(state, channel_id, channel);
    lemma_segments_sent(
        SendingView { segment_keys: next_u32(ready.segment_keys), ..ready },
        channel_id,
        channel,
        ready.segment_keys,
        sending.order(state, channel_id, channel),
        payload,
        0,
    );
}

/// No packet that is sent is longer than [`MAX_PACKET_LEN`].
pub proof fn law_sent_packets_fit(
    sending: SendingView,
    state: ConnectionState,
    channel_id: u32,
    channel: ChannelView,
    payload: Seq<u8>,
)
    requires
        forall|i: int|
            0 <= i < sending.outbox.len() ==> (#[trigger] sending.outbox[i]).len()
                <= MAX_PACKET_LEN,
    ensures
        forall|i: int|
            0 <= i < sending.send(state, channel_id, channel, payload).after.outbox.len() ==> (
            #[trigger] sending.send(state, channel_id, channel, payload).after.outbox[i]).len()
                <= MAX_PACKET_LEN,
{
    let order = sending.order(state, channel_id, channel);
    let ready = sending.ordered(state, channel_id, channel);
    if payload.len() <= MAX_NON_SEGMENTED_PAYLOAD_LEN {
        lemma_one_fits(ready, channel_id, channel, None, order, payload);
    } else {
        law_segments_make_payload(payload);
        lemma_segments_fit(
            SendingView { segment_keys: next_u32(ready.segment_keys), ..ready },
            channel_id,
            channel,
            ready.segment_keys,
            order,
            payload,
            0,
        );
    }
}

spec fn all_fit(outbox: Seq<Seq<u8>>) -> bool {
    forall|i: int| 0 <= i < outbox.len() ==> (#[trigger] outbox[i]).len() <= MAX_PACKET_LEN
}

proof fn lemma_one_fits(
    sending: SendingView,
    channel_id: u32,
    channel: ChannelView,
    segment: Option<PacketSegmentMetadata>,
    order: Option<u32>,
    payload: Seq<u8>,
)
    requires
        all_fit(sending.outbox),
        segment is None ==> payload.len() <= MAX_NON_SEGMENTED_PAYLOAD_LEN,
        segment is Some ==> payload.len() <= SEGMENT_LEN,
    ensures
        all_fit(sending.send_one(channel_id, channel, segment, order, payload).after.outbox),
{
    if segment is None || segment.unwrap().encodable() {
        law_packet_len(
            channel_id,
            segment,
            order,
            Some(sending.resender.packets.next_key()),
            payload,
        );
        law_packet_len(channel_id, segment, order, None, payload);
    }
}

proof fn lemma_segments_fit(
    sending: SendingView,
    channel_id: u32,
    channel: ChannelView,
    segment_key: u32,
    order: Option<u32>,
    payload: Seq<u8>,
    from: nat,
)
    requires
        all_fit(sending.outbox),
        forall|i: nat|
            i < segment_count(payload.len()) ==> (#[trigger] segment_of(payload, i)).len()
                <= SEGMENT_LEN,
    ensures
        all_fit(
            sending.send_segments(
                channel_id,
                channel,
                segment_key,
                order,
                payload,
                from,
            ).after.outbox,
        ),
    decreases segment_count(payload.len()) - from,
{
    if from < segment_count(payload.len()) {
        let metadata = Some(segment_metadata(payload, segment_key, from));
        let segment = segment_of(payload, from);
        lemma_one_fits(sending, channel_id, channel, metadata, order, segment);
        lemma_segments_fit(
            sending.send_one(channel_id, channel, metadata, order, segment).after,
            channel_id,
            channel,
            segment_key,
            order,
            payload,
            from + 1,
        );
    }
}

/// The messages of an ordered channel get consecutive orders, whether sending them goes well or
/// not.
pub proof fn law_consecutive_orders(
    sending: SendingView,
    state: ConnectionState,
    channel_id: u32,
    channel: ChannelView,
    payload: Seq<u8>,
)
    requires
        sending.orders.holds(state, channel_id),
        channel.orderability is Some,
    ensures
        sending.send(state, channel_id, channel, payload).after.order(state, channel_id, channel)
            == Some(next_u32(sending.orders.get(state, channel_id))),
        sending.order(state, channel_id, channel) == Some(sending.orders.get(state, channel_id)),
        sending.send(state, channel_id, channel, payload).after.orders.get(state, channel_id)
            as int == (sending.orders.get(state, channel_id) + 1) % 0x1_0000_0000,
{
    let order = sending.order(state, channel_id, channel);
    let ready = sending.ordered(state, channel_id, channel);
    lemma_segments_keep_orders(
        SendingView { segment_keys: next_u32(ready.segment_keys), ..ready },
        channel_id,
        channel,
        ready.segment_keys,
        order,
        payload,
        0,
    );
}

proof fn lemma_segments_keep_orders(
    sending: SendingView,
    channel_id: u32,
    channel: ChannelView,
    segment_key: u32,
    order: Option<u32>,
    payload: Seq<u8>,
    from: nat,
)
    ensures
        sending.send_segments(
            channel_id,
            channel,
            segment_key,
            order,
            payload,
            from,
        ).after.orders == sending.orders,
    decreases segment_count(payload.len()) - from,
{
    if from < segment_count(payload.len()) {
        lemma_segments_keep_orders(
            sending.send_one(
                channel_id,
                channel,
                Some(segment_metadata(payload, segment_key, from)),
                order,
                segment_of(payload, from),
            ).after,
            channel_id,
            channel,
            segment_key,
            order,
            payload,
            from + 1,
        );
    }
}

impl SendingView {
    /// With these keys as those that were given to packets.
    pub open spec fn with_keys(self, resend_keys: Seq<SlotMapKey>) -> Self {
        SendingView { resend_keys, ..self }
    }
}

/// What sending did to the packets that are kept: every packet that was sent has a resend key of its
/// own and is kept under it, whole, to be sent again as the channel says, and waits from the
/// beginning; all others are as they were. On a channel that is not reliable nothing is kept.
pub open spec fn keeps_what_it_sends(
    before: SendingView,
    after: SendingView,
    channel: ChannelView,
) -> bool {
    let sent = after.outbox.len() - before.outbox.len();
    let first = before.resend_keys.len();
    &&& before.outbox.is_prefix_of(after.outbox)
    &&& before.resend_keys.is_prefix_of(after.resend_keys)
    &&& after.resender.capacity == before.resender.capacity
    &&& match channel.reliability {
        None => after.resender == before.resender && after.resend_keys == before.resend_keys,
        Some(reliability) => {
            &&& after.resend_keys.len() - first == sent
            &&& after.resender.packets.len() == before.resender.packets.len() + sent
            &&& forall|i: int|
                0 <= i < sent ==> after.resender.packets.get(
                    #[trigger] after.resend_keys[first + i],
                ) == Some(
                    PacketView {
                        payload: after.outbox[before.outbox.len() + i],
                        resend_interval: reliability.resend_interval,
                        resend_attempts: reliability.resend_attempts,
                        current_time: 0,
                    },
                )
            &&& forall|i: int|
                0 <= i < sent ==> !before.resender.packets.issued(
                    #[trigger] after.resend_keys[first + i],
                ) && after.resender.packets.issued(after.resend_keys[first + i])
            &&& forall|key: SlotMapKey|
                #![trigger after.resender.packets.get(key)]
                before.resender.packets.issued(key) ==> after.resender.packets.get(key)
                    == before.resender.packets.get(key) && after.resender.packets.issued(key)
        },
    }
}

proof fn lemma_one_is_kept(
    sending: SendingView,
    channel_id: u32,
    channel: ChannelView,
    segment: Option<PacketSegmentMetadata>,
    order: Option<u32>,
    payload: Seq<u8>,
)
    requires
        sending.resender.wf(),
    ensures
        sending.send_one(channel_id, channel, segment, order, payload).after.resender.wf(),
        keeps_what_it_sends(
            sending,
            sending.send_one(channel_id, channel, segment, order, payload).after,
            channel,
        ),
{
    let outcome = sending.send_one(channel_id, channel, segment, order, payload);
    if let Some(reliability) = channel.reliability {
        if outcome.result is Ok {
            let packets = sending.resender.packets;
            let key = packets.next_key();
            let packet = PacketView {
                payload: packet_bytes(channel_id, segment, order, Some(key), payload),
                resend_interval: reliability.resend_interval,
                resend_attempts: reliability.resend_attempts,
                current_time: 0,
            };
            law_next_key_is_new(packets, Some(packet));
            law_add_then_get(packets, Some(packet), key);
            assert forall|k: SlotMapKey|
                #![trigger outcome.after.resender.packets.get(k)]
                packets.issued(k) implies outcome.after.resender.packets.get(k) == packets.get(k)
                && outcome.after.resender.packets.issued(k) by {
                law_add_then_get(packets, Some(packet), k);
            }
        }
    }
}

proof fn lemma_kept_together(
    a: SendingView,
    b: SendingView,
    c: SendingView,
    channel: ChannelView,
)
    requires
        keeps_what_it_sends(a, b, channel),
        keeps_what_it_sends(b, c, channel),
    ensures
        keeps_what_it_sends(a, c, channel),
{
    if channel.reliability is Some {
        let first = a.resend_keys.len();
        let middle = b.outbox.len() - a.outbox.len();
        assert forall|i: int| 0 <= i < c.outbox.len() - a.outbox.len() implies !a.resender.packets.issued(
            #[trigger] c.resend_keys[first + i],
        ) && c.resender.packets.issued(c.resend_keys[first + i]) && c.resender.packets.get(
            c.resend_keys[first + i],
        ) == Some(
            PacketView {
                payload: c.outbox[a.outbox.len() + i],
                resend_interval: channel.reliability.unwrap().resend_interval,
                resend_attempts: channel.reliability.unwrap().resend_attempts,
                current_time: 0,
            },
        ) by {
            let key = c.resend_keys[first + i];
            if i < middle {
                assert(b.resend_keys[first + i] == key);
                assert(c.resender.packets.get(key) == b.resender.packets.get(key));
                assert(b.outbox[a.outbox.len() + i] == c.outbox[a.outbox.len() + i]);
            } else {
                assert(c.resend_keys[b.resend_keys.len() + (i - middle)] == key);
                if a.resender.packets.issued(key) {
                    assert(b.resender.packets.get(key) == a.resender.packets.get(key));
                }
            }
        }
        assert forall|key: SlotMapKey|
            #![trigger c.resender.packets.get(key)]
            a.resender.packets.issued(key) implies c.resender.packets.get(key)
            == a.resender.packets.get(key) && c.resender.packets.issued(key) by {
            assert(b.resender.packets.get(key) == a.resender.packets.get(key));
        }
    }
}

proof fn lemma_segments_are_kept(
    sending: SendingView,
    channel_id: u32,
    channel: ChannelView,
    segment_key: u32,
    order: Option<u32>,
    payload: Seq<u8>,
    from: nat,
)
    requires
        sending.resender.wf(),
    ensures
        keeps_what_it_sends(
            sending,
            sending.send_segments(
                channel_id,
                channel,
                segment_key,
                order,
                payload,
                from,
            ).after,
            channel,
        ),
    decreases segment_count(payload.len()) - from,
{
    if from < segment_count(payload.len()) {
        let metadata = Some(segment_metadata(payload, segment_key, from));
        let segment = segment_of(payload, from);
        let one = sending.send_one(channel_id, channel, metadata, order, segment);
        lemma_one_is_kept(sending, channel_id, channel, metadata, order, segment);
        if one.result is Ok {
            lemma_segments_are_kept(
                one.after,
                channel_id,
                channel,
                segment_key,
                order,
                payload,
                from + 1,
            );
            let after = one.after.send_segments(
                channel_id,
                channel,
                segment_key,
                order,
                payload,
                from + 1,
            ).after;
            lemma_kept_together(sending, one.after, after, channel);
        }
    }
}

/// Every packet that is sent through a reliable channel, be it a whole payload or a segment, is kept
/// under a new key, with the bytes that were sent, to be sent again at the channel's interval as
/// often as the channel says; even where sending fails later on. Packets that were kept before stay
/// as they were, and through a channel that is not reliable nothing is kept.
pub proof fn law_sent_packets_are_kept(
    sending: SendingView,
    state: ConnectionState,
    channel_id: u32,
    channel: ChannelView,
    payload: Seq<u8>,
)
    requires
        sending.resender.wf(),
    ensures
        keeps_what_it_sends(
            sending,
            sending.send(state, channel_id, channel, payload).after,
            channel,
        ),
{
    let order = sending.order(state, channel_id, channel);
    let ready = sending.ordered(state, channel_id, channel);
    if payload.len() <= MAX_NON_SEGMENTED_PAYLOAD_LEN {
        lemma_one_is_kept(ready, channel_id, channel, None, order, payload);
    } else {
        lemma_segments_are_kept(
            SendingView { segment_keys: next_u32(ready.segment_keys), ..ready },
            channel_id,
            channel,
            ready.segment_keys,
            order,
            payload,
            0,
        );
    }
}

/// A payload whose segments can be numbered is sent, unless the channel is reliable and no more
/// packets can be kept.
pub proof fn law_sending_succeeds(
    sending: SendingView,
    state: ConnectionState,
    channel_id: u32,
    channel: ChannelView,
    payload: Seq<u8>,
)
    requires
        channel_id < 0x8000_0000,
        payload.len() <= 0x1_0000 * SEGMENT_LEN,
    ensures
        ({
            let outcome = sending.send(state, channel_id, channel, payload);
            if outcome.result is Ok {
                outcome.after.outbox.len() == sending.outbox.len() + (if payload.len()
                    <= MAX_NON_SEGMENTED_PAYLOAD_LEN {
                    1
                } else {
                    segment_count(payload.len())
                })
            } else {
                &&& channel.reliability is Some
                &&& outcome.after.resender.full()
                &&& outcome.result == Err::<(), ConnectionError>(
                    ConnectionError::PacketResenderError(PacketResenderError::CapacityReached),
                )
            }
        }),
{
    let order = sending.order(state, channel_id, channel);
    let ready = sending.ordered(state, channel_id, channel);
    if payload.len() > MAX_NON_SEGMENTED_PAYLOAD_LEN {
        lemma_countable(payload.len());
        lemma_segments_succeed(
            SendingView { segment_keys: next_u32(ready.segment_keys), ..ready },
            channel_id,
            channel,
            ready.segment_keys,
            order,
            payload,
            0,
        );
    }
}

proof fn lemma_countable(len: nat)
    requires
        len <= 0x1_0000 * SEGMENT_LEN,
    ensures
        segment_count(len) <= 0x1_0000,
{
    let count = segment_count(len);
    lemma_segment_count(len);
    if count > 0x1_0000 {
        lemma_segment_at(len, 0x1_0000);
    }
}

proof fn lemma_segments_succeed(
    sending: SendingView,
    channel_id: u32,
    channel: ChannelView,
    segment_key: u32,
    order: Option<u32>,
    payload: Seq<u8>,
    from: nat,
)
    requires
        channel_id < 0x8000_0000,
        segment_count(payload.len()) <= 0x1_0000,
        from <= segment_count(payload.len()),
    ensures
        ({
            let outcome = sending.send_segments(
                channel_id,
                channel,
                segment_key,
                order,
                payload,
                from,
            );
            if outcome.result is Ok {
                outcome.after.outbox.len() == sending.outbox.len() + (segment_count(payload.len())
                    - from)
            } else {
                &&& channel.reliability is Some
                &&& outcome.after.resender.full()
                &&& outcome.result == Err::<(), ConnectionError>(
                    ConnectionError::PacketResenderError(PacketResenderError::CapacityReached),
                )
            }
        }),
    decreases segment_count(payload.len()) - from,
{
    if from < segment_count(payload.len()) {
        let one = sending.send_one(
            channel_id,
            channel,
            Some(segment_metadata(payload, segment_key, from)),
            order,
            segment_of(payload, from),
        );
        lemma_segments_succeed(
            one.after,
            channel_id,
            channel,
            segment_key,
            order,
            payload,
            from + 1,
        );
    }
}

/// Payloads that are cut into segments get consecutive segment keys, others get none; no other
/// channel's order changes.
pub proof fn law_sending_leaves_others_alone(
    sending: SendingView,
    state: ConnectionState,
    channel_id: u32,
    channel: ChannelView,
    payload: Seq<u8>,
    other_state: ConnectionState,
    other: u32,
)
    requires
        channel.orderability is Some ==> sending.orders.holds(state, channel_id),
        sending.orders.holds(other_state, other),
        (other_state is Transfer) != (state is Transfer) || other != channel_id
            || channel.orderability is None,
    ensures
        ({
            let after = sending.send(state, channel_id, channel, payload).after;
            &&& after.segment_keys as int == (if payload.len() <= 1980 {
                sending.segment_keys as int
            } else {
                (sending.segment_keys + 1) % 0x1_0000_0000
            })
            &&& after.orders.holds(other_state, other)
            &&& after.orders.get(other_state, other) == sending.orders.get(other_state, other)
        }),
{
    let order = sending.order(state, channel_id, channel);
    let ready = sending.ordered(state, channel_id, channel);
    lemma_segments_keep_orders(
        SendingView { segment_keys: next_u32(ready.segment_keys), ..ready },
        channel_id,
        channel,
        ready.segment_keys,
        order,
        payload,
        0,
    );
    lemma_segments_keep_key(
        SendingView { segment_keys: next_u32(ready.segment_keys), ..ready },
        channel_id,
        channel,
        ready.segment_keys,
        order,
        payload,
        0,
    );
}

proof fn lemma_segments_keep_key(
    sending: SendingView,
    channel_id: u32,
    channel: ChannelView,
    segment_key: u32,
    order: Option<u32>,
    payload: Seq<u8>,
    from: nat,
)
    ensures
        sending.send_segments(
            channel_id,
            channel,
            segment_key,
            order,
            payload,
            from,
        ).after.segment_keys == sending.segment_keys,
    decreases segment_count(payload.len()) - from,
{
    if from < segment_count(payload.len()) {
        lemma_segments_keep_key(
            sending.send_one(
                channel_id,
                channel,
                Some(segment_metadata(payload, segment_key, from)),
                order,
                segment_of(payload, from),
            ).after,
            channel_id,
            channel,
            segment_key,
            order,
            payload,
            from + 1,
        );
    }
}

} // verus!
