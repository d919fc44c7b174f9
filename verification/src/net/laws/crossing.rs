//! A message that one side sends is the message that the other side delivers.
use super::arrival::{
    is_accepted, is_message_channel, law_message_arrives, law_segmented_message_arrives,
    messages_of, receive_segments, segment_packet,
};
use super::sending::{
    fits_channel, is_segment, law_sent_in_segments, law_sent_whole, segment_metadata,
};
use crate::net::channel::ChannelView;
use crate::net::consistency::addressable;
use crate::net::id::{ConnectionState, NULL_CHANNEL_ID};
use crate::net::model::{ExchangeOutcome, ExchangeView};
use crate::net::packet::MAX_NON_SEGMENTED_PAYLOAD_LEN;
use crate::net::provider::ProviderView;
use crate::net::send::{channel_for, lemma_segment_count, segment_count, SendingView};
use crate::proto::encode::Encode;
use crate::util::slot_map::SlotMapKey;
use vstd::prelude::*;

verus! {

/// Two sides that exchange messages: what the one has told about its channels, the other has
/// learnt.
pub open spec fn understand(
    sender: ExchangeView,
    receiver: ExchangeView,
    provider: ProviderView,
) -> bool {
    &&& sender.connection.wf(provider)
    &&& receiver.connection.wf(provider)
    &&& receiver.connection.initialized()
    &&& provider.valid()
    &&& sender.connection.state is Transfer
    &&& receiver.connection.state is Transfer
    &&& receiver.connection.remote.locals == sender.connection.local.locals
}

/// The id under which the sender sends is understood by the receiver.
proof fn lemma_understood(
    sender: ExchangeView,
    receiver: ExchangeView,
    global_id: u32,
    provider: ProviderView,
)
    requires
        understand(sender, receiver, provider),
        global_id != NULL_CHANNEL_ID,
        sender.connection.local.locals.contains(global_id),
    ensures
        ({
            let id = sender.connection.local.locals.index_of(global_id) as u32;
            &&& sender.connection.local.local_id(ConnectionState::Transfer, global_id) == Some(id)
            &&& addressable(
                receiver.connection,
                id,
                global_id,
                provider.channels[global_id],
                provider,
            )
            &&& channel_for(ConnectionState::Transfer, id, global_id, provider) == Some(
                provider.channels[global_id],
            )
            &&& (id as int) < sender.connection.local.locals.len()
            &&& id < 0x8000_0000
        }),
{
    let locals = sender.connection.local.locals;
    let i = locals.index_of(global_id);
    assert(locals[i] == global_id);
    assert(locals[i] != NULL_CHANNEL_ID && provider.names_id(locals[i]));
}

/// A message that is sent in one packet crosses over: if the receiver does not refuse the packet,
/// the message is delivered to the channel that it was sent through, with those behind it whose
/// turn has come; and the packet is refused only if it has arrived before, or if there is no room
/// for its acknowledgement or for the message until its turn comes.
pub proof fn law_message_crosses(
    sender: ExchangeView,
    receiver: ExchangeView,
    global_id: u32,
    payload: Seq<u8>,
    provider: ProviderView,
    now: u64,
)
    requires
        understand(sender, receiver, provider),
        global_id != NULL_CHANNEL_ID,
        sender.connection.local.locals.contains(global_id),
        is_message_channel(
            receiver.connection,
            sender.connection.local.locals.index_of(global_id) as u32,
        ),
        receiver.buffers.contains_key(global_id),
        payload.len() <= MAX_NON_SEGMENTED_PAYLOAD_LEN,
        sender.send_message(global_id, payload, provider).report.error is None,
    ensures
        ({
            let sent = sender.send_message(global_id, payload, provider);
            let id = sender.connection.local.locals.index_of(global_id) as u32;
            let channel = provider.channels[global_id];
            let order = sender.connection.sending(sender.outbox).order(
                sender.connection.state,
                id,
                channel,
            );
            let key = if channel.reliability is Some {
                Some(sender.connection.resender.packets.next_key())
            } else {
                None
            };
            let outcome = receiver.receive(sent.outbox.last(), provider, now);
            &&& sent.outbox == sender.outbox.push(sent.outbox.last())
            &&& outcome.result is Ok <==> receiver.acknowledge(key).result is Ok && is_accepted(
                receiver.connection,
                id,
                order,
            )
            &&& outcome.after.buffers == (if outcome.result is Ok {
                receiver.buffers.insert(
                    global_id,
                    receiver.buffers[global_id] + messages_of(
                        receiver.connection,
                        id,
                        order,
                        payload,
                    ),
                )
            } else {
                receiver.buffers
            })
        }),
{
    let id = sender.connection.local.locals.index_of(global_id) as u32;
    let channel = provider.channels[global_id];
    lemma_understood(sender, receiver, global_id, provider);
    let sending = sender.connection.sending(sender.outbox);
    let state = sender.connection.state;
    law_sent_whole(sending, state, id, channel, payload);
    let order = sending.order(state, id, channel);
    let key = if channel.reliability is Some {
        Some(sender.connection.resender.packets.next_key())
    } else {
        None
    };
    law_message_arrives(
        receiver,
        id,
        global_id,
        channel,
        order,
        key,
        payload,
        provider,
        now,
    );
}

/// Packets arrive in the order of `arrivals`, which holds their numbers, each at its time, up to
/// the first that is refused.
pub open spec fn receive_some(
    start: ExchangeView,
    packets: Seq<Seq<u8>>,
    arrivals: Seq<usize>,
    provider: ProviderView,
    times: spec_fn(nat) -> u64,
) -> ExchangeOutcome
    decreases arrivals.len(),
{
    if arrivals.len() == 0 {
        start.ok()
    } else {
        let before = receive_some(start, packets, arrivals.drop_last(), provider, times);
        if before.result is Ok {
            before.after.receive(
                packets[arrivals.last() as int],
                provider,
                times((arrivals.len() - 1) as nat),
            )
        } else {
            before
        }
    }
}

proof fn lemma_same_packets(
    start: ExchangeView,
    packets: Seq<Seq<u8>>,
    arrivals: Seq<usize>,
    local_id: u32,
    segment_key: u32,
    order: Option<u32>,
    keys: Seq<Option<SlotMapKey>>,
    payload: Seq<u8>,
    provider: ProviderView,
    times: spec_fn(nat) -> u64,
)
    requires
        forall|i: int|
            0 <= i < arrivals.len() ==> (#[trigger] arrivals[i] as int) < packets.len(),
        forall|i: int|
            0 <= i < packets.len() ==> #[trigger] packets[i] == segment_packet(
                local_id,
                segment_key,
                order,
                keys,
                payload,
                i as nat,
            ),
    ensures
        receive_some(start, packets, arrivals, provider, times) == receive_segments(
            start,
            local_id,
            segment_key,
            order,
            keys,
            payload,
            arrivals,
            provider,
            times,
        ),
    decreases arrivals.len(),
{
    if arrivals.len() > 0 {
        lemma_same_packets(
            start,
            packets,
            arrivals.drop_last(),
            local_id,
            segment_key,
            order,
            keys,
            payload,
            provider,
            times,
        );
        assert((arrivals[arrivals.len() - 1] as int) < packets.len());
        let i = arrivals.last() as int;
        assert(packets[i] == segment_packet(local_id, segment_key, order, keys, payload, i as nat));
    }
}

/// A payload that was sent in segments has no more of them than can be numbered.
proof fn lemma_numbered(
    sending: SendingView,
    state: ConnectionState,
    channel_id: u32,
    channel: ChannelView,
    payload: Seq<u8>,
)
    requires
        MAX_NON_SEGMENTED_PAYLOAD_LEN < payload.len() <= usize::MAX,
        sending.send(state, channel_id, channel, payload).result is Ok,
    ensures
        1 <= segment_count(payload.len()) <= u16::MAX + 1,
{
    lemma_segment_count(payload.len());
    assert(segment_count(payload.len()) >= 1) by {
        if segment_count(payload.len()) == 0 {
            assert(segment_count(payload.len()) * crate::net::packet::SEGMENT_LEN == 0)
                by (nonlinear_arith)
                requires
                    segment_count(payload.len()) == 0,
            ;
        }
    }
    let first = segment_metadata(payload, sending.segment_keys, 0);
    assert(first.encodable());
}

/// A message that is sent in segments crosses over, however and whenever its segments arrive: as
/// long as the receiver refuses none of them, nothing is delivered until all have arrived, and then
/// the message is delivered, whole and once, to the channel that it was sent through, with those
/// behind it whose turn has come.
pub proof fn law_long_message_crosses(
    sender: ExchangeView,
    receiver: ExchangeView,
    global_id: u32,
    payload: Seq<u8>,
    arrivals: Seq<usize>,
    provider: ProviderView,
    times: spec_fn(nat) -> u64,
)
    requires
        understand(sender, receiver, provider),
        global_id != NULL_CHANNEL_ID,
        sender.connection.local.locals.contains(global_id),
        is_message_channel(
            receiver.connection,
            sender.connection.local.locals.index_of(global_id) as u32,
        ),
        receiver.buffers.contains_key(global_id),
        !receiver.connection.joiner.packets.contains_key(sender.connection.segment_keys),
        MAX_NON_SEGMENTED_PAYLOAD_LEN < payload.len() <= usize::MAX,
        sender.send_message(global_id, payload, provider).report.error is None,
        arrivals.no_duplicates(),
        forall|i: int|
            0 <= i < arrivals.len() ==> (#[trigger] arrivals[i] as int) < segment_count(
                payload.len(),
            ),
        receive_some(
            receiver,
            sender.send_message(global_id, payload, provider).outbox.skip(
                sender.outbox.len() as int,
            ),
            arrivals,
            provider,
            times,
        ).result is Ok,
    ensures
        ({
            let sent = sender.send_message(global_id, payload, provider);
            let packets = sent.outbox.skip(sender.outbox.len() as int);
            let id = sender.connection.local.locals.index_of(global_id) as u32;
            let order = sender.connection.sending(sender.outbox).order(
                sender.connection.state,
                id,
                provider.channels[global_id],
            );
            let after = receive_some(receiver, packets, arrivals, provider, times).after;
            &&& packets.len() == segment_count(payload.len())
            &&& after.buffers == (if arrivals.len() == packets.len() {
                receiver.buffers.insert(
                    global_id,
                    receiver.buffers[global_id] + messages_of(
                        receiver.connection,
                        id,
                        order,
                        payload,
                    ),
                )
            } else {
                receiver.buffers
            })
        }),
{
    let id = sender.connection.local.locals.index_of(global_id) as u32;
    let channel = provider.channels[global_id];
    lemma_understood(sender, receiver, global_id, provider);
    let sending = sender.connection.sending(sender.outbox);
    let state = sender.connection.state;
    let sent = sending.send(state, id, channel, payload);
    let order = sending.order(state, id, channel);
    let count = segment_count(payload.len());
    law_sent_in_segments(sending, state, id, channel, payload);
    lemma_numbered(sending, state, id, channel, payload);
    let packets = sent.after.outbox.skip(sender.outbox.len() as int);
    let keys = Seq::new(
        count,
        |i: int|
            if channel.reliability is Some {
                Some(sent.after.resend_keys[i])
            } else {
                None
            },
    );
    assert forall|i: int| 0 <= i < packets.len() implies #[trigger] packets[i] == segment_packet(
        id,
        sending.segment_keys,
        order,
        keys,
        payload,
        i as nat,
    ) by {
        assert(is_segment(
            sent.after,
            sending.outbox.len() as int,
            sending.resend_keys.len() as int,
            id,
            channel,
            sending.segment_keys,
            order,
            payload,
            i as nat,
        ));
    }
    assert forall|i: int| 0 <= i < keys.len() implies fits_channel(
        channel,
        order,
        #[trigger] keys[i],
    ) by {}
    lemma_same_packets(
        receiver,
        packets,
        arrivals,
        id,
        sending.segment_keys,
        order,
        keys,
        payload,
        provider,
        times,
    );
    law_segmented_message_arrives(
        receiver,
        id,
        global_id,
        channel,
        sending.segment_keys,
        order,
        keys,
        payload,
        arrivals,
        provider,
        times,
    );
}

} // verus!
