//! Telling the other side which packets have arrived, and being told.
use super::channel_data::ChannelData;
use super::id::{ChannelId, ConnectionState, UniqueChannelId, ACK_CHANNEL_ID_REGISTRATION_STAGE};
use super::packet::{packet_bytes, ConnectionError, MAX_NON_SEGMENTED_PAYLOAD_LEN};
use super::provider::{ack_channel, ack_channel_view};
use super::resend::{PacketResender, ResenderView};
use super::send::{send_packet, ConnectionChannel, SendingView};
use crate::proto::decode::Decode;
use crate::proto::encode::Encode;
use crate::proto::num::lemma_parse_var_used;
use crate::proto::round_trip::RoundTrip;
use crate::util::bytes::contents;
use crate::util::slot_map::SlotMapKey;
use vstd::prelude::*;

verus! {

/// The keys one after the other, as bytes.
pub open spec fn keys_bytes(keys: Seq<SlotMapKey>) -> Seq<u8>
    decreases keys.len(),
{
    if keys.len() == 0 {
        Seq::empty()
    } else {
        keys[0].encoding() + keys_bytes(keys.skip(1))
    }
}

/// The keys that can be read one after the other, up to the first that cannot.
pub open spec fn parse_keys(input: Seq<u8>) -> Seq<SlotMapKey>
    decreases input.len(),
    via parse_keys_decreases
{
    let key = SlotMapKey::parse(input);
    match key.value {
        Some(k) => seq![k] + parse_keys(input.skip(key.used as int)),
        None => Seq::empty(),
    }
}

#[via_fn]
proof fn parse_keys_decreases(input: Seq<u8>) {
    lemma_parse_var_used(input, 5);
    SlotMapKey::lemma_parse_used(input);
}

proof fn lemma_key_used(input: Seq<u8>)
    ensures
        SlotMapKey::parse(input).used <= input.len(),
        SlotMapKey::parse(input).value is Some ==> SlotMapKey::parse(input).used >= 1,
{
    lemma_parse_var_used(input, 5);
    SlotMapKey::lemma_parse_used(input);
}

/// Reading keys that were written one after the other gives the keys.
pub proof fn law_keys_round_trip(keys: Seq<SlotMapKey>)
    ensures
        parse_keys(keys_bytes(keys)) == keys,
    decreases keys.len(),
{
    if keys.len() > 0 {
        let rest = keys_bytes(keys.skip(1));
        keys[0].law_round_trip(rest);
        law_keys_round_trip(keys.skip(1));
        assert(keys_bytes(keys).skip(keys[0].encoding().len() as int) =~= rest);
        assert(seq![keys[0]] + keys.skip(1) =~= keys);
    } else {
        assert(parse_keys(Seq::empty()) =~= Seq::empty());
    }
    assert(parse_keys(keys_bytes(keys)) =~= keys);
}

/// Writing one key more appends its bytes.
pub proof fn law_keys_bytes_push(keys: Seq<SlotMapKey>, key: SlotMapKey)
    ensures
        keys_bytes(keys.push(key)) == keys_bytes(keys) + key.encoding(),
    decreases keys.len(),
{
    if keys.len() == 0 {
        assert(keys.push(key).skip(1) =~= Seq::empty());
        assert(keys_bytes(keys.push(key).skip(1)) =~= Seq::empty());
        assert(keys_bytes(keys.push(key)) =~= keys_bytes(keys) + key.encoding());
    } else {
        law_keys_bytes_push(keys.skip(1), key);
        assert(keys.push(key).skip(1) =~= keys.skip(1).push(key));
        assert(keys_bytes(keys.push(key)) =~= keys_bytes(keys) + key.encoding());
    }
}

impl SendingView {
    /// Without the keys that were given to packets.
    pub open spec fn forgetful(self) -> Self {
        SendingView { resend_keys: Seq::empty(), ..self }
    }
}

/// What becomes of the bytes that wait to be sent as acknowledgement, what becomes of the sending
/// side, and whether it went well.
pub struct AcknowledgeOutcome {
    pub buf: Seq<u8>,
    pub after: SendingView,
    pub result: Result<(), ConnectionError>,
}

/// The id of the acknowledgement channel.
pub open spec fn ack_id(state: ConnectionState, ack_channel_id: u32) -> u32 {
    match state {
        ConnectionState::Registration { .. } => ACK_CHANNEL_ID_REGISTRATION_STAGE,
        ConnectionState::Transfer => ack_channel_id,
    }
}

/// The bytes that wait are sent, be there any or not, and if that goes well none wait any longer.
pub open spec fn flushed(
    buf: Seq<u8>,
    sending: SendingView,
    state: ConnectionState,
    ack_channel_id: u32,
) -> AcknowledgeOutcome {
    let sent = sending.forgetful().send(
        state,
        ack_id(state, ack_channel_id),
        ack_channel_view(),
        buf,
    );
    AcknowledgeOutcome {
        buf: if sent.result is Ok {
            Seq::empty()
        } else {
            buf
        },
        after: sent.after.forgetful(),
        result: sent.result,
    }
}

/// A key is added to what waits. If there is no more room in one packet, then what waits is sent
/// first.
pub open spec fn acknowledged(
    buf: Seq<u8>,
    key: SlotMapKey,
    sending: SendingView,
    state: ConnectionState,
    ack_channel_id: u32,
) -> AcknowledgeOutcome {
    if (buf + key.encoding()).len() <= MAX_NON_SEGMENTED_PAYLOAD_LEN {
        AcknowledgeOutcome { buf: buf + key.encoding(), after: sending.forgetful(), result: Ok(()) }
    } else {
        let flush = flushed(buf, sending, state, ack_channel_id);
        AcknowledgeOutcome {
            buf: if flush.result is Ok {
                key.encoding()
            } else {
                buf
            },
            ..flush
        }
    }
}

/// The keys of packets that have arrived, as bytes that wait to be sent.
pub struct ConnectionAcknowledgeBuffer {
    buf: Vec<u8>,
}

impl View for ConnectionAcknowledgeBuffer {
    type V = Seq<u8>;

    closed spec fn view(&self) -> Seq<u8> {
        self.buf@
    }
}

impl Default for ConnectionAcknowledgeBuffer {
    fn default() -> (buffer: Self)
        ensures
            buffer@ == Seq::<u8>::empty(),
    {
        ConnectionAcknowledgeBuffer { buf: Vec::new() }
    }
}

impl ConnectionAcknowledgeBuffer {
    /// Sends what waits. Even if nothing waits a packet is sent, to keep the connection alive.
    pub fn flush(
        &mut self,
        state: ConnectionState,
        ack_channel_id: ChannelId<UniqueChannelId<true>>,
        resender: &mut PacketResender,
        segment_keys_counter: &mut u32,
        orders: &mut ChannelData<u32, UniqueChannelId<true>>,
        outbox: &mut Vec<Vec<u8>>,
    ) -> (r: Result<(), ConnectionError>)
        requires
            old(resender).wf(),
        ensures
            final(resender).wf(),
            (AcknowledgeOutcome {
                buf: final(self)@,
                after: SendingView {
                    resender: final(resender)@,
                    segment_keys: *final(segment_keys_counter),
                    orders: final(orders)@,
                    outbox: contents(final(outbox)@),
                    resend_keys: Seq::empty(),
                },
                result: r,
            }) == flushed(
                old(self)@,
                (SendingView {
                    resender: old(resender)@,
                    segment_keys: *old(segment_keys_counter),
                    orders: old(orders)@,
                    outbox: contents(old(outbox)@),
                    resend_keys: Seq::empty(),
                }),
                state,
                ack_channel_id.0,
            ),
    {
        let local_id = match state {
            ConnectionState::Registration { .. } => ChannelId::new(
                ACK_CHANNEL_ID_REGISTRATION_STAGE,
            ),
            ConnectionState::Transfer => ack_channel_id,
        };
        let channel = ConnectionChannel { local_id, channel: ack_channel() };
        let mut resend_keys: Vec<SlotMapKey> = Vec::new();
        let r = send_packet(
            channel,
            self.buf.as_slice(),
            state,
            resender,
            segment_keys_counter,
            orders,
            outbox,
            &mut resend_keys,
        );
        if r.is_ok() {
            self.buf.clear();
        }
        r
    }

    /// Lets the key wait to be sent, and sends what waited before if there is no more room.
    pub fn acknowledge(
        &mut self,
        key: SlotMapKey,
        state: ConnectionState,
        ack_channel_id: ChannelId<UniqueChannelId<true>>,
        resender: &mut PacketResender,
        segment_keys_counter: &mut u32,
        orders: &mut ChannelData<u32, UniqueChannelId<true>>,
        outbox: &mut Vec<Vec<u8>>,
    ) -> (r: Result<(), ConnectionError>)
        requires
            old(resender).wf(),
        ensures
            final(resender).wf(),
            (AcknowledgeOutcome {
                buf: final(self)@,
                after: SendingView {
                    resender: final(resender)@,
                    segment_keys: *final(segment_keys_counter),
                    orders: final(orders)@,
                    outbox: contents(final(outbox)@),
                    resend_keys: Seq::empty(),
                },
                result: r,
            }) == acknowledged(
                old(self)@,
                key,
                (SendingView {
                    resender: old(resender)@,
                    segment_keys: *old(segment_keys_counter),
                    orders: old(orders)@,
                    outbox: contents(old(outbox)@),
                    resend_keys: Seq::empty(),
                }),
                state,
                ack_channel_id.0,
            ),
    {
        let buf_len: usize = self.buf.len();
        let _ = key.encode(&mut self.buf);
        if self.buf.len() > MAX_NON_SEGMENTED_PAYLOAD_LEN {
            self.buf.truncate(buf_len);
            assert(self.buf@ =~= old(self)@);
            let r = self.flush(
                state,
                ack_channel_id,
                resender,
                segment_keys_counter,
                orders,
                outbox,
            );
            if r.is_ok() {
                let _ = key.encode(&mut self.buf);
                assert(self.buf@ =~= key.encoding());
            }
            return r;
        }
        Ok(())
    }

    pub fn clear(&mut self)
        ensures
            final(self)@ == Seq::<u8>::empty(),
    {
        self.buf.clear();
    }
}

/// A call of [`ConnectionAcknowledgeBuffer::acknowledge`] with a key, or of
/// [`ConnectionAcknowledgeBuffer::flush`] if there is none, with what it finds.
pub struct AcknowledgeCall {
    pub key: Option<SlotMapKey>,
    pub sending: SendingView,
    pub state: ConnectionState,
    pub ack_channel_id: u32,
}

impl AcknowledgeCall {
    pub open spec fn outcome(self, buf: Seq<u8>) -> AcknowledgeOutcome {
        match self.key {
            Some(key) => acknowledged(buf, key, self.sending, self.state, self.ack_channel_id),
            None => flushed(buf, self.sending, self.state, self.ack_channel_id),
        }
    }

    /// The packets that the call sends.
    pub open spec fn packets(self, buf: Seq<u8>) -> Seq<Seq<u8>> {
        self.outcome(buf).after.outbox.skip(self.sending.outbox.len() as int)
    }
}

/// What waits in a new buffer after these calls.
pub open spec fn waiting_bytes(calls: Seq<AcknowledgeCall>) -> Seq<u8>
    decreases calls.len(),
{
    if calls.len() == 0 {
        Seq::empty()
    } else {
        calls.last().outcome(waiting_bytes(calls.drop_last())).buf
    }
}

/// Whether all of these calls on a new buffer go well.
pub open spec fn all_succeed(calls: Seq<AcknowledgeCall>) -> bool
    decreases calls.len(),
{
    calls.len() > 0 ==> all_succeed(calls.drop_last()) && calls.last().outcome(
        waiting_bytes(calls.drop_last()),
    ).result is Ok
}

/// The packets that these calls on a new buffer send.
pub open spec fn sent_packets(calls: Seq<AcknowledgeCall>) -> Seq<Seq<u8>>
    decreases calls.len(),
{
    if calls.len() == 0 {
        Seq::empty()
    } else {
        sent_packets(calls.drop_last()) + calls.last().packets(waiting_bytes(calls.drop_last()))
    }
}

/// The keys that these calls are given.
pub open spec fn given_keys(calls: Seq<AcknowledgeCall>) -> Seq<SlotMapKey>
    decreases calls.len(),
{
    if calls.len() == 0 {
        Seq::empty()
    } else {
        match calls.last().key {
            Some(key) => given_keys(calls.drop_last()).push(key),
            None => given_keys(calls.drop_last()),
        }
    }
}

/// Keys in the batches in which they are sent, and those that wait.
pub struct Batches {
    pub sent: Seq<Seq<SlotMapKey>>,
    pub waiting: Seq<SlotMapKey>,
}

impl Batches {
    /// What waits is sent.
    pub open spec fn flush(self) -> Self {
        Batches { sent: self.sent.push(self.waiting), waiting: Seq::empty() }
    }

    /// A key is added to those that wait, which are sent first if there is no more room for it in
    /// one packet, and only then.
    pub open spec fn give(self, key: SlotMapKey) -> Self {
        let room = if keys_bytes(self.waiting).len() + key.encoding().len()
            <= MAX_NON_SEGMENTED_PAYLOAD_LEN {
            self
        } else {
            self.flush()
        };
        Batches { waiting: room.waiting.push(key), ..room }
    }
}

/// The batches into which these calls divide their keys.
pub open spec fn batches(calls: Seq<AcknowledgeCall>) -> Batches
    decreases calls.len(),
{
    if calls.len() == 0 {
        Batches { sent: Seq::empty(), waiting: Seq::empty() }
    } else {
        match calls.last().key {
            Some(key) => batches(calls.drop_last()).give(key),
            None => batches(calls.drop_last()).flush(),
        }
    }
}

/// The batches one after the other.
pub open spec fn one_after_the_other(batches: Seq<Seq<SlotMapKey>>) -> Seq<SlotMapKey>
    decreases batches.len(),
{
    if batches.len() == 0 {
        Seq::empty()
    } else {
        one_after_the_other(batches.drop_last()) + batches.last()
    }
}

/// Whether a packet acknowledges these keys.
pub open spec fn is_acknowledgement(packet: Seq<u8>, keys: Seq<SlotMapKey>) -> bool {
    exists|id: u32, key: SlotMapKey|
        packet == #[trigger] packet_bytes(id, None, None, Some(key), keys_bytes(keys))
}

/// No acknowledgement is lost, repeated or split: after any calls that go well, the packets that
/// were sent hold the keys that were given, batch by batch, and the rest of them waits, all of them
/// whole and in the order in which they were given. What waits fits in one packet, and giving a key
/// sends a packet only if there is no more room for it.
pub proof fn law_every_key_is_acknowledged(calls: Seq<AcknowledgeCall>)
    requires
        all_succeed(calls),
    ensures
        ({
            let b = batches(calls);
            &&& one_after_the_other(b.sent) + b.waiting == given_keys(calls)
            &&& waiting_bytes(calls) == keys_bytes(b.waiting)
            &&& waiting_bytes(calls).len() <= MAX_NON_SEGMENTED_PAYLOAD_LEN
            &&& sent_packets(calls).len() == b.sent.len()
            &&& forall|i: int|
                0 <= i < b.sent.len() ==> is_acknowledgement(
                    #[trigger] sent_packets(calls)[i],
                    b.sent[i],
                )
        }),
    decreases calls.len(),
{
    let b = batches(calls);
    if calls.len() == 0 {
        assert(one_after_the_other(b.sent) + b.waiting =~= given_keys(calls));
    } else {
        let earlier = calls.drop_last();
        let call = calls.last();
        law_every_key_is_acknowledged(earlier);
        let before = batches(earlier);
        let buf = waiting_bytes(earlier);
        lemma_one_after_the_other(before.sent, before.waiting);
        lemma_call(buf, before.waiting, call);
        assert(one_after_the_other(b.sent) + b.waiting =~= given_keys(calls));
        let old_packets = sent_packets(earlier);
        assert forall|i: int| 0 <= i < b.sent.len() implies is_acknowledgement(
            #[trigger] sent_packets(calls)[i],
            b.sent[i],
        ) by {
            if i < before.sent.len() {
                assert(sent_packets(calls)[i] == old_packets[i]);
            }
        }
    }
}

proof fn lemma_one_after_the_other(batches: Seq<Seq<SlotMapKey>>, last: Seq<SlotMapKey>)
    ensures
        one_after_the_other(batches.push(last)) == one_after_the_other(batches) + last,
{
    assert(batches.push(last).drop_last() =~= batches);
}

/// What one call does with what waits.
proof fn lemma_call(buf: Seq<u8>, waiting: Seq<SlotMapKey>, call: AcknowledgeCall)
    requires
        buf == keys_bytes(waiting),
        buf.len() <= MAX_NON_SEGMENTED_PAYLOAD_LEN,
        call.outcome(buf).result is Ok,
    ensures
        ({
            let fits = call.key matches Some(key) && buf.len() + key.encoding().len()
                <= MAX_NON_SEGMENTED_PAYLOAD_LEN;
            let packets = call.packets(buf);
            &&& fits ==> packets.len() == 0
            &&& !fits ==> packets.len() == 1 && is_acknowledgement(packets[0], waiting)
        }),
        call.outcome(buf).buf == keys_bytes(
            match call.key {
                Some(key) => (Batches { sent: Seq::empty(), waiting }).give(key).waiting,
                None => Seq::empty(),
            },
        ),
        call.outcome(buf).buf.len() <= MAX_NON_SEGMENTED_PAYLOAD_LEN,
{
    let id = ack_id(call.state, call.ack_channel_id);
    let next = call.sending.resender.packets.next_key();
    let packet = packet_bytes(id, None, None, Some(next), buf);
    if let Some(key) = call.key {
        key.law_round_trip(Seq::empty());
        law_keys_bytes_push(waiting, key);
        law_keys_bytes_push(Seq::empty(), key);
        assert(keys_bytes(Seq::empty().push(key)) =~= key.encoding());
    }
    assert(is_acknowledgement(packet, waiting));
    assert(call.sending.outbox.push(packet).skip(call.sending.outbox.len() as int)
        =~= seq![packet]);
}

/// The packets without those that were acknowledged.
pub open spec fn remove_all(resender: ResenderView, keys: Seq<SlotMapKey>) -> ResenderView
    decreases keys.len(),
{
    if keys.len() == 0 {
        resender
    } else {
        remove_all(resender.remove(keys[0]), keys.skip(1))
    }
}

/// The state once it is known which packets have arrived: if the one that tells that this side
/// has told its last channel is among them, then it is waited for no longer.
pub open spec fn state_acknowledged(state: ConnectionState, keys: Seq<SlotMapKey>) -> ConnectionState {
    match state {
        ConnectionState::Registration {
            received_last_packet,
            last_packet_resend_key: Some(key),
        } => if keys.contains(key) {
            ConnectionState::Registration { received_last_packet, last_packet_resend_key: None }
        } else {
            state
        },
        _ => state,
    }
}

/// Takes note of the acknowledgements in a packet.
pub fn acknowledge_locally(
    resender: &mut PacketResender,
    packet: &[u8],
    state: &mut ConnectionState,
)
    requires
        old(resender).wf(),
    ensures
        final(resender).wf(),
        final(resender)@ == remove_all(old(resender)@, parse_keys(packet@)),
        *final(state) == state_acknowledged(*old(state), parse_keys(packet@)),
{
    let ghost all = parse_keys(packet@);
    let ghost mut read: Seq<SlotMapKey> = Seq::empty();
    let mut rest: &[u8] = packet;
    let mut more = true;
    assert(read + all =~= all);
    while more
        invariant
            resender.wf(),
            all == parse_keys(packet@),
            all == read + (if more {
                parse_keys(rest@)
            } else {
                Seq::empty()
            }),
            remove_all(old(resender)@, all) == remove_all(
                resender@,
                if more {
                    parse_keys(rest@)
                } else {
                    Seq::empty()
                },
            ),
            *state == state_acknowledged(*old(state), read),
        decreases rest@.len() + if more {
            1nat
        } else {
            0
        },
    {
        let ghost input = rest@;
        proof {
            lemma_key_used(input);
        }
        match SlotMapKey::decode(&mut rest) {
            Ok(key) => {
                if let ConnectionState::Registration {
                    received_last_packet,
                    last_packet_resend_key: Some(last),
                } = *state {
                    if last == key {
                        *state =
                        ConnectionState::Registration {
                            received_last_packet,
                            last_packet_resend_key: None,
                        };
                    }
                }
                let _ = resender.remove(key);
                proof {
                    let before = read;
                    read = read.push(key);
                    assert(read.contains(key)) by {
                        assert(read[before.len() as int] == key);
                    }
                    assert forall|k: SlotMapKey| #[trigger]
                        read.contains(k) == (before.contains(k) || k == key) by {
                        if before.contains(k) {
                            let i = choose|i: int| 0 <= i < before.len() && before[i] == k;
                            assert(read[i] == k);
                        }
                    }
                    let keys = parse_keys(input);
                    assert(keys == seq![key] + parse_keys(rest@));
                    assert(keys.skip(1) =~= parse_keys(rest@));
                    assert(before + keys =~= read + parse_keys(rest@));
                }
            },
            Err(_) => {
                more = false;
                assert(read + Seq::<SlotMapKey>::empty() =~= read);
            },
        }
    }
    assert(read + Seq::<SlotMapKey>::empty() =~= read);
}

} // verus!
