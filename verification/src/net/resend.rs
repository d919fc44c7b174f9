//! Sending packets again until they are acknowledged.
use crate::util::non_zero::NonZeroU32;
use crate::util::bytes::{contents, copy_bytes};
use crate::util::slot_map::{emptied, lemma_present_rank, present, SlotMap, SlotMapKey, SlotMapView};
use vstd::prelude::*;

verus! {

/// A packet that may have to be sent again: after how many units of time, how many times still,
/// and how much time has passed since it was sent last.
pub struct PacketView {
    pub payload: Seq<u8>,
    pub resend_interval: u32,
    pub resend_attempts: u32,
    pub current_time: u32,
}

impl PacketView {
    /// Whether the packet's time is up when `delta` more has passed.
    pub open spec fn elapsed(self, delta: u32) -> bool {
        self.current_time + delta >= self.resend_interval
    }

    /// Whether the packet is sent again when `delta` more has passed.
    pub open spec fn due(self, delta: u32) -> bool {
        self.elapsed(delta) && self.resend_attempts != 0
    }

    /// The packet after `delta` more has passed, unless that was its last attempt.
    pub open spec fn aged(self, delta: u32) -> Option<PacketView> {
        if !self.elapsed(delta) {
            Some(PacketView { current_time: (self.current_time + delta) as u32, ..self })
        } else if self.resend_attempts <= 1 {
            None
        } else {
            Some(
                PacketView {
                    current_time: 0,
                    resend_attempts: (self.resend_attempts - 1) as u32,
                    ..self
                },
            )
        }
    }
}

/// The slots after `delta` more has passed.
pub open spec fn aged_slots(values: Seq<Option<PacketView>>, delta: u32) -> Seq<
    Option<PacketView>,
> {
    values.map_values(
        |slot: Option<PacketView>|
            match slot {
                Some(packet) => packet.aged(delta),
                None => None,
            },
    )
}

/// What is sent again, out of these packets, when `delta` more has passed.
pub open spec fn due_payloads(packets: Seq<PacketView>, delta: u32) -> Seq<Seq<u8>> {
    packets.filter(|packet: PacketView| packet.due(delta)).map_values(
        |packet: PacketView| packet.payload,
    )
}

/// The packets that wait for their acknowledgement, and how many there may be.
#[verifier::ext_equal]
pub struct ResenderView {
    pub packets: SlotMapView<PacketView>,
    pub capacity: usize,
}

impl ResenderView {
    pub open spec fn empty() -> Self {
        ResenderView { packets: SlotMapView::empty(), capacity: 0 }
    }

    pub open spec fn wf(self) -> bool {
        self.packets.wf()
    }

    /// Whether no packet can be added: there are as many as there may be, or there is no key left.
    pub open spec fn full(self) -> bool {
        self.packets.len() == self.capacity || !self.packets.has_next_key()
    }

    pub open spec fn add(self, packet: PacketView) -> Self {
        ResenderView { packets: self.packets.add(Some(packet)), ..self }
    }

    pub open spec fn remove(self, key: SlotMapKey) -> Self {
        ResenderView { packets: self.packets.remove(key), ..self }
    }

    pub open spec fn clear(self) -> Self {
        ResenderView { packets: self.packets.clear(), ..self }
    }

    /// After `delta` more has passed.
    pub open spec fn aged(self, delta: u32) -> Self {
        ResenderView {
            packets: self.packets.replaced(aged_slots(self.packets.values, delta)),
            ..self
        }
    }

    /// What is sent again when `delta` more has passed, in the slots' order.
    pub open spec fn due(self, delta: u32) -> Seq<Seq<u8>> {
        due_payloads(present(self.packets.values, self.packets.values.len()), delta)
    }
}

#[derive(Debug)]
pub struct ReliableBufferedPacket {
    pub payload: Vec<u8>,
    pub resend_interval: u32,
    pub resend_attempts: u32,
    pub current_time: u32,
}

impl View for ReliableBufferedPacket {
    type V = PacketView;

    open spec fn view(&self) -> PacketView {
        PacketView {
            payload: self.payload@,
            resend_interval: self.resend_interval,
            resend_attempts: self.resend_attempts,
            current_time: self.current_time,
        }
    }
}

impl ReliableBufferedPacket {
    pub fn new(payload: Vec<u8>, resend_interval: NonZeroU32, resend_attempts: u32) -> (packet:
        Self)
        ensures
            packet@ == (PacketView {
                payload: payload@,
                resend_interval: resend_interval@,
                resend_attempts,
                current_time: 0,
            }),
            packet.payload == payload,
    {
        ReliableBufferedPacket {
            payload,
            resend_interval: resend_interval.get(),
            resend_attempts,
            current_time: 0,
        }
    }
}

impl ReliableBufferedPacket {
    fn is_elapsed(&self, delta: u32) -> (b: bool)
        ensures
            b == self@.elapsed(delta),
    {
        self.current_time as u64 + delta as u64 >= self.resend_interval as u64
    }

    /// Lets `delta` pass, and tells whether the packet is to be dropped.
    fn age(&mut self, delta: u32) -> (drop: bool)
        ensures
            drop == (old(self)@.aged(delta) is None),
            !drop ==> Some(final(self)@) == old(self)@.aged(delta),
    {
        if self.is_elapsed(delta) {
            self.current_time = 0;
            if self.resend_attempts != 0 {
                self.resend_attempts = self.resend_attempts - 1;
            }
            self.resend_attempts == 0
        } else {
            self.current_time = self.current_time + delta;
            false
        }
    }
}

#[derive(Debug, PartialEq, Eq, Clone, Copy, Structural)]
pub enum PacketResenderError {
    /// Reached the maximum capacity.
    CapacityReached,
}

/// Keeps packets until they are acknowledged or their attempts are used up.
pub struct PacketResender {
    packets: SlotMap<ReliableBufferedPacket>,
    capacity: usize,
}

/// A slot's packet, in plain values.
pub open spec fn slot_view(slot: Option<ReliableBufferedPacket>) -> Option<PacketView> {
    match slot {
        Some(packet) => Some(packet@),
        None => None,
    }
}

/// The slots' packets, in plain values.
pub open spec fn slots_view(slots: SlotMapView<ReliableBufferedPacket>) -> SlotMapView<PacketView> {
    SlotMapView {
        values: slots.values.map_values(|slot: Option<ReliableBufferedPacket>| slot_view(slot)),
        generations: slots.generations,
        free: slots.free,
    }
}

impl View for PacketResender {
    type V = ResenderView;

    closed spec fn view(&self) -> ResenderView {
        ResenderView { packets: slots_view(self.slots()), capacity: self.capacity }
    }
}

impl Default for PacketResender {
    fn default() -> (resender: Self)
        ensures
            resender.wf(),
            resender@ == ResenderView::empty(),
    {
        let resender = PacketResender { packets: SlotMap::new(), capacity: 0 };
        assert(resender@ =~= ResenderView::empty());
        resender
    }
}

/// What the plain values say of the slots is so.
proof fn lemma_slots_view(slots: SlotMapView<ReliableBufferedPacket>)
    ensures
        slots_view(slots).wf() == slots.wf(),
        slots_view(slots).len() == slots.len(),
        slots_view(slots).has_next_key() == slots.has_next_key(),
        slots_view(slots).next_key() == slots.next_key(),
{
    let v = slots_view(slots);
    assert forall|i: int| 0 <= i < slots.values.len() implies (#[trigger] v.values[i] is None)
        == (slots.values[i] is None) by {}
    if slots.wf() {
        assert(v.wf());
    }
    if v.wf() {
        assert forall|i: int| 0 <= i < slots.free.len() implies (#[trigger] slots.free[i] as int)
            < slots.values.len() && slots.values[slots.free[i] as int] is None by {
            assert((v.free[i] as int) < v.values.len());
            assert(v.values[v.free[i] as int] is None);
        }
        assert(slots.wf());
    }
}

/// The packets that are there are the same, be they seen in plain values or not.
proof fn lemma_present_view(
    a: Seq<Option<ReliableBufferedPacket>>,
    v: Seq<Option<PacketView>>,
    n: nat,
)
    requires
        n <= a.len() == v.len(),
        forall|i: int| 0 <= i < a.len() ==> #[trigger] v[i] == slot_view(a[i]),
    ensures
        present(a, n).len() == present(v, n).len(),
        forall|k: int|
            0 <= k < present(v, n).len() ==> #[trigger] present(v, n)[k] == present(a, n)[k]@,
    decreases n,
{
    if n > 0 {
        lemma_present_view(a, v, (n - 1) as nat);
        assert(v[n - 1] == slot_view(a[n - 1]));
    }
}

proof fn lemma_due_step(packets: Seq<PacketView>, delta: u32, n: nat)
    requires
        n <= packets.len(),
    ensures
        n == 0 ==> due_payloads(packets.take(n as int), delta) == Seq::<Seq<u8>>::empty(),
        n > 0 ==> due_payloads(packets.take(n as int), delta) == (if packets[n - 1].due(delta) {
            due_payloads(packets.take(n - 1), delta).push(packets[n - 1].payload)
        } else {
            due_payloads(packets.take(n - 1), delta)
        }),
{
    reveal(Seq::filter);
    if n > 0 {
        assert(packets.take(n as int).drop_last() =~= packets.take(n - 1));
        let rest = packets.take(n - 1).filter(|packet: PacketView| packet.due(delta));
        assert(rest.push(packets[n - 1]).map_values(|packet: PacketView| packet.payload)
            =~= rest.map_values(|packet: PacketView| packet.payload).push(packets[n - 1].payload));
    }
    assert(n == 0 ==> due_payloads(packets.take(n as int), delta) =~= Seq::<Seq<u8>>::empty());
}

/// Replacing the slots' packets frees the same slots, be they seen in plain values or not.
proof fn lemma_emptied_view(
    a: Seq<Option<ReliableBufferedPacket>>,
    b: Seq<Option<ReliableBufferedPacket>>,
    va: Seq<Option<PacketView>>,
    vb: Seq<Option<PacketView>>,
    n: nat,
)
    requires
        n <= a.len() == b.len() == va.len() == vb.len(),
        forall|i: int| 0 <= i < a.len() ==> (#[trigger] a[i] is Some) == (va[i] is Some),
        forall|i: int| 0 <= i < b.len() ==> (#[trigger] b[i] is Some) == (vb[i] is Some),
    ensures
        emptied(a, b, n) == emptied(va, vb, n),
    decreases n,
{
    if n > 0 {
        lemma_emptied_view(a, b, va, vb, (n - 1) as nat);
        assert((a[n - 1] is Some) == (va[n - 1] is Some));
        assert((b[n - 1] is Some) == (vb[n - 1] is Some));
    }
}

impl PacketResender {
    /// The packets in their slots.
    pub closed spec fn slots(&self) -> SlotMapView<ReliableBufferedPacket> {
        self.packets@
    }

    pub closed spec fn wf(&self) -> bool {
        self.packets@.wf()
    }

    /// A well-formed resender has a well-formed view, and the view shows its slots.
    pub proof fn lemma_wf(&self)
        requires
            self.wf(),
        ensures
            self@.wf(),
            self.slots().wf(),
            self@.packets == slots_view(self.slots()),
    {
        lemma_slots_view(self.slots());
    }

    pub fn mut_capacity(&mut self) -> (capacity: &mut usize)
        ensures
            *capacity == old(self)@.capacity,
            final(self)@ == (ResenderView { capacity: *final(capacity), ..old(self)@ }),
            old(self).wf() ==> final(self).wf(),
    {
        &mut self.capacity
    }

    /// Adds the packet that `func` makes of its key.
    pub fn add<F: FnOnce(SlotMapKey) -> ReliableBufferedPacket>(&mut self, func: F) -> (r: Result<
        SlotMapKey,
        PacketResenderError,
    >)
        requires
            old(self).wf(),
            !old(self)@.full() ==> call_requires(func, (old(self)@.packets.next_key(),)),
        ensures
            final(self).wf(),
            match r {
                Ok(key) => {
                    &&& !old(self)@.full()
                    &&& key == old(self)@.packets.next_key()
                    &&& exists|packet: ReliableBufferedPacket| #[trigger]
                        call_ensures(func, (key,), packet) && final(self)@ == old(self)@.add(
                            packet@,
                        ) && final(self).slots().get(key) == Some(packet)
                },
                Err(e) => {
                    &&& old(self)@.full()
                    &&& e == PacketResenderError::CapacityReached
                    &&& final(self)@ == old(self)@
                },
            },
    {
        proof {
            lemma_slots_view(self.slots());
        }
        if self.packets.len() == self.capacity || !self.packets.has_next_key() {
            return Err(PacketResenderError::CapacityReached);
        }
        let ghost before = self.packets@;
        let make = |key: SlotMapKey| -> (slot: Option<ReliableBufferedPacket>)
            requires
                call_requires(func, (key,)),
            ensures
                slot matches Some(packet) && call_ensures(func, (key,), packet)
            { Some(func(key)) };
        let key = self.packets.add(make);
        proof {
            let slot = choose|slot: Option<ReliableBufferedPacket>|
                self.packets@ == #[trigger] before.add(slot) && slot is Some && call_ensures(
                    func,
                    (key,),
                    slot.unwrap(),
                );
            let packet = slot.unwrap();
            assert(call_ensures(func, (key,), packet));
            assert(self@ =~= old(self)@.add(packet@));
        }
        Ok(key)
    }

    /// Lets `delta` pass; what has to be sent again is handed out, and the packets whose last
    /// attempt that was are dropped.
    pub fn update(&mut self, delta: u32) -> (due: Vec<Vec<u8>>)
        requires
            old(self).wf(),
        ensures
            final(self).wf(),
            contents(due@) == old(self)@.due(delta),
            final(self)@ == old(self)@.aged(delta),
    {
        let ghost before = self.packets@;
        let ghost values = self@.packets.values;
        let ghost packets = present(values, values.len());
        let mut due: Vec<Vec<u8>> = Vec::new();
        let all = self.packets.iter();
        let mut i: usize = 0;
        proof {
            lemma_present_view(before.values, values, values.len());
            lemma_due_step(packets, delta, 0);
            assert(contents(due@) =~= due_payloads(packets.take(0), delta));
        }
        while i < all.len()
            invariant
                i <= all@.len() == packets.len(),
                forall|k: int| 0 <= k < packets.len() ==> (#[trigger] all@[k])@ == packets[k],
                contents(due@) == due_payloads(packets.take(i as int), delta),
            decreases all@.len() - i,
        {
            let packet = all[i];
            let ghost so_far = contents(due@);
            proof {
                lemma_due_step(packets, delta, (i + 1) as nat);
            }
            if packet.is_elapsed(delta) && packet.resend_attempts != 0 {
                let copy = copy_bytes(packet.payload.as_slice());
                due.push(copy);
                assert(contents(due@) =~= so_far.push(packets[i as int].payload));
            }
            i += 1;
        }
        assert(packets.take(i as int) =~= packets);
        self.packets.retain_if(
            |packet: &mut ReliableBufferedPacket| -> (drop: bool)
                ensures
                    drop == (old(packet)@.aged(delta) is None),
                    !drop ==> Some(final(packet)@) == old(packet)@.aged(delta)
                { packet.age(delta) }
        );
        proof {
            let after = self.packets@;
            assert forall|k: int| 0 <= k < after.values.len() implies slot_view(
                #[trigger] after.values[k],
            ) == aged_slots(values, delta)[k] by {
                assert(values[k] == slot_view(before.values[k]));
            }
            assert(self@.packets.values =~= aged_slots(values, delta));
            lemma_emptied_view(
                before.values,
                after.values,
                values,
                aged_slots(values, delta),
                values.len(),
            );
            assert(self@ =~= old(self)@.aged(delta));
        }
        due
    }

    pub fn remove(&mut self, id: SlotMapKey) -> (r: Option<ReliableBufferedPacket>)
        requires
            old(self).wf(),
        ensures
            final(self).wf(),
            slot_view(r) == old(self)@.packets.get(id),
            final(self)@ == old(self)@.remove(id),
    {
        let r = self.packets.remove(id);
        assert(self@ =~= old(self)@.remove(id));
        r
    }

    pub fn map(&self) -> (map: &SlotMap<ReliableBufferedPacket>)
        ensures
            map@ == self.slots(),
    {
        &self.packets
    }

    pub fn map_mut(&mut self) -> (map: &mut SlotMap<ReliableBufferedPacket>)
        ensures
            map@ == old(self).slots(),
            final(self).slots() == final(map)@,
            final(self)@ == (ResenderView { packets: slots_view(final(map)@), ..old(self)@ }),
            final(map)@.wf() ==> final(self).wf(),
    {
        &mut self.packets
    }
}

/// How often a packet is sent again while time passes in these steps.
pub open spec fn times_resent(packet: PacketView, deltas: Seq<u32>) -> nat
    decreases deltas.len(),
{
    if deltas.len() == 0 {
        0
    } else {
        (if packet.due(deltas[0]) {
            1nat
        } else {
            0
        }) + match packet.aged(deltas[0]) {
            Some(aged) => times_resent(aged, deltas.skip(1)),
            None => 0,
        }
    }
}

/// A packet is never sent again more often than it has attempts; one without attempts is not sent
/// again at all.
pub proof fn law_resent_at_most(packet: PacketView, deltas: Seq<u32>)
    ensures
        times_resent(packet, deltas) <= packet.resend_attempts,
    decreases deltas.len(),
{
    if deltas.len() > 0 {
        if let Some(aged) = packet.aged(deltas[0]) {
            law_resent_at_most(aged, deltas.skip(1));
        }
    }
}

/// A packet that is not acknowledged is sent again as often as it has attempts, if its time is up
/// that often.
pub proof fn law_resent_exactly(packet: PacketView, deltas: Seq<u32>)
    requires
        packet.resend_attempts <= deltas.len(),
        forall|i: int| 0 <= i < deltas.len() ==> #[trigger] deltas[i] >= packet.resend_interval,
    ensures
        times_resent(packet, deltas) == packet.resend_attempts,
    decreases deltas.len(),
{
    law_resent_at_most(packet, deltas);
    if deltas.len() > 0 && packet.resend_attempts > 0 {
        assert(deltas[0] >= packet.resend_interval);
        if let Some(aged) = packet.aged(deltas[0]) {
            assert forall|i: int| 0 <= i < deltas.skip(1).len() implies #[trigger] deltas.skip(1)[i]
                >= aged.resend_interval by {
                assert(deltas.skip(1)[i] == deltas[i + 1]);
            }
            law_resent_exactly(aged, deltas.skip(1));
        }
    }
}

/// What is sent again is what packets hold that are kept and whose time is up, and all of it.
pub proof fn law_due_is_kept(resender: ResenderView, delta: u32, payload: Seq<u8>)
    requires
        resender.wf(),
    ensures
        resender.due(delta).contains(payload) <==> exists|i: int|
            {
                &&& 0 <= i < resender.packets.values.len()
                &&& (#[trigger] resender.packets.values[i]) matches Some(packet)
                &&& packet.due(delta)
                &&& packet.payload == payload
            },
{
    let values = resender.packets.values;
    let packets = present(values, values.len());
    let due = |packet: PacketView| packet.due(delta);
    let chosen = packets.filter(due);
    if resender.due(delta).contains(payload) {
        let k = choose|k: int|
            0 <= k < resender.due(delta).len() && resender.due(delta)[k] == payload;
        let packet = chosen[k];
        packets.lemma_filter_pred(due, k);
        assert(chosen.contains(packet));
        packets.lemma_filter_contains_rev(due, packet);
        let m = choose|m: int| 0 <= m < packets.len() && packets[m] == packet;
        let i = lemma_present_from(values, values.len(), m);
        assert(values[i] == Some(packet));
    }
    if exists|i: int|
        {
            &&& 0 <= i < values.len()
            &&& (#[trigger] values[i]) matches Some(packet)
            &&& packet.due(delta)
            &&& packet.payload == payload
        } {
        let i = choose|i: int|
            {
                &&& 0 <= i < values.len()
                &&& (#[trigger] values[i]) matches Some(packet)
                &&& packet.due(delta)
                &&& packet.payload == payload
            };
        let packet = values[i].unwrap();
        lemma_present_rank(values, i as nat, values.len());
        packets.lemma_filter_contains(due, present(values, i as nat).len() as int);
        assert(chosen.contains(packet));
        let k = choose|k: int| 0 <= k < chosen.len() && chosen[k] == packet;
        assert(resender.due(delta)[k] == payload);
    }
}

/// The slot that a value that is there comes from.
proof fn lemma_present_from<T>(values: Seq<Option<T>>, n: nat, m: int) -> (i: int)
    requires
        n <= values.len(),
        0 <= m < present(values, n).len(),
    ensures
        0 <= i < n,
        values[i] == Some(present(values, n)[m]),
    decreases n,
{
    match values[n - 1] {
        Some(v) => if m == present(values, (n - 1) as nat).len() {
            n - 1
        } else {
            lemma_present_from(values, (n - 1) as nat, m)
        },
        None => lemma_present_from(values, (n - 1) as nat, m),
    }
}

/// How much time passes in these steps altogether.
pub open spec fn elapsed_time(deltas: Seq<u32>) -> nat
    decreases deltas.len(),
{
    if deltas.len() == 0 {
        0
    } else {
        elapsed_time(deltas.drop_last()) + deltas.last() as nat
    }
}

/// What becomes of a packet while time passes in these steps.
pub open spec fn passed(packet: PacketView, deltas: Seq<u32>) -> Option<PacketView>
    decreases deltas.len(),
{
    if deltas.len() == 0 {
        Some(packet)
    } else {
        match passed(packet, deltas.drop_last()) {
            Some(p) => p.aged(deltas.last()),
            None => None,
        }
    }
}

/// Time adds up. A packet waits, otherwise unchanged, as long as the steps that have passed since it
/// was sent last do not reach its interval together, and is not sent again meanwhile. At the step
/// at which they do it is sent again if it has an attempt left; then it has one less and waits from
/// the beginning, unless that was the last one, upon which it is dropped.
pub proof fn law_time_adds_up(packet: PacketView, deltas: Seq<u32>)
    requires
        deltas.len() > 0,
        forall|k: int|
            1 <= k < deltas.len() ==> packet.current_time + elapsed_time(#[trigger] deltas.take(k))
                < packet.resend_interval,
    ensures
        forall|k: int|
            0 <= k < deltas.len() ==> #[trigger] passed(packet, deltas.take(k)) == Some(
                PacketView {
                    current_time: (packet.current_time + elapsed_time(deltas.take(k))) as u32,
                    ..packet
                },
            ),
        forall|k: int|
            0 <= k < deltas.len() - 1 ==> !(#[trigger] passed(
                packet,
                deltas.take(k),
            )).unwrap().due(deltas[k]),
        ({
            let before = passed(packet, deltas.drop_last()).unwrap();
            let total = packet.current_time + elapsed_time(deltas);
            if total < packet.resend_interval {
                &&& !before.due(deltas.last())
                &&& passed(packet, deltas) == Some(
                    PacketView { current_time: total as u32, ..packet },
                )
            } else if packet.resend_attempts == 0 {
                &&& !before.due(deltas.last())
                &&& passed(packet, deltas) is None
            } else if packet.resend_attempts == 1 {
                &&& before.due(deltas.last())
                &&& passed(packet, deltas) is None
            } else {
                &&& before.due(deltas.last())
                &&& passed(packet, deltas) == Some(
                    PacketView {
                        current_time: 0,
                        resend_attempts: (packet.resend_attempts - 1) as u32,
                        ..packet
                    },
                )
            }
        }),
    decreases deltas.len(),
{
    let n = deltas.len() as int;
    let earlier = deltas.drop_last();
    assert(deltas.take(n - 1) =~= earlier);
    assert(deltas.take(0) =~= Seq::empty());
    if earlier.len() > 0 {
        assert forall|k: int| 1 <= k < earlier.len() implies packet.current_time + elapsed_time(
            #[trigger] earlier.take(k),
        ) < packet.resend_interval by {
            assert(earlier.take(k) =~= deltas.take(k));
        }
        law_time_adds_up(packet, earlier);
        assert(packet.current_time + elapsed_time(deltas.take(n - 1)) < packet.resend_interval);
        assert forall|k: int| 0 <= k < n implies #[trigger] passed(packet, deltas.take(k)) == Some(
            PacketView {
                current_time: (packet.current_time + elapsed_time(deltas.take(k))) as u32,
                ..packet
            },
        ) by {
            if k < n - 1 {
                assert(earlier.take(k) =~= deltas.take(k));
            }
        }
        assert forall|k: int| 0 <= k < n - 1 implies !(#[trigger] passed(
            packet,
            deltas.take(k),
        )).unwrap().due(deltas[k]) by {
            if k < n - 2 {
                assert(earlier.take(k) =~= deltas.take(k));
                assert(earlier[k] == deltas[k]);
            } else {
                assert(deltas.take(k) =~= earlier.drop_last());
                assert(earlier.last() == deltas[k]);
            }
        }
    } else {
        assert(passed(packet, earlier) == Some(packet));
        assert(PacketView { current_time: packet.current_time, ..packet } == packet);
    }
}

/// Time passes for every packet that is kept, and for each of them alike: what a key names after it
/// is what becomes of the packet alone, no other key is named, and the room stays the same.
pub proof fn law_time_passes_for_every_packet(resender: ResenderView, delta: u32, key: SlotMapKey)
    requires
        resender.wf(),
    ensures
        resender.aged(delta).packets.get(key) == (match resender.packets.get(key) {
            Some(packet) => passed(packet, seq![delta]),
            None => None,
        }),
        resender.aged(delta).capacity == resender.capacity,
        resender.aged(delta).packets.generations == resender.packets.generations,
{
    if let Some(packet) = resender.packets.get(key) {
        let one = seq![delta];
        assert(one.drop_last() =~= Seq::empty());
        assert(passed(packet, one.drop_last()) == Some(packet));
        assert(one.last() == delta);
    }
}

/// Whether these are the slots of the packets whose time is up, in ascending order.
pub open spec fn are_due_slots(values: Seq<Option<PacketView>>, n: nat, delta: u32, slots: Seq<int>) -> bool {
    &&& forall|a: int, b: int| 0 <= a < b < slots.len() ==> slots[a] < slots[b]
    &&& forall|a: int| 0 <= a < slots.len() ==> 0 <= #[trigger] slots[a] < n
    &&& forall|i: int|
        0 <= i < n ==> (slots.contains(i) <==> ((#[trigger] values[i]) matches Some(packet)
            && packet.current_time + delta >= packet.resend_interval && packet.resend_attempts > 0))
}

/// What is sent again is the payload of each packet that is kept and whose time is up with an
/// attempt left, each once, in the order of the slots.
pub proof fn law_due_in_slot_order(resender: ResenderView, delta: u32) -> (slots: Seq<int>)
    ensures
        are_due_slots(
            resender.packets.values,
            resender.packets.values.len(),
            delta,
            slots,
        ),
        resender.due(delta).len() == slots.len(),
        forall|k: int|
            0 <= k < slots.len() ==> #[trigger] resender.due(delta)[k]
                == resender.packets.values[slots[k]].unwrap().payload,
{
    let values = resender.packets.values;
    let n = values.len();
    let slots = lemma_due_slots(values, n, delta);
    let packets = present(values, n);
    assert(packets.take(packets.len() as int) =~= packets);
    slots
}

proof fn lemma_due_slots(values: Seq<Option<PacketView>>, n: nat, delta: u32) -> (slots: Seq<int>)
    requires
        n <= values.len(),
    ensures
        are_due_slots(values, n, delta, slots),
        due_payloads(present(values, n), delta).len() == slots.len(),
        forall|k: int|
            0 <= k < slots.len() ==> #[trigger] due_payloads(present(values, n), delta)[k]
                == values[slots[k]].unwrap().payload,
    decreases n,
{
    let packets = present(values, n);
    lemma_due_step(packets, delta, packets.len());
    assert(packets.take(packets.len() as int) =~= packets);
    if n == 0 {
        Seq::empty()
    } else {
        let m = (n - 1) as nat;
        let rest = lemma_due_slots(values, m, delta);
        let earlier = present(values, m);
        match values[m as int] {
            None => rest,
            Some(packet) => {
                assert(packets.take(packets.len() - 1) =~= earlier);
                if packet.current_time + delta >= packet.resend_interval
                    && packet.resend_attempts > 0 {
                    let slots = rest.push(m as int);
                    assert forall|i: int| 0 <= i < n implies (slots.contains(i) <==> ((
                    #[trigger] values[i]) matches Some(p) && p.current_time + delta
                        >= p.resend_interval && p.resend_attempts > 0)) by {
                        if rest.contains(i) {
                            let k = choose|k: int| 0 <= k < rest.len() && rest[k] == i;
                            assert(slots[k] == i);
                        }
                        assert(slots[rest.len() as int] == m as int);
                    }
                    slots
                } else {
                    assert(!rest.contains(m as int)) by {
                        if rest.contains(m as int) {
                            let k = choose|k: int| 0 <= k < rest.len() && rest[k] == m as int;
                        }
                    }
                    rest
                }
            },
        }
    }
}

/// A packet can be kept exactly as long as there are not as many as there may be and a key is left;
/// there is one as long as neither slots nor generations are used up.
pub proof fn law_room_for_packets(resender: ResenderView)
    requires
        resender.wf(),
    ensures
        resender.packets.len() == resender.capacity ==> resender.full(),
        resender.packets.len() != resender.capacity && resender.packets.generations.len()
            < u32::MAX && (forall|i: int|
            0 <= i < resender.packets.generations.len()
                ==> #[trigger] resender.packets.generations[i] < u32::MAX) ==> !resender.full(),
{
    if resender.packets.free.len() > 0 {
        assert((resender.packets.free[resender.packets.free.len() - 1] as int)
            < resender.packets.values.len());
    }
}

} // verus!
