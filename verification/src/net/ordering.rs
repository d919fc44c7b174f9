//! Putting packets back into the order in which they were sent.
use vstd::arithmetic::div_mod::{lemma_fundamental_div_mod, lemma_fundamental_div_mod_converse};
use vstd::prelude::*;

verus! {

/// The order number that comes `offset` places after `start`; order numbers wrap around.
pub open spec fn order_after(start: usize, offset: int) -> usize {
    if start + offset <= usize::MAX {
        (start + offset) as usize
    } else {
        (start + offset - usize::MAX - 1) as usize
    }
}

/// How many places `order` comes after `start`.
pub open spec fn order_distance(start: usize, order: usize) -> int {
    if order >= start {
        order - start
    } else {
        order - start + usize::MAX + 1
    }
}

/// The order number that is handed out next, the packets that wait by their order numbers, and
/// how far ahead a packet may be.
#[verifier::ext_equal]
pub struct OrdererView {
    pub next: usize,
    pub pending: Map<usize, Seq<u8>>,
    pub capacity: usize,
}

/// The packets that wait from `next` on without a gap, at most `limit` of them.
pub open spec fn run(pending: Map<usize, Seq<u8>>, next: usize, limit: nat) -> Seq<Seq<u8>>
    decreases limit,
{
    if limit > 0 && pending.contains_key(next) {
        seq![pending[next]] + run(pending, order_after(next, 1), (limit - 1) as nat)
    } else {
        Seq::empty()
    }
}

impl OrdererView {
    pub open spec fn new(capacity: usize) -> Self {
        OrdererView { next: 0, pending: Map::empty(), capacity }
    }

    /// Only packets that are not too far ahead wait.
    pub open spec fn wf(self) -> bool {
        forall|order: usize| #[trigger]
            self.pending.contains_key(order) ==> order_distance(self.next, order) < self.capacity
    }

    /// Whether a packet of this order is neither behind nor too far ahead.
    pub open spec fn accepts(self, order: usize) -> bool {
        order_distance(self.next, order) < self.capacity
    }

    pub open spec fn push(self, order: usize, packet: Seq<u8>) -> Self {
        OrdererView { pending: self.pending.insert(order, packet), ..self }
    }

    /// The packet whose turn it is, if it waits, is taken out.
    pub open spec fn taken(self) -> Self {
        OrdererView { pending: self.pending.remove(self.next), ..self }
    }

    /// The turn goes to the next order.
    pub open spec fn advanced(self) -> Self {
        OrdererView { next: order_after(self.next, 1), ..self }
    }

    /// The packets that can be handed out now, in order.
    pub open spec fn ready(self) -> Seq<Seq<u8>> {
        run(self.pending, self.next, self.capacity as nat)
    }

    /// After `n` packets were handed out.
    pub open spec fn handed_out(self, n: nat) -> Self
        decreases n,
    {
        if n == 0 {
            self
        } else {
            self.handed_out((n - 1) as nat).taken().advanced()
        }
    }
}

#[derive(Debug, PartialEq, Eq, Clone, Copy, Structural)]
pub enum PacketOrdererError {
    /// Reached the maximum capacity.
    CapacityReached,
}

/// Holds packets back until those before them have been handed out.
#[derive(Debug)]
pub struct PacketOrderer {
    vec: Vec<Option<Vec<u8>>>,
    order_start: usize,
    deque_start: usize,
    capacity: usize,
}

/// The place of the `offset`-th packet in a ring of `len` places that starts at `start`.
spec fn ring_place(start: int, offset: int, len: int) -> int {
    if start + offset < len {
        start + offset
    } else {
        start + offset - len
    }
}

impl View for PacketOrderer {
    type V = OrdererView;

    closed spec fn view(&self) -> OrdererView {
        OrdererView {
            next: self.order_start,
            pending: Map::new(
                |order: usize|
                    order_distance(self.order_start, order) < self.vec@.len() && self.slot(
                        order_distance(self.order_start, order),
                    ) is Some,
                |order: usize| self.slot(order_distance(self.order_start, order)).unwrap()@,
            ),
            capacity: self.capacity,
        }
    }
}

impl PacketOrderer {
    spec fn slot(&self, offset: int) -> Option<Vec<u8>> {
        self.vec@[ring_place(self.deque_start as int, offset, self.vec@.len() as int)]
    }

    /// The ring starts within itself and is not larger than allowed.
    pub closed spec fn wf(&self) -> bool {
        &&& self.vec@.len() <= self.capacity
        &&& self.vec@.len() == 0 ==> self.deque_start == 0
        &&& self.vec@.len() > 0 ==> self.deque_start < self.vec@.len()
    }

    /// A well-formed orderer has a well-formed view.
    pub proof fn lemma_wf(&self)
        requires
            self.wf(),
        ensures
            self@.wf(),
    {
    }

    pub fn new(capacity: usize) -> (orderer: Self)
        ensures
            orderer.wf(),
            orderer@ == OrdererView::new(capacity),
    {
        let orderer = PacketOrderer {
            vec: Vec::new(),
            order_start: 0,
            deque_start: 0,
            capacity,
        };
        assert(orderer@ =~= OrdererView::new(capacity));
        orderer
    }

    /// Lets a packet wait for its turn. A packet that waits under the same order is replaced.
    pub fn push(&mut self, order: usize, packet: Vec<u8>) -> (r: Result<(), PacketOrdererError>)
        requires
            old(self).wf(),
        ensures
            final(self).wf(),
            r == (if old(self)@.accepts(order) {
                Ok(())
            } else {
                Err(PacketOrdererError::CapacityReached)
            }),
            final(self)@ == (if old(self)@.accepts(order) {
                old(self)@.push(order, packet@)
            } else {
                old(self)@
            }),
    {
        let distance: usize = order.wrapping_sub(self.order_start);
        assert(distance == order_distance(self.order_start, order));
        if distance >= self.capacity {
            return Err(PacketOrdererError::CapacityReached);
        }
        if distance >= self.vec.len() {
            self.flatten(distance + 1);
            let ghost flat = *self;
            while self.vec.len() <= distance
                invariant
                    flat.wf(),
                    flat@ == old(self)@,
                    flat.deque_start == 0,
                    self.deque_start == 0,
                    self.order_start == flat.order_start,
                    self.capacity == flat.capacity,
                    distance < self.capacity,
                    flat.vec@.len() <= self.vec@.len() <= distance + 1,
                    forall|i: int| 0 <= i < flat.vec@.len() ==> self.vec@[i] == flat.vec@[i],
                    forall|i: int| flat.vec@.len() <= i < self.vec@.len() ==> self.vec@[i] is None,
                decreases distance + 1 - self.vec@.len(),
            {
                self.vec.push(None);
            }
            assert(self@ =~= flat@);
        }
        let ghost before = *self;
        let len: usize = self.vec.len();
        let place: usize = if self.deque_start < len - distance {
            self.deque_start + distance
        } else {
            self.deque_start - (len - distance)
        };
        self.vec[place] = Some(packet);
        proof {
            let after = *self;
            assert forall|o: usize|
                order_distance(self.order_start, o) < len && o != order implies after.slot(
                order_distance(self.order_start, o),
            ) == before.slot(order_distance(self.order_start, o)) by {}
            assert(self@.pending =~= before@.pending.insert(order, packet@));
        }
        Ok(())
    }

    /// Lets the ring start at its first place.
    pub fn flatten(&mut self, new_capacity: usize)
        requires
            old(self).wf(),
        ensures
            final(self).wf(),
            final(self)@ == old(self)@,
            final(self).is_flat(),
            final(self).places() == old(self).places(),
    {
        if self.deque_start == 0 {
            return;
        }
        let ghost before = *self;
        let len: usize = self.vec.len();
        let mut new_vec: Vec<Option<Vec<u8>>> = Vec::with_capacity(new_capacity);
        let mut i: usize = 0;
        let mut place: usize = self.deque_start;
        while i < len
            invariant
                i <= len == self.vec@.len() == before.vec@.len(),
                len > 0,
                before.deque_start < len,
                self.order_start == before.order_start,
                self.capacity == before.capacity,
                i < len ==> place == ring_place(before.deque_start as int, i as int, len as int),
                new_vec@.len() == i,
                forall|k: int| 0 <= k < i ==> new_vec@[k] == before.slot(k),
                forall|k: int|
                    i <= k < len ==> #[trigger] self.vec@[ring_place(
                        before.deque_start as int,
                        k,
                        len as int,
                    )] == before.slot(k),
            decreases len - i,
        {
            let taken = self.vec[place].take();
            new_vec.push(taken);
            i += 1;
            place = if place + 1 < len {
                place + 1
            } else {
                0
            };
        }
        self.deque_start = 0;
        self.vec = new_vec;
        assert forall|k: int| 0 <= k < len implies self.slot(k) == before.slot(k) by {}
        assert(self@.pending =~= before@.pending);
    }

    pub closed spec fn is_flat(&self) -> bool {
        self.deque_start == 0
    }

    /// The number of places in the ring.
    pub closed spec fn places(&self) -> nat {
        self.vec@.len()
    }

    /// Takes out the packet whose turn it is, if it waits.
    pub fn take_current(&mut self) -> (r: Option<Vec<u8>>)
        requires
            old(self).wf(),
        ensures
            final(self).wf(),
            match r {
                Some(packet) => {
                    &&& old(self)@.pending.contains_key(old(self)@.next)
                    &&& packet@ == old(self)@.pending[old(self)@.next]
                    &&& final(self)@ == old(self)@.taken()
                    &&& final(self).can_advance()
                },
                None => !old(self)@.pending.contains_key(old(self)@.next) && final(self)@
                    == old(self)@,
            },
    {
        if self.vec.len() == 0 {
            return None;
        }
        let ghost before = *self;
        let r = self.vec[self.deque_start].take();
        proof {
            let after = *self;
            let len = self.vec@.len() as int;
            assert(order_distance(self.order_start, self.order_start) == 0);
            assert forall|o: usize|
                order_distance(self.order_start, o) < len && o != self.order_start implies after.slot(
                order_distance(self.order_start, o),
            ) == before.slot(order_distance(self.order_start, o)) by {}
            if r is Some {
                assert(self@.pending =~= before@.pending.remove(before@.next));
            } else {
                assert(self@.pending =~= before@.pending);
            }
        }
        r
    }

    /// Whether the packet whose turn it is has been taken out.
    pub closed spec fn can_advance(&self) -> bool {
        self.vec@.len() > 0 && self.vec@[self.deque_start as int] is None
    }

    /// Gives the turn to the next order.
    pub fn advance(&mut self)
        requires
            old(self).wf(),
            old(self).can_advance(),
        ensures
            final(self).wf(),
            final(self)@ == old(self)@.advanced(),
    {
        let ghost before = *self;
        self.order_start = self.order_start.wrapping_add(1);
        self.deque_start = if self.deque_start + 1 < self.vec.len() {
            self.deque_start + 1
        } else {
            0
        };
        proof {
            let len = self.vec@.len() as int;
            assert forall|o: usize| #[trigger]
                before@.pending.contains_key(o) <==> self@.pending.contains_key(o) by {
                let d = order_distance(before.order_start, o);
                if o == before.order_start {
                    assert(order_distance(self.order_start, o) == usize::MAX);
                } else {
                    assert(order_distance(self.order_start, o) == d - 1);
                    if d < len {
                        assert(self.slot(d - 1) == before.slot(d));
                    } else if d == len {
                        assert(self.slot(d - 1) == before.vec@[before.deque_start as int]);
                    }
                }
            }
            assert(self@.pending =~= before@.pending);
        }
    }

    /// Hands out the packets whose turn has come, one after the other, until `func` fails.
    ///
    /// The packet that `func` fails on is gone, but it keeps the turn.
    pub fn retain<E, F: FnMut(Vec<u8>) -> Result<(), E>>(&mut self, func: F) -> (r: Result<(), E>)
        requires
            old(self).wf(),
            forall|packet: Vec<u8>| call_requires(func, (packet,)),
        ensures
            final(self).wf(),
            match r {
                Ok(_) => {
                    &&& final(self)@ == old(self)@.handed_out(old(self)@.ready().len())
                    &&& forall|i: int|
                        0 <= i < old(self)@.ready().len() ==> took(
                            func,
                            #[trigger] old(self)@.ready()[i],
                        )
                },
                Err(e) => exists|n: nat|
                    {
                        &&& n < old(self)@.ready().len()
                        &&& final(self)@ == (#[trigger] old(self)@.handed_out(n)).taken()
                        &&& forall|i: int|
                            0 <= i < n ==> took(func, #[trigger] old(self)@.ready()[i])
                        &&& failed_on(func, old(self)@.ready()[n as int], e)
                    },
            },
    {
        let mut handler = func;
        let ghost start = self@;
        let ghost mut n: nat = 0;
        proof {
            self.lemma_wf();
        }
        loop
            invariant
                handler == func,
                forall|packet: Vec<u8>| call_requires(handler, (packet,)),
                start == old(self)@,
                start.wf(),
                self.wf(),
                n <= start.ready().len(),
                self@ == start.handed_out(n),
                forall|i: int| 0 <= i < n ==> took(func, #[trigger] start.ready()[i]),
            decreases start.ready().len() - n,
        {
            proof {
                lemma_handed_out(start, n);
            }
            match self.take_current() {
                None => {
                    return Ok(());
                },
                Some(packet) => {
                    let ghost given_packet = packet;
                    let outcome = handler(packet);
                    assert(call_ensures(func, (given_packet,), outcome));
                    match outcome {
                        Ok(_) => {
                            self.advance();
                            proof {
                                assert(took(func, start.ready()[n as int]));
                                n = n + 1;
                            }
                        },
                        Err(e) => {
                            assert(failed_on(func, start.ready()[n as int], e));
                            return Err(e);
                        },
                    }
                },
            }
        }
    }
}

/// Whether `func` may have succeeded on the packet.
pub open spec fn took<E, F: FnMut(Vec<u8>) -> Result<(), E>>(func: F, packet: Seq<u8>) -> bool {
    exists|given: Vec<u8>, outcome: Result<(), E>| #[trigger]
        call_ensures(func, (given,), outcome) && given@ == packet && outcome is Ok
}

/// Whether `func` may have failed on the packet with `error`.
pub open spec fn failed_on<E, F: FnMut(Vec<u8>) -> Result<(), E>>(
    func: F,
    packet: Seq<u8>,
    error: E,
) -> bool {
    exists|given: Vec<u8>| #[trigger]
        call_ensures(func, (given,), Err(error)) && given@ == packet
}

/// As long as not all ready packets were handed out, the next one waits; after that, none does.
pub proof fn lemma_handed_out(start: OrdererView, n: nat)
    requires
        start.wf(),
        n <= start.ready().len(),
    ensures
        start.handed_out(n).capacity == start.capacity,
        start.handed_out(n).pending.contains_key(start.handed_out(n).next) <==> n
            < start.ready().len(),
        n < start.ready().len() ==> start.handed_out(n).pending[start.handed_out(n).next]
            == start.ready()[n as int],
{
    lemma_run(start.pending, start.next, start.capacity as nat);
    lemma_handed_out_parts(start, n);
    let ready = start.ready();
    let next = order_after(start.next, n as int);
    assert(order_distance(start.next, next) == n);
    if n < ready.len() {
        assert(start.handed_out(n).pending.contains_key(next));
    } else if n == start.capacity {
        assert(!start.pending.contains_key(next));
    }
}

/// The ready packets are those that wait from the next one on up to the first gap.
pub proof fn lemma_run(pending: Map<usize, Seq<u8>>, next: usize, limit: nat)
    requires
        limit <= usize::MAX,
    ensures
        run(pending, next, limit).len() <= limit,
        forall|i: int|
            #![trigger run(pending, next, limit)[i]]
            #![trigger order_after(next, i)]
            0 <= i < run(pending, next, limit).len() ==> pending.contains_key(order_after(next, i)),
        forall|i: int|
            #![trigger run(pending, next, limit)[i]]
            #![trigger order_after(next, i)]
            0 <= i < run(pending, next, limit).len() ==> run(pending, next, limit)[i]
                == pending[order_after(next, i)],
        run(pending, next, limit).len() < limit ==> !pending.contains_key(
            order_after(next, run(pending, next, limit).len() as int),
        ),
    decreases limit,
{
    let whole = run(pending, next, limit);
    if limit > 0 && pending.contains_key(next) {
        let after = order_after(next, 1);
        let rest = run(pending, after, (limit - 1) as nat);
        lemma_run(pending, after, (limit - 1) as nat);
        assert(whole == seq![pending[next]] + rest);
        assert forall|i: int|
            #![trigger whole[i]]
            #![trigger order_after(next, i)]
            0 <= i < whole.len() implies pending.contains_key(order_after(next, i)) && whole[i]
            == pending[order_after(next, i)] by {
            if i > 0 {
                assert(whole[i] == rest[i - 1]);
                assert(order_after(after, i - 1) == order_after(next, i));
            } else {
                assert(order_after(next, 0) == next);
            }
        }
        assert(order_after(after, rest.len() as int) == order_after(next, (rest.len() + 1) as int));
    } else {
        assert(whole.len() == 0);
    }
}

/// Handing out `n` packets moves the turn by `n` and takes the packets before it out.
pub proof fn lemma_handed_out_parts(start: OrdererView, n: nat)
    requires
        n <= usize::MAX,
    ensures
        start.handed_out(n).capacity == start.capacity,
        start.handed_out(n).next == order_after(start.next, n as int),
        forall|order: usize| #[trigger]
            start.handed_out(n).pending.contains_key(order) <==> start.pending.contains_key(order)
                && order_distance(start.next, order) >= n,
        forall|order: usize| #[trigger]
            start.handed_out(n).pending.contains_key(order)
                ==> start.handed_out(n).pending[order] == start.pending[order],
    decreases n,
{
    if n > 0 {
        let m = (n - 1) as nat;
        lemma_handed_out_parts(start, m);
        let before = start.handed_out(m);
        assert(start.handed_out(n) == before.taken().advanced());
        assert(order_after(before.next, 1) == order_after(start.next, n as int));
        assert forall|order: usize| #[trigger]
            start.handed_out(n).pending.contains_key(order) <==> start.pending.contains_key(order)
                && order_distance(start.next, order) >= n by {
            assert(order == before.next <==> order_distance(start.next, order) == m);
        }
    }
}

/// The order number of the packet that is sent at `position`; order numbers start again when they
/// are used up.
pub open spec fn order_of(position: nat) -> usize {
    (position % (usize::MAX as nat + 1)) as usize
}

/// A call of [`PacketOrderer::push`], or of [`PacketOrderer::retain`] with a function that always
/// succeeds.
pub enum OrdererCall {
    Push { order: usize, packet: Seq<u8> },
    Retain,
}

/// An orderer, and all packets that it has handed out.
pub struct OrdererHistory {
    pub orderer: OrdererView,
    pub handed_out: Seq<Seq<u8>>,
}

impl OrdererHistory {
    /// The position, counted from the first packet on, that an order number stands for: the first
    /// one with this number that has not been handed out.
    pub open spec fn position(self, order: usize) -> nat {
        (self.handed_out.len() + order_distance(self.orderer.next, order)) as nat
    }
}

/// What calls on a new orderer come to.
pub open spec fn history(capacity: usize, calls: Seq<OrdererCall>) -> OrdererHistory
    decreases calls.len(),
{
    if calls.len() == 0 {
        OrdererHistory { orderer: OrdererView::new(capacity), handed_out: Seq::empty() }
    } else {
        let before = history(capacity, calls.drop_last());
        match calls.last() {
            OrdererCall::Push { order, packet } => OrdererHistory {
                orderer: if before.orderer.accepts(order) {
                    before.orderer.push(order, packet)
                } else {
                    before.orderer
                },
                ..before
            },
            OrdererCall::Retain => OrdererHistory {
                orderer: before.orderer.handed_out(before.orderer.ready().len()),
                handed_out: before.handed_out + before.orderer.ready(),
            },
        }
    }
}

/// The packet that was accepted last for a position, if any was.
pub open spec fn latest(capacity: usize, calls: Seq<OrdererCall>, position: nat) -> Option<Seq<u8>>
    decreases calls.len(),
{
    if calls.len() == 0 {
        None
    } else {
        let earlier = calls.drop_last();
        let before = history(capacity, earlier);
        match calls.last() {
            OrdererCall::Push { order, packet } => if before.orderer.accepts(order)
                && before.position(order) == position {
                Some(packet)
            } else {
                latest(capacity, earlier, position)
            },
            OrdererCall::Retain => latest(capacity, earlier, position),
        }
    }
}

/// Whatever packets are pushed in whatever order, and whenever they are asked for, those of the
/// orders 0, 1, 2 and so on are handed out in this order, each of them once and without a gap;
/// asking for them stops exactly at the first one that has not been accepted, and those behind it
/// stay. Those that can be next, as many as the orderer has room for, are accepted.
///
/// After the greatest order number they start again at 0.
pub proof fn law_handed_out_in_order(capacity: usize, calls: Seq<OrdererCall>)
    ensures
        ({
            let h = history(capacity, calls);
            let n = h.handed_out.len();
            &&& h.orderer.capacity == capacity
            &&& h.orderer.next == order_of(n)
            &&& forall|i: nat|
                i < n ==> #[trigger] latest(capacity, calls, i) == Some(h.handed_out[i as int])
            &&& forall|i: nat|
                i < n ==> was_pushed(calls, order_of(i), #[trigger] h.handed_out[i as int])
            &&& forall|p: nat|
                n <= p < n + capacity ==> #[trigger] h.orderer.accepts(order_of(p))
            &&& forall|p: nat|
                #![trigger latest(capacity, calls, p)]
                n <= p < n + capacity ==> (latest(capacity, calls, p) is Some
                    <==> h.orderer.pending.contains_key(order_of(p)))
            &&& forall|p: nat|
                #![trigger latest(capacity, calls, p)]
                n <= p < n + capacity && latest(capacity, calls, p) is Some ==> latest(
                    capacity,
                    calls,
                    p,
                ) == Some(h.orderer.pending[order_of(p)])
            &&& forall|p: nat| p >= n + capacity ==> #[trigger] latest(capacity, calls, p) is None
            &&& calls.len() > 0 && calls.last() is Retain ==> latest(capacity, calls, n) is None
        }),
{
    lemma_history(capacity, calls);
    let h = history(capacity, calls);
    let n = h.handed_out.len();
    assert forall|p: nat| n <= p < n + capacity implies #[trigger] h.orderer.accepts(
        order_of(p),
    ) by {
        lemma_order_of(n, (p - n) as nat);
    }
    assert forall|i: nat| i < n implies was_pushed(
        calls,
        order_of(i),
        #[trigger] h.handed_out[i as int],
    ) by {
        assert(latest(capacity, calls, i) == Some(h.handed_out[i as int]));
        lemma_latest_was_pushed(capacity, calls, i);
    }
}

/// As long as order numbers have not started again, positions are order numbers.
pub proof fn law_order_numbers(position: nat)
    requires
        position <= usize::MAX,
    ensures
        order_of(position) == position,
{
    lemma_fundamental_div_mod_converse(position as int, usize::MAX as int + 1, 0, position as int);
}

/// Whether a packet was pushed under an order.
pub open spec fn was_pushed(calls: Seq<OrdererCall>, order: usize, packet: Seq<u8>) -> bool {
    exists|i: int|
        0 <= i < calls.len() && #[trigger] calls[i] == (OrdererCall::Push { order, packet })
}

/// A packet that was accepted for a position was pushed under its order.
proof fn lemma_latest_was_pushed(capacity: usize, calls: Seq<OrdererCall>, position: nat)
    requires
        latest(capacity, calls, position) is Some,
    ensures
        was_pushed(calls, order_of(position), latest(capacity, calls, position).unwrap()),
    decreases calls.len(),
{
    let earlier = calls.drop_last();
    let before = history(capacity, earlier);
    let packet = latest(capacity, calls, position).unwrap();
    lemma_history(capacity, earlier);
    if calls.last() matches OrdererCall::Push { order, .. } && before.orderer.accepts(order)
        && before.position(order) == position {
        let order = order_of(position);
        lemma_order_of(before.handed_out.len(), (position - before.handed_out.len()) as nat);
        assert(calls[calls.len() - 1] == (OrdererCall::Push { order, packet }));
    } else {
        lemma_latest_was_pushed(capacity, earlier, position);
        let i = choose|i: int|
            0 <= i < earlier.len() && #[trigger] earlier[i] == (OrdererCall::Push {
                order: order_of(position),
                packet,
            });
        assert(calls[i] == earlier[i]);
    }
}

/// The order numbers of two positions that are not too far apart are as far apart as the positions.
proof fn lemma_order_of(position: nat, distance: nat)
    requires
        distance <= usize::MAX,
    ensures
        order_of(position + distance) == order_after(order_of(position), distance as int),
        order_distance(order_of(position), order_of(position + distance)) == distance,
{
    let m = usize::MAX as int + 1;
    let q = position as int / m;
    let r = position as int % m;
    lemma_fundamental_div_mod(position as int, m);
    assert(m * q == q * m) by (nonlinear_arith);
    assert((q + 1) * m == q * m + m) by (nonlinear_arith);
    if r + distance < m {
        lemma_fundamental_div_mod_converse((position + distance) as int, m, q, r + distance);
    } else {
        lemma_fundamental_div_mod_converse((position + distance) as int, m, q + 1, r + distance - m);
    }
}

/// An order comes as far after another one as it is distant from it.
proof fn lemma_distance(start: usize, order: usize)
    ensures
        0 <= order_distance(start, order) <= usize::MAX,
        order_after(start, order_distance(start, order)) == order,
{
}

/// What is known of an orderer after calls.
spec fn keeps_up(capacity: usize, calls: Seq<OrdererCall>) -> bool {
    let h = history(capacity, calls);
    let n = h.handed_out.len();
    &&& h.orderer.capacity == capacity
    &&& h.orderer.wf()
    &&& h.orderer.next == order_of(n)
    &&& forall|i: nat|
        i < n ==> #[trigger] latest(capacity, calls, i) == Some(h.handed_out[i as int])
    &&& forall|p: nat| p >= n + capacity ==> #[trigger] latest(capacity, calls, p) is None
    &&& forall|p: nat|
        #![trigger latest(capacity, calls, p)]
        n <= p < n + capacity ==> (latest(capacity, calls, p) is Some
            <==> h.orderer.pending.contains_key(order_of(p)))
    &&& forall|p: nat|
        #![trigger latest(capacity, calls, p)]
        n <= p < n + capacity && latest(capacity, calls, p) is Some ==> latest(capacity, calls, p)
            == Some(h.orderer.pending[order_of(p)])
    &&& calls.len() > 0 && calls.last() is Retain ==> latest(capacity, calls, n) is None
}

proof fn lemma_history(capacity: usize, calls: Seq<OrdererCall>)
    ensures
        keeps_up(capacity, calls),
    decreases calls.len(),
{
    if calls.len() > 0 {
        lemma_history(capacity, calls.drop_last());
        match calls.last() {
            OrdererCall::Push { order, packet } => {
                lemma_history_push(capacity, calls, order, packet);
            },
            OrdererCall::Retain => {
                lemma_history_retain(capacity, calls);
            },
        }
    }
}

proof fn lemma_history_push(
    capacity: usize,
    calls: Seq<OrdererCall>,
    order: usize,
    packet: Seq<u8>,
)
    requires
        calls.len() > 0,
        keeps_up(capacity, calls.drop_last()),
        calls.last() == (OrdererCall::Push { order, packet }),
    ensures
        keeps_up(capacity, calls),
{
    let earlier = calls.drop_last();
    let before = history(capacity, earlier);
    let h = history(capacity, calls);
    let n = h.handed_out.len();
    let position = before.position(order);
    lemma_order_of(n, (position - n) as nat);
    lemma_distance(before.orderer.next, order);
    assert(order_of(position) == order);
    assert forall|p: nat| p != position implies #[trigger] latest(capacity, calls, p) == latest(
        capacity,
        earlier,
        p,
    ) by {}
    if before.orderer.accepts(order) {
        assert forall|p: nat| n <= p < n + capacity && p != position implies #[trigger] order_of(p)
            != order_of(position) by {
            if p < position {
                lemma_order_of(p, (position - p) as nat);
                assert(order_distance(order_of(p), order_of(position)) != 0);
            } else {
                lemma_order_of(position, (p - position) as nat);
                assert(order_distance(order_of(position), order_of(p)) != 0);
            }
        }
        assert forall|p: nat| n <= p < n + capacity implies (#[trigger] latest(
            capacity,
            calls,
            p,
        ) is Some <==> h.orderer.pending.contains_key(order_of(p))) by {
            assert(latest(capacity, earlier, p) is Some <==> before.orderer.pending.contains_key(
                order_of(p),
            ));
        }
    }
}

proof fn lemma_history_retain(capacity: usize, calls: Seq<OrdererCall>)
    requires
        calls.len() > 0,
        keeps_up(capacity, calls.drop_last()),
        calls.last() is Retain,
    ensures
        keeps_up(capacity, calls),
{
    let earlier = calls.drop_last();
    let before = history(capacity, earlier);
    let h = history(capacity, calls);
    let was = before.orderer;
    let ready = was.ready();
    let m = before.handed_out.len();
    let r = ready.len();
    let n = h.handed_out.len();
    assert forall|p: nat| #[trigger] latest(capacity, calls, p) == latest(
        capacity,
        earlier,
        p,
    ) by {}
    lemma_run(was.pending, was.next, capacity as nat);
    lemma_handed_out_parts(was, r);
    lemma_order_of(m, r);
    assert forall|i: nat| i < n implies #[trigger] latest(capacity, calls, i) == Some(
        h.handed_out[i as int],
    ) by {
        assert(latest(capacity, calls, i) == latest(capacity, earlier, i));
        if i >= m {
            lemma_order_of(m, (i - m) as nat);
            assert(ready[i - m] == was.pending[order_after(was.next, i - m)]);
        }
    }
    assert(latest(capacity, calls, n) is None) by {
        assert(latest(capacity, calls, n) == latest(capacity, earlier, n));
        if r < capacity {
            assert(!was.pending.contains_key(order_of(n)));
        }
    }
    assert forall|p: nat| n <= p < n + capacity implies (#[trigger] latest(capacity, calls, p) is Some
        <==> h.orderer.pending.contains_key(order_of(p))) by {
        assert(latest(capacity, calls, p) == latest(capacity, earlier, p));
        if p < m + capacity {
            lemma_order_of(m, (p - m) as nat);
        } else if h.orderer.pending.contains_key(order_of(p)) {
            let d = order_distance(was.next, order_of(p));
            assert(r <= d < capacity);
            lemma_order_of(m, d as nat);
            lemma_order_of((m + d) as nat, (p - m - d) as nat);
        }
    }
    assert forall|p: nat|
        n <= p < n + capacity && #[trigger] latest(capacity, calls, p) is Some implies latest(
        capacity,
        calls,
        p,
    ) == Some(h.orderer.pending[order_of(p)]) by {
        assert(latest(capacity, calls, p) == latest(capacity, earlier, p));
        assert(h.orderer.pending.contains_key(order_of(p)));
    }
    assert(h.orderer.wf()) by {
        assert forall|order: usize| #[trigger] h.orderer.pending.contains_key(
            order,
        ) implies order_distance(h.orderer.next, order) < capacity by {
            let d = order_distance(was.next, order);
            assert(r <= d < capacity);
        }
    }
}

/// Whether an orderer to which these of the packets have come, in this order, has handed out those
/// from the first on up to the first that has not come, and holds the others.
pub open spec fn holds_back(
    orderer: OrdererView,
    packets: Seq<Seq<u8>>,
    arrivals: Seq<usize>,
) -> bool {
    &&& orderer.wf()
    &&& orderer.next <= packets.len()
    &&& forall|order: usize| order < orderer.next ==> #[trigger] arrivals.contains(order)
    &&& !arrivals.contains(orderer.next)
    &&& forall|order: usize| #[trigger]
        orderer.pending.contains_key(order) <==> arrivals.contains(order) && order >= orderer.next
    &&& forall|order: usize| #[trigger]
        orderer.pending.contains_key(order) ==> orderer.pending[order] == packets[order as int]
}

/// One more of the packets comes to an orderer.
pub proof fn lemma_holds_back(
    orderer: OrdererView,
    packets: Seq<Seq<u8>>,
    earlier: Seq<usize>,
    x: usize,
)
    requires
        holds_back(orderer, packets, earlier),
        packets.len() < usize::MAX,
        x < packets.len(),
        !earlier.contains(x),
        forall|i: int| 0 <= i < earlier.len() ==> (#[trigger] earlier[i] as int) < packets.len(),
        orderer.accepts(x),
    ensures
        ({
            let pushed = orderer.push(x, packets[x as int]);
            let ready = pushed.ready();
            let after = pushed.handed_out(ready.len());
            &&& after.next == orderer.next + ready.len()
            &&& after.next <= packets.len()
            &&& after.capacity == orderer.capacity
            &&& ready == packets.subrange(orderer.next as int, after.next as int)
            &&& holds_back(after, packets, earlier.push(x))
        }),
{
    let seen = earlier.push(x);
    let d = orderer.next;
    assert forall|order: usize| #[trigger]
        seen.contains(order) <==> earlier.contains(order) || order == x by {
        if earlier.contains(order) {
            let k = choose|k: int| 0 <= k < earlier.len() && earlier[k] == order;
            assert(seen[k] == order);
        }
        assert(seen[earlier.len() as int] == x);
    }
    assert(x >= d);
    let pushed = orderer.push(x, packets[x as int]);
    let ready = pushed.ready();
    let r = ready.len();
    lemma_run(pushed.pending, d, pushed.capacity as nat);
    assert forall|order: usize| #[trigger] pushed.pending.contains_key(order) implies (order as int)
        < packets.len() by {
        if order != x {
            assert(earlier.contains(order));
            let k = choose|k: int| 0 <= k < earlier.len() && earlier[k] == order;
        }
    }
    assert(d + r <= packets.len()) by {
        if r > 0 {
            assert(pushed.pending.contains_key(order_after(d, r - 1)));
        }
    }
    lemma_handed_out_parts(pushed, r);
    let next = order_after(d, r as int);
    assert(next == d + r);
    assert forall|i: int| 0 <= i < r implies ready[i] == packets[d + i] by {
        assert(order_after(d, i) == d + i);
    }
    assert(ready =~= packets.subrange(d as int, next as int));
    assert forall|order: usize| order < next implies #[trigger] seen.contains(order) by {
        if order >= d {
            assert(pushed.pending.contains_key(order_after(d, order - d)));
        }
    }
    if r == pushed.capacity {
        assert(order_distance(d, next) == r);
    }
    assert(!pushed.pending.contains_key(next));
}

} // verus!
