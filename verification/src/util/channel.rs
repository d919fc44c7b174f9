//! A queue that many fill and one empties.
use std::collections::VecDeque;
use vstd::prelude::*;

verus! {

/// Values that wait, in the order in which they came.
pub struct ManyToSingleChannel<T> {
    values: VecDeque<T>,
}

impl<T> View for ManyToSingleChannel<T> {
    type V = Seq<T>;

    closed spec fn view(&self) -> Seq<T> {
        self.values@
    }
}

/// How many of `waiting` values fit in a bunch that holds `len` values and may hold `capacity`.
pub open spec fn bunch_size(waiting: nat, len: nat, capacity: nat) -> nat {
    if capacity <= len {
        0
    } else if waiting <= capacity - len {
        waiting
    } else {
        (capacity - len) as nat
    }
}

impl<T> ManyToSingleChannel<T> {
    pub fn new() -> (channel: Self)
        ensures
            channel@ == Seq::<T>::empty(),
    {
        ManyToSingleChannel { values: VecDeque::new() }
    }

    pub fn is_empty(&self) -> (b: bool)
        ensures
            b == (self@.len() == 0),
    {
        self.values.len() == 0
    }

    pub fn push(&mut self, value: T)
        ensures
            final(self)@ == old(self)@.push(value),
    {
        self.values.push_back(value);
    }

    pub fn push_many(&mut self, values: Vec<T>)
        ensures
            final(self)@ == old(self)@ + values@,
    {
        let ghost all = values@;
        assert(self@ =~= old(self)@ + all.take(0));
        for value in rest: values
            invariant
                rest.seq() == all,
                self@ == old(self)@ + all.take(rest.index()),
        {
            self.values.push_back(value);
            assert(self@ =~= old(self)@ + all.take(rest.index() + 1));
        }
        assert(all.take(all.len() as int) =~= all);
    }

    /// Moves values that wait to a bunch, those that came first first, until none waits any longer
    /// or the bunch holds as many as it may.
    pub fn take_bunch(&mut self, bunch: &mut Vec<T>, capacity: usize)
        ensures
            ({
                let n = bunch_size(old(self)@.len(), old(bunch)@.len(), capacity as nat) as int;
                &&& final(bunch)@ == old(bunch)@ + old(self)@.take(n)
                &&& final(self)@ == old(self)@.skip(n)
            }),
    {
        let ghost mut n: int = 0;
        assert(bunch@ =~= old(bunch)@ + old(self)@.take(0));
        assert(self@ =~= old(self)@.skip(0));
        while bunch.len() < capacity && self.values.len() > 0
            invariant
                0 <= n <= old(self)@.len(),
                n > 0 ==> bunch@.len() <= capacity,
                bunch@ == old(bunch)@ + old(self)@.take(n),
                self@ == old(self)@.skip(n),
            decreases old(self)@.len() - n,
        {
            match self.values.pop_front() {
                Some(value) => {
                    bunch.push(value);
                },
                None => {},
            }
            proof {
                n = n + 1;
                assert(bunch@ =~= old(bunch)@ + old(self)@.take(n));
                assert(self@ =~= old(self)@.skip(n));
            }
        }
        assert(n == bunch_size(old(self)@.len(), old(bunch)@.len(), capacity as nat));
    }
}

} // verus!
