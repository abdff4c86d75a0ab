//! The ghost model of a ring buffer: its slots, its two cursors and the
//! number of live elements, with the transitions that the operations perform.

use vstd::prelude::*;

verus! {

/// Reduces a position to the range of valid indices of an array of `cap`
/// slots. An array without slots has no valid index; position 0 stands in.
pub open spec fn wrap(i: nat, cap: nat) -> nat {
    if cap == 0 {
        0
    } else {
        i % cap
    }
}

/// The state of a ring buffer as mathematics.
pub struct RingState<T> {
    /// The backing array, one entry per slot, live or stale.
    pub slots: Seq<T>,
    /// The slot that the next insertion writes.
    pub head: nat,
    /// The slot that the next removal reads.
    pub tail: nat,
    /// The number of live elements.
    pub len: nat,
}

impl<T> RingState<T> {
    /// The number of slots.
    pub open spec fn cap(self) -> nat {
        self.slots.len()
    }

    /// The count is within the capacity, both cursors are valid indices
    /// (0 where there is no slot at all), and the head lies `len` slots after
    /// the tail, counted circularly.
    pub open spec fn wf(self) -> bool {
        &&& self.len <= self.cap()
        &&& self.cap() > 0 ==> self.head < self.cap() && self.tail < self.cap()
        &&& self.cap() == 0 ==> self.head == 0 && self.tail == 0
        &&& self.head == wrap(self.tail + self.len, self.cap())
    }

    /// The slot that holds the `i`-th live element, counted from the oldest.
    pub open spec fn slot_of(self, i: int) -> int {
        wrap((self.tail + i) as nat, self.cap()) as int
    }

    /// The live elements, oldest first: the `len` slots from the tail on,
    /// continuing at slot 0 after the last slot.
    pub open spec fn items(self) -> Seq<T> {
        Seq::new(self.len, |i: int| self.slots[self.slot_of(i)])
    }

    /// The window of the next `n` live elements lies in one piece of the
    /// backing array: it does not run past the last slot.
    pub open spec fn contiguous(self, n: nat) -> bool {
        self.tail + n <= self.cap()
    }

    /// The oldest live element, if there is one.
    pub open spec fn front(self) -> Option<T> {
        if self.len == 0 {
            None
        } else {
            Some(self.slots[self.tail as int])
        }
    }

    /// The state after an insertion of `item`: the item stands in the slot at
    /// the head, the head has moved on by one slot and the count is one more.
    /// A full buffer takes nothing and stays as it is.
    pub open spec fn pushed(self, item: T) -> Self {
        if self.len >= self.cap() {
            self
        } else {
            RingState {
                slots: self.slots.update(self.head as int, item),
                head: wrap(self.head + 1, self.cap()),
                tail: self.tail,
                len: self.len + 1,
            }
        }
    }

    /// The state after the `count` oldest elements have been given up: the
    /// tail has moved on by `count` slots and the count is that much less.
    /// The slots keep what they held. Meant for `count <= len`.
    pub open spec fn advanced(self, count: nat) -> Self {
        RingState {
            slots: self.slots,
            head: self.head,
            tail: wrap(self.tail + count, self.cap()),
            len: (self.len - count) as nat,
        }
    }

    /// The state after one removal. An empty buffer stays as it is.
    pub open spec fn popped(self) -> Self {
        if self.len == 0 {
            self
        } else {
            self.advanced(1)
        }
    }

    /// The state after a request to discard the `count` oldest elements: all
    /// of them go, or, where fewer are live, none.
    pub open spec fn discarded(self, count: nat) -> Self {
        if count > self.len {
            self
        } else {
            self.advanced(count)
        }
    }

    /// The number of elements that a bulk removal into `room` places takes.
    pub open spec fn readable(self, room: nat) -> nat {
        if room <= self.len {
            room
        } else {
            self.len
        }
    }

    /// The number of elements that a bulk insertion of `offered` elements
    /// stores before it runs out of elements or of free slots.
    pub open spec fn writable(self, offered: nat) -> nat {
        if self.len + offered <= self.cap() {
            offered
        } else {
            (self.cap() - self.len) as nat
        }
    }

    /// The state after the elements of `data` have been inserted one by one,
    /// in order, up to the first that finds the buffer full.
    pub open spec fn written(self, data: Seq<T>) -> Self
        decreases data.len(),
    {
        if data.len() == 0 || self.len >= self.cap() {
            self
        } else {
            self.pushed(data[0]).written(data.drop_first())
        }
    }

    /// The state after a reset: both cursors at slot 0 and no live element.
    /// The slots keep what they held.
    pub open spec fn cleared(self) -> Self {
        RingState { slots: self.slots, head: 0, tail: 0, len: 0 }
    }
}

/// A position less than twice the capacity wraps by at most one subtraction.
pub proof fn lemma_wrap_once(i: nat, cap: nat)
    requires
        cap > 0,
        i < 2 * cap,
    ensures
        wrap(i, cap) == (if i < cap {
            i
        } else {
            (i - cap) as nat
        }),
{
    if i < cap {
        vstd::arithmetic::div_mod::lemma_small_mod(i, cap);
    } else {
        let rest = (i - cap) as nat;
        vstd::arithmetic::div_mod::lemma_mod_add_multiples_vanish(rest as int, cap as int);
        vstd::arithmetic::div_mod::lemma_small_mod(rest, cap);
    }
}

/// An insertion into a buffer that is not full keeps the state well formed
/// and puts the item behind the live elements.
pub proof fn lemma_pushed<T>(st: RingState<T>, item: T)
    requires
        st.wf(),
        st.len < st.cap(),
    ensures
        st.pushed(item).wf(),
        st.pushed(item).cap() == st.cap(),
        st.pushed(item).items() == st.items().push(item),
{
    let cap = st.cap();
    let next = st.pushed(item);
    lemma_wrap_once(st.tail + st.len, cap);
    lemma_wrap_once(st.head + 1, cap);
    lemma_wrap_once(st.tail + st.len + 1, cap);
    assert forall|i: int| 0 <= i < next.len implies next.items()[i] == st.items().push(item)[i] by {
        lemma_wrap_once((st.tail + i) as nat, cap);
    }
    assert(next.items() =~= st.items().push(item));
}

/// Giving up `count` of the live elements keeps the state well formed and
/// leaves the live elements without their first `count`.
pub proof fn lemma_advanced<T>(st: RingState<T>, count: nat)
    requires
        st.wf(),
        count <= st.len,
    ensures
        st.advanced(count).wf(),
        st.advanced(count).cap() == st.cap(),
        st.advanced(count).items() == st.items().skip(count as int),
{
    let cap = st.cap();
    let next = st.advanced(count);
    if cap > 0 {
        lemma_wrap_once(st.tail + st.len, cap);
        lemma_wrap_once(st.tail + count, cap);
        lemma_wrap_once(next.tail + next.len, cap);
        assert forall|i: int| 0 <= i < next.len implies next.items()[i] == st.items().skip(
            count as int,
        )[i] by {
            lemma_wrap_once((next.tail + i) as nat, cap);
            lemma_wrap_once((st.tail + count + i) as nat, cap);
        }
    }
    assert(next.items() =~= st.items().skip(count as int));
}

/// The oldest live element stands first in the queue.
pub proof fn lemma_front<T>(st: RingState<T>)
    requires
        st.wf(),
    ensures
        st.front() == (if st.len > 0 {
            Some(st.items()[0])
        } else {
            None
        }),
{
    if st.len > 0 {
        lemma_wrap_once(st.tail, st.cap());
    }
}

/// Giving up no element changes nothing.
pub proof fn lemma_advanced_none<T>(st: RingState<T>)
    requires
        st.wf(),
    ensures
        st.advanced(0) == st,
{
    if st.cap() > 0 {
        lemma_wrap_once(st.tail, st.cap());
    }
}

/// Giving up elements in two goes is giving them up in one.
pub proof fn lemma_advanced_twice<T>(st: RingState<T>, first: nat, second: nat)
    requires
        st.wf(),
        first + second <= st.len,
    ensures
        st.advanced(first).advanced(second) == st.advanced(first + second),
{
    let cap = st.cap();
    if cap > 0 {
        lemma_wrap_once(st.tail + first, cap);
        lemma_wrap_once(st.advanced(first).tail + second, cap);
        lemma_wrap_once(st.tail + first + second, cap);
    }
}

/// A bulk insertion keeps the state well formed and puts behind the live
/// elements as many of the offered ones, from the first on, as there are
/// free slots.
pub proof fn lemma_written<T>(st: RingState<T>, data: Seq<T>)
    requires
        st.wf(),
    ensures
        st.written(data).wf(),
        st.written(data).cap() == st.cap(),
        st.written(data).tail == st.tail,
        st.written(data).len == st.len + st.writable(data.len()),
        st.written(data).items() == st.items() + data.take(st.writable(data.len()) as int),
    decreases data.len(),
{
    if data.len() == 0 || st.len >= st.cap() {
        assert(st.items() + data.take(0) =~= st.items());
    } else {
        let next = st.pushed(data[0]);
        let rest = data.drop_first();
        lemma_pushed(st, data[0]);
        lemma_written(next, rest);
        assert(st.items().push(data[0]) + rest.take(next.writable(rest.len()) as int) =~= st.items()
            + data.take(st.writable(data.len()) as int));
    }
}

/// Where the next `n` live elements lie in one piece, that piece of the
/// backing array is the first `n` elements of the queue.
pub proof fn lemma_contiguous_window<T>(st: RingState<T>, n: nat)
    requires
        st.wf(),
        n <= st.len,
        st.contiguous(n),
    ensures
        st.slots.subrange(st.tail as int, (st.tail + n) as int) == st.items().take(n as int),
{
    assert forall|i: int| 0 <= i < n implies st.slot_of(i) == st.tail + i by {
        lemma_wrap_once((st.tail + i) as nat, st.cap());
    }
    assert(st.slots.subrange(st.tail as int, (st.tail + n) as int) =~= st.items().take(n as int));
}

/// A head that lies after the tail means that the live elements do not wrap:
/// every window of live elements is in one piece.
pub proof fn lemma_head_after_tail<T>(st: RingState<T>)
    requires
        st.wf(),
        st.tail < st.head,
    ensures
        st.head == st.tail + st.len,
        st.contiguous(st.len),
{
    lemma_wrap_once(st.tail + st.len, st.cap());
}

} // verus!
