//! The ring buffer itself: a fixed array, two cursors and a count.

use vstd::prelude::*;
use crate::error::RingBufferError;
use crate::state::{
    lemma_advanced, lemma_advanced_none, lemma_advanced_twice, lemma_contiguous_window,
    lemma_front, lemma_head_after_tail, lemma_pushed, lemma_wrap_once, lemma_written,
    RingState,
};

verus! {

/// A first-in, first-out queue of at most `S` elements, kept in an array of
/// `S` slots that is allocated once and never resized.
pub struct RingBuffer<T, const S: usize> where T: Default + Copy {
    buffer: [T; S],
    head: usize,
    tail: usize,
    len: usize,
}

impl<T, const S: usize> View for RingBuffer<T, S> where T: Default + Copy {
    type V = Seq<T>;

    /// The live elements, oldest first.
    open spec fn view(&self) -> Seq<T> {
        self.state().items()
    }
}

impl<T, const S: usize> RingBuffer<T, S> where T: Default + Copy {
    /// The slots, cursors and count of this buffer.
    pub closed spec fn state(&self) -> RingState<T> {
        RingState {
            slots: self.buffer@,
            head: self.head as nat,
            tail: self.tail as nat,
            len: self.len as nat,
        }
    }

    /// The buffer's state is well formed and has exactly `S` slots.
    pub open spec fn wf(&self) -> bool {
        &&& self.state().wf()
        &&& self.state().cap() == S
    }

    /// Makes an empty buffer: both cursors at slot 0, no live element, and
    /// every slot holding one and the same default value of `T`.
    pub fn new() -> (r: Self)
        ensures
            r.wf(),
            r@ == Seq::<T>::empty(),
            r.state().head == 0,
            r.state().tail == 0,
            r.state().len == 0,
            exists|d: T|
                call_ensures(T::default, (), d) && r.state().slots == Seq::new(S as nat, |i: int| d),
    {
        let d = T::default();
        let r = RingBuffer { buffer: [d; S], head: 0, tail: 0, len: 0 };
        proof {
            if S > 0 {
                lemma_wrap_once(0, S as nat);
            }
            assert(r.state().slots =~= Seq::new(S as nat, |i: int| d));
            assert(r@ =~= Seq::<T>::empty());
        }
        r
    }

    /// Puts `item` behind the live elements.
    ///
    /// A full buffer turns the item down with `Full` and stays as it is: no
    /// live element is ever overwritten.
    pub fn push(&mut self, item: T) -> (r: Result<(), RingBufferError>)
        requires
            old(self).wf(),
        ensures
            final(self).wf(),
            final(self).state() == old(self).state().pushed(item),
            r is Ok <==> old(self)@.len() < S,
            r is Ok ==> final(self)@ == old(self)@.push(item),
            r matches Err(e) ==> e == RingBufferError::Full && final(self)@ == old(self)@,
    {
        if self.len == S {
            return Err(RingBufferError::Full);
        }
        proof {
            lemma_pushed(self.state(), item);
        }
        self.buffer[self.head] = item;
        self.head = (self.head + 1) % S;
        self.len += 1;
        Ok(())
    }

    /// Takes the oldest live element out.
    ///
    /// An empty buffer gives `None` and stays as it is.
    pub fn pop(&mut self) -> (r: Option<T>)
        requires
            old(self).wf(),
        ensures
            final(self).wf(),
            final(self).state() == old(self).state().popped(),
            r == old(self).state().front(),
            r is Some <==> old(self)@.len() > 0,
            r matches Some(item) ==> item == old(self)@[0] && final(self)@ == old(self)@.skip(1),
            r is None ==> final(self)@ == old(self)@,
    {
        if self.len == 0 {
            return None;
        }
        proof {
            lemma_front(self.state());
            lemma_advanced(self.state(), 1);
        }
        let item = self.buffer[self.tail];
        self.tail = (self.tail + 1) % S;
        self.len -= 1;
        Some(item)
    }

    /// Forgets every live element: both cursors go back to slot 0 and the
    /// count to 0. The slots keep what they held, out of reach of every
    /// reading operation.
    pub fn clear(&mut self)
        requires
            old(self).wf(),
        ensures
            final(self).wf(),
            final(self).state() == old(self).state().cleared(),
            final(self)@ == Seq::<T>::empty(),
    {
        self.head = 0;
        self.tail = 0;
        self.len = 0;
        proof {
            if S > 0 {
                lemma_wrap_once(0, S as nat);
            }
            assert(self@ =~= Seq::<T>::empty());
        }
    }

    /// Discards the `count` oldest live elements without handing them out,
    /// and returns the number of free slots that the buffer then has.
    ///
    /// Where fewer than `count` elements are live, none is discarded: the
    /// request is turned down with `BeyondRange` and the buffer stays as it
    /// is.
    pub fn pop_continuous(&mut self, count: usize) -> (r: Result<usize, RingBufferError>)
        requires
            old(self).wf(),
        ensures
            final(self).wf(),
            final(self).state() == old(self).state().discarded(count as nat),
            r is Ok <==> count <= old(self)@.len(),
            r matches Ok(free) ==> free == S - (old(self)@.len() - count),
            r is Ok ==> final(self)@ == old(self)@.skip(count as int),
            r matches Err(e) ==> e == RingBufferError::BeyondRange && final(self)@ == old(self)@,
    {
        if count > self.len {
            return Err(RingBufferError::BeyondRange);
        }
        proof {
            lemma_advanced(self.state(), count as nat);
            if S > 0 {
                lemma_wrap_once((self.tail + count) as nat, S as nat);
            }
        }
        // `tail + count` can pass `usize::MAX` where the elements have no
        // size, so the tail wraps by subtraction.
        self.tail = if count < S - self.tail {
            self.tail + count
        } else {
            count - (S - self.tail)
        };
        self.len -= count;
        Ok(self.remaining_capacity())
    }

    /// The number of slots, `S`.
    #[inline]
    pub fn capacity(&self) -> (r: usize)
        ensures
            r == S,
    {
        S
    }

    /// The number of free slots.
    #[inline]
    pub fn remaining_capacity(&self) -> (r: usize)
        requires
            self.wf(),
        ensures
            r == S - self@.len(),
    {
        S - self.len
    }

    /// Whether no element is live.
    #[inline]
    pub fn is_empty(&self) -> (r: bool)
        ensures
            r <==> self@.len() == 0,
    {
        self.len == 0
    }

    /// Whether every slot holds a live element.
    #[inline]
    pub fn is_full(&self) -> (r: bool)
        ensures
            r <==> self@.len() == S,
    {
        self.len == S
    }

    /// The number of live elements.
    #[inline]
    pub fn len(&self) -> (r: usize)
        ensures
            r == self@.len(),
    {
        self.len
    }

    /// Puts the elements of `data` behind the live elements, one by one and
    /// in order.
    ///
    /// The first element that finds the buffer full ends the call with
    /// `Full`. The elements before it stay in the buffer: nothing is rolled
    /// back.
    pub fn write(&mut self, data: &[T]) -> (r: Result<(), RingBufferError>)
        requires
            old(self).wf(),
        ensures
            final(self).wf(),
            final(self).state() == old(self).state().written(data@),
            final(self)@ == old(self)@ + data@.take(
                old(self).state().writable(data@.len()) as int,
            ),
            r is Ok <==> old(self)@.len() + data@.len() <= S,
            r matches Err(e) ==> e == RingBufferError::Full,
    {
        proof {
            lemma_written(self.state(), data@);
            assert(data@.skip(0) =~= data@);
        }
        for i in 0..data.len()
            invariant
                old(self).wf(),
                self.wf(),
                self@.len() == old(self)@.len() + i,
                self.state().written(data@.skip(i as int)) == old(self).state().written(data@),
        {
            proof {
                lemma_written(old(self).state(), data@);
                assert(data@.skip(i as int).drop_first() =~= data@.skip(i + 1));
            }
            self.push(data[i])?;
        }
        Ok(())
    }

    /// Moves live elements, oldest first, into `buffer` from its first place
    /// on, until `buffer` is filled or no live element is left, and returns
    /// how many were moved. The places of `buffer` behind them keep what they
    /// held.
    pub fn read(&mut self, buffer: &mut [T]) -> (count: usize)
        requires
            old(self).wf(),
        ensures
            final(self).wf(),
            count == old(self).state().readable(old(buffer)@.len()),
            final(self).state() == old(self).state().advanced(count as nat),
            final(self)@ == old(self)@.skip(count as int),
            final(buffer)@ == old(self)@.take(count as int) + old(buffer)@.skip(count as int),
    {
        let room = buffer.len();
        proof {
            lemma_advanced(self.state(), 0);
            lemma_advanced_none(self.state());
        }
        for i in 0..room
            invariant
                old(self).wf(),
                self.wf(),
                room == buffer@.len() == old(buffer)@.len(),
                i <= old(self)@.len(),
                self.state() == old(self).state().advanced(i as nat),
                self@ == old(self)@.skip(i as int),
                buffer@ == old(self)@.take(i as int) + old(buffer)@.skip(i as int),
        {
            proof {
                if self@.len() > 0 {
                    lemma_advanced_twice(old(self).state(), i as nat, 1);
                }
            }
            if let Some(item) = self.pop() {
                buffer[i] = item;
            } else {
                return i;
            }
        }
        room
    }

    /// Lends the next `len` live elements as one slice of the backing array,
    /// without removing them.
    ///
    /// Turned down with `BeyondRange` where fewer than `len` elements are
    /// live, and otherwise with `BufferIncomplete` where the window would run
    /// past the last slot of the array. The buffer is borrowed shared, so no
    /// call changes its cursors, its count or its slots.
    pub fn read_slice(&self, len: usize) -> (r: Result<&[T], RingBufferError>)
        requires
            self.wf(),
        ensures
            r is Ok <==> len <= self@.len() && self.state().contiguous(len as nat),
            r matches Ok(window) ==> window@ == self@.take(len as int),
            r matches Ok(window) ==> window@ == self.state().slots.subrange(
                self.state().tail as int,
                (self.state().tail + len) as int,
            ),
            r matches Err(e) ==> e == (if len > self@.len() {
                RingBufferError::BeyondRange
            } else {
                RingBufferError::BufferIncomplete
            }),
    {
        if len > self.len {
            return Err(RingBufferError::BeyondRange);
        }
        proof {
            if self.tail < self.head {
                lemma_head_after_tail(self.state());
            }
        }
        if self.tail < self.head || len <= S - self.tail {
            proof {
                lemma_contiguous_window(self.state(), len as nat);
            }
            Ok(&self.buffer[self.tail..self.tail + len])
        } else {
            Err(RingBufferError::BufferIncomplete)
        }
    }
}

} // verus!
