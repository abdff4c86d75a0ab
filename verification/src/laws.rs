//! What holds of the buffer over whole runs of operations: the count never
//! leaves the capacity, elements leave in the order in which they came, and
//! this stays so when the cursors pass the end of the array.

use vstd::prelude::*;
use crate::state::{
    lemma_advanced, lemma_advanced_none, lemma_advanced_twice, lemma_front, lemma_pushed,
    lemma_wrap_once, lemma_written, RingState,
};

verus! {

/// A request to the buffer.
pub enum Op<T> {
    /// Insert one element.
    Push(T),
    /// Remove the oldest element.
    Pop,
    /// Forget every element.
    Clear,
    /// Discard this many of the oldest elements, all or none.
    PopContinuous(nat),
    /// Insert these elements in order, as far as there is room.
    Write(Seq<T>),
    /// Remove elements into a destination of this many places.
    Read(nat),
    /// Look at this many of the oldest elements in place.
    ReadSlice(nat),
}

impl<T> RingState<T> {
    /// The state after `op`, granted or refused. Looking at elements in
    /// place changes nothing.
    pub open spec fn applied(self, op: Op<T>) -> Self {
        match op {
            Op::Push(item) => self.pushed(item),
            Op::Pop => self.popped(),
            Op::Clear => self.cleared(),
            Op::PopContinuous(count) => self.discarded(count),
            Op::Write(data) => self.written(data),
            Op::Read(room) => self.advanced(self.readable(room)),
            Op::ReadSlice(_) => self,
        }
    }

    /// The state after the requests of `ops`, served in order.
    pub open spec fn run(self, ops: Seq<Op<T>>) -> Self
        decreases ops.len(),
    {
        if ops.len() == 0 {
            self
        } else {
            self.applied(ops[0]).run(ops.drop_first())
        }
    }

    /// The state after `n` removals, one after the other.
    pub open spec fn popped_times(self, n: nat) -> Self
        decreases n,
    {
        if n == 0 {
            self
        } else {
            self.popped().popped_times((n - 1) as nat)
        }
    }
}

/// No single request breaks the state or changes the number of slots.
pub proof fn lemma_applied_wf<T>(st: RingState<T>, op: Op<T>)
    requires
        st.wf(),
    ensures
        st.applied(op).wf(),
        st.applied(op).cap() == st.cap(),
{
    match op {
        Op::Push(item) => {
            if st.len < st.cap() {
                lemma_pushed(st, item);
            }
        },
        Op::Pop => {
            if st.len > 0 {
                lemma_advanced(st, 1);
            }
        },
        Op::Clear => {
            if st.cap() > 0 {
                lemma_wrap_once(0, st.cap());
            }
        },
        Op::PopContinuous(count) => {
            if count <= st.len {
                lemma_advanced(st, count);
            }
        },
        Op::Write(data) => {
            lemma_written(st, data);
        },
        Op::Read(room) => {
            lemma_advanced(st, st.readable(room));
        },
        Op::ReadSlice(_) => {},
    }
}

/// Whatever requests are served, in whatever order and with whatever
/// arguments, the number of live elements never exceeds the number of slots,
/// the cursors stay valid and the number of slots stays what it was.
pub proof fn law_capacity_invariant<T>(st: RingState<T>, ops: Seq<Op<T>>)
    requires
        st.wf(),
    ensures
        st.run(ops).wf(),
        st.run(ops).cap() == st.cap(),
        0 <= st.run(ops).len <= st.cap(),
    decreases ops.len(),
{
    if ops.len() > 0 {
        lemma_applied_wf(st, ops[0]);
        law_capacity_invariant(st.applied(ops[0]), ops.drop_first());
    }
}

/// Removing one element `n` times takes as many elements as a bulk removal
/// into `n` places: `n` of them, or all where fewer are live.
pub proof fn lemma_popped_times<T>(st: RingState<T>, n: nat)
    requires
        st.wf(),
    ensures
        st.popped_times(n) == st.advanced(st.readable(n)),
    decreases n,
{
    if n == 0 || st.len == 0 {
        lemma_advanced_none(st);
        if n > 0 {
            lemma_popped_times(st, (n - 1) as nat);
        }
    } else {
        let next = st.advanced(1);
        lemma_advanced(st, 1);
        lemma_popped_times(next, (n - 1) as nat);
        lemma_advanced_twice(st, 1, next.readable((n - 1) as nat));
    }
}

/// First in, first out: after the elements of `xs` have been inserted in
/// order into a buffer with room for all of them, the live elements are the
/// earlier ones followed by `xs`, and the removal that follows `j` earlier
/// removals hands out the `j`-th of them. From an empty buffer, removals
/// hand out `xs[0]`, `xs[1]`, and so on.
pub proof fn law_fifo_order<T>(st: RingState<T>, xs: Seq<T>, j: nat)
    requires
        st.wf(),
        st.len + xs.len() <= st.cap(),
        j < st.len + xs.len(),
    ensures
        st.written(xs).items() == st.items() + xs,
        st.written(xs).popped_times(j).front() == Some((st.items() + xs)[j as int]),
        st.len == 0 ==> st.written(xs).popped_times(j).front() == Some(xs[j as int]),
{
    let filled = st.written(xs);
    lemma_written(st, xs);
    assert(xs.take(xs.len() as int) =~= xs);
    lemma_popped_times(filled, j);
    lemma_advanced(filled, j);
    lemma_front(filled.advanced(j));
    assert(st.len == 0 ==> st.items() + xs =~= xs);
}

/// Wraparound: fill an empty buffer with `xs`, remove `k` elements, insert
/// the `k` elements of `ys`. The buffer is full again and holds the last
/// `cap` of the inserted elements, oldest first, wherever in the array the
/// cursors stood at the start.
pub proof fn law_wraparound<T>(st: RingState<T>, xs: Seq<T>, ys: Seq<T>)
    requires
        st.wf(),
        st.len == 0,
        xs.len() == st.cap(),
        ys.len() < st.cap(),
    ensures
        st.written(xs).popped_times(ys.len()).written(ys).len == st.cap(),
        st.written(xs).popped_times(ys.len()).written(ys).items() == (xs + ys).skip(
            ys.len() as int,
        ),
{
    let k = ys.len();
    let filled = st.written(xs);
    lemma_written(st, xs);
    assert(xs.take(xs.len() as int) =~= xs);
    assert(st.items() + xs =~= xs);
    let drained = filled.popped_times(k);
    lemma_popped_times(filled, k);
    lemma_advanced(filled, k);
    lemma_written(drained, ys);
    assert(ys.take(k as int) =~= ys);
    assert(xs.skip(k as int) + ys =~= (xs + ys).skip(k as int));
}

} // verus!
