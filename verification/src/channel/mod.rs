//! A single-threaded channel, bounded or not, as a state machine: each
//! operation changes the shared state and names the waiting task, if any,
//! that its caller has to wake. Whoever holds the state and the wakers runs
//! these steps and performs the wakes.
mod receiver;
mod sender;

use std::collections::VecDeque;

use vstd::prelude::*;

verus! {

/// A value that could not be sent: the receiver is gone, the channel was
/// closed, or a bounded channel is full.
pub struct SendError<T>(pub T);

/// The channel is closed.
#[derive(Clone, Copy, PartialEq, Eq, Structural, Debug)]
pub struct ClosedError;

/// Why nothing was received.
#[derive(Clone, Copy, PartialEq, Eq, Structural, Debug)]
pub enum TryRecvError {
    Empty,
    Closed,
}

/// The outcome of a step that may have to wait.
pub enum Poll<T> {
    Ready(T),
    Pending,
}

/// The result of one step, with the waiting tasks it woke.
pub struct Step<R, K> {
    pub result: R,
    pub wake: K,
}

/// The waiting tasks a close wakes.
pub struct Wake<W> {
    pub rx: Option<W>,
    pub tx: Option<W>,
}

/// The sending half of a channel.
pub struct Sender<T> {
    pub marker: core::marker::PhantomData<T>,
}

/// The receiving half of a channel.
pub struct Receiver<T> {
    pub marker: core::marker::PhantomData<T>,
}

/// A send that waits for room.
pub struct Send<T> {
    pub value: Option<T>,
}

/// The state both halves share: the queued values, the bound, whether the
/// channel is closed, and the task each half left to be woken.
pub struct Inner<T, W> {
    buf: VecDeque<T>,
    cap: Option<usize>,
    rx_waker: Option<W>,
    tx_waker: Option<W>,
    closed: bool,
}

impl<T, W> Inner<T, W> {
    /// The queued values, the next one received first.
    pub closed spec fn queue(&self) -> Seq<T> {
        self.buf@
    }

    /// The bound of a bounded channel.
    pub closed spec fn bound(&self) -> Option<usize> {
        self.cap
    }

    pub closed spec fn shut(&self) -> bool {
        self.closed
    }

    /// The task waiting to receive.
    pub closed spec fn rx_waiting(&self) -> Option<W> {
        self.rx_waker
    }

    /// The task waiting for room to send.
    pub closed spec fn tx_waiting(&self) -> Option<W> {
        self.tx_waker
    }

    pub open spec fn wf(&self) -> bool {
        self.bound() matches Some(c) ==> 0 < c && self.queue().len() <= c
    }

    /// One more value fits.
    pub open spec fn has_room(&self) -> bool {
        match self.bound() {
            None => true,
            Some(c) => self.queue().len() < c,
        }
    }

    /// The state of a new channel.
    pub open spec fn fresh(&self, bound: Option<usize>) -> bool {
        &&& self.queue() == Seq::<T>::empty()
        &&& self.bound() == bound
        &&& !self.shut()
        &&& self.rx_waiting() is None
        &&& self.tx_waiting() is None
    }

    /// The same channel with `queue`, `closed` and the wakers replaced.
    pub open spec fn became(&self, before: &Self, queue: Seq<T>, closed: bool, rx: Option<W>, tx: Option<W>) -> bool {
        &&& self.queue() == queue
        &&& self.bound() == before.bound()
        &&& self.shut() == closed
        &&& self.rx_waiting() == rx
        &&& self.tx_waiting() == tx
    }

    /// The same state as `before`.
    pub open spec fn unchanged(&self, before: &Self) -> bool {
        self.became(before, before.queue(), before.shut(), before.rx_waiting(), before.tx_waiting())
    }

    fn new(cap: Option<usize>) -> (i: Self)
        ensures
            i.fresh(cap),
    {
        Inner { buf: VecDeque::new(), cap, rx_waker: None, tx_waker: None, closed: false }
    }

    /// Closes the channel, emptying it when `clear`, and hands back both
    /// waiting tasks.
    pub fn close_inner(&mut self, clear: bool) -> (w: Wake<W>)
        requires
            old(self).wf(),
        ensures
            final(self).wf(),
            final(self).became(
                &*old(self),
                if clear { Seq::empty() } else { old(self).queue() },
                true,
                None,
                None,
            ),
            w.rx == old(self).rx_waiting(),
            w.tx == old(self).tx_waiting(),
    {
        self.closed = true;
        if clear {
            self.buf.clear();
        }
        Wake { rx: self.rx_waker.take(), tx: self.tx_waker.take() }
    }

    /// Whether a send can go ahead now: an error once closed, ready while
    /// there is room, and otherwise pending, with `waker` left to be woken
    /// when room is made.
    pub fn poll_ready_inner(&mut self, waker: W) -> (p: Poll<Result<(), ClosedError>>)
        requires
            old(self).wf(),
        ensures
            final(self).wf(),
            old(self).shut() ==> p == Poll::<Result<(), ClosedError>>::Ready(Err(ClosedError)) && *final(self) == *old(self),
            !old(self).shut() && old(self).has_room() ==> p == Poll::<Result<(), ClosedError>>::Ready(Ok(()))
                && *final(self) == *old(self),
            !old(self).shut() && !old(self).has_room() ==> p is Pending && final(self).became(
                &*old(self),
                old(self).queue(),
                false,
                old(self).rx_waiting(),
                Some(waker),
            ),
    {
        if self.closed {
            return Poll::Ready(Err(ClosedError));
        }
        let cap = match self.cap {
            None => return Poll::Ready(Ok(())),
            Some(cap) => cap,
        };
        if self.buf.len() < cap {
            Poll::Ready(Ok(()))
        } else {
            self.tx_waker = Some(waker);
            Poll::Pending
        }
    }

    /// Queues `value` unless the channel is closed or full, waking the task
    /// waiting to receive.
    pub fn try_send_inner(&mut self, value: T) -> (s: Step<Result<(), SendError<T>>, Option<W>>)
        requires
            old(self).wf(),
        ensures
            final(self).wf(),
            (old(self).shut() || !old(self).has_room()) ==> s.result == Err::<(), SendError<T>>(SendError(value))
                && s.wake is None && *final(self) == *old(self),
            !(old(self).shut() || !old(self).has_room()) ==> s.result is Ok && s.wake == old(self).rx_waiting()
                && final(self).became(&*old(self), old(self).queue().push(value), false, None, old(self).tx_waiting()),
    {
        if self.closed {
            return Step { result: Err(SendError(value)), wake: None };
        }
        if let Some(cap) = self.cap {
            if self.buf.len() >= cap {
                return Step { result: Err(SendError(value)), wake: None };
            }
        }
        self.buf.push_back(value);
        Step { result: Ok(()), wake: self.rx_waker.take() }
    }

    /// Takes the next value, waking the task waiting for room. With none
    /// queued: the end once closed, and otherwise pending, with `waker` left
    /// to be woken by the next send.
    pub fn poll_recv_inner(&mut self, waker: W) -> (s: Step<Poll<Option<T>>, Option<W>>)
        requires
            old(self).wf(),
        ensures
            final(self).wf(),
            old(self).queue().len() > 0 ==> s.result == Poll::Ready(Some(old(self).queue()[0])) && s.wake
                == old(self).tx_waiting() && final(self).became(
                &*old(self),
                old(self).queue().drop_first(),
                old(self).shut(),
                old(self).rx_waiting(),
                None,
            ),
            old(self).queue().len() == 0 && old(self).shut() ==> s.result == Poll::<Option<T>>::Ready(None) && s.wake is None
                && final(self).unchanged(&*old(self)),
            old(self).queue().len() == 0 && !old(self).shut() ==> s.result is Pending && s.wake is None && final(self).became(
                &*old(self),
                old(self).queue(),
                false,
                Some(waker),
                old(self).tx_waiting(),
            ),
    {
        match self.buf.pop_front() {
            Some(v) => {
                proof {
                    assert(self.buf@ =~= old(self).buf@.drop_first());
                }
                Step { result: Poll::Ready(Some(v)), wake: self.tx_waker.take() }
            },
            None => {
                if self.closed {
                    Step { result: Poll::Ready(None), wake: None }
                } else {
                    self.rx_waker = Some(waker);
                    Step { result: Poll::Pending, wake: None }
                }
            },
        }
    }

    /// Takes the next value, waking the task waiting for room; with none
    /// queued, says whether the channel is closed.
    pub fn try_recv_inner(&mut self) -> (s: Step<Result<T, TryRecvError>, Option<W>>)
        requires
            old(self).wf(),
        ensures
            final(self).wf(),
            old(self).queue().len() > 0 ==> s.result == Ok::<T, TryRecvError>(old(self).queue()[0]) && s.wake
                == old(self).tx_waiting() && final(self).became(
                &*old(self),
                old(self).queue().drop_first(),
                old(self).shut(),
                old(self).rx_waiting(),
                None,
            ),
            old(self).queue().len() == 0 ==> s.result == Err::<T, TryRecvError>(
                if old(self).shut() { TryRecvError::Closed } else { TryRecvError::Empty },
            ) && s.wake is None && final(self).unchanged(&*old(self)),
    {
        match self.buf.pop_front() {
            Some(v) => {
                proof {
                    assert(self.buf@ =~= old(self).buf@.drop_first());
                }
                Step { result: Ok(v), wake: self.tx_waker.take() }
            },
            None => {
                if self.closed {
                    Step { result: Err(TryRecvError::Closed), wake: None }
                } else {
                    Step { result: Err(TryRecvError::Empty), wake: None }
                }
            },
        }
    }

    pub fn closed_now(&self) -> (b: bool)
        ensures
            b == self.shut(),
    {
        self.closed
    }

    pub fn queued(&self) -> (n: usize)
        ensures
            n == self.queue().len(),
    {
        self.buf.len()
    }
}

/// A channel without a bound.
pub fn unbounded<T, W>() -> (r: (Sender<T>, Receiver<T>, Inner<T, W>))
    ensures
        r.2.wf(),
        r.2.fresh(None),
{
    (Sender { marker: core::marker::PhantomData }, Receiver { marker: core::marker::PhantomData }, Inner::new(None))
}

/// A channel that holds at most `capacity` values.
pub fn channel<T, W>(capacity: usize) -> (r: (Sender<T>, Receiver<T>, Inner<T, W>))
    requires
        capacity > 0,
    ensures
        r.2.wf(),
        r.2.fresh(Some(capacity)),
{
    (
        Sender { marker: core::marker::PhantomData },
        Receiver { marker: core::marker::PhantomData },
        Inner::new(Some(capacity)),
    )
}

/// Values are received in the order they were sent: a value sent joins the
/// queue behind every value already there, and a receive takes the front.
pub proof fn law_fifo<T, W>(a: Inner<T, W>, b: Inner<T, W>, c: Inner<T, W>, value: T)
    requires
        b.queue() == a.queue().push(value),
        c.queue() == b.queue().drop_first(),
        b.queue().len() > 0,
    ensures
        a.queue().len() == 0 ==> b.queue()[0] == value && c.queue().len() == 0,
        a.queue().len() > 0 ==> b.queue()[0] == a.queue()[0] && c.queue() == a.queue().drop_first().push(value),
{
    if a.queue().len() > 0 {
        assert(c.queue() =~= a.queue().drop_first().push(value));
    }
}

} // verus!
