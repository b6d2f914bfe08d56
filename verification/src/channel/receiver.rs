use vstd::prelude::*;

use crate::channel::{Inner, Poll, Receiver, Step, TryRecvError, Wake};

verus! {

impl<T> Receiver<T> {
    /// Takes the next value; with none queued, the end once closed, and
    /// otherwise pending, with `waker` left to be woken by the next send.
    pub fn poll_recv<W>(&self, inner: &mut Inner<T, W>, waker: W) -> (s: Step<Poll<Option<T>>, Option<W>>)
        requires
            old(inner).wf(),
        ensures
            final(inner).wf(),
            old(inner).queue().len() > 0 ==> s.result == Poll::Ready(Some(old(inner).queue()[0])) && s.wake
                == old(inner).tx_waiting() && final(inner).became(
                &*old(inner),
                old(inner).queue().drop_first(),
                old(inner).shut(),
                old(inner).rx_waiting(),
                None,
            ),
            old(inner).queue().len() == 0 && old(inner).shut() ==> s.result == Poll::<Option<T>>::Ready(None) && s.wake
                is None && final(inner).unchanged(&*old(inner)),
            old(inner).queue().len() == 0 && !old(inner).shut() ==> s.result is Pending && s.wake is None
                && final(inner).became(&*old(inner), old(inner).queue(), false, Some(waker), old(inner).tx_waiting()),
    {
        inner.poll_recv_inner(waker)
    }

    /// Takes the next value; with none queued, says whether the channel is
    /// closed.
    pub fn try_recv<W>(&self, inner: &mut Inner<T, W>) -> (s: Step<Result<T, TryRecvError>, Option<W>>)
        requires
            old(inner).wf(),
        ensures
            final(inner).wf(),
            old(inner).queue().len() > 0 ==> s.result == Ok::<T, TryRecvError>(old(inner).queue()[0]) && s.wake
                == old(inner).tx_waiting() && final(inner).became(
                &*old(inner),
                old(inner).queue().drop_first(),
                old(inner).shut(),
                old(inner).rx_waiting(),
                None,
            ),
            old(inner).queue().len() == 0 ==> s.result == Err::<T, TryRecvError>(
                if old(inner).shut() { TryRecvError::Closed } else { TryRecvError::Empty },
            ) && s.wake is None && final(inner).unchanged(&*old(inner)),
    {
        inner.try_recv_inner()
    }

    /// Closed with nothing left to receive.
    pub fn is_terminated<W>(&self, inner: &Inner<T, W>) -> (b: bool)
        ensures
            b == (inner.shut() && inner.queue().len() == 0),
    {
        inner.closed_now() && inner.queued() == 0
    }

    /// Closes the channel; what is queued can still be received.
    pub fn close<W>(&self, inner: &mut Inner<T, W>) -> (w: Wake<W>)
        requires
            old(inner).wf(),
        ensures
            final(inner).wf(),
            final(inner).became(&*old(inner), old(inner).queue(), true, None, None),
            w.rx == old(inner).rx_waiting(),
            w.tx == old(inner).tx_waiting(),
    {
        inner.close_inner(false)
    }

    pub fn is_closed<W>(&self, inner: &Inner<T, W>) -> (b: bool)
        ensures
            b == inner.shut(),
    {
        inner.closed_now()
    }

    /// Closes the channel and drops what is queued, as dropping the receiver
    /// does.
    pub fn disconnect<W>(self, inner: &mut Inner<T, W>) -> (w: Wake<W>)
        requires
            old(inner).wf(),
        ensures
            final(inner).wf(),
            final(inner).became(&*old(inner), Seq::empty(), true, None, None),
            w.rx == old(inner).rx_waiting(),
            w.tx == old(inner).tx_waiting(),
    {
        inner.close_inner(true)
    }
}

} // verus!
