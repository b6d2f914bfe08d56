use vstd::prelude::*;

use crate::channel::{ClosedError, Inner, Poll, Send, SendError, Sender, Step, Wake};

verus! {

impl<T> Sender<T> {
    /// Queues `value` unless the channel is closed or full.
    pub fn try_send<W>(&self, inner: &mut Inner<T, W>, value: T) -> (s: Step<Result<(), SendError<T>>, Option<W>>)
        requires
            old(inner).wf(),
        ensures
            final(inner).wf(),
            (old(inner).shut() || !old(inner).has_room()) ==> s.result == Err::<(), SendError<T>>(SendError(value))
                && s.wake is None && *final(inner) == *old(inner),
            !(old(inner).shut() || !old(inner).has_room()) ==> s.result is Ok && s.wake == old(inner).rx_waiting()
                && final(inner).became(&*old(inner), old(inner).queue().push(value), false, None, old(inner).tx_waiting()),
    {
        inner.try_send_inner(value)
    }

    /// The same as `try_send`.
    pub fn unbounded_send<W>(&self, inner: &mut Inner<T, W>, value: T) -> (s: Step<Result<(), SendError<T>>, Option<W>>)
        requires
            old(inner).wf(),
        ensures
            final(inner).wf(),
            (old(inner).shut() || !old(inner).has_room()) ==> s.result == Err::<(), SendError<T>>(SendError(value))
                && s.wake is None && *final(inner) == *old(inner),
            !(old(inner).shut() || !old(inner).has_room()) ==> s.result is Ok && s.wake == old(inner).rx_waiting()
                && final(inner).became(&*old(inner), old(inner).queue().push(value), false, None, old(inner).tx_waiting()),
    {
        self.try_send(inner, value)
    }

    /// A send of `value` that waits for room.
    pub fn send(&self, value: T) -> (s: Send<T>)
        ensures
            s.value == Some(value),
    {
        Send { value: Some(value) }
    }

    /// Whether a send can go ahead now; pending sends leave `waker` to be
    /// woken when room is made.
    pub fn poll_ready<W>(&self, inner: &mut Inner<T, W>, waker: W) -> (p: Poll<Result<(), ClosedError>>)
        requires
            old(inner).wf(),
        ensures
            final(inner).wf(),
            old(inner).shut() ==> p == Poll::<Result<(), ClosedError>>::Ready(Err(ClosedError)) && *final(inner)
                == *old(inner),
            !old(inner).shut() && old(inner).has_room() ==> p == Poll::<Result<(), ClosedError>>::Ready(Ok(()))
                && *final(inner) == *old(inner),
            !old(inner).shut() && !old(inner).has_room() ==> p is Pending && final(inner).became(
                &*old(inner),
                old(inner).queue(),
                false,
                old(inner).rx_waiting(),
                Some(waker),
            ),
    {
        inner.poll_ready_inner(waker)
    }

    /// The same as `try_send`.
    pub fn start_send<W>(&self, inner: &mut Inner<T, W>, value: T) -> (s: Step<Result<(), SendError<T>>, Option<W>>)
        requires
            old(inner).wf(),
        ensures
            final(inner).wf(),
            (old(inner).shut() || !old(inner).has_room()) ==> s.result == Err::<(), SendError<T>>(SendError(value))
                && s.wake is None && *final(inner) == *old(inner),
            !(old(inner).shut() || !old(inner).has_room()) ==> s.result is Ok && s.wake == old(inner).rx_waiting()
                && final(inner).became(&*old(inner), old(inner).queue().push(value), false, None, old(inner).tx_waiting()),
    {
        self.try_send(inner, value)
    }

    /// Nothing is buffered on the sending side: always ready.
    pub fn poll_flush(&self) -> (p: Poll<Result<(), ClosedError>>)
        ensures
            p == Poll::<Result<(), ClosedError>>::Ready(Ok(())),
    {
        Poll::Ready(Ok(()))
    }

    /// Closes the channel, keeping what is queued; always ready.
    pub fn poll_close<W>(&self, inner: &mut Inner<T, W>) -> (s: Step<Poll<Result<(), ClosedError>>, Wake<W>>)
        requires
            old(inner).wf(),
        ensures
            final(inner).wf(),
            s.result == Poll::<Result<(), ClosedError>>::Ready(Ok(())),
            final(inner).became(&*old(inner), old(inner).queue(), true, None, None),
            s.wake.rx == old(inner).rx_waiting(),
            s.wake.tx == old(inner).tx_waiting(),
    {
        let wake = inner.close_inner(false);
        Step { result: Poll::Ready(Ok(())), wake }
    }

    /// Closes the channel, keeping what is queued, as dropping the sender
    /// does.
    pub fn close<W>(&self, inner: &mut Inner<T, W>) -> (w: Wake<W>)
        requires
            old(inner).wf(),
        ensures
            final(inner).wf(),
            final(inner).became(&*old(inner), old(inner).queue(), true, None, None),
            w.rx == old(inner).rx_waiting(),
            w.tx == old(inner).tx_waiting(),
    {
        inner.close_inner(false)
    }

    /// The same as `close`.
    pub fn close_channel<W>(&self, inner: &mut Inner<T, W>) -> (w: Wake<W>)
        requires
            old(inner).wf(),
        ensures
            final(inner).wf(),
            final(inner).became(&*old(inner), old(inner).queue(), true, None, None),
            w.rx == old(inner).rx_waiting(),
            w.tx == old(inner).tx_waiting(),
    {
        self.close(inner)
    }

    pub fn is_closed<W>(&self, inner: &Inner<T, W>) -> (b: bool)
        ensures
            b == inner.shut(),
    {
        inner.closed_now()
    }
}

impl<T> Send<T> {
    /// Sends the value once there is room: done at once when it was already
    /// sent, an error handing the value back once the channel is closed, and
    /// pending, with `waker` left to be woken, while it is full.
    pub fn poll<W>(&mut self, sender: &Sender<T>, inner: &mut Inner<T, W>, waker: W) -> (s: Step<
        Poll<Result<(), SendError<T>>>,
        Option<W>,
    >)
        requires
            old(inner).wf(),
        ensures
            final(inner).wf(),
            old(self).value is None ==> s.result == Poll::<Result<(), SendError<T>>>::Ready(Ok(())) && s.wake is None
                && *final(inner) == *old(inner) && final(self).value is None,
            old(self).value matches Some(v) ==> {
                &&& old(inner).shut() ==> s.result == Poll::<Result<(), SendError<T>>>::Ready(Err(SendError(v)))
                    && s.wake is None && *final(inner) == *old(inner) && final(self).value is None
                &&& !old(inner).shut() && old(inner).has_room() ==> s.result == Poll::<Result<(), SendError<T>>>::Ready(Ok(()))
                    && s.wake == old(inner).rx_waiting() && final(self).value is None && final(inner).became(
                    &*old(inner),
                    old(inner).queue().push(v),
                    false,
                    None,
                    old(inner).tx_waiting(),
                )
                &&& !old(inner).shut() && !old(inner).has_room() ==> s.result is Pending && s.wake is None
                    && final(self).value == Some(v) && final(inner).became(
                    &*old(inner),
                    old(inner).queue(),
                    false,
                    old(inner).rx_waiting(),
                    Some(waker),
                )
            },
    {
        let value = match self.value.take() {
            None => return Step { result: Poll::Ready(Ok(())), wake: None },
            Some(value) => value,
        };
        match sender.poll_ready(inner, waker) {
            Poll::Ready(Ok(())) => {
                let step = sender.start_send(inner, value);
                match step.result {
                    Ok(()) => Step { result: Poll::Ready(Ok(())), wake: step.wake },
                    Err(err) => Step { result: Poll::Ready(Err(err)), wake: step.wake },
                }
            },
            Poll::Ready(Err(_)) => Step { result: Poll::Ready(Err(SendError(value))), wake: None },
            Poll::Pending => {
                self.value = Some(value);
                Step { result: Poll::Pending, wake: None }
            },
        }
    }
}

} // verus!
