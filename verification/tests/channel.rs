use lib::channel::{channel, unbounded, ClosedError, Inner, Poll, SendError, TryRecvError};

fn ok<T>(r: Result<(), SendError<T>>) -> bool {
    r.is_ok()
}

#[test]
fn law_fifo_on_concrete_values() {
    let (tx, rx, mut inner) = unbounded::<u32, u8>();
    for v in [3u32, 1, 4, 1, 5] {
        assert!(ok(tx.try_send(&mut inner, v).result));
    }
    let mut out = Vec::new();
    while let Ok(v) = rx.try_recv(&mut inner).result {
        out.push(v);
    }
    assert_eq!(out, vec![3, 1, 4, 1, 5]);
}

#[test]
fn bounded_channel_refuses_when_full() {
    let (tx, rx, mut inner) = channel::<&str, u8>(1);
    assert!(ok(tx.try_send(&mut inner, "a").result));
    match tx.try_send(&mut inner, "b").result {
        Err(SendError(v)) => assert_eq!(v, "b"),
        Ok(()) => panic!("a full channel took a value"),
    }
    assert!(matches!(tx.poll_ready(&mut inner, 7), Poll::Pending));
    let step = rx.try_recv(&mut inner);
    assert_eq!(step.result, Ok("a"));
    assert_eq!(step.wake, Some(7));
    assert!(matches!(tx.poll_ready(&mut inner, 8), Poll::Ready(Ok(()))));
}

#[test]
fn try_recv_reports_empty_then_closed() {
    let (tx, rx, mut inner) = unbounded::<u8, u8>();
    assert_eq!(rx.try_recv(&mut inner).result, Err(TryRecvError::Empty));
    tx.try_send(&mut inner, 9);
    let wake = tx.close(&mut inner);
    assert!(wake.rx.is_none() && wake.tx.is_none());
    assert!(tx.is_closed(&inner));
    assert!(!rx.is_terminated(&inner));
    assert_eq!(rx.try_recv(&mut inner).result, Ok(9));
    assert_eq!(rx.try_recv(&mut inner).result, Err(TryRecvError::Closed));
    assert!(rx.is_terminated(&inner));
    assert!(!ok(tx.try_send(&mut inner, 1).result));
    assert!(matches!(tx.poll_ready(&mut inner, 0), Poll::Ready(Err(ClosedError))));
}

#[test]
fn poll_recv_registers_waker_and_send_wakes_it() {
    let (tx, rx, mut inner) = unbounded::<u64, &str>();
    let step = rx.poll_recv(&mut inner, "receiver");
    assert!(matches!(step.result, Poll::Pending));
    let sent = tx.unbounded_send(&mut inner, 42);
    assert!(ok(sent.result));
    assert_eq!(sent.wake, Some("receiver"));
    let step = rx.poll_recv(&mut inner, "receiver");
    assert!(matches!(step.result, Poll::Ready(Some(42))));
    rx.close(&mut inner);
    assert!(matches!(rx.poll_recv(&mut inner, "receiver").result, Poll::Ready(None)));
}

#[test]
fn receiver_disconnect_drops_queue_and_wakes_both() {
    let (tx, rx, mut inner) = channel::<u8, u8>(1);
    tx.try_send(&mut inner, 1);
    assert!(matches!(tx.poll_ready(&mut inner, 2), Poll::Pending));
    let wake = rx.disconnect(&mut inner);
    assert_eq!(wake.tx, Some(2));
    assert_eq!(wake.rx, None);
    assert_eq!(inner.queued(), 0);
    assert!(inner.closed_now());
}

#[test]
fn send_future_waits_for_room() {
    let (tx, rx, mut inner) = channel::<u8, u8>(1);
    tx.try_send(&mut inner, 1);
    let mut send = tx.send(2);
    assert!(matches!(send.poll(&tx, &mut inner, 5).result, Poll::Pending));
    assert_eq!(send.value, Some(2));
    let step = rx.try_recv(&mut inner);
    assert_eq!(step.wake, Some(5));
    let step = send.poll(&tx, &mut inner, 5);
    assert!(matches!(step.result, Poll::Ready(Ok(()))));
    assert!(send.value.is_none());
    assert!(matches!(send.poll(&tx, &mut inner, 5).result, Poll::Ready(Ok(()))));
    assert_eq!(rx.try_recv(&mut inner).result, Ok(2));
}

#[test]
fn send_future_fails_once_closed() {
    let (tx, rx, mut inner) = unbounded::<u8, u8>();
    rx.close(&mut inner);
    let mut send = tx.send(3);
    match send.poll(&tx, &mut inner, 0).result {
        Poll::Ready(Err(SendError(v))) => assert_eq!(v, 3),
        _ => panic!("a closed channel took a value"),
    }
}

#[test]
fn sender_flush_and_close_are_ready() {
    let (tx, _rx, mut inner): (_, _, Inner<u8, u8>) = unbounded();
    assert!(matches!(tx.poll_flush(), Poll::Ready(Ok(()))));
    assert!(matches!(tx.poll_close(&mut inner).result, Poll::Ready(Ok(()))));
    assert!(tx.is_closed(&inner));
    let wake = tx.close_channel(&mut inner);
    assert!(wake.rx.is_none());
    assert!(!ok(tx.start_send(&mut inner, 1).result));
}
