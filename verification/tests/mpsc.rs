use snowstorm::mpsc::{channel, ReceiverError, RecvStep};
use std::sync::atomic::{AtomicUsize, Ordering};
use std::sync::Arc;

struct Canary(Arc<AtomicUsize>);

impl Drop for Canary {
    fn drop(&mut self) {
        self.0.fetch_add(1, Ordering::SeqCst);
    }
}

#[test]
fn mpsc_send() {
    let (mut hub, mut s, mut r) = channel();
    for i in 0..1000 {
        s.send(&mut hub, i);
    }
    s.flush(&mut hub);
    for i in 0..1000 {
        assert_eq!(r.try_recv(&mut hub), Some(i));
    }
    assert_eq!(r.try_recv(&mut hub), None);
}

#[test]
fn mpsc_multiple_send() {
    let (mut hub, mut s0, mut r) = channel();
    let mut s1 = s0.clone(&mut hub);
    for i in 0..1000 {
        s0.send(&mut hub, i);
    }
    s0.flush(&mut hub);
    for i in 1000..2000 {
        s1.send(&mut hub, i);
    }
    s1.flush(&mut hub);
    for i in 0..2000 {
        assert_eq!(r.try_recv(&mut hub), Some(i));
    }
}

#[test]
fn mpsc_hands_values_over() {
    let v = Arc::new(AtomicUsize::new(0));
    let (mut hub, mut s, mut r) = channel();
    for _ in 0..10 {
        s.send(&mut hub, Canary(v.clone()));
    }
    s.flush(&mut hub);
    let first = r.try_recv(&mut hub);
    assert!(first.is_some());
    assert_eq!(v.load(Ordering::SeqCst), 0);
    drop(first);
    assert_eq!(v.load(Ordering::SeqCst), 1);
    r.close(&mut hub);
    assert_eq!(v.load(Ordering::SeqCst), 10);
    s.close(&mut hub);
    assert_eq!(v.load(Ordering::SeqCst), 10);
}

#[test]
fn mpsc_drop() {
    let v = Arc::new(AtomicUsize::new(0));
    let (mut hub, mut s, r) = channel();
    for i in 0..1000 {
        s.send(&mut hub, Canary(v.clone()));
        if i & 0xF == 8 {
            s.flush(&mut hub);
        }
    }
    assert_eq!(v.load(Ordering::SeqCst), 0);
    s.close(&mut hub);
    r.close(&mut hub);
    assert_eq!(v.load(Ordering::SeqCst), 1000);
}

#[test]
fn mpsc_next_frame() {
    let (mut hub, mut s, mut r) = channel();
    for i in 0..1000 {
        s.send(&mut hub, i);
        s.send(&mut hub, -i);
        s.next_frame(&mut hub);
    }
    s.close(&mut hub);
    for i in 0..1000 {
        assert_eq!(r.recv(&mut hub), Ok(i));
        assert_eq!(r.recv(&mut hub), Ok(-i));
        assert_eq!(r.recv(&mut hub), Err(ReceiverError::EndOfFrame));
        assert!(r.next_frame(&mut hub));
    }
    assert_eq!(r.recv(&mut hub), Err(ReceiverError::ChannelClosed));
    assert!(!r.next_frame(&mut hub));
}

#[test]
fn mpsc_leaves_a_frame_behind() {
    let (mut hub, mut s, mut r) = channel();
    s.send(&mut hub, 1);
    s.send(&mut hub, 2);
    s.next_frame(&mut hub);
    s.send(&mut hub, 3);
    s.flush(&mut hub);
    assert_eq!(r.try_recv(&mut hub), Some(1));
    assert!(r.next_frame(&mut hub));
    assert_eq!(r.try_recv(&mut hub), Some(3));
    s.close(&mut hub);
    assert_eq!(r.recv(&mut hub), Err(ReceiverError::ChannelClosed));
}

#[test]
fn mpsc_signal_fires() {
    let (mut hub, mut s, mut r) = channel();
    let signal = match r.poll_recv(&mut hub) {
        RecvStep::Wait(signal) => signal,
        _ => panic!("there is nothing to read yet"),
    };
    assert!(signal.is_pending());
    assert_eq!(r.signal(&mut hub).id(), signal.id());
    s.send(&mut hub, 1);
    s.flush_at(&mut hub, 2);
    assert!(signal.is_pending());
    s.flush_at(&mut hub, 1);
    assert_eq!(signal.wait(), Ok(()));
    assert!(matches!(r.poll_recv(&mut hub), RecvStep::Value(1)));
    let signal = r.signal(&mut hub);
    assert!(signal.is_pending());
    assert!(!r.closed(&hub));
    s.next_frame(&mut hub);
    assert!(!r.closed(&hub));
    assert_eq!(signal.wait(), Ok(()));
    assert!(matches!(r.poll_recv(&mut hub), RecvStep::End(ReceiverError::EndOfFrame)));
    assert!(r.next_frame(&mut hub));
    s.close(&mut hub);
    assert!(r.closed(&hub));
    assert!(matches!(r.poll_recv(&mut hub), RecvStep::End(ReceiverError::ChannelClosed)));
}

#[test]
fn mpsc_keeps_the_order_of_flushes() {
    let (mut hub, mut s0, mut r) = channel();
    let mut s1 = s0.clone(&mut hub);
    s0.send(&mut hub, 1);
    s1.send(&mut hub, 10);
    s0.send(&mut hub, 2);
    s1.send(&mut hub, 20);
    s1.flush(&mut hub);
    s0.flush(&mut hub);
    for i in [10, 20, 1, 2] {
        assert_eq!(r.try_recv(&mut hub), Some(i));
    }
    assert_eq!(r.try_recv(&mut hub), None);
}

#[test]
fn mpsc_a_frame_waits_for_its_reader() {
    let (mut hub, mut s, mut r) = channel();
    s.next_frame(&mut hub);
    s.send(&mut hub, 'a');
    s.flush(&mut hub);
    s.send(&mut hub, 'b');
    s.flush(&mut hub);
    assert_eq!(r.recv(&mut hub), Err(ReceiverError::EndOfFrame));
    assert!(r.next_frame(&mut hub));
    assert_eq!(r.try_recv(&mut hub), Some('a'));
    assert_eq!(r.try_recv(&mut hub), Some('b'));
    assert_eq!(r.try_recv(&mut hub), None);
}

#[test]
fn mpsc_over_is_over() {
    let (mut hub, mut s, mut r) = channel();
    s.send(&mut hub, 1);
    s.next_frame(&mut hub);
    s.send(&mut hub, 2);
    s.flush(&mut hub);
    assert_eq!(r.recv(&mut hub), Ok(1));
    assert_eq!(r.recv(&mut hub), Err(ReceiverError::EndOfFrame));
    s.close(&mut hub);
    assert_eq!(r.recv(&mut hub), Err(ReceiverError::EndOfFrame));
}

#[test]
fn mpsc_waits_for_a_sender_behind() {
    let (mut hub, mut s, mut r) = channel();
    assert!(r.next_frame(&mut hub));
    assert!(!r.closed(&hub));
    assert!(matches!(r.poll_recv(&mut hub), RecvStep::Wait(_)));
    s.next_frame(&mut hub);
    s.send(&mut hub, 7);
    s.close(&mut hub);
    assert_eq!(r.recv(&mut hub), Ok(7));
    assert_eq!(r.recv(&mut hub), Err(ReceiverError::ChannelClosed));
}
