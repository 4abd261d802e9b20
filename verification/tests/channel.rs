use snowstorm::channel::{channel, sender_size, Receiver, ReceiverError, RecvStep, Sender};
use snowstorm::hub::Hub;
use std::collections::BTreeSet;
use std::sync::atomic::{AtomicUsize, Ordering};
use std::sync::Arc;

struct Canary(Arc<AtomicUsize>);

impl Drop for Canary {
    fn drop(&mut self) {
        self.0.fetch_add(1, Ordering::SeqCst);
    }
}

#[test]
fn channel_send() {
    let (mut hub, mut s, mut r) = channel();
    for i in 0..1000 {
        s.send(&mut hub, i);
    }

    s.flush(&mut hub);

    for i in 0..1000 {
        assert_eq!(r.try_recv(&mut hub), Some(&i));
    }
}

#[test]
fn channel_send_multiple_recv() {
    let (mut hub, mut s, mut r0) = channel();
    for i in 0..1000 {
        s.send(&mut hub, i);
    }

    s.flush(&mut hub);

    let mut r1 = r0.clone(&mut hub);
    for i in 0..1000 {
        assert_eq!(r0.try_recv(&mut hub), Some(&i));
    }
    for i in 0..1000 {
        assert_eq!(r1.try_recv(&mut hub), Some(&i));
    }
}

#[test]
fn channel_multiple_send() {
    let (mut hub, mut s0, mut r) = channel();
    let mut s1 = s0.clone(&mut hub);

    for i in 0..1000 {
        s0.send(&mut hub, i);
    }
    s0.flush(&mut hub);

    for i in 1000..2000 {
        s1.send(&mut hub, i);
    }
    s1.flush(&mut hub);

    for i in 0..2000 {
        assert_eq!(r.try_recv(&mut hub), Some(&i));
    }
}

#[test]
fn channel_drop() {
    let v = Arc::new(AtomicUsize::new(0));
    let (mut hub, mut s, r) = channel();

    for i in 0..1000 {
        s.send(&mut hub, Canary(v.clone()));
        if i & 0xF == 8 {
            s.flush(&mut hub);
        }
    }

    assert_eq!(v.load(Ordering::SeqCst), 0);
    s.close(&mut hub);
    r.close(&mut hub);
    assert_eq!(v.load(Ordering::SeqCst), 1000);
}

#[test]
fn next_frame() {
    let (mut hub, mut s, mut r) = channel();
    for i in 0..1000 {
        s.send(&mut hub, i);
        s.send(&mut hub, -i);
        s.next_frame(&mut hub);
    }
    s.close(&mut hub);
    for i in 0..1000 {
        assert_eq!(r.recv(&mut hub), Ok(&i));
        assert_eq!(r.recv(&mut hub), Ok(&-i));
        assert_eq!(r.recv(&mut hub), Err(ReceiverError::EndOfFrame));
        r.next_frame(&mut hub);
    }
    assert_eq!(r.recv(&mut hub), Err(ReceiverError::ChannelClosed));
}

/// A hundred senders take turns, one value each time.
#[test]
fn hundred_writers_in_turn() {
    let (mut hub, s0, mut r) = channel();
    let mut senders: Vec<Sender<i32>> = Vec::new();
    for _ in 0..100 {
        senders.push(s0.clone(&mut hub));
    }
    for j in 0..100 {
        for i in 0..100 {
            senders[i as usize].send(&mut hub, i * 100 + j);
        }
    }
    for s in senders {
        s.close(&mut hub);
    }

    let mut expected: BTreeSet<i32> = (0..10_000).collect();
    while let Some(i) = r.try_recv(&mut hub) {
        assert_eq!(expected.remove(i), true);
    }
    assert_eq!(expected.len(), 0);
    assert!(!r.closed(&hub));
    s0.close(&mut hub);
    assert!(r.closed(&hub));
}

#[test]
fn values_of_one_sender_keep_their_order() {
    let (mut hub, mut s0, mut r) = channel();
    let mut s1 = s0.clone(&mut hub);
    s0.send(&mut hub, 1);
    s1.send(&mut hub, 10);
    s0.send(&mut hub, 2);
    s1.send(&mut hub, 20);
    s1.flush(&mut hub);
    s0.flush(&mut hub);
    let mut read = Vec::new();
    while let Some(i) = r.try_recv(&mut hub) {
        read.push(*i);
    }
    assert_eq!(read, vec![10, 20, 1, 2]);
}

#[test]
fn nothing_shows_before_flush() {
    let (mut hub, mut s, mut r) = channel();
    assert!(!r.pending(&mut hub));
    s.send(&mut hub, 5u8);
    assert_eq!(r.try_recv(&mut hub), None);
    assert!(!r.pending(&mut hub));
    s.flush(&mut hub);
    s.flush(&mut hub);
    assert!(r.pending(&mut hub));
    assert!(r.pending(&mut hub));
    assert_eq!(r.try_recv(&mut hub), Some(&5));
    assert_eq!(r.try_recv(&mut hub), None);
}

#[test]
fn a_full_buffer_is_passed_on() {
    let (mut hub, mut s, mut r) = channel();
    let size = sender_size::<u64>();
    assert_eq!(size, 256);
    let mut sent = 0u64;
    while !r.pending(&mut hub) {
        s.send(&mut hub, sent);
        sent += 1;
    }
    assert!(sent >= size as u64);
    for i in 0..sent {
        assert_eq!(r.try_recv(&mut hub), Some(&i));
    }
    assert_eq!(r.try_recv(&mut hub), None);
}

#[test]
fn flush_at_waits_for_its_capacity() {
    let (mut hub, mut s, mut r) = channel();
    s.send(&mut hub, 1i32);
    s.send(&mut hub, 2);
    s.flush_at(&mut hub, 3);
    assert_eq!(r.try_recv(&mut hub), None);
    s.flush_at(&mut hub, 2);
    assert_eq!(r.try_recv(&mut hub), Some(&1));
    assert_eq!(r.try_recv(&mut hub), Some(&2));
}

#[test]
fn sizes_of_buffers() {
    assert_eq!(sender_size::<()>(), 2048);
    assert_eq!(sender_size::<u8>(), 2048);
    assert_eq!(sender_size::<[u8; 3]>(), 682);
    assert_eq!(sender_size::<[u8; 2047]>(), 1);
    assert_eq!(sender_size::<[u8; 2048]>(), 1);
    assert_eq!(sender_size::<[u8; 5000]>(), 1);
}

#[test]
fn clone_reads_the_rest() {
    let (mut hub, mut s, mut r0) = channel();
    for i in 0..4 {
        s.send(&mut hub, i);
        s.flush(&mut hub);
    }
    assert_eq!(r0.try_recv(&mut hub), Some(&0));
    let mut r1 = r0.clone(&mut hub);
    for i in 1..4 {
        assert_eq!(r0.try_recv(&mut hub), Some(&i));
    }
    s.send(&mut hub, 4);
    s.flush(&mut hub);
    for i in 1..5 {
        assert_eq!(r1.try_recv(&mut hub), Some(&i));
    }
    assert_eq!(r0.try_recv(&mut hub), Some(&4));
}

#[test]
fn copy_iter_copies_what_is_there() {
    let (mut hub, mut s, mut r) = channel();
    for i in 0..5u16 {
        s.send(&mut hub, i);
    }
    s.flush(&mut hub);
    let mut read = Vec::new();
    {
        let mut iter = r.copy_iter(&mut hub);
        while let Some(i) = iter.next() {
            read.push(i);
        }
    }
    assert_eq!(read, vec![0, 1, 2, 3, 4]);
    assert_eq!(r.try_recv(&mut hub), None);
}

#[test]
fn frames_do_not_mix() {
    let (mut hub, mut s0, mut r0) = channel();
    let mut s1 = s0.clone(&mut hub);
    let mut r1 = r0.clone(&mut hub);
    s0.next_frame(&mut hub);
    s0.send(&mut hub, 100);
    s0.flush(&mut hub);
    s1.send(&mut hub, 1);
    s1.flush(&mut hub);

    assert_eq!(r0.try_recv(&mut hub), Some(&1));
    assert_eq!(r0.try_recv(&mut hub), None);
    assert!(!r0.closed(&hub));
    s1.next_frame(&mut hub);
    assert_eq!(r0.recv(&mut hub), Err(ReceiverError::EndOfFrame));
    assert!(r0.next_frame(&mut hub));
    assert_eq!(r0.try_recv(&mut hub), Some(&100));

    assert!(r1.next_frame(&mut hub));
    assert_eq!(r1.try_recv(&mut hub), Some(&100));
    assert_eq!(r1.try_recv(&mut hub), None);
}

#[test]
fn a_frame_waits_for_its_readers() {
    let (mut hub, mut s, mut early) = channel();
    let mut late = early.clone(&mut hub);
    s.next_frame(&mut hub);
    s.send(&mut hub, 'a');
    s.flush(&mut hub);
    assert!(early.next_frame(&mut hub));
    s.send(&mut hub, 'b');
    s.flush(&mut hub);
    assert!(late.next_frame(&mut hub));
    for c in ['a', 'b'] {
        assert_eq!(early.try_recv(&mut hub), Some(&c));
        assert_eq!(late.try_recv(&mut hub), Some(&c));
    }
}

#[test]
fn a_receiver_can_go_ahead() {
    let (mut hub, mut s, mut r) = channel();
    s.send(&mut hub, 1);
    s.flush(&mut hub);
    assert!(r.next_frame(&mut hub));
    assert!(!r.closed(&hub));
    let signal = match r.poll_recv(&mut hub) {
        RecvStep::Wait(signal) => signal,
        _ => panic!("the sender has yet to come"),
    };
    s.flush(&mut hub);
    s.next_frame(&mut hub);
    assert!(signal.is_pending());
    s.send(&mut hub, 2);
    s.close(&mut hub);
    assert_eq!(signal.wait(), Ok(()));
    assert_eq!(r.recv(&mut hub), Ok(&2));
    assert_eq!(r.recv(&mut hub), Err(ReceiverError::ChannelClosed));
    assert!(r.closed(&hub));
    assert!(!r.next_frame(&mut hub));
}

#[test]
fn no_frame_behind_a_closed_one() {
    let (mut hub, s, mut r) = channel::<u8>();
    s.close(&mut hub);
    assert!(!r.next_frame(&mut hub));
    assert_eq!(r.recv(&mut hub), Err(ReceiverError::ChannelClosed));
}

#[test]
fn closing_passes_on_what_was_sent() {
    let (mut hub, mut s, mut r) = channel();
    s.send(&mut hub, 7);
    s.close(&mut hub);
    assert!(r.closed(&hub));
    assert_eq!(r.recv(&mut hub), Ok(&7));
    assert_eq!(r.recv(&mut hub), Err(ReceiverError::ChannelClosed));
}

#[test]
fn a_signal_fires_with_the_next_block() {
    let (mut hub, mut s, mut r) = channel();
    let signal = r.signal(&mut hub);
    let again = r.signal(&mut hub);
    assert_eq!(signal.id(), again.id());
    assert!(signal.is_pending());
    s.send(&mut hub, 3);
    assert!(signal.is_pending());
    s.flush(&mut hub);
    assert!(!signal.is_pending());
    assert!(!again.is_pending());
    assert_eq!(signal.wait(), Ok(()));
    assert_eq!(r.try_recv(&mut hub), Some(&3));

    let signal = r.signal(&mut hub);
    assert_ne!(signal.id(), again.id());
    assert!(signal.is_pending());
}

#[test]
fn a_signal_fires_with_the_end_of_the_frame() {
    let (mut hub, mut s0, r) = channel::<u8>();
    let s1 = s0.clone(&mut hub);
    let signal = r.signal(&mut hub);
    s0.next_frame(&mut hub);
    assert!(signal.is_pending());
    s1.close(&mut hub);
    assert!(!signal.is_pending());
    assert_eq!(signal.wait(), Ok(()));

    let mut r = r;
    assert!(r.next_frame(&mut hub));
    let signal = r.signal(&mut hub);
    assert!(signal.is_pending());
    s0.close(&mut hub);
    assert_eq!(signal.wait(), Ok(()));
    let signal = r.clone(&mut hub).signal(&mut hub);
    assert!(!signal.is_pending());
}

#[test]
fn a_late_signal_has_fired() {
    let (mut hub, mut s, r) = channel();
    s.send(&mut hub, 1);
    s.flush(&mut hub);
    let signal = r.signal(&mut hub);
    assert!(!signal.is_pending());
    assert_eq!(signal.wait(), Ok(()));
}

fn value_of(r: &mut Receiver<i32>, hub: &mut Hub<Arc<Vec<i32>>>) -> Option<i32> {
    match r.poll_recv(hub) {
        RecvStep::Value(v) => Some(*v),
        _ => None,
    }
}

#[test]
fn poll_recv_takes_one_step() {
    let (mut hub, mut s, mut r) = channel();
    let signal = match r.poll_recv(&mut hub) {
        RecvStep::Wait(signal) => signal,
        _ => panic!("there is nothing to read yet"),
    };
    assert!(signal.is_pending());
    s.send(&mut hub, 8);
    s.flush(&mut hub);
    assert!(!signal.is_pending());
    assert_eq!(value_of(&mut r, &mut hub), Some(8));
    assert!(matches!(r.poll_recv(&mut hub), RecvStep::Wait(_)));
    s.next_frame(&mut hub);
    assert!(matches!(r.poll_recv(&mut hub), RecvStep::End(ReceiverError::EndOfFrame)));
    assert!(r.next_frame(&mut hub));
    s.close(&mut hub);
    assert!(matches!(r.poll_recv(&mut hub), RecvStep::End(ReceiverError::ChannelClosed)));
}

#[test]
fn data_goes_with_the_last_reader() {
    let v = Arc::new(AtomicUsize::new(0));
    let (mut hub, mut s, mut r0) = channel();
    let mut r1 = r0.clone(&mut hub);
    for _ in 0..3 {
        s.send(&mut hub, Canary(v.clone()));
        s.flush(&mut hub);
    }
    for _ in 0..3 {
        assert!(r0.try_recv(&mut hub).is_some());
    }
    assert_eq!(v.load(Ordering::SeqCst), 0);
    assert!(r1.try_recv(&mut hub).is_some());
    assert!(r1.try_recv(&mut hub).is_some());
    assert_eq!(v.load(Ordering::SeqCst), 1);
    r1.close(&mut hub);
    assert_eq!(v.load(Ordering::SeqCst), 2);
    s.close(&mut hub);
    assert_eq!(v.load(Ordering::SeqCst), 2);
    r0.close(&mut hub);
    assert_eq!(v.load(Ordering::SeqCst), 3);
}

#[test]
fn data_of_a_frame_goes_with_the_frame() {
    let v = Arc::new(AtomicUsize::new(0));
    let (mut hub, mut s, mut r) = channel();
    s.send(&mut hub, Canary(v.clone()));
    s.send(&mut hub, Canary(v.clone()));
    s.next_frame(&mut hub);
    assert_eq!(v.load(Ordering::SeqCst), 0);
    assert!(r.next_frame(&mut hub));
    assert_eq!(v.load(Ordering::SeqCst), 2);
}

#[test]
fn no_false_alarm() {
    let (mut hub, mut s0, r) = channel();
    let s1 = s0.clone(&mut hub);
    let s2 = s0.clone(&mut hub);
    let signal = r.signal(&mut hub);
    s1.close(&mut hub);
    assert!(signal.is_pending());
    s0.next_frame(&mut hub);
    s0.send(&mut hub, 1);
    s0.flush(&mut hub);
    assert!(signal.is_pending());
    s0.close(&mut hub);
    assert!(signal.is_pending());
    s2.close(&mut hub);
    assert_eq!(signal.wait(), Ok(()));
}

#[test]
fn clones_leave_no_trace() {
    let v = Arc::new(AtomicUsize::new(0));
    let (mut hub, mut s, mut r) = channel();
    let signal = r.signal(&mut hub);
    s.clone(&mut hub).close(&mut hub);
    r.clone(&mut hub).close(&mut hub);
    assert!(signal.is_pending());
    assert!(!r.closed(&hub));
    s.send(&mut hub, Canary(v.clone()));
    s.flush(&mut hub);
    s.clone(&mut hub).close(&mut hub);
    r.clone(&mut hub).close(&mut hub);
    assert_eq!(v.load(Ordering::SeqCst), 0);
    assert!(r.try_recv(&mut hub).is_some());
    assert!(r.try_recv(&mut hub).is_none());
}

#[test]
fn over_is_over() {
    let (mut hub, mut s, mut r) = channel();
    s.send(&mut hub, 1);
    s.next_frame(&mut hub);
    assert_eq!(r.recv(&mut hub), Ok(&1));
    assert_eq!(r.recv(&mut hub), Err(ReceiverError::EndOfFrame));
    s.send(&mut hub, 2);
    s.flush(&mut hub);
    let mut other = s.clone(&mut hub);
    other.send(&mut hub, 3);
    other.next_frame(&mut hub);
    s.close(&mut hub);
    assert_eq!(r.recv(&mut hub), Err(ReceiverError::EndOfFrame));
    other.close(&mut hub);
    assert_eq!(r.recv(&mut hub), Err(ReceiverError::EndOfFrame));
}

#[test]
fn a_frame_that_ends_is_no_closed_channel() {
    let (mut hub, mut s, mut r) = channel::<i32>();
    s.next_frame(&mut hub);
    assert!(!r.closed(&hub));
    assert_eq!(r.recv(&mut hub), Err(ReceiverError::EndOfFrame));
    s.close(&mut hub);
    assert!(!r.closed(&hub));
    assert!(r.next_frame(&mut hub));
    assert!(r.closed(&hub));
    assert_eq!(r.recv(&mut hub), Err(ReceiverError::ChannelClosed));
}

#[test]
fn a_frame_waits_for_the_slowest_sender() {
    let (mut hub, mut fast, mut r) = channel();
    let mut slow = fast.clone(&mut hub);
    fast.next_frame(&mut hub);
    fast.send(&mut hub, 1);
    fast.next_frame(&mut hub);
    assert!(r.next_frame(&mut hub));
    assert_eq!(r.recv(&mut hub), Ok(&1));
    let signal = r.wait_for(&mut hub).unwrap();
    assert!(signal.is_pending());
    slow.next_frame(&mut hub);
    assert!(signal.is_pending());
    assert!(r.wait_for(&mut hub).is_some());
    slow.next_frame(&mut hub);
    assert_eq!(signal.wait(), Ok(()));
    assert!(r.wait_for(&mut hub).is_none());
    assert_eq!(r.recv(&mut hub), Err(ReceiverError::EndOfFrame));
}

#[test]
fn one_departure_can_end_many_frames() {
    let (mut hub, s, r0) = channel::<i32>();
    let mut r1 = r0.clone(&mut hub);
    assert!(r1.next_frame(&mut hub));
    let mut r2 = r1.clone(&mut hub);
    assert!(r2.next_frame(&mut hub));
    let signals = vec![r0.signal(&mut hub), r1.signal(&mut hub), r2.signal(&mut hub)];
    assert!(signals.iter().all(|signal| signal.is_pending()));
    s.close(&mut hub);
    for signal in signals {
        assert_eq!(signal.wait(), Ok(()));
    }
    assert!(!r0.closed(&hub));
    assert_eq!(r1.recv(&mut hub), Err(ReceiverError::EndOfFrame));
    assert!(r2.closed(&hub));
}

#[test]
fn receivers_agree() {
    let (mut hub, mut s0, mut r0) = channel();
    let mut s1 = s0.clone(&mut hub);
    let mut r1 = r0.clone(&mut hub);
    let mut one = Vec::new();
    let mut two = Vec::new();
    for i in 0..20 {
        s0.send(&mut hub, i);
        s1.send(&mut hub, 100 + i);
        if i % 3 == 0 {
            s0.flush(&mut hub);
        }
        if i % 4 == 0 {
            s1.flush(&mut hub);
        }
        if let Some(value) = r0.try_recv(&mut hub) {
            one.push(*value);
        }
    }
    s0.next_frame(&mut hub);
    s1.next_frame(&mut hub);
    s1.send(&mut hub, 1000);
    s1.flush(&mut hub);
    while let Some(value) = r1.try_recv(&mut hub) {
        two.push(*value);
    }
    assert!(two.starts_with(&one));
    let first: Vec<i32> = two.iter().copied().filter(|value| *value < 100).collect();
    let second: Vec<i32> = two.iter().copied().filter(|value| *value >= 100).collect();
    assert_eq!(first, (0..20).collect::<Vec<i32>>());
    assert_eq!(second, (100..120).collect::<Vec<i32>>());
}

#[test]
fn a_sender_passes_on_full_buffers_only() {
    let (mut hub, mut s, mut r) = channel();
    let mut sent = 0u32;
    let mut read = 0u32;
    for _ in 0..5 {
        let mut gathered = 0usize;
        while !r.pending(&mut hub) {
            s.send(&mut hub, sent);
            sent += 1;
            gathered += 1;
        }
        assert!(gathered >= sender_size::<u32>());
        while let Some(value) = r.try_recv(&mut hub) {
            assert_eq!(*value, read);
            read += 1;
        }
        assert_eq!(read, sent);
    }
}

#[test]
fn values_without_size_stay_until_flush() {
    let (mut hub, mut s, mut r) = channel();
    for _ in 0..5000 {
        s.send(&mut hub, ());
    }
    assert!(!r.pending(&mut hub));
    s.flush(&mut hub);
    for _ in 0..5000 {
        assert_eq!(r.try_recv(&mut hub), Some(&()));
    }
    assert_eq!(r.try_recv(&mut hub), None);
}

#[test]
fn a_clone_of_a_receiver_that_moved_on_agrees() {
    let (mut hub, mut s, mut r) = channel();
    for i in 0..4 {
        s.send(&mut hub, i);
        s.flush(&mut hub);
    }
    assert_eq!(r.try_recv(&mut hub), Some(&0));
    assert_eq!(r.try_recv(&mut hub), Some(&1));
    let mut other = r.clone(&mut hub);
    s.send(&mut hub, 4);
    s.next_frame(&mut hub);
    for i in 2..5 {
        assert_eq!(other.recv(&mut hub), Ok(&i));
    }
    assert_eq!(other.recv(&mut hub), Err(ReceiverError::EndOfFrame));
    for i in 2..5 {
        assert_eq!(r.recv(&mut hub), Ok(&i));
    }
    assert_eq!(r.recv(&mut hub), Err(ReceiverError::EndOfFrame));
}

#[test]
fn long_runs_keep_working() {
    let (mut hub, mut s, mut r) = channel();
    for frame in 0..200 {
        for i in 0..20 {
            s.send(&mut hub, frame * 20 + i);
            s.flush(&mut hub);
        }
        s.next_frame(&mut hub);
        for i in 0..20 {
            assert_eq!(r.recv(&mut hub), Ok(&(frame * 20 + i)));
        }
        assert_eq!(r.recv(&mut hub), Err(ReceiverError::EndOfFrame));
        assert!(r.next_frame(&mut hub));
    }
    for i in 0..5000 {
        s.send(&mut hub, i);
        s.flush(&mut hub);
        assert_eq!(r.try_recv(&mut hub), Some(&i));
    }
    s.close(&mut hub);
    assert_eq!(r.recv(&mut hub), Err(ReceiverError::ChannelClosed));
}
