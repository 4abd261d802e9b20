use snowstorm::hub::Hub;
use std::sync::atomic::{AtomicUsize, Ordering};
use std::sync::Arc;

#[test]
fn write_ptr_write() {
    let (mut hub, ptr) = Hub::new(vec![1i32]);
    let a = ptr.clone(&mut hub);
    assert!(ptr.write(&mut hub, vec![2i32]).is_none());
    assert!(ptr.write(&mut hub, vec![3i32]).is_some());

    assert!(*a.data(&hub).unwrap() == vec![1]);
    let b = a.next(&mut hub).unwrap();
    assert!(*b.data(&hub).unwrap() == vec![2]);
    assert!(b.next(&mut hub).is_none());
}

#[test]
fn write_ptr_write_tail() {
    let (mut hub, mut ptr) = Hub::new(vec![1i32]);
    let a = ptr.clone(&mut hub);
    assert!(ptr.write(&mut hub, vec![2i32]).is_none());
    ptr.tail(&mut hub);
    assert!(ptr.write(&mut hub, vec![3i32]).is_none());

    let b = a.next(&mut hub).unwrap();
    let c = b.next(&mut hub).unwrap();
    assert!(*a.data(&hub).unwrap() == vec![1]);
    assert!(*b.data(&hub).unwrap() == vec![2]);
    assert!(*c.data(&hub).unwrap() == vec![3]);
}

#[test]
fn write_ptr_append() {
    let (mut hub, mut ptr) = Hub::new(vec![1i32]);
    let a = ptr.clone(&mut hub);
    ptr.append(&mut hub, vec![2i32]);
    ptr.append(&mut hub, vec![3i32]);

    let b = a.next(&mut hub).unwrap();
    let c = b.next(&mut hub).unwrap();
    assert!(*a.data(&hub).unwrap() == vec![1]);
    assert!(*b.data(&hub).unwrap() == vec![2]);
    assert!(*c.data(&hub).unwrap() == vec![3]);
}

struct Canary(Arc<AtomicUsize>);

impl Drop for Canary {
    fn drop(&mut self) {
        self.0.fetch_add(1, Ordering::SeqCst);
    }
}

#[test]
fn block_drop() {
    let v = Arc::new(AtomicUsize::new(0));
    let (mut hub, mut ptr) = Hub::new(vec![Canary(v.clone())]);
    let a = ptr.clone(&mut hub);
    ptr.append(&mut hub, vec![Canary(v.clone())]);
    ptr.append(&mut hub, vec![Canary(v.clone())]);
    ptr.append(&mut hub, vec![Canary(v.clone())]);
    ptr.append(&mut hub, vec![Canary(v.clone())]);

    assert_eq!(v.load(Ordering::SeqCst), 0);
    ptr.release(&mut hub);
    a.release(&mut hub);
    assert_eq!(v.load(Ordering::SeqCst), 5);
}

#[test]
fn blocks_before_the_first_pointer_are_dropped() {
    let v = Arc::new(AtomicUsize::new(0));
    let (mut hub, mut ptr) = Hub::new(vec![Canary(v.clone())]);
    for _ in 0..4 {
        ptr.append(&mut hub, vec![Canary(v.clone())]);
    }
    assert_eq!(v.load(Ordering::SeqCst), 4);
    assert!(ptr.data(&hub).is_some());
    assert!(ptr.next(&mut hub).is_none());
}

#[test]
fn a_pointer_stands_at_what_it_wrote() {
    let (mut hub, mut ptr) = Hub::new(vec![1i32]);
    ptr.append(&mut hub, vec![2i32]);
    assert!(*ptr.data(&hub).unwrap() == vec![2]);
    assert!(ptr.next(&mut hub).is_none());
}

#[test]
fn pointers_outlast_what_is_freed() {
    let (mut hub, mut ptr) = Hub::new(0);
    for i in 1..100 {
        ptr.append(&mut hub, i);
    }
    let mut other = ptr.clone(&mut hub);
    for i in 100..200 {
        ptr.append(&mut hub, i);
    }
    for i in 99..199 {
        assert_eq!(other.data(&hub), Some(&i));
        let next = other.next(&mut hub).unwrap();
        other.release(&mut hub);
        other = next;
    }
    assert_eq!(other.data(&hub), Some(&199));
    assert!(other.next(&mut hub).is_none());
}
