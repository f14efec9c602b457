use rkb2040_lib::queue::Queue;
use rkb2040_lib::scan::{Scan, MAX_SCAN_SIZE};
use rkb2040_lib::seq::BoundedSeq;

#[test]
fn queue_is_fifo() {
    let mut q: Queue<u8, 4> = Queue::new();
    assert!(q.peek().is_none());
    assert!(q.push(1).is_ok());
    assert!(q.push(2).is_ok());
    assert_eq!(q.peek(), Some(&1));
    assert_eq!(q.pop(), Some(1));
    assert!(q.push(3).is_ok());
    assert!(q.push(4).is_ok());
    assert_eq!(q.pop(), Some(2));
    assert_eq!(q.pop(), Some(3));
    assert_eq!(q.pop(), Some(4));
    assert_eq!(q.pop(), None);
}

#[test]
fn queue_holds_one_less_than_its_slots() {
    let mut q: Queue<u32, 3> = Queue::new();
    assert!(q.push(10).is_ok());
    assert!(q.push(20).is_ok());
    assert!(q.push(30).is_err());
    assert_eq!(q.pop(), Some(10));
    assert!(q.push(30).is_ok());
    assert_eq!(q.pop(), Some(20));
    assert_eq!(q.pop(), Some(30));
    assert!(q.pop().is_none());
}

#[test]
fn queue_wraps_many_times() {
    let mut q: Queue<u16, 5> = Queue::new();
    for i in 0..100u16 {
        assert!(q.push(i).is_ok());
        assert!(q.push(i + 1000).is_ok());
        assert_eq!(q.pop(), Some(i));
        assert_eq!(q.pop(), Some(i + 1000));
    }
    assert!(q.peek().is_none());
}

#[test]
fn zero_slot_queue_is_always_empty() {
    let mut q: Queue<u8, 0> = Queue::new();
    assert!(q.peek().is_none());
    assert!(q.pop().is_none());
}

#[test]
fn bounded_seq_fills_up() {
    let mut s: BoundedSeq<u8, 3> = BoundedSeq::new();
    assert_eq!(s.count(), 0);
    assert!(s.add(7).is_ok());
    assert!(s.add(8).is_ok());
    assert!(s.add(9).is_ok());
    assert!(s.add(10).is_err());
    assert_eq!(s.count(), 3);
    assert_eq!(s.to_vec(), vec![7, 8, 9]);
    s.reset();
    assert_eq!(s.count(), 0);
    assert_eq!(s.to_vec(), Vec::<u8>::new());
    assert!(s.add(1).is_ok());
    assert_eq!(s.to_vec(), vec![1]);
}

#[test]
fn bounded_seq_default_is_empty() {
    let s: BoundedSeq<u32, 4> = BoundedSeq::default();
    assert_eq!(s.count(), 0);
}

#[test]
fn bounded_seq_iterators() {
    let mut s: BoundedSeq<u8, 4> = BoundedSeq::new();
    for v in [4u8, 5, 6] {
        assert!(s.add(v).is_ok());
    }
    let mut it = s.iter();
    assert_eq!(it.next(), Some(4));
    assert_eq!(it.next(), Some(5));
    assert_eq!(it.next(), Some(6));
    assert_eq!(it.next(), None);
    assert_eq!(it.next(), None);
    let mut owned = s.into_iter();
    let mut got = Vec::new();
    while let Some(v) = owned.next() {
        got.push(v);
    }
    assert_eq!(got, vec![4, 5, 6]);
}

#[test]
fn scan_holds_twelve_keys() {
    let mut s = Scan::new();
    for k in 0..MAX_SCAN_SIZE as u8 {
        assert!(s.add_key(k + 4).is_ok());
    }
    assert!(s.add_key(0x2C).is_err());
    assert_eq!(s.count(), MAX_SCAN_SIZE);
    let mut it = s.iter();
    assert_eq!(it.next(), Some(4));
    let mut owned = s.into_iter();
    let mut n = 0;
    while let Some(_) = owned.next() {
        n += 1;
    }
    assert_eq!(n, MAX_SCAN_SIZE);
    s.reset();
    assert_eq!(s.count(), 0);
    assert_eq!(Scan::default().count(), 0);
}
