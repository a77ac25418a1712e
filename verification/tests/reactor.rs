use std::sync::atomic::{AtomicUsize, Ordering};
use std::sync::Arc;
use std::task::{Wake, Waker};

use io_reactor::reactor::{Reactor, ReadyEvent, Woken};

struct Counter {
    wakes: AtomicUsize,
}

impl Wake for Counter {
    fn wake(self: Arc<Self>) {
        self.wakes.fetch_add(1, Ordering::SeqCst);
    }
}

fn counter() -> (Arc<Counter>, Waker) {
    let c = Arc::new(Counter { wakes: AtomicUsize::new(0) });
    let w = Waker::from(c.clone());
    (c, w)
}

fn wakes(c: &Arc<Counter>) -> usize {
    c.wakes.load(Ordering::SeqCst)
}

fn readable(key: usize) -> ReadyEvent {
    ReadyEvent { key, readable: true, writable: false }
}

fn writable(key: usize) -> ReadyEvent {
    ReadyEvent { key, readable: false, writable: true }
}

fn wake_all(woken: Vec<Woken>) {
    for w in woken {
        w.waker.wake();
    }
}

fn tokens(woken: &[Woken]) -> Vec<(usize, u64)> {
    woken.iter().map(|w| (w.fd, w.token)).collect()
}

#[test]
fn parked_reader_is_woken_by_readable_event() {
    let (c, w) = counter();
    let mut r = Reactor::new();
    r.modify_readable(3, w);
    let mut events = vec![readable(3)];
    let woken = r.wait(&mut events);
    assert_eq!(tokens(&woken), vec![(3, 6)]);
    assert!(events.is_empty());
    wake_all(woken);
    assert_eq!(wakes(&c), 1);
}

#[test]
fn parked_writer_is_woken_by_writable_event() {
    let (c, w) = counter();
    let mut r = Reactor::new();
    r.modify_writable(4, w);
    let mut events = vec![writable(4)];
    let woken = r.wait(&mut events);
    assert_eq!(tokens(&woken), vec![(4, 9)]);
    wake_all(woken);
    assert_eq!(wakes(&c), 1);
}

#[test]
fn writable_event_leaves_reader_parked() {
    let (c, w) = counter();
    let mut r = Reactor::new();
    r.modify_readable(5, w);
    let mut events = vec![writable(5)];
    assert!(r.wait(&mut events).is_empty());
    let mut events = vec![readable(5)];
    let woken = r.wait(&mut events);
    assert_eq!(tokens(&woken), vec![(5, 10)]);
    wake_all(woken);
    assert_eq!(wakes(&c), 1);
}

#[test]
fn readable_and_writable_event_wakes_reader_then_writer() {
    let (cr, wr) = counter();
    let (cw, ww) = counter();
    let mut r = Reactor::new();
    r.modify_readable(7, wr);
    r.modify_writable(7, ww);
    let mut events = vec![ReadyEvent { key: 7, readable: true, writable: true }];
    let woken = r.wait(&mut events);
    assert_eq!(tokens(&woken), vec![(7, 14), (7, 15)]);
    wake_all(woken);
    assert_eq!(wakes(&cr), 1);
    assert_eq!(wakes(&cw), 1);
}

#[test]
fn buffer_is_handled_first_then_from_the_back() {
    let mut r = Reactor::new();
    let mut counters = Vec::new();
    for fd in [1, 2, 3, 4] {
        let (c, w) = counter();
        r.modify_readable(fd, w);
        counters.push(c);
    }
    let mut events = vec![readable(1), readable(2), readable(3), readable(4)];
    let woken = r.wait(&mut events);
    assert_eq!(tokens(&woken), vec![(1, 2), (4, 8), (3, 6), (2, 4)]);
    assert!(events.is_empty());
    wake_all(woken);
    for c in &counters {
        assert_eq!(wakes(c), 1);
    }
}

#[test]
fn replaying_events_wakes_nothing() {
    let (c, w) = counter();
    let mut r = Reactor::new();
    r.modify_readable(3, w);
    let mut events = vec![readable(3), readable(3)];
    let woken = r.wait(&mut events);
    assert_eq!(tokens(&woken), vec![(3, 6)]);
    let mut again = vec![readable(3), readable(3)];
    assert!(r.wait(&mut again).is_empty());
    wake_all(woken);
    assert_eq!(wakes(&c), 1);
}

#[test]
fn event_for_unregistered_descriptor_wakes_nothing() {
    let mut r = Reactor::default();
    let mut events = vec![readable(8), writable(9), ReadyEvent { key: 10, readable: false, writable: false }];
    assert!(r.wait(&mut events).is_empty());
    assert!(events.is_empty());
}

#[test]
fn reregistering_replaces_the_parked_task() {
    let (c1, w1) = counter();
    let (c2, w2) = counter();
    let mut r = Reactor::new();
    r.modify_readable(3, w1);
    r.modify_readable(3, w2);
    let mut events = vec![readable(3)];
    let woken = r.wait(&mut events);
    assert_eq!(woken.len(), 1);
    wake_all(woken);
    assert_eq!(wakes(&c1), 0);
    assert_eq!(wakes(&c2), 1);
}

#[test]
fn delete_forgets_both_directions_of_one_descriptor_only() {
    let (c1, w1) = counter();
    let (c2, w2) = counter();
    let (c3, w3) = counter();
    let mut r = Reactor::new();
    r.modify_readable(3, w1);
    r.modify_writable(3, w2);
    r.modify_readable(4, w3);
    r.delete(3);
    let mut events = vec![
        ReadyEvent { key: 3, readable: true, writable: true },
        readable(4),
    ];
    let woken = r.wait(&mut events);
    assert_eq!(tokens(&woken), vec![(4, 8)]);
    wake_all(woken);
    assert_eq!(wakes(&c1), 0);
    assert_eq!(wakes(&c2), 0);
    assert_eq!(wakes(&c3), 1);
}

#[test]
fn descriptor_zero_uses_tokens_zero_and_one() {
    let (_c1, w1) = counter();
    let (_c2, w2) = counter();
    let mut r = Reactor::new();
    r.modify_readable(0, w1);
    r.modify_writable(0, w2);
    let mut events = vec![ReadyEvent { key: 0, readable: true, writable: true }];
    let woken = r.wait(&mut events);
    assert_eq!(tokens(&woken), vec![(0, 0), (0, 1)]);
}

#[test]
fn largest_descriptor_tokens() {
    let (_c1, w1) = counter();
    let mut r = Reactor::new();
    r.modify_writable(i32::MAX, w1);
    let mut events = vec![writable(i32::MAX as usize)];
    let woken = r.wait(&mut events);
    assert_eq!(tokens(&woken), vec![(i32::MAX as usize, 2 * (i32::MAX as u64) + 1)]);
}

#[test]
fn parked_reader_survives_unrelated_calls_until_its_event() {
    let (cr, wr) = counter();
    let (_cw, ww) = counter();
    let (_co, wo) = counter();
    let mut r = Reactor::new();
    r.modify_readable(3, wr);
    r.modify_writable(3, ww);
    r.modify_readable(4, wo);
    r.delete(4);
    let mut unrelated = vec![writable(3), readable(5)];
    assert_eq!(tokens(&r.wait(&mut unrelated)), vec![(3, 7)]);
    let mut events = vec![readable(9), readable(3), readable(3)];
    let woken = r.wait(&mut events);
    assert_eq!(tokens(&woken), vec![(3, 6)]);
    wake_all(woken);
    assert_eq!(wakes(&cr), 1);
}

#[test]
fn latest_registration_wins_across_history() {
    let (c1, w1) = counter();
    let (c2, w2) = counter();
    let (c3, w3) = counter();
    let mut r = Reactor::new();
    r.modify_readable(6, w1);
    r.delete(6);
    r.modify_readable(6, w2);
    let mut events = vec![readable(6)];
    wake_all(r.wait(&mut events));
    r.modify_readable(6, w3);
    let mut events = vec![readable(6)];
    wake_all(r.wait(&mut events));
    assert_eq!((wakes(&c1), wakes(&c2), wakes(&c3)), (0, 1, 1));
}
