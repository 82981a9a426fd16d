use quinn::notifier::Notifier;

#[test]
fn fire_reaches_early_and_late_subscribers_once() {
    let mut b: Notifier<u32> = Notifier::new();
    let a = b.subscribe().unwrap();
    let c = b.subscribe().unwrap();
    assert_eq!(b.poll(a), None);
    let woken = b.fire(7);
    assert_eq!(woken, vec![a, c]);
    let late = b.subscribe().unwrap();
    assert_eq!(b.fire(9), Vec::<u64>::new());
    assert_eq!(b.poll(a), Some(7));
    assert_eq!(b.poll(a), None);
    assert_eq!(b.poll(late), Some(7));
    assert_eq!(b.poll(late), None);
    assert_eq!(b.poll(c), Some(7));
    assert_eq!(b.poll(c), None);
    assert_eq!(b.waiting_count(), 0);
}

#[test]
fn fan_out_delivers_to_n_plus_m_subscribers() {
    let n = 5;
    let m = 4;
    let mut b: Notifier<u64> = Notifier::new();
    let mut handles = Vec::new();
    for _ in 0..n {
        handles.push(b.subscribe().unwrap());
    }
    let woken = b.fire(99);
    assert_eq!(woken, handles);
    for _ in 0..m {
        handles.push(b.subscribe().unwrap());
    }
    assert_eq!(b.waiting_count(), n + m);
    let mut delivered = 0;
    for round in 0..3 {
        for h in handles.iter() {
            match b.poll(*h) {
                Some(p) => {
                    assert_eq!(p, 99);
                    assert_eq!(round, 0);
                    delivered += 1;
                }
                None => assert!(round > 0),
            }
        }
    }
    assert_eq!(delivered, n + m);
}

#[test]
fn nothing_is_delivered_before_the_fire() {
    let mut b: Notifier<u8> = Notifier::new();
    let h = b.subscribe().unwrap();
    assert!(!b.is_fired());
    assert_eq!(b.payload(), None);
    assert_eq!(b.poll(h), None);
    assert_eq!(b.waiting_count(), 1);
    assert_eq!(b.fire(1), vec![h]);
    assert!(b.is_fired());
    assert_eq!(b.payload(), Some(1));
    assert_eq!(b.poll(h), Some(1));
}

#[test]
fn second_fire_keeps_the_first_payload() {
    let mut b: Notifier<u8> = Notifier::new();
    let h = b.subscribe().unwrap();
    b.fire(1);
    assert_eq!(b.fire(2), Vec::<u64>::new());
    assert_eq!(b.payload(), Some(1));
    assert_eq!(b.poll(h), Some(1));
}

#[test]
fn unsubscribed_handle_is_neither_woken_nor_served() {
    let mut b: Notifier<u8> = Notifier::new();
    let a = b.subscribe().unwrap();
    let c = b.subscribe().unwrap();
    b.unsubscribe(a);
    assert_eq!(b.fire(3), vec![c]);
    assert_eq!(b.poll(a), None);
    assert_eq!(b.poll(c), Some(3));
}

#[test]
fn unknown_handle_is_served_nothing() {
    let mut b: Notifier<u8> = Notifier::new();
    b.fire(3);
    assert_eq!(b.poll(17), None);
}

#[test]
fn handles_are_issued_in_increasing_order() {
    let mut b: Notifier<u8> = Notifier::new();
    assert_eq!(b.subscribe(), Some(0));
    assert_eq!(b.subscribe(), Some(1));
    b.unsubscribe(0);
    assert_eq!(b.subscribe(), Some(2));
}
