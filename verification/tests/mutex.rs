use quinn::mutex::{Acquire, Mutex};

#[test]
fn free_lock_is_granted() {
    let mut m = Mutex::new();
    assert_eq!(m.holder(), None);
    assert_eq!(m.try_acquire(1), Acquire::Granted);
    assert_eq!(m.holder(), Some(1));
}

#[test]
fn held_lock_queues_the_others_in_arrival_order() {
    let mut m = Mutex::new();
    assert_eq!(m.try_acquire(1), Acquire::Granted);
    assert_eq!(m.try_acquire(2), Acquire::Pending);
    assert_eq!(m.try_acquire(3), Acquire::Pending);
    assert_eq!(m.try_acquire(2), Acquire::Pending);
    assert_eq!(m.waiting(), 2);
    assert_eq!(m.release(1), Some(2));
    assert_eq!(m.holder(), None);
    assert_eq!(m.try_acquire(3), Acquire::Pending);
    assert_eq!(m.try_acquire(2), Acquire::Granted);
    assert_eq!(m.holder(), Some(2));
    assert_eq!(m.release(2), Some(3));
    assert_eq!(m.try_acquire(3), Acquire::Granted);
    assert_eq!(m.release(3), None);
    assert_eq!(m.holder(), None);
    assert_eq!(m.waiting(), 0);
}

#[test]
fn at_most_one_holder_under_many_contenders() {
    let mut m = Mutex::new();
    let mut inside: Vec<u64> = Vec::new();
    let mut seed: u64 = 0x2545_f491_4f6c_dd1d;
    for _ in 0..5000 {
        seed ^= seed << 13;
        seed ^= seed >> 7;
        seed ^= seed << 17;
        let task = seed % 7;
        match (seed >> 8) % 3 {
            0 => {
                if m.try_acquire(task) == Acquire::Granted {
                    inside.push(task);
                }
            }
            1 => {
                if inside.contains(&task) {
                    m.release(task);
                    inside.retain(|t| *t != task);
                } else {
                    assert_eq!(m.release(task), None);
                }
            }
            _ => {
                if !inside.contains(&task) {
                    m.cancel(task);
                }
            }
        }
        assert!(inside.len() <= 1);
        assert_eq!(m.holder(), inside.first().copied());
    }
}

#[test]
fn release_by_another_task_does_nothing() {
    let mut m = Mutex::new();
    m.try_acquire(1);
    m.try_acquire(2);
    assert_eq!(m.release(2), None);
    assert_eq!(m.release(9), None);
    assert_eq!(m.holder(), Some(1));
    assert_eq!(m.waiting(), 1);
}

#[test]
fn holder_asking_again_is_not_granted_twice() {
    let mut m = Mutex::new();
    assert_eq!(m.try_acquire(1), Acquire::Granted);
    assert_eq!(m.try_acquire(1), Acquire::Pending);
    assert_eq!(m.holder(), Some(1));
}

#[test]
fn cancelled_waiter_leaves_the_queue() {
    let mut m = Mutex::new();
    m.try_acquire(1);
    m.try_acquire(2);
    m.try_acquire(3);
    assert_eq!(m.cancel(2), None);
    assert_eq!(m.waiting(), 1);
    assert_eq!(m.release(1), Some(3));
}

#[test]
fn cancelled_hand_off_passes_the_lock_on() {
    let mut m = Mutex::new();
    m.try_acquire(1);
    m.try_acquire(2);
    m.try_acquire(3);
    assert_eq!(m.release(1), Some(2));
    assert_eq!(m.cancel(2), Some(3));
    assert_eq!(m.try_acquire(3), Acquire::Granted);
    assert_eq!(m.release(3), None);
    assert_eq!(m.try_acquire(4), Acquire::Granted);
}

#[test]
fn cancel_does_not_affect_the_holder() {
    let mut m = Mutex::new();
    m.try_acquire(1);
    assert_eq!(m.cancel(1), None);
    assert_eq!(m.holder(), Some(1));
}
