use std::sync::atomic::{AtomicUsize, Ordering};
use std::sync::Arc;
use swmr_epoch::ptr::Live;
use swmr_epoch::{EpochGcDomain, EpochPtr};

struct Counted {
    value: u32,
    drops: Arc<AtomicUsize>,
}

impl Drop for Counted {
    fn drop(&mut self) {
        self.drops.fetch_add(1, Ordering::SeqCst);
    }
}

#[test]
fn live_holds_what_it_was_made_with() {
    let live = Live::new(7u32);
    assert_eq!(*live.share(), 7);
}

#[test]
fn live_replace_returns_the_displaced_payload() {
    let mut live = Live::new(String::from("old"));
    let displaced = live.replace(String::from("new"));
    assert_eq!(*displaced, "old");
    assert_eq!(*live.share(), "new");
    let displaced = live.replace(String::from("newer"));
    assert_eq!(*displaced, "new");
    assert_eq!(*live.share(), "newer");
}

#[test]
fn live_shares_one_allocation() {
    let live = Live::new(5u64);
    let a = live.share();
    let b = live.share();
    assert!(Arc::ptr_eq(&a, &b));
}

#[test]
fn store_then_load_returns_what_was_stored() {
    let (mut gc, domain) = EpochGcDomain::new();
    let reader = domain.register_reader();
    let ptr = EpochPtr::new(1u32);
    let guard = reader.pin();
    for value in [5u32, 0, 77, u32::MAX] {
        ptr.store(value, &mut gc);
        assert_eq!(*ptr.load(&guard), value);
    }
}

#[test]
fn load_sees_the_latest_store_under_an_old_guard() {
    let (mut gc, domain) = EpochGcDomain::new();
    let reader = domain.register_reader();
    let ptr = EpochPtr::new(String::from("a"));
    let guard = reader.pin();
    let before = ptr.load(&guard);
    ptr.store(String::from("b"), &mut gc);
    gc.collect();
    let after = ptr.load(&guard);
    assert_eq!(*before, "a");
    assert_eq!(*after, "b");
}

#[test]
fn store_retires_exactly_the_displaced_payload() {
    let first = Arc::new(AtomicUsize::new(0));
    let second = Arc::new(AtomicUsize::new(0));
    let (mut gc, domain) = EpochGcDomain::new();
    let reader = domain.register_reader();
    let ptr = EpochPtr::new(Counted {
        value: 1,
        drops: Arc::clone(&first),
    });
    assert_eq!(gc.total_garbage_count(), 0);

    ptr.store(
        Counted {
            value: 2,
            drops: Arc::clone(&second),
        },
        &mut gc,
    );
    assert_eq!(gc.total_garbage_count(), 1);
    assert_eq!(first.load(Ordering::SeqCst), 0);

    gc.collect();
    assert_eq!(gc.total_garbage_count(), 0);
    assert_eq!(first.load(Ordering::SeqCst), 1);
    assert_eq!(second.load(Ordering::SeqCst), 0);

    {
        let guard = reader.pin();
        assert_eq!(ptr.load(&guard).value, 2);
    }
    drop(ptr);
    assert_eq!(second.load(Ordering::SeqCst), 1);
    assert_eq!(first.load(Ordering::SeqCst), 1);
}

#[test]
fn displaced_payload_outlives_the_pin_that_may_see_it() {
    let drops = Arc::new(AtomicUsize::new(0));
    let (mut gc, domain) = EpochGcDomain::new();
    let reader = domain.register_reader();
    let ptr = EpochPtr::new(Counted {
        value: 1,
        drops: Arc::clone(&drops),
    });

    let guard = reader.pin();
    ptr.store(
        Counted {
            value: 2,
            drops: Arc::new(AtomicUsize::new(0)),
        },
        &mut gc,
    );
    for _ in 0..3 {
        gc.collect();
        assert_eq!(gc.total_garbage_count(), 1);
        assert_eq!(drops.load(Ordering::SeqCst), 0);
    }
    drop(guard);
    gc.collect();
    assert_eq!(gc.total_garbage_count(), 0);
    assert_eq!(drops.load(Ordering::SeqCst), 1);
}

#[test]
fn many_stores_trigger_automatic_reclamation() {
    let drops = Arc::new(AtomicUsize::new(0));
    let (mut gc, _domain) = EpochGcDomain::new();
    let ptr = EpochPtr::new(Counted {
        value: 0,
        drops: Arc::clone(&drops),
    });
    for value in 1..=65u32 {
        ptr.store(
            Counted {
                value,
                drops: Arc::clone(&drops),
            },
            &mut gc,
        );
    }
    assert_eq!(gc.total_garbage_count(), 0);
    assert_eq!(drops.load(Ordering::SeqCst), 65);
}

#[test]
fn pointers_of_different_types_share_one_handle() {
    let (mut gc, domain) = EpochGcDomain::new();
    let reader = domain.register_reader();
    let number = EpochPtr::new(1u8);
    let text = EpochPtr::new(String::from("one"));
    let list = EpochPtr::new(vec![1u16]);

    number.store(2, &mut gc);
    text.store(String::from("two"), &mut gc);
    list.store(vec![1, 2], &mut gc);
    assert_eq!(gc.total_garbage_count(), 3);

    let guard = reader.pin();
    assert_eq!(*number.load(&guard), 2);
    assert_eq!(*text.load(&guard), "two");
    assert_eq!(*list.load(&guard), vec![1, 2]);
}
