use loom::model::Builder;
use loom::thread;
use std::sync::Arc;
use swmr_epoch::{EpochGcDomain, EpochPtr};

#[test]
fn dead_reader_thread_is_cleaned_up() {
    loom::model(|| {
        let (mut gc, domain) = EpochGcDomain::builder().cleanup_interval(16).build();

        let reader_domain = domain.clone();
        let reader = thread::spawn(move || {
            let local = reader_domain.register_reader();
            let _guard = local.pin();
        });
        reader.join().unwrap();
        assert_eq!(domain.reader_count(), 1);

        for _ in 0..16 {
            gc.collect();
        }
        assert_eq!(domain.reader_count(), 0);
    });
}

#[test]
fn concurrent_readers_with_burst_writes() {
    let mut builder = Builder::new();
    builder.preemption_bound = Some(2);
    builder.check(|| {
        let (mut gc, domain) = EpochGcDomain::new();
        let ptr = Arc::new(EpochPtr::new(0u32));

        let mut readers = vec![];
        for _ in 0..4 {
            let domain = domain.clone();
            let ptr = Arc::clone(&ptr);
            readers.push(thread::spawn(move || {
                let local = domain.register_reader();
                let mut last = 0u32;
                for _ in 0..3 {
                    let guard = local.pin();
                    let value = *ptr.load(&guard);
                    assert!(value <= 100);
                    assert!(value >= last);
                    last = value;
                    drop(guard);
                    thread::yield_now();
                }
            }));
        }

        for value in 1..=100u32 {
            ptr.store(value, &mut gc);
            if value % 50 == 0 {
                thread::yield_now();
            }
        }

        for reader in readers {
            reader.join().unwrap();
        }
        let local = domain.register_reader();
        let guard = local.pin();
        assert_eq!(*ptr.load(&guard), 100);
    });
}
