use loom::model::Builder;
use loom::sync::Arc;
use loom::thread;
use swmr_epoch::{EpochGcDomain, EpochPtr};

#[test]
fn loom_concurrent_readers() {
    loom::model(|| {
        let (gc, domain) = EpochGcDomain::new();
        let ptr = Arc::new(EpochPtr::new(42i32));

        let mut handles = vec![];

        for _ in 0..2 {
            let domain = domain.clone();
            let ptr = Arc::clone(&ptr);

            let handle = thread::spawn(move || {
                let local = domain.register_reader();
                let guard = local.pin();
                let value = ptr.load(&guard);
                assert_eq!(*value, 42);
            });

            handles.push(handle);
        }

        drop(gc);
        drop(domain);
        drop(ptr);

        for handle in handles {
            handle.join().unwrap();
        }
    });
}

#[test]
fn loom_single_writer_multi_reader() {
    loom::model(|| {
        let (mut gc, domain) = EpochGcDomain::new();
        let ptr = Arc::new(EpochPtr::new(1i32));

        let reader_domain = domain.clone();
        let reader_ptr = Arc::clone(&ptr);
        let reader_handle = thread::spawn(move || {
            let local = reader_domain.register_reader();
            let guard = local.pin();
            let value = reader_ptr.load(&guard);
            assert!(*value == 1 || *value == 2);
        });

        ptr.store(2i32, &mut gc);
        gc.collect();

        reader_handle.join().unwrap();
    });
}

#[test]
fn loom_reentrant_pinning() {
    loom::model(|| {
        let (gc, domain) = EpochGcDomain::new();
        let ptr = Arc::new(EpochPtr::new(100i32));

        let handle = thread::spawn(move || {
            let local = domain.register_reader();

            let guard1 = local.pin();
            let value1 = ptr.load(&guard1);
            assert_eq!(*value1, 100);

            let guard2 = local.pin();
            let value2 = ptr.load(&guard2);
            assert_eq!(*value2, 100);

            let value3 = ptr.load(&guard1);
            assert_eq!(*value3, 100);

            drop(guard2);

            let value4 = ptr.load(&guard1);
            assert_eq!(*value4, 100);
        });

        drop(gc);
        handle.join().unwrap();
    });
}

#[test]
fn loom_gc_safety() {
    loom::model(|| {
        let (mut gc, domain) = EpochGcDomain::new();
        let ptr = Arc::new(EpochPtr::new(1i32));

        let reader_domain = domain.clone();
        let reader_ptr = Arc::clone(&ptr);

        let reader_handle = thread::spawn(move || {
            let local = reader_domain.register_reader();
            let guard = local.pin();

            let value = reader_ptr.load(&guard);
            assert!(*value >= 1 && *value <= 3);

            thread::yield_now();

            let value2 = reader_ptr.load(&guard);
            assert!(*value2 >= 1 && *value2 <= 3);
        });

        ptr.store(2i32, &mut gc);
        gc.collect();

        ptr.store(3i32, &mut gc);
        gc.collect();

        reader_handle.join().unwrap();
    });
}

#[test]
fn loom_multiple_stores() {
    loom::model(|| {
        let (mut gc, domain) = EpochGcDomain::new();
        let ptr = EpochPtr::new(1i32);

        ptr.store(2i32, &mut gc);
        ptr.store(3i32, &mut gc);

        gc.collect();

        let local = domain.register_reader();
        let guard = local.pin();
        let value = ptr.load(&guard);
        assert_eq!(*value, 3);
    });
}

#[test]
fn loom_epoch_advancement() {
    loom::model(|| {
        let (mut gc, domain) = EpochGcDomain::new();
        let ptr = Arc::new(EpochPtr::new(0i32));

        let reader_domain = domain.clone();
        let reader_ptr = Arc::clone(&ptr);

        let reader_handle = thread::spawn(move || {
            let local = reader_domain.register_reader();

            for _ in 0..2 {
                let guard = local.pin();
                let _value = reader_ptr.load(&guard);
                drop(guard);
            }
        });

        gc.collect();
        gc.collect();

        reader_handle.join().unwrap();
    });
}

#[test]
fn loom_store_load_consistency() {
    loom::model(|| {
        let (mut gc, domain) = EpochGcDomain::new();
        let ptr = EpochPtr::new(1i32);

        ptr.store(42i32, &mut gc);

        let local = domain.register_reader();
        let guard = local.pin();
        let value = ptr.load(&guard);
        assert_eq!(*value, 42);
    });
}

#[test]
fn loom_pin_guard_cloning() {
    loom::model(|| {
        let (gc, domain) = EpochGcDomain::new();
        let ptr = Arc::new(EpochPtr::new(99i32));

        let handle = thread::spawn(move || {
            let local = domain.register_reader();
            let guard1 = local.pin();

            let guard2 = guard1.clone();

            let value1 = ptr.load(&guard1);
            let value2 = ptr.load(&guard2);
            assert_eq!(*value1, 99);
            assert_eq!(*value2, 99);

            drop(guard2);
            let value3 = ptr.load(&guard1);
            assert_eq!(*value3, 99);
        });

        drop(gc);
        handle.join().unwrap();
    });
}

#[test]
fn loom_sequential_writers() {
    loom::model(|| {
        let (mut gc, domain) = EpochGcDomain::new();
        let ptr = Arc::new(EpochPtr::new(1i32));

        let reader_domain = domain.clone();
        let reader_ptr = Arc::clone(&ptr);

        let reader = thread::spawn(move || {
            let local = reader_domain.register_reader();
            let guard = local.pin();
            let value = reader_ptr.load(&guard);
            assert!(*value >= 1 && *value <= 3);
        });

        ptr.store(2i32, &mut gc);
        gc.collect();
        ptr.store(3i32, &mut gc);
        gc.collect();

        reader.join().unwrap();
    });
}

#[test]
fn loom_multiple_epoch_ptrs() {
    loom::model(|| {
        let (mut gc, domain) = EpochGcDomain::new();
        let ptr1 = Arc::new(EpochPtr::new(10i32));
        let ptr2 = Arc::new(EpochPtr::new(20i32));

        let reader_domain = domain.clone();
        let reader_ptr1 = Arc::clone(&ptr1);
        let reader_ptr2 = Arc::clone(&ptr2);

        let reader = thread::spawn(move || {
            let local = reader_domain.register_reader();
            let guard = local.pin();

            let val1 = reader_ptr1.load(&guard);
            let val2 = reader_ptr2.load(&guard);

            assert!(*val1 == 10 || *val1 == 11);
            assert!(*val2 == 20 || *val2 == 21);
        });

        ptr1.store(11i32, &mut gc);
        ptr2.store(21i32, &mut gc);
        gc.collect();

        reader.join().unwrap();
    });
}

#[test]
fn loom_fast_pin_unpin_cycles() {
    loom::model(|| {
        let (mut gc, domain) = EpochGcDomain::new();
        let ptr = Arc::new(EpochPtr::new(0i32));

        let reader_domain = domain.clone();
        let reader_ptr = Arc::clone(&ptr);

        let reader = thread::spawn(move || {
            let local = reader_domain.register_reader();

            for _ in 0..2 {
                let guard = local.pin();
                let _value = reader_ptr.load(&guard);
                drop(guard);
                thread::yield_now();
            }
        });

        ptr.store(1i32, &mut gc);
        gc.collect();

        reader.join().unwrap();
    });
}

#[test]
fn loom_gc_with_no_active_readers() {
    loom::model(|| {
        let (mut gc, domain) = EpochGcDomain::new();
        let ptr = EpochPtr::new(1i32);

        ptr.store(2i32, &mut gc);
        ptr.store(3i32, &mut gc);
        ptr.store(4i32, &mut gc);

        gc.collect();

        let local = domain.register_reader();
        let guard = local.pin();
        let value = ptr.load(&guard);
        assert_eq!(*value, 4);
    });
}

#[test]
fn loom_local_epoch_drop() {
    loom::model(|| {
        let (mut gc, domain) = EpochGcDomain::new();
        let ptr = Arc::new(EpochPtr::new(1i32));

        let reader_domain = domain.clone();
        let reader_ptr = Arc::clone(&ptr);

        let reader = thread::spawn(move || {
            {
                let local = reader_domain.register_reader();
                let guard = local.pin();
                let value = reader_ptr.load(&guard);
                assert!(*value == 1 || *value == 2);
            }
        });

        thread::yield_now();

        ptr.store(2i32, &mut gc);
        gc.collect();

        reader.join().unwrap();
    });
}

#[test]
fn loom_reader_across_epochs() {
    loom::model(|| {
        let (mut gc, domain) = EpochGcDomain::new();
        let ptr = Arc::new(EpochPtr::new(1i32));

        let reader_domain = domain.clone();
        let reader_ptr = Arc::clone(&ptr);

        let reader = thread::spawn(move || {
            let local = reader_domain.register_reader();
            let guard = local.pin();

            let value1 = reader_ptr.load(&guard);
            thread::yield_now();
            let value2 = reader_ptr.load(&guard);
            thread::yield_now();

            assert!(*value1 >= 1 && *value1 <= 3);
            assert!(*value2 >= 1 && *value2 <= 3);
        });

        gc.collect();
        ptr.store(2i32, &mut gc);
        gc.collect();
        ptr.store(3i32, &mut gc);
        gc.collect();

        reader.join().unwrap();
    });
}

#[test]
fn loom_three_readers_one_writer() {
    let mut builder = Builder::new();
    builder.preemption_bound = Some(3);
    builder.check(|| {
        let (mut gc, domain) = EpochGcDomain::new();
        let ptr = Arc::new(EpochPtr::new(0i32));

        let mut readers = vec![];

        for _ in 0..3 {
            let reader_domain = domain.clone();
            let reader_ptr = Arc::clone(&ptr);

            let reader = thread::spawn(move || {
                let local = reader_domain.register_reader();
                let guard = local.pin();
                let value = reader_ptr.load(&guard);
                assert!(*value <= 5);
            });

            readers.push(reader);
        }

        ptr.store(5i32, &mut gc);
        gc.collect();

        for reader in readers {
            reader.join().unwrap();
        }
    });
}

#[test]
fn loom_interleaved_pin_unpin() {
    let mut builder = Builder::new();
    builder.preemption_bound = Some(5);
    builder.check(|| {
        let (mut gc, domain) = EpochGcDomain::new();
        let ptr = Arc::new(EpochPtr::new(100i32));

        let mut readers = vec![];

        for _ in 0..2 {
            let reader_domain = domain.clone();
            let reader_ptr = Arc::clone(&ptr);

            let reader = thread::spawn(move || {
                let local = reader_domain.register_reader();

                {
                    let guard = local.pin();
                    let _value = reader_ptr.load(&guard);
                }

                thread::yield_now();

                {
                    let guard = local.pin();
                    let _value = reader_ptr.load(&guard);
                }
            });

            readers.push(reader);
        }

        gc.collect();

        for reader in readers {
            reader.join().unwrap();
        }
    });
}

#[test]
fn loom_store_collect_read_race() {
    loom::model(|| {
        let (mut gc, domain) = EpochGcDomain::new();
        let ptr = Arc::new(EpochPtr::new(1i32));

        let reader_domain = domain.clone();
        let reader_ptr = Arc::clone(&ptr);

        let reader = thread::spawn(move || {
            let local = reader_domain.register_reader();
            let guard = local.pin();
            let value = reader_ptr.load(&guard);
            assert!(*value == 1 || *value == 2);
        });

        ptr.store(2i32, &mut gc);
        gc.collect();

        reader.join().unwrap();
    });
}

#[test]
fn loom_builder_custom_threshold() {
    loom::model(|| {
        let (mut gc, domain) = EpochGcDomain::builder()
            .auto_reclaim_threshold(2)
            .build();

        let ptr = EpochPtr::new(1i32);

        ptr.store(2i32, &mut gc);

        let local = domain.register_reader();
        let guard = local.pin();
        let value = ptr.load(&guard);
        assert_eq!(*value, 2);
    });
}

#[test]
fn loom_builder_no_auto_reclaim() {
    loom::model(|| {
        let (mut gc, domain) = EpochGcDomain::builder()
            .auto_reclaim_threshold(None)
            .build();

        let ptr = EpochPtr::new(1i32);

        ptr.store(2i32, &mut gc);
        ptr.store(3i32, &mut gc);

        gc.collect();

        let local = domain.register_reader();
        let guard = local.pin();
        let value = ptr.load(&guard);
        assert_eq!(*value, 3);
    });
}

#[test]
fn loom_different_pin_lifetimes() {
    let mut builder = Builder::new();
    builder.preemption_bound = Some(5);
    builder.check(|| {
        let (mut gc, domain) = EpochGcDomain::new();
        let ptr = Arc::new(EpochPtr::new(1i32));

        let reader1_domain = domain.clone();
        let reader1_ptr = Arc::clone(&ptr);
        let reader1 = thread::spawn(move || {
            let local = reader1_domain.register_reader();
            {
                let guard = local.pin();
                let _value = reader1_ptr.load(&guard);
            }
        });

        let reader2_domain = domain.clone();
        let reader2_ptr = Arc::clone(&ptr);
        let reader2 = thread::spawn(move || {
            let local = reader2_domain.register_reader();
            let guard = local.pin();
            let value = reader2_ptr.load(&guard);
            thread::yield_now();
            assert!(*value >= 1 && *value <= 2);
        });

        ptr.store(2i32, &mut gc);
        gc.collect();

        reader1.join().unwrap();
        reader2.join().unwrap();
    });
}

#[test]
fn loom_multiple_collections_no_stores() {
    loom::model(|| {
        let (mut gc, domain) = EpochGcDomain::new();
        let ptr = Arc::new(EpochPtr::new(42i32));

        let reader_domain = domain.clone();
        let reader_ptr = Arc::clone(&ptr);

        let reader = thread::spawn(move || {
            let local = reader_domain.register_reader();
            let guard = local.pin();
            let value = reader_ptr.load(&guard);
            assert_eq!(*value, 42);
        });

        gc.collect();
        gc.collect();
        gc.collect();

        reader.join().unwrap();
    });
}

#[test]
fn loom_dynamic_reader_registration() {
    let mut builder = Builder::new();
    builder.preemption_bound = Some(5);
    builder.check(|| {
        let (mut gc, domain) = EpochGcDomain::new();
        let ptr = Arc::new(EpochPtr::new(1i32));

        let reader1_domain = domain.clone();
        let reader1_ptr = Arc::clone(&ptr);
        let reader1 = thread::spawn(move || {
            let local = reader1_domain.register_reader();
            let guard = local.pin();
            let value = reader1_ptr.load(&guard);
            assert!(*value >= 1 && *value <= 2);
        });

        let reader2_domain = domain.clone();
        let reader2_ptr = Arc::clone(&ptr);
        let reader2 = thread::spawn(move || {
            thread::yield_now();
            let local = reader2_domain.register_reader();
            let guard = local.pin();
            let value = reader2_ptr.load(&guard);
            assert!(*value >= 1 && *value <= 2);
        });

        ptr.store(2i32, &mut gc);
        gc.collect();

        reader1.join().unwrap();
        reader2.join().unwrap();
    });
}

#[test]
fn loom_alternating_store_collect() {
    loom::model(|| {
        let (mut gc, domain) = EpochGcDomain::new();
        let ptr = Arc::new(EpochPtr::new(0i32));

        let reader_domain = domain.clone();
        let reader_ptr = Arc::clone(&ptr);

        let reader = thread::spawn(move || {
            let local = reader_domain.register_reader();
            let guard = local.pin();
            let value = reader_ptr.load(&guard);
            assert!(*value <= 2);
        });

        ptr.store(1i32, &mut gc);
        gc.collect();
        ptr.store(2i32, &mut gc);
        gc.collect();

        reader.join().unwrap();
    });
}

#[test]
fn loom_multiple_guards_same_local() {
    loom::model(|| {
        let (gc, domain) = EpochGcDomain::new();
        let ptr = Arc::new(EpochPtr::new(77i32));

        let handle = thread::spawn(move || {
            let local = domain.register_reader();

            let guard1 = local.pin();
            let guard2 = local.pin();
            let guard3 = guard1.clone();

            assert_eq!(*ptr.load(&guard1), 77);
            assert_eq!(*ptr.load(&guard2), 77);
            assert_eq!(*ptr.load(&guard3), 77);

            drop(guard2);
            assert_eq!(*ptr.load(&guard1), 77);
            drop(guard3);
            assert_eq!(*ptr.load(&guard1), 77);
        });

        drop(gc);
        handle.join().unwrap();
    });
}

#[test]
fn loom_new_and_immediate_load() {
    loom::model(|| {
        let (gc, domain) = EpochGcDomain::new();

        let ptr = EpochPtr::new(123i32);

        let local = domain.register_reader();
        let guard = local.pin();
        let value = ptr.load(&guard);
        assert_eq!(*value, 123);

        drop(guard);
        drop(gc);
    });
}

#[test]
fn loom_writer_only() {
    loom::model(|| {
        let (mut gc, _domain) = EpochGcDomain::new();
        let ptr = EpochPtr::new(1i32);

        ptr.store(2i32, &mut gc);
        gc.collect();
        ptr.store(3i32, &mut gc);
        gc.collect();
        ptr.store(4i32, &mut gc);
        gc.collect();

    });
}

#[test]
fn loom_reader_monotonic_observation() {
    loom::model(|| {
        let (mut gc, domain) = EpochGcDomain::new();
        let ptr = Arc::new(EpochPtr::new(1i32));

        let reader_domain = domain.clone();
        let reader_ptr = Arc::clone(&ptr);

        let reader = thread::spawn(move || {
            let local = reader_domain.register_reader();

            let guard1 = local.pin();
            let val1 = *reader_ptr.load(&guard1);
            drop(guard1);

            thread::yield_now();

            let guard2 = local.pin();
            let val2 = *reader_ptr.load(&guard2);
            drop(guard2);

            assert!(val1 >= 1 && val1 <= 3);
            assert!(val2 >= 1 && val2 <= 3);
        });

        ptr.store(2i32, &mut gc);
        gc.collect();
        ptr.store(3i32, &mut gc);
        gc.collect();

        reader.join().unwrap();
    });
}

#[test]
fn loom_builder_custom_cleanup_interval() {
    loom::model(|| {
        let (mut gc, domain) = EpochGcDomain::builder()
            .cleanup_interval(1)
            .build();

        let ptr = EpochPtr::new(1i32);

        ptr.store(2i32, &mut gc);
        gc.collect();

        let local = domain.register_reader();
        let guard = local.pin();
        let value = ptr.load(&guard);
        assert_eq!(*value, 2);
    });
}

#[test]
fn loom_builder_zero_cleanup_interval() {
    loom::model(|| {
        let (mut gc, domain) = EpochGcDomain::builder()
            .cleanup_interval(0)
            .build();

        let ptr = EpochPtr::new(42i32);

        gc.collect();

        let local = domain.register_reader();
        let guard = local.pin();
        let value = ptr.load(&guard);
        assert_eq!(*value, 42);
    });
}

#[test]
fn loom_builder_combined_options() {
    loom::model(|| {
        let (mut gc, domain) = EpochGcDomain::builder()
            .auto_reclaim_threshold(5)
            .cleanup_interval(2)
            .build();

        let ptr = EpochPtr::new(1i32);

        ptr.store(2i32, &mut gc);
        gc.collect();

        let local = domain.register_reader();
        let guard = local.pin();
        let value = ptr.load(&guard);
        assert_eq!(*value, 2);
    });
}

#[test]
fn loom_guard_outlives_stores() {
    loom::model(|| {
        let (mut gc, domain) = EpochGcDomain::new();
        let ptr = Arc::new(EpochPtr::new(1i32));

        let reader_domain = domain.clone();
        let reader_ptr = Arc::clone(&ptr);

        let reader = thread::spawn(move || {
            let local = reader_domain.register_reader();
            let guard = local.pin();

            let initial = *reader_ptr.load(&guard);

            thread::yield_now();
            thread::yield_now();

            let current = *reader_ptr.load(&guard);

            assert!(initial >= 1 && initial <= 3);
            assert!(current >= 1 && current <= 3);
        });

        ptr.store(2i32, &mut gc);
        gc.collect();
        ptr.store(3i32, &mut gc);
        gc.collect();

        reader.join().unwrap();
    });
}

#[test]
fn loom_empty_domain() {
    loom::model(|| {
        let (mut gc, _domain) = EpochGcDomain::new();
        let ptr = EpochPtr::new(10i32);

        ptr.store(20i32, &mut gc);
        gc.collect();
        ptr.store(30i32, &mut gc);
        gc.collect();
    });
}

#[test]
fn loom_single_writer_enforced() {
    loom::model(|| {
        let (mut gc, domain) = EpochGcDomain::new();
        let ptr = EpochPtr::new(1i32);

        ptr.store(2i32, &mut gc);
        ptr.store(3i32, &mut gc);

        let local = domain.register_reader();
        let guard = local.pin();
        assert_eq!(*ptr.load(&guard), 3);
    });
}

#[test]
fn loom_guard_lifetime_safety() {
    loom::model(|| {
        let (mut gc, domain) = EpochGcDomain::new();
        let ptr = Arc::new(EpochPtr::new(100i32));

        let reader_domain = domain.clone();
        let reader_ptr = Arc::clone(&ptr);

        let reader = thread::spawn(move || {
            let local = reader_domain.register_reader();

            {
                let guard = local.pin();
                let _val = reader_ptr.load(&guard);
            }

            thread::yield_now();

            {
                let guard = local.pin();
                let _val = reader_ptr.load(&guard);
            }
        });

        ptr.store(200i32, &mut gc);
        gc.collect();

        reader.join().unwrap();
    });
}

#[test]
fn loom_store_replaces_value() {
    loom::model(|| {
        let (mut gc, domain) = EpochGcDomain::new();
        let ptr = EpochPtr::new(1i32);

        ptr.store(2i32, &mut gc);

        ptr.store(3i32, &mut gc);

        gc.collect();

        let local = domain.register_reader();
        let guard = local.pin();
        assert_eq!(*ptr.load(&guard), 3);
    });
}

#[test]
fn loom_concurrent_pin_unpin_collect() {
    loom::model(|| {
        let (mut gc, domain) = EpochGcDomain::new();
        let ptr = Arc::new(EpochPtr::new(1i32));

        let reader_domain = domain.clone();
        let reader_ptr = Arc::clone(&ptr);

        let reader = thread::spawn(move || {
            let local = reader_domain.register_reader();

            let guard = local.pin();
            let _val = reader_ptr.load(&guard);
            drop(guard);

            let guard = local.pin();
            let _val = reader_ptr.load(&guard);
        });

        ptr.store(2i32, &mut gc);
        gc.collect();

        reader.join().unwrap();
    });
}

#[test]
fn loom_multiple_local_epochs() {
    loom::model(|| {
        let (mut gc, domain) = EpochGcDomain::new();
        let ptr = Arc::new(EpochPtr::new(5i32));

        let reader_domain = domain.clone();
        let reader_ptr = Arc::clone(&ptr);

        let reader = thread::spawn(move || {
            let local1 = reader_domain.register_reader();
            let local2 = reader_domain.register_reader();

            let guard1 = local1.pin();
            let guard2 = local2.pin();

            let val1 = reader_ptr.load(&guard1);
            let val2 = reader_ptr.load(&guard2);

            assert!(*val1 == 5 || *val1 == 6);
            assert!(*val2 == 5 || *val2 == 6);
        });

        ptr.store(6i32, &mut gc);
        gc.collect();

        reader.join().unwrap();
    });
}
