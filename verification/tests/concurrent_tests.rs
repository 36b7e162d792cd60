use std::sync::Arc;
use swmr_epoch::{EpochGcDomain, EpochPtr};

#[test]
fn test_sequential_writer_operations() {
    let (mut gc, domain) = EpochGcDomain::new();
    let local_epoch = domain.register_reader();
    let ptr = Arc::new(EpochPtr::new(1i32));

    ptr.store(2, &mut gc);
    {
        let guard = local_epoch.pin();
        assert_eq!(*ptr.load(&guard), 2);
    }

    ptr.store(3, &mut gc);
    {
        let guard = local_epoch.pin();
        assert_eq!(*ptr.load(&guard), 3);
    }

    ptr.store(4, &mut gc);
    {
        let guard = local_epoch.pin();
        assert_eq!(*ptr.load(&guard), 4);
    }
}

#[test]
fn test_readers_in_different_epochs() {
    let (mut gc, domain) = EpochGcDomain::new();
    let ptr = Arc::new(EpochPtr::new(0i32));

    let local_epoch1 = domain.register_reader();
    let local_epoch2 = domain.register_reader();

    let guard1 = local_epoch1.pin();
    {
        let value = *ptr.load(&guard1);
        assert_eq!(value, 0);
    }

    gc.collect();
    ptr.store(10, &mut gc);

    let guard2 = local_epoch2.pin();
    {
        let value = *ptr.load(&guard2);
        assert_eq!(value, 10);
    }

    {
        let value = *ptr.load(&guard1);
        assert_eq!(value, 10);
    }
}

#[test]
fn test_garbage_collection_trigger() {
    let (mut gc, _domain) = EpochGcDomain::new();

    for i in 0..70 {
        gc.retire(Box::new(i as i32));
    }

    assert!(gc.total_garbage_count() < 70);
}

#[test]
fn test_active_reader_protects_garbage() {
    let (mut gc, domain) = EpochGcDomain::new();
    let local_epoch = domain.register_reader();

    let _guard = local_epoch.pin();

    for i in 0..70 {
        gc.retire(Box::new(i as i32));
    }

    assert!(gc.total_garbage_count() > 0);
}

#[test]
fn test_garbage_reclaimed_after_reader_drop() {
    let (mut gc, domain) = EpochGcDomain::new();
    let local_epoch = domain.register_reader();

    {
        let _guard = local_epoch.pin();

        for i in 0..70 {
            gc.retire(Box::new(i as i32));
        }

        assert!(gc.total_garbage_count() > 0);
    }

    gc.collect();

    assert_eq!(gc.total_garbage_count(), 0);
}

#[test]
fn test_min_epoch_calculation_multiple_readers() {
    let (mut gc, domain) = EpochGcDomain::new();

    let local_epoch1 = domain.register_reader();
    let local_epoch2 = domain.register_reader();

    let _guard1 = local_epoch1.pin();

    gc.collect();

    let _guard2 = local_epoch2.pin();

    gc.retire(Box::new(100i32));

    gc.collect();

    assert!(gc.total_garbage_count() > 0);
}

#[test]
fn test_interleaved_read_write_operations() {
    let (mut gc, domain) = EpochGcDomain::new();
    let local_epoch = domain.register_reader();
    let ptr = Arc::new(EpochPtr::new(0i32));

    for i in 0..10 {
        ptr.store(i, &mut gc);

        {
            let guard = local_epoch.pin();
            let value = *ptr.load(&guard);
            assert_eq!(value, i);
        }
    }
}

#[test]
fn test_heavy_garbage_collection_cycles() {
    let (mut gc, domain) = EpochGcDomain::new();
    let local_epoch = domain.register_reader();

    for cycle in 0..10 {
        for i in 0..100 {
            gc.retire(Box::new((cycle * 100 + i) as i32));
        }

        gc.collect();

        let _guard = local_epoch.pin();
    }
}
