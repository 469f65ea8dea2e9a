use arc_pool::{Arc, Pool};
use std::mem;

#[test]
fn release_frees() {
    let mut buf: [u8; 100] = [0; 100];
    let mut p = Pool::<u32>::new(&mut buf[..]);

    // The bare claims keep their references until they are released by hand.
    assert!(p.internal_alloc().is_ok());
    assert!(p.internal_alloc().is_ok());

    assert_eq!(2, p.live_count());

    p.release(0);
    assert_eq!(1, p.live_count());
    assert_eq!(1, p.free_list().len());
    assert_eq!(0, *p.free_list().front().unwrap());

    p.release(1);
    assert_eq!(0, p.live_count());
    assert_eq!(2, p.free_list().len());
}

#[test]
fn alloc_after_free_recycles() {
    let mut buf: [u8; 100] = [0; 100];
    let mut p = Pool::<u32>::new(&mut buf[..]);
    assert!(p.internal_alloc().is_ok());
    assert_eq!(1, p.live_count());
    assert_eq!(1, p.tail());

    p.release(0);
    assert_eq!(0, p.live_count());
    assert_eq!(1, p.free_list().len());

    assert!(p.internal_alloc().is_ok());
    assert_eq!(1, p.tail()); // The high-water mark does not move.
    assert_eq!(1, p.live_count());
    assert_eq!(0, p.free_list().len());
}

#[test]
fn arc_clone() {
    let mut buf: [u8; 100] = [0; 100];
    let mut p = Pool::<u32>::new(&mut buf[..]);
    {
        let int1: Arc<u32> = p.allocate().unwrap();
        assert_eq!(1, int1.ref_count(&p));
        assert_eq!(1, p.header_for(0).ref_count);
        {
            let int1_c: Arc<u32> = int1.clone(&mut p); // One more reference.
            assert_eq!(2, int1.ref_count(&p));
            assert_eq!(2, int1_c.ref_count(&p));
            assert_eq!(2, p.header_for(0).ref_count);
            int1_c.drop(&mut p);
        }
        // The clone is gone, the slot is still in use.
        assert_eq!(1, p.header_for(0).ref_count);
        assert_eq!(0, p.free_list().len());
        int1.drop(&mut p);
    }
    // The first handle is gone too, and the slot is free.
    assert_eq!(0, p.header_for(0).ref_count);
    assert_eq!(1, p.free_list().len());
}

#[test]
fn arc_drop() {
    let mut buf: [u8; 100] = [0; 100];
    let mut p = Pool::<u32>::new(&mut buf[..]);
    {
        let int1: Arc<u32> = p.allocate().unwrap();
        assert_eq!(1, int1.ref_count(&p));
        assert_eq!(1, p.header_for(0).ref_count);
        {
            let int2: Arc<u32> = p.allocate().unwrap();
            assert_eq!(1, int2.ref_count(&p));
            assert_eq!(1, p.header_for(1).ref_count);
            int2.drop(&mut p);
        }
        assert_eq!(0, p.header_for(1).ref_count);
        assert_eq!(1, p.free_list().len());
        int1.drop(&mut p);
    }
    assert_eq!(0, p.header_for(0).ref_count);
    assert_eq!(2, p.free_list().len());
}

#[test]
fn construction() {
    let mut buf: [u8; 100] = [0; 100];
    let p = Pool::<u32>::new(&mut buf[..]);

    assert_eq!(100, p.buffer_size());
    assert_eq!(mem::size_of::<usize>(), p.header_size());

    let expected_size = mem::size_of::<usize>() + mem::size_of::<u32>();
    assert_eq!(expected_size, p.slot_size());
    assert_eq!(100 / expected_size, p.capacity()); // 8 + 4 = 12 bytes per slot
    assert_eq!(8, p.capacity());
}

#[test]
fn free_list_alloc_works() {
    let mut buf: [u8; 100] = [0; 100];
    let mut p = Pool::<u32>::new(&mut buf[..]);
    {
        let mut int1: Arc<u32> = p.allocate().unwrap();
        int1.set(&mut p, 42);
        // The payload.
        assert_eq!([42u8, 0u8, 0u8, 0u8][..], p.buffer()[8..12]);
        // The reference count.
        assert_eq!([1u8, 0u8, 0u8, 0u8, 0u8, 0u8, 0u8, 0u8][..], p.buffer()[0..8]);
        assert_eq!(1, p.live_count());
        int1.drop(&mut p);
    }
    // The handle is gone: the count is back at zero.
    assert_eq!([0u8; 8][..], buf[0..8]);
}

#[test]
fn check_oom_error() {
    let mut buf: [u8; 1] = [0; 1];
    let mut p = Pool::<u32>::new(&mut buf[..]);
    assert_eq!(Err("OOM"), p.allocate());
}

#[test]
fn multiple_allocations_work() {
    let mut buf: [u8; 120] = [0; 120];
    let mut p = Pool::<u32>::new(&mut buf[..]);
    for i in 0..10 {
        let mut int1 = p.allocate().unwrap();
        int1.set(&mut p, i);
        // One more reference keeps the slot alive when the handle ends.
        int1.retain(&mut p);
        int1.drop(&mut p);
    }
    assert_eq!(10, p.live_count());
    let expected_ref_count = [1u8, 0u8, 0u8, 0u8, 0u8, 0u8, 0u8, 0u8];
    for i in 0..10 {
        let start = 12 * i;
        // The reference count.
        assert_eq!(expected_ref_count[..], buf[start..start + 8]);
        // The payload.
        assert_eq!([i as u8, 0u8, 0u8, 0u8][..], buf[start + 8..start + 12]);
    }
}
