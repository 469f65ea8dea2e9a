use arc_pool::codec::{copy_bytes, load_le, store_le, zero_fill};
use arc_pool::payload::Payload;
use arc_pool::text::{describe_handle, digit_str, push_decimal};
use arc_pool::{Arc, Pool};

#[test]
fn store_le_writes_least_significant_byte_first() {
    let mut buf = vec![0xaau8; 8];
    store_le(&mut buf, 2, 4, 0x0403_0201);
    assert_eq!(vec![0xaa, 0xaa, 1, 2, 3, 4, 0xaa, 0xaa], buf);
}

#[test]
fn store_le_keeps_the_low_digits_of_a_wide_value() {
    let mut buf = vec![0u8; 3];
    store_le(&mut buf, 0, 2, 0x0a0b_0c0d);
    assert_eq!(vec![0x0d, 0x0c, 0], buf);
}

#[test]
fn store_le_of_width_zero_changes_nothing() {
    let mut buf = vec![7u8, 8u8];
    store_le(&mut buf, 1, 0, 99);
    assert_eq!(vec![7, 8], buf);
}

#[test]
fn load_le_reads_what_store_le_wrote() {
    let mut buf = vec![0u8; 16];
    store_le(&mut buf, 5, 8, 0x1122_3344_5566_7788);
    assert_eq!(0x1122_3344_5566_7788, load_le(&buf, 5, 8));
    assert_eq!(0x7788, load_le(&buf, 5, 2));
    assert_eq!(0, load_le(&buf, 5, 0));
}

#[test]
fn load_le_exact_value() {
    let buf = vec![0x34u8, 0x12, 0xff];
    assert_eq!(0x1234, load_le(&buf, 0, 2));
    assert_eq!(0xff_1234, load_le(&buf, 0, 3));
}

#[test]
fn zero_fill_zeroes_every_byte() {
    let mut buf = vec![1u8, 2, 3];
    zero_fill(&mut buf);
    assert_eq!(vec![0, 0, 0], buf);
    let mut empty: Vec<u8> = Vec::new();
    zero_fill(&mut empty);
    assert!(empty.is_empty());
}

#[test]
fn copy_bytes_copies_a_run() {
    let mut buf = vec![1u8, 2, 3, 4, 5, 6];
    copy_bytes(&mut buf, 0, 3, 3);
    assert_eq!(vec![1, 2, 3, 1, 2, 3], buf);
    copy_bytes(&mut buf, 4, 0, 2);
    assert_eq!(vec![2, 3, 3, 1, 2, 3], buf);
    copy_bytes(&mut buf, 1, 1, 4);
    assert_eq!(vec![2, 3, 3, 1, 2, 3], buf);
}

#[test]
fn payload_sizes() {
    assert_eq!(1, <u8 as Payload>::size());
    assert_eq!(2, <u16 as Payload>::size());
    assert_eq!(4, <u32 as Payload>::size());
    assert_eq!(8, <u64 as Payload>::size());
}

#[test]
fn payload_round_trips() {
    let mut buf = vec![0u8; 16];
    0xabu8.store(&mut buf, 0);
    0xbeefu16.store(&mut buf, 1);
    0xdead_beefu32.store(&mut buf, 3);
    0x0102_0304_0506_0708u64.store(&mut buf, 7);
    assert_eq!(
        vec![0xab, 0xef, 0xbe, 0xef, 0xbe, 0xad, 0xde, 8, 7, 6, 5, 4, 3, 2, 1, 0],
        buf
    );
    assert_eq!(0xab, <u8 as Payload>::load(&buf, 0));
    assert_eq!(0xbeef, <u16 as Payload>::load(&buf, 1));
    assert_eq!(0xdead_beef, <u32 as Payload>::load(&buf, 3));
    assert_eq!(0x0102_0304_0506_0708, <u64 as Payload>::load(&buf, 7));
}

#[test]
fn decimal_text() {
    let mut s = String::new();
    push_decimal(&mut s, 0);
    assert_eq!("0", s);
    let mut s = String::from("n=");
    push_decimal(&mut s, 1234567890);
    assert_eq!("n=1234567890", s);
    let mut s = String::new();
    push_decimal(&mut s, 10);
    assert_eq!("10", s);
    assert_eq!("7", digit_str(7));
}

#[test]
fn handle_description() {
    assert_eq!("Arc{ offset: 0, ref_count: 1 }", describe_handle(0, 1));
    assert_eq!("Arc{ offset: 12, ref_count: 305 }", describe_handle(12, 305));
}

#[test]
fn debug_string_shows_slot_and_count() {
    let mut mem = vec![0u8; 100];
    let mut p = Pool::<u32>::new(&mut mem);
    let a = p.allocate().unwrap();
    let b = p.allocate().unwrap();
    let b2 = b.clone(&mut p);
    assert_eq!("Arc{ offset: 0, ref_count: 1 }", a.debug_string(&p));
    assert_eq!("Arc{ offset: 1, ref_count: 2 }", b2.debug_string(&p));
}

#[test]
fn layout_of_other_payload_widths() {
    let word = std::mem::size_of::<usize>();
    let mut mem = vec![0u8; 100];
    let p = Pool::<u8>::new(&mut mem);
    assert_eq!(word + 1, p.slot_size());
    assert_eq!(100 / (word + 1), p.capacity());
    let mut more = vec![0u8; 100];
    let p = Pool::<u64>::new(&mut more);
    assert_eq!(word + 8, p.slot_size());
    assert_eq!(100 / (word + 8), p.capacity());
    assert_eq!(0, p.tail());
    assert_eq!(0, p.live_count());
    assert!(p.free_list().is_empty());
}

#[test]
fn trailing_bytes_are_never_touched() {
    // 100 bytes hold 8 slots of 12 bytes; the last 4 bytes belong to no slot.
    let mut mem = vec![0u8; 100];
    for b in mem[96..].iter_mut() {
        *b = 0xee;
    }
    let mut p = Pool::<u32>::new(&mut mem);
    assert!(p.is_consistent());
    for i in 0..8u32 {
        let mut h = p.allocate().unwrap();
        h.set(&mut p, 0xffff_ffff - i);
    }
    assert_eq!(Err("OOM"), p.allocate());
    assert_eq!([0xeeu8; 4][..], p.buffer()[96..]);
}

#[test]
fn out_of_memory_changes_nothing() {
    let mut mem = vec![0u8; 24];
    let mut p = Pool::<u32>::new(&mut mem);
    let a = p.allocate().unwrap();
    let b = p.allocate().unwrap();
    assert_eq!(0, a.index());
    assert_eq!(1, b.index());
    let before = p.buffer().to_vec();
    assert_eq!(Err("OOM"), p.allocate());
    assert_eq!(Err("OOM"), p.internal_alloc());
    assert_eq!(Err("OOM"), p.claim_free_index());
    assert_eq!(Err("OOM"), p.push_back_alloc());
    assert_eq!(Err("OOM"), p.alloc_with_contents_of(&a));
    assert_eq!(2, p.tail());
    assert_eq!(2, p.live_count());
    assert_eq!(before[..], *p.buffer());
    assert!(p.is_consistent());
    // A release makes room again.
    b.drop(&mut p);
    let c = p.allocate().unwrap();
    assert_eq!(1, c.index());
    assert_eq!(2, p.tail());
}

#[test]
fn empty_buffer_is_out_of_memory() {
    let mut mem: Vec<u8> = Vec::new();
    let mut p = Pool::<u64>::new(&mut mem);
    assert_eq!(0, p.capacity());
    assert_eq!(Err("OOM"), p.allocate());
    assert_eq!(0, p.tail());
}

#[test]
fn push_back_alloc_moves_the_mark() {
    let mut mem = vec![0u8; 20];
    let mut p = Pool::<u16>::new(&mut mem);
    assert_eq!(2, p.capacity());
    assert_eq!(Ok(0), p.push_back_alloc());
    assert_eq!(Ok(1), p.push_back_alloc());
    assert_eq!(Err("OOM"), p.push_back_alloc());
    assert_eq!(2, p.tail());
    // The mark alone does not count references.
    assert_eq!(0, p.header_for(0).ref_count);
}

#[test]
fn free_list_is_first_in_first_out() {
    let mut mem = vec![0u8; 120];
    let mut p = Pool::<u32>::new(&mut mem);
    for _ in 0..4 {
        p.internal_alloc().unwrap();
    }
    p.release(2);
    p.release(0);
    p.release(3);
    assert_eq!(vec![2, 0, 3], p.free_list().iter().copied().collect::<Vec<usize>>());
    assert_eq!(Ok(2), p.claim_free_index());
    assert_eq!(Ok(0), p.claim_free_index());
    assert_eq!(Ok(3), p.claim_free_index());
    assert_eq!(Ok(4), p.claim_free_index());
    assert_eq!(5, p.tail());
    assert_eq!(5, p.live_count());
}

#[test]
fn claim_then_release_restores_the_live_count() {
    let mut mem = vec![0u8; 120];
    let mut p = Pool::<u32>::new(&mut mem);
    p.internal_alloc().unwrap();
    p.internal_alloc().unwrap();
    p.release(0);
    let before = p.live_count();
    let index = p.internal_alloc().unwrap();
    assert_eq!(0, index);
    assert_eq!(before + 1, p.live_count());
    p.release(index);
    assert_eq!(before, p.live_count());
    assert_eq!(Some(&0), p.free_list().front());
    assert_eq!(Some(&0), p.free_list().back());
    assert_eq!(2, p.tail());
}

#[test]
fn released_slot_goes_to_the_end_of_the_free_list() {
    let mut mem = vec![0u8; 120];
    let mut p = Pool::<u32>::new(&mut mem);
    for _ in 0..3 {
        p.internal_alloc().unwrap();
    }
    p.release(1);
    p.release(2);
    // Claim takes slot 1; its release puts it behind slot 2.
    let index = p.internal_alloc().unwrap();
    assert_eq!(1, index);
    p.release(index);
    assert_eq!(Some(&2), p.free_list().front());
    assert_eq!(Some(&1), p.free_list().back());
}

#[test]
fn clone_chain_counts_down_to_zero_once() {
    let mut mem = vec![0u8; 100];
    let mut p = Pool::<u32>::new(&mut mem);
    let first = p.allocate().unwrap();
    let mut handles = Vec::new();
    for n in 0..5 {
        handles.push(first.clone(&mut p));
        assert_eq!(n + 2, first.ref_count(&p));
    }
    handles.push(first);
    let mut expected = 6;
    for h in handles {
        assert_eq!(expected, p.header_for(0).ref_count);
        assert!(p.free_list().is_empty());
        assert_eq!(1, p.live_count());
        h.drop(&mut p);
        expected -= 1;
        assert_eq!(expected, p.header_for(0).ref_count);
    }
    assert_eq!(0, p.header_for(0).ref_count);
    assert_eq!(vec![0], p.free_list().iter().copied().collect::<Vec<usize>>());
    assert_eq!(0, p.live_count());
    assert!(p.is_consistent());
}

#[test]
fn retain_and_release_by_index() {
    let mut mem = vec![0u8; 100];
    let mut p = Pool::<u32>::new(&mut mem);
    let index = p.internal_alloc().unwrap();
    p.retain(index);
    p.retain(index);
    assert_eq!(3, p.header_for(index).ref_count);
    let word = std::mem::size_of::<usize>();
    assert_eq!(3, p.buffer()[0]);
    assert!(p.buffer()[1..word].iter().all(|b| *b == 0));
    p.release(index);
    assert_eq!(2, p.header_for(index).ref_count);
    assert!(p.free_list().is_empty());
    p.release(index);
    p.release(index);
    assert_eq!(0, p.header_for(index).ref_count);
    assert_eq!(1, p.free_list().len());
}

#[test]
fn counts_above_one_byte_are_carried() {
    let mut mem = vec![0u8; 32];
    let mut p = Pool::<u8>::new(&mut mem);
    let index = p.internal_alloc().unwrap();
    for _ in 0..299 {
        p.retain(index);
    }
    assert_eq!(300, p.header_for(index).ref_count);
    assert_eq!([44u8, 1u8][..], p.buffer()[0..2]);
    for _ in 0..299 {
        p.release(index);
    }
    assert_eq!(1, p.header_for(index).ref_count);
    assert_eq!(1, p.live_count());
}

#[test]
fn handle_retain_and_release() {
    let mut mem = vec![0u8; 100];
    let mut p = Pool::<u32>::new(&mut mem);
    let mut h = p.allocate().unwrap();
    h.retain(&mut p);
    assert_eq!(2, h.ref_count(&p));
    h.release(&mut p);
    assert_eq!(1, h.ref_count(&p));
    assert_eq!(1, p.live_count());
    h.drop(&mut p);
    assert_eq!(0, p.live_count());
}

#[test]
fn values_are_read_back() {
    let mut mem = vec![0u8; 64];
    let mut p = Pool::<u64>::new(&mut mem);
    let mut a = p.allocate().unwrap();
    let mut b = p.allocate().unwrap();
    a.set(&mut p, 0x0102_0304_0506_0708);
    b.set(&mut p, u64::MAX);
    assert_eq!(0x0102_0304_0506_0708, a.get(&p));
    assert_eq!(u64::MAX, b.get(&p));
    assert_eq!(0x0102_0304_0506_0708, p.get(0));
    p.set(0, 5);
    assert_eq!(5, a.get(&p));
    assert_eq!(u64::MAX, p.get(1));
    // Writing a payload leaves the counts alone.
    assert_eq!(1, a.ref_count(&p));
    assert_eq!(1, b.ref_count(&p));
}

#[test]
fn value_lies_behind_the_count_of_its_slot() {
    let word = std::mem::size_of::<usize>();
    let mut mem = vec![0u8; 64];
    let mut p = Pool::<u16>::new(&mut mem);
    let _a = p.allocate().unwrap();
    let _b = p.allocate().unwrap();
    let mut c = p.allocate().unwrap();
    c.set(&mut p, 0x1234);
    let slot = word + 2;
    assert_eq!(slot, p.slot_size());
    assert_eq!(2 * slot + word, p.raw_contents_for(2));
    assert_eq!(1, p.buffer()[2 * slot]);
    assert_eq!([0x34u8, 0x12u8][..], p.buffer()[2 * slot + word..3 * slot]);
}

#[test]
fn stale_payload_stays_until_overwritten() {
    let mut mem = vec![0u8; 100];
    let mut p = Pool::<u32>::new(&mut mem);
    let mut a = p.allocate().unwrap();
    a.set(&mut p, 77);
    a.drop(&mut p);
    let b = p.allocate().unwrap();
    assert_eq!(0, b.index());
    assert_eq!(77, b.get(&p));
}

#[test]
fn alloc_with_contents_of_copies_the_value() {
    let mut mem = vec![0u8; 100];
    let mut p = Pool::<u32>::new(&mut mem);
    let mut a = p.allocate().unwrap();
    a.set(&mut p, 0xcafe_f00d);
    let b = p.alloc_with_contents_of(&a).unwrap();
    assert_eq!(1, b.index());
    assert_eq!(0xcafe_f00d, b.get(&p));
    assert_eq!(0xcafe_f00d, a.get(&p));
    assert_eq!(1, a.ref_count(&p));
    assert_eq!(1, b.ref_count(&p));
    assert_eq!(2, p.live_count());
    assert_eq!(p.buffer()[8..12], p.buffer()[20..24]);
}

#[test]
fn handles_are_equal_by_pool_and_slot() {
    let mut mem = vec![0u8; 100];
    let mut p = Pool::<u32>::with_id(&mut mem, 1);
    let mut more = vec![0u8; 100];
    let mut q = Pool::<u32>::with_id(&mut more, 2);
    let a = p.allocate().unwrap();
    let b = p.allocate().unwrap();
    let a2 = a.clone(&mut p);
    let other = q.allocate().unwrap();
    assert!(a == a2);
    assert!(a != b);
    assert!(a != other);
    assert_eq!(0, other.index());
    assert_eq!(1, a.pool_id());
    assert_eq!(2, other.pool_id());
    assert_eq!(1, p.id());
    // The value and the count play no part.
    let mut a = a;
    a.set(&mut p, 9);
    assert!(a == a2);
}

#[test]
fn clear_zeroes_the_buffer() {
    let mut mem = vec![0xffu8; 50];
    let mut p = Pool::<u32>::new(&mut mem);
    assert!(!p.is_consistent());
    p.clear();
    assert!(p.is_consistent());
    assert_eq!([0u8; 50][..], *p.buffer());
    let mut a = p.allocate().unwrap();
    a.set(&mut p, 3);
    a.drop(&mut p);
    assert_eq!(1, p.tail());
    p.clear();
    // Nothing was live: the pool can go on.
    assert!(p.is_consistent());
    assert_eq!(1, p.tail());
    assert_eq!(1, p.free_list().len());
    assert_eq!([0u8; 50][..], *p.buffer());
    let b = p.allocate().unwrap();
    assert_eq!(0, b.index());
    // A clear under a live handle breaks the bookkeeping.
    p.clear();
    assert!(!p.is_consistent());
}

#[test]
fn is_consistent_sees_a_count_without_a_claim() {
    let mut mem = vec![0u8; 100];
    mem[12] = 1;
    let p = Pool::<u32>::new(&mut mem);
    assert!(!p.is_consistent());
    let mut more = vec![0u8; 100];
    let mut p = Pool::<u32>::new(&mut more);
    let index = p.internal_alloc().unwrap();
    p.release(index);
    assert!(p.is_consistent());
    // A reference to a free slot is not accounted for.
    p.retain(index);
    assert!(!p.is_consistent());
}

#[test]
fn buffer_is_the_callers_again_when_the_pool_ends() {
    let mut mem = vec![0u8; 9];
    let word = std::mem::size_of::<usize>();
    {
        let mut p = Pool::<u8>::new(&mut mem);
        let mut a: Arc<u8> = p.allocate().unwrap();
        a.set(&mut p, 200);
        assert_eq!(9, p.buffer().len());
    }
    assert_eq!(9, mem.len());
    assert_eq!(1, mem[0]);
    assert_eq!(200, mem[word]);
}
