//! The pool: a byte buffer cut into slots of equal size, each a reference
//! count followed by one payload, with a free list for the slots that were
//! given back.
//!
//! A pool is used by one writer at a time: every operation that changes it
//! takes it by `&mut`, so the counts, the high-water mark and the free list
//! change together and no update can be half seen.

use crate::codec::{copy_bytes, le_bytes, load_le, store_le, zero_fill, zeros};
use crate::handle::Arc;
use crate::model::{
    lemma_claimed, lemma_cleared, lemma_released, lemma_retained, lemma_slot_bounds,
    lemma_slots_apart, lemma_with_count, lemma_with_payload, lemma_word_size, lemma_zero_buffer,
    word_size, PoolModel,
};
use crate::payload::Payload;
use core::marker::PhantomData;
use std::collections::VecDeque;
use vstd::prelude::*;

verus! {

/// What stands in front of the payload in every slot.
pub struct SlotHeader {
    /// The number of references to the slot.
    pub ref_count: usize,
}

/// A fixed number of reference-counted slots for values of type `T`, laid
/// out in a byte buffer that the caller owns and lends to the pool.
pub struct Pool<'a, T> {
    id: u64,
    buffer: &'a mut [u8],
    capacity: usize,
    tail: usize,
    slot_size: usize,
    header_size: usize,
    free_list: VecDeque<usize>,
    item_type: PhantomData<T>,
}

impl<'a, T: Payload> View for Pool<'a, T> {
    type V = PoolModel;

    closed spec fn view(&self) -> PoolModel {
        PoolModel {
            id: self.id,
            buffer: self.buffer@,
            payload_size: T::width(),
            tail: self.tail as nat,
            free_list: self.free_list@,
        }
    }
}

impl<'a, T: Payload> Pool<'a, T> {
    /// The sizes that the pool keeps at hand are those of its model.
    pub closed spec fn cached(&self) -> bool {
        &&& self.header_size == word_size()
        &&& self.slot_size == self@.slot_size()
        &&& self.capacity == self@.capacity()
    }

    /// The pool is well formed: its sizes agree with each other.
    pub open spec fn wf(&self) -> bool {
        self.cached() && self@.wf()
    }

    /// The value that the payload bytes of slot `i` stand for.
    pub open spec fn value_at(&self, i: int) -> T {
        T::from_bytes(self@.payload_bytes(i))
    }

    /// A pool over `mem`, with the tag 0. No byte of `mem` is changed. The
    /// bookkeeping is right from the start exactly when every slot's count
    /// reads zero, as it does when `mem` holds zero bytes only.
    pub fn new(mem: &'a mut [u8]) -> (pool: Pool<'a, T>)
        ensures
            pool.wf(),
            pool@ == (PoolModel {
                id: 0,
                buffer: old(mem)@,
                payload_size: T::width(),
                tail: 0,
                free_list: Seq::empty(),
            }),
            pool@.inv() <==> (forall|i: int|
                0 <= i < pool@.capacity() ==> #[trigger] pool@.ref_count(i) == 0),
            (forall|k: int| 0 <= k < old(mem)@.len() ==> old(mem)@[k] == 0) ==> pool@.inv(),
    {
        Self::with_id(mem, 0)
    }

    /// A pool over `mem` with the tag `id`, by which its handles are told
    /// from those of other pools.
    pub fn with_id(mem: &'a mut [u8], id: u64) -> (pool: Pool<'a, T>)
        ensures
            pool.wf(),
            pool@ == (PoolModel {
                id,
                buffer: old(mem)@,
                payload_size: T::width(),
                tail: 0,
                free_list: Seq::empty(),
            }),
            pool@.inv() <==> (forall|i: int|
                0 <= i < pool@.capacity() ==> #[trigger] pool@.ref_count(i) == 0),
            (forall|k: int| 0 <= k < old(mem)@.len() ==> old(mem)@[k] == 0) ==> pool@.inv(),
    {
        proof {
            lemma_word_size();
        }
        let header_size = core::mem::size_of::<usize>();
        let slot_size = T::size() + header_size;
        let capacity = mem.len() / slot_size;
        let pool = Pool {
            id,
            buffer: mem,
            capacity,
            tail: 0,
            slot_size,
            header_size,
            free_list: VecDeque::new(),
            item_type: PhantomData,
        };
        proof {
            if forall|k: int| 0 <= k < pool@.buffer.len() ==> pool@.buffer[k] == 0 {
                assert forall|i: int| 0 <= i < pool@.capacity() implies #[trigger] pool@.ref_count(
                    i,
                ) == 0 by {
                    lemma_zero_buffer(pool@, i);
                }
            }
        }
        pool
    }

    /// Sets every byte of the buffer to zero. The high-water mark and the
    /// free list stay as they are, so the bookkeeping is right afterwards
    /// exactly when no slot was live.
    pub fn clear(&mut self)
        requires
            old(self).wf(),
        ensures
            final(self).wf(),
            final(self)@ == old(self)@.cleared(),
            old(self)@.inv() ==> (final(self)@.inv() <==> old(self)@.live_count() == 0),
    {
        proof {
            lemma_cleared(self@);
        }
        zero_fill(self.buffer);
    }

    /// Claims a slot and copies the payload bytes of the slot of `other`
    /// into it. The reference count of `other` stays as it is.
    pub fn alloc_with_contents_of(&mut self, other: &Arc<T>) -> (r: Result<Arc<T>, &'static str>)
        requires
            old(self).wf(),
            old(self)@.inv(),
            other.attached(old(self)@),
        ensures
            final(self).wf(),
            final(self)@.inv(),
            old(self)@.can_claim() ==> r is Ok && r->Ok_0@.pool == old(self)@.id && r->Ok_0@.index
                == old(self)@.next_index() && final(self)@ == old(self)@.claimed().with_payload(
                old(self)@.next_index(),
                old(self)@.payload_bytes(other@.index),
            ),
            old(self)@.can_claim() ==> final(self)@.ref_count(old(self)@.next_index()) == 1
                && final(self).value_at(old(self)@.next_index()) == old(self).value_at(
                other@.index,
            ),
            old(self)@.can_claim() ==> old(self)@.same_counts_but(
                final(self)@,
                old(self)@.next_index(),
            ) && old(self)@.same_payloads_but(final(self)@, old(self)@.next_index()),
            !old(self)@.can_claim() ==> r is Err && r->Err_0@ == "OOM"@ && final(self)@ == old(self)@,
    {
        let index = match self.claim_free_index() {
            Ok(index) => index,
            Err(e) => {
                return Err(e);
            },
        };
        proof {
            lemma_claimed(old(self)@);
            lemma_slot_bounds(self@, index as int);
            lemma_slot_bounds(self@, other@.index);
            lemma_slot_bounds(old(self)@, other@.index);
            if other@.index < index {
                lemma_slots_apart(self@, other@.index, index as int);
            } else if index < other@.index {
                lemma_slots_apart(self@, index as int, other@.index);
            }
            lemma_with_payload(
                self@,
                index as int,
                self@.payload_bytes(other@.index),
            );
        }
        let from = self.raw_contents_for(other.index());
        let to = self.raw_contents_for(index);
        let size = self.slot_size - self.header_size;
        copy_bytes(self.buffer, from, to, size);
        Ok(Arc::new(index, self))
    }

    /// Claims a slot and hands out the one handle to it. The slot is the
    /// head of the free list or, if that is empty, the first untouched slot;
    /// its reference count becomes 1. Without a slot to claim the answer is
    /// the error `"OOM"`, and nothing changes.
    pub fn allocate(&mut self) -> (r: Result<Arc<T>, &'static str>)
        requires
            old(self).wf(),
            old(self)@.inv(),
        ensures
            final(self).wf(),
            final(self)@.inv(),
            old(self)@.can_claim() ==> r is Ok && r->Ok_0@.pool == old(self)@.id && r->Ok_0@.index
                == old(self)@.next_index() && final(self)@ == old(self)@.claimed(),
            old(self)@.can_claim() ==> r->Ok_0.live(final(self)@) && final(self)@.ref_count(
                old(self)@.next_index(),
            ) == 1 && final(self)@.header_bytes(old(self)@.next_index()) == le_bytes(
                1,
                word_size(),
            ) && final(self)@.live_count() == old(self)@.live_count() + 1,
            old(self)@.can_claim() ==> old(self)@.same_counts_but(
                final(self)@,
                old(self)@.next_index(),
            ) && old(self)@.same_payloads(final(self)@),
            !old(self)@.can_claim() ==> r is Err && r->Err_0@ == "OOM"@ && final(self)@ == old(self)@,
    {
        let index = match self.internal_alloc() {
            Ok(index) => index,
            Err(e) => {
                return Err(e);
            },
        };
        proof {
            lemma_claimed(old(self)@);
        }
        Ok(Arc::new(index, self))
    }

    /// Adds one reference to the slot `index`: its count goes up by one and
    /// nothing else changes.
    pub fn retain(&mut self, index: usize)
        requires
            old(self).wf(),
            index < old(self)@.capacity(),
            old(self)@.ref_count(index as int) < usize::MAX,
        ensures
            final(self).wf(),
            final(self)@ == old(self)@.retained(index as int),
            final(self)@.ref_count(index as int) == old(self)@.ref_count(index as int) + 1,
            old(self)@.inv() && old(self)@.ref_count(index as int) >= 1 ==> final(self)@.inv(),
            old(self)@.same_counts_but(final(self)@, index as int),
            old(self)@.same_payloads(final(self)@),
    {
        proof {
            lemma_slot_bounds(self@, index as int);
            lemma_retained(self@, index as int);
        }
        let header = self.header_for(index);
        self.set_header(index, SlotHeader { ref_count: header.ref_count + 1 });
    }

    /// Gives up one reference to the slot `index`: its count goes down by
    /// one, and when it reaches zero the slot joins the free list at its
    /// end. The slot must have a reference to give up.
    pub fn release(&mut self, index: usize)
        requires
            old(self).wf(),
            old(self)@.inv(),
            index < old(self)@.capacity(),
            old(self)@.ref_count(index as int) >= 1,
        ensures
            final(self).wf(),
            final(self)@.inv(),
            final(self)@ == old(self)@.released(index as int),
            final(self)@.ref_count(index as int) == old(self)@.ref_count(index as int) - 1,
            old(self)@.ref_count(index as int) == 1 ==> final(self)@.header_bytes(index as int)
                == zeros(word_size()) && final(self)@.free_list == old(self)@.free_list.push(index),
            old(self)@.ref_count(index as int) > 1 ==> final(self)@.free_list
                == old(self)@.free_list,
            final(self)@.live_count() == if old(self)@.ref_count(index as int) == 1 {
                old(self)@.live_count() - 1
            } else {
                old(self)@.live_count()
            },
            old(self)@.same_counts_but(final(self)@, index as int),
            old(self)@.same_payloads(final(self)@),
    {
        proof {
            lemma_slot_bounds(self@, index as int);
            lemma_released(self@, index as int);
            lemma_with_count(self@, index as int, (self@.ref_count(index as int) - 1) as nat);
        }
        let header = self.header_for(index);
        let count = header.ref_count - 1;
        self.set_header(index, SlotHeader { ref_count: count });
        if count == 0 {
            self.free_list.push_back(index);
        }
    }

    /// The number of slots that some handle refers to.
    pub fn live_count(&self) -> (n: usize)
        requires
            self.wf(),
        ensures
            n == self@.live_count(),
    {
        self.tail - self.free_list.len()
    }

    /// Claims a slot: takes the head of the free list or, if that is empty,
    /// the first untouched slot, and raises its reference count from 0 to 1.
    /// Without a slot to claim the answer is the error `"OOM"`, and nothing
    /// changes.
    pub fn claim_free_index(&mut self) -> (r: Result<usize, &'static str>)
        requires
            old(self).wf(),
            old(self)@.inv(),
        ensures
            final(self).wf(),
            final(self)@.inv(),
            old(self)@.can_claim() ==> r is Ok && r->Ok_0 == old(self)@.next_index()
                && final(self)@ == old(self)@.claimed(),
            old(self)@.can_claim() ==> final(self)@.ref_count(old(self)@.next_index()) == 1
                && final(self)@.live_count() == old(self)@.live_count() + 1,
            old(self)@.can_claim() ==> old(self)@.same_counts_but(
                final(self)@,
                old(self)@.next_index(),
            ) && old(self)@.same_payloads(final(self)@),
            !old(self)@.can_claim() ==> r is Err && r->Err_0@ == "OOM"@ && final(self)@ == old(self)@,
    {
        proof {
            if self@.can_claim() {
                lemma_claimed(self@);
            }
        }
        let index = match self.free_list.pop_front() {
            Some(i) => {
                assert(self@.free_list =~= old(self)@.free_list.drop_first());
                i
            },
            None => match self.push_back_alloc() {
                Ok(i) => i,
                Err(e) => {
                    return Err(e);
                },
            },
        };
        assert(self@ == old(self)@.taken());
        self.retain(index);
        Ok(index)
    }

    /// Claims a slot without making a handle for it: the caller holds the
    /// one reference, and gives it up with `release`.
    pub fn internal_alloc(&mut self) -> (r: Result<usize, &'static str>)
        requires
            old(self).wf(),
            old(self)@.inv(),
        ensures
            final(self).wf(),
            final(self)@.inv(),
            old(self)@.can_claim() ==> r is Ok && r->Ok_0 == old(self)@.next_index()
                && final(self)@ == old(self)@.claimed(),
            old(self)@.can_claim() ==> final(self)@.ref_count(old(self)@.next_index()) == 1
                && final(self)@.live_count() == old(self)@.live_count() + 1,
            old(self)@.can_claim() ==> old(self)@.same_counts_but(
                final(self)@,
                old(self)@.next_index(),
            ) && old(self)@.same_payloads(final(self)@),
            !old(self)@.can_claim() ==> r is Err && r->Err_0@ == "OOM"@ && final(self)@ == old(self)@,
    {
        self.claim_free_index()
    }

    /// Takes the first untouched slot by moving the high-water mark up by
    /// one, and returns the slot's index. When the mark has reached the
    /// capacity the answer is the error `"OOM"`, and the mark stays.
    pub fn push_back_alloc(&mut self) -> (r: Result<usize, &'static str>)
        requires
            old(self).wf(),
        ensures
            final(self).wf(),
            old(self)@.tail < old(self)@.capacity() ==> r is Ok && r->Ok_0 == old(self)@.tail
                && final(self)@ == (PoolModel { tail: old(self)@.tail + 1, ..old(self)@ }),
            old(self)@.tail >= old(self)@.capacity() ==> r is Err && r->Err_0@ == "OOM"@ && final(self)@ == old(self)@,
    {
        let old_tail = self.tail;
        if old_tail >= self.capacity {
            Err("OOM")
        } else {
            self.tail = old_tail + 1;
            Ok(old_tail)
        }
    }

    /// Reads the header of slot `i`.
    pub fn header_for(&self, i: usize) -> (header: SlotHeader)
        requires
            self.wf(),
            i < self@.capacity(),
        ensures
            header.ref_count == self@.ref_count(i as int),
    {
        proof {
            lemma_word_size();
            lemma_slot_bounds(self@, i as int);
        }
        let at = i * self.slot_size;
        let count = load_le(self.buffer, at, self.header_size);
        SlotHeader { ref_count: count as usize }
    }

    /// Writes the header of slot `i`, and nothing else.
    fn set_header(&mut self, i: usize, header: SlotHeader)
        requires
            old(self).wf(),
            i < old(self)@.capacity(),
        ensures
            final(self).wf(),
            final(self)@ == old(self)@.with_count(i as int, header.ref_count as nat),
    {
        proof {
            lemma_slot_bounds(self@, i as int);
            lemma_with_count(self@, i as int, header.ref_count as nat);
        }
        let at = i * self.slot_size;
        store_le(self.buffer, at, self.header_size, header.ref_count as u64);
    }

    /// The place in the buffer where the payload of slot `i` begins.
    pub fn raw_contents_for(&self, i: usize) -> (at: usize)
        requires
            self.wf(),
            i < self@.capacity(),
        ensures
            at == self@.payload_at(i as int),
            at + self@.payload_size <= self@.buffer.len(),
    {
        proof {
            lemma_slot_bounds(self@, i as int);
        }
        i * self.slot_size + self.header_size
    }

    /// Reads the value in slot `i`, whatever its reference count.
    pub fn get(&self, i: usize) -> (value: T)
        requires
            self.wf(),
            i < self@.capacity(),
        ensures
            value == self.value_at(i as int),
    {
        let at = self.raw_contents_for(i);
        T::load(self.buffer, at)
    }

    /// Writes `value` into slot `i`, whatever its reference count. Only the
    /// payload bytes of that slot change.
    pub fn set(&mut self, i: usize, value: T)
        requires
            old(self).wf(),
            i < old(self)@.capacity(),
        ensures
            final(self).wf(),
            final(self)@ == old(self)@.with_payload(i as int, value.to_bytes()),
            final(self)@.payload_bytes(i as int) == value.to_bytes(),
            final(self).value_at(i as int) == value,
            old(self)@.inv() ==> final(self)@.inv(),
            old(self)@.same_counts(final(self)@),
            old(self)@.same_payloads_but(final(self)@, i as int),
    {
        proof {
            T::lemma_round_trip(value);
            lemma_with_payload(self@, i as int, value.to_bytes());
        }
        let at = self.raw_contents_for(i);
        value.store(self.buffer, at);
    }

    /// Checks the bookkeeping against the reference counts in the buffer:
    /// whether the free list holds, once each, exactly the claimed slots
    /// with count zero, and the untouched slots have count zero.
    pub fn is_consistent(&self) -> (ok: bool)
        requires
            self.wf(),
        ensures
            ok == self@.inv(),
    {
        let ghost list = self@.free_list;
        let mut seen: Vec<bool> = Vec::new();
        let mut i: usize = 0;
        while i < self.tail
            invariant
                i <= self.tail,
                seen@.len() == i,
                forall|j: int| 0 <= j < i ==> !seen@[j],
            decreases self.tail - i,
        {
            seen.push(false);
            i += 1;
        }
        let mut k: usize = 0;
        while k < self.free_list.len()
            invariant
                list == self@.free_list,
                k <= list.len(),
                seen@.len() == self.tail,
                forall|a: int, b: int| 0 <= a < k && 0 <= b < k && a != b ==> list[a] != list[b],
                forall|a: int| 0 <= a < k ==> #[trigger] list[a] < self.tail,
                forall|j: int|
                    0 <= j < self.tail ==> (#[trigger] seen@[j] <==> exists|a: int|
                        0 <= a < k && list[a] == j),
            decreases list.len() - k,
        {
            let index = self.free_list[k];
            if index >= self.tail {
                assert(!(list[k as int] < self.tail));
                return false;
            }
            if seen[index] {
                let ghost a = choose|a: int| 0 <= a < k && list[a] == index;
                assert(list[a] == list[k as int]);
                return false;
            }
            seen[index] = true;
            proof {
                assert forall|j: int| 0 <= j < self.tail implies (#[trigger] seen@[j]
                    <==> exists|a: int| 0 <= a < k + 1 && list[a] == j) by {
                    if j == index {
                        assert(list[k as int] == j);
                    } else if seen@[j] {
                        let a = choose|a: int| 0 <= a < k && list[a] == j;
                        assert(0 <= a < k + 1 && list[a] == j);
                    }
                }
            }
            k += 1;
        }
        assert(list.no_duplicates());
        assert forall|j: int| 0 <= j < self.tail implies (#[trigger] seen@[j] <==> list.contains(
            j as usize,
        )) by {
            if seen@[j] {
                let a = choose|a: int| 0 <= a < k && list[a] == j;
                assert(list[a] == j as usize);
            }
        }
        let mut slot: usize = 0;
        while slot < self.capacity
            invariant
                self.wf(),
                list == self@.free_list,
                self.capacity == self@.capacity(),
                slot <= self.capacity,
                seen@.len() == self.tail,
                self.tail == self@.tail,
                forall|j: int|
                    0 <= j < self.tail ==> (#[trigger] seen@[j] <==> list.contains(j as usize)),
                forall|j: int|
                    #![trigger self@.ref_count(j)]
                    0 <= j < slot && j < self.tail ==> (self@.ref_count(j) == 0 <==> list.contains(
                        j as usize,
                    )),
                forall|j: int|
                    self.tail <= j < slot ==> #[trigger] self@.ref_count(j) == 0,
            decreases self.capacity - slot,
        {
            let count = self.header_for(slot).ref_count;
            if slot < self.tail {
                if (count == 0) != seen[slot] {
                    assert(!(self@.ref_count(slot as int) == 0 <==> list.contains(slot)));
                    return false;
                }
            } else if count != 0 {
                assert(self@.ref_count(slot as int) != 0);
                return false;
            }
            slot += 1;
        }
        true
    }

    /// The tag that tells this pool from others.
    pub fn id(&self) -> (id: u64)
        ensures
            id == self@.id,
    {
        self.id
    }

    /// The number of bytes in the buffer.
    pub fn buffer_size(&self) -> (n: usize)
        ensures
            n == self@.buffer.len(),
    {
        self.buffer.len()
    }

    /// The number of bytes of a reference count.
    pub fn header_size(&self) -> (n: usize)
        requires
            self.wf(),
        ensures
            n == word_size(),
    {
        self.header_size
    }

    /// The number of bytes of a slot.
    pub fn slot_size(&self) -> (n: usize)
        requires
            self.wf(),
        ensures
            n == self@.slot_size(),
            n == word_size() + T::width(),
    {
        self.slot_size
    }

    /// The number of slots.
    pub fn capacity(&self) -> (n: usize)
        requires
            self.wf(),
        ensures
            n == self@.capacity(),
            n == self@.buffer.len() / self@.slot_size(),
    {
        self.capacity
    }

    /// The number of slots ever claimed from untouched space.
    pub fn tail(&self) -> (n: usize)
        ensures
            n == self@.tail,
    {
        self.tail
    }

    /// The slots that can be claimed again, the next one first.
    pub fn free_list(&self) -> (list: &VecDeque<usize>)
        ensures
            list@ == self@.free_list,
    {
        &self.free_list
    }

    /// The bytes of the buffer.
    pub fn buffer(&self) -> (bytes: &[u8])
        ensures
            bytes@ == self@.buffer,
    {
        self.buffer
    }
}

} // verus!
