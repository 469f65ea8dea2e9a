//! Handles: the one sanctioned way to a slot's value.
//!
//! A handle names a pool and one of its slots, and stands for one unit of
//! that slot's reference count. It holds no pointer to the pool: every
//! operation is given the pool that the handle came from.

use crate::codec::zeros;
use crate::model::{word_size, PoolModel};
use crate::payload::Payload;
use crate::pool::Pool;
use crate::text::{describe_handle, handle_text};
use core::marker::PhantomData;
use vstd::prelude::*;
use vstd::std_specs::cmp::PartialEqSpecImpl;

verus! {

/// What a handle is, as plain values.
pub struct HandleModel {
    /// The tag of the pool that the handle came from.
    pub pool: u64,
    /// The slot that the handle refers to.
    pub index: int,
}

/// A reference to one slot of a pool. It is made by the pool's allocation
/// and by `clone`, and given up with `drop`.
#[derive(Debug)]
pub struct Arc<T> {
    pool: u64,
    index: usize,
    item_type: PhantomData<T>,
}

impl<T> View for Arc<T> {
    type V = HandleModel;

    closed spec fn view(&self) -> HandleModel {
        HandleModel { pool: self.pool, index: self.index as int }
    }
}

impl<T> PartialEq for Arc<T> {
    /// Two handles are equal when they name the same pool and the same slot.
    fn eq(&self, other: &Arc<T>) -> (r: bool) {
        if self.index != other.index {
            false
        } else {
            self.pool == other.pool
        }
    }
}

impl<T> PartialEqSpecImpl for Arc<T> {
    open spec fn obeys_eq_spec() -> bool {
        true
    }

    open spec fn eq_spec(&self, other: &Arc<T>) -> bool {
        self@ == other@
    }
}

impl<T: Payload> Arc<T> {
    /// The handle names `pool` and a slot within its capacity.
    pub open spec fn attached(&self, pool: PoolModel) -> bool {
        self@.pool == pool.id && 0 <= self@.index < pool.capacity()
    }

    /// The handle is attached and its slot has a reference.
    pub open spec fn live(&self, pool: PoolModel) -> bool {
        self.attached(pool) && pool.ref_count(self@.index) >= 1
    }

    /// A handle to the slot `index` of `p`. The reference count is not
    /// touched: the slot is claimed before its handle is made.
    pub(crate) fn new(index: usize, p: &Pool<'_, T>) -> (handle: Arc<T>)
        ensures
            handle@ == (HandleModel { pool: p@.id, index: index as int }),
    {
        Arc { pool: p.id(), index, item_type: PhantomData }
    }

    /// The slot that the handle refers to.
    pub fn index(&self) -> (index: usize)
        ensures
            index == self@.index,
    {
        self.index
    }

    /// The tag of the pool that the handle came from.
    pub fn pool_id(&self) -> (id: u64)
        ensures
            id == self@.pool,
    {
        self.pool
    }

    /// Adds a reference that no handle stands for. It is given up again
    /// with `release`, or with the `drop` of a handle.
    pub fn retain(&mut self, pool: &mut Pool<'_, T>)
        requires
            old(pool).wf(),
            old(self).attached(old(pool)@),
            old(pool)@.ref_count(old(self)@.index) < usize::MAX,
        ensures
            final(self)@ == old(self)@,
            final(pool).wf(),
            final(pool)@ == old(pool)@.retained(old(self)@.index),
            final(pool)@.ref_count(old(self)@.index) == old(pool)@.ref_count(old(self)@.index) + 1,
            old(pool)@.inv() && old(self).live(old(pool)@) ==> final(pool)@.inv(),
            old(pool)@.same_counts_but(final(pool)@, old(self)@.index),
            old(pool)@.same_payloads(final(pool)@),
    {
        pool.retain(self.index);
    }

    /// Gives up a reference without ending the handle.
    pub fn release(&mut self, pool: &mut Pool<'_, T>)
        requires
            old(pool).wf(),
            old(pool)@.inv(),
            old(self).live(old(pool)@),
        ensures
            final(self)@ == old(self)@,
            final(pool).wf(),
            final(pool)@.inv(),
            final(pool)@ == old(pool)@.released(old(self)@.index),
            final(pool)@.ref_count(old(self)@.index) == old(pool)@.ref_count(old(self)@.index) - 1,
            old(pool)@.same_counts_but(final(pool)@, old(self)@.index),
            old(pool)@.same_payloads(final(pool)@),
    {
        pool.release(self.index);
    }

    /// The reference count of the handle's slot.
    pub fn ref_count(&self, pool: &Pool<'_, T>) -> (count: usize)
        requires
            pool.wf(),
            self.attached(pool@),
        ensures
            count == pool@.ref_count(self@.index),
    {
        pool.header_for(self.index).ref_count
    }

    /// A second handle to the same slot; the slot's reference count goes up
    /// by one.
    pub fn clone(&self, pool: &mut Pool<'_, T>) -> (copy: Arc<T>)
        requires
            old(pool).wf(),
            self.attached(old(pool)@),
            old(pool)@.ref_count(self@.index) < usize::MAX,
        ensures
            copy@ == self@,
            final(pool).wf(),
            final(pool)@ == old(pool)@.retained(self@.index),
            final(pool)@.ref_count(self@.index) == old(pool)@.ref_count(self@.index) + 1,
            old(pool)@.same_counts_but(final(pool)@, self@.index),
            old(pool)@.same_payloads(final(pool)@),
            old(pool)@.inv() && self.live(old(pool)@) ==> final(pool)@.inv() && copy.live(
                final(pool)@,
            ),
    {
        pool.retain(self.index);
        Arc { pool: self.pool, index: self.index, item_type: PhantomData }
    }

    /// Ends the handle: the slot's reference count goes down by one, and a
    /// slot whose count reaches zero joins the free list.
    pub fn drop(self, pool: &mut Pool<'_, T>)
        requires
            old(pool).wf(),
            old(pool)@.inv(),
            self.live(old(pool)@),
        ensures
            final(pool).wf(),
            final(pool)@.inv(),
            final(pool)@ == old(pool)@.released(self@.index),
            final(pool)@.ref_count(self@.index) == old(pool)@.ref_count(self@.index) - 1,
            old(pool)@.same_counts_but(final(pool)@, self@.index),
            old(pool)@.same_payloads(final(pool)@),
            old(pool)@.ref_count(self@.index) == 1 ==> final(pool)@.header_bytes(self@.index)
                == zeros(word_size()) && final(pool)@.free_list == old(pool)@.free_list.push(self@.index as usize),
    {
        pool.release(self.index);
    }

    /// The text that describes the handle: its slot and the slot's
    /// reference count.
    pub fn debug_string(&self, pool: &Pool<'_, T>) -> (text: String)
        requires
            pool.wf(),
            self.attached(pool@),
        ensures
            text@ == handle_text(self@.index as nat, pool@.ref_count(self@.index)),
    {
        describe_handle(self.index, self.ref_count(pool))
    }

    /// Reads the value in the handle's slot.
    pub fn get(&self, pool: &Pool<'_, T>) -> (value: T)
        requires
            pool.wf(),
            self.attached(pool@),
        ensures
            value == pool.value_at(self@.index),
    {
        pool.get(self.index)
    }

    /// Writes `value` into the handle's slot. Only the payload bytes of that
    /// slot change.
    pub fn set(&mut self, pool: &mut Pool<'_, T>, value: T)
        requires
            old(pool).wf(),
            old(self).attached(old(pool)@),
        ensures
            final(self)@ == old(self)@,
            final(pool).wf(),
            final(pool)@ == old(pool)@.with_payload(old(self)@.index, value.to_bytes()),
            final(pool)@.payload_bytes(old(self)@.index) == value.to_bytes(),
            final(pool).value_at(old(self)@.index) == value,
            old(pool)@.inv() ==> final(pool)@.inv(),
            old(pool)@.same_counts(final(pool)@),
            old(pool)@.same_payloads_but(final(pool)@, old(self)@.index),
    {
        pool.set(self.index, value);
    }
}

} // verus!
