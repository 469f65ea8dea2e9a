//! What holds of every pool across several operations, proved over the
//! model that the operations' contracts are stated in.

use crate::model::{
    lemma_capacity_fits, lemma_claimed, lemma_released, lemma_retained, lemma_slot_bounds,
    word_size, PoolModel,
};
use vstd::prelude::*;

verus! {

/// The pool after `n` more references to slot `i`, one after the other.
pub open spec fn retained_times(m: PoolModel, i: int, n: nat) -> PoolModel
    decreases n,
{
    if n == 0 {
        m
    } else {
        retained_times(m, i, (n - 1) as nat).retained(i)
    }
}

/// The pool after `n` references to slot `i` are given up, one after the
/// other.
pub open spec fn released_times(m: PoolModel, i: int, n: nat) -> PoolModel
    decreases n,
{
    if n == 0 {
        m
    } else {
        released_times(m, i, (n - 1) as nat).released(i)
    }
}

/// A slot that is claimed and then released leaves the live count where it
/// was before the claim, has count zero again, and stands last on the free
/// list; the high-water mark stays where the claim put it.
pub proof fn lemma_claim_then_release(m: PoolModel)
    requires
        m.inv(),
        m.can_claim(),
    ensures
        m.claimed().released(m.next_index()).inv(),
        m.claimed().released(m.next_index()).live_count() == m.live_count(),
        m.claimed().released(m.next_index()).ref_count(m.next_index()) == 0,
        m.claimed().released(m.next_index()).tail == m.claimed().tail,
        m.claimed().released(m.next_index()).free_list == m.taken().free_list.push(
            m.next_index() as usize,
        ),
        m.claimed().released(m.next_index()).free_list.last() == m.next_index(),
{
    lemma_claimed(m);
    lemma_released(m.claimed(), m.next_index());
}

/// Where at most one slot was free before the claim, the slot that is
/// claimed and then released is the head of the free list, so the next
/// claim takes it again.
pub proof fn lemma_recycled_slot_is_head(m: PoolModel)
    requires
        m.inv(),
        m.can_claim(),
        m.free_list.len() <= 1,
    ensures
        m.claimed().released(m.next_index()).live_count() == m.live_count(),
        m.claimed().released(m.next_index()).free_list.len() == 1,
        m.claimed().released(m.next_index()).free_list[0] == m.next_index(),
        m.claimed().released(m.next_index()).next_index() == m.next_index(),
{
    lemma_claim_then_release(m);
}

/// After the last reference to a slot is released, a claim succeeds, takes
/// the head of the free list, which is a slot that was released before, and
/// leaves the high-water mark where it was.
pub proof fn lemma_release_then_claim(m: PoolModel, i: int)
    requires
        m.inv(),
        0 <= i < m.capacity(),
        m.ref_count(i) == 1,
    ensures
        m.released(i).can_claim(),
        m.released(i).next_index() == if m.free_list.len() > 0 {
            m.free_list[0] as int
        } else {
            i
        },
        m.released(i).free_list.contains(m.released(i).next_index() as usize),
        m.released(i).claimed().inv(),
        m.released(i).claimed().tail == m.tail,
        m.released(i).claimed().ref_count(m.released(i).next_index()) == 1,
        m.released(i).claimed().live_count() == m.live_count(),
{
    let freed = m.released(i);
    lemma_released(m, i);
    lemma_claimed(freed);
    assert(freed.free_list[0] == freed.next_index() as usize);
}

/// Where no other slot is free, the claim that follows the last release of
/// a slot takes that very slot.
pub proof fn lemma_freed_slot_is_reused(m: PoolModel, i: int)
    requires
        m.inv(),
        0 <= i < m.capacity(),
        m.ref_count(i) == 1,
        m.free_list.len() == 0,
    ensures
        m.released(i).can_claim(),
        m.released(i).next_index() == i,
        m.released(i).claimed().tail == m.tail,
        m.released(i).claimed().ref_count(i) == 1,
        m.released(i).claimed().free_list.len() == 0,
{
    lemma_release_then_claim(m, i);
    lemma_released(m, i);
}

/// Adding `n` references to a slot that has some raises its count by `n`
/// and changes nothing else in the bookkeeping.
pub proof fn lemma_retained_times(m: PoolModel, i: int, n: nat)
    requires
        m.inv(),
        0 <= i < m.capacity(),
        m.ref_count(i) >= 1,
        m.ref_count(i) + n <= usize::MAX,
    ensures
        retained_times(m, i, n).inv(),
        retained_times(m, i, n).capacity() == m.capacity(),
        retained_times(m, i, n).ref_count(i) == m.ref_count(i) + n,
        retained_times(m, i, n).tail == m.tail,
        retained_times(m, i, n).free_list == m.free_list,
    decreases n,
{
    if n > 0 {
        lemma_retained_times(m, i, (n - 1) as nat);
        lemma_retained(retained_times(m, i, (n - 1) as nat), i);
    }
}

/// Giving up `n` of the references to a slot lowers its count by `n`, step
/// by step. The slot joins the free list with the release that takes the
/// count to zero, and with no earlier one.
pub proof fn lemma_released_times(m: PoolModel, i: int, n: nat)
    requires
        m.inv(),
        0 <= i < m.capacity(),
        n <= m.ref_count(i),
    ensures
        released_times(m, i, n).inv(),
        released_times(m, i, n).capacity() == m.capacity(),
        released_times(m, i, n).ref_count(i) == m.ref_count(i) - n,
        released_times(m, i, n).tail == m.tail,
        released_times(m, i, n).free_list == if n == m.ref_count(i) && n > 0 {
            m.free_list.push(i as usize)
        } else {
            m.free_list
        },
    decreases n,
{
    if n > 0 {
        let before = released_times(m, i, (n - 1) as nat);
        lemma_released_times(m, i, (n - 1) as nat);
        lemma_released(before, i);
    }
}

/// Take a slot with one reference, clone its handle `n` times and then drop
/// `k` of the `n + 1` handles. The count is `n + 1 - k`: it falls by one
/// with every drop and is zero after the last one only. The slot is on the
/// free list after the last drop, and after no earlier one.
pub proof fn lemma_clone_chain(m: PoolModel, i: int, n: nat, k: nat)
    requires
        m.inv(),
        0 <= i < m.capacity(),
        m.ref_count(i) == 1,
        n < usize::MAX,
        k <= n + 1,
    ensures
        retained_times(m, i, n).ref_count(i) == n + 1,
        released_times(retained_times(m, i, n), i, k).inv(),
        released_times(retained_times(m, i, n), i, k).ref_count(i) == n + 1 - k,
        released_times(retained_times(m, i, n), i, k).ref_count(i) == 0 <==> k == n + 1,
        released_times(retained_times(m, i, n), i, k).free_list.contains(i as usize) <==> k == n
            + 1,
        released_times(retained_times(m, i, n), i, k).live_count() == if k == n + 1 {
            m.live_count() - 1
        } else {
            m.live_count()
        },
{
    let top = retained_times(m, i, n);
    let end = released_times(top, i, k);
    lemma_retained_times(m, i, n);
    lemma_released_times(top, i, k);
    lemma_released(m, i);
    if k == n + 1 {
        assert(end.free_list[m.free_list.len() as int] == i as usize);
    } else {
        assert(m.ref_count(i) != 0);
    }
}

/// A pool whose buffer is shorter than one slot has no slot: a claim on it,
/// fresh from construction, fails.
pub proof fn lemma_short_buffer_has_no_slot(m: PoolModel)
    requires
        m.buffer.len() < m.slot_size(),
        m.tail == 0,
        m.free_list.len() == 0,
    ensures
        m.capacity() == 0,
        !m.can_claim(),
        m.buffer.len() <= usize::MAX ==> m.inv(),
{
    let size = m.slot_size() as int;
    let len = m.buffer.len() as int;
    assert(len / size == 0) by (nonlinear_arith)
        requires
            0 <= len < size,
    ;
}

/// A pool that is full stays full until a slot is released: with the
/// high-water mark at the capacity and nothing on the free list, no claim
/// succeeds.
pub proof fn lemma_full_pool_cannot_claim(m: PoolModel)
    requires
        m.inv(),
        m.live_count() == m.capacity(),
    ensures
        !m.can_claim(),
{
}

/// Slots lie one after the other: slot `i` takes the bytes from
/// `i * slot_size` up to `(i + 1) * slot_size`, all within the buffer, and
/// so shares no byte with another slot.
pub proof fn lemma_slot_span(m: PoolModel, i: int)
    requires
        0 <= i < m.capacity(),
    ensures
        m.header_at(i) == i * m.slot_size(),
        m.payload_at(i) == i * m.slot_size() + word_size(),
        m.payload_at(i) + m.payload_size == m.header_at(i + 1),
        m.header_at(i + 1) <= m.buffer.len(),
{
    lemma_slot_bounds(m, i);
    lemma_capacity_fits(m);
    let size = m.slot_size() as int;
    assert((i + 1) * size == i * size + size) by (nonlinear_arith);
}

/// The number of slots below `n` that have a reference.
pub open spec fn live_below(m: PoolModel, n: nat) -> nat
    decreases n,
{
    if n == 0 {
        0
    } else {
        live_below(m, (n - 1) as nat) + if m.ref_count(n - 1) >= 1 {
            1nat
        } else {
            0nat
        }
    }
}

/// The number of numbers below `n` that `list` holds.
pub open spec fn listed_below(list: Seq<usize>, n: nat) -> nat
    decreases n,
{
    if n == 0 {
        0
    } else {
        listed_below(list, (n - 1) as nat) + if list.contains((n - 1) as usize) {
            1nat
        } else {
            0nat
        }
    }
}

/// One more entry in a list is one more number listed, from the entry's
/// value on.
proof fn lemma_listed_below_push(list: Seq<usize>, value: usize, n: nat)
    requires
        !list.contains(value),
        n <= usize::MAX + 1,
    ensures
        listed_below(list.push(value), n) == listed_below(list, n) + if value < n {
            1nat
        } else {
            0nat
        },
    decreases n,
{
    if n > 0 {
        lemma_listed_below_push(list, value, (n - 1) as nat);
        let last = (n - 1) as usize;
        let longer = list.push(value);
        if list.contains(last) {
            let k = choose|k: int| 0 <= k < list.len() && list[k] == last;
            assert(longer[k] == last);
        }
        if last == value {
            assert(longer[list.len() as int] == last);
        }
        if longer.contains(last) && last != value {
            let k = choose|k: int| 0 <= k < longer.len() && longer[k] == last;
            assert(list[k] == last);
        }
    }
}

/// A list of different numbers below `n` lists as many numbers below `n` as
/// it has entries.
proof fn lemma_listed_below_len(list: Seq<usize>, n: nat)
    requires
        list.no_duplicates(),
        forall|k: int| 0 <= k < list.len() ==> #[trigger] list[k] < n,
        n <= usize::MAX + 1,
    ensures
        listed_below(list, n) == list.len(),
    decreases list.len(),
{
    if list.len() == 0 {
        lemma_listed_below_empty(list, n);
    } else {
        let front = list.drop_last();
        let value = list.last();
        assert(list =~= front.push(value));
        assert(!front.contains(value)) by {
            if front.contains(value) {
                let k = choose|k: int| 0 <= k < front.len() && front[k] == value;
                assert(list[k] == list[list.len() - 1]);
            }
        }
        assert forall|k: int| 0 <= k < front.len() implies #[trigger] front[k] < n by {
            assert(list[k] < n);
        }
        lemma_listed_below_len(front, n);
        assert(list[list.len() - 1] < n);
        lemma_listed_below_push(front, value, n);
    }
}

/// An empty list lists nothing.
proof fn lemma_listed_below_empty(list: Seq<usize>, n: nat)
    requires
        list.len() == 0,
    ensures
        listed_below(list, n) == 0,
    decreases n,
{
    if n > 0 {
        lemma_listed_below_empty(list, (n - 1) as nat);
    }
}

/// Below the high-water mark every slot is live or listed as free, and not
/// both.
proof fn lemma_live_or_listed(m: PoolModel, n: nat)
    requires
        m.inv(),
        n <= m.tail,
    ensures
        live_below(m, n) + listed_below(m.free_list, n) == n,
    decreases n,
{
    if n > 0 {
        lemma_live_or_listed(m, (n - 1) as nat);
        assert(m.ref_count(n - 1) == 0 <==> m.free_list.contains((n - 1) as usize));
    }
}

/// The live count, which is the high-water mark less the length of the
/// free list, is the number of claimed slots that have a reference.
pub proof fn lemma_live_count_counts_live_slots(m: PoolModel)
    requires
        m.inv(),
    ensures
        m.live_count() == live_below(m, m.tail),
        0 <= m.live_count() <= m.capacity(),
{
    lemma_capacity_fits(m);
    lemma_live_or_listed(m, m.tail);
    lemma_listed_below_len(m.free_list, m.tail);
}

/// The high-water mark never falls and never passes the capacity: a claim
/// leaves it or raises it by one, and nothing else moves it.
pub proof fn lemma_tail_never_falls(m: PoolModel, i: int, bytes: Seq<u8>)
    requires
        m.inv(),
    ensures
        m.can_claim() ==> m.tail <= m.claimed().tail <= m.tail + 1 && m.claimed().tail
            <= m.claimed().capacity(),
        m.retained(i).tail == m.tail,
        m.released(i).tail == m.tail,
        m.with_payload(i, bytes).tail == m.tail,
        m.cleared().tail == m.tail,
{
    if m.can_claim() {
        lemma_claimed(m);
    }
}

} // verus!
