//! The mathematical model of a pool: its bytes, its high-water mark and its
//! free list, with the slot layout and the state changes stated over them.

use crate::codec::{
    byte_span, le_bytes, le_value, lemma_decode_encode, lemma_le_value_bound, lemma_span_values,
    lemma_zero_bytes, overlay, zeros,
};
use vstd::prelude::*;

verus! {

/// The number of bytes of a slot's reference count: the platform word.
pub open spec fn word_size() -> nat {
    vstd::layout::size_of::<usize>()
}

/// A word has four or eight bytes, and holds exactly the values of `usize`.
pub proof fn lemma_word_size()
    ensures
        word_size() == 4 || word_size() == 8,
        byte_span(word_size()) == usize::MAX + 1,
{
    broadcast use vstd::layout::layout_of_primitives;

    lemma_span_values();
    assert(usize::BITS == 32 || usize::BITS == 64);
    if usize::BITS == 32 {
        assert(usize::MAX == 0xffff_ffff);
    } else {
        assert(usize::MAX == 0xffff_ffff_ffff_ffff);
    }
}

/// What a pool is, as plain mathematical values.
pub struct PoolModel {
    /// The tag that tells this pool from others.
    pub id: u64,
    /// The backing bytes, slot after slot.
    pub buffer: Seq<u8>,
    /// The number of payload bytes in a slot.
    pub payload_size: nat,
    /// The number of slots ever claimed from untouched space.
    pub tail: nat,
    /// The claimed slots that nothing refers to, oldest release first.
    pub free_list: Seq<usize>,
}

impl PoolModel {
    /// Bytes per slot: the reference count, then the payload.
    pub open spec fn slot_size(self) -> nat {
        word_size() + self.payload_size
    }

    /// The number of whole slots in the buffer.
    pub open spec fn capacity(self) -> nat {
        self.buffer.len() / self.slot_size()
    }

    /// Where the slot `i`, and so its reference count, begins.
    pub open spec fn header_at(self, i: int) -> int {
        i * self.slot_size()
    }

    /// Where the payload of slot `i` begins.
    pub open spec fn payload_at(self, i: int) -> int {
        i * self.slot_size() + word_size()
    }

    /// The bytes of the reference count of slot `i`.
    pub open spec fn header_bytes(self, i: int) -> Seq<u8> {
        self.buffer.subrange(self.header_at(i), self.header_at(i) + word_size())
    }

    /// The payload bytes of slot `i`.
    pub open spec fn payload_bytes(self, i: int) -> Seq<u8> {
        self.buffer.subrange(self.payload_at(i), self.payload_at(i) + self.payload_size)
    }

    /// The reference count of slot `i`.
    pub open spec fn ref_count(self, i: int) -> nat {
        le_value(self.header_bytes(i))
    }

    /// The number of slots that some handle refers to.
    pub open spec fn live_count(self) -> int {
        self.tail - self.free_list.len()
    }

    /// The sizes agree: the high-water mark is within the capacity, and the
    /// free list is no longer than the number of claimed slots.
    pub open spec fn wf(self) -> bool {
        &&& self.buffer.len() <= usize::MAX
        &&& self.tail <= self.capacity()
        &&& self.free_list.len() <= self.tail
    }

    /// The bookkeeping agrees with the reference counts: a claimed slot is on
    /// the free list, once, exactly when its count is zero, and the slots
    /// beyond the high-water mark have count zero.
    pub open spec fn inv(self) -> bool {
        &&& self.wf()
        &&& self.free_list.no_duplicates()
        &&& forall|k: int|
            0 <= k < self.free_list.len() ==> #[trigger] self.free_list[k] < self.tail
        &&& forall|i: int|
            #![trigger self.ref_count(i)]
            0 <= i < self.tail ==> (self.ref_count(i) == 0 <==> self.free_list.contains(
                i as usize,
            ))
        &&& forall|i: int|
            self.tail <= i < self.capacity() ==> #[trigger] self.ref_count(i) == 0
    }

    /// Every slot but `i` has in `after` the reference count it has here.
    pub open spec fn same_counts_but(self, after: PoolModel, i: int) -> bool {
        forall|j: int|
            0 <= j < self.capacity() && j != i ==> #[trigger] after.ref_count(j) == self.ref_count(
                j,
            )
    }

    /// Every slot but `i` has in `after` the payload bytes it has here.
    pub open spec fn same_payloads_but(self, after: PoolModel, i: int) -> bool {
        forall|j: int|
            0 <= j < self.capacity() && j != i ==> #[trigger] after.payload_bytes(j)
                == self.payload_bytes(j)
    }

    /// Every slot has in `after` the reference count it has here.
    pub open spec fn same_counts(self, after: PoolModel) -> bool {
        forall|j: int| 0 <= j < self.capacity() ==> #[trigger] after.ref_count(j) == self.ref_count(j)
    }

    /// Every slot has in `after` the payload bytes it has here.
    pub open spec fn same_payloads(self, after: PoolModel) -> bool {
        forall|j: int|
            0 <= j < self.capacity() ==> #[trigger] after.payload_bytes(j) == self.payload_bytes(j)
    }

    /// The pool with `count` written as the reference count of slot `i`.
    pub open spec fn with_count(self, i: int, count: nat) -> PoolModel {
        PoolModel {
            buffer: overlay(self.buffer, self.header_at(i), le_bytes(count, word_size())),
            ..self
        }
    }

    /// The pool with `bytes` written as the payload of slot `i`.
    pub open spec fn with_payload(self, i: int, bytes: Seq<u8>) -> PoolModel {
        PoolModel { buffer: overlay(self.buffer, self.payload_at(i), bytes), ..self }
    }

    /// The pool after one more reference to slot `i`.
    pub open spec fn retained(self, i: int) -> PoolModel {
        self.with_count(i, self.ref_count(i) + 1)
    }

    /// The pool after one reference to slot `i` is given up: the count goes
    /// down by one, and a slot whose count reaches zero joins the free list
    /// at its end.
    pub open spec fn released(self, i: int) -> PoolModel {
        let count = (self.ref_count(i) - 1) as nat;
        let lowered = self.with_count(i, count);
        if count == 0 {
            PoolModel { free_list: self.free_list.push(i as usize), ..lowered }
        } else {
            lowered
        }
    }

    /// Whether a slot can be claimed: one is free, or untouched space is left.
    pub open spec fn can_claim(self) -> bool {
        self.free_list.len() > 0 || self.tail < self.capacity()
    }

    /// The slot that the next claim takes: the head of the free list, or, if
    /// that is empty, the first untouched slot.
    pub open spec fn next_index(self) -> int {
        if self.free_list.len() > 0 {
            self.free_list[0] as int
        } else {
            self.tail as int
        }
    }

    /// The pool with the next slot taken off the free list or off the
    /// untouched space, its count not yet raised.
    pub open spec fn taken(self) -> PoolModel {
        if self.free_list.len() > 0 {
            PoolModel { free_list: self.free_list.drop_first(), ..self }
        } else {
            PoolModel { tail: self.tail + 1, ..self }
        }
    }

    /// The pool after a claim of the next slot.
    pub open spec fn claimed(self) -> PoolModel {
        self.taken().retained(self.next_index())
    }

    /// The pool with every byte of the buffer set to zero.
    pub open spec fn cleared(self) -> PoolModel {
        PoolModel { buffer: zeros(self.buffer.len()), ..self }
    }
}

/// A slot within the capacity lies within the buffer.
pub proof fn lemma_slot_bounds(m: PoolModel, i: int)
    requires
        0 <= i < m.capacity(),
    ensures
        0 <= m.header_at(i),
        m.payload_at(i) == m.header_at(i) + word_size(),
        m.payload_at(i) + m.payload_size == m.header_at(i) + m.slot_size(),
        m.header_at(i) + m.slot_size() <= m.buffer.len(),
        m.header_bytes(i).len() == word_size(),
        m.payload_bytes(i).len() == m.payload_size,
        m.ref_count(i) <= usize::MAX,
{
    lemma_word_size();
    let size = m.slot_size() as int;
    let len = m.buffer.len() as int;
    assert(0 <= i * size && (i + 1) * size <= len && (i + 1) * size == i * size + size)
        by (nonlinear_arith)
        requires
            0 <= i < len / size,
            size > 0,
    ;
    lemma_le_value_bound(m.header_bytes(i));
}

/// The buffer has at least as many bytes as slots.
pub proof fn lemma_capacity_fits(m: PoolModel)
    ensures
        m.capacity() <= m.buffer.len(),
        m.capacity() * m.slot_size() <= m.buffer.len(),
{
    lemma_word_size();
    let size = m.slot_size() as int;
    let len = m.buffer.len() as int;
    assert(len / size <= len && (len / size) * size <= len) by (nonlinear_arith)
        requires
            0 <= len,
            size > 0,
    ;
}

/// Two different slots share no byte.
pub proof fn lemma_slots_apart(m: PoolModel, i: int, j: int)
    requires
        0 <= i < j,
    ensures
        m.header_at(i) + m.slot_size() <= m.header_at(j),
{
    let size = m.slot_size() as int;
    assert(i * size + size <= j * size) by (nonlinear_arith)
        requires
            0 <= i < j,
            size >= 0,
    ;
}

/// Writing the reference count of a slot changes that count and nothing
/// else: not the other counts, not any payload, not the layout.
pub proof fn lemma_with_count(m: PoolModel, i: int, count: nat)
    requires
        0 <= i < m.capacity(),
        count <= usize::MAX,
    ensures
        m.with_count(i, count).buffer.len() == m.buffer.len(),
        m.with_count(i, count).capacity() == m.capacity(),
        m.with_count(i, count).ref_count(i) == count,
        m.with_count(i, count).header_bytes(i) == le_bytes(count, word_size()),
        forall|j: int|
            0 <= j < m.capacity() && j != i ==> #[trigger] m.with_count(i, count).ref_count(j)
                == m.ref_count(j),
        forall|j: int|
            0 <= j < m.capacity() ==> #[trigger] m.with_count(i, count).payload_bytes(j)
                == m.payload_bytes(j),
{
    let after = m.with_count(i, count);
    lemma_word_size();
    lemma_slot_bounds(m, i);
    assert(after.header_bytes(i) =~= le_bytes(count, word_size()));
    lemma_decode_encode(count, word_size());
    assert forall|j: int| 0 <= j < m.capacity() && j != i implies #[trigger] after.ref_count(j)
        == m.ref_count(j) by {
        lemma_slot_bounds(m, j);
        if i < j {
            lemma_slots_apart(m, i, j);
        } else {
            lemma_slots_apart(m, j, i);
        }
        assert(after.header_bytes(j) =~= m.header_bytes(j));
    }
    assert forall|j: int| 0 <= j < m.capacity() implies #[trigger] after.payload_bytes(j)
        == m.payload_bytes(j) by {
        lemma_slot_bounds(m, j);
        if i < j {
            lemma_slots_apart(m, i, j);
        } else if j < i {
            lemma_slots_apart(m, j, i);
        }
        assert(after.payload_bytes(j) =~= m.payload_bytes(j));
    }
}

/// Writing the payload of a slot changes that payload and nothing else: not
/// the other payloads, not any reference count, not the layout.
pub proof fn lemma_with_payload(m: PoolModel, i: int, bytes: Seq<u8>)
    requires
        0 <= i < m.capacity(),
        bytes.len() == m.payload_size,
    ensures
        m.with_payload(i, bytes).buffer.len() == m.buffer.len(),
        m.with_payload(i, bytes).capacity() == m.capacity(),
        m.with_payload(i, bytes).payload_bytes(i) == bytes,
        forall|j: int|
            0 <= j < m.capacity() && j != i ==> #[trigger] m.with_payload(i, bytes).payload_bytes(
                j,
            ) == m.payload_bytes(j),
        forall|j: int|
            0 <= j < m.capacity() ==> #[trigger] m.with_payload(i, bytes).ref_count(j)
                == m.ref_count(j),
        m.inv() ==> m.with_payload(i, bytes).inv(),
{
    let after = m.with_payload(i, bytes);
    lemma_slot_bounds(m, i);
    assert(after.payload_bytes(i) =~= bytes);
    assert forall|j: int| 0 <= j < m.capacity() && j != i implies #[trigger] after.payload_bytes(
        j,
    ) == m.payload_bytes(j) by {
        lemma_slot_bounds(m, j);
        if i < j {
            lemma_slots_apart(m, i, j);
        } else {
            lemma_slots_apart(m, j, i);
        }
        assert(after.payload_bytes(j) =~= m.payload_bytes(j));
    }
    assert forall|j: int| 0 <= j < m.capacity() implies #[trigger] after.ref_count(j)
        == m.ref_count(j) by {
        lemma_slot_bounds(m, j);
        if i < j {
            lemma_slots_apart(m, i, j);
        } else if j < i {
            lemma_slots_apart(m, j, i);
        }
        assert(after.header_bytes(j) =~= m.header_bytes(j));
    }
    if m.inv() {
        assert forall|j: int| 0 <= j < after.tail implies (after.ref_count(j) == 0
            <==> after.free_list.contains(j as usize)) by {
            assert(after.ref_count(j) == m.ref_count(j));
        }
    }
}

/// A list of different numbers below `bound` has at most `bound` entries.
pub proof fn lemma_distinct_below(list: Seq<usize>, bound: nat)
    requires
        list.no_duplicates(),
        forall|k: int| 0 <= k < list.len() ==> #[trigger] list[k] < bound,
    ensures
        list.len() <= bound,
    decreases bound,
{
    if list.len() > 0 {
        if bound == 0 {
            assert(list[0] < bound);
        } else {
            let top = (bound - 1) as nat;
            if exists|k: int| 0 <= k < list.len() && list[k] == top {
                let at = choose|k: int| 0 <= k < list.len() && list[k] == top;
                let rest = Seq::new(
                    (list.len() - 1) as nat,
                    |k: int|
                        if k < at {
                            list[k]
                        } else {
                            list[k + 1]
                        },
                );
                assert forall|k: int| 0 <= k < rest.len() implies #[trigger] rest[k] < top by {
                    let from = if k < at {
                        k
                    } else {
                        k + 1
                    };
                    assert(list[from] < bound);
                    assert(from != at);
                }
                lemma_distinct_below(rest, top);
            } else {
                assert forall|k: int| 0 <= k < list.len() implies #[trigger] list[k] < top by {
                    assert(list[k] < bound);
                }
                lemma_distinct_below(list, top);
            }
        }
    }
}

/// A list of `bound` different numbers below `bound` holds each of them.
pub proof fn lemma_distinct_fills(list: Seq<usize>, bound: nat, value: usize)
    requires
        list.no_duplicates(),
        forall|k: int| 0 <= k < list.len() ==> #[trigger] list[k] < bound,
        list.len() == bound,
        value < bound,
    ensures
        list.contains(value),
{
    if !list.contains(value) {
        let longer = list.push(value);
        assert forall|a: int, b: int|
            0 <= a < longer.len() && 0 <= b < longer.len() && a != b implies longer[a]
            != longer[b] by {
            if a < list.len() && b < list.len() {
                assert(list[a] != list[b]);
            } else if a < list.len() {
                assert(list.contains(list[a]));
            } else {
                assert(list.contains(list[b]));
            }
        }
        assert forall|k: int| 0 <= k < longer.len() implies #[trigger] longer[k] < bound by {
            if k < list.len() {
                assert(list[k] < bound);
            }
        }
        lemma_distinct_below(longer, bound);
    }
}

/// One more reference to a slot: its count goes up by one, nothing else
/// changes, and the bookkeeping stays right if the slot was referred to
/// before.
pub proof fn lemma_retained(m: PoolModel, i: int)
    requires
        m.wf(),
        0 <= i < m.capacity(),
        m.ref_count(i) < usize::MAX,
    ensures
        m.retained(i).wf(),
        m.retained(i).ref_count(i) == m.ref_count(i) + 1,
        m.retained(i).capacity() == m.capacity(),
        forall|j: int|
            0 <= j < m.capacity() && j != i ==> #[trigger] m.retained(i).ref_count(j)
                == m.ref_count(j),
        forall|j: int|
            0 <= j < m.capacity() ==> #[trigger] m.retained(i).payload_bytes(j)
                == m.payload_bytes(j),
        m.inv() && m.ref_count(i) >= 1 ==> m.retained(i).inv(),
{
    let after = m.retained(i);
    lemma_with_count(m, i, m.ref_count(i) + 1);
    if m.inv() && m.ref_count(i) >= 1 {
        assert forall|j: int| 0 <= j < after.tail implies (after.ref_count(j) == 0
            <==> after.free_list.contains(j as usize)) by {
            if j != i {
                assert(after.ref_count(j) == m.ref_count(j));
            } else {
                assert(m.ref_count(i) != 0);
            }
        }
        assert forall|j: int| after.tail <= j < after.capacity() implies #[trigger] after.ref_count(
            j,
        ) == 0 by {
            assert(m.ref_count(j) == 0);
        }
    }
}

/// Giving up a reference keeps the bookkeeping right: the count goes down
/// by one, a count that reaches zero is written as zero bytes and puts the
/// slot at the end of the free list, and nothing else changes.
pub proof fn lemma_released(m: PoolModel, i: int)
    requires
        m.inv(),
        0 <= i < m.capacity(),
        m.ref_count(i) >= 1,
    ensures
        i < m.tail,
        m.released(i).inv(),
        m.released(i).tail == m.tail,
        m.released(i).capacity() == m.capacity(),
        m.released(i).ref_count(i) == m.ref_count(i) - 1,
        m.ref_count(i) == 1 ==> m.released(i).header_bytes(i) == zeros(word_size()),
        m.ref_count(i) == 1 ==> m.released(i).live_count() == m.live_count() - 1,
        m.ref_count(i) > 1 ==> m.released(i).live_count() == m.live_count(),
        forall|j: int|
            0 <= j < m.capacity() && j != i ==> #[trigger] m.released(i).ref_count(j)
                == m.ref_count(j),
        forall|j: int|
            0 <= j < m.capacity() ==> #[trigger] m.released(i).payload_bytes(j)
                == m.payload_bytes(j),
{
    let after = m.released(i);
    let count = (m.ref_count(i) - 1) as nat;
    let lowered = m.with_count(i, count);
    lemma_slot_bounds(m, i);
    lemma_with_count(m, i, count);
    lemma_zero_bytes(word_size());
    assert(after.buffer == lowered.buffer);
    assert(after.capacity() == m.capacity());
    assert forall|j: int| 0 <= j < m.capacity() implies #[trigger] after.ref_count(j)
        == lowered.ref_count(j) by {
        assert(after.header_bytes(j) == lowered.header_bytes(j));
    }
    assert forall|j: int| 0 <= j < m.capacity() implies #[trigger] after.payload_bytes(j)
        == lowered.payload_bytes(j) by {}
    assert(!m.free_list.contains(i as usize));
    assert forall|a: int, b: int|
        0 <= a < after.free_list.len() && 0 <= b < after.free_list.len() && a != b implies
        after.free_list[a] != after.free_list[b] by {
        if count == 0 {
            if a < m.free_list.len() && b < m.free_list.len() {
                assert(m.free_list[a] != m.free_list[b]);
            } else if a < m.free_list.len() {
                assert(m.free_list.contains(m.free_list[a]));
            } else {
                assert(m.free_list.contains(m.free_list[b]));
            }
        }
    }
    assert forall|k: int| 0 <= k < after.free_list.len() implies #[trigger] after.free_list[k]
        < after.tail by {
        if k < m.free_list.len() {
            assert(m.free_list[k] < m.tail);
        }
    }
    assert forall|j: int| 0 <= j < after.tail implies (after.ref_count(j) == 0
        <==> after.free_list.contains(j as usize)) by {
        if j == i {
            if count == 0 {
                assert(after.free_list[m.free_list.len() as int] == i as usize);
            }
        } else {
            assert(after.ref_count(j) == m.ref_count(j));
            if count == 0 {
                if m.free_list.contains(j as usize) {
                    let k = choose|k: int|
                        0 <= k < m.free_list.len() && m.free_list[k] == j as usize;
                    assert(after.free_list[k] == j as usize);
                }
                if after.free_list.contains(j as usize) {
                    let k = choose|k: int|
                        0 <= k < after.free_list.len() && after.free_list[k] == j as usize;
                    assert(m.free_list[k] == j as usize);
                }
            }
        }
    }
    assert forall|j: int| after.tail <= j < after.capacity() implies #[trigger] after.ref_count(
        j,
    ) == 0 by {
        assert(m.ref_count(j) == 0);
    }
    lemma_distinct_below(after.free_list, after.tail);
}

/// A claim keeps the bookkeeping right: the slot taken is the head of the
/// free list or, if that is empty, the first untouched slot; its count
/// becomes one, written as the bytes of the number one; one more slot is
/// live; and nothing else changes.
pub proof fn lemma_claimed(m: PoolModel)
    requires
        m.inv(),
        m.can_claim(),
    ensures
        0 <= m.next_index() < m.capacity(),
        m.ref_count(m.next_index()) == 0,
        m.taken().wf(),
        m.taken().capacity() == m.capacity(),
        m.claimed().inv(),
        m.claimed().capacity() == m.capacity(),
        m.claimed().ref_count(m.next_index()) == 1,
        m.claimed().header_bytes(m.next_index()) == le_bytes(1, word_size()),
        m.claimed().live_count() == m.live_count() + 1,
        m.claimed().tail == if m.free_list.len() > 0 {
            m.tail
        } else {
            m.tail + 1
        },
        m.next_index() < m.claimed().tail,
        forall|j: int|
            0 <= j < m.capacity() && j != m.next_index() ==> #[trigger] m.claimed().ref_count(j)
                == m.ref_count(j),
        forall|j: int|
            0 <= j < m.capacity() ==> #[trigger] m.claimed().payload_bytes(j) == m.payload_bytes(
                j,
            ),
{
    let i = m.next_index();
    let taken = m.taken();
    let after = m.claimed();
    if m.free_list.len() > 0 {
        assert(m.free_list[0] < m.tail);
        assert(m.free_list.contains(m.free_list[0]));
    }
    assert(m.ref_count(i) == 0);
    assert(taken.buffer == m.buffer);
    assert(taken.capacity() == m.capacity());
    assert forall|j: int| 0 <= j < m.capacity() implies #[trigger] taken.ref_count(j)
        == m.ref_count(j) by {
        assert(taken.header_bytes(j) == m.header_bytes(j));
    }
    assert forall|j: int| 0 <= j < m.capacity() implies #[trigger] taken.payload_bytes(j)
        == m.payload_bytes(j) by {}
    lemma_retained(taken, i);
    lemma_with_count(taken, i, 1);
    assert forall|a: int, b: int|
        0 <= a < after.free_list.len() && 0 <= b < after.free_list.len() && a != b implies
        after.free_list[a] != after.free_list[b] by {
        if m.free_list.len() > 0 {
            assert(m.free_list[a + 1] != m.free_list[b + 1]);
        }
    }
    assert forall|k: int| 0 <= k < after.free_list.len() implies #[trigger] after.free_list[k]
        < after.tail by {
        if m.free_list.len() > 0 {
            assert(m.free_list[k + 1] < m.tail);
        }
    }
    assert forall|j: int| 0 <= j < after.tail implies (after.ref_count(j) == 0
        <==> after.free_list.contains(j as usize)) by {
        if j == i {
            if after.free_list.contains(j as usize) {
                let k = choose|k: int|
                    0 <= k < after.free_list.len() && after.free_list[k] == j as usize;
                assert(m.free_list[k + 1] == m.free_list[0]);
            }
        } else {
            assert(after.ref_count(j) == m.ref_count(j));
            if m.free_list.len() > 0 {
                if m.free_list.contains(j as usize) {
                    let k = choose|k: int|
                        0 <= k < m.free_list.len() && m.free_list[k] == j as usize;
                    assert(after.free_list[k - 1] == j as usize);
                }
                if after.free_list.contains(j as usize) {
                    let k = choose|k: int|
                        0 <= k < after.free_list.len() && after.free_list[k] == j as usize;
                    assert(m.free_list[k + 1] == j as usize);
                }
            }
        }
    }
    assert forall|j: int| after.tail <= j < after.capacity() implies #[trigger] after.ref_count(
        j,
    ) == 0 by {
        assert(m.ref_count(j) == 0);
    }
}

/// A buffer of zero bytes has every reference count at zero.
pub proof fn lemma_zero_buffer(m: PoolModel, i: int)
    requires
        0 <= i < m.capacity(),
        forall|k: int| 0 <= k < m.buffer.len() ==> m.buffer[k] == 0,
    ensures
        m.ref_count(i) == 0,
        m.header_bytes(i) == zeros(word_size()),
{
    lemma_slot_bounds(m, i);
    assert(m.header_bytes(i) =~= zeros(word_size()));
    lemma_zero_bytes(word_size());
}

/// Zeroing the buffer keeps the bookkeeping right exactly when no slot is
/// live; the sizes stay as they are in any case.
pub proof fn lemma_cleared(m: PoolModel)
    requires
        m.wf(),
    ensures
        m.cleared().wf(),
        m.cleared().capacity() == m.capacity(),
        m.inv() && m.live_count() == 0 ==> m.cleared().inv(),
        m.inv() && m.cleared().inv() ==> m.live_count() == 0,
{
    let after = m.cleared();
    assert forall|j: int| 0 <= j < after.capacity() implies #[trigger] after.ref_count(j)
        == 0 by {
        lemma_zero_buffer(after, j);
    }
    if m.inv() && m.live_count() == 0 {
        assert forall|j: int| 0 <= j < after.tail implies (after.ref_count(j) == 0
            <==> after.free_list.contains(j as usize)) by {
            lemma_distinct_fills(m.free_list, m.tail, j as usize);
        }
    }
    if m.inv() && after.inv() && m.live_count() != 0 {
        lemma_live_slot(m);
        let j = choose|j: int| 0 <= j < m.tail && m.ref_count(j) >= 1;
        assert(after.ref_count(j) == 0);
        assert(after.free_list.contains(j as usize));
        assert(m.ref_count(j) == 0);
    }
}

/// While the live count is not zero, some claimed slot has a reference.
pub proof fn lemma_live_slot(m: PoolModel)
    requires
        m.inv(),
        m.live_count() != 0,
    ensures
        exists|j: int| 0 <= j < m.tail && m.ref_count(j) >= 1,
{
    if forall|j: int| 0 <= j < m.tail ==> m.ref_count(j) == 0 {
        assert forall|v: int| 0 <= v < m.tail implies m.free_list.contains(
            #[trigger] (v as usize),
        ) by {
            assert(m.ref_count(v) == 0);
        }
        lemma_capacity_fits(m);
        lemma_covers_all(m.free_list, m.tail);
    }
}

/// A list that holds every number below `bound` has at least `bound`
/// entries.
pub proof fn lemma_covers_all(list: Seq<usize>, bound: nat)
    requires
        bound <= usize::MAX + 1,
        forall|v: int| 0 <= v < bound ==> list.contains(#[trigger] (v as usize)),
    ensures
        list.len() >= bound,
    decreases bound,
{
    if bound > 0 {
        let top = (bound - 1) as usize;
        assert(list.contains((bound - 1) as usize));
        let at = choose|k: int| 0 <= k < list.len() && list[k] == top;
        let rest = Seq::new(
            (list.len() - 1) as nat,
            |k: int|
                if k < at {
                    list[k]
                } else {
                    list[k + 1]
                },
        );
        assert forall|v: int| 0 <= v < bound - 1 implies rest.contains(
            #[trigger] (v as usize),
        ) by {
            assert(list.contains(v as usize));
            let k = choose|k: int| 0 <= k < list.len() && list[k] == v as usize;
            if k < at {
                assert(rest[k] == v as usize);
            } else {
                assert(rest[k - 1] == v as usize);
            }
        }
        lemma_covers_all(rest, (bound - 1) as nat);
    }
}

} // verus!
