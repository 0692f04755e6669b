use crate::collection::slices::{concat, lemma_concat_push, slices_view, total_len};
use crate::collection::traits::{
    extended_one_by_one, extended_with, extension_run, extension_step,
    lemma_extended_one_by_one_append, lemma_extended_one_by_one_failed,
};
use crate::collection::{ExpansionTy, TryExtend};
use crate::error::Error;
use vstd::prelude::*;

verus! {

/// Errors of [Deque].
#[derive(Clone, Copy, Debug, PartialEq, Eq, Structural)]
pub enum DequeueError {
    /// There is no room for the copied elements.
    ExtendFromSliceOverflow,
    /// The provided range does not point to valid internal data
    OutOfBoundsRange,
    /// There is no room for one more element.
    PushFrontOverflow,
    /// The requested capacity can not be allocated.
    ReserveOverflow,
    /// The requested capacity can not be allocated.
    WithCapacityOverflow,
}

/// Whether the elements of a ring buffer cross its physical end, given the index of the first
/// element, the number of elements and the index after the last element.
pub open spec fn spec_is_wrapping(head: nat, len: nat, tail: nat) -> bool {
    if tail > head {
        false
    } else {
        len > 0
    }
}

/// The physical slot of the logical position `idx` in a ring of `cap` slots that starts at
/// `head`.
pub open spec fn ring_slot(head: nat, idx: nat, cap: nat) -> nat {
    if head + idx < cap {
        head + idx
    } else {
        (head + idx - cap) as nat
    }
}

/// Whether the positions `start` up to `end` of `deque` lie in one of the two contiguous runs
/// of slots that hold its elements.
pub open spec fn spec_range_within_one_slice<T: Copy>(deque: &Deque<T>, start: nat, end: nat) -> bool {
    &&& start <= end
    &&& (end <= deque.spec_front_len() || (deque.spec_front_len() <= start && end <= deque@.len()))
}

/// Distinct logical positions of a ring occupy distinct slots.
pub proof fn lemma_ring_slot_injective(head: nat, i: nat, j: nat, cap: nat)
    requires
        head <= cap,
        i < cap,
        j < cap,
        i != j,
    ensures
        ring_slot(head, i, cap) != ring_slot(head, j, cap),
        ring_slot(head, i, cap) < cap,
{
}

/// The order in which the elements of `elems` after the first `new_len` leave a ring whose
/// last element lies in the slot before `tail`: where the ring wraps around the end of its
/// buffer and fewer than the removed elements lie before `tail`, those first, then the others;
/// front to back otherwise.
pub open spec fn back_removal_order<T>(elems: Seq<T>, new_len: nat, tail: nat, wrapping: bool) -> Seq<T> {
    let len = elems.len();
    if wrapping && tail < len - new_len {
        elems.subrange(len - tail, len as int) + elems.subrange(new_len as int, len - tail)
    } else {
        elems.subrange(new_len as int, len as int)
    }
}

/// Where the first element and the slot after the last one lie once room for `additional` more
/// elements was made at the back (`is_back`) or at the front of a ring of `prev_cap` slots that
/// now has `cap` slots, given where they lay before. An empty ring starts over at slot 0. Where
/// the elements wrap around the end and the gap between tail and head is too small, those
/// before the end move to the new end. Otherwise the elements stay where the side that grows
/// has room, or where that side is full and the other has room; else they move to the start
/// (back) or to the end (front) of the buffer.
pub open spec fn reserved_ends(
    head: nat,
    tail: nat,
    len: nat,
    prev_cap: nat,
    cap: nat,
    additional: nat,
    is_back: bool,
) -> (nat, nat) {
    if len == 0 {
        (0, 0)
    } else if spec_is_wrapping(head, len, tail) {
        if head - tail >= additional {
            (head, tail)
        } else {
            ((cap - (prev_cap - head)) as nat, tail)
        }
    } else {
        let right_free = cap - tail;
        let left_free = head as int;
        if is_back {
            if right_free >= additional || (right_free == 0 && left_free >= additional) {
                (head, tail)
            } else {
                (0, len)
            }
        } else {
            if left_free >= additional || (left_free == 0 && right_free >= additional) {
                (head, tail)
            } else {
                ((cap - len) as nat, cap)
            }
        }
    }
}

/// The slot after the last element once a ring of `cap` slots, whose elements run from
/// `head` for `len` slots up to `tail`, keeps only its first `new_len` elements.
pub open spec fn truncated_tail(head: nat, len: nat, tail: nat, cap: nat, new_len: nat) -> nat {
    let diff = len - new_len;
    if spec_is_wrapping(head, len, tail) {
        if tail >= diff {
            if tail == diff {
                0
            } else {
                (tail - diff) as nat
            }
        } else {
            (cap - (diff - tail)) as nat
        }
    } else {
        (tail - diff) as nat
    }
}

/// The slot of the first element once a ring of `cap` slots, whose elements run from `head`
/// for `len` slots up to `tail`, keeps only its last `new_len` elements.
pub open spec fn truncated_head(head: nat, len: nat, tail: nat, cap: nat, new_len: nat) -> nat {
    let diff = len - new_len;
    if spec_is_wrapping(head, len, tail) {
        if cap - head >= diff {
            if cap - head == diff {
                0
            } else {
                (head + diff) as nat
            }
        } else {
            (diff - (cap - head)) as nat
        }
    } else {
        (head + diff) as nat
    }
}

/// The first slot of the room made at the back of a ring of `cap` slots whose tail, after
/// making room for `additional` more elements, is `tail`: the tail itself, unless it is the
/// end of the buffer and room was asked for, in which case the room starts over at slot 0.
pub open spec fn back_room_begin(tail: nat, cap: nat, additional: nat) -> nat {
    if tail == cap && additional > 0 {
        0
    } else {
        tail
    }
}

/// The first slot of the room made at the front of a ring of `cap` slots for `additional`
/// more elements, where the head, after making that room, is `head` and `len` elements are
/// held: the room ends at the head, or at the end of the buffer where the head is slot 0 and
/// room was asked for or nothing is held.
pub open spec fn front_room_begin(head: nat, len: nat, cap: nat, additional: nat) -> int {
    if head == 0 && (additional > 0 || len == 0) {
        cap - additional
    } else {
        head - additional
    }
}

/// The shift that making room for `additional` more elements reports, for a ring of `len`
/// elements from `head` up to `tail` that grows from `prev_cap` to `cap` slots: nothing for room
/// at the back (`is_back`) or where the room was already there; for room at the front, the
/// growth of the buffer where a wrapping front run moved to its end, and the free slots after
/// the tail where the elements moved to the end of the buffer.
pub open spec fn head_shift_of(
    head: nat,
    tail: nat,
    len: nat,
    prev_cap: nat,
    cap: nat,
    additional: nat,
    is_back: bool,
) -> nat {
    if is_back || len == 0 {
        0
    } else if spec_is_wrapping(head, len, tail) {
        if head - tail < additional {
            (cap - prev_cap) as nat
        } else {
            0
        }
    } else if head >= additional || (head == 0 && cap - tail >= additional) {
        0
    } else {
        (cap - tail) as nat
    }
}

/// `idx + 1` in a ring of `cap` slots.
pub open spec fn ring_next(idx: nat, cap: nat) -> nat {
    if idx + 1 >= cap {
        (idx + 1 - cap) as nat
    } else {
        idx + 1
    }
}

/// `idx - 1` in a ring of `cap` slots.
pub open spec fn ring_prev(idx: nat, cap: nat) -> nat {
    if idx >= 1 {
        (idx - 1) as nat
    } else {
        (idx + cap - 1) as nat
    }
}

/// The greatest number of slots that a deque can allocate.
pub open spec fn max_slots() -> nat {
    isize::MAX as nat
}

/// A double-ended queue implemented with a growable ring buffer.
///
/// `data` holds one slot per unit of capacity. The `len` elements of the queue occupy the
/// slots from `head` onwards, wrapping around the end of `data`, and `tail` is the slot after
/// the last element.
#[derive(Clone)]
pub struct Deque<T> {
    data: Vec<Option<T>>,
    head: usize,
    tail: usize,
    len: usize,
}

impl<T> Deque<T> {
    /// The number of slots.
    pub closed spec fn spec_capacity(&self) -> nat {
        self.data@.len()
    }

    /// The slot of the first element.
    pub closed spec fn spec_head(&self) -> nat {
        self.head as nat
    }

    /// The slot after the last element.
    pub closed spec fn spec_tail(&self) -> nat {
        self.tail as nat
    }

    /// The physical slot of the element at logical position `idx`.
    pub closed spec fn slot_of(&self, idx: nat) -> nat {
        ring_slot(self.head as nat, idx, self.data@.len())
    }

    /// The elements, front to back.
    pub closed spec fn view(&self) -> Seq<T> {
        Seq::new(self.len as nat, |i: int| self.data@[self.slot_of(i as nat) as int]->0)
    }

    /// Whether the elements cross the physical end of the buffer.
    pub open spec fn spec_wrapping(&self) -> bool {
        spec_is_wrapping(self.spec_head(), self@.len(), self.spec_tail())
    }

    /// The well-formedness of the ring: indices in bounds, the tail right after the last
    /// element, and an element in every occupied slot.
    pub closed spec fn wf(&self) -> bool {
        let cap = self.data@.len();
        &&& self.len <= cap
        &&& cap <= max_slots()
        &&& self.head <= cap
        &&& self.tail <= cap
        &&& self.len > 0 ==> {
            &&& self.head < cap
            &&& (self.tail == self.head + self.len || (self.head + self.len >= cap
                && self.tail == self.head + self.len - cap))
        }
        &&& forall|i: nat| i < self.len ==> (#[trigger] self.data@[self.slot_of(i) as int]) is Some
    }

    /// The conditions of [`Self::wf`] on the indices alone.
    spec fn ring_ok(&self) -> bool {
        let cap = self.data@.len();
        &&& self.len <= cap
        &&& cap <= max_slots()
        &&& self.head <= cap
        &&& self.tail <= cap
        &&& self.len > 0 ==> {
            &&& self.head < cap
            &&& (self.tail == self.head + self.len || (self.head + self.len >= cap
                && self.tail == self.head + self.len - cap))
        }
    }

    /// What a well-formed ring guarantees of its indices: the elements run from `head` for
    /// `len` slots, wrapping around the end of the buffer, up to `tail`; where they wrap, the
    /// part before the end is not empty.
    pub proof fn lemma_layout(&self)
        requires
            self.wf(),
        ensures
            self@.len() <= self.spec_capacity() <= max_slots(),
            self.spec_head() <= self.spec_capacity(),
            self.spec_tail() <= self.spec_capacity(),
            self@.len() > 0 ==> self.spec_head() < self.spec_capacity() && (self.spec_tail()
                == self.spec_head() + self@.len() || (self.spec_head() + self@.len()
                >= self.spec_capacity() && self.spec_tail() == self.spec_head() + self@.len()
                - self.spec_capacity())),
            self.spec_wrapping() ==> 0 < self.spec_capacity() - self.spec_head() <= self@.len(),
    {
    }

    proof fn lemma_same_ring(a: &Self, b: &Self)
        requires
            a.wf(),
            a.data@ == b.data@,
            a.head == b.head,
            a.tail == b.tail,
            a.len == b.len,
        ensures
            b.wf(),
            b@ == a@,
    {
        assert forall|i: nat| i < b.len implies (#[trigger] b.data@[b.slot_of(i) as int]) is Some by {
            assert(a.slot_of(i) == b.slot_of(i));
            assert(a.data@[a.slot_of(i) as int] is Some);
        }
        assert(b@ =~= a@);
    }

    /// Creates a new empty instance.
    pub fn new() -> (r: Self)
        ensures
            r.wf(),
            r@ == Seq::<T>::empty(),
            r.spec_capacity() == 0,
            r.spec_head() == 0 && r.spec_tail() == 0,
    {
        let r = Deque { data: Vec::new(), head: 0, tail: 0, len: 0 };
        assert(r@ =~= Seq::<T>::empty());
        r
    }

    fn empty_slots(capacity: usize) -> (r: Vec<Option<T>>)
        ensures
            r@.len() == capacity,
            forall|i: int| 0 <= i < capacity ==> r@[i] is None,
    {
        let mut r: Vec<Option<T>> = Vec::new();
        let mut idx: usize = 0;
        while idx < capacity
            invariant
                idx <= capacity,
                r@.len() == idx,
                forall|i: int| 0 <= i < idx ==> r@[i] is None,
            decreases capacity - idx,
        {
            r.push(None);
            idx = idx + 1;
        }
        r
    }

    /// Constructs a new, empty instance with the specified capacity.
    pub fn with_capacity(capacity: usize) -> (r: Result<Self, Error>)
        ensures
            (capacity <= max_slots()) == (r is Ok),
            r matches Ok(d) ==> d.wf() && d@ == Seq::<T>::empty() && d.spec_capacity()
                == capacity && d.spec_head() == 0 && d.spec_tail() == 0,
            r matches Err(e) ==> e == Error::DequeueError(DequeueError::WithCapacityOverflow),
    {
        if capacity > isize::MAX as usize {
            return Err(Error::DequeueError(DequeueError::WithCapacityOverflow));
        }
        let r = Deque { data: Self::empty_slots(capacity), head: 0, tail: 0, len: 0 };
        assert(r@ =~= Seq::<T>::empty());
        Ok(r)
    }

    /// Constructs a new, empty instance with exactly the specified capacity.
    pub fn with_exact_capacity(capacity: usize) -> (r: Result<Self, Error>)
        ensures
            (capacity <= max_slots()) == (r is Ok),
            r matches Ok(d) ==> d.wf() && d@ == Seq::<T>::empty() && d.spec_capacity()
                == capacity && d.spec_head() == 0 && d.spec_tail() == 0,
            r matches Err(e) ==> e == Error::DequeueError(DequeueError::WithCapacityOverflow),
    {
        Self::with_capacity(capacity)
    }

    /// Returns the number of elements the queue can hold without reallocating.
    pub fn capacity(&self) -> (r: usize)
        ensures
            r == self.spec_capacity(),
    {
        self.data.len()
    }

    /// Returns the number of elements.
    pub fn len(&self) -> (r: usize)
        requires
            self.wf(),
        ensures
            r == self@.len(),
    {
        self.len
    }

    /// The slot of the first element.
    pub fn head(&self) -> (r: usize)
        ensures
            r == self.spec_head(),
    {
        self.head
    }

    /// The slot after the last element.
    pub fn tail(&self) -> (r: usize)
        ensures
            r == self.spec_tail(),
    {
        self.tail
    }

    /// Indicates whether the elements cross the physical end of the buffer.
    pub fn is_wrapping(&self) -> (r: bool)
        requires
            self.wf(),
        ensures
            r == self.spec_wrapping(),
    {
        is_wrapping(self.head, self.len, self.tail)
    }

    /// Provides a reference to the element at the given index.
    pub fn get(&self, idx: usize) -> (r: Option<&T>)
        requires
            self.wf(),
        ensures
            idx < self@.len() ==> r == Some(&self@[idx as int]),
            idx >= self@.len() ==> r is None,
    {
        if idx >= self.len {
            return None;
        }
        let slot = wrap_add_idx(self.data.len(), self.head, idx);
        assert(self.data@[self.slot_of(idx as nat) as int] is Some);
        self.data[slot].as_ref()
    }

    /// Provides a mutable reference to the element at the given index.
    pub fn get_mut(&mut self, idx: usize) -> (r: Option<&mut T>)
        requires
            old(self).wf(),
        ensures
            idx >= old(self)@.len() ==> r is None && *final(self) == *old(self),
            idx < old(self)@.len() ==> r is Some && *r.unwrap() == old(self)@[idx as int]
                && final(self).wf() && final(self)@ == old(self)@.update(
                idx as int,
                *final(r.unwrap()),
            ) && final(self).spec_capacity() == old(self).spec_capacity()
                && final(self).spec_head() == old(self).spec_head() && final(self).spec_tail()
                == old(self).spec_tail(),
    {
        if idx >= self.len {
            return None;
        }
        let slot = wrap_add_idx(self.data.len(), self.head, idx);
        assert(slot == self.slot_of(idx as nat));
        proof {
            assert forall|next: Self|
                next.head == self.head && next.tail == self.tail && next.len == self.len
                    && next.data@.len() == self.data@.len() && (forall|j: int|
                    0 <= j < self.data@.len() && j != slot ==> next.data@[j] == self.data@[j])
                    && next.data@[slot as int] is Some implies #[trigger] next.wf() && next@
                == self@.update(idx as int, next.data@[slot as int]->0) by {
                Self::lemma_update_slot(self, &next, idx as nat);
            }
        }
        self.data[slot].as_mut()
    }

    /// Holding another element in the slot of position `idx` keeps the ring well formed and
    /// changes that element alone.
    proof fn lemma_update_slot(prev: &Self, next: &Self, idx: nat)
        requires
            prev.wf(),
            idx < prev.len,
            next.head == prev.head,
            next.tail == prev.tail,
            next.len == prev.len,
            next.data@.len() == prev.data@.len(),
            forall|j: int|
                0 <= j < prev.data@.len() && j != prev.slot_of(idx) ==> next.data@[j]
                    == prev.data@[j],
            next.data@[prev.slot_of(idx) as int] is Some,
        ensures
            next.wf(),
            next@ == prev@.update(idx as int, next.data@[prev.slot_of(idx) as int]->0),
    {
        let cap = prev.data@.len();
        assert forall|i: nat| i < next.len implies (#[trigger] next.data@[next.slot_of(
            i,
        ) as int]) is Some by {
            if i != idx {
                lemma_ring_slot_injective(prev.head as nat, i, idx, cap);
                assert(prev.data@[prev.slot_of(i) as int] is Some);
            }
        }
        assert forall|i: int| 0 <= i < next@.len() && i != idx implies next@[i] == prev@[i] by {
            lemma_ring_slot_injective(prev.head as nat, i as nat, idx, cap);
        }
        assert(next@ =~= prev@.update(idx as int, next.data@[prev.slot_of(idx) as int]->0));
    }

    /// Returns a mutable reference to the last element.
    pub fn last_mut(&mut self) -> (r: Option<&mut T>)
        requires
            old(self).wf(),
        ensures
            old(self)@.len() == 0 ==> r is None && *final(self) == *old(self),
            old(self)@.len() > 0 ==> r is Some && *r.unwrap() == old(self)@.last()
                && final(self).wf() && final(self)@ == old(self)@.update(
                old(self)@.len() - 1,
                *final(r.unwrap()),
            ) && final(self).spec_capacity() == old(self).spec_capacity()
                && final(self).spec_head() == old(self).spec_head() && final(self).spec_tail()
                == old(self).spec_tail(),
    {
        if self.len == 0 {
            return None;
        }
        let idx = self.len - 1;
        self.get_mut(idx)
    }

    /// Returns the last element.
    pub fn last(&self) -> (r: Option<&T>)
        requires
            self.wf(),
        ensures
            self@.len() > 0 ==> r == Some(&self@.last()),
            self@.len() == 0 ==> r is None,
    {
        if self.len == 0 {
            return None;
        }
        self.get(self.len - 1)
    }

    /// Appends empty slots until there are [`grown_capacity`] of them.
    fn grow(&mut self, additional: usize) -> (r: Result<(), Error>)
        requires
            old(self).data@.len() <= max_slots(),
            old(self).len <= old(self).data@.len(),
        ensures
            final(self).head == old(self).head,
            final(self).tail == old(self).tail,
            final(self).len == old(self).len,
            (old(self).len + additional <= max_slots()) == (r is Ok),
            r is Ok ==> final(self).data@.len() == grown_capacity(
                old(self).data@.len(),
                old(self).len as nat,
                additional as nat,
            ),
            r is Err ==> final(self).data@ == old(self).data@ && r == Err::<(), Error>(
                Error::DequeueError(DequeueError::ReserveOverflow),
            ),
            forall|p: int|
                0 <= p < old(self).data@.len() ==> #[trigger] final(self).data@[p] == old(self).data@[p],
    {
        let cap = self.data.len();
        let max = isize::MAX as usize;
        if additional > max - self.len {
            return Err(Error::DequeueError(DequeueError::ReserveOverflow));
        }
        let required = self.len + additional;
        if cap >= required {
            return Ok(());
        }
        let doubled = if cap > max / 2 {
            max
        } else if 2 * cap > required {
            2 * cap
        } else {
            required
        };
        let at_least_four = if doubled < 4 {
            4
        } else {
            doubled
        };
        let new_cap = if at_least_four > max {
            max
        } else {
            at_least_four
        };
        assert(new_cap == grown_capacity(cap as nat, self.len as nat, additional as nat));
        let mut idx = cap;
        while idx < new_cap
            invariant
                cap <= idx <= new_cap,
                self.data@.len() == idx,
                forall|p: int| 0 <= p < cap ==> #[trigger] self.data@[p] == old(self).data@[p],
                self.head == old(self).head,
                self.tail == old(self).tail,
                self.len == old(self).len,
                cap == old(self).data@.len(),
            decreases new_cap - idx,
        {
            self.data.push(None);
            idx = idx + 1;
        }
        Ok(())
    }

    /// Allocates `additional` capacity for the contiguous insertion of back (`is_back`) or
    /// front elements. The free slots where two ends meet are not considered.
    #[verifier::spinoff_prover]
    #[verifier::rlimit(60)]
    fn prolong(&mut self, additional: usize, is_back: bool) -> (r: Result<ReserveRslt, Error>)
        requires
            old(self).wf(),
        ensures
            final(self).wf(),
            (old(self)@.len() + additional <= max_slots()) == (r is Ok),
            r is Err ==> final(self)@ == old(self)@ && final(self).spec_capacity() == old(self).spec_capacity(),
            r is Err ==> final(self).spec_head() == old(self).spec_head() && final(self).spec_tail()
                == old(self).spec_tail(),
            r matches Err(e) ==> e == Error::DequeueError(DequeueError::ReserveOverflow),
            r is Ok ==> {
                &&& final(self)@ == old(self)@
                &&& final(self).spec_capacity() == grown_capacity(
                    old(self).spec_capacity(),
                    old(self)@.len(),
                    additional as nat,
                )
            },
            r is Ok ==> (final(self).spec_head(), final(self).spec_tail()) == reserved_ends(
                old(self).spec_head(),
                old(self).spec_tail(),
                old(self)@.len(),
                old(self).spec_capacity(),
                final(self).spec_capacity(),
                additional as nat,
                is_back,
            ),
            r matches Ok(rr) ==> rr.head_shift == head_shift_of(
                old(self).spec_head(),
                old(self).spec_tail(),
                old(self)@.len(),
                old(self).spec_capacity(),
                final(self).spec_capacity(),
                additional as nat,
                is_back,
            ),
            r matches Ok(rr) ==> {
                let cap = final(self).data@.len();
                let head = final(self).head;
                let len = final(self).len;
                &&& rr.begin + additional <= cap
                &&& len + additional <= cap
                &&& is_back ==> rr.begin == back_room_begin(
                    final(self).tail as nat,
                    cap,
                    additional as nat,
                )
                &&& is_back ==> {
                    &&& len == 0 ==> final(self).head == 0 && final(self).tail == 0 && rr.begin
                        == 0
                    &&& len > 0 ==> (rr.begin == head + len || rr.begin == ring_slot(
                        head as nat,
                        len as nat,
                        cap,
                    ))
                }
                &&& !is_back ==> {
                    &&& len == 0 ==> final(self).head == 0 && final(self).tail == 0 && rr.begin
                        + additional == cap
                    &&& len > 0 ==> (rr.begin + additional == head || (head == 0 && rr.begin
                        + additional == cap))
                    &&& len > 0 && additional == 0 ==> rr.begin == head
                }
            },
    {
        let len = self.len;
        let prev_cap = self.data.len();
        let ghost old_data = self.data@;
        match self.grow(additional) {
            Ok(()) => {},
            Err(e) => {
                assert(self.data@ =~= old_data);
                proof {
                    Self::lemma_same_ring(old(self), self);
                }
                return Err(e);
            },
        }
        let curr_cap = self.data.len();
        let prev_head = self.head;
        let prev_tail = self.tail;
        if len == 0 {
            self.head = 0;
            self.tail = 0;
            assert(self@ =~= old(self)@);
            return Ok(
                if is_back {
                    ReserveRslt { begin: 0, head_shift: 0 }
                } else {
                    ReserveRslt { begin: curr_cap - additional, head_shift: 0 }
                },
            );
        }
        if is_wrapping(prev_head, len, prev_tail) {
            let free_slots = prev_head - prev_tail;
            if free_slots >= additional {
                assert(curr_cap == prev_cap);
                assert(self.data@ =~= old_data);
                proof {
                    Self::lemma_same_ring(old(self), self);
                }
                return Ok(
                    if is_back {
                        ReserveRslt { begin: prev_tail, head_shift: 0 }
                    } else {
                        ReserveRslt { begin: prev_head - additional, head_shift: 0 }
                    },
                );
            }
            let front_len = prev_cap - prev_head;
            let curr_head = curr_cap - front_len;
            move_slots(&mut self.data, prev_head, curr_head, front_len);
            self.head = curr_head;
            proof {
                assert forall|i: nat| i < self.len implies #[trigger] self.data@[self.slot_of(
                    i,
                ) as int] == old_data[old(self).slot_of(i) as int] by {
                    if i < front_len {
                        assert(self.data@[curr_head + i as int] == old_data[prev_head + i as int]);
                    } else {
                        let p = i - front_len;
                        assert(self.data@[p] == old_data[p]);
                    }
                }
                assert forall|i: nat| i < self.len implies (#[trigger] self.data@[self.slot_of(
                    i,
                ) as int]) is Some by {
                    assert(old_data[old(self).slot_of(i) as int] is Some);
                }
                assert(self@ =~= old(self)@);
            }
            return Ok(
                if is_back {
                    ReserveRslt { begin: prev_tail, head_shift: 0 }
                } else {
                    ReserveRslt { begin: curr_head - additional, head_shift: curr_cap - prev_cap }
                },
            );
        }
        let left_free = prev_head;
        let right_free = curr_cap - prev_tail;

        proof {
            assert forall|i: nat| i < self.len implies #[trigger] self.data@[self.slot_of(
                i,
            ) as int] == old_data[old(self).slot_of(i) as int] by {
                assert(old(self).slot_of(i) == self.slot_of(i));
            }
            assert forall|i: nat| i < self.len implies (#[trigger] self.data@[self.slot_of(
                i,
            ) as int]) is Some by {
                assert(old_data[old(self).slot_of(i) as int] is Some);
            }
            assert(self@ =~= old(self)@);
        }
        if is_back {
            if right_free >= additional {
                assert(self@ =~= old(self)@);
                return Ok(ReserveRslt { begin: prev_tail, head_shift: 0 });
            }
            if right_free == 0 && left_free >= additional {
                assert(self@ =~= old(self)@);
                return Ok(ReserveRslt { begin: 0, head_shift: 0 });
            }
            move_slots(&mut self.data, prev_head, 0, len);
            self.head = 0;
            self.tail = len;
            proof {
                assert forall|i: nat| i < self.len implies #[trigger] self.data@[self.slot_of(
                    i,
                ) as int] == old_data[old(self).slot_of(i) as int] by {
                    assert(self.data@[0 + i as int] == old_data[prev_head + i as int]);
                }
                assert forall|i: nat| i < self.len implies (#[trigger] self.data@[self.slot_of(
                    i,
                ) as int]) is Some by {
                    assert(old_data[old(self).slot_of(i) as int] is Some);
                }
                assert(self@ =~= old(self)@);
            }
            Ok(ReserveRslt { begin: len, head_shift: 0 })
        } else {
            if left_free >= additional {
                assert(self@ =~= old(self)@);
                return Ok(ReserveRslt { begin: prev_head - additional, head_shift: 0 });
            }
            if left_free == 0 && right_free >= additional {
                assert(self@ =~= old(self)@);
                return Ok(ReserveRslt { begin: curr_cap - additional, head_shift: 0 });
            }
            let curr_head = curr_cap - len;
            move_slots(&mut self.data, prev_head, curr_head, len);
            self.head = curr_head;
            self.tail = curr_cap;
            proof {
                assert forall|i: nat| i < self.len implies #[trigger] self.data@[self.slot_of(
                    i,
                ) as int] == old_data[old(self).slot_of(i) as int] by {
                    assert(self.data@[curr_head + i as int] == old_data[prev_head + i as int]);
                }
                assert forall|i: nat| i < self.len implies (#[trigger] self.data@[self.slot_of(
                    i,
                ) as int]) is Some by {
                    assert(old_data[old(self).slot_of(i) as int] is Some);
                }
                assert(self@ =~= old(self)@);
            }
            Ok(ReserveRslt { begin: curr_head - additional, head_shift: right_free })
        }
    }

    /// Appends an element to the back of the queue.
    pub fn push_back(&mut self, value: T) -> (r: Result<(), Error>)
        requires
            old(self).wf(),
        ensures
            final(self).wf(),
            (old(self)@.len() + 1 <= max_slots()) == (r is Ok),
            r is Ok ==> final(self)@ == old(self)@.push(value) && final(self).spec_capacity()
                == grown_capacity(old(self).spec_capacity(), old(self)@.len(), 1),
            r is Err ==> final(self)@ == old(self)@ && final(self).spec_capacity() == old(self).spec_capacity(),
            r is Ok ==> final(self).spec_head() == reserved_ends(
                old(self).spec_head(),
                old(self).spec_tail(),
                old(self)@.len(),
                old(self).spec_capacity(),
                final(self).spec_capacity(),
                1,
                true,
            ).0 && final(self).spec_tail() == ring_next(
                reserved_ends(
                old(self).spec_head(),
                old(self).spec_tail(),
                old(self)@.len(),
                old(self).spec_capacity(),
                final(self).spec_capacity(),
                1,
                true,
            ).1,
                final(self).spec_capacity(),
            ),
            r is Err ==> final(self).spec_head() == old(self).spec_head() && final(self).spec_tail()
                == old(self).spec_tail(),
            r matches Err(e) ==> e == Error::DequeueError(DequeueError::PushFrontOverflow),
    {
        match self.prolong(1, true) {
            Ok(_) => {},
            Err(_) => return Err(Error::DequeueError(DequeueError::PushFrontOverflow)),
        }
        let ghost mid = *self;
        let len = self.len;
        let cap = self.data.len();
        let tail = wrap_idx(cap, self.tail);
        assert(tail == ring_slot(self.head as nat, len as nat, cap as nat));
        self.tail = wrap_add_idx(cap, self.tail, 1);
        self.data.set(tail, Some(value));
        self.len = len + 1;
        proof {
            assert forall|i: nat| i < len implies #[trigger] self.data@[self.slot_of(i) as int]
                == mid.data@[mid.slot_of(i) as int] by {
                assert(self.slot_of(i) == mid.slot_of(i));
            }
            assert forall|i: nat| i < self.len implies (#[trigger] self.data@[self.slot_of(
                i,
            ) as int]) is Some by {
                if i < len {
                    assert(mid.data@[mid.slot_of(i) as int] is Some);
                }
            }
            assert(self@ =~= mid@.push(value));
        }
        Ok(())
    }

    /// Prepends an element to the queue.
    pub fn push_front(&mut self, value: T) -> (r: Result<(), Error>)
        requires
            old(self).wf(),
        ensures
            final(self).wf(),
            (old(self)@.len() + 1 <= max_slots()) == (r is Ok),
            r is Ok ==> final(self)@ == seq![value] + old(self)@ && final(self).spec_capacity()
                == grown_capacity(old(self).spec_capacity(), old(self)@.len(), 1),
            r is Err ==> final(self)@ == old(self)@ && final(self).spec_capacity() == old(self).spec_capacity(),
            r is Ok ==> final(self).spec_head() == ring_prev(
                reserved_ends(
                old(self).spec_head(),
                old(self).spec_tail(),
                old(self)@.len(),
                old(self).spec_capacity(),
                final(self).spec_capacity(),
                1,
                false,
            ).0,
                final(self).spec_capacity(),
            ) && final(self).spec_tail() == reserved_ends(
                old(self).spec_head(),
                old(self).spec_tail(),
                old(self)@.len(),
                old(self).spec_capacity(),
                final(self).spec_capacity(),
                1,
                false,
            ).1,
            r is Err ==> final(self).spec_head() == old(self).spec_head() && final(self).spec_tail()
                == old(self).spec_tail(),
            r matches Err(e) ==> e == Error::DequeueError(DequeueError::PushFrontOverflow),
    {
        match self.prolong(1, false) {
            Ok(_) => {},
            Err(_) => return Err(Error::DequeueError(DequeueError::PushFrontOverflow)),
        }
        let ghost mid = *self;
        let len = self.len;
        let cap = self.data.len();
        let head = wrap_sub_idx(cap, self.head, 1);
        self.head = head;
        self.data.set(head, Some(value));
        self.len = len + 1;
        proof {
            assert forall|i: nat| i < len implies #[trigger] self.data@[self.slot_of(i + 1) as int]
                == mid.data@[mid.slot_of(i) as int] by {
                assert(self.slot_of(i + 1) == mid.slot_of(i));
            }
            assert forall|i: nat| i < self.len implies (#[trigger] self.data@[self.slot_of(
                i,
            ) as int]) is Some by {
                if i > 0 {
                    let j = (i - 1) as nat;
                    assert(mid.data@[mid.slot_of(j) as int] is Some);
                    assert(self.slot_of(j + 1) == mid.slot_of(j));
                }
            }
            assert forall|i: int| 0 <= i < self.len implies #[trigger] self@[i] == (seq![value]
                + mid@)[i] by {
                if i > 0 {
                    let j = (i - 1) as nat;
                    assert(self.slot_of(j + 1) == mid.slot_of(j));
                }
            }
            assert(self@ =~= seq![value] + mid@);
        }
        Ok(())
    }

    /// Reserves capacity for at least `additional` more elements to be inserted at the back of
    /// the queue. Returns how many places the head moved.
    pub fn reserve_back(&mut self, additional: usize) -> (r: Result<usize, Error>)
        requires
            old(self).wf(),
        ensures
            final(self).wf(),
            final(self)@ == old(self)@,
            (old(self)@.len() + additional <= max_slots()) == (r is Ok),
            r is Ok ==> final(self).spec_capacity() == grown_capacity(
                old(self).spec_capacity(),
                old(self)@.len(),
                additional as nat,
            ),
            r is Ok ==> final(self).spec_capacity() >= final(self)@.len() + additional,
            r is Err ==> final(self).spec_capacity() == old(self).spec_capacity(),
            r is Ok ==> (final(self).spec_head(), final(self).spec_tail()) == reserved_ends(
                old(self).spec_head(),
                old(self).spec_tail(),
                old(self)@.len(),
                old(self).spec_capacity(),
                final(self).spec_capacity(),
                additional as nat,
                true,
            ),
            r is Err ==> final(self).spec_head() == old(self).spec_head() && final(self).spec_tail()
                == old(self).spec_tail(),
            r matches Err(e) ==> e == Error::DequeueError(DequeueError::ReserveOverflow),
            r is Ok ==> r == Ok::<usize, Error>(0),
            r is Ok ==> {
                let b = back_room_begin(
                    final(self).spec_tail(),
                    final(self).spec_capacity(),
                    additional as nat,
                );
                &&& b + additional <= final(self).spec_capacity()
                &&& forall|i: nat|
                    i < final(self)@.len() ==> !(b <= #[trigger] final(self).slot_of(i) < b
                        + additional)
            },
    {
        let rr = self.prolong(additional, true)?;
        proof {
            self.lemma_layout();
        }
        Ok(rr.head_shift)
    }

    /// Reserves capacity for at least `additional` more elements to be inserted at the front
    /// of the queue. Returns how many places the head moved.
    pub fn reserve_front(&mut self, additional: usize) -> (r: Result<usize, Error>)
        requires
            old(self).wf(),
        ensures
            final(self).wf(),
            final(self)@ == old(self)@,
            (old(self)@.len() + additional <= max_slots()) == (r is Ok),
            r is Ok ==> final(self).spec_capacity() == grown_capacity(
                old(self).spec_capacity(),
                old(self)@.len(),
                additional as nat,
            ),
            r is Ok ==> final(self).spec_capacity() >= final(self)@.len() + additional,
            r is Err ==> final(self).spec_capacity() == old(self).spec_capacity(),
            r is Ok ==> (final(self).spec_head(), final(self).spec_tail()) == reserved_ends(
                old(self).spec_head(),
                old(self).spec_tail(),
                old(self)@.len(),
                old(self).spec_capacity(),
                final(self).spec_capacity(),
                additional as nat,
                false,
            ),
            r is Err ==> final(self).spec_head() == old(self).spec_head() && final(self).spec_tail()
                == old(self).spec_tail(),
            r matches Err(e) ==> e == Error::DequeueError(DequeueError::ReserveOverflow),
            r matches Ok(n) ==> n == head_shift_of(
                old(self).spec_head(),
                old(self).spec_tail(),
                old(self)@.len(),
                old(self).spec_capacity(),
                final(self).spec_capacity(),
                additional as nat,
                false,
            ),
            r is Ok ==> {
                let b = front_room_begin(
                    final(self).spec_head(),
                    final(self)@.len(),
                    final(self).spec_capacity(),
                    additional as nat,
                );
                &&& 0 <= b
                &&& b + additional <= final(self).spec_capacity()
                &&& forall|i: nat|
                    i < final(self)@.len() ==> !(b <= #[trigger] final(self).slot_of(i) < b
                        + additional)
            },
    {
        let rr = self.prolong(additional, false)?;
        proof {
            self.lemma_layout();
        }
        Ok(rr.head_shift)
    }

    /// Empties the slots of the logical positions from `from` up to `to`.
    fn clear_positions(&mut self, from: usize, to: usize)
        requires
            old(self).ring_ok(),
            from <= to <= old(self).len,
        ensures
            final(self).data@.len() == old(self).data@.len(),
            final(self).head == old(self).head,
            final(self).tail == old(self).tail,
            final(self).len == old(self).len,
            forall|i: nat|
                i < old(self).len && !(from <= i < to) ==> #[trigger] final(self).data@[
                    final(self).slot_of(i) as int] == old(self).data@[old(self).slot_of(i) as int],
            forall|i: nat|
                from <= i < to ==> (#[trigger] final(self).data@[final(self).slot_of(i) as int]) is None,
            forall|j: int|
                0 <= j < old(self).data@.len() ==> #[trigger] final(self).data@[j]
                    == old(self).data@[j] || final(self).data@[j] is None,
    {
        let cap = self.data.len();
        let mut idx = from;
        while idx < to
            invariant
                from <= idx <= to,
                to <= self.len,
                old(self).ring_ok(),
                self.data@.len() == cap,
                cap == old(self).data@.len(),
                self.head == old(self).head,
                self.tail == old(self).tail,
                self.len == old(self).len,
                forall|i: nat|
                    i < old(self).len && !(from <= i < to) ==> #[trigger] self.data@[self.slot_of(
                        i,
                    ) as int] == old(self).data@[old(self).slot_of(i) as int],
                forall|i: nat|
                    from <= i < idx ==> (#[trigger] self.data@[self.slot_of(i) as int]) is None,
                forall|j: int|
                    0 <= j < cap ==> #[trigger] self.data@[j] == old(self).data@[j]
                        || self.data@[j] is None,
            decreases to - idx,
        {
            let slot = wrap_add_idx(cap, self.head, idx);
            assert(slot == self.slot_of(idx as nat));
            let ghost pre = *self;
            self.data.set(slot, None);
            proof {
                assert forall|i: nat|
                    i < old(self).len && !(from <= i < to) implies #[trigger] self.data@[self.slot_of(
                        i,
                    ) as int] == old(self).data@[old(self).slot_of(i) as int] by {
                    lemma_ring_slot_injective(self.head as nat, i, idx as nat, cap as nat);
                    assert(self.slot_of(i) == pre.slot_of(i));
                    assert(pre.data@[pre.slot_of(i) as int] == old(self).data@[old(self).slot_of(i) as int]);
                }
                assert forall|i: nat| from <= i < idx + 1 implies (#[trigger] self.data@[self.slot_of(
                    i,
                ) as int]) is None by {
                    if i < idx {
                        lemma_ring_slot_injective(self.head as nat, i, idx as nat, cap as nat);
                        assert(pre.data@[pre.slot_of(i) as int] is None);
                    }
                }
                assert forall|j: int| 0 <= j < cap implies #[trigger] self.data@[j] == old(self).data@[j] || self.data@[j] is None by {
                    if j != slot {
                        assert(self.data@[j] == pre.data@[j]);
                    }
                }
            }
            idx = idx + 1;
        }
    }

    /// Clears the queue, removing all values.
    pub fn clear(&mut self)
        requires
            old(self).wf(),
        ensures
            final(self).wf(),
            final(self)@ == Seq::<T>::empty(),
            final(self).spec_capacity() == old(self).spec_capacity(),
            final(self).spec_head() == 0 && final(self).spec_tail() == 0,
    {
        let len = self.len;
        self.clear_positions(0, len);
        self.head = 0;
        self.tail = 0;
        self.len = 0;
        assert(self@ =~= Seq::<T>::empty());
    }

    /// Shortens the queue, keeping the first `new_len` elements.
    pub fn truncate_back(&mut self, new_len: usize)
        requires
            old(self).wf(),
        ensures
            final(self).wf(),
            final(self).spec_capacity() == old(self).spec_capacity(),
            final(self).spec_head() == old(self).spec_head(),
            new_len >= old(self)@.len() ==> final(self)@ == old(self)@ && final(self).spec_tail()
                == old(self).spec_tail(),
            new_len < old(self)@.len() ==> final(self)@ == old(self)@.take(new_len as int),
            new_len < old(self)@.len() ==> final(self).spec_tail() == truncated_tail(
                old(self).spec_head(),
                old(self)@.len(),
                old(self).spec_tail(),
                old(self).spec_capacity(),
                new_len as nat,
            ),
    {
        let len = self.len;
        if new_len >= len {
            return;
        }
        self.clear_positions(new_len, len);
        proof {
            assert forall|i: nat| i < new_len implies (#[trigger] self.data@[self.slot_of(
                i,
            ) as int]) == old(self).data@[old(self).slot_of(i) as int] && self.data@[self.slot_of(
                i,
            ) as int] is Some by {
                assert(old(self).data@[old(self).slot_of(i) as int] is Some);
            }
        }
        self.drop_back_slots(new_len);
        proof {
            assert(self@ =~= old(self)@.take(new_len as int));
        }
    }

    /// Ends the queue after its first `new_len` elements, whose slots hold them; the slots
    /// after them are left as they are.
    fn drop_back_slots(&mut self, new_len: usize)
        requires
            old(self).ring_ok(),
            new_len < old(self).len,
            forall|i: nat| i < new_len ==> (#[trigger] old(self).data@[old(self).slot_of(i) as int]) is Some,
        ensures
            final(self).wf(),
            final(self).data@ == old(self).data@,
            final(self).head == old(self).head,
            final(self).len == new_len,
            final(self)@ == Seq::new(
                new_len as nat,
                |i: int| old(self).data@[old(self).slot_of(i as nat) as int]->0,
            ),
            final(self).tail as nat == truncated_tail(
                old(self).head as nat,
                old(self).len as nat,
                old(self).tail as nat,
                old(self).data@.len(),
                new_len as nat,
            ),
    {
        let len = self.len;
        let diff = len - new_len;
        let cap = self.data.len();
        if is_wrapping(self.head, len, self.tail) {
            if self.tail >= diff {
                let back_begin = self.tail - diff;
                self.tail = if self.tail == diff {
                    0
                } else {
                    back_begin
                };
            } else {
                let front_len = diff - self.tail;
                let front_begin = cap - front_len;
                self.tail = front_begin;
            }
        } else {
            self.tail = self.tail - diff;
        }
        self.len = new_len;
        proof {
            assert forall|i: nat| i < self.len implies (#[trigger] self.data@[self.slot_of(
                i,
            ) as int]) is Some by {
                assert(self.slot_of(i) == old(self).slot_of(i));
            }
            assert(self@ =~= Seq::new(
                new_len as nat,
                |i: int| old(self).data@[old(self).slot_of(i as nat) as int]->0,
            ));
        }
    }

    /// Shortens the queue, keeping the last `new_len` elements.
    pub fn truncate_front(&mut self, new_len: usize)
        requires
            old(self).wf(),
        ensures
            final(self).wf(),
            final(self).spec_capacity() == old(self).spec_capacity(),
            final(self).spec_tail() == old(self).spec_tail(),
            new_len >= old(self)@.len() ==> final(self)@ == old(self)@ && final(self).spec_head()
                == old(self).spec_head(),
            new_len < old(self)@.len() ==> final(self)@ == old(self)@.skip(
                old(self)@.len() - new_len,
            ),
            new_len < old(self)@.len() ==> final(self).spec_head() == truncated_head(
                old(self).spec_head(),
                old(self)@.len(),
                old(self).spec_tail(),
                old(self).spec_capacity(),
                new_len as nat,
            ),
    {
        let len = self.len;
        if new_len >= len {
            return;
        }
        let diff = len - new_len;
        self.clear_positions(0, diff);
        proof {
            assert forall|i: nat| diff <= i < len implies (#[trigger] self.data@[self.slot_of(
                i,
            ) as int]) == old(self).data@[old(self).slot_of(i) as int] && self.data@[self.slot_of(
                i,
            ) as int] is Some by {
                assert(old(self).data@[old(self).slot_of(i) as int] is Some);
            }
        }
        self.drop_front_slots(new_len);
        proof {
            assert(self@ =~= old(self)@.skip(diff as int));
        }
    }

    /// Starts the queue at its last `new_len` elements, whose slots hold them; the slots
    /// before them are left as they are.
    fn drop_front_slots(&mut self, new_len: usize)
        requires
            old(self).ring_ok(),
            new_len < old(self).len,
            forall|i: nat|
                old(self).len - new_len <= i < old(self).len ==> (#[trigger] old(self).data@[old(self).slot_of(i) as int]) is Some,
        ensures
            final(self).wf(),
            final(self).data@ == old(self).data@,
            final(self).head as nat == truncated_head(
                old(self).head as nat,
                old(self).len as nat,
                old(self).tail as nat,
                old(self).data@.len(),
                new_len as nat,
            ),
            final(self).tail == old(self).tail,
            final(self).len == new_len,
            final(self)@ == Seq::new(
                new_len as nat,
                |i: int|
                    old(self).data@[old(self).slot_of(
                        (i + old(self).len - new_len) as nat,
                    ) as int]->0,
            ),
    {
        let len = self.len;
        let diff = len - new_len;
        let cap = self.data.len();
        let ghost mid = *self;
        if is_wrapping(self.head, len, self.tail) {
            let front_slots = cap - self.head;
            if front_slots >= diff {
                self.head = if front_slots == diff {
                    0
                } else {
                    self.head + diff
                };
            } else {
                let back_len = diff - front_slots;
                self.head = back_len;
            }
        } else {
            self.head = self.head + diff;
        }
        self.len = new_len;
        proof {
            assert forall|i: nat| i < self.len implies (#[trigger] self.data@[self.slot_of(
                i,
            ) as int]) is Some && self.slot_of(i) == mid.slot_of((i + diff) as nat) by {
                assert(old(self).data@[old(self).slot_of((i + diff) as nat) as int] is Some);
            }
            assert(self@ =~= Seq::new(
                new_len as nat,
                |i: int|
                    old(self).data@[old(self).slot_of(
                        (i + old(self).len - new_len) as nat,
                    ) as int]->0,
            ));
        }
    }

    /// See [`Self::truncate_back`]. Transfers the removed elements to `buffer` instead of
    /// dropping them, one at a time, in the order of their slots: where the elements wrap
    /// around the end of the buffer and the removed ones lie on both sides of it, those at its
    /// start go first. The queue is shortened whether or not every transfer succeeds; the
    /// elements after a failed transfer are dropped.
    pub fn truncate_back_to_buffer<B: TryExtend<[T; 1]>>(
        &mut self,
        buffer: &mut B,
        new_len: usize,
    ) -> (r: Result<(), Error>)
        requires
            old(self).wf(),
            (*old(buffer)).try_extend_inv(),
        ensures
            final(self).wf(),
            final(self).spec_capacity() == old(self).spec_capacity(),
            final(self).spec_head() == old(self).spec_head(),
            (*final(buffer)).try_extend_inv(),
            new_len >= old(self)@.len() ==> final(self)@ == old(self)@ && final(self).spec_tail()
                == old(self).spec_tail() && *final(buffer) == *old(buffer) && r is Ok,
            new_len < old(self)@.len() ==> final(self)@ == old(self)@.take(new_len as int)
                && extended_one_by_one(
                *old(buffer),
                back_removal_order(
                    old(self)@,
                    new_len as nat,
                    old(self).spec_tail(),
                    old(self).spec_wrapping(),
                ),
                *final(buffer),
                r,
            ),
            new_len < old(self)@.len() ==> final(self).spec_tail() == truncated_tail(
                old(self).spec_head(),
                old(self)@.len(),
                old(self).spec_tail(),
                old(self).spec_capacity(),
                new_len as nat,
            ),
    {
        let len = self.len;
        if new_len >= len {
            return Ok(());
        }
        let diff = len - new_len;
        let ghost orig = *self;
        let ghost b0 = *buffer;
        let r = if is_wrapping(self.head, len, self.tail) && self.tail < diff {
            let split = len - self.tail;
            let first = self.transfer_positions(buffer, split, len);
            let ghost b1 = *buffer;
            let ghost mid = *self;
            proof {
                assert(Seq::new(
                    (len - split) as nat,
                    |j: int| orig.data@[orig.slot_of((split + j) as nat) as int]->0,
                ) =~= orig@.subrange(split as int, len as int));
            }
            match first {
                Ok(()) => {
                    proof {
                        assert(first->Ok_0 == ());
                        assert(first == Ok::<(), Error>(()));
                        assert forall|i: nat| new_len <= i < split implies (#[trigger] mid.data@[mid.slot_of(
                            i,
                        ) as int]) is Some by {
                            assert(orig.data@[orig.slot_of(i) as int] is Some);
                        }
                    }
                    let second = self.transfer_positions(buffer, new_len, split);
                    proof {
                        assert(Seq::new(
                            (split - new_len) as nat,
                            |j: int| mid.data@[mid.slot_of((new_len + j) as nat) as int]->0,
                        ) =~= orig@.subrange(new_len as int, split as int));
                        lemma_extended_one_by_one_append(
                            b0,
                            orig@.subrange(split as int, len as int),
                            b1,
                            orig@.subrange(new_len as int, split as int),
                            *buffer,
                            second,
                        );
                    }
                    second
                },
                Err(e) => {
                    proof {
                        lemma_extended_one_by_one_failed(
                            b0,
                            orig@.subrange(split as int, len as int),
                            b1,
                            orig@.subrange(new_len as int, split as int),
                            Err(e),
                        );
                    }
                    Err(e)
                },
            }
        } else {
            let only = self.transfer_positions(buffer, new_len, len);
            proof {
                assert(Seq::new(
                    (len - new_len) as nat,
                    |j: int| orig.data@[orig.slot_of((new_len + j) as nat) as int]->0,
                ) =~= orig@.subrange(new_len as int, len as int));
            }
            only
        };
        self.clear_positions(new_len, len);
        proof {
            assert forall|i: nat| i < new_len implies (#[trigger] self.data@[self.slot_of(
                i,
            ) as int]) is Some && self.data@[self.slot_of(i) as int] == orig.data@[orig.slot_of(i) as int] by {
                assert(orig.data@[orig.slot_of(i) as int] is Some);
            }
        }
        self.drop_back_slots(new_len);
        proof {
            assert(self@ =~= orig@.take(new_len as int));
        }
        r
    }

    /// See [`Self::truncate_front`]. Transfers the removed elements to `buffer` instead of
    /// dropping them, one at a time, front to back. The queue is shortened whether or not
    /// every transfer succeeds; the elements after a failed transfer are dropped.
    pub fn truncate_front_to_buffer<B: TryExtend<[T; 1]>>(
        &mut self,
        buffer: &mut B,
        new_len: usize,
    ) -> (r: Result<(), Error>)
        requires
            old(self).wf(),
            (*old(buffer)).try_extend_inv(),
        ensures
            final(self).wf(),
            final(self).spec_capacity() == old(self).spec_capacity(),
            final(self).spec_tail() == old(self).spec_tail(),
            (*final(buffer)).try_extend_inv(),
            new_len >= old(self)@.len() ==> final(self)@ == old(self)@ && final(self).spec_head()
                == old(self).spec_head() && *final(buffer) == *old(buffer) && r is Ok,
            new_len < old(self)@.len() ==> final(self)@ == old(self)@.skip(
                old(self)@.len() - new_len,
            ) && extended_one_by_one(
                *old(buffer),
                old(self)@.take(old(self)@.len() - new_len),
                *final(buffer),
                r,
            ),
            new_len < old(self)@.len() ==> final(self).spec_head() == truncated_head(
                old(self).spec_head(),
                old(self)@.len(),
                old(self).spec_tail(),
                old(self).spec_capacity(),
                new_len as nat,
            ),
    {
        let len = self.len;
        if new_len >= len {
            return Ok(());
        }
        let diff = len - new_len;
        let ghost orig = *self;
        let r = self.transfer_positions(buffer, 0, diff);
        self.clear_positions(0, diff);
        proof {
            assert(Seq::new(
                diff as nat,
                |j: int| orig.data@[orig.slot_of((0 + j) as nat) as int]->0,
            ) =~= orig@.take(diff as int));
            assert forall|i: nat| diff <= i < len implies (#[trigger] self.data@[self.slot_of(
                i,
            ) as int]) is Some && self.data@[self.slot_of(i) as int] == orig.data@[orig.slot_of(i) as int] by {
                assert(orig.data@[orig.slot_of(i) as int] is Some);
            }
        }
        self.drop_front_slots(new_len);
        proof {
            assert(self@ =~= orig@.skip(diff as int));
        }
        r
    }

    /// Moves the elements at the logical positions from `from` up to `to` out of their slots and
    /// into `buffer`, in that order, one at a time, until all moved or one extension failed.
    fn transfer_positions<B: TryExtend<[T; 1]>>(
        &mut self,
        buffer: &mut B,
        from: usize,
        to: usize,
    ) -> (r: Result<(), Error>)
        requires
            old(self).ring_ok(),
            from <= to <= old(self).len,
            forall|i: nat|
                from <= i < to ==> (#[trigger] old(self).data@[old(self).slot_of(i) as int]) is Some,
            (*old(buffer)).try_extend_inv(),
        ensures
            final(self).ring_ok(),
            final(self).data@.len() == old(self).data@.len(),
            final(self).head == old(self).head,
            final(self).tail == old(self).tail,
            final(self).len == old(self).len,
            forall|i: nat|
                i < old(self).len && !(from <= i < to) ==> #[trigger] final(self).data@[(*final(self)).slot_of(i) as int] == old(self).data@[old(self).slot_of(i) as int],
            (*final(buffer)).try_extend_inv(),
            extended_one_by_one(
                *old(buffer),
                Seq::new(
                    (to - from) as nat,
                    |j: int| old(self).data@[old(self).slot_of((from + j) as nat) as int]->0,
                ),
                *final(buffer),
                r,
            ),
    {
        let cap = self.data.len();
        let ghost elems = Seq::new(
            (to - from) as nat,
            |j: int| old(self).data@[old(self).slot_of((from + j) as nat) as int]->0,
        );
        let ghost mut states: Seq<B> = seq![*buffer];
        let mut idx = from;
        while idx < to
            invariant
                from <= idx <= to,
                to <= self.len,
                old(self).ring_ok(),
                self.data@.len() == cap,
                cap == old(self).data@.len(),
                self.head == old(self).head,
                self.tail == old(self).tail,
                self.len == old(self).len,
                forall|i: nat|
                    from <= i < to ==> (#[trigger] old(self).data@[old(self).slot_of(i) as int]) is Some,
                forall|i: nat|
                    i < old(self).len && !(from <= i < idx) ==> #[trigger] self.data@[self.slot_of(
                        i,
                    ) as int] == old(self).data@[old(self).slot_of(i) as int],
                (*buffer).try_extend_inv(),
                elems == Seq::new(
                    (to - from) as nat,
                    |j: int| old(self).data@[old(self).slot_of((from + j) as nat) as int]->0,
                ),
                states.len() == idx - from + 1,
                states[0] == *old(buffer),
                states.last() == *buffer,
                forall|i: int| 0 <= i < idx - from ==> #[trigger] extension_step(states, elems, i),
            decreases to - idx,
        {
            let slot = wrap_add_idx(cap, self.head, idx);
            assert(slot == self.slot_of(idx as nat));
            let ghost pre = *self;
            let value = match self.data[slot].take() {
                Some(elem) => elem,
                None => {
                    proof {
                        assert(old(self).data@[old(self).slot_of(idx as nat) as int] is Some);
                        assert(false);
                    }
                    return Ok(());
                },
            };
            proof {
                assert(value == elems[idx - from]);
                assert forall|i: nat|
                    i < old(self).len && !(from <= i < idx + 1) implies #[trigger] self.data@[self.slot_of(
                        i,
                    ) as int] == old(self).data@[old(self).slot_of(i) as int] by {
                    lemma_ring_slot_injective(self.head as nat, i, idx as nat, cap as nat);
                    assert(self.slot_of(i) == pre.slot_of(i));
                }
            }
            let set = [value];
            assert(set@[0] == value);
            let ghost before = *buffer;
            let ghost sent = set;
            let rslt = buffer.try_extend(set);
            assert(B::extended(before, sent, *buffer, rslt));
            match rslt {
                Ok(()) => {
                    proof {
                        assert(sent@[0] == elems[idx - from]);
                        assert(rslt->Ok_0 == ());
                        assert(rslt == Ok::<(), Error>(()));
                        assert(B::extended(before, sent, *buffer, Ok(())));
                        assert(extended_with(before, elems[idx - from], *buffer, Ok(())));
                        let prev_states = states;
                        states = states.push(*buffer);
                        assert forall|i: int| 0 <= i < idx + 1 - from implies #[trigger] extension_step(
                            states,
                            elems,
                            i,
                        ) by {
                            if i < idx - from {
                                assert(extension_step(prev_states, elems, i));
                            }
                        }
                    }
                },
                Err(e) => {
                    proof {
                        assert(sent@[0] == elems[idx - from]);
                        assert(B::extended(before, sent, *buffer, Err(e)));
                        assert(extended_with(before, elems[idx - from], *buffer, Err(e)));
                        assert(extension_run(states, *old(buffer), elems, *buffer, Err(e)));
                    }
                    return Err(e);
                },
            }
            idx = idx + 1;
        }
        proof {
            assert(extension_run(states, *old(buffer), elems, *buffer, Ok(())));
        }
        Ok(())
    }

    /// References to the elements, front to back.
    pub fn iter(&self) -> (r: Vec<&T>)
        requires
            self.wf(),
        ensures
            r@.len() == self@.len(),
            forall|i: int| 0 <= i < self@.len() ==> *r@[i] == self@[i],
    {
        let mut r: Vec<&T> = Vec::new();
        let mut idx: usize = 0;
        while idx < self.len
            invariant
                self.wf(),
                idx <= self.len,
                r@.len() == idx,
                forall|i: int| 0 <= i < idx ==> *r@[i] == self@[i],
            decreases self.len - idx,
        {
            match self.get(idx) {
                Some(elem) => r.push(elem),
                None => {},
            }
            idx = idx + 1;
        }
        r
    }

    /// Appends all elements of `elems`, in order.
    pub fn extend_back_from_iter(&mut self, elems: Vec<T>) -> (r: Result<(), Error>)
        requires
            old(self).wf(),
        ensures
            final(self).wf(),
            (old(self)@.len() + elems@.len() <= max_slots()) == (r is Ok),
            r is Ok ==> final(self)@ == old(self)@ + elems@,
            r is Err ==> final(self)@ == old(self)@,
            r matches Err(e) ==> e == Error::DequeueError(DequeueError::ReserveOverflow),
    {
        let n = elems.len();
        let _ = self.reserve_back(n)?;
        let mut reversed: Vec<T> = Vec::new();
        let mut rest = elems;
        while rest.len() > 0
            invariant
                rest@ + reversed@.reverse() == elems@,
            decreases rest@.len(),
        {
            let ghost before = rest@;
            let ghost rev_before = reversed@;
            match rest.pop() {
                Some(elem) => {
                    reversed.push(elem);
                    assert(reversed@.reverse() =~= seq![elem] + rev_before.reverse());
                    assert(rest@ + reversed@.reverse() =~= before + rev_before.reverse());
                },
                None => {},
            }
        }
        assert(rest@ =~= Seq::<T>::empty());
        let ghost base = self@;
        while reversed.len() > 0
            invariant
                self.wf(),
                old(self)@.len() + elems@.len() <= max_slots(),
                self@.len() + reversed@.len() == old(self)@.len() + elems@.len(),
                self@ + reversed@.reverse() == old(self)@ + elems@,
            decreases reversed@.len(),
        {
            let ghost rev_before = reversed@;
            let ghost self_before = self@;
            match reversed.pop() {
                Some(elem) => {
                    assert(rev_before.reverse() =~= seq![elem] + reversed@.reverse());
                    let pushed = self.push_back(elem);
                    if pushed.is_err() {
                        assert(false);
                        return Err(Error::DequeueError(DequeueError::ReserveOverflow));
                    }
                    assert(self@ + reversed@.reverse() =~= self_before + rev_before.reverse());
                },
                None => {},
            }
        }
        assert(self@ =~= old(self)@ + elems@);
        Ok(())
    }

    /// Prepends all elements of `elems`, one after the other: the last one ends up in front.
    pub fn extend_front_from_iter(&mut self, elems: Vec<T>) -> (r: Result<(), Error>)
        requires
            old(self).wf(),
        ensures
            final(self).wf(),
            (old(self)@.len() + elems@.len() <= max_slots()) == (r is Ok),
            r is Ok ==> final(self)@ == elems@.reverse() + old(self)@,
            r is Err ==> final(self)@ == old(self)@,
            r matches Err(e) ==> e == Error::DequeueError(DequeueError::ReserveOverflow),
    {
        let n = elems.len();
        let _ = self.reserve_front(n)?;
        let mut reversed: Vec<T> = Vec::new();
        let mut rest = elems;
        while rest.len() > 0
            invariant
                rest@ + reversed@.reverse() == elems@,
            decreases rest@.len(),
        {
            let ghost before = rest@;
            let ghost rev_before = reversed@;
            match rest.pop() {
                Some(elem) => {
                    reversed.push(elem);
                    assert(reversed@.reverse() =~= seq![elem] + rev_before.reverse());
                    assert(rest@ + reversed@.reverse() =~= before + rev_before.reverse());
                },
                None => {},
            }
        }
        assert(rest@ =~= Seq::<T>::empty());
        while reversed.len() > 0
            invariant
                self.wf(),
                old(self)@.len() + elems@.len() <= max_slots(),
                self@.len() + reversed@.len() == old(self)@.len() + elems@.len(),
                reversed@ + self@ == elems@.reverse() + old(self)@,
            decreases reversed@.len(),
        {
            let ghost rev_before = reversed@;
            let ghost self_before = self@;
            match reversed.pop() {
                Some(elem) => {
                    let pushed = self.push_front(elem);
                    if pushed.is_err() {
                        assert(false);
                        return Err(Error::DequeueError(DequeueError::ReserveOverflow));
                    }
                    assert(reversed@ + self@ =~= rev_before + self_before);
                },
                None => {},
            }
        }
        assert(self@ =~= elems@.reverse() + old(self)@);
        Ok(())
    }

    /// Removes the last element from the queue and returns it, or `None` if it is empty.
    pub fn pop_back(&mut self) -> (r: Option<T>)
        requires
            old(self).wf(),
        ensures
            final(self).wf(),
            final(self).spec_capacity() == old(self).spec_capacity(),
            old(self)@.len() == 0 ==> r is None && final(self)@ == old(self)@,
            old(self)@.len() > 0 ==> r == Some(old(self)@.last()) && final(self)@ == old(self)@.drop_last(),
            old(self)@.len() == 0 ==> final(self).spec_head() == old(self).spec_head() && final(self).spec_tail()
                == old(self).spec_tail(),
            old(self)@.len() > 0 ==> final(self).spec_head() == old(self).spec_head()
                && final(self).spec_tail() == ring_prev(old(self).spec_tail(), old(self).spec_capacity()),
    {
        if self.len == 0 {
            return None;
        }
        let cap = self.data.len();
        let curr_tail = wrap_sub_idx(cap, self.tail, 1);
        assert(curr_tail == self.slot_of((self.len - 1) as nat));
        self.tail = curr_tail;
        self.len = self.len - 1;
        let r = self.data[curr_tail].take();
        proof {
            assert forall|i: nat| i < self.len implies (#[trigger] self.data@[self.slot_of(
                i,
            ) as int]) is Some && self.data@[self.slot_of(i) as int] == old(self).data@[old(self).slot_of(i) as int] by {
                assert(old(self).data@[old(self).slot_of(i) as int] is Some);
            }
            assert(self@ =~= old(self)@.drop_last());
        }
        r
    }

    /// Removes the first element and returns it, or `None` if the queue is empty.
    pub fn pop_front(&mut self) -> (r: Option<T>)
        requires
            old(self).wf(),
        ensures
            final(self).wf(),
            final(self).spec_capacity() == old(self).spec_capacity(),
            old(self)@.len() == 0 ==> r is None && final(self)@ == old(self)@,
            old(self)@.len() > 0 ==> r == Some(old(self)@[0]) && final(self)@ == old(self)@.drop_first(),
            old(self)@.len() == 0 ==> final(self).spec_head() == old(self).spec_head() && final(self).spec_tail()
                == old(self).spec_tail(),
            old(self)@.len() > 0 ==> final(self).spec_head() == ring_next(
                old(self).spec_head(),
                old(self).spec_capacity(),
            ) && final(self).spec_tail() == old(self).spec_tail(),
    {
        if self.len == 0 {
            return None;
        }
        let cap = self.data.len();
        let prev_head = self.head;
        self.head = wrap_add_idx(cap, prev_head, 1);
        self.len = self.len - 1;
        let r = self.data[prev_head].take();
        proof {
            assert forall|i: nat| i < self.len implies (#[trigger] self.data@[self.slot_of(
                i,
            ) as int]) is Some && self.data@[self.slot_of(i) as int] == old(self).data@[old(self).slot_of(i + 1) as int] by {
                assert(old(self).data@[old(self).slot_of(i + 1) as int] is Some);
            }
            assert(self@ =~= old(self)@.drop_first());
        }
        r
    }
}


impl<T: Copy> Deque<T> {
    /// Writes the elements of `others` into the slots from `begin` onwards.
    fn write_slices(&mut self, begin: usize, others: &[&[T]], total: usize)
        requires
            total == concat(slices_view(others@)).len(),
            begin + total <= old(self).data@.len(),
            old(self).data@.len() <= max_slots(),
        ensures
            final(self).data@.len() == old(self).data@.len(),
            final(self).head == old(self).head,
            final(self).tail == old(self).tail,
            final(self).len == old(self).len,
            forall|j: int| 0 <= j < total ==> #[trigger] final(self).data@[begin + j] == Some(
                concat(slices_view(others@))[j],
            ),
            forall|p: int|
                0 <= p < old(self).data@.len() && !(begin <= p < begin + total)
                    ==> #[trigger] final(self).data@[p] == old(self).data@[p],
    {
        let ghost ss = slices_view(others@);
        let mut shift = begin;
        let mut k: usize = 0;
        while k < others.len()
            invariant
                k <= others@.len(),
                ss == slices_view(others@),
                total == concat(ss).len(),
                begin + total <= old(self).data@.len(),
                old(self).data@.len() <= max_slots(),
                shift == begin + concat(ss.take(k as int)).len(),
                shift <= begin + total,
                self.data@.len() == old(self).data@.len(),
                self.head == old(self).head,
                self.tail == old(self).tail,
                self.len == old(self).len,
                forall|j: int|
                    0 <= j < shift - begin ==> #[trigger] self.data@[begin + j] == Some(
                        concat(ss.take(k as int))[j],
                    ),
                forall|p: int|
                    0 <= p < old(self).data@.len() && !(begin <= p < begin + total)
                        ==> #[trigger] self.data@[p] == old(self).data@[p],
            decreases others@.len() - k,
        {
            let other = others[k];
            proof {
                lemma_concat_push(ss, k as int);
                crate::collection::slices::lemma_concat_prefix_len(ss, (k + 1) as int);
            }
            let mut j: usize = 0;
            while j < other.len()
                invariant
                    j <= other@.len(),
                    other@ == ss[k as int],
                    k < others@.len(),
                    ss == slices_view(others@),
                    total == concat(ss).len(),
                    begin + total <= old(self).data@.len(),
                    old(self).data@.len() <= max_slots(),
                    concat(ss.take(k as int + 1)) == concat(ss.take(k as int)) + ss[k as int],
                    concat(ss.take(k as int + 1)).len() <= total,
                    shift == begin + concat(ss.take(k as int)).len() + j,
                    self.data@.len() == old(self).data@.len(),
                    self.head == old(self).head,
                    self.tail == old(self).tail,
                    self.len == old(self).len,
                    forall|i: int|
                        0 <= i < shift - begin ==> #[trigger] self.data@[begin + i] == Some(
                            concat(ss.take(k as int + 1))[i],
                        ),
                    forall|p: int|
                        0 <= p < old(self).data@.len() && !(begin <= p < begin + total)
                            ==> #[trigger] self.data@[p] == old(self).data@[p],
                decreases other@.len() - j,
            {
                self.data.set(shift, Some(other[j]));
                shift = shift + 1;
                j = j + 1;
            }
            k = k + 1;
        }
        assert(ss.take(k as int) =~= ss);
    }

    /// The number of elements in the first slice returned by [`Self::as_slices`].
    pub open spec fn spec_front_len(&self) -> nat {
        if self.spec_wrapping() {
            (self.spec_capacity() - self.spec_head()) as nat
        } else {
            self@.len()
        }
    }

    /// Returns a pair of sequences which contain, in order, the contents of the queue: the
    /// elements from the head up to the physical end of the buffer, then those that wrap
    /// around to its beginning.
    pub fn as_slices(&self) -> (r: (Vec<T>, Vec<T>))
        requires
            self.wf(),
        ensures
            r.0@ + r.1@ == self@,
            r.0@.len() == self.spec_front_len(),
    {
        let cap = self.data.len();
        let front_len = if is_wrapping(self.head, self.len, self.tail) {
            cap - self.head
        } else {
            self.len
        };
        let mut front: Vec<T> = Vec::new();
        let mut back: Vec<T> = Vec::new();
        let mut idx: usize = 0;
        while idx < self.len
            invariant
                self.wf(),
                front_len <= self.len,
                idx <= self.len,
                idx <= front_len ==> front@ == self@.take(idx as int) && back@.len() == 0,
                idx > front_len ==> front@ == self@.take(front_len as int) && back@
                    == self@.subrange(front_len as int, idx as int),
            decreases self.len - idx,
        {
            let elem = match self.get(idx) {
                Some(elem) => *elem,
                None => {
                    assert(false);
                    return (front, back);
                },
            };
            if idx < front_len {
                front.push(elem);
                assert(front@ =~= self@.take(idx + 1));
            } else {
                back.push(elem);
                assert(back@ =~= self@.subrange(front_len as int, idx + 1));
            }
            idx = idx + 1;
        }
        assert(front@ + back@ =~= self@);
        (front, back)
    }

    /// Copies the elements of `range`, which must lie within one of the slices of
    /// [`Self::as_slices`], and prepends them to the queue. Returns how many were copied.
    pub fn extend_front_from_copyable_within(&mut self, range: core::ops::Range<usize>) -> (r:
        Result<usize, Error>)
        requires
            old(self).wf(),
        ensures
            final(self).wf(),
            !spec_range_within_one_slice(old(self), range.start as nat, range.end as nat) ==> r
                == Err::<usize, Error>(Error::DequeueError(DequeueError::OutOfBoundsRange))
                && final(self)@ == old(self)@,
            spec_range_within_one_slice(old(self), range.start as nat, range.end as nat) ==> {
                &&& (old(self)@.len() + (range.end - range.start) <= max_slots()) == (r is Ok)
                &&& r is Ok ==> r == Ok::<usize, Error>((range.end - range.start) as usize)
                    && final(self)@ == old(self)@.subrange(range.start as int, range.end as int)
                    + old(self)@
                &&& r is Err ==> final(self)@ == old(self)@
                &&& r is Ok ==> {
                    let n = (range.end - range.start) as nat;
                    let ends = reserved_ends(
                        old(self).spec_head(),
                        old(self).spec_tail(),
                        old(self)@.len(),
                        old(self).spec_capacity(),
                        final(self).spec_capacity(),
                        n,
                        false,
                    );
                    &&& final(self).spec_tail() == ends.1
                    &&& final(self).spec_head() == front_room_begin(
                        ends.0,
                        old(self)@.len(),
                        final(self).spec_capacity(),
                        n,
                    )
                }
            },
    {
        let start = range.start;
        let end = range.end;
        let cap = self.data.len();
        let len = self.len;
        let front_len = if is_wrapping(self.head, len, self.tail) {
            cap - self.head
        } else {
            len
        };
        if !(start <= end && (end <= front_len || (front_len <= start && end <= len))) {
            return Err(Error::DequeueError(DequeueError::OutOfBoundsRange));
        }
        let mut copied: Vec<T> = Vec::new();
        let mut idx = start;
        while idx < end
            invariant
                self.wf(),
                start <= idx <= end,
                end <= self@.len(),
                copied@ == self@.subrange(start as int, idx as int),
            decreases end - idx,
        {
            match self.get(idx) {
                Some(elem) => copied.push(*elem),
                None => {},
            }
            assert(copied@ =~= self@.subrange(start as int, idx + 1));
            idx = idx + 1;
        }
        let mut others: Vec<&[T]> = Vec::new();
        others.push(copied.as_slice());
        proof {
            let ss = slices_view(others@);
            assert(ss =~= seq![copied@]);
            assert(ss.drop_last() =~= Seq::<Seq<T>>::empty());
            assert(concat(ss.drop_last()) =~= Seq::<T>::empty());
            assert(concat(ss) == concat(ss.drop_last()) + ss.last());
            assert(concat(ss) =~= copied@);
        }
        self.extend_front_from_copyable_slices(others.as_slice())
    }

    /// Iterates over the `others` slices, copies each element, and then appends them to this
    /// instance. `others` are traversed in-order. Returns the number of elements appended.
    pub fn extend_back_from_copyable_slices(&mut self, others: &[&[T]]) -> (r: Result<usize, Error>)
        requires
            old(self).wf(),
        ensures
            final(self).wf(),
            (old(self)@.len() + concat(slices_view(others@)).len() <= max_slots()) == (r is Ok),
            r matches Ok(n) ==> n == concat(slices_view(others@)).len() && final(self)@ == old(self)@ + concat(slices_view(others@)),
            r is Ok ==> {
                let n = concat(slices_view(others@)).len();
                let ends = reserved_ends(
                    old(self).spec_head(),
                    old(self).spec_tail(),
                    old(self)@.len(),
                    old(self).spec_capacity(),
                    final(self).spec_capacity(),
                    n,
                    true,
                );
                &&& final(self).spec_capacity() == grown_capacity(
                    old(self).spec_capacity(),
                    old(self)@.len(),
                    n,
                )
                &&& final(self).spec_head() == ends.0
                &&& final(self).spec_tail() == back_room_begin(ends.1, final(self).spec_capacity(), n)
                    + n
            },
            r is Err ==> final(self)@ == old(self)@ && final(self).spec_capacity() == old(
                self,
            ).spec_capacity() && final(self).spec_head() == old(self).spec_head()
                && final(self).spec_tail() == old(self).spec_tail(),
            r matches Err(e) ==> e == Error::DequeueError(DequeueError::ReserveOverflow) || e
                == Error::DequeueError(DequeueError::ExtendFromSliceOverflow),
    {
        let others_len = match total_len(others) {
            Some(n) => n,
            None => return Err(Error::DequeueError(DequeueError::ExtendFromSliceOverflow)),
        };
        let rr = self.prolong(others_len, true)?;
        let ghost mid = *self;
        let ghost flat = concat(slices_view(others@));
        self.write_slices(rr.begin, others, others_len);
        let len = self.len;
        self.len = len + others_len;
        self.tail = rr.begin + others_len;
        proof {
            assert forall|i: nat| i < len implies #[trigger] self.data@[self.slot_of(i) as int]
                == mid.data@[mid.slot_of(i) as int] by {
                assert(self.slot_of(i) == mid.slot_of(i));
            }
            assert forall|i: nat| len <= i < self.len implies #[trigger] self.data@[self.slot_of(
                i,
            ) as int] == Some(flat[i - len]) by {
                assert(self.data@[rr.begin + (i - len)] == Some(flat[i - len]));
            }
            assert forall|i: nat| i < self.len implies (#[trigger] self.data@[self.slot_of(
                i,
            ) as int]) is Some by {
                if i < len {
                    assert(mid.data@[mid.slot_of(i) as int] is Some);
                } else {
                    assert(self.data@[self.slot_of(i) as int] == Some(flat[i - len]));
                }
            }
            assert forall|i: int| 0 <= i < self.len implies #[trigger] self@[i] == (mid@ + flat)[i] by {
                if i < len {
                    assert(self.data@[self.slot_of(i as nat) as int] == mid.data@[mid.slot_of(
                        i as nat,
                    ) as int]);
                } else {
                    assert(self.data@[self.slot_of(i as nat) as int] == Some(flat[i - len]));
                }
            }
            assert(self@ =~= mid@ + flat);
        }
        Ok(others_len)
    }

    /// Iterates over the `others` slices, copies each element, and then prepends them to this
    /// instance. `others` are traversed in-order. Returns the number of elements prepended.
    pub fn extend_front_from_copyable_slices(&mut self, others: &[&[T]]) -> (r: Result<usize, Error>)
        requires
            old(self).wf(),
        ensures
            final(self).wf(),
            (old(self)@.len() + concat(slices_view(others@)).len() <= max_slots()) == (r is Ok),
            r matches Ok(n) ==> n == concat(slices_view(others@)).len() && final(self)@ == concat(
                slices_view(others@),
            ) + old(self)@,
            r is Ok ==> {
                let n = concat(slices_view(others@)).len();
                let ends = reserved_ends(
                    old(self).spec_head(),
                    old(self).spec_tail(),
                    old(self)@.len(),
                    old(self).spec_capacity(),
                    final(self).spec_capacity(),
                    n,
                    false,
                );
                &&& final(self).spec_capacity() == grown_capacity(
                    old(self).spec_capacity(),
                    old(self)@.len(),
                    n,
                )
                &&& final(self).spec_tail() == ends.1
                &&& final(self).spec_head() == front_room_begin(
                    ends.0,
                    old(self)@.len(),
                    final(self).spec_capacity(),
                    n,
                )
            },
            r is Err ==> final(self)@ == old(self)@ && final(self).spec_capacity() == old(
                self,
            ).spec_capacity() && final(self).spec_head() == old(self).spec_head()
                && final(self).spec_tail() == old(self).spec_tail(),
            r matches Err(e) ==> e == Error::DequeueError(DequeueError::ReserveOverflow) || e
                == Error::DequeueError(DequeueError::ExtendFromSliceOverflow),
    {
        let others_len = match total_len(others) {
            Some(n) => n,
            None => return Err(Error::DequeueError(DequeueError::ExtendFromSliceOverflow)),
        };
        let rr = self.prolong(others_len, false)?;
        let ghost mid = *self;
        let ghost flat = concat(slices_view(others@));
        self.write_slices(rr.begin, others, others_len);
        let len = self.len;
        self.len = len + others_len;
        self.head = rr.begin;
        proof {
            let n = others_len as nat;
            assert forall|i: nat| n <= i < self.len implies #[trigger] self.data@[self.slot_of(
                i,
            ) as int] == mid.data@[mid.slot_of((i - n) as nat) as int] by {
                assert(self.slot_of(i) == mid.slot_of((i - n) as nat));
            }
            assert forall|i: nat| i < n implies #[trigger] self.data@[self.slot_of(i) as int]
                == Some(flat[i as int]) by {
                assert(self.data@[rr.begin + i] == Some(flat[i as int]));
            }
            assert forall|i: nat| i < self.len implies (#[trigger] self.data@[self.slot_of(
                i,
            ) as int]) is Some by {
                if i >= n {
                    assert(mid.data@[mid.slot_of((i - n) as nat) as int] is Some);
                } else {
                    assert(self.data@[self.slot_of(i) as int] == Some(flat[i as int]));
                }
            }
            assert forall|i: int| 0 <= i < self.len implies #[trigger] self@[i] == (flat + mid@)[i] by {
                if i >= n {
                    assert(self.data@[self.slot_of(i as nat) as int] == mid.data@[mid.slot_of(
                        (i - n) as nat,
                    ) as int]);
                } else {
                    assert(self.data@[self.slot_of(i as nat) as int] == Some(flat[i]));
                }
            }
            assert(self@ =~= flat + mid@);
        }
        Ok(others_len)
    }
}


impl<T: Clone> Deque<T> {
    /// Fills `count` slots from `begin` onwards with clones of `value`.
    fn write_clones(&mut self, begin: usize, count: usize, value: &T)
        requires
            begin + count <= old(self).data@.len(),
            old(self).data@.len() <= max_slots(),
        ensures
            final(self).data@.len() == old(self).data@.len(),
            final(self).head == old(self).head,
            final(self).tail == old(self).tail,
            final(self).len == old(self).len,
            forall|j: int|
                0 <= j < count ==> (#[trigger] final(self).data@[begin + j]) is Some && cloned(
                    *value,
                    final(self).data@[begin + j]->0,
                ),
            forall|p: int|
                0 <= p < old(self).data@.len() && !(begin <= p < begin + count)
                    ==> #[trigger] final(self).data@[p] == old(self).data@[p],
    {
        let mut j: usize = 0;
        while j < count
            invariant
                j <= count,
                begin + count <= old(self).data@.len(),
                old(self).data@.len() <= max_slots(),
                self.data@.len() == old(self).data@.len(),
                self.head == old(self).head,
                self.tail == old(self).tail,
                self.len == old(self).len,
                forall|k: int|
                    0 <= k < j ==> (#[trigger] self.data@[begin + k]) is Some && cloned(
                        *value,
                        self.data@[begin + k]->0,
                    ),
                forall|p: int|
                    0 <= p < old(self).data@.len() && !(begin <= p < begin + count)
                        ==> #[trigger] self.data@[p] == old(self).data@[p],
            decreases count - j,
        {
            let elem = value.clone();
            self.data.set(begin + j, Some(elem));
            j = j + 1;
        }
    }

    /// Appends clones of `value` to the back of the instance so that the length grows as `et`
    /// asks. Does nothing if the calculated length is equal or less than the current length.
    /// Returns the number of elements appended.
    pub fn expand_back(&mut self, et: ExpansionTy, value: T) -> (r: Result<usize, Error>)
        requires
            old(self).wf(),
        ensures
            final(self).wf(),
            et.spec_params(old(self)@.len()) is None ==> r == Ok::<usize, Error>(0) && final(self)@ == old(self)@
                && final(self).spec_capacity() == old(self).spec_capacity() && final(self).spec_head()
                == old(self).spec_head() && final(self).spec_tail() == old(self).spec_tail(),
            et.spec_params(old(self)@.len()) matches Some((additional, new_len)) ==> {
                &&& (old(self)@.len() + additional <= max_slots()) == (r is Ok)
                &&& r is Ok ==> {
                    &&& r == Ok::<usize, Error>(additional as usize)
                    &&& final(self)@.len() == new_len
                    &&& final(self)@.take(old(self)@.len() as int) == old(self)@
                    &&& forall|i: int|
                        old(self)@.len() <= i < new_len ==> cloned(value, #[trigger] final(self)@[i])
                }
                &&& r is Err ==> final(self)@ == old(self)@ && r == Err::<usize, Error>(
                    Error::DequeueError(DequeueError::ReserveOverflow),
                )
                &&& r is Err ==> final(self).spec_capacity() == old(self).spec_capacity()
                    && final(self).spec_head() == old(self).spec_head() && final(self).spec_tail()
                    == old(self).spec_tail()
                &&& r is Ok ==> {
                    let ends = reserved_ends(
                        old(self).spec_head(),
                        old(self).spec_tail(),
                        old(self)@.len(),
                        old(self).spec_capacity(),
                        final(self).spec_capacity(),
                        additional,
                        true,
                    );
                    &&& final(self).spec_capacity() == grown_capacity(
                        old(self).spec_capacity(),
                        old(self)@.len(),
                        additional,
                    )
                    &&& final(self).spec_head() == ends.0
                    &&& final(self).spec_tail() == back_room_begin(
                        ends.1,
                        final(self).spec_capacity(),
                        additional,
                    ) + additional
                }
            },
    {
        let len = self.len;
        let (additional, new_len) = match et.params(len) {
            Some(elem) => elem,
            None => return Ok(0),
        };
        let rr = self.prolong(additional, true)?;
        let ghost mid = *self;
        self.write_clones(rr.begin, additional, &value);
        self.len = new_len;
        self.tail = rr.begin + additional;
        proof {
            assert forall|i: nat| i < len implies #[trigger] self.data@[self.slot_of(i) as int]
                == mid.data@[mid.slot_of(i) as int] by {
                assert(self.slot_of(i) == mid.slot_of(i));
            }
            assert forall|i: nat| len <= i < self.len implies #[trigger] self.data@[self.slot_of(
                i,
            ) as int] == self.data@[rr.begin + (i - len)] by {
            }
            assert forall|i: nat| i < self.len implies (#[trigger] self.data@[self.slot_of(
                i,
            ) as int]) is Some by {
                if i < len {
                    assert(mid.data@[mid.slot_of(i) as int] is Some);
                } else {
                    assert(self.data@[rr.begin + (i - len)] is Some);
                }
            }
            assert forall|i: int| 0 <= i < len implies #[trigger] self@[i] == mid@[i] by {
                assert(self.data@[self.slot_of(i as nat) as int] == mid.data@[mid.slot_of(
                    i as nat,
                ) as int]);
            }
            assert(self@.take(len as int) =~= mid@);
            assert forall|i: int| len <= i < new_len implies cloned(value, #[trigger] self@[i]) by {
                assert(self.data@[rr.begin + (i - len)] is Some);
            }
        }
        Ok(additional)
    }

    /// Prepends clones of `value` to the front of the instance so that the length grows as
    /// `et` asks. Does nothing if the calculated length is equal or less than the current
    /// length. Returns the number of elements prepended and how many places the head moved.
    pub fn expand_front(&mut self, et: ExpansionTy, value: T) -> (r: Result<(usize, usize), Error>)
        requires
            old(self).wf(),
        ensures
            final(self).wf(),
            et.spec_params(old(self)@.len()) is None ==> r == Ok::<(usize, usize), Error>((0, 0))
                && final(self)@ == old(self)@,
            et.spec_params(old(self)@.len()) matches Some((additional, new_len)) ==> {
                &&& (old(self)@.len() + additional <= max_slots()) == (r is Ok)
                &&& r matches Ok((_, h)) ==> h == head_shift_of(
                    old(self).spec_head(),
                    old(self).spec_tail(),
                    old(self)@.len(),
                    old(self).spec_capacity(),
                    final(self).spec_capacity(),
                    additional,
                    false,
                )
                &&& r matches Ok((n, _)) ==> {
                    &&& n == additional
                    &&& final(self)@.len() == new_len
                    &&& final(self)@.skip(additional as int) == old(self)@
                    &&& forall|i: int| 0 <= i < additional ==> cloned(value, #[trigger] final(self)@[i])
                }
                &&& r is Err ==> final(self)@ == old(self)@ && r == Err::<(usize, usize), Error>(
                    Error::DequeueError(DequeueError::ReserveOverflow),
                )
                &&& r is Ok ==> {
                    let ends = reserved_ends(
                        old(self).spec_head(),
                        old(self).spec_tail(),
                        old(self)@.len(),
                        old(self).spec_capacity(),
                        final(self).spec_capacity(),
                        additional,
                        false,
                    );
                    &&& final(self).spec_tail() == ends.1
                    &&& final(self).spec_head() == front_room_begin(
                        ends.0,
                        old(self)@.len(),
                        final(self).spec_capacity(),
                        additional,
                    )
                }
            },
    {
        let len = self.len;
        let (additional, new_len) = match et.params(len) {
            Some(elem) => elem,
            None => return Ok((0, 0)),
        };
        let rr = self.prolong(additional, false)?;
        let ghost mid = *self;
        self.write_clones(rr.begin, additional, &value);
        self.len = new_len;
        self.head = rr.begin;
        proof {
            let n = additional as nat;
            assert forall|i: nat| n <= i < self.len implies #[trigger] self.data@[self.slot_of(
                i,
            ) as int] == mid.data@[mid.slot_of((i - n) as nat) as int] by {
                assert(self.slot_of(i) == mid.slot_of((i - n) as nat));
            }
            assert forall|i: nat| i < n implies #[trigger] self.data@[self.slot_of(i) as int]
                == self.data@[rr.begin + i] by {
            }
            assert forall|i: nat| i < self.len implies (#[trigger] self.data@[self.slot_of(
                i,
            ) as int]) is Some by {
                if i >= n {
                    assert(mid.data@[mid.slot_of((i - n) as nat) as int] is Some);
                } else {
                    assert(self.data@[rr.begin + i] is Some);
                }
            }
            assert forall|i: int| 0 <= i < len implies #[trigger] self@.skip(n as int)[i] == mid@[i] by {
                assert(self.data@[self.slot_of((i + n) as nat) as int] == mid.data@[mid.slot_of(
                    i as nat,
                ) as int]);
            }
            assert(self@.skip(n as int) =~= mid@);
            assert forall|i: int| 0 <= i < n implies cloned(value, #[trigger] self@[i]) by {
                assert(self.data@[rr.begin + i] is Some);
            }
        }
        Ok((additional, rr.head_shift))
    }
}

/// Where a reservation leaves room: the first free slot and how far the head moved.
struct ReserveRslt {
    begin: usize,
    head_shift: usize,
}

/// The capacity that a buffer of `cap` slots holding `len` elements grows to when it needs
/// room for `additional` more: twice the capacity, at least what is required and at least four
/// slots, but never more than [`max_slots`].
pub open spec fn grown_capacity(cap: nat, len: nat, additional: nat) -> nat {
    if cap >= len + additional {
        cap
    } else {
        let doubled = if 2 * cap > len + additional {
            2 * cap
        } else {
            len + additional
        };
        let at_least_four = if doubled < 4 {
            4
        } else {
            doubled
        };
        if at_least_four > max_slots() {
            max_slots()
        } else {
            at_least_four
        }
    }
}

/// Moves `count` slots starting at `src` to the slots starting at `dst`, as `memmove` does:
/// the ranges may overlap.
fn move_slots<T>(data: &mut Vec<Option<T>>, src: usize, dst: usize, count: usize)
    requires
        src + count <= old(data)@.len(),
        dst + count <= old(data)@.len(),
    ensures
        final(data)@.len() == old(data)@.len(),
        forall|j: int| 0 <= j < count ==> #[trigger] final(data)@[dst + j] == old(data)@[src + j],
        forall|p: int|
            0 <= p < old(data)@.len() && !(dst <= p < dst + count) && !(src <= p < src + count)
                ==> #[trigger] final(data)@[p] == old(data)@[p],
{
    let n = data.len();
    if dst <= src {
        let mut j: usize = 0;
        while j < count
            invariant
                j <= count,
                src + count <= old(data)@.len(),
                dst + count <= old(data)@.len(),
                dst <= src,
                n == old(data)@.len(),
                data@.len() == old(data)@.len(),
                forall|k: int| 0 <= k < j ==> #[trigger] data@[dst + k] == old(data)@[src + k],
                forall|k: int| j <= k < count ==> #[trigger] data@[src + k] == old(data)@[src + k],
                forall|p: int|
                    0 <= p < old(data)@.len() && !(dst <= p < dst + count) && !(src <= p < src
                        + count) ==> #[trigger] data@[p] == old(data)@[p],
            decreases count - j,
        {
            let v = data[src + j].take();
            data.set(dst + j, v);
            j = j + 1;
        }
    } else {
        let mut j: usize = count;
        while j > 0
            invariant
                j <= count,
                src + count <= old(data)@.len(),
                dst + count <= old(data)@.len(),
                dst > src,
                n == old(data)@.len(),
                data@.len() == old(data)@.len(),
                forall|k: int| j <= k < count ==> #[trigger] data@[dst + k] == old(data)@[src + k],
                forall|k: int| 0 <= k < j ==> #[trigger] data@[src + k] == old(data)@[src + k],
                forall|p: int|
                    0 <= p < old(data)@.len() && !(dst <= p < dst + count) && !(src <= p < src
                        + count) ==> #[trigger] data@[p] == old(data)@[p],
            decreases j,
        {
            j = j - 1;
            let v = data[src + j].take();
            data.set(dst + j, v);
        }
    }
}

/// All wrapping structures must have at least 1 element.
fn is_wrapping(head: usize, len: usize, tail: usize) -> (r: bool)
    ensures
        r == spec_is_wrapping(head as nat, len as nat, tail as nat),
{
    if tail > head {
        false
    } else {
        len > 0
    }
}

fn wrap_idx(bound: usize, idx: usize) -> (r: usize)
    ensures
        r == if idx >= bound {
            idx - bound
        } else {
            idx as int
        },
{
    match idx.checked_sub(bound) {
        Some(elem) => elem,
        None => idx,
    }
}

fn wrap_add_idx(bound: usize, idx: usize, offset: usize) -> (r: usize)
    requires
        idx + offset <= usize::MAX,
    ensures
        r == if idx + offset >= bound {
            idx + offset - bound
        } else {
            idx + offset
        },
{
    wrap_idx(bound, idx + offset)
}

fn wrap_sub_idx(bound: usize, idx: usize, offset: usize) -> (r: usize)
    requires
        offset <= idx + bound <= usize::MAX,
    ensures
        r == if idx - offset + bound >= bound {
            idx - offset
        } else {
            idx - offset + bound
        },
{
    wrap_idx(bound, idx + bound - offset)
}

/// What [`Deque::pop_back`] gives right after [`Deque::push_back`] pushed `value`: `value`
/// itself, and the elements as they were before the push. `before` holds the elements before the
/// push, `after_push` after it, and `popped` and `after_pop` what the pop returned and left.
pub proof fn lemma_pop_back_undoes_push_back<T>(
    before: Seq<T>,
    value: T,
    after_push: Seq<T>,
    popped: Option<T>,
    after_pop: Seq<T>,
)
    requires
        after_push == before.push(value),
        after_push.len() > 0 ==> popped == Some(after_push.last()) && after_pop
            == after_push.drop_last(),
    ensures
        popped == Some(value),
        after_pop == before,
{
    assert(after_push.drop_last() =~= before);
}

/// What [`Deque::pop_front`] gives right after [`Deque::push_front`] pushed `value`: `value`
/// itself, and the elements as they were before the push.
pub proof fn lemma_pop_front_undoes_push_front<T>(
    before: Seq<T>,
    value: T,
    after_push: Seq<T>,
    popped: Option<T>,
    after_pop: Seq<T>,
)
    requires
        after_push == seq![value] + before,
        after_push.len() > 0 ==> popped == Some(after_push[0]) && after_pop
            == after_push.drop_first(),
    ensures
        popped == Some(value),
        after_pop == before,
{
    assert(after_push.drop_first() =~= before);
}

/// Elements pushed at the front come out at the back in the order they were pushed, as in a
/// queue: after pushing `values` one by one at the front of an empty deque, the deque holds them
/// in reverse, so that the first one pushed is the first one popped at the back.
pub proof fn lemma_push_front_is_queue<T>(values: Seq<T>, contents: Seq<Seq<T>>)
    requires
        contents.len() == values.len() + 1,
        contents[0] == Seq::<T>::empty(),
        forall|k: int| 1 <= k <= values.len() ==> #[trigger] contents[k] == seq![values[k - 1]]
            + contents[k - 1],
    ensures
        contents.last() == values.reverse(),
        values.len() > 0 ==> contents.last().last() == values[0],
{
    assert forall|n: int| 0 <= n <= values.len() implies #[trigger] contents[n] == values.take(
        n,
    ).reverse() by {
        lemma_push_front_prefix(values, contents, n);
    }
    assert(values.take(values.len() as int) =~= values);
}

#[verifier::spinoff_prover]
#[verifier::rlimit(30)]
proof fn lemma_push_front_prefix<T>(values: Seq<T>, contents: Seq<Seq<T>>, n: int)
    requires
        contents.len() == values.len() + 1,
        contents[0] == Seq::<T>::empty(),
        forall|k: int| 1 <= k <= values.len() ==> #[trigger] contents[k] == seq![values[k - 1]]
            + contents[k - 1],
        0 <= n <= values.len(),
    ensures
        contents[n] == values.take(n).reverse(),
    decreases n,
{
    if n == 0 {
        assert(values.take(0).reverse() =~= Seq::<T>::empty());
    } else {
        lemma_push_front_prefix(values, contents, n - 1);
        assert(contents[n] == seq![values[n - 1]] + contents[n - 1]);
        assert(values.take(n).reverse() =~= seq![values[n - 1]] + values.take(n - 1).reverse());
    }
}

} // verus!
