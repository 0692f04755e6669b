use crate::collection::deque::{
    back_removal_order, back_room_begin, front_room_begin, grown_capacity, max_slots, reserved_ends, truncated_head,
    truncated_tail,
};
use crate::collection::linear_storage_len::{wrapped_add, wrapped_sub};
use crate::collection::slices::{concat, lemma_concat_push, slices_view};
use crate::collection::traits::{extended_one_by_one, lemma_extended_with_nothing};
use crate::collection::{Deque, DequeueError, ExpansionTy, TryExtend};
use crate::error::Error;
use vstd::prelude::*;

verus! {

/// Errors of [`BlocksDeque`].
#[derive(Clone, Copy, Debug, PartialEq, Eq, Structural)]
pub enum BlocksDequeError {
    /// The provided index does not point to valid internal data
    OutOfBoundsIndex,
    /// There is no room for one more block at the back.
    PushBackOverflow,
    /// There is no room for one more block at the front.
    PushFrontDataOverflow,
    /// The requested capacity can not be allocated.
    ReserveOverflow,
    /// The requested capacity can not be allocated.
    WithCapacityOverflow,
}

/// Whether the `len` elements from the logical position `start` of a ring of `cap` slots that
/// begins at `head` run across the physical end of the buffer.
pub open spec fn crosses_end(head: nat, start: nat, len: nat, cap: nat) -> bool {
    head + start < cap && cap < head + start + len
}

/// The indices of a ring of `len` elements that begins at `head` and ends before `tail`, in a
/// buffer of `cap` slots.
spec fn ring_layout(head: nat, tail: nat, len: nat, cap: nat) -> bool {
    &&& len <= cap <= max_slots()
    &&& head <= cap
    &&& tail <= cap
    &&& len > 0 ==> head < cap && (tail == head + len || (head + len >= cap && tail == head + len
        - cap))
}

/// Elements that did not run across the end of the buffer do not once room was made for
/// `additional` more, and the buffer does not shrink.
proof fn lemma_reserve_keeps_unbroken(
    head: nat,
    tail: nat,
    len: nat,
    cap: nat,
    additional: nat,
    is_back: bool,
    start: nat,
    n: nat,
)
    requires
        ring_layout(head, tail, len, cap),
        start + n <= len,
        !crosses_end(head, start, n, cap),
    ensures
        ({
            let cap2 = grown_capacity(cap, len, additional);
            let ends = reserved_ends(head, tail, len, cap, cap2, additional, is_back);
            &&& cap <= cap2
            &&& ends.0 <= cap2
            &&& !crosses_end(ends.0, start, n, cap2)
        }),
{
}

/// A ring whose tail, after `n` elements were added at the back, is at least `n` holds them
/// without running across the end of the buffer.
proof fn lemma_back_room_unbroken(head: nat, tail: nat, len: nat, cap: nat, n: nat)
    requires
        ring_layout(head, tail, len + n, cap),
        tail >= n,
    ensures
        !crosses_end(head, len, n, cap),
{
}

/// No block of `metas` runs across the end of the buffer of `ring`.
spec fn metas_unbroken<D, M>(ring: Deque<D>, metas: Seq<Metadata<M>>) -> bool {
    forall|k: int|
        0 <= k < metas.len() ==> !crosses_end(
            ring.spec_head(),
            block_start(metas, k),
            (#[trigger] metas[k]).len as nat,
            ring.spec_capacity(),
        )
}

/// Blocks that did not run across the end of the buffer do not once room was made for
/// `additional` more elements at either side.
proof fn lemma_reserved_unbroken<D, M>(
    prev: Deque<D>,
    head: nat,
    cap: nat,
    metas: Seq<Metadata<M>>,
    additional: nat,
    is_back: bool,
)
    requires
        prev.wf(),
        block_start(metas, metas.len() as int) == prev@.len(),
        metas_unbroken(prev, metas),
        cap == grown_capacity(prev.spec_capacity(), prev@.len(), additional),
        head == reserved_ends(
            prev.spec_head(),
            prev.spec_tail(),
            prev@.len(),
            prev.spec_capacity(),
            cap,
            additional,
            is_back,
        ).0,
    ensures
        forall|k: int|
            0 <= k < metas.len() ==> !crosses_end(
                head,
                block_start(metas, k),
                (#[trigger] metas[k]).len as nat,
                cap,
            ),
        prev.spec_capacity() <= cap,
        head <= cap,
{
    prev.lemma_layout();
    lemma_reserve_keeps_unbroken(
        prev.spec_head(),
        prev.spec_tail(),
        prev@.len(),
        prev.spec_capacity(),
        additional,
        is_back,
        0,
        0,
    );
    assert forall|k: int| 0 <= k < metas.len() implies !crosses_end(
        head,
        block_start(metas, k),
        (#[trigger] metas[k]).len as nat,
        cap,
    ) by {
        lemma_block_start_monotonic(metas, k, metas.len() as int);
        lemma_block_start_monotonic(metas, k + 1, metas.len() as int);
        lemma_reserve_keeps_unbroken(
            prev.spec_head(),
            prev.spec_tail(),
            prev@.len(),
            prev.spec_capacity(),
            additional,
            is_back,
            block_start(metas, k),
            metas[k].len as nat,
        );
    }
}

/// A block written at the back of the room that was made for it does not run across the end
/// of the buffer, nor do the blocks before it.
proof fn lemma_filled_back_unbroken<D, M>(
    prev: Deque<D>,
    next: Deque<D>,
    metas: Seq<Metadata<M>>,
    m: Metadata<M>,
)
    requires
        prev.wf(),
        next.wf(),
        block_start(metas, metas.len() as int) == prev@.len(),
        metas_unbroken(prev, metas),
        filled_back(prev, next, m.len as nat),
        next@.len() == prev@.len() + m.len,
    ensures
        metas_unbroken(next, metas.push(m)),
{
    lemma_reserved_unbroken(
        prev,
        next.spec_head(),
        next.spec_capacity(),
        metas,
        m.len as nat,
        true,
    );
    next.lemma_layout();
    let all = metas.push(m);
    assert forall|k: int| 0 <= k < all.len() implies !crosses_end(
        next.spec_head(),
        block_start(all, k),
        (#[trigger] all[k]).len as nat,
        next.spec_capacity(),
    ) by {
        lemma_block_start_push(metas, m, k);
        if k < metas.len() {
            assert(all[k] == metas[k]);
        } else {
            lemma_back_room_unbroken(
                next.spec_head(),
                next.spec_tail(),
                prev@.len(),
                next.spec_capacity(),
                m.len as nat,
            );
        }
    }
}

/// A block written at the front of the room that was made for it does not run across the end
/// of the buffer, nor do the blocks after it.
proof fn lemma_filled_front_unbroken<D, M>(
    prev: Deque<D>,
    next: Deque<D>,
    metas: Seq<Metadata<M>>,
    m: Metadata<M>,
)
    requires
        prev.wf(),
        next.wf(),
        block_start(metas, metas.len() as int) == prev@.len(),
        metas_unbroken(prev, metas),
        filled_front(prev, next, m.len as nat),
        next@.len() == prev@.len() + m.len,
    ensures
        metas_unbroken(next, seq![m] + metas),
{
    let n = m.len as nat;
    let cap2 = next.spec_capacity();
    let ends = reserved_ends(
        prev.spec_head(),
        prev.spec_tail(),
        prev@.len(),
        prev.spec_capacity(),
        cap2,
        n,
        false,
    );
    lemma_reserved_unbroken(prev, ends.0, cap2, metas, n, false);
    let all = seq![m] + metas;
    assert forall|k: int| 0 <= k < all.len() implies !crosses_end(
        next.spec_head(),
        block_start(all, k),
        (#[trigger] all[k]).len as nat,
        cap2,
    ) by {
        if k == 0 {
            assert(block_start(all, 0) == 0);
        } else {
            lemma_block_start_prepend(metas, m, k - 1);
            assert(all[k] == metas[k - 1]);
            assert(!crosses_end(ends.0, block_start(metas, k - 1), metas[k - 1].len as nat, cap2));
        }
    }
}

/// Once the elements of the first block left the front of the ring, the other blocks still do
/// not run across the end of the buffer.
proof fn lemma_dropped_first_unbroken<D, M>(prev: Deque<D>, next: Deque<D>, metas: Seq<Metadata<M>>)
    requires
        prev.wf(),
        metas.len() > 0,
        block_start(metas, metas.len() as int) == prev@.len(),
        metas_unbroken(prev, metas),
        next.spec_capacity() == prev.spec_capacity(),
        next.spec_head() == if metas[0].len > 0 {
            truncated_head(
                prev.spec_head(),
                prev@.len(),
                prev.spec_tail(),
                prev.spec_capacity(),
                (prev@.len() - metas[0].len) as nat,
            )
        } else {
            prev.spec_head()
        },
    ensures
        metas_unbroken(next, metas.drop_first()),
{
    prev.lemma_layout();
    let rest = metas.drop_first();
    assert forall|k: int| 0 <= k < rest.len() implies !crosses_end(
        next.spec_head(),
        block_start(rest, k),
        (#[trigger] rest[k]).len as nat,
        next.spec_capacity(),
    ) by {
        assert(metas =~= seq![metas[0]] + rest);
        lemma_block_start_prepend(rest, metas[0], k);
        assert(rest[k] == metas[k + 1]);
        lemma_block_start_monotonic(metas, k + 2, metas.len() as int);
        assert(block_start(metas, k + 2) == block_start(metas, k + 1) + metas[k + 1].len);
        assert(!crosses_end(
            prev.spec_head(),
            block_start(metas, k + 1),
            metas[k + 1].len as nat,
            prev.spec_capacity(),
        ));
    }
}

/// `next` keeps the first `new_len` elements of `prev` in the slots where they were.
pub open spec fn kept_first<D>(prev: Deque<D>, next: Deque<D>, new_len: nat) -> bool {
    &&& next.spec_capacity() == prev.spec_capacity()
    &&& next.spec_head() == prev.spec_head()
    &&& next.spec_tail() == if new_len < prev@.len() {
        truncated_tail(prev.spec_head(), prev@.len(), prev.spec_tail(), prev.spec_capacity(), new_len)
    } else {
        prev.spec_tail()
    }
}

/// `next` keeps the last `new_len` elements of `prev` in the slots where they were.
pub open spec fn kept_last<D>(prev: Deque<D>, next: Deque<D>, new_len: nat) -> bool {
    &&& next.spec_capacity() == prev.spec_capacity()
    &&& next.spec_tail() == prev.spec_tail()
    &&& next.spec_head() == if new_len < prev@.len() {
        truncated_head(prev.spec_head(), prev@.len(), prev.spec_tail(), prev.spec_capacity(), new_len)
    } else {
        prev.spec_head()
    }
}

/// The capacity and the ends of `next` are those of `prev` after room for `n` elements was
/// reserved at the back and filled.
pub open spec fn filled_back<D>(prev: Deque<D>, next: Deque<D>, n: nat) -> bool {
    let ends = reserved_ends(
        prev.spec_head(),
        prev.spec_tail(),
        prev@.len(),
        prev.spec_capacity(),
        next.spec_capacity(),
        n,
        true,
    );
    &&& next.spec_capacity() == grown_capacity(prev.spec_capacity(), prev@.len(), n)
    &&& next.spec_head() == ends.0
    &&& next.spec_tail() == back_room_begin(ends.1, next.spec_capacity(), n) + n
}

/// The capacity and the ends of `next` are those of `prev` after room for `n` elements was
/// reserved at the front and filled.
pub open spec fn filled_front<D>(prev: Deque<D>, next: Deque<D>, n: nat) -> bool {
    let ends = reserved_ends(
        prev.spec_head(),
        prev.spec_tail(),
        prev@.len(),
        prev.spec_capacity(),
        next.spec_capacity(),
        n,
        false,
    );
    &&& next.spec_capacity() == grown_capacity(prev.spec_capacity(), prev@.len(), n)
    &&& next.spec_tail() == ends.1
    &&& next.spec_head() == front_room_begin(ends.0, prev@.len(), next.spec_capacity(), n)
}

/// A block that composes `BlocksDeque`.
#[derive(Debug, PartialEq)]
pub struct Block<D, M> {
    /// Opaque data
    pub data: D,
    /// Miscellaneous
    pub misc: M,
    /// Range
    pub range: core::ops::Range<usize>,
}

/// Where a block starts and how long it is.
#[derive(Clone, Copy, Debug)]
pub struct Metadata<M> {
    pub len: usize,
    pub misc: M,
    pub offset: usize,
}

/// The sum of the lengths of the first `k` blocks of `metas`: where block `k` starts.
pub open spec fn block_start<M>(metas: Seq<Metadata<M>>, k: int) -> nat
    decreases k,
{
    if k <= 0 {
        0
    } else {
        block_start(metas, k - 1) + metas[k - 1].len as nat
    }
}

/// Adding a block at the back leaves the starts of the others as they were.
pub proof fn lemma_block_start_push<M>(metas: Seq<Metadata<M>>, m: Metadata<M>, k: int)
    requires
        0 <= k <= metas.len(),
    ensures
        block_start(metas.push(m), k) == block_start(metas, k),
    decreases k,
{
    if k > 0 {
        lemma_block_start_push(metas, m, k - 1);
    }
}

/// Adding a block at the front moves the start of every other one by its length.
pub proof fn lemma_block_start_prepend<M>(metas: Seq<Metadata<M>>, m: Metadata<M>, k: int)
    requires
        0 <= k <= metas.len(),
    ensures
        block_start(seq![m] + metas, k + 1) == m.len + block_start(metas, k),
    decreases k,
{
    assert((seq![m] + metas)[0] == m);
    assert(block_start(seq![m] + metas, 0) == 0);
    assert(block_start(metas, 0) == 0);
    if k > 0 {
        lemma_block_start_prepend(metas, m, k - 1);
        assert((seq![m] + metas)[k] == metas[k - 1]);
    }
}

/// Starts grow with the index.
pub proof fn lemma_block_start_monotonic<M>(metas: Seq<Metadata<M>>, j: int, k: int)
    requires
        0 <= j <= k <= metas.len(),
    ensures
        block_start(metas, j) <= block_start(metas, k),
        j < k ==> block_start(metas, j) + metas[j].len <= block_start(metas, k),
    decreases k - j,
{
    if j < k {
        lemma_block_start_monotonic(metas, j, k - 1);
        if j < k - 1 {
            lemma_block_start_monotonic(metas, j, k - 1);
        }
    }
}

/// How many elements the first `k` of `blocks` hold together: where block `k` starts among
/// the elements.
pub open spec fn elements_before<D, M>(blocks: Seq<(Seq<D>, M)>, k: int) -> nat
    decreases k,
{
    if k <= 0 {
        0
    } else {
        elements_before(blocks, k - 1) + blocks[k - 1].0.len()
    }
}

/// A circular buffer where elements are added in blocks that will never intersect boundaries.
pub struct BlocksDeque<D, M> {
    data: Deque<D>,
    logical_begin: usize,
    metadata: Deque<Metadata<M>>,
}

impl<D, M> BlocksDeque<D, M> {
    /// The ring buffer that holds the elements of every block.
    pub closed spec fn ring(&self) -> Deque<D> {
        self.data
    }

    /// The elements of every block, front to back.
    pub open spec fn elements(&self) -> Seq<D> {
        self.ring()@
    }

    /// The number of elements the queue can hold without reallocating.
    pub closed spec fn spec_elements_capacity(&self) -> nat {
        self.data.spec_capacity()
    }

    /// The number of blocks the queue can hold without reallocating.
    pub closed spec fn spec_blocks_capacity(&self) -> nat {
        self.metadata.spec_capacity()
    }

    /// The elements of block `k`.
    pub closed spec fn block_data(&self, k: int) -> Seq<D> {
        let metas = self.metadata@;
        self.data@.subrange(
            block_start(metas, k) as int,
            block_start(metas, k) + metas[k].len,
        )
    }


    /// The blocks, front to back: the elements of each and what came with it.
    pub closed spec fn view(&self) -> Seq<(Seq<D>, M)> {
        Seq::new(self.metadata@.len(), |k: int| (self.block_data(k), self.metadata@[k].misc))
    }

    /// Both queues are well formed, the blocks cover the elements in order, and each block
    /// records where it starts relative to `logical_begin`.
    pub closed spec fn wf(&self) -> bool {
        let metas = self.metadata@;
        &&& self.data.wf()
        &&& self.metadata.wf()
        &&& block_start(metas, metas.len() as int) == self.data@.len()
        &&& forall|k: int|
            0 <= k < metas.len() ==> !crosses_end(
                self.data.spec_head(),
                block_start(metas, k),
                (#[trigger] metas[k]).len as nat,
                self.data.spec_capacity(),
            )
        &&& forall|k: int|
            0 <= k < metas.len() ==> wrapped_sub(
                #[trigger] metas[k].offset as nat,
                self.logical_begin as nat,
                usize::MAX as nat,
            ) == block_start(metas, k)
    }

    /// Creates a new empty instance.
    pub fn new() -> (r: Self)
        ensures
            r.wf(),
            r@ == Seq::<(Seq<D>, M)>::empty(),
            r.elements() == Seq::<D>::empty(),
            r.ring().spec_capacity() == 0 && r.ring().spec_head() == 0 && r.ring().spec_tail() == 0,
    {
        let r = BlocksDeque { data: Deque::new(), logical_begin: 0, metadata: Deque::new() };
        assert(r@ =~= Seq::<(Seq<D>, M)>::empty());
        r
    }

    /// Constructs a new, empty instance with the specified capacities.
    pub fn with_capacity(blocks: usize, elements: usize) -> (r: Result<Self, Error>)
        ensures
            (blocks <= max_slots() && elements <= max_slots()) == (r is Ok),
            r matches Ok(b) ==> b.wf() && b@ == Seq::<(Seq<D>, M)>::empty() && b.elements()
                == Seq::<D>::empty() && b.spec_blocks_capacity() == blocks
                && b.spec_elements_capacity() == elements && b.ring().spec_head() == 0
                && b.ring().spec_tail() == 0,
            r matches Err(e) ==> e == Error::BlocksDequeError(BlocksDequeError::WithCapacityOverflow),
    {
        let data = match Deque::with_capacity(elements) {
            Ok(elem) => elem,
            Err(_) => return Err(Error::BlocksDequeError(BlocksDequeError::WithCapacityOverflow)),
        };
        let metadata = match Deque::with_capacity(blocks) {
            Ok(elem) => elem,
            Err(_) => return Err(Error::BlocksDequeError(BlocksDequeError::WithCapacityOverflow)),
        };
        let r = BlocksDeque { data, logical_begin: 0, metadata };
        assert(r@ =~= Seq::<(Seq<D>, M)>::empty());
        Ok(r)
    }

    /// Constructs a new, empty instance with exactly the specified capacities.
    pub fn with_exact_capacity(blocks: usize, elements: usize) -> (r: Result<Self, Error>)
        ensures
            (blocks <= max_slots() && elements <= max_slots()) == (r is Ok),
            r matches Ok(b) ==> b.wf() && b@ == Seq::<(Seq<D>, M)>::empty() && b.elements()
                == Seq::<D>::empty() && b.spec_blocks_capacity() == blocks
                && b.spec_elements_capacity() == elements && b.ring().spec_head() == 0
                && b.ring().spec_tail() == 0,
            r matches Err(e) ==> e == Error::BlocksDequeError(BlocksDequeError::WithCapacityOverflow),
    {
        let data = match Deque::with_exact_capacity(elements) {
            Ok(elem) => elem,
            Err(_) => return Err(Error::BlocksDequeError(BlocksDequeError::WithCapacityOverflow)),
        };
        let metadata = match Deque::with_exact_capacity(blocks) {
            Ok(elem) => elem,
            Err(_) => return Err(Error::BlocksDequeError(BlocksDequeError::WithCapacityOverflow)),
        };
        let r = BlocksDeque { data, logical_begin: 0, metadata };
        assert(r@ =~= Seq::<(Seq<D>, M)>::empty());
        Ok(r)
    }

    /// Returns the number of blocks the queue can hold without reallocating.
    pub fn blocks_capacity(&self) -> (r: usize)
        ensures
            r == self.spec_blocks_capacity(),
    {
        self.metadata.capacity()
    }

    /// Returns the number of blocks.
    pub fn blocks_len(&self) -> (r: usize)
        requires
            self.wf(),
        ensures
            r == self@.len(),
    {
        self.metadata.len()
    }

    /// Returns the number of elements the queue can hold without reallocating.
    pub fn elements_capacity(&self) -> (r: usize)
        ensures
            r == self.spec_elements_capacity(),
    {
        self.data.capacity()
    }

    /// Returns the number of elements.
    pub fn elements_len(&self) -> (r: usize)
        requires
            self.wf(),
        ensures
            r == self.elements().len(),
    {
        self.data.len()
    }

    /// Clears the queue, removing all values.
    pub fn clear(&mut self)
        requires
            old(self).wf(),
        ensures
            final(self).wf(),
            final(self)@ == Seq::<(Seq<D>, M)>::empty(),
            final(self).elements() == Seq::<D>::empty(),
            final(self).ring().spec_capacity() == old(self).ring().spec_capacity(),
            final(self).ring().spec_head() == 0 && final(self).ring().spec_tail() == 0,
    {
        self.data.clear();
        self.logical_begin = 0;
        self.metadata.clear();
        assert(self@ =~= Seq::<(Seq<D>, M)>::empty());
    }

    /// The blocks cover the elements: their concatenation is all of them.
    proof fn lemma_blocks_cover(&self)
        requires
            self.wf(),
        ensures
            forall|k: int|
                0 <= k < self.metadata@.len() ==> block_start(self.metadata@, k)
                    + self.metadata@[k].len <= self.data@.len(),
    {
        assert forall|k: int| 0 <= k < self.metadata@.len() implies block_start(
            self.metadata@,
            k,
        ) + self.metadata@[k].len <= self.data@.len() by {
            lemma_block_start_monotonic(self.metadata@, k, self.metadata@.len() as int);
        }
    }

    /// The elements are the elements of the blocks, one block after the other.
    pub proof fn lemma_elements_are_blocks(&self)
        requires
            self.wf(),
        ensures
            self.elements() == concat(self@.map_values(|b: (Seq<D>, M)| b.0)),
    {
        let datas = self@.map_values(|b: (Seq<D>, M)| b.0);
        let n = self.metadata@.len() as int;
        self.lemma_blocks_cover();
        assert forall|k: int| 0 <= k <= n implies concat(#[trigger] datas.take(k)) == self.data@.take(
            block_start(self.metadata@, k) as int,
        ) by {
            self.lemma_blocks_prefix(datas, k);
        }
        assert(datas.take(n) =~= datas);
        assert(self.data@.take(self.data@.len() as int) =~= self.data@);
    }

    /// The first `k` blocks hold the elements up to where block `k` starts.
    proof fn lemma_blocks_prefix(&self, datas: Seq<Seq<D>>, k: int)
        requires
            self.wf(),
            datas == self@.map_values(|b: (Seq<D>, M)| b.0),
            0 <= k <= self.metadata@.len(),
        ensures
            concat(datas.take(k)) == self.data@.take(block_start(self.metadata@, k) as int),
        decreases k,
    {
        if k == 0 {
            assert(datas.take(0) =~= Seq::<Seq<D>>::empty());
            assert(self.data@.take(0) =~= Seq::<D>::empty());
        } else {
            self.lemma_blocks_prefix(datas, k - 1);
            self.lemma_blocks_cover();
            lemma_concat_push(datas, k - 1);
            let a = block_start(self.metadata@, k - 1) as int;
            let b = block_start(self.metadata@, k) as int;
            assert(datas[k - 1] == self.block_data(k - 1));
            assert(self.data@.take(b) =~= self.data@.take(a) + self.data@.subrange(a, b));
        }
    }

    /// No block runs across the physical end of the buffer: the elements of each lie in
    /// consecutive slots.
    pub proof fn lemma_blocks_never_cross_end(&self)
        requires
            self.wf(),
        ensures
            forall|k: int|
                0 <= k < self@.len() ==> !crosses_end(
                    self.ring().spec_head(),
                    elements_before(self@, k),
                    (#[trigger] self@[k]).0.len(),
                    self.ring().spec_capacity(),
                ),
    {
        self.lemma_blocks_cover();
        assert forall|k: int| 0 <= k < self@.len() implies !crosses_end(
            self.ring().spec_head(),
            elements_before(self@, k),
            (#[trigger] self@[k]).0.len(),
            self.ring().spec_capacity(),
        ) by {
            self.lemma_block_start_is_elements_before(k);
            assert(self@[k].0.len() == self.metadata@[k].len);
        }
    }

    /// The recorded start of block `k` is the number of elements in the blocks before it.
    proof fn lemma_block_start_is_elements_before(&self, k: int)
        requires
            self.wf(),
            0 <= k <= self.metadata@.len(),
        ensures
            block_start(self.metadata@, k) == elements_before(self@, k),
        decreases k,
    {
        if k > 0 {
            self.lemma_block_start_is_elements_before(k - 1);
            self.lemma_blocks_cover();
            assert(self@[k - 1].0.len() == self.metadata@[k - 1].len);
        }
    }

    /// After the last block left the metadata and its elements left the back of the data, the
    /// queue is well formed and holds the other blocks.
    #[verifier::spinoff_prover]
    #[verifier::rlimit(60)]
    proof fn lemma_popped_back(prev: &Self, next: &Self, m: Metadata<M>)
        requires
            prev.wf(),
            prev.metadata@.len() > 0,
            m == prev.metadata@.last(),
            next.metadata.wf(),
            next.data.wf(),
            next.metadata@ == prev.metadata@.drop_last(),
            next.data@ == prev.data@.take(prev.data@.len() - m.len),
            next.data.spec_head() == prev.data.spec_head(),
            next.data.spec_capacity() == prev.data.spec_capacity(),
            next.logical_begin == prev.logical_begin,
        ensures
            next.wf(),
            next@ == prev@.drop_last(),
    {
        prev.lemma_blocks_cover();
        let metas = prev.metadata@;
        let n = metas.len() - 1;
        assert(metas =~= next.metadata@.push(m));
        assert forall|k: int| 0 <= k <= next.metadata@.len() implies block_start(
            next.metadata@,
            k,
        ) == block_start(metas, k) by {
            lemma_block_start_push(next.metadata@, m, k);
        }
        assert(block_start(metas, metas.len() as int) == block_start(metas, n) + metas[n].len);
        assert(next.data@.len() == block_start(next.metadata@, next.metadata@.len() as int));
        assert forall|k: int| 0 <= k < next.metadata@.len() implies !crosses_end(
            next.data.spec_head(),
            block_start(next.metadata@, k),
            (#[trigger] next.metadata@[k]).len as nat,
            next.data.spec_capacity(),
        ) by {
            assert(next.metadata@[k] == metas[k]);
        }
        assert forall|k: int| 0 <= k < next.metadata@.len() implies wrapped_sub(
            #[trigger] next.metadata@[k].offset as nat,
            next.logical_begin as nat,
            usize::MAX as nat,
        ) == block_start(next.metadata@, k) by {
            assert(next.metadata@[k] == metas[k]);
        }
        assert forall|k: int| 0 <= k < next@.len() implies #[trigger] next@[k] == prev@.drop_last()[k] by {
            assert(next.metadata@[k] == metas[k]);
            lemma_block_start_monotonic(metas, k, n);
            assert(next.block_data(k) =~= prev.block_data(k));
        }
        assert(next@ =~= prev@.drop_last());
    }

    /// After the first block left the metadata and its elements left the front of the data,
    /// with `logical_begin` moved past them, the queue is well formed and holds the other
    /// blocks.
    #[verifier::spinoff_prover]
    #[verifier::rlimit(60)]
    proof fn lemma_popped_front(prev: &Self, next: &Self, m: Metadata<M>)
        requires
            prev.wf(),
            prev.metadata@.len() > 0,
            m == prev.metadata@[0],
            next.metadata.wf(),
            next.data.wf(),
            next.metadata@ == prev.metadata@.drop_first(),
            m.len <= prev.data@.len(),
            next.data@ == prev.data@.skip(m.len as int),
            next.data.spec_capacity() == prev.data.spec_capacity(),
            next.data.spec_head() == if m.len > 0 {
                truncated_head(
                    prev.data.spec_head(),
                    prev.data@.len(),
                    prev.data.spec_tail(),
                    prev.data.spec_capacity(),
                    (prev.data@.len() - m.len) as nat,
                )
            } else {
                prev.data.spec_head()
            },
            next.logical_begin == prev.logical_begin.wrapping_add(m.len),
        ensures
            next.wf(),
            next@ == prev@.drop_first(),
    {
        prev.lemma_blocks_cover();
        let metas = prev.metadata@;
        assert(metas =~= seq![m] + next.metadata@);
        assert forall|k: int| 0 <= k <= next.metadata@.len() implies block_start(metas, k + 1)
            == m.len + block_start(next.metadata@, k) by {
            lemma_block_start_prepend(next.metadata@, m, k);
        }
        assert forall|k: int| 0 <= k < next.metadata@.len() implies wrapped_sub(
            #[trigger] next.metadata@[k].offset as nat,
            next.logical_begin as nat,
            usize::MAX as nat,
        ) == block_start(next.metadata@, k) by {
            assert(next.metadata@[k] == metas[k + 1]);
            lemma_block_start_monotonic(metas, k + 1, metas.len() as int);
        }
        lemma_dropped_first_unbroken(prev.data, next.data, metas);
        assert forall|k: int| 0 <= k < next@.len() implies #[trigger] next@[k] == prev@.drop_first()[k] by {
            assert(next.metadata@[k] == metas[k + 1]);
            lemma_block_start_monotonic(metas, k + 1, metas.len() as int);
            assert(next.block_data(k) =~= prev.block_data(k + 1));
        }
        assert(next@ =~= prev@.drop_first());
    }

    /// The slot after the last element, as the queue of elements keeps it.
    pub open spec fn elements_tail(&self) -> nat {
        self.ring().spec_tail()
    }

    /// Whether the elements cross the physical end of their buffer.
    pub open spec fn elements_wrapping(&self) -> bool {
        self.ring().spec_wrapping()
    }

    /// Removes the last block from the queue and returns what came with it, or `None` if it
    /// is empty.
    pub fn pop_back(&mut self) -> (r: Option<M>)
        requires
            old(self).wf(),
        ensures
            final(self).wf(),
            old(self)@.len() == 0 ==> r is None && final(self)@ == old(self)@ && final(self).ring()
                == old(self).ring(),
            old(self)@.len() > 0 ==> r == Some(old(self)@.last().1) && final(self)@ == old(self)@.drop_last() && final(self).elements() == old(self).elements().take(
                old(self).elements().len() - old(self)@.last().0.len(),
            ) && kept_first(
                old(self).ring(),
                final(self).ring(),
                (old(self).elements().len() - old(self)@.last().0.len()) as nat,
            ),
    {
        proof {
            self.lemma_blocks_cover();
        }
        let ghost prev = *self;
        let local_metadata = match self.metadata.pop_back() {
            Some(elem) => elem,
            None => return None,
        };
        let new_len = self.data.len() - local_metadata.len;
        self.data.truncate_back(new_len);
        proof {
            assert(block_start(prev.metadata@, prev.metadata@.len() - 1) + local_metadata.len
                <= prev.data@.len());
            assert(prev.data@.take(prev.data@.len() as int) =~= prev.data@);
            Self::lemma_popped_back(&prev, self, local_metadata);
        }
        Some(local_metadata.misc)
    }

    /// See [`Self::pop_back`]. Transfers the elements of the block to `buffer` instead of
    /// dropping them, in the order of [`Deque::truncate_back_to_buffer`]. The block leaves the
    /// queue whether or not every transfer succeeds; a failed one is reported in place of what
    /// came with the block.
    pub fn pop_back_to_buffer<B: TryExtend<[D; 1]>>(&mut self, buffer: &mut B) -> (r: Option<
        Result<M, Error>,
    >)
        requires
            old(self).wf(),
            (*old(buffer)).try_extend_inv(),
        ensures
            final(self).wf(),
            (*final(buffer)).try_extend_inv(),
            old(self)@.len() == 0 ==> r is None && final(self)@ == old(self)@ && *final(buffer)
                == *old(buffer) && final(self).ring() == old(self).ring(),
            old(self)@.len() > 0 ==> {
                &&& final(self)@ == old(self)@.drop_last()
                &&& kept_first(
                    old(self).ring(),
                    final(self).ring(),
                    (old(self).elements().len() - old(self)@.last().0.len()) as nat,
                )
                &&& final(self).elements() == old(self).elements().take(
                    old(self).elements().len() - old(self)@.last().0.len(),
                )
                &&& r matches Some(rslt) && (rslt matches Ok(misc) ==> misc == old(self)@.last().1)
                    && extended_one_by_one(
                    *old(buffer),
                    back_removal_order(
                        old(self).elements(),
                        (old(self).elements().len() - old(self)@.last().0.len()) as nat,
                        old(self).elements_tail(),
                        old(self).elements_wrapping(),
                    ),
                    *final(buffer),
                    match rslt {
                        Ok(_) => Ok(()),
                        Err(e) => Err(e),
                    },
                )
            },
    {
        proof {
            self.lemma_blocks_cover();
        }
        let ghost prev = *self;
        let local_metadata = match self.metadata.pop_back() {
            Some(elem) => elem,
            None => return None,
        };
        let new_len = self.data.len() - local_metadata.len;
        let rslt = self.data.truncate_back_to_buffer(buffer, new_len);
        proof {
            assert(block_start(prev.metadata@, prev.metadata@.len() - 1) + local_metadata.len
                <= prev.data@.len());
            assert(prev.data@.take(prev.data@.len() as int) =~= prev.data@);
            Self::lemma_popped_back(&prev, self, local_metadata);
            if new_len >= prev.data@.len() {
                lemma_extended_with_nothing::<D, B>(*buffer);
                assert(back_removal_order(
                    prev.data@,
                    new_len as nat,
                    prev.data.spec_tail(),
                    prev.data.spec_wrapping(),
                ) =~= Seq::<D>::empty());
            }
        }
        match rslt {
            Ok(()) => {
                proof {
                    assert(rslt->Ok_0 == ());
                    assert(rslt == Ok::<(), Error>(()));
                }
                Some(Ok(local_metadata.misc))
            },
            Err(e) => Some(Err(e)),
        }
    }

    /// Removes the first block and returns what came with it, or `None` if the queue is empty.
    pub fn pop_front(&mut self) -> (r: Option<M>)
        requires
            old(self).wf(),
        ensures
            final(self).wf(),
            old(self)@.len() == 0 ==> r is None && final(self)@ == old(self)@ && final(self).ring()
                == old(self).ring(),
            old(self)@.len() > 0 ==> r == Some(old(self)@[0].1) && final(self)@ == old(self)@.drop_first() && final(self).elements() == old(self).elements().skip(
                old(self)@[0].0.len() as int,
            ) && kept_last(
                old(self).ring(),
                final(self).ring(),
                (old(self).elements().len() - old(self)@[0].0.len()) as nat,
            ),
    {
        proof {
            self.lemma_blocks_cover();
        }
        let ghost prev = *self;
        let local_metadata = match self.metadata.pop_front() {
            Some(elem) => elem,
            None => return None,
        };
        assert(block_start(prev.metadata@, 0) == 0);
        let new_len = self.data.len() - local_metadata.len;
        self.data.truncate_front(new_len);
        self.logical_begin = self.logical_begin.wrapping_add(local_metadata.len);
        proof {
            assert(block_start(prev.metadata@, 0) + local_metadata.len <= prev.data@.len());
            assert(prev.data@.skip(0) =~= prev.data@);
            Self::lemma_popped_front(&prev, self, local_metadata);
        }
        Some(local_metadata.misc)
    }

    /// See [`Self::pop_front`]. Transfers the elements of the block to `buffer` instead of
    /// dropping them, front to back. The block leaves the queue whether or not every transfer
    /// succeeds; a failed one is reported in place of what came with the block.
    pub fn pop_front_to_buffer<B: TryExtend<[D; 1]>>(&mut self, buffer: &mut B) -> (r: Option<
        Result<M, Error>,
    >)
        requires
            old(self).wf(),
            (*old(buffer)).try_extend_inv(),
        ensures
            final(self).wf(),
            (*final(buffer)).try_extend_inv(),
            old(self)@.len() == 0 ==> r is None && final(self)@ == old(self)@ && *final(buffer)
                == *old(buffer) && final(self).ring() == old(self).ring(),
            old(self)@.len() > 0 ==> {
                &&& final(self)@ == old(self)@.drop_first()
                &&& kept_last(
                    old(self).ring(),
                    final(self).ring(),
                    (old(self).elements().len() - old(self)@[0].0.len()) as nat,
                )
                &&& final(self).elements() == old(self).elements().skip(
                    old(self)@[0].0.len() as int,
                )
                &&& r matches Some(rslt) && (rslt matches Ok(misc) ==> misc == old(self)@[0].1)
                    && extended_one_by_one(
                    *old(buffer),
                    old(self)@[0].0,
                    *final(buffer),
                    match rslt {
                        Ok(_) => Ok(()),
                        Err(e) => Err(e),
                    },
                )
            },
    {
        proof {
            self.lemma_blocks_cover();
        }
        let ghost prev = *self;
        let local_metadata = match self.metadata.pop_front() {
            Some(elem) => elem,
            None => return None,
        };
        assert(block_start(prev.metadata@, 0) == 0);
        let new_len = self.data.len() - local_metadata.len;
        let rslt = self.data.truncate_front_to_buffer(buffer, new_len);
        self.logical_begin = self.logical_begin.wrapping_add(local_metadata.len);
        proof {
            assert(block_start(prev.metadata@, 0) + local_metadata.len <= prev.data@.len());
            assert(prev.data@.skip(0) =~= prev.data@);
            Self::lemma_popped_front(&prev, self, local_metadata);
            assert(prev@[0].0 =~= prev.data@.take(local_metadata.len as int));
            if new_len >= prev.data@.len() {
                lemma_extended_with_nothing::<D, B>(*buffer);
                assert(prev.data@.take(local_metadata.len as int) =~= Seq::<D>::empty());
            }
        }
        match rslt {
            Ok(()) => {
                proof {
                    assert(rslt->Ok_0 == ());
                    assert(rslt == Ok::<(), Error>(()));
                }
                Some(Ok(local_metadata.misc))
            },
            Err(e) => Some(Err(e)),
        }
    }

    /// Reserves capacity for at least `blocks` more blocks and `elements` more elements to be
    /// inserted at the front of the queue.
    pub fn reserve_front(&mut self, blocks: usize, elements: usize) -> (r: Result<(), Error>)
        requires
            old(self).wf(),
        ensures
            final(self).wf(),
            final(self)@ == old(self)@,
            final(self).elements() == old(self).elements(),
            (old(self)@.len() + blocks <= max_slots() && old(self).elements().len() + elements
                <= max_slots()) == (r is Ok),
            r is Ok ==> final(self).spec_blocks_capacity() >= old(self)@.len() + blocks
                && final(self).spec_elements_capacity() >= old(self).elements().len() + elements,
            r is Ok ==> (final(self).ring().spec_head(), final(self).ring().spec_tail())
                == reserved_ends(
                old(self).ring().spec_head(),
                old(self).ring().spec_tail(),
                old(self).elements().len(),
                old(self).ring().spec_capacity(),
                final(self).ring().spec_capacity(),
                elements as nat,
                false,
            ),
            r is Err ==> final(self).ring().spec_head() == old(self).ring().spec_head()
                && final(self).ring().spec_tail() == old(self).ring().spec_tail(),
            r matches Err(e) ==> e == Error::BlocksDequeError(BlocksDequeError::ReserveOverflow),
    {
        let ghost pre = *self;
        let blocks_rslt = self.metadata.reserve_front(blocks);
        proof {
            Self::lemma_same_blocks(&pre, self);
        }
        if blocks_rslt.is_err() {
            return Err(Error::BlocksDequeError(BlocksDequeError::ReserveOverflow));
        }
        let ghost mid = *self;
        let elements_rslt = self.data.reserve_front(elements);
        proof {
            if elements_rslt is Ok {
                lemma_reserved_unbroken(
                    mid.data,
                    self.data.spec_head(),
                    self.data.spec_capacity(),
                    mid.metadata@,
                    elements as nat,
                    false,
                );
            }
            Self::lemma_same_blocks(&mid, self);
        }
        if elements_rslt.is_err() {
            return Err(Error::BlocksDequeError(BlocksDequeError::ReserveOverflow));
        }
        Ok(())
    }

    /// After a block's elements were written at the front of the room made for them and its
    /// record was prepended, the queue is well formed and begins with that block.
    #[verifier::spinoff_prover]
    #[verifier::rlimit(60)]
    proof fn lemma_pushed_front(mid: &Self, next: &Self, m: Metadata<M>, flat: Seq<D>)
        requires
            mid.wf(),
            next.data.wf(),
            next.metadata.wf(),
            next.metadata@ == seq![m] + mid.metadata@,
            next.data@ == flat + mid.data@,
            flat.len() == m.len,
            filled_front(mid.data, next.data, m.len as nat),
            next.logical_begin == mid.logical_begin.wrapping_sub(m.len),
            m.offset == next.logical_begin,
        ensures
            next.wf(),
            next@ == seq![(flat, m.misc)] + mid@,
    {
        let metas = mid.metadata@;
        let misc = m.misc;
        next.data.lemma_layout();
        lemma_filled_front_unbroken(mid.data, next.data, metas, m);
        assert forall|k: int| 0 <= k <= metas.len() implies block_start(next.metadata@, k + 1)
            == m.len + block_start(metas, k) by {
            lemma_block_start_prepend(metas, m, k);
        }
        assert(block_start(next.metadata@, next.metadata@.len() as int) == m.len
            + block_start(metas, metas.len() as int));
        assert forall|k: int| 0 <= k < next.metadata@.len() implies wrapped_sub(
            #[trigger] next.metadata@[k].offset as nat,
            next.logical_begin as nat,
            usize::MAX as nat,
        ) == block_start(next.metadata@, k) by {
            if k > 0 {
                assert(next.metadata@[k] == metas[k - 1]);
                lemma_block_start_monotonic(metas, k - 1, metas.len() as int);
            }
        }
        assert forall|k: int| 0 <= k < next@.len() implies #[trigger] next@[k] == (seq![
            (flat, misc),
        ] + mid@)[k] by {
            if k > 0 {
                assert(next.metadata@[k] == metas[k - 1]);
                lemma_block_start_monotonic(metas, k - 1, metas.len() as int);
                assert(next.block_data(k) =~= mid.block_data(k - 1));
            } else {
                assert(next.block_data(k) =~= flat);
            }
        }
        assert(next@ =~= seq![(flat, misc)] + mid@);
    }

    /// Queues with the same blocks and elements describe the same thing.
    #[verifier::spinoff_prover]
    #[verifier::rlimit(60)]
    proof fn lemma_same_blocks(a: &Self, b: &Self)
        requires
            a.wf(),
            b.data.wf(),
            b.metadata.wf(),
            a.data@ == b.data@,
            a.metadata@ == b.metadata@,
            a.logical_begin == b.logical_begin,
            metas_unbroken(b.data, b.metadata@),
        ensures
            b.wf(),
            b@ == a@,
            b.elements() == a.elements(),
    {
        assert(b@ =~= a@);
    }
}

impl<D, M> Default for BlocksDeque<D, M> {
    fn default() -> (r: Self)
        ensures
            r.wf(),
            r@ == Seq::<(Seq<D>, M)>::empty(),
            r.elements() == Seq::<D>::empty(),
    {
        Self::new()
    }
}

impl<D: Copy, M> BlocksDeque<D, M> {
    /// The number of elements from the first one up to the physical end of the buffer.
    pub open spec fn spec_front_len(&self) -> nat {
        self.ring().spec_front_len()
    }

    /// Returns a pair of sequences which contain, in order, the elements of the queue: those
    /// from the first one up to the physical end of the buffer, then those that wrap around to
    /// its beginning.
    pub fn as_slices(&self) -> (r: (Vec<D>, Vec<D>))
        requires
            self.wf(),
        ensures
            r.0@ + r.1@ == self.elements(),
            r.0@.len() == self.spec_front_len(),
    {
        self.data.as_slices()
    }

    /// Provides the elements of the block at the given index, what came with them and where
    /// they are among all elements.
    pub fn get(&self, idx: usize) -> (r: Option<Block<Vec<D>, &M>>)
        requires
            self.wf(),
        ensures
            idx >= self@.len() ==> r is None,
            idx < self@.len() ==> (r matches Some(b) && b.data@ == self@[idx as int].0 && *b.misc
                == self@[idx as int].1 && b.range.start == elements_before(self@, idx as int)
                && b.range.end == elements_before(self@, idx as int + 1)),
    {
        let local_metadata = match self.metadata.get(idx) {
            Some(elem) => elem,
            None => return None,
        };
        proof {
            self.lemma_blocks_cover();
            self.lemma_block_start_is_elements_before(idx as int);
            self.lemma_block_start_is_elements_before(idx as int + 1);
            assert(*local_metadata == self.metadata@[idx as int]);
            assert(wrapped_sub(
                self.metadata@[idx as int].offset as nat,
                self.logical_begin as nat,
                usize::MAX as nat,
            ) == block_start(self.metadata@, idx as int));
            assert(block_start(self.metadata@, idx as int) + self.metadata@[idx as int].len
                <= self.data@.len());
        }
        let elements_len = self.data.len();
        let relative_offset = local_metadata.offset.wrapping_sub(self.logical_begin);
        assert(relative_offset == block_start(self.metadata@, idx as int));
        assert(relative_offset + local_metadata.len <= elements_len);
        let end = relative_offset + local_metadata.len;
        let mut data: Vec<D> = Vec::new();
        let mut pos = relative_offset;
        while pos < end
            invariant
                self.wf(),
                relative_offset <= pos <= end,
                end <= self.data@.len(),
                data@ == self.data@.subrange(relative_offset as int, pos as int),
            decreases end - pos,
        {
            match self.data.get(pos) {
                Some(elem) => data.push(*elem),
                None => {},
            }
            assert(data@ =~= self.data@.subrange(relative_offset as int, pos + 1));
            pos = pos + 1;
        }
        Some(Block { data, misc: &local_metadata.misc, range: relative_offset..end })
    }

    /// Every block, front to back.
    pub fn iter(&self) -> (r: Vec<Block<Vec<D>, &M>>)
        requires
            self.wf(),
        ensures
            r@.len() == self@.len(),
            forall|k: int|
                0 <= k < self@.len() ==> (#[trigger] r@[k]).data@ == self@[k].0 && *r@[k].misc
                    == self@[k].1 && r@[k].range.start == elements_before(self@, k)
                    && r@[k].range.end == elements_before(self@, k + 1),
    {
        let mut r: Vec<Block<Vec<D>, &M>> = Vec::new();
        let mut idx: usize = 0;
        let n = self.metadata.len();
        while idx < n
            invariant
                self.wf(),
                n == self@.len(),
                idx <= n,
                r@.len() == idx,
                forall|k: int|
                    0 <= k < idx ==> (#[trigger] r@[k]).data@ == self@[k].0 && *r@[k].misc
                        == self@[k].1 && r@[k].range.start == elements_before(self@, k)
                        && r@[k].range.end == elements_before(self@, k + 1),
            decreases n - idx,
        {
            match self.get(idx) {
                Some(block) => r.push(block),
                None => {},
            }
            idx = idx + 1;
        }
        r
    }

    /// Appends a block made of the elements of `local_data` to the end of the queue.
    pub fn push_back_from_copyable_data(&mut self, local_data: &[&[D]], misc: M) -> (r: Result<
        (),
        Error,
    >)
        requires
            old(self).wf(),
        ensures
            final(self).wf(),
            (old(self)@.len() + 1 <= max_slots() && old(self).elements().len() + concat(
                slices_view(local_data@),
            ).len() <= max_slots()) == (r is Ok),
            r is Ok ==> final(self)@ == old(self)@.push((concat(slices_view(local_data@)), misc))
                && final(self).elements() == old(self).elements() + concat(
                slices_view(local_data@),
            ) && filled_back(
                old(self).ring(),
                final(self).ring(),
                concat(slices_view(local_data@)).len(),
            ),
            r is Err ==> final(self)@ == old(self)@ && final(self).elements() == old(self).elements(),
            r matches Err(e) ==> e == Error::BlocksDequeError(BlocksDequeError::PushBackOverflow),
    {
        let ghost pre = *self;
        if self.metadata.reserve_back(1).is_err() {
            proof {
                Self::lemma_same_blocks(&pre, self);
            }
            return Err(Error::BlocksDequeError(BlocksDequeError::PushBackOverflow));
        }
        proof {
            Self::lemma_same_blocks(&pre, self);
        }
        let ghost metas = self.metadata@;
        let ghost data0 = self.data;
        let old_len = self.data.len();
        let offset = self.logical_begin.wrapping_add(old_len);
        let total_data_len = match self.data.extend_back_from_copyable_slices(local_data) {
            Ok(n) => n,
            Err(_) => {
                proof {
                    assert(self@ =~= old(self)@);
                }
                return Err(Error::BlocksDequeError(BlocksDequeError::PushBackOverflow));
            },
        };
        let m = Metadata { len: total_data_len, misc, offset };
        match self.metadata.push_back(m) {
            Ok(()) => {},
            Err(_) => {
                assert(false);
                return Err(Error::BlocksDequeError(BlocksDequeError::PushBackOverflow));
            },
        }
        proof {
            assert(self.metadata@ == metas.push(m));
            lemma_filled_back_unbroken(data0, self.data, metas, m);
            assert forall|k: int| 0 <= k <= metas.len() implies block_start(self.metadata@, k)
                == block_start(metas, k) by {
                lemma_block_start_push(metas, m, k);
            }
            assert(block_start(self.metadata@, self.metadata@.len() as int) == block_start(
                self.metadata@,
                metas.len() as int,
            ) + m.len);
            assert forall|k: int| 0 <= k < self.metadata@.len() implies wrapped_sub(
                #[trigger] self.metadata@[k].offset as nat,
                self.logical_begin as nat,
                usize::MAX as nat,
            ) == block_start(self.metadata@, k) by {
                if k < metas.len() {
                    assert(self.metadata@[k] == metas[k]);
                }
            }
            assert forall|k: int| 0 <= k < self@.len() implies #[trigger] self@[k] == old(self)@.push((concat(slices_view(local_data@)), misc))[k] by {
                if k < metas.len() {
                    assert(self.metadata@[k] == metas[k]);
                    lemma_block_start_monotonic(metas, k, metas.len() as int);
                    assert(self.block_data(k) =~= old(self).block_data(k));
                } else {
                    assert(self.block_data(k) =~= concat(slices_view(local_data@)));
                }
            }
            assert(self@ =~= old(self)@.push((concat(slices_view(local_data@)), misc)));
        }
        Ok(())
    }

    /// Prepends a block made of the elements of `local_data` to the queue.
    pub fn push_front_from_copyable_data(&mut self, local_data: &[&[D]], misc: M) -> (r: Result<
        (),
        Error,
    >)
        requires
            old(self).wf(),
        ensures
            final(self).wf(),
            (old(self)@.len() + 1 <= max_slots() && old(self).elements().len() + concat(
                slices_view(local_data@),
            ).len() <= max_slots()) == (r is Ok),
            r is Ok ==> final(self)@ == seq![(concat(slices_view(local_data@)), misc)] + old(self)@ && final(self).elements() == concat(slices_view(local_data@)) + old(self).elements() && filled_front(
                old(self).ring(),
                final(self).ring(),
                concat(slices_view(local_data@)).len(),
            ),
            r is Err ==> final(self)@ == old(self)@ && final(self).elements() == old(self).elements(),
            r matches Err(e) ==> e == Error::BlocksDequeError(
                BlocksDequeError::PushFrontDataOverflow,
            ),
    {
        let ghost pre = *self;
        if self.metadata.reserve_front(1).is_err() {
            proof {
                Self::lemma_same_blocks(&pre, self);
            }
            return Err(Error::BlocksDequeError(BlocksDequeError::PushFrontDataOverflow));
        }
        proof {
            Self::lemma_same_blocks(&pre, self);
        }
        let ghost mid = *self;
        let total_data_len = match self.data.extend_front_from_copyable_slices(local_data) {
            Ok(n) => n,
            Err(_) => {
                proof {
                    assert(self@ =~= old(self)@);
                }
                return Err(Error::BlocksDequeError(BlocksDequeError::PushFrontDataOverflow));
            },
        };
        self.logical_begin = self.logical_begin.wrapping_sub(total_data_len);
        let m = Metadata { offset: self.logical_begin, len: total_data_len, misc };
        match self.metadata.push_front(m) {
            Ok(()) => {},
            Err(_) => {
                assert(false);
                return Err(Error::BlocksDequeError(BlocksDequeError::PushFrontDataOverflow));
            },
        }
        proof {
            Self::lemma_pushed_front(&mid, self, m, concat(slices_view(local_data@)));
        }
        Ok(())
    }
}

impl<D: Clone, M> BlocksDeque<D, M> {
    /// Appends a block of clones of `value` to the back of the instance so that the number of
    /// elements grows as `et` asks; the block is empty where there is nothing to add. Returns
    /// the number of elements of the block.
    #[verifier::spinoff_prover]
    #[verifier::rlimit(60)]
    pub fn expand_back(&mut self, et: ExpansionTy, misc: M, value: D) -> (r: Result<usize, Error>)
        requires
            old(self).wf(),
        ensures
            final(self).wf(),
            r matches Ok(n) ==> final(self)@.len() == old(self)@.len() + 1 && final(self)@.take(
                old(self)@.len() as int,
            ) == old(self)@ && final(self)@.last().0.len() == n && final(self)@.last().1 == misc
                && final(self).elements().len() == old(self).elements().len() + n && forall|
                i: int,
            |
                0 <= i < n ==> cloned(value, #[trigger] final(self)@.last().0[i]),
            et.spec_params(old(self).elements().len()) matches Some((additional, new_len)) ==> (r is Ok
                ==> r == Ok::<usize, Error>(additional as usize) && final(self).elements().len()
                == new_len && final(self).elements().take(old(self).elements().len() as int) == old(
                self,
            ).elements()),
            et.spec_params(old(self).elements().len()) is None && r is Ok ==> r == Ok::<usize, Error>(
                0,
            ) && final(self).elements() == old(self).elements(),
            r is Ok && et.spec_params(old(self).elements().len()) is Some ==> filled_back(
                old(self).ring(),
                final(self).ring(),
                r->Ok_0 as nat,
            ),
            r is Ok <== (old(self)@.len() + 1 <= max_slots() && (et.spec_params(
                old(self).elements().len(),
            ) matches Some((additional, _)) ==> old(self).elements().len() + additional
                <= max_slots())),
            r is Err ==> final(self)@ == old(self)@ && final(self).elements() == old(self).elements(),
            r matches Err(e) ==> e == Error::BlocksDequeError(BlocksDequeError::PushBackOverflow),
    {
        let ghost pre = *self;
        if self.metadata.reserve_back(1).is_err() {
            proof {
                Self::lemma_same_blocks(&pre, self);
            }
            return Err(Error::BlocksDequeError(BlocksDequeError::PushBackOverflow));
        }
        proof {
            Self::lemma_same_blocks(&pre, self);
        }
        let ghost metas = self.metadata@;
        let ghost elems = self.data@;
        let ghost data0 = self.data;
        let old_len = self.data.len();
        let total_data_len = match self.data.expand_back(et, value) {
            Ok(n) => n,
            Err(_) => {
                proof {
                    assert(self@ =~= old(self)@);
                }
                return Err(Error::BlocksDequeError(BlocksDequeError::PushBackOverflow));
            },
        };
        let new_offset = self.logical_begin.wrapping_add(old_len);
        let m = Metadata { offset: new_offset, len: total_data_len, misc };
        match self.metadata.push_back(m) {
            Ok(()) => {},
            Err(_) => {
                assert(false);
                return Err(Error::BlocksDequeError(BlocksDequeError::PushBackOverflow));
            },
        }
        proof {
            assert(self.data@.len() == old_len + total_data_len) by {
                if et.spec_params(old_len as nat) is None {
                    assert(total_data_len == 0);
                }
            }
            assert(self.data@.take(old_len as int) =~= elems);
            assert(self.metadata@ == metas.push(m));
            if et.spec_params(old_len as nat) is Some {
                lemma_filled_back_unbroken(data0, self.data, metas, m);
            } else {
                assert forall|k: int| 0 <= k < metas.push(m).len() implies !crosses_end(
                    self.data.spec_head(),
                    block_start(metas.push(m), k),
                    (#[trigger] metas.push(m)[k]).len as nat,
                    self.data.spec_capacity(),
                ) by {
                    lemma_block_start_push(metas, m, k);
                    if k < metas.len() {
                        assert(metas.push(m)[k] == metas[k]);
                    }
                }
            }
            assert forall|k: int| 0 <= k <= metas.len() implies block_start(self.metadata@, k)
                == block_start(metas, k) by {
                lemma_block_start_push(metas, m, k);
            }
            assert(block_start(self.metadata@, self.metadata@.len() as int) == block_start(
                self.metadata@,
                metas.len() as int,
            ) + m.len);
            assert forall|k: int| 0 <= k < self.metadata@.len() implies wrapped_sub(
                #[trigger] self.metadata@[k].offset as nat,
                self.logical_begin as nat,
                usize::MAX as nat,
            ) == block_start(self.metadata@, k) by {
                if k < metas.len() {
                    assert(self.metadata@[k] == metas[k]);
                }
            }
            assert forall|k: int| 0 <= k < old(self)@.len() implies #[trigger] self@[k] == old(self)@[k] by {
                assert(self.metadata@[k] == metas[k]);
                lemma_block_start_monotonic(metas, k, metas.len() as int);
                assert(self.block_data(k) =~= old(self).block_data(k));
            }
            assert(self@.take(old(self)@.len() as int) =~= old(self)@);
            let last = self.metadata@.len() - 1;
            assert forall|i: int| 0 <= i < total_data_len implies cloned(
                value,
                #[trigger] self@.last().0[i],
            ) by {
                assert(self@.last().0[i] == self.data@[old_len + i]);
            }
        }
        Ok(total_data_len)
    }
}

/// What [`BlocksDeque::get`] gives, right after [`BlocksDeque::push_back_from_copyable_data`]
/// added a block, at the index of that block: the elements of the block and what came with it.
/// `before` holds the blocks before the push and `after` after it.
pub proof fn lemma_get_reads_pushed_back_block<D, M>(
    before: Seq<(Seq<D>, M)>,
    data: Seq<D>,
    misc: M,
    after: Seq<(Seq<D>, M)>,
)
    requires
        after == before.push((data, misc)),
    ensures
        after[before.len() as int] == (data, misc),
        after.len() == before.len() + 1,
        forall|k: int| 0 <= k < before.len() ==> #[trigger] after[k] == before[k],
{
}

/// What [`BlocksDeque::pop_front`] gives right after
/// [`BlocksDeque::push_front_from_copyable_data`] added a block at the front: what came with
/// that block, and the blocks as they were before the push.
pub proof fn lemma_pop_front_undoes_push_front<D, M>(
    before: Seq<(Seq<D>, M)>,
    data: Seq<D>,
    misc: M,
    after_push: Seq<(Seq<D>, M)>,
    popped: Option<M>,
    after_pop: Seq<(Seq<D>, M)>,
)
    requires
        after_push == seq![(data, misc)] + before,
        after_push.len() > 0 ==> popped == Some(after_push[0].1) && after_pop
            == after_push.drop_first(),
    ensures
        popped == Some(misc),
        after_pop == before,
{
    assert(after_push.drop_first() =~= before);
}

} // verus!
