use crate::collection::slices::{concat, lemma_concat_push, lemma_concat_prefix_len};
use crate::collection::{Vector, VectorError};
use crate::error::Error;
use vstd::prelude::*;

verus! {

/// Rows of elements kept one after the other in one buffer, each row delimited by its length.
pub struct CompressedRows<T> {
    data: Vector<T>,
    offsets: Vector<usize>,
}

/// The first `n` elements of `lens`, added.
pub open spec fn lens_sum(lens: Seq<usize>, n: int) -> nat
    decreases n,
{
    if n <= 0 {
        0
    } else {
        lens_sum(lens, n - 1) + lens[n - 1] as nat
    }
}

impl<T> CompressedRows<T> {
    /// The rows, in the order they were pushed.
    pub closed spec fn view(&self) -> Seq<Seq<T>> {
        Seq::new(
            self.offsets@.len(),
            |k: int|
                self.data@.subrange(
                    lens_sum(self.offsets@, k) as int,
                    lens_sum(self.offsets@, k + 1) as int,
                ),
        )
    }

    /// The rows cover the buffer exactly.
    pub closed spec fn wf(&self) -> bool {
        lens_sum(self.offsets@, self.offsets@.len() as int) == self.data@.len()
    }

    /// An instance without rows.
    pub fn new() -> (r: Self)
        ensures
            r.wf(),
            r@ == Seq::<Seq<T>>::empty(),
    {
        let r = CompressedRows { data: Vector::new(), offsets: Vector::new() };
        assert(r@ =~= Seq::<Seq<T>>::empty());
        r
    }

    /// The number of rows.
    pub fn rows(&self) -> (r: usize)
        ensures
            r == self@.len(),
    {
        self.offsets.len()
    }
}

proof fn lemma_lens_sum_monotonic(lens: Seq<usize>, j: int, k: int)
    requires
        0 <= j <= k <= lens.len(),
    ensures
        lens_sum(lens, j) <= lens_sum(lens, k),
    decreases k - j,
{
    if j < k {
        lemma_lens_sum_monotonic(lens, j, k - 1);
    }
}

proof fn lemma_lens_sum_push(lens: Seq<usize>, len: usize, k: int)
    requires
        0 <= k <= lens.len(),
    ensures
        lens_sum(lens.push(len), k) == lens_sum(lens, k),
    decreases k,
{
    if k > 0 {
        lemma_lens_sum_push(lens, len, k - 1);
    }
}

impl<T: Copy> CompressedRows<T> {
    /// Every row, in order.
    pub fn iter_rows(&self) -> (r: Vec<&[T]>)
        requires
            self.wf(),
        ensures
            r@.len() == self@.len(),
            forall|k: int| 0 <= k < r@.len() ==> (#[trigger] r@[k])@ == self@[k],
    {
        let data = self.data.as_slice();
        let offsets = self.offsets.as_slice();
        let total = data.len();
        let mut r: Vec<&[T]> = Vec::new();
        let mut begin: usize = 0;
        let mut k: usize = 0;
        while k < offsets.len()
            invariant
                total == data@.len(),
                data@ == self.data@,
                offsets@ == self.offsets@,
                self.wf(),
                k <= offsets@.len(),
                begin == lens_sum(offsets@, k as int),
                r@.len() == k,
                forall|j: int| 0 <= j < k ==> (#[trigger] r@[j])@ == self@[j],
            decreases offsets@.len() - k,
        {
            proof {
                lemma_lens_sum_monotonic(offsets@, (k + 1) as int, offsets@.len() as int);
            }
            let end = begin + offsets[k];
            r.push(&data[begin..end]);
            begin = end;
            k = k + 1;
        }
        r
    }

    /// Appends a row with the elements of `slice`.
    pub fn push_row_from_copyable_slice(&mut self, slice: &[T]) -> (r: Result<(), Error>)
        requires
            old(self).wf(),
        ensures
            final(self).wf(),
            r is Ok ==> final(self)@ == old(self)@.push(slice@),
            r is Err ==> final(self)@ == old(self)@,
            r matches Err(e) ==> e == Error::VectorError(VectorError::ReserveOverflow),
    {
        let ghost prev = *self;
        let data_len = self.data.len();
        if let Err(e) = self.data.extend_from_copyable_slice(slice) {
            return Err(e);
        }
        if let Err(e) = self.offsets.push(slice.len()) {
            self.data.truncate(data_len);
            assert(self.data@ =~= prev.data@);
            return Err(e);
        }
        proof {
            let lens = prev.offsets@;
            let n = lens.len() as int;
            assert(self.offsets@ == lens.push(slice@.len() as usize));
            assert forall|k: int| 0 <= k <= n implies lens_sum(self.offsets@, k) == lens_sum(lens, k) by {
                lemma_lens_sum_push(lens, slice@.len() as usize, k);
            }
            assert(lens_sum(self.offsets@, n + 1) == lens_sum(lens, n) + slice@.len());
            assert forall|k: int| 0 <= k < self@.len() implies #[trigger] self@[k] == prev@.push(slice@)[k] by {
                if k < n {
                    lemma_lens_sum_monotonic(lens, k + 1, n);
                    assert(self.data@.subrange(lens_sum(lens, k) as int, lens_sum(lens, k + 1) as int)
                        =~= prev.data@.subrange(lens_sum(lens, k) as int, lens_sum(lens, k + 1) as int));
                } else {
                    assert(self.data@.subrange(lens_sum(lens, n) as int, (lens_sum(lens, n) + slice@.len()) as int)
                        =~= slice@);
                }
            }
            assert(self@ =~= prev@.push(slice@));
        }
        Ok(())
    }
}

impl<T> Default for CompressedRows<T> {
    fn default() -> (r: Self)
        ensures
            r.wf(),
            r@ == Seq::<Seq<T>>::empty(),
    {
        Self::new()
    }
}

} // verus!
