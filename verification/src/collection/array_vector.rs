use crate::collection::slices::{concat, reversed, slices_view};
use crate::collection::{ExpansionTy, LinearStorageLen};
use crate::collections::ArrayVectorInner;
use crate::error::Error;
use vstd::prelude::*;

verus! {

/// Errors of [`ArrayVector`].
#[derive(Clone, Copy, Debug, PartialEq, Eq, Structural)]
pub enum ArrayVectorError {
    /// Inner array is not totally full
    IntoInnerIncomplete,
    /// There is no room for the requested elements.
    ReserveOverflow,
}

/// Storage backed by an array of at most `N` elements whose length is held by an `L`.
#[derive(Clone)]
pub struct ArrayVector<L, T, const N: usize>(ArrayVectorInner<L, T, N>);

impl<L: LinearStorageLen, T, const N: usize> View for ArrayVector<L, T, N> {
    type V = Seq<T>;

    closed spec fn view(&self) -> Seq<T> {
        self.0@
    }
}

impl<L: LinearStorageLen, T, const N: usize> ArrayVector<L, T, N> {
    /// The length agrees with the elements, which never exceed `N`, and `N` respects the upper
    /// bound of `L`.
    pub closed spec fn wf(&self) -> bool {
        self.0.wf()
    }

    /// Constructs a new empty instance.
    pub fn new() -> (r: Self)
        requires
            N <= L::upper_bound(),
        ensures
            r.wf(),
            r@ == Seq::<T>::empty(),
    {
        ArrayVector(ArrayVectorInner::new())
    }

    /// Constructs a new instance by pushing each element of `iter`, in order.
    pub fn from_iter(iter: Vec<T>) -> (r: Result<Self, Error>)
        requires
            N <= L::upper_bound(),
        ensures
            (iter@.len() <= N) == (r is Ok),
            r matches Ok(v) ==> v.wf() && v@ == iter@,
            r matches Err(e) ==> e == Error::ArrayVectorError(ArrayVectorError::ReserveOverflow),
    {
        let mut this = Self::new();
        this.extend_from_iter(iter)?;
        assert(Seq::<T>::empty() + iter@ =~= iter@);
        Ok(this)
    }

    /// Extracts a slice containing the entire instance.
    pub fn as_slice(&self) -> (r: &[T])
        ensures
            r@ == self@,
    {
        self.0.as_slice()
    }

    /// Extracts a mutable slice containing the entire instance.
    pub fn as_slice_mut(&mut self) -> (r: &mut [T])
        requires
            old(self).wf(),
        ensures
            r@ == old(self)@,
            final(self)@ == final(r)@,
            final(self)@.len() == old(self)@.len() ==> final(self).wf(),
    {
        self.0.as_slice_mut()
    }

    /// Returns the total number of elements the instance can hold, `N`.
    pub fn capacity(&self) -> (r: L)
        requires
            self.wf(),
        ensures
            r.as_nat() == N,
    {
        self.0.capacity()
    }

    /// Clears the instance, removing all values.
    pub fn clear(&mut self)
        requires
            old(self).wf(),
        ensures
            final(self).wf(),
            final(self)@ == Seq::<T>::empty(),
    {
        self.0.clear();
    }

    /// Appends the elements of `iter`, in order, stopping at the first one that does not fit.
    pub fn extend_from_iter(&mut self, iter: Vec<T>) -> (r: Result<(), Error>)
        requires
            old(self).wf(),
        ensures
            final(self).wf(),
            (old(self)@.len() + iter@.len() <= N) == (r is Ok),
            r is Ok ==> final(self)@ == old(self)@ + iter@,
            r is Err ==> final(self)@ == old(self)@ + iter@.take(N - old(self)@.len()),
            r matches Err(e) ==> e == Error::ArrayVectorError(ArrayVectorError::ReserveOverflow),
    {
        self.0.extend_from_iter(iter)
    }

    /// Returns the number of elements in the storage, also referred to as its ‘length’.
    pub fn len(&self) -> (r: L)
        requires
            self.wf(),
        ensures
            r.as_nat() == self@.len(),
    {
        self.0.len()
    }

    /// Turns the instance into an iterator that hands its elements out by value.
    pub fn into_iter(self) -> (r: ArrayIntoIter<L, T, N>)
        requires
            self.wf(),
        ensures
            r.wf(),
            r@ == self@,
            r.taken() == 0,
    {
        let ArrayVector(inner) = self;
        let data = inner.into_vec();
        let r = ArrayIntoIter { idx: L::zero(), rest: reversed(data) };
        assert(r@ =~= data@);
        r
    }

    /// Removes the last element and returns it, or `None` if it is empty.
    pub fn pop(&mut self) -> (r: Option<T>)
        requires
            old(self).wf(),
        ensures
            final(self).wf(),
            old(self)@.len() == 0 ==> r is None && final(self)@ == old(self)@,
            old(self)@.len() > 0 ==> r == Some(old(self)@.last()) && final(self)@ == old(self)@.drop_last(),
    {
        self.0.pop()
    }

    /// Appends an element to the back of the collection.
    pub fn push(&mut self, elem: T) -> (r: Result<(), Error>)
        requires
            old(self).wf(),
        ensures
            final(self).wf(),
            (old(self)@.len() < N) == (r is Ok),
            r is Ok ==> final(self)@ == old(self)@.push(elem),
            r is Err ==> final(self)@ == old(self)@,
            r matches Err(e) ==> e == Error::ArrayVectorError(ArrayVectorError::ReserveOverflow),
    {
        self.0.push(elem)
    }

    /// How many elements can be added to this collection.
    pub fn remaining(&self) -> (r: L)
        requires
            self.wf(),
        ensures
            r.as_nat() == N - self@.len(),
    {
        self.0.remaining()
    }

    /// Removes and returns the element at position `index`, shifting all elements after it to
    /// the left.
    pub fn remove(&mut self, index: L) -> (r: Option<T>)
        requires
            old(self).wf(),
        ensures
            final(self).wf(),
            index.as_nat() >= old(self)@.len() ==> r is None && final(self)@ == old(self)@,
            index.as_nat() < old(self)@.len() ==> r == Some(old(self)@[index.as_nat() as int])
                && final(self)@ == old(self)@.remove(index.as_nat() as int),
    {
        self.0.remove(index)
    }

    /// Shortens the instance, keeping the first `new_len` elements and dropping the rest.
    pub fn truncate(&mut self, new_len: L)
        requires
            old(self).wf(),
        ensures
            final(self).wf(),
            new_len.as_nat() >= old(self)@.len() ==> final(self)@ == old(self)@,
            new_len.as_nat() < old(self)@.len() ==> final(self)@ == old(self)@.take(
                new_len.as_nat() as int,
            ),
    {
        self.0.truncate(new_len)
    }

}

impl<L: LinearStorageLen, T: Clone, const N: usize> ArrayVector<L, T, N> {
    /// Constructs a new instance with `len` clones of `value`.
    pub fn from_cloneable_elem(len: usize, value: T) -> (r: Result<Self, Error>)
        requires
            N <= L::upper_bound(),
        ensures
            (len <= N) == (r is Ok),
            r matches Ok(v) ==> v.wf() && v@.len() == len && forall|i: int|
                0 <= i < len ==> cloned(value, #[trigger] v@[i]),
            r matches Err(e) ==> (len > L::type_max() ==> e == Error::OutOfBoundsArithmetic) && (len
                <= L::type_max() ==> e == Error::ArrayVectorError(ArrayVectorError::ReserveOverflow)),
    {
        let mut this = Self::new();
        proof {
            L::lemma_bounds(this.0.len);
        }
        this.expand(ExpansionTy::Len(len), value)?;
        Ok(this)
    }

    /// Creates a new instance from the cloneable elements of `slice`.
    pub fn from_cloneable_slice(slice: &[T]) -> (r: Result<Self, Error>)
        requires
            N <= L::upper_bound(),
        ensures
            (slice@.len() <= N) == (r is Ok),
            r matches Ok(v) ==> v.wf() && v@.len() == slice@.len() && forall|i: int|
                0 <= i < slice@.len() ==> cloned(slice@[i], #[trigger] v@[i]),
            r matches Err(e) ==> e == Error::ArrayVectorError(ArrayVectorError::ReserveOverflow),
    {
        let mut this = Self::new();
        this.extend_from_cloneable_slice(slice)?;
        assert forall|i: int| 0 <= i < slice@.len() implies cloned(slice@[i], #[trigger] this@[i]) by {
            assert(this@[0 + i] == this@[i]);
        }
        Ok(this)
    }


    /// Resizes the instance in-place so that the current length is equal to what `et` asks,
    /// filling the new slots with clones of `value`. Does nothing if the calculated length is
    /// equal or less than the current length.
    pub fn expand(&mut self, et: ExpansionTy, value: T) -> (r: Result<(), Error>)
        requires
            old(self).wf(),
        ensures
            final(self).wf(),
            et.spec_params(old(self)@.len()) is None ==> r is Ok && final(self)@ == old(self)@,
            et.spec_params(old(self)@.len()) matches Some((additional, new_len)) ==> {
                &&& (additional <= L::type_max() && new_len <= L::type_max() && new_len <= N)
                    == (r is Ok)
                &&& r is Ok ==> {
                    &&& final(self)@.len() == new_len
                    &&& final(self)@.take(old(self)@.len() as int) == old(self)@
                    &&& forall|i: int|
                        old(self)@.len() <= i < new_len ==> cloned(value, #[trigger] final(self)@[i])
                }
                &&& r matches Err(e) ==> {
                    &&& (additional > L::type_max() || new_len > L::type_max()) ==> e
                        == Error::OutOfBoundsArithmetic
                    &&& (additional <= L::type_max() && new_len <= L::type_max()) ==> e
                        == Error::ArrayVectorError(ArrayVectorError::ReserveOverflow)
                }
            },
            r is Err ==> final(self)@ == old(self)@,
    {
        self.0.expand(et, value)
    }

    /// Clones each element of `other`, in order, and appends it, stopping at the first one
    /// that does not fit.
    pub fn extend_from_cloneable_slice(&mut self, other: &[T]) -> (r: Result<(), Error>)
        requires
            old(self).wf(),
        ensures
            final(self).wf(),
            (old(self)@.len() + other@.len() <= N) == (r is Ok),
            final(self)@.take(old(self)@.len() as int) == old(self)@,
            r is Ok ==> final(self)@.len() == old(self)@.len() + other@.len(),
            r is Err ==> final(self)@.len() == N,
            forall|i: int|
                0 <= i < final(self)@.len() - old(self)@.len() ==> cloned(
                    other@[i],
                    #[trigger] final(self)@[old(self)@.len() + i],
                ),
            r matches Err(e) ==> e == Error::ArrayVectorError(ArrayVectorError::ReserveOverflow),
    {
        self.0.extend_from_cloneable_slice(other)
    }

}

impl<L: LinearStorageLen, T: Copy, const N: usize> ArrayVector<L, T, N> {
    /// Creates a new instance from the copyable elements of `slice`.
    pub fn from_copyable_slice(slice: &[T]) -> (r: Result<Self, Error>)
        requires
            N <= L::upper_bound(),
        ensures
            (slice@.len() <= N) == (r is Ok),
            r matches Ok(v) ==> v.wf() && v@ == slice@,
            r matches Err(e) ==> (slice@.len() > L::type_max() ==> e == Error::OutOfBoundsArithmetic)
                && (slice@.len() <= L::type_max() ==> e == Error::ArrayVectorError(
                ArrayVectorError::ReserveOverflow,
            )),
    {
        let mut this = Self::new();
        proof {
            L::lemma_bounds(this.0.len);
        }
        this.extend_from_copyable_slice(slice)?;
        assert(Seq::<T>::empty() + slice@ =~= slice@);
        Ok(this)
    }

    /// Copies each element of `other`, in order, and appends it, or changes nothing where they
    /// do not fit.
    pub fn extend_from_copyable_slice(&mut self, other: &[T]) -> (r: Result<(), Error>)
        requires
            old(self).wf(),
        ensures
            final(self).wf(),
            other@.len() > L::type_max() ==> r == Err::<(), Error>(Error::OutOfBoundsArithmetic),
            other@.len() <= L::type_max() && other@.len() > N - old(self)@.len() ==> r == Err::<
                (),
                Error,
            >(Error::ArrayVectorError(ArrayVectorError::ReserveOverflow)),
            other@.len() <= L::type_max() && other@.len() <= N - old(self)@.len() ==> r is Ok,
            r is Ok ==> final(self)@ == old(self)@ + other@,
            r is Err ==> final(self)@ == old(self)@,
    {
        self.0.extend_from_copyable_slice(other)
    }

    /// Copies the elements of every slice of `others`, in order, and appends them, or changes
    /// nothing where they do not fit. Returns the number of elements appended.
    pub fn extend_from_copyable_slices(&mut self, others: &[&[T]]) -> (r: Result<L, Error>)
        requires
            old(self).wf(),
        ensures
            final(self).wf(),
            ({
                let total = concat(slices_view(others@)).len();
                &&& total > L::type_max() ==> r == Err::<L, Error>(Error::OutOfBoundsArithmetic)
                &&& total <= L::type_max() && total > N - old(self)@.len() ==> r == Err::<
                    L,
                    Error,
                >(Error::ArrayVectorError(ArrayVectorError::ReserveOverflow))
                &&& total <= L::type_max() && total <= N - old(self)@.len() ==> r is Ok
                &&& r matches Ok(n) ==> n.as_nat() == total && final(self)@ == old(self)@
                    + concat(slices_view(others@))
            }),
            r is Err ==> final(self)@ == old(self)@,
    {
        self.0.extend_from_copyable_slices(others)
    }

}

/// A by-value array iterator.
pub struct ArrayIntoIter<L, T, const N: usize> {
    idx: L,
    rest: Vec<T>,
}

impl<L: LinearStorageLen, T, const N: usize> View for ArrayIntoIter<L, T, N> {
    type V = Seq<T>;

    /// The elements that are left, front to back.
    closed spec fn view(&self) -> Seq<T> {
        self.rest@.reverse()
    }
}

impl<L: LinearStorageLen, T, const N: usize> ArrayIntoIter<L, T, N> {
    /// How many elements were taken from the front.
    pub closed spec fn taken(&self) -> nat {
        self.idx.as_nat()
    }

    /// The taken and the remaining elements fit in `N`, which respects the bound of `L`.
    pub closed spec fn wf(&self) -> bool {
        &&& self.idx.as_nat() + self.rest@.len() <= N
        &&& N <= L::upper_bound()
    }

    /// The number of elements that are left.
    pub fn len(&self) -> (r: usize)
        ensures
            r == self@.len(),
    {
        self.rest.len()
    }

    /// Removes and returns the first element that is left, or `None` where none is.
    pub fn next(&mut self) -> (r: Option<T>)
        requires
            old(self).wf(),
        ensures
            final(self).wf(),
            old(self)@.len() == 0 ==> r is None && final(self)@ == old(self)@
                && final(self).taken() == old(self).taken(),
            old(self)@.len() > 0 ==> r == Some(old(self)@[0]) && final(self)@ == old(self)@.drop_first()
                && final(self).taken() == old(self).taken() + 1,
    {
        if self.rest.len() == 0 {
            return None;
        }
        let one = L::one();
        proof {
            self.idx.lemma_bounds();
        }
        self.idx = self.idx.wrapping_add(one);
        let r = self.rest.pop();
        proof {
            assert(self@ =~= old(self)@.drop_first());
        }
        r
    }

    /// Removes and returns the last element that is left, or `None` where none is.
    pub fn next_back(&mut self) -> (r: Option<T>)
        requires
            old(self).wf(),
        ensures
            final(self).wf(),
            final(self).taken() == old(self).taken(),
            old(self)@.len() > 0 ==> r == Some(old(self)@.last()) && final(self)@ == old(self)@.drop_last(),
            old(self)@.len() == 0 ==> r is None && final(self)@ == old(self)@,
    {
        let len = self.rest.len();
        if len == 0 {
            return None;
        }
        let r = self.rest.remove(0);
        proof {
            assert(self@ =~= old(self)@.drop_last());
        }
        Some(r)
    }
}

} // verus!
