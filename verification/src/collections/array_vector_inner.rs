use crate::collection::slices::{concat, lemma_concat_push, slices_view, total_len};
use crate::collection::{ArrayVectorError, ExpansionTy, LinearStorageLen};
use crate::error::Error;
use vstd::prelude::*;

verus! {

/// Storage of at most `N` elements whose length is held by an `L`.
#[derive(Clone)]
pub(crate) struct ArrayVectorInner<L, T, const N: usize> {
    pub(crate) len: L,
    pub(crate) data: Vec<T>,
}

impl<L: LinearStorageLen, T, const N: usize> View for ArrayVectorInner<L, T, N> {
    type V = Seq<T>;

    closed spec fn view(&self) -> Seq<T> {
        self.data@
    }
}

impl<L: LinearStorageLen, T, const N: usize> ArrayVectorInner<L, T, N> {
    /// The length agrees with the elements, which never exceed `N`, and `N` respects the upper
    /// bound of `L`.
    pub(crate) closed spec fn wf(&self) -> bool {
        &&& self.len.as_nat() == self.data@.len()
        &&& self.data@.len() <= N
        &&& N <= L::upper_bound()
    }

    /// The error that every operation reports when there is no room.
    pub(crate) open spec fn reserve_error() -> Error {
        Error::ArrayVectorError(ArrayVectorError::ReserveOverflow)
    }

    /// Constructs a new empty instance.
    pub(crate) fn new() -> (r: Self)
        requires
            N <= L::upper_bound(),
        ensures
            r.wf(),
            r@ == Seq::<T>::empty(),
    {
        ArrayVectorInner { len: L::zero(), data: Vec::new() }
    }

    /// The elements, as a vector of their own.
    pub(crate) fn into_vec(self) -> (r: Vec<T>)
        requires
            self.wf(),
        ensures
            r@ == self@,
            r@.len() <= N,
            N <= L::upper_bound(),
    {
        self.data
    }

    /// The capacity, `N`.
    pub(crate) fn capacity(&self) -> (r: L)
        requires
            self.wf(),
        ensures
            r.as_nat() == N,
    {
        proof {
            self.len.lemma_bounds();
        }
        match L::from_usize(N) {
            Ok(n) => n,
            Err(_) => self.len,
        }
    }

    /// How many elements can still be added.
    pub(crate) fn remaining(&self) -> (r: L)
        requires
            self.wf(),
        ensures
            r.as_nat() == N - self@.len(),
    {
        proof {
            self.len.lemma_bounds();
        }
        match L::from_usize(N - self.data.len()) {
            Ok(n) => n,
            Err(_) => self.len,
        }
    }

    /// The number of elements.
    pub(crate) fn len(&self) -> (r: L)
        requires
            self.wf(),
        ensures
            r.as_nat() == self@.len(),
    {
        self.len
    }

    /// The elements.
    pub(crate) fn as_slice(&self) -> (r: &[T])
        ensures
            r@ == self@,
    {
        self.data.as_slice()
    }

    /// The elements, which may be changed in place.
    pub(crate) fn as_slice_mut(&mut self) -> (r: &mut [T])
        ensures
            r@ == old(self)@,
            final(self)@ == final(r)@,
            final(self).len == old(self).len,
            old(self).wf() && final(self)@.len() == old(self)@.len() ==> final(self).wf(),
    {
        self.data.as_mut_slice()
    }

    /// Fails unless `additional` more elements fit.
    pub(crate) fn reserve(&self, additional: L) -> (r: Result<(), Error>)
        requires
            self.wf(),
        ensures
            (additional.as_nat() <= N - self@.len()) == (r is Ok),
            r matches Err(e) ==> e == Self::reserve_error(),
    {
        if additional.usize() > N - self.data.len() {
            return Err(Error::ArrayVectorError(ArrayVectorError::ReserveOverflow));
        }
        Ok(())
    }

    /// Removes all elements.
    pub(crate) fn clear(&mut self)
        requires
            old(self).wf(),
        ensures
            final(self).wf(),
            final(self)@ == Seq::<T>::empty(),
    {
        self.data.clear();
        self.len = L::zero();
    }

    /// Appends an element.
    pub(crate) fn push(&mut self, elem: T) -> (r: Result<(), Error>)
        requires
            old(self).wf(),
        ensures
            final(self).wf(),
            (old(self)@.len() < N) == (r is Ok),
            r is Ok ==> final(self)@ == old(self)@.push(elem),
            r is Err ==> final(self)@ == old(self)@,
            r matches Err(e) ==> e == Self::reserve_error(),
    {
        self.reserve(L::one())?;
        self.data.push(elem);
        proof {
            self.len.lemma_bounds();
        }
        self.len = self.len.wrapping_add(L::one());
        Ok(())
    }

    /// Appends the elements of `iter`, in order, stopping at the first one that does not fit.
    pub(crate) fn extend_from_iter(&mut self, iter: Vec<T>) -> (r: Result<(), Error>)
        requires
            old(self).wf(),
        ensures
            final(self).wf(),
            (old(self)@.len() + iter@.len() <= N) == (r is Ok),
            r is Ok ==> final(self)@ == old(self)@ + iter@,
            r is Err ==> final(self)@ == old(self)@ + iter@.take(N - old(self)@.len()),
            r matches Err(e) ==> e == Self::reserve_error(),
    {
        let mut reversed: Vec<T> = Vec::new();
        let mut rest = iter;
        while rest.len() > 0
            invariant
                rest@ + reversed@.reverse() == iter@,
            decreases rest@.len(),
        {
            let ghost before = rest@;
            let ghost rev_before = reversed@;
            match rest.pop() {
                Some(elem) => {
                    reversed.push(elem);
                    assert(reversed@.reverse() =~= seq![elem] + rev_before.reverse());
                    assert(rest@ + reversed@.reverse() =~= before + rev_before.reverse());
                },
                None => {},
            }
        }
        assert(rest@ =~= Seq::<T>::empty());
        let ghost start = old(self)@.len();
        while reversed.len() > 0
            invariant
                self.wf(),
                self@ + reversed@.reverse() == old(self)@ + iter@,
                self@.len() + reversed@.len() == start + iter@.len(),
                start == old(self)@.len(),
                start <= self@.len(),
                self@ == old(self)@ + iter@.take(self@.len() - start),
            decreases reversed@.len(),
        {
            let ghost rev_before = reversed@;
            let ghost self_before = self@;
            match reversed.pop() {
                Some(elem) => {
                    assert(rev_before.reverse() =~= seq![elem] + reversed@.reverse());
                    assert((old(self)@ + iter@)[self_before.len() as int] == elem);
                    match self.push(elem) {
                        Ok(()) => {},
                        Err(e) => {
                            assert(self@ =~= old(self)@ + iter@.take(N - start));
                            return Err(e);
                        },
                    }
                    assert(self@ + reversed@.reverse() =~= self_before + rev_before.reverse());
                    assert(self@ =~= old(self)@ + iter@.take(self@.len() - start));
                },
                None => {},
            }
        }
        assert(self@ =~= old(self)@ + iter@);
        Ok(())
    }

    /// Removes the last element.
    pub(crate) fn pop(&mut self) -> (r: Option<T>)
        requires
            old(self).wf(),
        ensures
            final(self).wf(),
            old(self)@.len() == 0 ==> r is None && final(self)@ == old(self)@,
            old(self)@.len() > 0 ==> r == Some(old(self)@.last()) && final(self)@ == old(self)@.drop_last(),
    {
        if self.data.len() == 0 {
            return None;
        }
        let r = self.data.pop();
        proof {
            self.len.lemma_bounds();
        }
        self.len = self.len.wrapping_sub(L::one());
        r
    }

    /// Removes the element at `index`, shifting the following ones to the left.
    pub(crate) fn remove(&mut self, index: L) -> (r: Option<T>)
        requires
            old(self).wf(),
        ensures
            final(self).wf(),
            index.as_nat() >= old(self)@.len() ==> r is None && final(self)@ == old(self)@,
            index.as_nat() < old(self)@.len() ==> r == Some(old(self)@[index.as_nat() as int])
                && final(self)@ == old(self)@.remove(index.as_nat() as int),
    {
        let idx = index.usize();
        if idx >= self.data.len() {
            return None;
        }
        let r = self.data.remove(idx);
        proof {
            self.len.lemma_bounds();
        }
        self.len = self.len.wrapping_sub(L::one());
        Some(r)
    }

    /// Keeps the first `new_len` elements.
    pub(crate) fn truncate(&mut self, new_len: L)
        requires
            old(self).wf(),
        ensures
            final(self).wf(),
            new_len.as_nat() >= old(self)@.len() ==> final(self)@ == old(self)@,
            new_len.as_nat() < old(self)@.len() ==> final(self)@ == old(self)@.take(
                new_len.as_nat() as int,
            ),
    {
        if new_len.usize() >= self.data.len() {
            return;
        }
        self.data.truncate(new_len.usize());
        self.len = new_len;
    }

    /// The elements, where all `N` are present.
    pub(crate) fn as_inner(&self) -> (r: Result<&Vec<T>, Error>)
        requires
            self.wf(),
        ensures
            (self@.len() == N) == (r is Ok),
            r matches Ok(v) ==> v@ == self@,
            r matches Err(e) ==> e == Error::ArrayVectorError(ArrayVectorError::IntoInnerIncomplete),
    {
        if self.len.usize() != N {
            return Err(Error::ArrayVectorError(ArrayVectorError::IntoInnerIncomplete));
        }
        Ok(&self.data)
    }

    /// The elements, where all `N` are present.
    pub(crate) fn into_inner(self) -> (r: Result<Vec<T>, Error>)
        requires
            self.wf(),
        ensures
            (self@.len() == N) == (r is Ok),
            r matches Ok(v) ==> v@ == self@,
            r matches Err(e) ==> e == Error::ArrayVectorError(ArrayVectorError::IntoInnerIncomplete),
    {
        if self.len.usize() < N {
            return Err(Error::ArrayVectorError(ArrayVectorError::IntoInnerIncomplete));
        }
        Ok(self.data)
    }
}

impl<L: LinearStorageLen, T: Clone, const N: usize> ArrayVectorInner<L, T, N> {
    /// Grows to the length that `et` asks, filling the new slots with clones of `value`.
    pub(crate) fn expand(&mut self, et: ExpansionTy, value: T) -> (r: Result<(), Error>)
        requires
            old(self).wf(),
        ensures
            final(self).wf(),
            et.spec_params(old(self)@.len()) is None ==> r is Ok && final(self)@ == old(self)@,
            et.spec_params(old(self)@.len()) matches Some((additional, new_len)) ==> {
                &&& (additional <= L::type_max() && new_len <= L::type_max() && new_len <= N)
                    == (r is Ok)
                &&& r is Ok ==> {
                    &&& final(self)@.len() == new_len
                    &&& final(self)@.take(old(self)@.len() as int) == old(self)@
                    &&& forall|i: int|
                        old(self)@.len() <= i < new_len ==> cloned(value, #[trigger] final(self)@[i])
                }
                &&& r matches Err(e) ==> {
                    &&& (additional > L::type_max() || new_len > L::type_max()) ==> e
                        == Error::OutOfBoundsArithmetic
                    &&& (additional <= L::type_max() && new_len <= L::type_max()) ==> e
                        == Self::reserve_error()
                }
            },
            r is Err ==> final(self)@ == old(self)@,
    {
        let len = self.data.len();
        let (additional_usize, new_len_usize) = match et.params(len) {
            Some(elem) => elem,
            None => return Ok(()),
        };
        let additional = L::from_usize(additional_usize)?;
        let new_len = L::from_usize(new_len_usize)?;
        self.reserve(additional)?;
        let mut idx: usize = 0;
        while idx < additional_usize
            invariant
                idx <= additional_usize,
                additional_usize + len == new_len_usize,
                new_len_usize <= N,
                self.data@.len() == len + idx,
                self.data@.take(len as int) == old(self)@,
                old(self)@.len() == len,
                forall|i: int| len <= i < len + idx ==> cloned(value, #[trigger] self.data@[i]),
            decreases additional_usize - idx,
        {
            let ghost before = self.data@;
            self.data.push(value.clone());
            assert(self.data@.take(len as int) =~= before.take(len as int));
            idx = idx + 1;
        }
        self.len = new_len;
        Ok(())
    }

    /// Clones each element of `other`, in order, and appends it, stopping at the first one
    /// that does not fit.
    pub(crate) fn extend_from_cloneable_slice(&mut self, other: &[T]) -> (r: Result<(), Error>)
        requires
            old(self).wf(),
        ensures
            final(self).wf(),
            (old(self)@.len() + other@.len() <= N) == (r is Ok),
            final(self)@.take(old(self)@.len() as int) == old(self)@,
            r is Ok ==> final(self)@.len() == old(self)@.len() + other@.len(),
            r is Err ==> final(self)@.len() == N,
            forall|i: int|
                0 <= i < final(self)@.len() - old(self)@.len() ==> cloned(
                    other@[i],
                    #[trigger] final(self)@[old(self)@.len() + i],
                ),
            r matches Err(e) ==> e == Self::reserve_error(),
    {
        let len = self.data.len();
        let mut idx: usize = 0;
        while idx < other.len()
            invariant
                self.wf(),
                idx <= other@.len(),
                self@.len() == len + idx,
                self@.take(len as int) == old(self)@,
                old(self)@.len() == len,
                forall|i: int| 0 <= i < idx ==> cloned(other@[i], #[trigger] self@[len + i]),
            decreases other@.len() - idx,
        {
            let ghost before = self@;
            self.push(other[idx].clone())?;
            assert(self@.take(len as int) =~= before.take(len as int));
            idx = idx + 1;
        }
        Ok(())
    }
}

impl<L: LinearStorageLen, T: Copy, const N: usize> ArrayVectorInner<L, T, N> {
    /// Copies the elements of every slice of `others`, in order, and appends them, or changes
    /// nothing where they do not fit. Returns the number of elements appended.
    pub(crate) fn extend_from_copyable_slices(&mut self, others: &[&[T]]) -> (r: Result<L, Error>)
        requires
            old(self).wf(),
        ensures
            final(self).wf(),
            ({
                let total = concat(slices_view(others@)).len();
                &&& total > L::type_max() ==> r == Err::<L, Error>(Error::OutOfBoundsArithmetic)
                &&& total <= L::type_max() && total > N - old(self)@.len() ==> r == Err::<
                    L,
                    Error,
                >(Self::reserve_error())
                &&& total <= L::type_max() && total <= N - old(self)@.len() ==> r is Ok
                &&& r matches Ok(n) ==> n.as_nat() == total && final(self)@ == old(self)@
                    + concat(slices_view(others@))
            }),
            r is Err ==> final(self)@ == old(self)@,
    {
        let others_len_usize = match total_len(others) {
            Some(n) => n,
            None => {
                proof {
                    L::lemma_bounds(self.len);
                }
                return Err(Error::OutOfBoundsArithmetic);
            },
        };
        let others_len = L::from_usize(others_len_usize)?;
        self.reserve(others_len)?;
        let ghost ss = slices_view(others@);
        let mut k: usize = 0;
        while k < others.len()
            invariant
                k <= others@.len(),
                ss == slices_view(others@),
                self.data@ == old(self)@ + concat(ss.take(k as int)),
                self.len == old(self).len,
            decreases others@.len() - k,
        {
            let other = others[k];
            proof {
                lemma_concat_push(ss, k as int);
            }
            let mut j: usize = 0;
            while j < other.len()
                invariant
                    j <= other@.len(),
                    k < others@.len(),
                    other@ == ss[k as int],
                    self.data@ == old(self)@ + concat(ss.take(k as int)) + other@.take(j as int),
                    self.len == old(self).len,
                decreases other@.len() - j,
            {
                self.data.push(other[j]);
                assert(other@.take(j + 1) =~= other@.take(j as int).push(other@[j as int]));
                assert(self.data@ =~= old(self)@ + concat(ss.take(k as int)) + other@.take(j + 1));
                j = j + 1;
            }
            assert(other@.take(j as int) =~= other@);
            assert(self.data@ =~= old(self)@ + concat(ss.take(k + 1)));
            k = k + 1;
        }
        assert(ss.take(k as int) =~= ss);
        proof {
            self.len.lemma_bounds();
        }
        self.len = self.len.wrapping_add(others_len);
        Ok(others_len)
    }

    /// Copies each element of `other`, in order, and appends it, or changes nothing where they
    /// do not fit.
    pub(crate) fn extend_from_copyable_slice(&mut self, other: &[T]) -> (r: Result<(), Error>)
        requires
            old(self).wf(),
        ensures
            final(self).wf(),
            other@.len() > L::type_max() ==> r == Err::<(), Error>(Error::OutOfBoundsArithmetic),
            other@.len() <= L::type_max() && other@.len() > N - old(self)@.len() ==> r == Err::<
                (),
                Error,
            >(Self::reserve_error()),
            other@.len() <= L::type_max() && other@.len() <= N - old(self)@.len() ==> r is Ok,
            r is Ok ==> final(self)@ == old(self)@ + other@,
            r is Err ==> final(self)@ == old(self)@,
    {
        let mut others: Vec<&[T]> = Vec::new();
        others.push(other);
        proof {
            let ss = slices_view(others@);
            assert(ss =~= seq![other@]);
            assert(ss.drop_last() =~= Seq::<Seq<T>>::empty());
            assert(concat(ss.drop_last()) =~= Seq::<T>::empty());
            assert(concat(ss) =~= other@);
        }
        let _ = self.extend_from_copyable_slices(others.as_slice())?;
        Ok(())
    }
}

} // verus!
