use crate::collection::linear_storage_len::LinearStorageLen;
use crate::collection::slices::{concat, lemma_concat_push, slices_view, total_len};
use crate::error::Error;
use vstd::prelude::*;

verus! {

/// [`Uninit`] with a capacity limited by `u8`.
pub type UninitU8<'data, T> = Uninit<'data, u8, T>;

/// [`Uninit`] with a capacity limited by `u16`.
pub type UninitU16<'data, T> = Uninit<'data, u16, T>;

/// [`Uninit`] with a capacity limited by `u32`.
pub type UninitU32<'data, T> = Uninit<'data, u32, T>;

/// [`Uninit`] with a capacity limited by `usize`.
pub type UninitUsize<'data, T> = Uninit<'data, usize, T>;

/// Errors of [`Uninit`].
#[derive(Clone, Copy, Debug, PartialEq, Eq, Structural)]
pub enum UninitError {
    /// There is no room for the requested elements.
    ReserveOverflow,
}

/// A collection that lives in a buffer borrowed from the caller: its elements are the first `len`
/// slots of the buffer, the other slots are free to be overwritten.
pub struct Uninit<'data, L, T> {
    len: L,
    data: &'data mut [T],
}

/// The number of slots of a buffer of `slots` that an `L` can count.
pub open spec fn uninit_capacity<L: LinearStorageLen>(slots: nat) -> nat {
    if slots <= L::type_max() {
        slots
    } else {
        L::upper_bound()
    }
}

impl<'data, L: LinearStorageLen, T> Uninit<'data, L, T> {
    /// The elements.
    pub closed spec fn view(&self) -> Seq<T> {
        self.data@.take(self.len.as_nat() as int)
    }

    /// How many elements fit.
    pub closed spec fn spec_capacity(&self) -> nat {
        uninit_capacity::<L>(self.data@.len())
    }

    /// The elements lie within the part of the buffer that the length type can count.
    pub closed spec fn wf(&self) -> bool {
        self.len.as_nat() <= self.spec_capacity()
    }

    /// The error that every operation reports when there is no room.
    pub open spec fn reserve_error() -> Error {
        Error::UninitError(UninitError::ReserveOverflow)
    }

    /// The elements are as many as the length says, and they fit.
    proof fn lemma_view_len(&self)
        requires
            self.wf(),
        ensures
            self@.len() == self.len.as_nat(),
            self@.len() <= self.spec_capacity(),
    {
        self.len.lemma_bounds();
    }

    /// Creates an empty instance whose elements will be written into `data`.
    pub fn new(data: &'data mut [T]) -> (r: Self)
        ensures
            r.wf(),
            r@ == Seq::<T>::empty(),
            r.spec_capacity() == uninit_capacity::<L>(old(data)@.len()),
    {
        let r = Uninit { len: L::zero(), data };
        assert(r@ =~= Seq::<T>::empty());
        r
    }

    /// The elements.
    pub fn as_slice(&self) -> (r: &[T])
        requires
            self.wf(),
        ensures
            r@ == self@,
    {
        proof {
            self.len.lemma_bounds();
        }
        let len = self.len.usize();
        let (lhs, _) = self.data.split_at(len);
        lhs
    }

    /// Returns the total number of elements the instance can hold.
    pub fn capacity(&self) -> (r: L)
        ensures
            r.as_nat() == self.spec_capacity(),
    {
        match L::from_usize(self.data.len()) {
            Ok(elem) => elem,
            Err(_) => L::upper_bound_len(),
        }
    }

    /// How many elements can still be added.
    pub fn remaining(&self) -> (r: L)
        requires
            self.wf(),
        ensures
            r.as_nat() == self.spec_capacity() - self@.len(),
    {
        proof {
            self.len.lemma_bounds();
        }
        let capacity = self.capacity();
        proof {
            capacity.lemma_bounds();
        }
        match L::from_usize(capacity.usize() - self.len.usize()) {
            Ok(elem) => elem,
            Err(_) => self.len,
        }
    }

    /// Removes all elements.
    pub fn clear(&mut self)
        requires
            old(self).wf(),
        ensures
            final(self).wf(),
            final(self)@ == Seq::<T>::empty(),
            final(self).spec_capacity() == old(self).spec_capacity(),
    {
        self.len = L::zero();
        assert(self@ =~= Seq::<T>::empty());
    }

    /// Returns the number of elements.
    pub fn len(&self) -> (r: L)
        requires
            self.wf(),
        ensures
            r.as_nat() == self@.len(),
    {
        proof {
            self.len.lemma_bounds();
        }
        self.len
    }

    /// Appends `elem` to the end.
    pub fn push(&mut self, elem: T) -> (r: Result<(), Error>)
        requires
            old(self).wf(),
        ensures
            final(self).wf(),
            final(self).spec_capacity() == old(self).spec_capacity(),
            (old(self)@.len() < old(self).spec_capacity()) == (r is Ok),
            r is Ok ==> final(self)@ == old(self)@.push(elem),
            r is Err ==> final(self)@ == old(self)@,
            r matches Err(e) ==> e == Self::reserve_error(),
    {
        proof {
            self.len.lemma_bounds();
        }
        let len = self.len.usize();
        let capacity = self.capacity();
        if len >= capacity.usize() {
            return Err(Error::UninitError(UninitError::ReserveOverflow));
        }
        let ghost prev = self.data@;
        self.data[len] = elem;
        self.len = self.len.wrapping_add(L::one());
        proof {
            assert(self.data@ == prev.update(len as int, elem));
            assert(self@ =~= prev.take(len as int).push(elem));
        }
        Ok(())
    }

    /// Iterates over the slices of `others`, copies each element and appends it, provided that
    /// all of them fit. Returns the number of elements appended.
    pub fn extend_from_copyable_slices(&mut self, others: &[&[T]]) -> (r: Result<L, Error>)
        where
            T: Copy,
        requires
            old(self).wf(),
        ensures
            final(self).wf(),
            final(self).spec_capacity() == old(self).spec_capacity(),
            ({
                let added = concat(slices_view(others@)).len();
                (added <= L::type_max() && old(self)@.len() + added <= old(self).spec_capacity())
                    == (r is Ok)
            }),
            r matches Ok(n) ==> n.as_nat() == concat(slices_view(others@)).len() && final(self)@
                == old(self)@ + concat(slices_view(others@)),
            r is Err ==> final(self)@ == old(self)@,
            r matches Err(e) ==> e == Self::reserve_error() || e == Error::OutOfBoundsArithmetic,
    {
        proof {
            self.len.lemma_bounds();
        }
        let total = match total_len(others) {
            Some(elem) => elem,
            None => return Err(Error::OutOfBoundsArithmetic),
        };
        let others_len = L::from_usize(total)?;
        let len = self.len.usize();
        let capacity = self.capacity().usize();
        if total > capacity - len {
            return Err(Error::UninitError(UninitError::ReserveOverflow));
        }
        let ghost ss = slices_view(others@);
        let ghost prev = self.data@;
        let mut pos = len;
        let mut k: usize = 0;
        while k < others.len()
            invariant
                self.len == old(self).len,
                self.data@.len() == prev.len(),
                capacity == uninit_capacity::<L>(prev.len()),
                capacity <= prev.len(),
                len == self.len.as_nat(),
                len + total <= capacity,
                ss == slices_view(others@),
                concat(ss).len() == total,
                k <= others@.len(),
                pos == len + concat(ss.take(k as int)).len(),
                self.data@.take(pos as int) == prev.take(len as int) + concat(ss.take(k as int)),
            decreases others@.len() - k,
        {
            proof {
                lemma_concat_push(ss, k as int);
                crate::collection::slices::lemma_concat_prefix_len(ss, (k + 1) as int);
            }
            let other = others[k];
            let mut j: usize = 0;
            while j < other.len()
                invariant
                    self.len == old(self).len,
                    len == self.len.as_nat(),
                    self.data@.len() == prev.len(),
                    pos + other@.len() <= capacity,
                    capacity <= prev.len(),
                    j <= other@.len(),
                    self.data@.take(pos + j) == prev.take(len as int) + concat(ss.take(k as int))
                        + other@.take(j as int),
                    pos == len + concat(ss.take(k as int)).len(),
                decreases other@.len() - j,
            {
                let ghost before = self.data@;
                self.data[pos + j] = other[j];
                proof {
                    assert(self.data@.take(pos + j + 1) =~= before.take(pos + j).push(other@[j as int]));
                    assert(other@.take(j + 1) =~= other@.take(j as int).push(other@[j as int]));
                }
                j = j + 1;
            }
            assert(other@.take(j as int) =~= other@);
            assert(ss[k as int] == other@);
            pos = pos + other.len();
            k = k + 1;
        }
        assert(ss.take(k as int) =~= ss);
        self.len = match L::from_usize(pos) {
            Ok(elem) => elem,
            Err(_) => self.len,
        };
        proof {
            self.len.lemma_bounds();
            assert(prev.take(len as int) == old(self)@);
        }
        Ok(others_len)
    }

    /// Copies the elements of `other` and appends them, provided that all of them fit.
    pub fn extend_from_copyable_slice(&mut self, other: &[T]) -> (r: Result<(), Error>)
        where
            T: Copy,
        requires
            old(self).wf(),
        ensures
            final(self).wf(),
            final(self).spec_capacity() == old(self).spec_capacity(),
            (other@.len() <= L::type_max() && old(self)@.len() + other@.len()
                <= old(self).spec_capacity()) == (r is Ok),
            r is Ok ==> final(self)@ == old(self)@ + other@,
            r is Err ==> final(self)@ == old(self)@,
            r matches Err(e) ==> e == Self::reserve_error() || e == Error::OutOfBoundsArithmetic,
    {
        let mut others: Vec<&[T]> = Vec::new();
        others.push(other);
        proof {
            let ss = slices_view(others@);
            assert(ss =~= seq![other@]);
            assert(ss.drop_last() =~= Seq::<Seq<T>>::empty());
            assert(concat(ss.drop_last()) =~= Seq::<T>::empty());
            assert(concat(ss) =~= other@);
        }
        let _ = self.extend_from_copyable_slices(others.as_slice())?;
        Ok(())
    }

    /// Appends the elements of `iter`, one at a time, until one does not fit.
    pub fn extend_from_iter(&mut self, iter: Vec<T>) -> (r: Result<(), Error>)
        requires
            old(self).wf(),
        ensures
            final(self).wf(),
            final(self).spec_capacity() == old(self).spec_capacity(),
            (old(self)@.len() + iter@.len() <= old(self).spec_capacity()) == (r is Ok),
            r is Ok ==> final(self)@ == old(self)@ + iter@,
            r matches Err(e) ==> e == Self::reserve_error(),
    {
        let ghost start = self@;
        let ghost all = iter@;
        let mut pending = crate::collection::slices::reversed(iter);
        let mut idx: usize = 0;
        let n = pending.len();
        while idx < n
            invariant
                self.wf(),
                start == old(self)@,
                self.spec_capacity() == old(self).spec_capacity(),
                n == all.len(),
                all == iter@,
                idx <= n,
                pending@ == all.skip(idx as int).reverse(),
                self@ == start + all.take(idx as int),
            decreases n - idx,
        {
            proof {
                self.lemma_view_len();
            }
            let elem = match pending.pop() {
                Some(elem) => elem,
                None => {
                    assert(false);
                    return Ok(());
                },
            };
            assert(elem == all[idx as int]);
            match self.push(elem) {
                Ok(()) => {},
                Err(e) => return Err(e),
            }
            proof {
                assert(all.take(idx + 1) =~= all.take(idx as int).push(all[idx as int]));
                assert(pending@ =~= all.skip(idx + 1).reverse());
            }
            idx = idx + 1;
        }
        assert(all.take(n as int) =~= all);
        proof {
            self.lemma_view_len();
        }
        Ok(())
    }
}

impl<'data, L: LinearStorageLen, T: Clone> Uninit<'data, L, T> {
    /// Clones the elements of `other` and appends them, one at a time, until one does not fit.
    pub fn extend_from_cloneable_slice(&mut self, other: &[T]) -> (r: Result<(), Error>)
        requires
            old(self).wf(),
        ensures
            final(self).wf(),
            final(self).spec_capacity() == old(self).spec_capacity(),
            (old(self)@.len() + other@.len() <= old(self).spec_capacity()) == (r is Ok),
            r is Ok ==> final(self)@.len() == old(self)@.len() + other@.len() && final(self)@.take(
                old(self)@.len() as int,
            ) == old(self)@ && forall|i: int|
                0 <= i < other@.len() ==> cloned(other@[i], #[trigger] final(self)@[old(self)@.len() + i]),
            r matches Err(e) ==> e == Self::reserve_error(),
    {
        let ghost start = self@;
        let mut idx: usize = 0;
        while idx < other.len()
            invariant
                self.wf(),
                start == old(self)@,
                self.spec_capacity() == old(self).spec_capacity(),
                idx <= other@.len(),
                self@.len() == start.len() + idx,
                self@.take(start.len() as int) == start,
                forall|i: int| 0 <= i < idx ==> cloned(other@[i], #[trigger] self@[start.len() + i]),
            decreases other@.len() - idx,
        {
            proof {
                self.lemma_view_len();
            }
            let elem = other[idx].clone();
            let ghost before = self@;
            if let Err(e) = self.push(elem) {
                return Err(e);
            }
            proof {
                assert(self@.take(start.len() as int) =~= before.take(start.len() as int));
                assert forall|i: int| 0 <= i < idx + 1 implies cloned(
                    other@[i],
                    #[trigger] self@[start.len() + i],
                ) by {
                    if i < idx {
                        assert(self@[start.len() + i] == before[start.len() + i]);
                    }
                }
            }
            idx = idx + 1;
        }
        proof {
            self.lemma_view_len();
        }
        Ok(())
    }
}

} // verus!
