use crate::collection::slices::{concat, lemma_concat_push, slices_view, total_len};
use crate::collection::ExpansionTy;
use crate::error::Error;
use vstd::prelude::*;

verus! {

/// Errors of [Vector].
#[derive(Clone, Copy, Debug, PartialEq, Eq, Structural)]
pub enum VectorError {
    /// The capacity can not grow as requested.
    CapacityOverflow,
    /// The elements of one slice do not fit.
    ExtendFromSliceOverflow,
    /// The elements of several slices do not fit.
    ExtendFromSlicesOverflow,
    /// The index provided in the `insert` method is out of bounds.
    OutOfBoundsInsertIdx,
    /// There is no room for one more element.
    PushOverflow,
    /// The capacity can not grow as requested.
    ReserveOverflow,
    /// A temporary `Vec` expanded the capacity beyond the current length type
    VecOverflow,
}

/// The number that identifies each variant of [`VectorError`].
pub fn vector_error_code(err: VectorError) -> (r: u8)
    ensures
        r == match err {
            VectorError::CapacityOverflow => 0u8,
            VectorError::ExtendFromSliceOverflow => 1u8,
            VectorError::ExtendFromSlicesOverflow => 2u8,
            VectorError::OutOfBoundsInsertIdx => 3u8,
            VectorError::PushOverflow => 4u8,
            VectorError::ReserveOverflow => 5u8,
            VectorError::VecOverflow => 6u8,
        },
{
    match err {
        VectorError::CapacityOverflow => 0,
        VectorError::ExtendFromSliceOverflow => 1,
        VectorError::ExtendFromSlicesOverflow => 2,
        VectorError::OutOfBoundsInsertIdx => 3,
        VectorError::PushOverflow => 4,
        VectorError::ReserveOverflow => 5,
        VectorError::VecOverflow => 6,
    }
}

/// Returns `Vec::capacity`: the number of elements that `vec` can hold without reallocating,
/// which the allocator decides. Its documentation promises only that it is at least the
/// length; nothing is claimed of its exact value.
#[verifier::external_body]
fn vec_capacity<T>(vec: &Vec<T>) -> (r: usize)
    ensures
        r >= vec@.len(),
{
    vec.capacity()
}

/// Calls `Vec::try_reserve`, which asks the allocator for room for at least `additional` more
/// elements. Its documentation says that the contents are left as they are and that it does
/// nothing where the capacity already suffices, which it does for no additional element; whether
/// it succeeds otherwise depends on the allocator and is not stated.
#[verifier::external_body]
fn vec_try_reserve<T>(vec: &mut Vec<T>, additional: usize) -> (r: bool)
    ensures
        final(vec)@ == old(vec)@,
        additional == 0 ==> r,
{
    vec.try_reserve(additional).is_ok()
}

/// Calls `Vec::try_reserve_exact`, which asks the allocator for room for `additional` more
/// elements without over-allocating. Its documentation says that the contents are left as
/// they are and that it does nothing where the capacity already suffices, which it does for no
/// additional element; whether it succeeds otherwise depends on the allocator and is not stated.
#[verifier::external_body]
fn vec_try_reserve_exact<T>(vec: &mut Vec<T>, additional: usize) -> (r: bool)
    ensures
        final(vec)@ == old(vec)@,
        additional == 0 ==> r,
{
    vec.try_reserve_exact(additional).is_ok()
}

/// A wrapper around the std's vector.
pub struct Vector<T> {
    vec: Vec<T>,
}

impl<T> View for Vector<T> {
    type V = Seq<T>;

    closed spec fn view(&self) -> Seq<T> {
        self.vec@
    }
}

impl<T> Vector<T> {
    /// Constructs a new instance based on an arbitrary [Vec].
    pub fn from_vec(vec: Vec<T>) -> (r: Self)
        ensures
            r@ == vec@,
    {
        Vector { vec }
    }

    /// Constructs a new, empty instance.
    pub fn new() -> (r: Self)
        ensures
            r@ == Seq::<T>::empty(),
    {
        Vector { vec: Vec::new() }
    }

    /// Constructs a new, empty instance with at least the specified capacity. Fails where the
    /// allocator can not provide it.
    pub fn with_capacity(capacity: usize) -> (r: Result<Self, Error>)
        ensures
            capacity == 0 ==> r is Ok,
            r matches Ok(v) ==> v@ == Seq::<T>::empty(),
            r matches Err(e) ==> e == Error::VectorError(VectorError::ReserveOverflow),
    {
        let mut this = Self::new();
        this.reserve(capacity)?;
        Ok(this)
    }

    /// Constructs a new, empty instance with the exact specified capacity. Fails where the
    /// allocator can not provide it.
    pub fn with_exact_capacity(capacity: usize) -> (r: Result<Self, Error>)
        ensures
            capacity == 0 ==> r is Ok,
            r matches Ok(v) ==> v@ == Seq::<T>::empty(),
            r matches Err(e) ==> e == Error::VectorError(VectorError::ReserveOverflow),
    {
        let mut this = Self::new();
        this.reserve_exact(capacity)?;
        Ok(this)
    }

    /// Transfers memory ownership to the vector of the standard library.
    pub fn into_vec(self) -> (r: Vec<T>)
        ensures
            r@ == self@,
    {
        self.vec
    }

    /// Vector of the standard library.
    pub fn vec_mut(&mut self) -> (r: &mut Vec<T>)
        ensures
            r@ == old(self)@,
            final(self)@ == final(r)@,
    {
        &mut self.vec
    }

    /// Constructs a new instance with elements provided by `iter`.
    pub fn from_iterator(iter: Vec<T>) -> (r: Result<Self, Error>)
        ensures
            r matches Ok(v) ==> v@ == iter@,
            r matches Err(e) ==> e == Error::VectorError(VectorError::ReserveOverflow),
    {
        let mut this = Self::new();
        this.extend_from_iter(iter)?;
        Ok(this)
    }

    /// Extracts a slice containing the entire instance.
    pub fn as_slice(&self) -> (r: &[T])
        ensures
            r@ == self@,
    {
        self.vec.as_slice()
    }

    /// Extracts a mutable slice containing the entire instance.
    pub fn as_slice_mut(&mut self) -> (r: &mut [T])
        ensures
            r@ == old(self)@,
            final(self)@ == final(r)@,
    {
        self.vec.as_mut_slice()
    }

    /// Returns the total number of elements the instance can hold without reallocating.
    pub fn capacity(&self) -> (r: usize)
        ensures
            r >= self@.len(),
    {
        vec_capacity(&self.vec)
    }

    /// Clears the instance, removing all values.
    pub fn clear(&mut self)
        ensures
            final(self)@ == Seq::<T>::empty(),
    {
        self.vec.clear();
    }

    /// Appends all elements of `iter`, in order. Stops at the first element for which the
    /// allocator provides no room.
    #[verifier::spinoff_prover]
    pub fn extend_from_iter(&mut self, iter: Vec<T>) -> (r: Result<(), Error>)
        ensures
            r is Ok ==> final(self)@ == old(self)@ + iter@,
            iter@.len() == 0 ==> r is Ok,
            r is Err ==> old(self)@.len() <= final(self)@.len() < old(self)@.len() + iter@.len()
                && final(self)@ == (old(self)@ + iter@).take(final(self)@.len() as int),
            r matches Err(e) ==> e == Error::VectorError(VectorError::ReserveOverflow),
    {
        let mut reversed: Vec<T> = Vec::new();
        let mut rest = iter;
        while rest.len() > 0
            invariant
                rest@ + reversed@.reverse() == iter@,
            decreases rest@.len(),
        {
            let ghost before = rest@;
            let ghost rev_before = reversed@;
            match rest.pop() {
                Some(elem) => {
                    reversed.push(elem);
                    assert(reversed@.reverse() =~= seq![elem] + rev_before.reverse());
                    assert(rest@ + reversed@.reverse() =~= before + rev_before.reverse());
                },
                None => {},
            }
        }
        assert(rest@ =~= Seq::<T>::empty());
        while reversed.len() > 0
            invariant
                self@ + reversed@.reverse() == old(self)@ + iter@,
                self@.len() >= old(self)@.len(),
            decreases reversed@.len(),
        {
            let ghost rev_before = reversed@;
            let ghost self_before = self@;
            match reversed.pop() {
                Some(elem) => {
                    assert(rev_before.reverse() =~= seq![elem] + reversed@.reverse());
                    if let Err(e) = self.push(elem) {
                        assert(self@ == self_before);
                        assert(rev_before.len() > 0);
                        assert((self_before + rev_before.reverse()).take(
                            self_before.len() as int,
                        ) =~= self_before);
                        assert(old(self)@ + iter@ == self_before + rev_before.reverse());
                        assert(self@ == (old(self)@ + iter@).take(self@.len() as int));
                        assert(rev_before.reverse().len() == rev_before.len());
                        assert((old(self)@ + iter@).len() == self_before.len()
                            + rev_before.reverse().len());
                        assert(self@.len() < old(self)@.len() + iter@.len());
                        return Err(e);
                    }
                    assert(self@ + reversed@.reverse() =~= self_before + rev_before.reverse());
                },
                None => {},
            }
        }
        assert(self@ =~= old(self)@ + iter@);
        Ok(())
    }

    /// Returns the number of elements in the storage, also referred to as its ‘length’.
    pub fn len(&self) -> (r: usize)
        ensures
            r == self@.len(),
    {
        self.vec.len()
    }

    /// Removes the last element and returns it, or `None` if it is empty.
    pub fn pop(&mut self) -> (r: Option<T>)
        ensures
            old(self)@.len() == 0 ==> r is None && final(self)@ == old(self)@,
            old(self)@.len() > 0 ==> r == Some(old(self)@.last()) && final(self)@ == old(self)@.drop_last(),
    {
        self.vec.pop()
    }

    /// Appends an element to the back of the collection.
    pub fn push(&mut self, elem: T) -> (r: Result<(), Error>)
        ensures
            r is Ok ==> final(self)@ == old(self)@.push(elem),
            r is Err ==> final(self)@ == old(self)@,
            r matches Err(e) ==> e == Error::VectorError(VectorError::ReserveOverflow),
    {
        self.reserve(1)?;
        self.vec.push(elem);
        Ok(())
    }

    /// Inserts an element at position `idx`, shifting all elements after it to the right.
    pub fn insert(&mut self, idx: usize, elem: T) -> (r: Result<(), Error>)
        ensures
            idx > old(self)@.len() ==> r == Err::<(), Error>(
                Error::VectorError(VectorError::OutOfBoundsInsertIdx),
            ) && final(self)@ == old(self)@,
            r is Ok ==> final(self)@ == old(self)@.insert(idx as int, elem),
            r is Err ==> final(self)@ == old(self)@,
            idx <= old(self)@.len() ==> (r matches Err(e) ==> e == Error::VectorError(
                VectorError::ReserveOverflow,
            )),
    {
        if idx > self.vec.len() {
            return Err(Error::VectorError(VectorError::OutOfBoundsInsertIdx));
        }
        self.reserve(1)?;
        self.vec.insert(idx, elem);
        Ok(())
    }

    /// How many elements can be added to this collection without reallocating.
    pub fn remaining(&self) -> (r: usize)
        ensures
            r + self@.len() <= usize::MAX,
    {
        let capacity = vec_capacity(&self.vec);
        capacity - self.vec.len()
    }

    /// Removes and returns the element at position `index`, shifting all elements after it to
    /// the left.
    pub fn remove(&mut self, index: usize) -> (r: Option<T>)
        ensures
            index >= old(self)@.len() ==> r is None && final(self)@ == old(self)@,
            index < old(self)@.len() ==> r == Some(old(self)@[index as int]) && final(self)@
                == old(self)@.remove(index as int),
    {
        if index >= self.vec.len() {
            return None;
        }
        Some(self.vec.remove(index))
    }

    /// Reserves capacity for at least `additional` more elements. The contents never change;
    /// fails where the allocator can not provide the room.
    pub fn reserve(&mut self, additional: usize) -> (r: Result<(), Error>)
        ensures
            final(self)@ == old(self)@,
            additional == 0 ==> r is Ok,
            r matches Err(e) ==> e == Error::VectorError(VectorError::ReserveOverflow),
    {
        if vec_try_reserve(&mut self.vec, additional) {
            Ok(())
        } else {
            Err(Error::VectorError(VectorError::ReserveOverflow))
        }
    }

    /// Reserves capacity for exactly `additional` more elements. The contents never change;
    /// fails where the allocator can not provide the room.
    pub fn reserve_exact(&mut self, additional: usize) -> (r: Result<(), Error>)
        ensures
            final(self)@ == old(self)@,
            additional == 0 ==> r is Ok,
            r matches Err(e) ==> e == Error::VectorError(VectorError::ReserveOverflow),
    {
        if vec_try_reserve_exact(&mut self.vec, additional) {
            Ok(())
        } else {
            Err(Error::VectorError(VectorError::ReserveOverflow))
        }
    }

    /// Shortens the instance, keeping the first `new_len` elements and dropping the rest.
    pub fn truncate(&mut self, new_len: usize)
        ensures
            new_len >= old(self)@.len() ==> final(self)@ == old(self)@,
            new_len < old(self)@.len() ==> final(self)@ == old(self)@.take(new_len as int),
    {
        self.vec.truncate(new_len);
    }

    /// Returns a reference to the element at `idx`, if any.
    pub fn get(&self, idx: usize) -> (r: Option<&T>)
        ensures
            idx < self@.len() ==> r == Some(&self@[idx as int]),
            idx >= self@.len() ==> r is None,
    {
        if idx < self.vec.len() {
            Some(&self.vec[idx])
        } else {
            None
        }
    }
}

impl<T: Clone> Vector<T> {
    /// Constructs a new instance with `len` clones of `value`.
    pub fn from_cloneable_elem(len: usize, value: T) -> (r: Result<Self, Error>)
        ensures
            r matches Ok(v) ==> v@.len() == len && forall|i: int|
                0 <= i < len ==> cloned(value, #[trigger] v@[i]),
            r matches Err(e) ==> e == Error::VectorError(VectorError::ReserveOverflow),
    {
        let mut this = Self::new();
        this.expand(ExpansionTy::Len(len), value)?;
        Ok(this)
    }

    /// Creates a new instance from the cloneable elements of `slice`.
    pub fn from_cloneable_slice(slice: &[T]) -> (r: Result<Self, Error>)
        ensures
            r matches Ok(v) ==> v@.len() == slice@.len() && forall|i: int|
                0 <= i < slice@.len() ==> cloned(slice@[i], #[trigger] v@[i]),
            r matches Err(e) ==> e == Error::VectorError(VectorError::ReserveOverflow),
    {
        let mut this = Self::new();
        this.extend_from_cloneable_slice(slice)?;
        assert forall|i: int| 0 <= i < slice@.len() implies cloned(slice@[i], #[trigger] this@[i]) by {
            assert(this@[0 + i] == this@[i]);
        }
        Ok(this)
    }

    /// Resizes the instance in-place so that the current length is equal to what `et` asks,
    /// filling the new slots with clones of `value`. Does nothing if the calculated length is
    /// equal or less than the current length.
    pub fn expand(&mut self, et: ExpansionTy, value: T) -> (r: Result<(), Error>)
        ensures
            et.spec_params(old(self)@.len()) is None ==> r is Ok && final(self)@ == old(self)@,
            et.spec_params(old(self)@.len()) matches Some((additional, _)) ==> (additional == 0
                ==> r is Ok),
            et.spec_params(old(self)@.len()) matches Some((additional, new_len)) ==> (r is Ok
                ==> {
                &&& final(self)@.len() == new_len
                &&& final(self)@.take(old(self)@.len() as int) == old(self)@
                &&& forall|i: int|
                    old(self)@.len() <= i < new_len ==> cloned(value, #[trigger] final(self)@[i])
            }),
            r is Err ==> final(self)@ == old(self)@,
            r matches Err(e) ==> e == Error::VectorError(VectorError::ReserveOverflow),
    {
        let len = self.vec.len();
        let (additional, _new_len) = match et.params(len) {
            Some(elem) => elem,
            None => return Ok(()),
        };
        self.reserve(additional)?;
        let mut idx: usize = 0;
        while idx < additional
            invariant
                idx <= additional,
                self@.len() == len + idx,
                self@.take(len as int) == old(self)@,
                old(self)@.len() == len,
                forall|i: int| len <= i < len + idx ==> cloned(value, #[trigger] self@[i]),
            decreases additional - idx,
        {
            let ghost before = self@;
            self.vec.push(value.clone());
            assert(self@.take(len as int) =~= before.take(len as int));
            idx = idx + 1;
        }
        Ok(())
    }

    /// Clones each element of `other`, in order, and appends it.
    pub fn extend_from_cloneable_slice(&mut self, other: &[T]) -> (r: Result<(), Error>)
        ensures
            r is Ok ==> final(self)@.len() == old(self)@.len() + other@.len() && final(self)@.take(
                old(self)@.len() as int,
            ) == old(self)@ && forall|i: int|
                0 <= i < other@.len() ==> cloned(other@[i], #[trigger] final(self)@[old(self)@.len() + i]),
            r matches Err(e) ==> e == Error::VectorError(VectorError::ReserveOverflow),
    {
        let len = self.vec.len();
        let mut idx: usize = 0;
        while idx < other.len()
            invariant
                idx <= other@.len(),
                self@.len() == len + idx,
                self@.take(len as int) == old(self)@,
                old(self)@.len() == len,
                forall|i: int| 0 <= i < idx ==> cloned(other@[i], #[trigger] self@[len + i]),
            decreases other@.len() - idx,
        {
            let ghost before = self@;
            self.push(other[idx].clone())?;
            assert(self@.take(len as int) =~= before.take(len as int));
            idx = idx + 1;
        }
        Ok(())
    }
}

impl<T: Copy> Vector<T> {
    /// Creates a new instance from the copyable elements of `slice`.
    pub fn from_copyable_slice(slice: &[T]) -> (r: Result<Self, Error>)
        ensures
            r matches Ok(v) ==> v@ == slice@,
            r matches Err(e) ==> e == Error::VectorError(VectorError::ReserveOverflow) || e
                == Error::VectorError(VectorError::ExtendFromSlicesOverflow),
    {
        let mut this = Self::new();
        this.extend_from_copyable_slice(slice)?;
        Ok(this)
    }

    /// Copies each element of `other`, in order, and appends it.
    pub fn extend_from_copyable_slice(&mut self, other: &[T]) -> (r: Result<(), Error>)
        ensures
            r is Ok ==> final(self)@ == old(self)@ + other@,
            r is Err ==> final(self)@ == old(self)@,
            other@.len() == 0 ==> r is Ok,
            r matches Err(e) ==> e == Error::VectorError(VectorError::ReserveOverflow),
    {
        let mut others: Vec<&[T]> = Vec::new();
        others.push(other);
        proof {
            let ss = slices_view(others@);
            assert(ss =~= seq![other@]);
            assert(ss.drop_last() =~= Seq::<Seq<T>>::empty());
            assert(concat(ss.drop_last()) =~= Seq::<T>::empty());
            assert(concat(ss) =~= other@);
            assert(other@.len() == other.len());
        }
        let all = others.as_slice();
        assert(all@ == others@);
        match self.extend_from_copyable_slices(all) {
            Ok(_) => Ok(()),
            Err(e) => Err(e),
        }
    }

    /// Copies the elements of every slice of `others`, in order, and appends them. Returns the
    /// number of elements appended.
    pub fn extend_from_copyable_slices(&mut self, others: &[&[T]]) -> (r: Result<usize, Error>)
        ensures
            r matches Ok(n) ==> n == concat(slices_view(others@)).len() && final(self)@ == old(self)@ + concat(slices_view(others@)),
            r is Err ==> final(self)@ == old(self)@,
            concat(slices_view(others@)).len() == 0 ==> r is Ok,
            (r == Err::<usize, Error>(Error::VectorError(VectorError::ExtendFromSlicesOverflow)))
                <==> concat(slices_view(others@)).len() > usize::MAX,
            r matches Err(e) ==> e == Error::VectorError(VectorError::ReserveOverflow) || e
                == Error::VectorError(VectorError::ExtendFromSlicesOverflow),
    {
        let others_len = match total_len(others) {
            Some(n) => n,
            None => return Err(Error::VectorError(VectorError::ExtendFromSlicesOverflow)),
        };
        self.reserve(others_len)?;
        let ghost ss = slices_view(others@);
        let mut k: usize = 0;
        while k < others.len()
            invariant
                k <= others@.len(),
                ss == slices_view(others@),
                self@ == old(self)@ + concat(ss.take(k as int)),
            decreases others@.len() - k,
        {
            let other = others[k];
            proof {
                lemma_concat_push(ss, k as int);
            }
            let mut j: usize = 0;
            while j < other.len()
                invariant
                    j <= other@.len(),
                    k < others@.len(),
                    other@ == ss[k as int],
                    self@ == old(self)@ + concat(ss.take(k as int)) + other@.take(j as int),
                decreases other@.len() - j,
            {
                let ghost before = self@;
                self.vec.push(other[j]);
                assert(other@.take(j + 1) =~= other@.take(j as int).push(other@[j as int]));
                assert(self@ =~= old(self)@ + concat(ss.take(k as int)) + other@.take(j + 1));
                j = j + 1;
            }
            assert(other@.take(j as int) =~= other@);
            assert(self@ =~= old(self)@ + concat(ss.take(k + 1)));
            k = k + 1;
        }
        assert(ss.take(k as int) =~= ss);
        Ok(others_len)
    }
}

impl<T> Default for Vector<T> {
    fn default() -> (r: Self)
        ensures
            r@ == Seq::<T>::empty(),
    {
        Self::new()
    }
}

/// What [`Vector::remove`] gives right after [`Vector::insert`] put `elem` at `idx`: `elem`
/// itself, and the elements as they were before the insertion.
pub proof fn lemma_remove_undoes_insert<T>(
    before: Seq<T>,
    idx: int,
    elem: T,
    after_insert: Seq<T>,
    removed: Option<T>,
    after_remove: Seq<T>,
)
    requires
        0 <= idx <= before.len(),
        after_insert == before.insert(idx, elem),
        idx < after_insert.len() ==> removed == Some(after_insert[idx]) && after_remove
            == after_insert.remove(idx),
    ensures
        removed == Some(elem),
        after_remove == before,
{
    assert(after_insert.remove(idx) =~= before);
}

/// What [`Vector::pop`] gives right after [`Vector::push`] pushed `elem`: `elem` itself, and the
/// elements as they were before the push.
pub proof fn lemma_pop_undoes_push<T>(
    before: Seq<T>,
    elem: T,
    after_push: Seq<T>,
    popped: Option<T>,
    after_pop: Seq<T>,
)
    requires
        after_push == before.push(elem),
        after_push.len() > 0 ==> popped == Some(after_push.last()) && after_pop
            == after_push.drop_last(),
    ensures
        popped == Some(elem),
        after_pop == before,
{
    assert(after_push.drop_last() =~= before);
}

} // verus!
