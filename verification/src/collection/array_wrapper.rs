use core::borrow::{Borrow, BorrowMut};
use core::ops::Deref;
use vstd::prelude::*;

verus! {

/// Used for serialization/de-serialization.
#[derive(Clone, Copy, Debug, Eq, Ord, PartialEq, PartialOrd)]
pub struct ArrayWrapper<T, const N: usize>(
    /// The actual array
    pub [T; N],
);

impl<T, const N: usize> ArrayWrapper<T, N> {
    /// The elements of the array.
    pub open spec fn view(&self) -> Seq<T> {
        self.0@
    }

    /// The wrapped array.
    pub fn as_array(&self) -> (r: &[T; N])
        ensures
            r@ == self@,
    {
        &self.0
    }
}

impl<T, const N: usize> AsRef<[T; N]> for ArrayWrapper<T, N> {
    fn as_ref(&self) -> (r: &[T; N])
        ensures
            *r == self.0,
    {
        &self.0
    }
}

impl<T, const N: usize> AsMut<[T; N]> for ArrayWrapper<T, N> {
    fn as_mut(&mut self) -> (r: &mut [T; N])
        ensures
            *r == old(self).0,
            final(self).0 == *final(r),
    {
        &mut self.0
    }
}

impl<T, const N: usize> BorrowMut<[T; N]> for ArrayWrapper<T, N> {
    fn borrow_mut(&mut self) -> &mut [T; N] {
        &mut self.0
    }
}

impl<T, const N: usize> Borrow<[T; N]> for ArrayWrapper<T, N> {
    fn borrow(&self) -> &[T; N]
        returns
            &self.0,
    {
        &self.0
    }
}

impl<T, const N: usize> Deref for ArrayWrapper<T, N> {
    type Target = [T; N];

    fn deref(&self) -> (r: &[T; N])
        ensures
            *r == self.0,
    {
        &self.0
    }
}

impl<T, const N: usize> From<[T; N]> for ArrayWrapper<T, N> {
    fn from(from: [T; N]) -> (r: Self) {
        ArrayWrapper(from)
    }
}

impl<T, const N: usize> vstd::std_specs::convert::FromSpecImpl<[T; N]> for ArrayWrapper<T, N> {
    open spec fn obeys_from_spec() -> bool {
        true
    }

    open spec fn from_spec(v: [T; N]) -> Self {
        ArrayWrapper(v)
    }
}

} // verus!
