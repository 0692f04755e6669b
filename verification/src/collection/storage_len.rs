use crate::collection::linear_storage_len::{u32_cap, wrapped_add};
use vstd::prelude::*;

verus! {

/// Determines how many elements can be stored in an indexed collection.
pub trait StorageLen: Copy + Sized {
    /// The number that this instance holds.
    spec fn as_nat(self) -> nat;

    /// The maximum number of elements.
    spec fn capacity() -> nat;

    /// The greatest number that the type can hold.
    spec fn type_max() -> nat;

    /// The maximum number of elements.
    fn capacity_len() -> (r: Self)
        ensures
            r.as_nat() == Self::capacity(),
    ;

    /// The maximum number of elements as `usize`.
    fn capacity_usize() -> (r: usize)
        ensures
            r == Self::capacity(),
    ;

    /// Instance that represents the number one.
    fn one() -> (r: Self)
        ensures
            r.as_nat() == 1,
    ;

    /// Instance that represents the number zero.
    fn zero() -> (r: Self)
        ensures
            r.as_nat() == 0,
    ;

    /// Subtraction that fails where the result would be negative.
    fn checked_sub(self, rhs: Self) -> (r: Option<Self>)
        ensures
            (rhs.as_nat() <= self.as_nat()) == (r is Some),
            r matches Some(v) ==> v.as_nat() == self.as_nat() - rhs.as_nat(),
    ;

    /// Converts itself into `usize`.
    fn usize(self) -> (r: usize)
        ensures
            r == self.as_nat(),
    ;

    /// Wrapping (modular) addition.
    fn wrapping_add(self, rhs: Self) -> (r: Self)
        ensures
            r.as_nat() == wrapped_add(self.as_nat(), rhs.as_nat(), Self::type_max()),
    ;

    /// Every instance lies below the maximum of its type, which fits in `usize`, and the
    /// capacity never exceeds that maximum.
    proof fn lemma_bounds(self)
        ensures
            self.as_nat() <= Self::type_max(),
            Self::capacity() <= Self::type_max(),
            Self::type_max() <= usize::MAX,
    ;
}

impl StorageLen for u8 {
    open spec fn as_nat(self) -> nat {
        self as nat
    }

    open spec fn capacity() -> nat {
        255
    }

    open spec fn type_max() -> nat {
        255nat
    }

    fn capacity_len() -> (r: Self) {
        255
    }

    fn capacity_usize() -> (r: usize) {
        255
    }

    fn one() -> (r: Self) {
        1
    }

    fn zero() -> (r: Self) {
        0
    }

    fn checked_sub(self, rhs: Self) -> (r: Option<Self>) {
        if rhs <= self {
            Some(self - rhs)
        } else {
            None
        }
    }

    fn usize(self) -> (r: usize) {
        self as usize
    }

    fn wrapping_add(self, rhs: Self) -> (r: Self) {
        self.wrapping_add(rhs)
    }

    proof fn lemma_bounds(self) {
    }
}

impl StorageLen for u16 {
    open spec fn as_nat(self) -> nat {
        self as nat
    }

    open spec fn capacity() -> nat {
        65_535
    }

    open spec fn type_max() -> nat {
        65_535nat
    }

    fn capacity_len() -> (r: Self) {
        65_535
    }

    fn capacity_usize() -> (r: usize) {
        65_535
    }

    fn one() -> (r: Self) {
        1
    }

    fn zero() -> (r: Self) {
        0
    }

    fn checked_sub(self, rhs: Self) -> (r: Option<Self>) {
        if rhs <= self {
            Some(self - rhs)
        } else {
            None
        }
    }

    fn usize(self) -> (r: usize) {
        self as usize
    }

    fn wrapping_add(self, rhs: Self) -> (r: Self) {
        self.wrapping_add(rhs)
    }

    proof fn lemma_bounds(self) {
    }
}

impl StorageLen for u32 {
    open spec fn as_nat(self) -> nat {
        self as nat
    }

    open spec fn capacity() -> nat {
        u32_cap()
    }

    open spec fn type_max() -> nat {
        u32::MAX as nat
    }

    fn capacity_len() -> (r: Self) {
        let isize_max = isize::MAX as usize;
        if (u32::MAX as usize) < isize_max {
            u32::MAX
        } else {
            isize_max as u32
        }
    }

    fn capacity_usize() -> (r: usize) {
        let isize_max = isize::MAX as usize;
        if (u32::MAX as usize) < isize_max {
            u32::MAX as usize
        } else {
            isize_max
        }
    }

    fn one() -> (r: Self) {
        1
    }

    fn zero() -> (r: Self) {
        0
    }

    fn checked_sub(self, rhs: Self) -> (r: Option<Self>) {
        if rhs <= self {
            Some(self - rhs)
        } else {
            None
        }
    }

    fn usize(self) -> (r: usize) {
        self as usize
    }

    fn wrapping_add(self, rhs: Self) -> (r: Self) {
        self.wrapping_add(rhs)
    }

    proof fn lemma_bounds(self) {
    }
}

impl StorageLen for usize {
    open spec fn as_nat(self) -> nat {
        self as nat
    }

    open spec fn capacity() -> nat {
        isize::MAX as nat
    }

    open spec fn type_max() -> nat {
        usize::MAX as nat
    }

    fn capacity_len() -> (r: Self) {
        isize::MAX as usize
    }

    fn capacity_usize() -> (r: usize) {
        isize::MAX as usize
    }

    fn one() -> (r: Self) {
        1
    }

    fn zero() -> (r: Self) {
        0
    }

    fn checked_sub(self, rhs: Self) -> (r: Option<Self>) {
        if rhs <= self {
            Some(self - rhs)
        } else {
            None
        }
    }

    fn usize(self) -> (r: usize) {
        self
    }

    fn wrapping_add(self, rhs: Self) -> (r: Self) {
        self.wrapping_add(rhs)
    }

    proof fn lemma_bounds(self) {
    }
}

} // verus!
