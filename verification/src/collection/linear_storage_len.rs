use crate::error::Error;
use vstd::prelude::*;

verus! {

/// The greatest number of elements that a collection indexed by a 32-bit length may hold:
/// `u32::MAX` where `usize` has 64 bits, `isize::MAX` where it has 32.
pub open spec fn u32_cap() -> nat {
    if (u32::MAX as nat) < (isize::MAX as nat) {
        u32::MAX as nat
    } else {
        isize::MAX as nat
    }
}

/// `a + b` in the integers modulo `max + 1`, for `a` and `b` at most `max`.
pub open spec fn wrapped_add(a: nat, b: nat, max: nat) -> nat {
    if a + b > max {
        (a + b - (max + 1)) as nat
    } else {
        a + b
    }
}

/// `a - b` in the integers modulo `max + 1`, for `a` and `b` at most `max`.
pub open spec fn wrapped_sub(a: nat, b: nat, max: nat) -> nat {
    if a < b {
        (a - b + (max + 1)) as nat
    } else {
        (a - b) as nat
    }
}

/// Determines how many elements can be stored in a linear collection.
pub trait LinearStorageLen: Copy + Sized {
    /// The number that this instance holds.
    spec fn as_nat(self) -> nat;

    /// The maximum number of allowed elements.
    spec fn upper_bound() -> nat;

    /// The greatest number that the type can hold.
    spec fn type_max() -> nat;

    /// The maximum number of allowed elements as `usize`.
    fn upper_bound_usize() -> (r: usize)
        ensures
            r == Self::upper_bound(),
    ;

    /// The maximum number of allowed elements.
    fn upper_bound_len() -> (r: Self)
        ensures
            r.as_nat() == Self::upper_bound(),
    ;

    /// Instance that represents the number zero.
    fn zero() -> (r: Self)
        ensures
            r.as_nat() == 0,
    ;

    /// Instance that represents the number one.
    fn one() -> (r: Self)
        ensures
            r.as_nat() == 1,
    ;

    /// Tries to create a new instance from a `usize` primitive.
    fn from_usize(num: usize) -> (r: Result<Self, Error>)
        ensures
            (num <= Self::type_max()) == (r is Ok),
            r matches Ok(v) ==> v.as_nat() == num,
            r matches Err(e) ==> e == Error::OutOfBoundsArithmetic,
    ;

    /// Converts itself into `usize`.
    fn usize(self) -> (r: usize)
        ensures
            r == self.as_nat(),
    ;

    /// Wrapping (modular) addition.
    fn wrapping_add(self, rhs: Self) -> (r: Self)
        ensures
            r.as_nat() == wrapped_add(self.as_nat(), rhs.as_nat(), Self::type_max()),
    ;

    /// Wrapping (modular) subtraction.
    fn wrapping_sub(self, rhs: Self) -> (r: Self)
        ensures
            r.as_nat() == wrapped_sub(self.as_nat(), rhs.as_nat(), Self::type_max()),
    ;

    /// Every instance lies below the maximum of its type, which fits in `usize`, and the
    /// upper bound never exceeds that maximum.
    proof fn lemma_bounds(self)
        ensures
            self.as_nat() <= Self::type_max(),
            Self::upper_bound() <= Self::type_max(),
            Self::type_max() <= usize::MAX,
            Self::upper_bound() <= isize::MAX,
    ;

    /// The upper bound never exceeds the maximum of the type, which fits in `usize`.
    proof fn lemma_upper_bound()
        ensures
            Self::upper_bound() <= Self::type_max(),
            Self::type_max() <= usize::MAX,
            Self::upper_bound() <= isize::MAX,
    ;
}

impl LinearStorageLen for u8 {
    open spec fn as_nat(self) -> nat {
        self as nat
    }

    open spec fn upper_bound() -> nat {
        255
    }

    open spec fn type_max() -> nat {
        255nat
    }

    fn upper_bound_usize() -> (r: usize) {
        255
    }

    fn upper_bound_len() -> (r: Self) {
        255u8
    }

    fn zero() -> (r: Self) {
        0
    }

    fn one() -> (r: Self) {
        1
    }

    fn from_usize(num: usize) -> (r: Result<Self, Error>) {
        if num <= u8::MAX as usize {
            Ok(num as u8)
        } else {
            Err(Error::OutOfBoundsArithmetic)
        }
    }

    fn usize(self) -> (r: usize) {
        self as usize
    }

    fn wrapping_add(self, rhs: Self) -> (r: Self) {
        self.wrapping_add(rhs)
    }

    fn wrapping_sub(self, rhs: Self) -> (r: Self) {
        self.wrapping_sub(rhs)
    }

    proof fn lemma_bounds(self) {
    }

    proof fn lemma_upper_bound() {
    }
}

impl LinearStorageLen for u16 {
    open spec fn as_nat(self) -> nat {
        self as nat
    }

    open spec fn upper_bound() -> nat {
        65_535
    }

    open spec fn type_max() -> nat {
        65_535nat
    }

    fn upper_bound_usize() -> (r: usize) {
        65_535
    }

    fn upper_bound_len() -> (r: Self) {
        65_535u16
    }

    fn zero() -> (r: Self) {
        0
    }

    fn one() -> (r: Self) {
        1
    }

    fn from_usize(num: usize) -> (r: Result<Self, Error>) {
        if num <= u16::MAX as usize {
            Ok(num as u16)
        } else {
            Err(Error::OutOfBoundsArithmetic)
        }
    }

    fn usize(self) -> (r: usize) {
        self as usize
    }

    fn wrapping_add(self, rhs: Self) -> (r: Self) {
        self.wrapping_add(rhs)
    }

    fn wrapping_sub(self, rhs: Self) -> (r: Self) {
        self.wrapping_sub(rhs)
    }

    proof fn lemma_bounds(self) {
    }

    proof fn lemma_upper_bound() {
    }
}

impl LinearStorageLen for u32 {
    open spec fn as_nat(self) -> nat {
        self as nat
    }

    open spec fn upper_bound() -> nat {
        u32_cap()
    }

    open spec fn type_max() -> nat {
        u32::MAX as nat
    }

    fn upper_bound_usize() -> (r: usize) {
        let isize_max = isize::MAX as usize;
        if (u32::MAX as usize) < isize_max {
            u32::MAX as usize
        } else {
            isize_max
        }
    }

    fn upper_bound_len() -> (r: Self) {
        let isize_max = isize::MAX as usize;
        if (u32::MAX as usize) < isize_max {
            u32::MAX
        } else {
            isize_max as u32
        }
    }

    fn zero() -> (r: Self) {
        0
    }

    fn one() -> (r: Self) {
        1
    }

    fn from_usize(num: usize) -> (r: Result<Self, Error>) {
        if num <= u32::MAX as usize {
            Ok(num as u32)
        } else {
            Err(Error::OutOfBoundsArithmetic)
        }
    }

    fn usize(self) -> (r: usize) {
        self as usize
    }

    fn wrapping_add(self, rhs: Self) -> (r: Self) {
        self.wrapping_add(rhs)
    }

    fn wrapping_sub(self, rhs: Self) -> (r: Self) {
        self.wrapping_sub(rhs)
    }

    proof fn lemma_bounds(self) {
    }

    proof fn lemma_upper_bound() {
    }
}

impl LinearStorageLen for usize {
    open spec fn as_nat(self) -> nat {
        self as nat
    }

    open spec fn upper_bound() -> nat {
        isize::MAX as nat
    }

    open spec fn type_max() -> nat {
        usize::MAX as nat
    }

    fn upper_bound_usize() -> (r: usize) {
        isize::MAX as usize
    }

    fn upper_bound_len() -> (r: Self) {
        isize::MAX as usize
    }

    fn zero() -> (r: Self) {
        0
    }

    fn one() -> (r: Self) {
        1
    }

    fn from_usize(num: usize) -> (r: Result<Self, Error>) {
        Ok(num)
    }

    fn usize(self) -> (r: usize) {
        self
    }

    fn wrapping_add(self, rhs: Self) -> (r: Self) {
        self.wrapping_add(rhs)
    }

    fn wrapping_sub(self, rhs: Self) -> (r: Self) {
        self.wrapping_sub(rhs)
    }

    proof fn lemma_bounds(self) {
    }

    proof fn lemma_upper_bound() {
    }
}

} // verus!
