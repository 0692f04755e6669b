use crate::collection::{
    ArrayStringError, ArrayVectorError, BlocksDequeError, DequeueError, FixedStringError, RadixTreeError, UninitError, VectorError,
};
use vstd::prelude::*;

verus! {

/// Every error that the collections of this crate can report.
#[derive(Clone, Copy, Debug, PartialEq, Eq, Structural)]
pub enum Error {
    /// See [`ArrayStringError`].
    ArrayStringError(ArrayStringError),
    /// See [`ArrayVectorError`].
    ArrayVectorError(ArrayVectorError),
    /// See [`BlocksDequeError`].
    BlocksDequeError(BlocksDequeError),
    /// See [`FixedStringError`].
    FixedStringError(FixedStringError),
    /// See [`RadixTreeError`].
    RadixTreeError(RadixTreeError),
    /// See [`UninitError`].
    UninitError(UninitError),
    /// See [`VectorError`].
    VectorError(VectorError),
    /// See [`DequeueError`].
    DequeueError(DequeueError),
    /// An `Option` used as a buffer can hold at most one element.
    InsufficientOptionCapacity,
    /// A truncation would split a UTF-8 sequence.
    InvalidUTF8Bound,
    /// Bytes that should be UTF-8 are not.
    InvalidUtf8,
    /// A byte that should be ASCII is not.
    NonAsciiByte,
    /// A number does not fit in the integer type that should hold it.
    OutOfBoundsArithmetic,
}

} // verus!
