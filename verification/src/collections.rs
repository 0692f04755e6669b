//! Collections backed by arrays, strings and borrowed buffers.

mod array_vector;
mod array_vector_copy;
mod array_vector_inner;
mod maybe_uninit_slice;

pub use array_vector::ArrayVector;
pub use array_vector_copy::ArrayVectorCopy;
pub use maybe_uninit_slice::MaybeUninitSlice;
pub use crate::collection::{
    ShortBoxSlice, ShortBoxStr, ShortBoxStrU16, ShortBoxStrU8, ShortSlice, ShortStr, ShortStrU16,
    ShortStrU8,
};
pub(crate) use array_vector_inner::ArrayVectorInner;
