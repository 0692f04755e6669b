//! Collections with fixed or growable capacity.

pub(crate) mod array_string;
mod array_vector;
mod array_wrapper;
mod blocks_deque;
mod compressed_rows;
pub(crate) mod deque;
mod expansion_ty;
mod fixed_string;
mod linear_storage_len;
pub(crate) mod misc;
mod radix_tree;
pub(crate) mod slices;
mod short_slice;
mod storage_len;
pub(crate) mod text;
mod traits;
mod uninit;
mod vector;

pub use array_string::{
    ArrayString, ArrayStringError, ArrayStringU16, ArrayStringU32, ArrayStringU8, ArrayStringUsize,
};
pub use array_vector::{ArrayIntoIter, ArrayVector, ArrayVectorError};
pub use array_wrapper::ArrayWrapper;
pub use blocks_deque::{Block, BlocksDeque, BlocksDequeError, Metadata};
pub use compressed_rows::CompressedRows;
pub use deque::{Deque, DequeueError};
pub use expansion_ty::ExpansionTy;
pub use fixed_string::{FixedString, FixedStringError};
pub use linear_storage_len::LinearStorageLen;
pub use radix_tree::{
    Edge, Node, NodeParam, NodeTy, RadixTree, RadixTreeBuilder, RadixTreeError, RadixTreePath,
    RadixTreePathParam,
};
pub use misc::{backward_deque_idx, is_char_boundary};
pub use short_slice::{
    ShortBoxSlice, ShortBoxSliceU16, ShortBoxSliceU8, ShortBoxStr, ShortBoxStrU16, ShortBoxStrU8,
    ShortBoxString, ShortBoxStringU16, ShortBoxStringU8, ShortBoxVector, ShortBoxVectorU16,
    ShortBoxVectorU8, ShortSlice, ShortSliceU16, ShortSliceU8, ShortStr, ShortStrU16, ShortStrU8,
};
pub use storage_len::StorageLen;
pub use traits::{
    capacity_upper_bound_of, CapacityUpperBound, Clear, Truncate, TryExtend,
};
pub use uninit::{Uninit, UninitError, UninitU16, UninitU32, UninitU8, UninitUsize};
pub use vector::{vector_error_code, Vector, VectorError};
