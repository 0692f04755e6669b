use crate::collection::linear_storage_len::LinearStorageLen;
use crate::collection::text::str_get;
use crate::collection::misc::{is_char_boundary, spec_is_char_boundary};
use crate::error::Error;
use vstd::prelude::*;
use vstd::string::StringSliceAdditionalSpecFns;
use vstd::utf8::encode_utf8;

verus! {

/// [`ShortSlice`] with a capacity limited by `u8`.
pub type ShortSliceU8<'any, T> = ShortSlice<'any, u8, T>;

/// [`ShortSlice`] with a capacity limited by `u16`.
pub type ShortSliceU16<'any, T> = ShortSlice<'any, u16, T>;

/// A borrowed slice whose length fits in `L`.
#[derive(Clone, Copy)]
pub struct ShortSlice<'any, L, T> {
    data: &'any [T],
    len: L,
}

impl<'any, L: LinearStorageLen, T> ShortSlice<'any, L, T> {
    /// The elements.
    pub closed spec fn view(&self) -> Seq<T> {
        self.data@
    }

    /// The length that the instance records.
    pub closed spec fn spec_len(&self) -> L {
        self.len
    }

    /// The length is the number of elements.
    pub closed spec fn wf(&self) -> bool {
        self.len.as_nat() == self.data@.len()
    }

    /// Throws an error if the length of `slice` is greater than the capacity.
    pub fn new(slice: &'any [T]) -> (r: Result<Self, Error>)
        ensures
            (slice@.len() <= L::type_max()) == (r is Ok),
            r matches Ok(s) ==> s.wf() && s.view() == slice@,
            r matches Err(e) ==> e == Error::OutOfBoundsArithmetic,
    {
        let len = L::from_usize(slice.len())?;
        Ok(ShortSlice { data: slice, len })
    }

    /// Reinterprets inner data back into a standard slice.
    pub fn data(&self) -> (r: &'any [T])
        ensures
            r@ == self.view(),
    {
        self.data
    }

    /// Length
    pub fn len(&self) -> (r: L)
        ensures
            r == self.spec_len(),
            self.wf() ==> r.as_nat() == self.view().len(),
    {
        self.len
    }

    /// Whether there is no element.
    pub fn is_empty(&self) -> (r: bool)
        ensures
            r == (self.view().len() == 0),
    {
        self.data.len() == 0
    }

    /// Owned method that returns the original slice with its associated lifetime.
    pub fn into_slice(self) -> (r: &'any [T])
        ensures
            r@ == self.view(),
    {
        self.data
    }
}

impl<'any, T> ShortSlice<'any, u8, T> {
    /// If necessary, `slice` is truncated to the maximum length capacity.
    pub fn new_truncated_u8(slice: &'any [T]) -> (r: Self)
        ensures
            r.wf(),
            slice@.len() <= 255 ==> r.view() == slice@,
            slice@.len() > 255 ==> r.view() == slice@.take(255),
    {
        if slice.len() <= 255 {
            ShortSlice { data: slice, len: slice.len() as u8 }
        } else {
            ShortSlice { data: &slice[0..255], len: 255 }
        }
    }
}

/// [`ShortStr`] with a capacity limited by `u8`.
pub type ShortStrU8<'any> = ShortStr<'any, u8>;

/// [`ShortStr`] with a capacity limited by `u16`.
pub type ShortStrU16<'any> = ShortStr<'any, u16>;

/// A borrowed string whose length in bytes fits in `L`.
#[derive(Clone, Copy)]
pub struct ShortStr<'any, L> {
    data: &'any str,
    len: L,
}

impl<'any, L: LinearStorageLen> ShortStr<'any, L> {
    /// The bytes of the string.
    pub closed spec fn view(&self) -> Seq<u8> {
        self.data.spec_bytes()
    }

    /// The length that the instance records.
    pub closed spec fn spec_len(&self) -> L {
        self.len
    }

    /// The length is the number of bytes.
    pub closed spec fn wf(&self) -> bool {
        self.len.as_nat() == self.data.spec_bytes().len()
    }

    /// Throws an error if the length of `slice` is greater than the capacity.
    pub fn new(slice: &'any str) -> (r: Result<Self, Error>)
        ensures
            (slice.spec_bytes().len() <= L::type_max()) == (r is Ok),
            r matches Ok(s) ==> s.wf() && s.view() == slice.spec_bytes(),
            r matches Err(e) ==> e == Error::OutOfBoundsArithmetic,
    {
        let len = L::from_usize(slice.as_bytes().len())?;
        Ok(ShortStr { data: slice, len })
    }

    /// Length
    pub fn len(self) -> (r: L)
        ensures
            r == self.spec_len(),
            self.wf() ==> r.as_nat() == self.view().len(),
    {
        self.len
    }

    /// Underlying byte slice
    pub fn into_short_slice(self) -> (r: ShortSlice<'any, L, u8>)
        requires
            self.wf(),
        ensures
            r.wf(),
            r.view() == self.view(),
    {
        ShortSlice { data: self.data.as_bytes(), len: self.len }
    }

    /// Owned method that returns the original string with its associated lifetime.
    pub fn into_str(self) -> (r: &'any str)
        ensures
            r.spec_bytes() == self.view(),
    {
        self.data
    }
}

impl<'any> ShortStr<'any, u8> {
    /// If necessary, `slice` is truncated to the maximum length capacity, at the last character
    /// that ends within it.
    pub fn new_truncated_u8(slice: &'any str) -> (r: Self)
        ensures
            r.wf(),
            r.view().len() <= 255,
            slice.spec_bytes().len() <= 255 ==> r.view() == slice.spec_bytes(),
            r.view() == slice.spec_bytes().take(r.view().len() as int),
            slice.spec_bytes().len() > 255 ==> spec_is_char_boundary(
                r.view().len() as int,
                slice.spec_bytes(),
            ) && forall|k: int|
                r.view().len() < k <= 255 ==> !spec_is_char_boundary(k, slice.spec_bytes()),
    {
        let bytes = slice.as_bytes();
        if bytes.len() <= 255 {
            assert(slice.spec_bytes().take(bytes@.len() as int) == slice.spec_bytes());
            return ShortStr { data: slice, len: bytes.len() as u8 };
        }
        let mut end: usize = 255;
        while end > 0
            invariant
                end <= 255,
                bytes@.len() > 255,
                bytes@ == slice.spec_bytes(),
                forall|k: int| end < k <= 255 ==> !spec_is_char_boundary(k, slice.spec_bytes()),
            decreases end,
        {
            if is_char_boundary(end, bytes) {
                match str_get(slice, 0, end) {
                    Some(piece) => {
                        assert(slice.spec_bytes().subrange(0, end as int) == slice.spec_bytes().take(end as int));
                        return ShortStr { data: piece, len: end as u8 };
                    },
                    None => {},
                }
            }
            end = end - 1;
        }
        match str_get(slice, 0, 0) {
            Some(piece) => {
                assert(slice.spec_bytes().subrange(0, 0) == slice.spec_bytes().take(0));
                ShortStr { data: piece, len: 0 }
            },
            None => {
                let piece = crate::collection::text::empty_str();
                assert(piece.spec_bytes() == slice.spec_bytes().take(0));
                ShortStr { data: piece, len: 0 }
            },
        }
    }
}

} // verus!

verus! {

/// [`ShortBoxSlice`] with a capacity limited by `u8`.
pub type ShortBoxSliceU8<T> = ShortBoxSlice<u8, T>;

/// [`ShortBoxSlice`] with a capacity limited by `u16`.
pub type ShortBoxSliceU16<T> = ShortBoxSlice<u16, T>;

/// An owned slice whose length fits in `L`.
pub struct ShortBoxSlice<L, T> {
    data: Box<[T]>,
    len: L,
}

impl<L: LinearStorageLen, T> ShortBoxSlice<L, T> {
    /// The elements.
    pub closed spec fn view(&self) -> Seq<T> {
        self.data@
    }

    /// The length that the instance records.
    pub closed spec fn spec_len(&self) -> L {
        self.len
    }

    /// Throws an error if the length is greater than the chosen capacity.
    pub fn new(data: Box<[T]>) -> (r: Result<Self, Error>)
        ensures
            (data@.len() <= L::type_max()) == (r is Ok),
            r matches Ok(s) ==> s.view() == data@ && s.spec_len().as_nat() == data@.len(),
            r matches Err(e) ==> e == Error::OutOfBoundsArithmetic,
    {
        let len = L::from_usize(data.len())?;
        Ok(ShortBoxSlice { data, len })
    }

    /// Length
    pub fn len(&self) -> (r: L)
        ensures
            r == self.spec_len(),
    {
        self.len
    }

    /// The elements.
    pub fn as_slice(&self) -> (r: &[T])
        ensures
            r@ == self.view(),
    {
        &self.data
    }
}

/// [`ShortBoxVector`] with a capacity limited by `u8`.
pub type ShortBoxVectorU8<T> = ShortBoxVector<u8, T>;

/// [`ShortBoxVector`] with a capacity limited by `u16`.
pub type ShortBoxVectorU16<T> = ShortBoxVector<u16, T>;

/// An owned sequence of elements whose length fits in `L`.
pub struct ShortBoxVector<L, T> {
    data: Box<[T]>,
    len: L,
}

impl<L: LinearStorageLen, T> ShortBoxVector<L, T> {
    /// The elements.
    pub closed spec fn view(&self) -> Seq<T> {
        self.data@
    }

    /// The length that the instance records.
    pub closed spec fn spec_len(&self) -> L {
        self.len
    }

    /// Throws an error if the length is greater than the chosen capacity.
    pub fn new(data: Box<[T]>) -> (r: Result<Self, Error>)
        ensures
            (data@.len() <= L::type_max()) == (r is Ok),
            r matches Ok(s) ==> s.view() == data@ && s.spec_len().as_nat() == data@.len(),
            r matches Err(e) ==> e == Error::OutOfBoundsArithmetic,
    {
        let len = L::from_usize(data.len())?;
        Ok(ShortBoxVector { data, len })
    }

    /// The elements.
    pub fn as_slice(&self) -> (r: &[T])
        ensures
            r@ == self.view(),
    {
        &self.data
    }
}

/// [`ShortBoxString`] with a capacity limited by `u8`.
pub type ShortBoxStringU8 = ShortBoxString<u8>;

/// [`ShortBoxString`] with a capacity limited by `u16`.
pub type ShortBoxStringU16 = ShortBoxString<u16>;

/// An owned string whose length in bytes fits in `L`.
pub struct ShortBoxString<L> {
    data: String,
    len: L,
}

impl<L: LinearStorageLen> ShortBoxString<L> {
    /// The bytes of the string.
    pub closed spec fn view(&self) -> Seq<u8> {
        encode_utf8(self.data@)
    }

    /// Throws an error if the length is greater than the chosen capacity.
    pub fn new(data: String) -> (r: Result<Self, Error>)
        ensures
            (encode_utf8(data@).len() <= L::type_max()) == (r is Ok),
            r matches Ok(s) ==> s.view() == encode_utf8(data@),
            r matches Err(e) ==> e == Error::OutOfBoundsArithmetic,
    {
        let len = L::from_usize(data.as_str().as_bytes().len())?;
        Ok(ShortBoxString { data, len })
    }

    /// The string.
    pub fn as_str(&self) -> (r: &str)
        ensures
            r.spec_bytes() == self.view(),
    {
        self.data.as_str()
    }
}

/// The bytes of a boxed string, in a box of their own.
///
/// Wraps `str::into_boxed_bytes`, which hands over the same bytes without copying them.
/// Trusted, not proved.
#[verifier::external_body]
fn str_into_boxed_bytes(data: Box<str>) -> (r: Box<[u8]>)
    ensures
        r@ == (*data).spec_bytes(),
{
    data.into_boxed_bytes()
}

/// [`ShortBoxStr`] with a capacity limited by `u8`.
pub type ShortBoxStrU8 = ShortBoxStr<u8>;

/// [`ShortBoxStr`] with a capacity limited by `u16`.
pub type ShortBoxStrU16 = ShortBoxStr<u16>;

/// An owned string whose length in bytes fits in `L`, kept as the bytes of a [`ShortBoxSlice`].
pub struct ShortBoxStr<L>(ShortBoxSlice<L, u8>);

impl<L: LinearStorageLen> ShortBoxStr<L> {
    /// The bytes of the string.
    pub closed spec fn view(&self) -> Seq<u8> {
        self.0.view()
    }

    /// The length that the instance records.
    pub closed spec fn spec_len(&self) -> L {
        self.0.spec_len()
    }

    /// Throws an error if the length is greater than the chosen capacity.
    pub fn new(data: Box<str>) -> (r: Result<Self, Error>)
        ensures
            ((*data).spec_bytes().len() <= L::type_max()) == (r is Ok),
            r matches Ok(s) ==> s.view() == (*data).spec_bytes() && s.spec_len().as_nat()
                == (*data).spec_bytes().len(),
            r matches Err(e) ==> e == Error::OutOfBoundsArithmetic,
    {
        Ok(ShortBoxStr(ShortBoxSlice::new(str_into_boxed_bytes(data))?))
    }

    /// Underlying byte slice
    pub fn into_short_slice(self) -> (r: ShortBoxSlice<L, u8>)
        ensures
            r.view() == self.view(),
            r.spec_len() == self.spec_len(),
    {
        self.0
    }

    /// Length
    pub fn len(&self) -> (r: L)
        ensures
            r == self.spec_len(),
    {
        self.0.len()
    }
}

} // verus!
