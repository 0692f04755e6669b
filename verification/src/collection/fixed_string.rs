use crate::collection::text::{empty_str, slice_as_array, str_from_utf8};
use crate::error::Error;
use vstd::prelude::*;
use vstd::string::StringSliceAdditionalSpecFns;
use vstd::utf8::valid_utf8;

verus! {

/// Errors of [`FixedString`].
#[derive(Clone, Copy, Debug, PartialEq, Eq, Structural)]
pub enum FixedStringError {
    /// The provided bytes are not UTF-8
    NotUtf8,
    /// The provided bytes do not have the length of the string
    LengthMismatch,
}

/// A string of exactly `N` bytes.
#[derive(Clone, Copy)]
pub struct FixedString<const N: usize>([u8; N]);

impl<const N: usize> View for FixedString<N> {
    type V = Seq<u8>;

    closed spec fn view(&self) -> Seq<u8> {
        self.0@
    }
}

impl<const N: usize> FixedString<N> {
    /// The bytes are valid UTF-8.
    pub closed spec fn wf(&self) -> bool {
        valid_utf8(self.0@)
    }

    /// Constructs a new instance from bytes that have to be valid UTF-8.
    pub fn from_array(data: [u8; N]) -> (r: Result<Self, Error>)
        ensures
            valid_utf8(data@) == (r is Ok),
            r matches Ok(s) ==> s.wf() && s@ == data@,
            r matches Err(e) ==> e == Error::FixedStringError(FixedStringError::NotUtf8),
    {
        if str_from_utf8(data.as_slice()).is_none() {
            return Err(Error::FixedStringError(FixedStringError::NotUtf8));
        }
        Ok(FixedString(data))
    }

    /// Constructs a new instance from a slice of `N` bytes that have to be valid UTF-8.
    pub fn from_slice(data: &[u8]) -> (r: Result<Self, Error>)
        ensures
            (data@.len() == N && valid_utf8(data@)) == (r is Ok),
            r matches Ok(s) ==> s.wf() && s@ == data@,
            r matches Err(e) ==> (data@.len() != N && e == Error::FixedStringError(
                FixedStringError::LengthMismatch,
            )) || (data@.len() == N && e == Error::FixedStringError(FixedStringError::NotUtf8)),
    {
        if data.len() != N {
            return Err(Error::FixedStringError(FixedStringError::LengthMismatch));
        }
        if str_from_utf8(data).is_none() {
            return Err(Error::FixedStringError(FixedStringError::NotUtf8));
        }
        match slice_as_array(data) {
            Some(array) => Ok(FixedString(*array)),
            None => Err(Error::FixedStringError(FixedStringError::LengthMismatch)),
        }
    }

    /// Constructs a new instance from the bytes of `from`, which has to have `N` of them.
    pub fn try_from_str(from: &str) -> (r: Result<Self, Error>)
        ensures
            (from.spec_bytes().len() == N) == (r is Ok),
            r matches Ok(s) ==> s.wf() && s@ == from.spec_bytes(),
            r matches Err(e) ==> e == Error::FixedStringError(FixedStringError::LengthMismatch),
    {
        let bytes = from.as_bytes();
        if bytes.len() != N {
            return Err(Error::FixedStringError(FixedStringError::LengthMismatch));
        }
        proof {
            crate::collection::text::lemma_str_valid(from);
        }
        match slice_as_array(bytes) {
            Some(array) => Ok(FixedString(*array)),
            None => Err(Error::FixedStringError(FixedStringError::LengthMismatch)),
        }
    }

    /// The string.
    pub fn as_str(&self) -> (r: &str)
        requires
            self.wf(),
        ensures
            r.spec_bytes() == self@,
    {
        match str_from_utf8(self.0.as_slice()) {
            Some(elem) => elem,
            None => {
                assert(false);
                empty_str()
            },
        }
    }

    /// The underlying bytes.
    pub fn into_inner(self) -> (r: [u8; N])
        ensures
            r@ == self@,
    {
        self.0
    }
}

impl<const N: usize> Default for FixedString<N> {
    fn default() -> (r: Self)
        ensures
            r.wf(),
            r@ == Seq::new(N as nat, |_j: int| 0u8),
    {
        let r = FixedString([0u8; N]);
        proof {
            assert(r@ =~= Seq::new(N as nat, |_j: int| 0u8));
            crate::collection::array_string::lemma_zeros_valid(r@);
        }
        r
    }
}

} // verus!
