use vstd::prelude::*;

verus! {

/// A borrowed buffer whose first `initialized` elements hold meaningful data and whose other
/// slots are free to be written.
pub struct MaybeUninitSlice<'any, T> {
    initialized: usize,
    bytes: &'any mut [T],
}

impl<'any, T> MaybeUninitSlice<'any, T> {
    /// Every slot of the buffer.
    pub closed spec fn view(&self) -> Seq<T> {
        self.bytes@
    }

    /// How many of the first slots hold meaningful data.
    pub closed spec fn spec_initialized(&self) -> nat {
        self.initialized as nat
    }

    /// The meaningful part never exceeds the buffer.
    pub closed spec fn wf(&self) -> bool {
        self.initialized <= self.bytes@.len()
    }

    /// A buffer whose slots all hold meaningful data.
    pub fn from_initialized(bytes: &'any mut [T]) -> (r: Self)
        ensures
            r.wf(),
            r@ == old(bytes)@,
            r.spec_initialized() == old(bytes)@.len(),
    {
        let initialized = bytes.len();
        MaybeUninitSlice { initialized, bytes }
    }

    /// A buffer none of whose slots holds meaningful data yet.
    pub fn from_uninitialized(bytes: &'any mut [T]) -> (r: Self)
        ensures
            r.wf(),
            r@ == old(bytes)@,
            r.spec_initialized() == 0,
    {
        MaybeUninitSlice { initialized: 0, bytes }
    }

    /// Every slot of the buffer.
    pub fn all(&self) -> (r: &[T])
        ensures
            r@ == self@,
    {
        self.bytes
    }

    /// Mutable version of [`Self::all`].
    pub fn all_mut(&mut self) -> (r: &mut [T])
        ensures
            r@ == old(self)@,
            final(self)@ == final(r)@,
            final(self).spec_initialized() == old(self).spec_initialized(),
    {
        &mut *self.bytes
    }

    /// Records that the first `len` slots, or all of them where there are fewer, hold meaningful
    /// data.
    pub fn assume_initialized(&mut self, len: usize)
        ensures
            final(self).wf(),
            final(self)@ == old(self)@,
            final(self).spec_initialized() == if len > old(self)@.len() {
                old(self)@.len()
            } else {
                len as nat
            },
    {
        let bytes_len = self.bytes.len();
        self.initialized = if len > bytes_len {
            bytes_len
        } else {
            len
        };
    }

    /// The number of slots.
    pub fn len(&self) -> (r: usize)
        ensures
            r == self@.len(),
    {
        self.bytes.len()
    }

    /// How many of the first slots hold meaningful data.
    pub fn initialized(&self) -> (r: usize)
        ensures
            r == self.spec_initialized(),
    {
        self.initialized
    }
}

} // verus!
