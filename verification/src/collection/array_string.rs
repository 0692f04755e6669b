use crate::collection::linear_storage_len::LinearStorageLen;
use crate::collection::misc::{is_char_boundary, spec_is_char_boundary};
use crate::collection::slices::{concat, lemma_concat_push};
use crate::collection::text::{
    decode_char, empty_str, encode_char, lemma_concat_valid, lemma_encode_utf8_prefix_len,
    lemma_encode_utf8_push, lemma_last_scalar,
    lemma_pop_first_scalar_valid, lemma_split_at_leading_byte, lemma_str_valid, slice_as_array,
    str_from_utf8,
};
use crate::error::Error;
use vstd::prelude::*;
use vstd::string::StringSliceAdditionalSpecFns;
use vstd::utf8::{
    decode_first_scalar, encode_scalar, encode_utf8, is_continuation_byte, length_of_first_scalar,
    pop_first_scalar, take_first_scalar, valid_utf8,
};

verus! {

/// [`ArrayString`] with a capacity limited by `u8`.
pub type ArrayStringU8<const N: usize> = ArrayString<u8, N>;

/// [`ArrayString`] with a capacity limited by `u16`.
pub type ArrayStringU16<const N: usize> = ArrayString<u16, N>;

/// [`ArrayString`] with a capacity limited by `u32`.
pub type ArrayStringU32<const N: usize> = ArrayString<u32, N>;

/// [`ArrayString`] with a capacity limited by `usize`.
pub type ArrayStringUsize<const N: usize> = ArrayString<usize, N>;

/// Errors of [`ArrayString`].
#[derive(Clone, Copy, Debug, PartialEq, Eq, Structural)]
pub enum ArrayStringError {
    /// Inner array is not fully
    IncompleteArray,
    /// There is no room for the requested bytes.
    ReserveOverflow,
}

/// The view of `others` as the bytes of each string.
pub open spec fn strs_bytes(others: Seq<&str>) -> Seq<Seq<u8>> {
    others.map_values(|s: &str| s.spec_bytes())
}

/// A sequence of zero bytes is valid UTF-8.
pub(crate) proof fn lemma_zeros_valid(bytes: Seq<u8>)
    requires
        forall|j: int| 0 <= j < bytes.len() ==> bytes[j] == 0,
    ensures
        valid_utf8(bytes),
    decreases bytes.len(),
{
    if bytes.len() > 0 {
        let rest = pop_first_scalar(bytes);
        assert(rest =~= bytes.skip(1));
        lemma_zeros_valid(rest);
    }
}

/// A string of at most `N` bytes kept inline, whose length is held by an `L`.
pub struct ArrayString<L, const N: usize> {
    len: L,
    data: Vec<u8>,
}

impl<L: LinearStorageLen, const N: usize> View for ArrayString<L, N> {
    type V = Seq<u8>;

    closed spec fn view(&self) -> Seq<u8> {
        self.data@
    }
}

impl<L: LinearStorageLen, const N: usize> ArrayString<L, N> {
    /// The length agrees with the bytes, which are valid UTF-8 and never exceed `N`, and `N`
    /// respects the upper bound of `L`.
    pub closed spec fn wf(&self) -> bool {
        &&& self.len.as_nat() == self.data@.len()
        &&& self.data@.len() <= N
        &&& N <= L::upper_bound()
        &&& valid_utf8(self.data@)
    }

    /// A well-formed string holds at most `N` bytes, and `N` lies within the bounds of the
    /// length type.
    pub proof fn lemma_capacity(&self)
        requires
            self.wf(),
        ensures
            self@.len() <= N,
            N <= L::upper_bound(),
            L::upper_bound() <= L::type_max(),
            L::type_max() <= usize::MAX,
    {
        L::lemma_upper_bound();
    }

    /// The error that every operation reports when there is no room.
    pub open spec fn reserve_error() -> Error {
        Error::ArrayStringError(ArrayStringError::ReserveOverflow)
    }

    /// Constructs a new instance from a complete byte array.
    pub fn from_array(data: [u8; N]) -> (r: Result<Self, Error>)
        requires
            N <= L::upper_bound(),
        ensures
            valid_utf8(data@) == (r is Ok),
            r matches Ok(s) ==> s.wf() && s@ == data@,
            r matches Err(e) ==> e == Error::InvalidUtf8,
    {
        let mut bytes: Vec<u8> = Vec::new();
        let mut idx: usize = 0;
        while idx < N
            invariant
                idx <= N,
                data@.len() == N,
                bytes@ == data@.take(idx as int),
            decreases N - idx,
        {
            bytes.push(data[idx]);
            assert(data@.take(idx + 1) == data@.take(idx as int).push(data@[idx as int]));
            idx = idx + 1;
        }
        assert(data@.take(N as int) == data@);
        if str_from_utf8(bytes.as_slice()).is_none() {
            return Err(Error::InvalidUtf8);
        }
        let zero = L::zero();
        proof {
            zero.lemma_bounds();
        }
        let len = match L::from_usize(N) {
            Ok(elem) => elem,
            Err(_) => return Err(Error::OutOfBoundsArithmetic),
        };
        Ok(ArrayString { len, data: bytes })
    }

    /// Constructs a new instance from a byte array and an explicit length. A length greater than
    /// the capacity is cut to `N`.
    pub fn from_parts(data: [u8; N], len: L) -> (r: Result<Self, Error>)
        requires
            N <= L::upper_bound(),
        ensures
            ({
                let n = if len.as_nat() > N {
                    N as int
                } else {
                    len.as_nat() as int
                };
                &&& valid_utf8(data@.take(n)) == (r is Ok)
                &&& r matches Ok(s) ==> s.wf() && s@ == data@.take(n)
                &&& r matches Err(e) ==> e == Error::InvalidUtf8
            }),
    {
        proof {
            L::lemma_upper_bound();
            len.lemma_bounds();
        }
        let requested = len.usize();
        let n = if requested > N {
            N
        } else {
            requested
        };
        let mut bytes: Vec<u8> = Vec::new();
        let mut idx: usize = 0;
        while idx < n
            invariant
                idx <= n <= N,
                data@.len() == N,
                bytes@ == data@.take(idx as int),
            decreases n - idx,
        {
            bytes.push(data[idx]);
            assert(data@.take(idx + 1) == data@.take(idx as int).push(data@[idx as int]));
            idx = idx + 1;
        }
        if str_from_utf8(bytes.as_slice()).is_none() {
            return Err(Error::InvalidUtf8);
        }
        let new_len = match L::from_usize(n) {
            Ok(elem) => elem,
            Err(_) => return Err(Error::OutOfBoundsArithmetic),
        };
        Ok(ArrayString { len: new_len, data: bytes })
    }

    /// Constructs a new, empty instance.
    pub fn new() -> (r: Self)
        requires
            N <= L::upper_bound(),
        ensures
            r.wf(),
            r@ == Seq::<u8>::empty(),
    {
        let r = ArrayString { len: L::zero(), data: Vec::new() };
        assert(valid_utf8(r.data@));
        r
    }

    /// Constructs a new instance full of `NULL` characters.
    pub fn zeroed() -> (r: Self)
        requires
            N <= L::upper_bound(),
        ensures
            r.wf(),
            r@ == Seq::new(N as nat, |_j: int| 0u8),
    {
        let zero = L::zero();
        proof {
            zero.lemma_bounds();
        }
        let data: Vec<u8> = vec![0u8; N];
        proof {
            lemma_zeros_valid(data@);
            assert(data@ =~= Seq::new(N as nat, |_j: int| 0u8));
        }
        let len = match L::from_usize(N) {
            Ok(elem) => elem,
            Err(_) => zero,
        };
        ArrayString { len, data }
    }

    /// The filled elements that composed a string.
    pub fn as_str(&self) -> (r: &str)
        requires
            self.wf(),
        ensures
            r.spec_bytes() == self@,
    {
        match str_from_utf8(self.data.as_slice()) {
            Some(elem) => elem,
            None => {
                assert(false);
                empty_str()
            },
        }
    }

    /// Extracts a string slice containing the entire instance.
    pub fn as_slice(&self) -> (r: &str)
        requires
            self.wf(),
        ensures
            r.spec_bytes() == self@,
    {
        self.as_str()
    }

    /// The whole array of bytes, provided that it is full.
    pub fn data(&self) -> (r: Result<&[u8; N], Error>)
        requires
            self.wf(),
        ensures
            (self@.len() == N) == (r is Ok),
            r matches Ok(array) ==> array@ == self@,
            r matches Err(e) ==> e == Error::ArrayStringError(ArrayStringError::IncompleteArray),
    {
        if self.len.usize() != N {
            return Err(Error::ArrayStringError(ArrayStringError::IncompleteArray));
        }
        match slice_as_array(self.data.as_slice()) {
            Some(elem) => Ok(elem),
            None => Err(Error::ArrayStringError(ArrayStringError::IncompleteArray)),
        }
    }

    /// Constructs a new instance with the characters of `iter`.
    pub fn from_iterator(iter: Vec<char>) -> (r: Result<Self, Error>)
        requires
            N <= L::upper_bound(),
        ensures
            r matches Ok(s) ==> s.wf() && s@ == encode_utf8(iter@),
            (encode_utf8(iter@).len() <= N) == (r is Ok),
            r matches Err(e) ==> e == Self::reserve_error(),
    {
        let mut this = Self::new();
        this.extend_from_iter(iter)?;
        assert(Seq::<u8>::empty() + encode_utf8(iter@)
            =~= encode_utf8(iter@));
        Ok(this)
    }

    /// Returns the total number of bytes the instance can hold.
    pub fn capacity(&self) -> (r: L)
        requires
            self.wf(),
        ensures
            r.as_nat() == N,
    {
        proof {
            self.len.lemma_bounds();
        }
        match L::from_usize(N) {
            Ok(elem) => elem,
            Err(_) => self.len,
        }
    }

    /// Clears the instance, removing all values.
    pub fn clear(&mut self)
        requires
            old(self).wf(),
        ensures
            final(self).wf(),
            final(self)@ == Seq::<u8>::empty(),
    {
        self.data.clear();
        self.len = L::zero();
        assert(valid_utf8(self.data@));
    }

    /// Appends the characters of `iter`, one at a time, until one does not fit.
    pub fn extend_from_iter(&mut self, iter: Vec<char>) -> (r: Result<(), Error>)
        requires
            old(self).wf(),
        ensures
            final(self).wf(),
            (old(self)@.len() + encode_utf8(iter@).len() <= N) == (r is Ok),
            r is Ok ==> final(self)@ == old(self)@ + encode_utf8(iter@),
            r matches Err(e) ==> e == Self::reserve_error(),
    {
        let ghost start = self@;
        let mut idx: usize = 0;
        while idx < iter.len()
            invariant
                self.wf(),
                start == old(self)@,
                idx <= iter@.len(),
                self@ == start + encode_utf8(iter@.take(idx as int)),
            decreases iter@.len() - idx,
        {
            proof {
                lemma_encode_utf8_push(iter@, idx as int);
            }
            let elem = iter[idx];
            match self.push(elem) {
                Ok(()) => {},
                Err(e) => {
                    proof {
                        lemma_encode_utf8_prefix_len(iter@, (idx + 1) as int);
                    }
                    return Err(e);
                },
            }
            assert(self@ == start + encode_utf8(iter@.take(idx + 1)));
            idx = idx + 1;
        }
        assert(iter@.take(idx as int) =~= iter@);
        Ok(())
    }

    /// Returns the number of bytes.
    pub fn len(&self) -> (r: L)
        requires
            self.wf(),
        ensures
            r.as_nat() == self@.len(),
    {
        self.len
    }

    /// Removes the last character and returns it, or `None` if the instance is empty.
    pub fn pop(&mut self) -> (r: Option<char>)
        requires
            old(self).wf(),
        ensures
            final(self).wf(),
            old(self)@.len() == 0 ==> r is None && final(self)@ == old(self)@,
            old(self)@.len() > 0 ==> (r matches Some(c) && final(self)@ + encode_scalar(c as u32)
                == old(self)@),
    {
        let len = self.data.len();
        if len == 0 {
            return None;
        }
        let mut begin = len - 1;
        while begin > 0 && 0x80 <= self.data[begin] && self.data[begin] <= 0xbf
            invariant
                self.wf(),
                len == self.data@.len(),
                begin < len,
                forall|j: int| begin < j < len ==> is_continuation_byte(#[trigger] self.data@[j]),
            decreases begin,
        {
            begin = begin - 1;
        }
        let ghost bytes = self.data@;
        proof {
            if begin == 0 {
                lemma_pop_first_scalar_valid(bytes);
            }
            lemma_last_scalar(bytes, begin as int);
        }
        let (ch, _width) = decode_char(self.data.as_slice(), begin);
        self.data.truncate(begin);
        self.len = match L::from_usize(begin) {
            Ok(elem) => elem,
            Err(_) => self.len,
        };
        proof {
            self.len.lemma_bounds();
            assert(self.data@ == bytes.take(begin as int));
            assert(bytes.take(begin as int) + bytes.skip(begin as int) =~= bytes);
        }
        Some(ch)
    }

    /// Appends `elem` to the end.
    pub fn push(&mut self, elem: char) -> (r: Result<(), Error>)
        requires
            old(self).wf(),
        ensures
            final(self).wf(),
            (old(self)@.len() + encode_scalar(elem as u32).len() <= N) == (r is Ok),
            r is Ok ==> final(self)@ == old(self)@ + encode_scalar(elem as u32),
            r is Err ==> final(self)@ == old(self)@,
            r matches Err(e) ==> e == Self::reserve_error(),
    {
        let bytes = encode_char(elem);
        let width = bytes.len();
        let len = self.data.len();
        if width > N - len {
            return Err(Error::ArrayStringError(ArrayStringError::ReserveOverflow));
        }
        let ghost prev = self.data@;
        let mut idx: usize = 0;
        while idx < width
            invariant
                idx <= width,
                width == bytes@.len(),
                self.data@ == prev + bytes@.take(idx as int),
            decreases width - idx,
        {
            self.data.push(bytes[idx]);
            assert(bytes@.take(idx + 1) == bytes@.take(idx as int).push(bytes@[idx as int]));
            idx = idx + 1;
        }
        assert(bytes@.take(width as int) == bytes@);
        proof {
            vstd::utf8::encode_utf8_valid_utf8(seq![elem]);
            lemma_concat_valid(prev, bytes@);
            self.len.lemma_bounds();
        }
        self.len = match L::from_usize(len + width) {
            Ok(elem) => elem,
            Err(_) => self.len,
        };
        Ok(())
    }

    /// Appends a given string slice onto the end of this instance.
    pub fn push_str(&mut self, other: &str) -> (r: Result<(), Error>)
        requires
            old(self).wf(),
        ensures
            final(self).wf(),
            (other.spec_bytes().len() <= L::type_max() && old(self)@.len()
                + other.spec_bytes().len() <= N) == (r is Ok),
            r is Ok ==> final(self)@ == old(self)@ + other.spec_bytes(),
            r is Err ==> final(self)@ == old(self)@,
            r matches Err(e) ==> e == Self::reserve_error() || e == Error::OutOfBoundsArithmetic,
    {
        let bytes = other.as_bytes();
        let other_len = bytes.len();
        let _ = L::from_usize(other_len)?;
        let len = self.data.len();
        if other_len > N - len {
            return Err(Error::ArrayStringError(ArrayStringError::ReserveOverflow));
        }
        let ghost prev = self.data@;
        let mut idx: usize = 0;
        while idx < other_len
            invariant
                idx <= other_len,
                other_len == bytes@.len(),
                self.data@ == prev + bytes@.take(idx as int),
            decreases other_len - idx,
        {
            self.data.push(bytes[idx]);
            assert(bytes@.take(idx + 1) == bytes@.take(idx as int).push(bytes@[idx as int]));
            idx = idx + 1;
        }
        assert(bytes@.take(other_len as int) == bytes@);
        proof {
            lemma_str_valid(other);
            lemma_concat_valid(prev, bytes@);
            self.len.lemma_bounds();
        }
        self.len = match L::from_usize(len + other_len) {
            Ok(elem) => elem,
            Err(_) => self.len,
        };
        Ok(())
    }

    /// Appends a set of string slices onto the end of this instance. Returns the number of bytes
    /// appended.
    pub fn push_strs(&mut self, others: &[&str]) -> (r: Result<L, Error>)
        requires
            old(self).wf(),
        ensures
            final(self).wf(),
            ({
                let added = concat(strs_bytes(others@)).len();
                (added <= L::type_max() && old(self)@.len() + added <= N) == (r is Ok)
            }),
            r matches Ok(n) ==> n.as_nat() == concat(strs_bytes(others@)).len() && final(self)@
                == old(self)@ + concat(strs_bytes(others@)),
            r is Err ==> final(self)@ == old(self)@,
            r matches Err(e) ==> e == Self::reserve_error() || e == Error::OutOfBoundsArithmetic,
    {
        let ghost ss = strs_bytes(others@);
        proof {
            self.len.lemma_bounds();
        }
        let mut total: usize = 0;
        let mut k: usize = 0;
        while k < others.len()
            invariant
                k <= others@.len(),
                ss == strs_bytes(others@),
                total == concat(ss.take(k as int)).len(),
                *self == *old(self),
                self.wf(),
            decreases others@.len() - k,
        {
            proof {
                lemma_concat_push(ss, k as int);
            }
            let other_len = others[k].as_bytes().len();
            if other_len > usize::MAX - total {
                proof {
                    crate::collection::slices::lemma_concat_prefix_len(ss, (k + 1) as int);
                }
                return Err(Error::OutOfBoundsArithmetic);
            }
            total = total + other_len;
            k = k + 1;
        }
        assert(ss.take(k as int) =~= ss);
        let others_len = L::from_usize(total)?;
        let len = self.data.len();
        if total > N - len {
            return Err(Error::ArrayStringError(ArrayStringError::ReserveOverflow));
        }
        let ghost prev = self.data@;
        let mut k: usize = 0;
        while k < others.len()
            invariant
                self.wf(),
                k <= others@.len(),
                ss == strs_bytes(others@),
                concat(ss).len() == total,
                prev.len() + total <= N,
                self.data@ == prev + concat(ss.take(k as int)),
            decreases others@.len() - k,
        {
            proof {
                lemma_concat_push(ss, k as int);
                crate::collection::slices::lemma_concat_prefix_len(ss, (k + 1) as int);
            }
            let ghost before = self.data@;
            let r = self.push_str(others[k]);
            proof {
                self.len.lemma_bounds();
            }
            assert(r is Ok);
            assert(self.data@ == prev + concat(ss.take(k + 1)));
            k = k + 1;
        }
        assert(ss.take(k as int) =~= ss);
        Ok(others_len)
    }

    /// How many bytes can still be added.
    pub fn remaining(&self) -> (r: L)
        requires
            self.wf(),
        ensures
            r.as_nat() == N - self@.len(),
    {
        proof {
            self.len.lemma_bounds();
        }
        match L::from_usize(N - self.data.len()) {
            Ok(elem) => elem,
            Err(_) => self.len,
        }
    }

    /// Removes the character that begins at byte `index` and returns it, or `None` where no
    /// character begins there.
    pub fn remove(&mut self, index: L) -> (r: Option<char>)
        requires
            old(self).wf(),
        ensures
            final(self).wf(),
            (index.as_nat() < old(self)@.len() && spec_is_char_boundary(
                index.as_nat() as int,
                old(self)@,
            )) == (r is Some),
            r is None ==> final(self)@ == old(self)@,
            r matches Some(c) ==> {
                let i = index.as_nat() as int;
                let w = encode_scalar(c as u32).len() as int;
                &&& i + w <= old(self)@.len()
                &&& old(self)@.subrange(i, i + w) == encode_scalar(c as u32)
                &&& final(self)@ == old(self)@.take(i) + old(self)@.skip(i + w)
            },
    {
        let idx = index.usize();
        let len = self.data.len();
        if idx >= len || !is_char_boundary(idx, self.data.as_slice()) {
            return None;
        }
        let ghost bytes = self.data@;
        proof {
            lemma_split_at_leading_byte(bytes, idx as int);
            lemma_pop_first_scalar_valid(bytes.skip(idx as int));
        }
        let (ch, width) = decode_char(self.data.as_slice(), idx);
        let mut kept: Vec<u8> = Vec::new();
        let mut pos: usize = 0;
        while pos < len
            invariant
                len == bytes.len(),
                self.data@ == bytes,
                idx < len,
                1 <= width <= len - idx,
                pos <= len,
                kept@ == bytes.subrange(0, if pos < idx {
                    pos as int
                } else {
                    idx as int
                }) + if pos <= idx + width {
                    Seq::<u8>::empty()
                } else {
                    bytes.subrange((idx + width) as int, pos as int)
                },
            decreases len - pos,
        {
            if pos < idx || pos >= idx + width {
                kept.push(self.data[pos]);
            }
            proof {
                if pos < idx {
                    assert(bytes.subrange(0, pos + 1) == bytes.subrange(0, pos as int).push(
                        bytes[pos as int],
                    ));
                } else if pos >= idx + width {
                    assert(bytes.subrange((idx + width) as int, pos + 1) == bytes.subrange(
                        (idx + width) as int,
                        pos as int,
                    ).push(bytes[pos as int]));
                }
            }
            pos = pos + 1;
        }
        proof {
            let sub = bytes.skip(idx as int);
            assert(bytes.subrange(0, idx as int) == bytes.take(idx as int));
            assert(bytes.subrange((idx + width) as int, len as int) == bytes.skip(
                (idx + width) as int,
            ));
            assert(pop_first_scalar(sub) == bytes.skip((idx + width) as int));
            assert(take_first_scalar(sub) == bytes.subrange(idx as int, (idx + width) as int));
            lemma_concat_valid(bytes.take(idx as int), bytes.skip((idx + width) as int));
            self.len.lemma_bounds();
        }
        let new_len = len - width;
        self.data = kept;
        self.len = match L::from_usize(new_len) {
            Ok(elem) => elem,
            Err(_) => self.len,
        };
        Some(ch)
    }

    /// Shortens the instance to `new_len` bytes. Nothing happens where `new_len` is greater than
    /// the current length or would cut a character.
    pub fn truncate(&mut self, new_len: L)
        requires
            old(self).wf(),
        ensures
            final(self).wf(),
            new_len.as_nat() <= old(self)@.len() && spec_is_char_boundary(
                new_len.as_nat() as int,
                old(self)@,
            ) ==> final(self)@ == old(self)@.take(new_len.as_nat() as int),
            !(new_len.as_nat() <= old(self)@.len() && spec_is_char_boundary(
                new_len.as_nat() as int,
                old(self)@,
            )) ==> final(self)@ == old(self)@,
    {
        let n = new_len.usize();
        if n > self.data.len() {
            return;
        }
        if !is_char_boundary(n, self.data.as_slice()) {
            return;
        }
        proof {
            lemma_split_at_leading_byte(self.data@, n as int);
        }
        self.data.truncate(n);
        self.len = new_len;
    }
}

impl<L: LinearStorageLen, const N: usize> ArrayString<L, N> {
    /// Constructs a new instance with the bytes of `from`.
    pub fn try_from_str(from: &str) -> (r: Result<Self, Error>)
        requires
            N <= L::upper_bound(),
        ensures
            (from.spec_bytes().len() <= L::type_max() && from.spec_bytes().len() <= N) == (r is Ok),
            r matches Ok(s) ==> s.wf() && s@ == from.spec_bytes(),
            r matches Err(e) ==> e == Self::reserve_error() || e == Error::OutOfBoundsArithmetic,
    {
        let mut this = Self::new();
        this.push_str(from)?;
        assert(Seq::<u8>::empty() + from.spec_bytes() =~= from.spec_bytes());
        Ok(this)
    }

    /// Constructs a new instance with `from`, which has to be valid UTF-8.
    pub fn try_from_bytes(from: &[u8]) -> (r: Result<Self, Error>)
        requires
            N <= L::upper_bound(),
        ensures
            (valid_utf8(from@) && from@.len() <= L::type_max() && from@.len() <= N) == (r is Ok),
            r matches Ok(s) ==> s.wf() && s@ == from@,
            r matches Err(e) ==> e == Self::reserve_error() || e == Error::OutOfBoundsArithmetic
                || e == Error::InvalidUtf8,
    {
        let s = match str_from_utf8(from) {
            Some(elem) => elem,
            None => return Err(Error::InvalidUtf8),
        };
        Self::try_from_str(s)
    }
}

impl<L: LinearStorageLen, const N: usize> Default for ArrayString<L, N> {
    fn default() -> (r: Self)
        ensures
            N <= L::upper_bound() ==> r.wf(),
            r@ == Seq::<u8>::empty(),
    {
        let r = ArrayString { len: L::zero(), data: Vec::new() };
        assert(valid_utf8(r.data@));
        r
    }
}

/// What [`ArrayString::pop`] gives right after [`ArrayString::push`] pushed `pushed`: the same
/// character, and the string as it was before the push. `before` is the string before the push,
/// `after_push` after it, and `popped` and `after_pop` what the pop returned and left.
pub proof fn lemma_pop_undoes_push(
    before: Seq<u8>,
    pushed: char,
    after_push: Seq<u8>,
    popped: char,
    after_pop: Seq<u8>,
)
    requires
        after_push == before + encode_scalar(pushed as u32),
        after_pop + encode_scalar(popped as u32) == after_push,
    ensures
        popped == pushed,
        after_pop == before,
{
    crate::collection::text::lemma_last_char_unique(before, pushed, after_pop, popped);
}

} // verus!
