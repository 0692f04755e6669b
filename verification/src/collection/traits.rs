use crate::collection::array_string::ArrayStringError;
use crate::collection::linear_storage_len::LinearStorageLen;
use crate::collection::text::str_from_utf8;
use crate::collection::{ArrayString, ArrayVector, ExpansionTy, Vector, VectorError};
use crate::error::Error;
use vstd::prelude::*;
use vstd::string::StringSliceAdditionalSpecFns;
use vstd::utf8::valid_utf8;

verus! {

/// Removes every element of a collection.
pub trait Clear {
    /// The states in which the collection can be used.
    spec fn clear_inv(&self) -> bool;

    /// Whether the collection holds no element.
    spec fn is_cleared(&self) -> bool;

    /// Removes every element.
    fn clear(&mut self)
        requires
            (*old(self)).clear_inv(),
        ensures
            (*final(self)).clear_inv(),
            (*final(self)).is_cleared(),
    ;
}

impl<T: Clear> Clear for &mut T {
    open spec fn clear_inv(&self) -> bool {
        (**self).clear_inv()
    }

    open spec fn is_cleared(&self) -> bool {
        (**self).is_cleared()
    }

    fn clear(&mut self) {
        (**self).clear();
    }
}

impl Clear for () {
    open spec fn clear_inv(&self) -> bool {
        true
    }

    open spec fn is_cleared(&self) -> bool {
        true
    }

    fn clear(&mut self) {
    }
}

impl<L: LinearStorageLen, const N: usize> Clear for ArrayString<L, N> {
    open spec fn clear_inv(&self) -> bool {
        self.wf()
    }

    open spec fn is_cleared(&self) -> bool {
        self@.len() == 0
    }

    fn clear(&mut self) {
        self.truncate(L::zero());
    }
}

impl<L: LinearStorageLen, T, const N: usize> Clear for ArrayVector<L, T, N> {
    open spec fn clear_inv(&self) -> bool {
        self.wf()
    }

    open spec fn is_cleared(&self) -> bool {
        self@.len() == 0
    }

    fn clear(&mut self) {
        self.truncate(L::zero());
    }
}

impl<T> Clear for Option<T> {
    open spec fn clear_inv(&self) -> bool {
        true
    }

    open spec fn is_cleared(&self) -> bool {
        *self is None
    }

    fn clear(&mut self) {
        *self = None;
    }
}

impl<T> Clear for Vec<T> {
    open spec fn clear_inv(&self) -> bool {
        true
    }

    open spec fn is_cleared(&self) -> bool {
        self@.len() == 0
    }

    fn clear(&mut self) {
        Vec::clear(self);
    }
}

impl<T> Clear for Vector<T> {
    open spec fn clear_inv(&self) -> bool {
        true
    }

    open spec fn is_cleared(&self) -> bool {
        self@.len() == 0
    }

    fn clear(&mut self) {
        self.truncate(0);
    }
}

/// Shortens a collection.
pub trait Truncate<I>: Sized {
    /// The states in which the collection can be used.
    spec fn truncate_inv(&self) -> bool;

    /// What truncating `prev` with `input` gives.
    spec fn truncated(prev: Self, input: I, next: Self) -> bool;

    /// Shortens the collection as `input` asks.
    fn truncate(&mut self, input: I)
        requires
            (*old(self)).truncate_inv(),
        ensures
            (*final(self)).truncate_inv(),
            Self::truncated(*old(self), input, *final(self)),
    ;
}

impl<I, T: Truncate<I>> Truncate<I> for &mut T {
    open spec fn truncate_inv(&self) -> bool {
        (**self).truncate_inv()
    }

    open spec fn truncated(prev: Self, input: I, next: Self) -> bool {
        T::truncated(*prev, input, *next)
    }

    fn truncate(&mut self, input: I) {
        (**self).truncate(input);
    }
}

impl<L: LinearStorageLen, const N: usize> Truncate<L> for ArrayString<L, N> {
    open spec fn truncate_inv(&self) -> bool {
        self.wf()
    }

    open spec fn truncated(prev: Self, input: L, next: Self) -> bool {
        &&& input.as_nat() <= prev@.len() && crate::collection::misc::spec_is_char_boundary(
            input.as_nat() as int,
            prev@,
        ) ==> next@ == prev@.take(input.as_nat() as int)
        &&& !(input.as_nat() <= prev@.len() && crate::collection::misc::spec_is_char_boundary(
            input.as_nat() as int,
            prev@,
        )) ==> next@ == prev@
    }

    fn truncate(&mut self, input: L) {
        ArrayString::truncate(self, input);
    }
}

impl<L: LinearStorageLen, T, const N: usize> Truncate<L> for ArrayVector<L, T, N> {
    open spec fn truncate_inv(&self) -> bool {
        self.wf()
    }

    open spec fn truncated(prev: Self, input: L, next: Self) -> bool {
        &&& input.as_nat() >= prev@.len() ==> next@ == prev@
        &&& input.as_nat() < prev@.len() ==> next@ == prev@.take(input.as_nat() as int)
    }

    fn truncate(&mut self, input: L) {
        ArrayVector::truncate(self, input);
    }
}

impl<I, T> Truncate<I> for Option<T> {
    open spec fn truncate_inv(&self) -> bool {
        true
    }

    open spec fn truncated(prev: Self, input: I, next: Self) -> bool {
        next is None
    }

    fn truncate(&mut self, _input: I) {
        *self = None;
    }
}

impl<T> Truncate<usize> for Vec<T> {
    open spec fn truncate_inv(&self) -> bool {
        true
    }

    open spec fn truncated(prev: Self, input: usize, next: Self) -> bool {
        &&& input >= prev@.len() ==> next@ == prev@
        &&& input < prev@.len() ==> next@ == prev@.take(input as int)
    }

    fn truncate(&mut self, input: usize) {
        Vec::truncate(self, input);
        assert(input < old(self)@.len() ==> self@ =~= old(self)@.take(input as int));
        assert(input >= old(self)@.len() ==> self@ =~= old(self)@);
    }
}

impl<T> Truncate<usize> for Vector<T> {
    open spec fn truncate_inv(&self) -> bool {
        true
    }

    open spec fn truncated(prev: Self, input: usize, next: Self) -> bool {
        &&& input >= prev@.len() ==> next@ == prev@
        &&& input < prev@.len() ==> next@ == prev@.take(input as int)
    }

    fn truncate(&mut self, input: usize) {
        Vector::truncate(self, input);
    }
}

/// The largest number of elements that a collection of a given type can hold.
pub trait CapacityUpperBound {
    /// The bound.
    spec fn spec_capacity_upper_bound() -> nat;

    /// Returns the bound.
    fn capacity_upper_bound(&self) -> (r: usize)
        ensures
            r == Self::spec_capacity_upper_bound(),
    ;
}

/// How many values of `T` fit in the largest allocation, `isize::MAX` bytes; zero for a type
/// without size.
pub open spec fn capacity_upper_bound_of_type<T>() -> nat {
    if vstd::layout::size_of::<T>() == 0 {
        0
    } else {
        (isize::MAX as nat) / vstd::layout::size_of::<T>()
    }
}

/// See [`capacity_upper_bound_of_type`].
pub fn capacity_upper_bound_of<T>() -> (r: usize)
    ensures
        r == capacity_upper_bound_of_type::<T>(),
{
    let size = core::mem::size_of::<T>();
    let isize_max_usize = isize::MAX as usize;
    match isize_max_usize.checked_div(size) {
        Some(elem) => elem,
        None => 0,
    }
}

impl<T: CapacityUpperBound> CapacityUpperBound for &T {
    open spec fn spec_capacity_upper_bound() -> nat {
        T::spec_capacity_upper_bound()
    }

    fn capacity_upper_bound(&self) -> (r: usize) {
        (**self).capacity_upper_bound()
    }
}

impl CapacityUpperBound for () {
    open spec fn spec_capacity_upper_bound() -> nat {
        0
    }

    fn capacity_upper_bound(&self) -> (r: usize) {
        0
    }
}

impl<T> CapacityUpperBound for Option<T> {
    open spec fn spec_capacity_upper_bound() -> nat {
        1
    }

    fn capacity_upper_bound(&self) -> (r: usize) {
        1
    }
}

impl<T, const N: usize> CapacityUpperBound for [T; N] {
    open spec fn spec_capacity_upper_bound() -> nat {
        N as nat
    }

    fn capacity_upper_bound(&self) -> (r: usize) {
        N
    }
}

impl<T> CapacityUpperBound for &[T] {
    open spec fn spec_capacity_upper_bound() -> nat {
        capacity_upper_bound_of_type::<T>()
    }

    fn capacity_upper_bound(&self) -> (r: usize) {
        capacity_upper_bound_of::<T>()
    }
}

impl<L: LinearStorageLen, T, const N: usize> CapacityUpperBound for ArrayVector<L, T, N> {
    open spec fn spec_capacity_upper_bound() -> nat {
        N as nat
    }

    fn capacity_upper_bound(&self) -> (r: usize) {
        N
    }
}

impl<L: LinearStorageLen, const N: usize> CapacityUpperBound for ArrayString<L, N> {
    open spec fn spec_capacity_upper_bound() -> nat {
        N as nat
    }

    fn capacity_upper_bound(&self) -> (r: usize) {
        N
    }
}

impl<T> CapacityUpperBound for Vec<T> {
    open spec fn spec_capacity_upper_bound() -> nat {
        capacity_upper_bound_of_type::<T>()
    }

    fn capacity_upper_bound(&self) -> (r: usize) {
        capacity_upper_bound_of::<T>()
    }
}

impl<T> CapacityUpperBound for Vector<T> {
    open spec fn spec_capacity_upper_bound() -> nat {
        capacity_upper_bound_of_type::<T>()
    }

    fn capacity_upper_bound(&self) -> (r: usize) {
        capacity_upper_bound_of::<T>()
    }
}

/// The elements of an array, moved into a vector.
///
/// Wraps `Vec::from` on an array, which the standard library documents to move the items of the
/// array, in order, into a new vector. Trusted, not proved.
#[verifier::external_body]
fn array_into_vec<T, const M: usize>(array: [T; M]) -> (r: Vec<T>)
    ensures
        r@ == array@,
{
    Vec::from(array)
}

/// Extends collections in a fallible way, i.e., checks if the upcoming elements would exceed
/// the associated capacity.
pub trait TryExtend<S>: Sized {
    /// The states in which the collection can be used.
    spec fn try_extend_inv(&self) -> bool;

    /// What extending `prev` with `set` gives: `next`, and `r` as the outcome.
    spec fn extended(prev: Self, set: S, next: Self, r: Result<(), Error>) -> bool;

    /// Attempts to extend this instance with elements from the given `set` source.
    fn try_extend(&mut self, set: S) -> (r: Result<(), Error>)
        requires
            (*old(self)).try_extend_inv(),
        ensures
            (*final(self)).try_extend_inv(),
            Self::extended(*old(self), set, *final(self), r),
    ;
}

/// `prev` extended with the single element `elem` gives `next`, with the outcome `r`.
pub open spec fn extended_with<T, B: TryExtend<[T; 1]>>(
    prev: B,
    elem: T,
    next: B,
    r: Result<(), Error>,
) -> bool {
    exists|set: [T; 1]| set@[0] == elem && #[trigger] B::extended(prev, set, next, r)
}

/// Step `i` of a run of extensions succeeded: `states[i]` extended with `elems[i]` gave
/// `states[i + 1]`.
pub open spec fn extension_step<T, B: TryExtend<[T; 1]>>(states: Seq<B>, elems: Seq<T>, i: int) -> bool {
    extended_with(states[i], elems[i], states[i + 1], Ok(()))
}

/// The collections in `states` go from `prev` through extensions with the elements of `elems`,
/// one at a time, until all of them succeeded (`r` is `Ok` and `next` is the last state) or one
/// failed (`r` is its error and `next` what it left).
pub open spec fn extension_run<T, B: TryExtend<[T; 1]>>(
    states: Seq<B>,
    prev: B,
    elems: Seq<T>,
    next: B,
    r: Result<(), Error>,
) -> bool {
    let k = states.len() - 1;
    &&& 1 <= states.len() <= elems.len() + 1
    &&& states[0] == prev
    &&& forall|i: int| 0 <= i < k ==> #[trigger] extension_step(states, elems, i)
    &&& if k == elems.len() {
        r is Ok && next == states[k]
    } else {
        r is Err && extended_with(states[k], elems[k], next, r)
    }
}

/// `prev` extended with the elements of `elems`, one at a time and up to the first failure,
/// gives `next`, with the outcome `r`.
pub open spec fn extended_one_by_one<T, B: TryExtend<[T; 1]>>(
    prev: B,
    elems: Seq<T>,
    next: B,
    r: Result<(), Error>,
) -> bool {
    exists|states: Seq<B>| #[trigger] extension_run(states, prev, elems, next, r)
}

/// Extending with no element changes nothing and succeeds.
pub proof fn lemma_extended_with_nothing<T, B: TryExtend<[T; 1]>>(prev: B)
    ensures
        extended_one_by_one(prev, Seq::<T>::empty(), prev, Ok(())),
{
    assert(extension_run(seq![prev], prev, Seq::<T>::empty(), prev, Ok(())));
}

/// A run of extensions that succeeded, followed by another run, is one run over both
/// sequences of elements.
pub proof fn lemma_extended_one_by_one_append<T, B: TryExtend<[T; 1]>>(
    b0: B,
    e1: Seq<T>,
    b1: B,
    e2: Seq<T>,
    b2: B,
    r: Result<(), Error>,
)
    requires
        extended_one_by_one(b0, e1, b1, Ok(())),
        extended_one_by_one(b1, e2, b2, r),
    ensures
        extended_one_by_one(b0, e1 + e2, b2, r),
{
    let s1 = choose|states: Seq<B>| #[trigger] extension_run(states, b0, e1, b1, Ok(()));
    let s2 = choose|states: Seq<B>| #[trigger] extension_run(states, b1, e2, b2, r);
    let all = s1 + s2.drop_first();
    let es = e1 + e2;
    assert(s1.len() == e1.len() + 1);
    assert forall|i: int| 0 <= i < all.len() - 1 implies #[trigger] extension_step(all, es, i) by {
        if i < e1.len() {
            assert(extension_step(s1, e1, i));
            assert(all[i] == s1[i]);
            assert(all[i + 1] == s1[i + 1]);
            assert(es[i] == e1[i]);
        } else {
            let j = i - e1.len();
            assert(extension_step(s2, e2, j));
            assert(all[i] == s2[j]);
            assert(all[i + 1] == s2[j + 1]);
            assert(es[i] == e2[j]);
        }
    }
    let k = all.len() - 1;
    assert(all[k] == s2[s2.len() - 1]);
    if k < es.len() {
        assert(es[k] == e2[k - e1.len()]);
    }
    assert(extension_run(all, b0, es, b2, r));
}

/// A run of extensions that failed stays failed when more elements follow: the later ones
/// are never tried.
pub proof fn lemma_extended_one_by_one_failed<T, B: TryExtend<[T; 1]>>(
    b0: B,
    e1: Seq<T>,
    b1: B,
    e2: Seq<T>,
    r: Result<(), Error>,
)
    requires
        extended_one_by_one(b0, e1, b1, r),
        r is Err,
    ensures
        extended_one_by_one(b0, e1 + e2, b1, r),
{
    let s1 = choose|states: Seq<B>| #[trigger] extension_run(states, b0, e1, b1, r);
    let es = e1 + e2;
    assert forall|i: int| 0 <= i < s1.len() - 1 implies #[trigger] extension_step(s1, es, i) by {
        assert(extension_step(s1, e1, i));
        assert(es[i] == e1[i]);
    }
    assert(es[s1.len() - 1] == e1[s1.len() - 1]);
    assert(extension_run(s1, b0, es, b1, r));
}

impl<S, T: TryExtend<S>> TryExtend<S> for &mut T {
    open spec fn try_extend_inv(&self) -> bool {
        (**self).try_extend_inv()
    }

    open spec fn extended(prev: Self, set: S, next: Self, r: Result<(), Error>) -> bool {
        T::extended(*prev, set, *next, r)
    }

    fn try_extend(&mut self, set: S) -> (r: Result<(), Error>) {
        (**self).try_extend(set)
    }
}

impl<'slice, T: Copy> TryExtend<&'slice [T]> for () {
    open spec fn try_extend_inv(&self) -> bool {
        true
    }

    open spec fn extended(prev: Self, set: &'slice [T], next: Self, r: Result<(), Error>) -> bool {
        r is Ok
    }

    fn try_extend(&mut self, _set: &'slice [T]) -> (r: Result<(), Error>) {
        Ok(())
    }
}

impl<T, const M: usize> TryExtend<[T; M]> for () {
    open spec fn try_extend_inv(&self) -> bool {
        true
    }

    open spec fn extended(prev: Self, set: [T; M], next: Self, r: Result<(), Error>) -> bool {
        r is Ok
    }

    fn try_extend(&mut self, _set: [T; M]) -> (r: Result<(), Error>) {
        Ok(())
    }
}

impl<'slice, T: Copy> TryExtend<&'slice [T]> for Option<T> {
    open spec fn try_extend_inv(&self) -> bool {
        true
    }

    open spec fn extended(prev: Self, set: &'slice [T], next: Self, r: Result<(), Error>) -> bool {
        &&& set@.len() == 0 ==> r is Ok && next == prev
        &&& set@.len() > 0 && prev is None && set@.len() == 1 ==> r is Ok && next == Some(set@[0])
        &&& set@.len() > 0 && !(prev is None && set@.len() == 1) ==> next == prev && r
            == Err::<(), Error>(Error::InsufficientOptionCapacity)
    }

    fn try_extend(&mut self, set: &'slice [T]) -> (r: Result<(), Error>) {
        if set.len() == 0 {
            return Ok(());
        }
        if self.is_some() || set.len() != 1 {
            return Err(Error::InsufficientOptionCapacity);
        }
        *self = Some(set[0]);
        Ok(())
    }
}

impl<T, const M: usize> TryExtend<[T; M]> for Option<T> {
    open spec fn try_extend_inv(&self) -> bool {
        true
    }

    open spec fn extended(prev: Self, set: [T; M], next: Self, r: Result<(), Error>) -> bool {
        &&& M == 0 ==> r is Ok && next == prev
        &&& M > 0 && prev is None && M == 1 ==> r is Ok && next == Some(set@[0])
        &&& M > 0 && !(prev is None && M == 1) ==> next == prev && r == Err::<(), Error>(
            Error::InsufficientOptionCapacity,
        )
    }

    fn try_extend(&mut self, set: [T; M]) -> (r: Result<(), Error>) {
        if M == 0 {
            return Ok(());
        }
        if self.is_some() || M != 1 {
            return Err(Error::InsufficientOptionCapacity);
        }
        let mut elems = array_into_vec(set);
        *self = elems.pop();
        Ok(())
    }
}

impl<'slice, L: LinearStorageLen, const N: usize> TryExtend<&'slice str> for ArrayString<L, N> {
    open spec fn try_extend_inv(&self) -> bool {
        self.wf()
    }

    open spec fn extended(prev: Self, set: &'slice str, next: Self, r: Result<(), Error>) -> bool {
        &&& (set.spec_bytes().len() <= L::type_max() && prev@.len() + set.spec_bytes().len() <= N)
            == (r is Ok)
        &&& r is Ok ==> next@ == prev@ + set.spec_bytes()
        &&& r is Err ==> next@ == prev@
    }

    fn try_extend(&mut self, set: &'slice str) -> (r: Result<(), Error>) {
        self.push_str(set)
    }
}

impl<'slice, L: LinearStorageLen, const N: usize> TryExtend<&'slice [u8]> for ArrayString<L, N> {
    open spec fn try_extend_inv(&self) -> bool {
        self.wf()
    }

    open spec fn extended(prev: Self, set: &'slice [u8], next: Self, r: Result<(), Error>) -> bool {
        &&& (valid_utf8(set@) && set@.len() <= L::type_max() && prev@.len() + set@.len() <= N)
            == (r is Ok)
        &&& r is Ok ==> next@ == prev@ + set@
        &&& r is Err ==> next@ == prev@
    }

    fn try_extend(&mut self, set: &'slice [u8]) -> (r: Result<(), Error>) {
        match str_from_utf8(set) {
            Some(elem) => self.push_str(elem),
            None => Err(Error::InvalidUtf8),
        }
    }
}

impl<L: LinearStorageLen, const N: usize> TryExtend<(u8, usize)> for ArrayString<L, N> {
    open spec fn try_extend_inv(&self) -> bool {
        self.wf()
    }

    open spec fn extended(prev: Self, set: (u8, usize), next: Self, r: Result<(), Error>) -> bool {
        let added = vstd::utf8::encode_utf8(Seq::new(set.1 as nat, |_j: int| set.0 as char));
        &&& (prev@.len() + added.len() <= N) == (r is Ok)
        &&& r is Ok ==> next@ == prev@ + added
    }

    fn try_extend(&mut self, set: (u8, usize)) -> (r: Result<(), Error>) {
        let (elem, len) = set;
        let chars: Vec<char> = vec![elem as char; len];
        assert(chars@ =~= Seq::new(len as nat, |_j: int| elem as char));
        self.extend_from_iter(chars)
    }
}

impl<'slice, L: LinearStorageLen, T: Copy, const N: usize> TryExtend<&'slice [T]> for ArrayVector<
    L,
    T,
    N,
> {
    open spec fn try_extend_inv(&self) -> bool {
        self.wf()
    }

    open spec fn extended(prev: Self, set: &'slice [T], next: Self, r: Result<(), Error>) -> bool {
        &&& (set@.len() <= L::type_max() && set@.len() <= N - prev@.len()) == (r is Ok)
        &&& r is Ok ==> next@ == prev@ + set@
        &&& r is Err ==> next@ == prev@
    }

    fn try_extend(&mut self, set: &'slice [T]) -> (r: Result<(), Error>) {
        self.extend_from_copyable_slice(set)
    }
}

impl<L: LinearStorageLen, T: Clone, const N: usize> TryExtend<(T, usize)> for ArrayVector<
    L,
    T,
    N,
> {
    open spec fn try_extend_inv(&self) -> bool {
        self.wf()
    }

    open spec fn extended(prev: Self, set: (T, usize), next: Self, r: Result<(), Error>) -> bool {
        &&& prev@.len() + set.1 > usize::MAX ==> r is Ok && next@ == prev@
        &&& r is Ok && prev@.len() + set.1 <= usize::MAX ==> next@.len() == prev@.len() + set.1
            && next@.take(prev@.len() as int) == prev@ && forall|i: int|
            prev@.len() <= i < next@.len() ==> cloned(set.0, #[trigger] next@[i])
        &&& r is Err ==> next@ == prev@
    }

    fn try_extend(&mut self, set: (T, usize)) -> (r: Result<(), Error>) {
        let (elem, len) = set;
        self.expand(ExpansionTy::Additional(len), elem)
    }
}

impl<L: LinearStorageLen, T, const M: usize, const N: usize> TryExtend<[T; M]> for ArrayVector<
    L,
    T,
    N,
> {
    open spec fn try_extend_inv(&self) -> bool {
        self.wf()
    }

    open spec fn extended(prev: Self, set: [T; M], next: Self, r: Result<(), Error>) -> bool {
        &&& (prev@.len() + M <= N) == (r is Ok)
        &&& r is Ok ==> next@ == prev@ + set@
        &&& r is Err ==> next@ == prev@ + set@.take(N - prev@.len())
    }

    fn try_extend(&mut self, set: [T; M]) -> (r: Result<(), Error>) {
        self.extend_from_iter(array_into_vec(set))
    }
}

impl<'slice, T: Copy> TryExtend<&'slice [T]> for Vector<T> {
    open spec fn try_extend_inv(&self) -> bool {
        true
    }

    open spec fn extended(prev: Self, set: &'slice [T], next: Self, r: Result<(), Error>) -> bool {
        &&& r is Ok ==> next@ == prev@ + set@
        &&& r is Err ==> next@ == prev@
        &&& set@.len() == 0 ==> r is Ok
        &&& r matches Err(e) ==> e == Error::VectorError(VectorError::ReserveOverflow)
    }

    fn try_extend(&mut self, set: &'slice [T]) -> (r: Result<(), Error>) {
        self.extend_from_copyable_slice(set)
    }
}

impl<T: Clone> TryExtend<(T, usize)> for Vector<T> {
    open spec fn try_extend_inv(&self) -> bool {
        true
    }

    open spec fn extended(prev: Self, set: (T, usize), next: Self, r: Result<(), Error>) -> bool {
        &&& prev@.len() + set.1 > usize::MAX ==> r is Ok && next@ == prev@
        &&& r is Ok && prev@.len() + set.1 <= usize::MAX ==> next@.len() == prev@.len() + set.1
            && next@.take(prev@.len() as int) == prev@ && forall|i: int|
            prev@.len() <= i < next@.len() ==> cloned(set.0, #[trigger] next@[i])
        &&& r is Err ==> next@ == prev@
    }

    fn try_extend(&mut self, set: (T, usize)) -> (r: Result<(), Error>) {
        let (elem, len) = set;
        self.expand(ExpansionTy::Additional(len), elem)
    }
}

impl<T, const M: usize> TryExtend<[T; M]> for Vector<T> {
    open spec fn try_extend_inv(&self) -> bool {
        true
    }

    open spec fn extended(prev: Self, set: [T; M], next: Self, r: Result<(), Error>) -> bool {
        &&& r is Ok ==> next@ == prev@ + set@
        &&& M == 0 ==> r is Ok
        &&& r is Err ==> prev@.len() <= next@.len() < prev@.len() + M && next@ == (prev@
            + set@).take(next@.len() as int)
        &&& r matches Err(e) ==> e == Error::VectorError(VectorError::ReserveOverflow)
    }

    fn try_extend(&mut self, set: [T; M]) -> (r: Result<(), Error>) {
        self.extend_from_iter(array_into_vec(set))
    }
}

impl<T: Clone> TryExtend<(T, usize)> for Vec<T> {
    open spec fn try_extend_inv(&self) -> bool {
        true
    }

    open spec fn extended(prev: Self, set: (T, usize), next: Self, r: Result<(), Error>) -> bool {
        &&& r is Ok
        &&& next@.len() == set.1
        &&& set.1 <= prev@.len() ==> next@ == prev@.take(set.1 as int)
        &&& set.1 > prev@.len() ==> next@.take(prev@.len() as int) == prev@ && forall|i: int|
            prev@.len() <= i < set.1 ==> cloned(set.0, #[trigger] next@[i])
    }

    fn try_extend(&mut self, set: (T, usize)) -> (r: Result<(), Error>) {
        let (elem, len) = set;
        self.resize(len, elem);
        Ok(())
    }
}

impl<'slice, T: Copy> TryExtend<&'slice [T]> for Vec<T> {
    open spec fn try_extend_inv(&self) -> bool {
        true
    }

    open spec fn extended(prev: Self, set: &'slice [T], next: Self, r: Result<(), Error>) -> bool {
        r is Ok && next@ == prev@ + set@
    }

    fn try_extend(&mut self, set: &'slice [T]) -> (r: Result<(), Error>) {
        let mut idx: usize = 0;
        while idx < set.len()
            invariant
                idx <= set@.len(),
                self@ == old(self)@ + set@.take(idx as int),
            decreases set@.len() - idx,
        {
            self.push(set[idx]);
            assert(set@.take(idx + 1) == set@.take(idx as int).push(set@[idx as int]));
            idx = idx + 1;
        }
        assert(set@.take(set@.len() as int) == set@);
        Ok(())
    }
}

impl<T, const N: usize> TryExtend<[T; N]> for Vec<T> {
    open spec fn try_extend_inv(&self) -> bool {
        true
    }

    open spec fn extended(prev: Self, set: [T; N], next: Self, r: Result<(), Error>) -> bool {
        r is Ok && next@ == prev@ + set@
    }

    fn try_extend(&mut self, set: [T; N]) -> (r: Result<(), Error>) {
        let mut elems = array_into_vec(set);
        self.append(&mut elems);
        Ok(())
    }
}

/// A vector extended with elements one at a time takes all of them, in order.
pub proof fn lemma_vec_extended_one_by_one<T>(
    prev: Vec<T>,
    elems: Seq<T>,
    next: Vec<T>,
    r: Result<(), Error>,
)
    requires
        extended_one_by_one(prev, elems, next, r),
    ensures
        r is Ok,
        next@ == prev@ + elems,
{
    let states = choose|states: Seq<Vec<T>>| #[trigger] extension_run(states, prev, elems, next, r);
    let k = states.len() - 1;
    assert forall|i: int| 0 <= i <= k implies #[trigger] states[i]@ == prev@ + elems.take(i) by {
        lemma_vec_run_prefix(states, elems, prev, i);
    }
    if k < elems.len() {
        let set = choose|set: [T; 1]| set@[0] == elems[k] && #[trigger] <Vec<T> as TryExtend<[T; 1]>>::extended(states[k], set, next, r);
        assert(false);
    }
    assert(elems.take(k) =~= elems);
}

/// The states of a run of extensions of a vector hold the elements added so far.
proof fn lemma_vec_run_prefix<T>(states: Seq<Vec<T>>, elems: Seq<T>, prev: Vec<T>, i: int)
    requires
        1 <= states.len() <= elems.len() + 1,
        states[0] == prev,
        forall|j: int| 0 <= j < states.len() - 1 ==> #[trigger] extension_step(states, elems, j),
        0 <= i < states.len(),
    ensures
        states[i]@ == prev@ + elems.take(i),
    decreases i,
{
    if i == 0 {
        assert(prev@ + elems.take(0) =~= prev@);
    } else {
        lemma_vec_run_prefix(states, elems, prev, i - 1);
        assert(extension_step(states, elems, i - 1));
        let set = choose|set: [T; 1]| set@[0] == elems[i - 1] && #[trigger] <Vec<T> as TryExtend<[T; 1]>>::extended(states[i - 1], set, states[i], Ok(()));
        assert(set@ =~= seq![elems[i - 1]]);
        assert(prev@ + elems.take(i) =~= prev@ + elems.take(i - 1) + seq![elems[i - 1]]);
    }
}

} // verus!
