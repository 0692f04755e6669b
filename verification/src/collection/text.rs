use crate::collection::misc::{is_char_boundary, spec_is_char_boundary};
use vstd::prelude::*;
use vstd::string::StringSliceAdditionalSpecFns;
use vstd::utf8::{
    decode_first_scalar, encode_scalar, encode_utf8, is_continuation_byte, is_scalar,
    length_of_first_scalar, pop_first_scalar, take_first_scalar, valid_first_scalar, valid_utf8,
};

verus! {

/// Reinterprets `bytes` as a string slice when they are valid UTF-8.
///
/// Wraps `std::str::from_utf8`, whose documentation states that it succeeds exactly on valid
/// UTF-8 and then hands back the same bytes as a string slice. Trusted, not proved.
#[verifier::external_body]
pub(crate) fn str_from_utf8<'a>(bytes: &'a [u8]) -> (r: Option<&'a str>)
    ensures
        r is Some <==> valid_utf8(bytes@),
        r matches Some(s) ==> s.spec_bytes() == bytes@,
{
    match std::str::from_utf8(bytes) {
        Ok(elem) => Some(elem),
        Err(_) => None,
    }
}

/// The empty string.
pub(crate) fn empty_str() -> (r: &'static str)
    ensures
        r.spec_bytes().len() == 0,
{
    proof {
        reveal_strlit("");
    }
    assert(vstd::utf8::encode_utf8(""@) =~= Seq::<u8>::empty());
    ""
}

/// Whether `start..end` delimits a piece of `bytes` that starts and ends between two characters.
pub open spec fn spec_is_str_range(bytes: Seq<u8>, start: int, end: int) -> bool {
    &&& 0 <= start <= end <= bytes.len()
    &&& spec_is_char_boundary(start, bytes)
    &&& spec_is_char_boundary(end, bytes)
}

/// A piece of valid UTF-8 that starts and ends between two characters is valid UTF-8.
pub(crate) proof fn lemma_str_range_valid(bytes: Seq<u8>, start: int, end: int)
    requires
        valid_utf8(bytes),
        spec_is_str_range(bytes, start, end),
    ensures
        valid_utf8(bytes.subrange(start, end)),
{
    lemma_split_at_leading_byte(bytes, start);
    let rest = bytes.skip(start);
    let k = end - start;
    if k < rest.len() {
        assert(rest[k] == bytes[end]);
    }
    lemma_split_at_leading_byte(rest, k);
    assert(rest.take(k) =~= bytes.subrange(start, end));
}

/// `str::get(start..end)` on the bytes of a string: the bytes in that range where it starts and
/// ends between two characters.
pub open spec fn spec_str_get(bytes: Seq<u8>, start: int, end: int) -> Option<Seq<u8>> {
    if spec_is_str_range(bytes, start, end) {
        Some(bytes.subrange(start, end))
    } else {
        None
    }
}

/// The bytes of `s` in the range `start..end`, as `str::get` gives them: `None` where the range
/// is out of bounds or cuts a character.
pub(crate) fn str_get<'a>(s: &'a str, start: usize, end: usize) -> (r: Option<&'a str>)
    ensures
        r is Some <==> spec_is_str_range(s.spec_bytes(), start as int, end as int),
        r matches Some(piece) ==> spec_str_get(s.spec_bytes(), start as int, end as int) == Some(
            piece.spec_bytes(),
        ),
        r is None ==> spec_str_get(s.spec_bytes(), start as int, end as int) is None,
{
    let bytes = s.as_bytes();
    if start > end || end > bytes.len() {
        return None;
    }
    if !is_char_boundary(start, bytes) || !is_char_boundary(end, bytes) {
        return None;
    }
    let piece = &bytes[start..end];
    assert(piece@ == s.spec_bytes().subrange(start as int, end as int));
    proof {
        lemma_str_valid(s);
        lemma_str_range_valid(s.spec_bytes(), start as int, end as int);
    }
    str_from_utf8(piece)
}

/// `str::split_at_checked(mid)` on the bytes of a string.
pub open spec fn spec_split_at(bytes: Seq<u8>, mid: int) -> Option<(Seq<u8>, Seq<u8>)> {
    if spec_is_str_range(bytes, 0, mid) {
        Some((bytes.take(mid), bytes.skip(mid)))
    } else {
        None
    }
}

/// `s` split at byte `mid`, as `str::split_at_checked` does it.
pub(crate) fn str_split_at<'a>(s: &'a str, mid: usize) -> (r: Option<(&'a str, &'a str)>)
    ensures
        r is Some <==> spec_split_at(s.spec_bytes(), mid as int) is Some,
        r matches Some((lhs, rhs)) ==> spec_split_at(s.spec_bytes(), mid as int) == Some(
            (lhs.spec_bytes(), rhs.spec_bytes()),
        ),
{
    let len = s.as_bytes().len();
    let lhs = str_get(s, 0, mid)?;
    let rhs = str_get(s, mid, len)?;
    assert(s.spec_bytes().take(mid as int) == s.spec_bytes().subrange(0, mid as int));
    assert(s.spec_bytes().skip(mid as int) == s.spec_bytes().subrange(mid as int, len as int));
    Some((lhs, rhs))
}

/// Whether both byte sequences are equal.
pub(crate) fn bytes_eq(lhs: &[u8], rhs: &[u8]) -> (r: bool)
    ensures
        r == (lhs@ == rhs@),
{
    if lhs.len() != rhs.len() {
        return false;
    }
    let mut idx: usize = 0;
    while idx < lhs.len()
        invariant
            lhs@.len() == rhs@.len(),
            idx <= lhs@.len(),
            lhs@.take(idx as int) == rhs@.take(idx as int),
        decreases lhs@.len() - idx,
    {
        if lhs[idx] != rhs[idx] {
            assert(lhs@[idx as int] != rhs@[idx as int]);
            return false;
        }
        assert(lhs@.take(idx + 1) == lhs@.take(idx as int).push(lhs@[idx as int]));
        assert(rhs@.take(idx + 1) == rhs@.take(idx as int).push(rhs@[idx as int]));
        idx = idx + 1;
    }
    assert(lhs@ == lhs@.take(idx as int));
    assert(rhs@ == rhs@.take(idx as int));
    true
}

/// The number of leading bytes that `lhs` and `rhs` have in common.
pub open spec fn is_common_prefix_len(lhs: Seq<u8>, rhs: Seq<u8>, n: int) -> bool {
    &&& 0 <= n <= lhs.len()
    &&& n <= rhs.len()
    &&& lhs.take(n) == rhs.take(n)
    &&& n < lhs.len() && n < rhs.len() ==> lhs[n] != rhs[n]
}

/// See [`is_common_prefix_len`].
pub(crate) fn common_prefix_len(lhs: &[u8], rhs: &[u8]) -> (r: usize)
    ensures
        is_common_prefix_len(lhs@, rhs@, r as int),
{
    let mut idx: usize = 0;
    while idx < lhs.len() && idx < rhs.len()
        invariant
            idx <= lhs@.len(),
            idx <= rhs@.len(),
            lhs@.take(idx as int) == rhs@.take(idx as int),
        decreases lhs@.len() - idx,
    {
        if lhs[idx] != rhs[idx] {
            return idx;
        }
        assert(lhs@.take(idx + 1) == lhs@.take(idx as int).push(lhs@[idx as int]));
        assert(rhs@.take(idx + 1) == rhs@.take(idx as int).push(rhs@[idx as int]));
        idx = idx + 1;
    }
    idx
}

/// The first position of `byte` in `bytes` from position `from` on, if any.
pub open spec fn first_byte_idx(bytes: Seq<u8>, byte: u8, from: int) -> Option<int>
    decreases bytes.len() - from,
{
    if from < 0 || from >= bytes.len() {
        None
    } else if bytes[from] == byte {
        Some(from)
    } else {
        first_byte_idx(bytes, byte, from + 1)
    }
}

/// What [`first_byte_idx`] finds is `byte`, with no `byte` before it; where it finds nothing,
/// there is no `byte` at all.
pub proof fn lemma_first_byte_idx(bytes: Seq<u8>, byte: u8, from: int)
    requires
        0 <= from <= bytes.len(),
    ensures
        first_byte_idx(bytes, byte, from) matches Some(idx) ==> from <= idx < bytes.len()
            && bytes[idx] == byte && forall|j: int| from <= j < idx ==> bytes[j] != byte,
        first_byte_idx(bytes, byte, from) is None ==> forall|j: int|
            from <= j < bytes.len() ==> bytes[j] != byte,
    decreases bytes.len() - from,
{
    if from < bytes.len() && bytes[from] != byte {
        lemma_first_byte_idx(bytes, byte, from + 1);
    }
}

/// The first position of `byte` in `bytes`, if any.
pub(crate) fn find_byte(bytes: &[u8], byte: u8) -> (r: Option<usize>)
    ensures
        r == (match first_byte_idx(bytes@, byte, 0) {
            Some(idx) => Some(idx as usize),
            None => None::<usize>,
        }),
{
    let mut idx: usize = 0;
    while idx < bytes.len()
        invariant
            idx <= bytes@.len(),
            first_byte_idx(bytes@, byte, 0) == first_byte_idx(bytes@, byte, idx as int),
        decreases bytes@.len() - idx,
    {
        if bytes[idx] == byte {
            return Some(idx);
        }
        idx = idx + 1;
    }
    None
}

/// Whether `pat` occurs in `s` at position `idx`.
pub open spec fn occurs_at(s: Seq<u8>, pat: Seq<u8>, idx: int) -> bool {
    0 <= idx && idx + pat.len() <= s.len() && s.subrange(idx, idx + pat.len()) == pat
}

/// The first position of `pat` in `bytes` from position `from` on, if any.
pub open spec fn first_occurrence(bytes: Seq<u8>, pat: Seq<u8>, from: int) -> Option<int>
    decreases bytes.len() + 1 - from,
{
    if from < 0 || from + pat.len() > bytes.len() {
        None
    } else if occurs_at(bytes, pat, from) {
        Some(from)
    } else {
        first_occurrence(bytes, pat, from + 1)
    }
}

/// The first position of `pat` in `bytes`, if any.
pub(crate) fn find_bytes(bytes: &[u8], pat: &[u8]) -> (r: Option<usize>)
    ensures
        r == (match first_occurrence(bytes@, pat@, 0) {
            Some(idx) => Some(idx as usize),
            None => None::<usize>,
        }),
{
    if pat.len() > bytes.len() {
        return None;
    }
    let len = bytes.len();
    let last = len - pat.len();
    let mut idx: usize = 0;
    while idx <= last
        invariant
            len == bytes@.len(),
            last + pat@.len() == bytes@.len(),
            idx <= last + 1,
            first_occurrence(bytes@, pat@, 0) == first_occurrence(bytes@, pat@, idx as int),
        decreases last + 1 - idx,
    {
        let candidate = &bytes[idx..idx + pat.len()];
        if bytes_eq(candidate, pat) {
            return Some(idx);
        }
        if idx == last {
            assert(first_occurrence(bytes@, pat@, idx + 1) is None);
            return None;
        }
        idx = idx + 1;
    }
    None
}

/// `s` split around the first occurrence of `byte`, which belongs to neither part, as a string
/// would be: `None` where there is none or a part would cut a character.
pub open spec fn spec_split_once1(bytes: Seq<u8>, byte: u8) -> Option<(Seq<u8>, Seq<u8>)> {
    match first_byte_idx(bytes, byte, 0) {
        Some(idx) => if spec_is_str_range(bytes, 0, idx) && spec_is_str_range(
            bytes,
            idx + 1,
            bytes.len() as int,
        ) {
            Some((bytes.take(idx), bytes.skip(idx + 1)))
        } else {
            None
        },
        None => None,
    }
}

/// See [`spec_split_once1`].
pub(crate) fn str_split_once1<'a>(s: &'a str, byte: u8) -> (r: Option<(&'a str, &'a str)>)
    ensures
        r is Some <==> spec_split_once1(s.spec_bytes(), byte) is Some,
        r matches Some((lhs, rhs)) ==> spec_split_once1(s.spec_bytes(), byte) == Some(
            (lhs.spec_bytes(), rhs.spec_bytes()),
        ),
{
    let bytes = s.as_bytes();
    let len = bytes.len();
    proof {
        lemma_first_byte_idx(bytes@, byte, 0);
    }
    let idx = find_byte(bytes, byte)?;
    let lhs = str_get(s, 0, idx)?;
    let rhs = str_get(s, idx + 1, len)?;
    assert(s.spec_bytes().take(idx as int) == s.spec_bytes().subrange(0, idx as int));
    assert(s.spec_bytes().skip(idx + 1) == s.spec_bytes().subrange(idx + 1, bytes@.len() as int));
    Some((lhs, rhs))
}

/// `s` split around the first occurrence of `pat`, which belongs to neither part, as a string
/// would be: `None` where there is none or a part would cut a character.
pub open spec fn spec_split_once_str(bytes: Seq<u8>, pat: Seq<u8>) -> Option<(Seq<u8>, Seq<u8>)> {
    match first_occurrence(bytes, pat, 0) {
        Some(idx) => if spec_is_str_range(bytes, 0, idx) && spec_is_str_range(
            bytes,
            idx + pat.len(),
            bytes.len() as int,
        ) {
            Some((bytes.take(idx), bytes.skip(idx + pat.len())))
        } else {
            None
        },
        None => None,
    }
}

/// See [`spec_split_once_str`].
pub(crate) fn str_split_once_str<'a>(s: &'a str, pat: &str) -> (r: Option<(&'a str, &'a str)>)
    ensures
        r is Some <==> spec_split_once_str(s.spec_bytes(), pat.spec_bytes()) is Some,
        r matches Some((lhs, rhs)) ==> spec_split_once_str(s.spec_bytes(), pat.spec_bytes())
            == Some((lhs.spec_bytes(), rhs.spec_bytes())),
{
    let bytes = s.as_bytes();
    let pat_bytes = pat.as_bytes();
    let len = bytes.len();
    let idx = find_bytes(bytes, pat_bytes)?;
    proof {
        lemma_first_occurrence_bounds(bytes@, pat_bytes@, 0);
    }
    let lhs = str_get(s, 0, idx)?;
    let rhs = str_get(s, idx + pat_bytes.len(), len)?;
    assert(s.spec_bytes().take(idx as int) == s.spec_bytes().subrange(0, idx as int));
    assert(s.spec_bytes().skip(idx + pat_bytes@.len()) == s.spec_bytes().subrange(
        idx + pat_bytes@.len(),
        bytes@.len() as int,
    ));
    Some((lhs, rhs))
}

/// What [`first_occurrence`] finds is an occurrence within the bytes.
pub proof fn lemma_first_occurrence_bounds(bytes: Seq<u8>, pat: Seq<u8>, from: int)
    requires
        0 <= from,
    ensures
        first_occurrence(bytes, pat, from) matches Some(idx) ==> from <= idx && occurs_at(
            bytes,
            pat,
            idx,
        ),
    decreases bytes.len() + 1 - from,
{
    if from + pat.len() <= bytes.len() && !occurs_at(bytes, pat, from) {
        lemma_first_occurrence_bounds(bytes, pat, from + 1);
    }
}

/// Whether `byte` occurs in `s`.
pub(crate) fn str_contains_byte(s: &str, byte: u8) -> (r: bool)
    ensures
        r == (first_byte_idx(s.spec_bytes(), byte, 0) is Some),
{
    match find_byte(s.as_bytes(), byte) {
        Some(_) => true,
        None => false,
    }
}

/// The character whose scalar value is `u`, where `u` is one.
///
/// Wraps `char::from_u32`, which the standard library documents to return `None` exactly for
/// values that are not Unicode scalar values. Trusted, not proved.
#[verifier::external_body]
pub(crate) fn char_from_u32(u: u32) -> (r: Option<char>)
    ensures
        r is Some <==> is_scalar(u),
        r matches Some(c) ==> c as u32 == u,
{
    char::from_u32(u)
}

/// The UTF-8 encoding of `c`.
pub(crate) fn encode_char(c: char) -> (r: Vec<u8>)
    ensures
        r@ == encode_scalar(c as u32),
        r@ == encode_utf8(seq![c]),
        1 <= r@.len() <= 4,
{
    let s = c as u32;
    proof {
        vstd::utf8::char_is_scalar(c);
        assert(encode_utf8(seq![c]) == encode_scalar(c as u32) + encode_utf8(seq![c].drop_first()));
        assert(seq![c].drop_first() =~= Seq::<char>::empty());
        assert(encode_utf8(seq![c]) =~= encode_scalar(c as u32));
    }
    if s <= 0x7F {
        let r = vec![(s & 0x7F) as u8];
        assert(r@ =~= encode_scalar(s));
        r
    } else if s <= 0x7FF {
        let r = vec![0xC0 | ((s >> 6) & 0x1F) as u8, 0x80 | (s & 0x3F) as u8];
        assert(r@ =~= encode_scalar(s));
        r
    } else if s <= 0xFFFF {
        let r = vec![
            0xE0 | ((s >> 12) & 0x0F) as u8,
            0x80 | ((s >> 6) & 0x3F) as u8,
            0x80 | (s & 0x3F) as u8,
        ];
        assert(r@ =~= encode_scalar(s));
        r
    } else {
        let r = vec![
            0xF0 | ((s >> 18) & 0x7) as u8,
            0x80 | ((s >> 12) & 0x3F) as u8,
            0x80 | ((s >> 6) & 0x3F) as u8,
            0x80 | (s & 0x3F) as u8,
        ];
        assert(r@ =~= encode_scalar(s));
        r
    }
}

/// The value of a well-formed first scalar is a Unicode scalar.
proof fn lemma_first_scalar_is_scalar(bytes: Seq<u8>)
    requires
        valid_first_scalar(bytes),
    ensures
        is_scalar(decode_first_scalar(bytes)),
{
    let b0 = bytes[0];
    if 0xc0 <= b0 <= 0xdf {
        let b1 = bytes[1];
        assert(((((b0 & 0x1F) as u32) << 6) | ((b1 & 0x3f) as u32)) <= 0x7FF) by (bit_vector);
    } else if 0xe0 <= b0 <= 0xef {
        let b1 = bytes[1];
        let b2 = bytes[2];
        assert(((((b0 & 0x0F) as u32) << 12) | (((b1 & 0x3f) as u32) << 6) | ((b2 & 0x3f) as u32))
            <= 0xFFFF) by (bit_vector);
    }
}

/// The character that `bytes` encode from position `start` on, and the number of bytes of its
/// encoding.
pub(crate) fn decode_char(bytes: &[u8], start: usize) -> (r: (char, usize))
    requires
        start < bytes@.len(),
        valid_first_scalar(bytes@.skip(start as int)),
    ensures
        r.0 as u32 == decode_first_scalar(bytes@.skip(start as int)),
        r.1 == length_of_first_scalar(bytes@.skip(start as int)),
{
    let ghost sub = bytes@.skip(start as int);
    proof {
        lemma_first_scalar_is_scalar(sub);
        assert(sub[0] == bytes@[start as int]);
    }
    let b0 = bytes[start];
    let (u, width): (u32, usize) = if b0 <= 0x7f {
        ((b0 & 0x7F) as u32, 1)
    } else if 0xc0 <= b0 && b0 <= 0xdf {
        assert(sub[1] == bytes@[start + 1]);
        let b1 = bytes[start + 1];
        ((((b0 & 0x1F) as u32) << 6) | ((b1 & 0x3f) as u32), 2)
    } else if 0xe0 <= b0 && b0 <= 0xef {
        assert(sub[1] == bytes@[start + 1]);
        assert(sub[2] == bytes@[start + 2]);
        let b1 = bytes[start + 1];
        let b2 = bytes[start + 2];
        ((((b0 & 0x0F) as u32) << 12) | (((b1 & 0x3f) as u32) << 6) | ((b2 & 0x3f) as u32), 3)
    } else {
        assert(sub[1] == bytes@[start + 1]);
        assert(sub[2] == bytes@[start + 2]);
        assert(sub[3] == bytes@[start + 3]);
        let b1 = bytes[start + 1];
        let b2 = bytes[start + 2];
        let b3 = bytes[start + 3];
        (
            (((b0 & 0x07) as u32) << 18) | (((b1 & 0x3f) as u32) << 12) | (((b2 & 0x3f) as u32)
                << 6) | ((b3 & 0x3f) as u32),
            4,
        )
    };
    match char_from_u32(u) {
        Some(c) => (c, width),
        None => {
            assert(false);
            ('\0', width)
        },
    }
}

/// In valid UTF-8, a byte that is not a continuation byte begins a character, and what follows
/// it is valid UTF-8 on its own, as is what precedes it.
pub(crate) proof fn lemma_split_at_leading_byte(bytes: Seq<u8>, k: int)
    requires
        valid_utf8(bytes),
        0 <= k <= bytes.len(),
        k < bytes.len() ==> !is_continuation_byte(bytes[k]),
    ensures
        vstd::utf8::is_char_boundary(bytes, k),
        valid_utf8(bytes.take(k)),
        valid_utf8(bytes.skip(k)),
        bytes.skip(k).len() > 0 ==> valid_first_scalar(bytes.skip(k)),
{
    if k < bytes.len() {
        vstd::utf8::is_char_boundary_iff_not_is_continuation_byte(bytes, k);
    } else {
        vstd::utf8::is_char_boundary_start_end_of_seq(bytes);
    }
    vstd::utf8::valid_utf8_split(bytes, k);
    assert(bytes.take(k) == bytes.subrange(0, k));
    assert(bytes.skip(k) == bytes.subrange(k, bytes.len() as int));
}

/// In valid UTF-8, from a byte that begins a character up to a byte that begins another one (or
/// the end), the first character takes all the bytes only if no byte between them begins one.
pub(crate) proof fn lemma_last_scalar(bytes: Seq<u8>, k: int)
    requires
        valid_utf8(bytes),
        0 <= k < bytes.len(),
        !is_continuation_byte(bytes[k]),
        forall|j: int| k < j < bytes.len() ==> is_continuation_byte(#[trigger] bytes[j]),
    ensures
        valid_first_scalar(bytes.skip(k)),
        length_of_first_scalar(bytes.skip(k)) == bytes.len() - k,
        encode_scalar(decode_first_scalar(bytes.skip(k))) == bytes.skip(k),
        valid_utf8(bytes.take(k)),
{
    lemma_split_at_leading_byte(bytes, k);
    let sub = bytes.skip(k);
    let l = length_of_first_scalar(sub);
    let rest = pop_first_scalar(sub);
    if l < sub.len() {
        assert(rest[0] == bytes[k + l]);
        assert(valid_utf8(rest));
        assert(valid_first_scalar(rest));
        assert(is_continuation_byte(bytes[k + l]));
        assert(false);
    }
    vstd::utf8::decode_utf8_first_scalar(sub);
    lemma_first_scalar_is_scalar(sub);
    assert(take_first_scalar(sub) =~= sub);
}

/// The bytes that follow the first character of valid UTF-8 are valid UTF-8.
pub(crate) proof fn lemma_pop_first_scalar_valid(bytes: Seq<u8>)
    requires
        valid_utf8(bytes),
        bytes.len() > 0,
    ensures
        valid_first_scalar(bytes),
        valid_utf8(pop_first_scalar(bytes)),
        encode_scalar(decode_first_scalar(bytes)) == take_first_scalar(bytes),
        1 <= length_of_first_scalar(bytes) <= bytes.len(),
{
    vstd::utf8::decode_utf8_first_scalar(bytes);
    lemma_first_scalar_is_scalar(bytes);
}

/// Appending valid UTF-8 to valid UTF-8 keeps it valid.
pub(crate) proof fn lemma_concat_valid(lhs: Seq<u8>, rhs: Seq<u8>)
    requires
        valid_utf8(lhs),
        valid_utf8(rhs),
    ensures
        valid_utf8(lhs + rhs),
{
    vstd::utf8::valid_utf8_concat(lhs, rhs);
}

/// The encoding of every string is valid UTF-8.
pub(crate) proof fn lemma_str_valid(s: &str)
    ensures
        valid_utf8(s.spec_bytes()),
{
    vstd::utf8::encode_utf8_valid_utf8(s@);
}

/// Encoding two runs of characters one after the other gives their encodings one after the
/// other.
pub(crate) proof fn lemma_encode_utf8_concat(lhs: Seq<char>, rhs: Seq<char>)
    ensures
        encode_utf8(lhs + rhs) == encode_utf8(lhs) + encode_utf8(rhs),
    decreases lhs.len(),
{
    if lhs.len() > 0 {
        lemma_encode_utf8_concat(lhs.drop_first(), rhs);
        assert((lhs + rhs).drop_first() =~= lhs.drop_first() + rhs);
        assert((lhs + rhs)[0] == lhs[0]);
        assert(encode_utf8(lhs + rhs) =~= encode_scalar(lhs[0] as u32) + (encode_utf8(
            lhs.drop_first(),
        ) + encode_utf8(rhs)));
    } else {
        assert(lhs + rhs =~= rhs);
        assert(encode_utf8(lhs) =~= Seq::<u8>::empty());
    }
}

/// Encoding one more character appends its encoding.
pub(crate) proof fn lemma_encode_utf8_push(chars: Seq<char>, k: int)
    requires
        0 <= k < chars.len(),
    ensures
        encode_utf8(chars.take(k + 1)) == encode_utf8(chars.take(k)) + encode_scalar(
            chars[k] as u32,
        ),
{
    assert(chars.take(k + 1) =~= chars.take(k) + seq![chars[k]]);
    lemma_encode_utf8_concat(chars.take(k), seq![chars[k]]);
    let one = seq![chars[k]];
    assert(encode_utf8(one) == encode_scalar(one[0] as u32) + encode_utf8(one.drop_first()));
    assert(one.drop_first() =~= Seq::<char>::empty());
    assert(encode_utf8(one.drop_first()) =~= Seq::<u8>::empty());
    assert(encode_utf8(one) =~= encode_scalar(chars[k] as u32));
}

/// The encoding of a prefix is no longer than the encoding of all characters.
pub(crate) proof fn lemma_encode_utf8_prefix_len(chars: Seq<char>, k: int)
    requires
        0 <= k <= chars.len(),
    ensures
        encode_utf8(chars.take(k)).len() <= encode_utf8(chars).len(),
{
    assert(chars =~= chars.take(k) + chars.skip(k));
    lemma_encode_utf8_concat(chars.take(k), chars.skip(k));
}

/// Reinterprets a slice as an array reference when it has exactly `N` elements.
///
/// Wraps `<&[u8; N]>::try_from`, which the standard library documents to succeed exactly when the
/// length of the slice is `N`, handing back the same elements. Trusted, not proved.
#[verifier::external_body]
pub(crate) fn slice_as_array<const N: usize>(slice: &[u8]) -> (r: Option<&[u8; N]>)
    ensures
        r is Some <==> slice@.len() == N,
        r matches Some(array) ==> array@ == slice@,
{
    match <&[u8; N]>::try_from(slice) {
        Ok(elem) => Some(elem),
        Err(_) => None,
    }
}

/// The encoding of a character starts with a byte that is not a continuation byte, which all
/// its other bytes are.
pub proof fn lemma_encode_scalar_shape(c: char)
    ensures
        1 <= encode_scalar(c as u32).len() <= 4,
        !is_continuation_byte(encode_scalar(c as u32)[0]),
        forall|j: int|
            1 <= j < encode_scalar(c as u32).len() ==> is_continuation_byte(
                #[trigger] encode_scalar(c as u32)[j],
            ),
{
    vstd::utf8::char_is_scalar(c);
    let s = c as u32;
    assert(((s & 0x7F) as u8) <= 0x7f) by (bit_vector);
    assert(0xC0 <= (0xC0 | ((s >> 6) & 0x1F) as u8)) by (bit_vector);
    assert(0xE0 <= (0xE0 | ((s >> 12) & 0x0F) as u8)) by (bit_vector);
    assert(0xF0 <= (0xF0 | ((s >> 18) & 0x7) as u8)) by (bit_vector);
    assert(0x80 <= (0x80 | (s & 0x3F) as u8) <= 0xbf) by (bit_vector);
    assert(0x80 <= (0x80 | ((s >> 6) & 0x3F) as u8) <= 0xbf) by (bit_vector);
    assert(0x80 <= (0x80 | ((s >> 12) & 0x3F) as u8) <= 0xbf) by (bit_vector);
}

/// Two characters with the same encoding are the same character.
pub proof fn lemma_encode_scalar_injective(c: char, d: char)
    requires
        encode_scalar(c as u32) == encode_scalar(d as u32),
    ensures
        c == d,
{
    let one_c = seq![c];
    let one_d = seq![d];
    assert(encode_utf8(one_c) == encode_scalar(one_c[0] as u32) + encode_utf8(one_c.drop_first()));
    assert(encode_utf8(one_d) == encode_scalar(one_d[0] as u32) + encode_utf8(one_d.drop_first()));
    assert(one_c.drop_first() =~= Seq::<char>::empty());
    assert(one_d.drop_first() =~= Seq::<char>::empty());
    assert(encode_utf8(one_c) == encode_utf8(one_d));
    vstd::utf8::encode_utf8_decode_utf8(one_c);
    vstd::utf8::encode_utf8_decode_utf8(one_d);
    assert(one_c[0] == one_d[0]);
}

/// Where valid UTF-8 followed by the encoding of one character equals other valid UTF-8
/// followed by the encoding of another, the characters are the same and so are the prefixes.
pub proof fn lemma_last_char_unique(lhs: Seq<u8>, c: char, rhs: Seq<u8>, d: char)
    requires
        lhs + encode_scalar(c as u32) == rhs + encode_scalar(d as u32),
    ensures
        c == d,
        lhs == rhs,
{
    lemma_encode_scalar_shape(c);
    lemma_encode_scalar_shape(d);
    let ec = encode_scalar(c as u32);
    let ed = encode_scalar(d as u32);
    let x = lhs + ec;
    let y = rhs + ed;
    assert(x.len() == lhs.len() + ec.len());
    assert(y.len() == rhs.len() + ed.len());
    assert(x.len() == y.len());
    if lhs.len() < rhs.len() {
        let k = rhs.len() as int;
        let j = k - lhs.len();
        assert(y[k] == ed[0]);
        assert(x[k] == ec[j]);
        assert(is_continuation_byte(ec[j]));
        assert(false);
    } else if rhs.len() < lhs.len() {
        let k = lhs.len() as int;
        let j = k - rhs.len();
        assert(x[k] == ec[0]);
        assert(y[k] == ed[j]);
        assert(is_continuation_byte(ed[j]));
        assert(false);
    }
    assert(lhs =~= x.take(lhs.len() as int));
    assert(rhs =~= y.take(rhs.len() as int));
    assert(ec =~= x.skip(lhs.len() as int));
    assert(ed =~= y.skip(rhs.len() as int));
    lemma_encode_scalar_injective(c, d);
}

} // verus!
