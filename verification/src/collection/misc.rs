use vstd::prelude::*;

verus! {

/// The distance from `elem_idx` to `elem_idx_last` in wrapping arithmetic, kept in the positive
/// range of `isize`.
pub open spec fn spec_backward_deque_idx(elem_idx: usize, elem_idx_last: usize) -> int {
    let diff = if elem_idx <= elem_idx_last {
        elem_idx_last - elem_idx
    } else {
        elem_idx_last - elem_idx + usize::MAX + 1
    };
    diff % (isize::MAX as int)
}

/// Calculates the current index of a previous `push_front` element.
///
/// `elem_idx` and `elem_idx_last` should be orchestrated by an index that is always increasing
/// at each `push_front` invocation.
pub fn backward_deque_idx(elem_idx: usize, elem_idx_last: usize) -> (r: usize)
    ensures
        r == spec_backward_deque_idx(elem_idx, elem_idx_last),
        elem_idx <= elem_idx_last && elem_idx_last - elem_idx < isize::MAX ==> r == elem_idx_last
            - elem_idx,
{
    let diff = elem_idx_last.wrapping_sub(elem_idx);
    let modulus = isize::MAX as usize;
    proof {
        if elem_idx <= elem_idx_last && elem_idx_last - elem_idx < isize::MAX {
            vstd::arithmetic::div_mod::lemma_small_mod(diff as nat, modulus as nat);
        }
    }
    diff % modulus
}

/// Whether `idx` splits the UTF-8 bytes of `slice` between two characters: `0`, the length of
/// `slice`, or the position of a byte that does not continue a character.
pub open spec fn spec_is_char_boundary(idx: int, slice: Seq<u8>) -> bool {
    if idx == 0 {
        true
    } else if idx >= slice.len() {
        idx == slice.len()
    } else {
        !(128 <= slice[idx] && slice[idx] < 192)
    }
}

/// See [`spec_is_char_boundary`].
pub fn is_char_boundary(idx: usize, slice: &[u8]) -> (r: bool)
    ensures
        r == spec_is_char_boundary(idx as int, slice@),
{
    if idx == 0 {
        return true;
    }
    if idx >= slice.len() {
        idx == slice.len()
    } else {
        let byte = slice[idx];
        !(128 <= byte && byte < 192)
    }
}

} // verus!
