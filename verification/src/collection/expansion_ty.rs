use vstd::prelude::*;

verus! {

/// Used in operations that expand collections.
#[derive(Clone, Copy, Debug, PartialEq, Eq, Structural)]
pub enum ExpansionTy {
    /// Buffer should be modified with more elements
    Additional(usize),
    /// Buffer should be modified using the exact specified length.
    Len(usize),
}

impl ExpansionTy {
    /// What an expansion asks of a collection that holds `len` elements: the number of
    /// new elements and the length afterwards, or nothing to do.
    pub open spec fn spec_params(self, len: nat) -> Option<(nat, nat)> {
        match self {
            ExpansionTy::Additional(elem) => if len + elem <= usize::MAX {
                Some((elem as nat, (len + elem) as nat))
            } else {
                None
            },
            ExpansionTy::Len(elem) => if elem >= len {
                Some(((elem - len) as nat, elem as nat))
            } else {
                None
            },
        }
    }

    /// Returns how many elements must be added to a collection of length `len` and the
    /// resulting length, or `None` when there is nothing to add (the sum overflows or the
    /// requested length is smaller than `len`).
    pub fn params(self, len: usize) -> (r: Option<(usize, usize)>)
        ensures
            match r {
                Some((additional, new_len)) => self.spec_params(len as nat) == Some(
                    (additional as nat, new_len as nat),
                ),
                None => self.spec_params(len as nat) is None,
            },
    {
        match self {
            ExpansionTy::Additional(elem) => match len.checked_add(elem) {
                Some(new_len) => Some((elem, new_len)),
                None => None,
            },
            ExpansionTy::Len(elem) => match elem.checked_sub(len) {
                Some(additional) => Some((additional, elem)),
                None => None,
            },
        }
    }
}

} // verus!
