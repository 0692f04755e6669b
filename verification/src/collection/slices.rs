use vstd::prelude::*;

verus! {

/// The elements of every slice in `slices`, in order.
pub open spec fn concat<T>(slices: Seq<Seq<T>>) -> Seq<T>
    decreases slices.len(),
{
    if slices.len() == 0 {
        Seq::empty()
    } else {
        concat(slices.drop_last()) + slices.last()
    }
}

/// The contents of each slice of `slices`.
pub open spec fn slices_view<T>(slices: Seq<&[T]>) -> Seq<Seq<T>> {
    slices.map_values(|s: &[T]| s@)
}

/// Appending a slice to a sequence of slices appends its elements to their concatenation.
pub proof fn lemma_concat_push<T>(slices: Seq<Seq<T>>, k: int)
    requires
        0 <= k < slices.len(),
    ensures
        concat(slices.take(k + 1)) == concat(slices.take(k)) + slices[k],
{
    assert(slices.take(k + 1).drop_last() =~= slices.take(k));
}

/// The sum of the lengths of `others`, or `None` where it exceeds `usize::MAX`.
pub fn total_len<T>(others: &[&[T]]) -> (r: Option<usize>)
    ensures
        r matches Some(n) ==> n == concat(slices_view(others@)).len(),
        r is None ==> concat(slices_view(others@)).len() > usize::MAX,
{
    let ghost ss = slices_view(others@);
    let mut total: usize = 0;
    let mut k: usize = 0;
    while k < others.len()
        invariant
            k <= others@.len(),
            ss == slices_view(others@),
            total == concat(ss.take(k as int)).len(),
        decreases others@.len() - k,
    {
        proof {
            lemma_concat_push(ss, k as int);
        }
        let len = others[k].len();
        if len > usize::MAX - total {
            proof {
                lemma_concat_prefix_len(ss, (k + 1) as int);
            }
            return None;
        }
        total = total + len;
        k = k + 1;
    }
    assert(ss.take(k as int) =~= ss);
    Some(total)
}

/// A prefix of the slices never holds more elements than all of them.
pub proof fn lemma_concat_prefix_len<T>(slices: Seq<Seq<T>>, k: int)
    requires
        0 <= k <= slices.len(),
    ensures
        concat(slices.take(k)).len() <= concat(slices).len(),
    decreases slices.len() - k,
{
    if k < slices.len() {
        lemma_concat_push(slices, k);
        lemma_concat_prefix_len(slices, k + 1);
    } else {
        assert(slices.take(k) =~= slices);
    }
}

/// The elements of `v` in the opposite order.
pub fn reversed<T>(v: Vec<T>) -> (r: Vec<T>)
    ensures
        r@ == v@.reverse(),
{
    let mut r: Vec<T> = Vec::new();
    let mut rest = v;
    while rest.len() > 0
        invariant
            rest@ + r@.reverse() == v@,
        decreases rest@.len(),
    {
        let ghost before = rest@;
        let ghost rev_before = r@;
        match rest.pop() {
            Some(elem) => {
                r.push(elem);
                assert(r@.reverse() =~= seq![elem] + rev_before.reverse());
                assert(rest@ + r@.reverse() =~= before + rev_before.reverse());
            },
            None => {},
        }
    }
    assert(rest@ =~= Seq::<T>::empty());
    assert(r@.reverse() =~= v@);
    assert(r@.reverse().reverse() =~= r@);
    r
}

} // verus!
