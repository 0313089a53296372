use vstd::prelude::*;

verus! {

/// Relies on `<[T]>::swap`: exchanges the elements at `i` and `j`.
#[verifier::external_body]
fn swap_at<T>(v: &mut Vec<T>, i: usize, j: usize)
    requires
        i < old(v)@.len(),
        j < old(v)@.len(),
    ensures
        final(v)@ == old(v)@.update(i as int, old(v)@[j as int]).update(j as int, old(v)@[i as int]),
{
    v.swap(i, j)
}

/// Reverses `vec` in place by swapping pairs from both ends inwards.
pub fn reverse_vector<T>(vec: &mut Vec<T>)
    ensures
        final(vec)@ == old(vec)@.reverse(),
{
    let n = vec.len();
    if n == 0 {
        assert(vec@ =~= old(vec)@.reverse());
        return;
    }
    let mut left: usize = 0;
    let mut right: usize = n - 1;
    while left < right
        invariant
            vec@.len() == n,
            old(vec)@.len() == n,
            left + right == n - 1,
            left <= n,
            forall|k: int|
                0 <= k < n ==> #[trigger] vec@[k] == if k < left || k > right {
                    old(vec)@[n - 1 - k]
                } else {
                    old(vec)@[k]
                },
        decreases n - left,
    {
        swap_at(vec, left, right);
        left = left + 1;
        right = right - 1;
    }
    assert(vec@ =~= old(vec)@.reverse());
}

} // verus!
