//! Random visiting orders, drawn from a caller-supplied seedable generator.

use vstd::prelude::*;
use rand::rngs::StdRng;
use rand::seq::SliceRandom;

verus! {

#[verifier::external_type_specification]
#[verifier::external_body]
pub struct ExStdRng(StdRng);

/// Relies on rand's `SliceRandom::shuffle`, which permutes the slice in
/// place by swaps (Fisher-Yates): the elements stay, their order is random.
#[verifier::external_body]
fn shuffle_indices(v: &mut Vec<usize>, rng: &mut StdRng)
    ensures
        final(v)@.to_multiset() == old(v)@.to_multiset(),
{
    v.shuffle(rng);
}

/// A random order of `0..n`: each index exactly once.
pub fn random_order(n: usize, rng: &mut StdRng) -> (r: Vec<usize>)
    ensures
        r.len() == n,
        r@.no_duplicates(),
        forall|i: int| 0 <= i < n ==> #[trigger] r@[i] < n,
        forall|j: usize| j < n ==> #[trigger] r@.contains(j),
{
    let mut r: Vec<usize> = Vec::new();
    let mut i: usize = 0;
    while i < n
        invariant
            i <= n,
            r.len() == i,
            forall|j: int| 0 <= j < i ==> #[trigger] r@[j] == j,
        decreases n - i,
    {
        r.push(i);
        i = i + 1;
    }
    let ghost before = r@;
    assert(before.no_duplicates());
    shuffle_indices(&mut r, rng);
    proof {
        before.to_multiset_ensures();
        r@.to_multiset_ensures();
        before.lemma_multiset_has_no_duplicates();
        r@.lemma_multiset_has_no_duplicates_conv();
        assert forall|j: int| 0 <= j < n implies #[trigger] r@[j] < n by {
            assert(r@.contains(r@[j]));
            assert(r@.to_multiset().count(r@[j]) > 0);
            assert(before.to_multiset().count(r@[j]) > 0);
            assert(before.contains(r@[j]));
            let k = choose|k: int| 0 <= k < before.len() && before[k] == r@[j];
            assert(before[k] == k);
        }
        assert forall|j: usize| j < n implies #[trigger] r@.contains(j) by {
            assert(before[j as int] == j);
            assert(before.contains(j));
            assert(before.to_multiset().count(j) > 0);
        }
    }
    r
}

} // verus!
