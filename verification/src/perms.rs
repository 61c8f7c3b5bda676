use vstd::prelude::*;

use itertools::Itertools;

use crate::moves::is_perm;

verus! {

/// The sequence of permutations that the enumeration yields for a given n.
pub uninterp spec fn perms_of(n: u64) -> Seq<Seq<u64>>;

/// PermutationSource: every arrangement of 1..=n, exactly once.
///
/// Relies on itertools' `permutations`: over the range 1..=n with k = n it
/// yields all n! n-permutations (its size accounting states n!/(n-k)!
/// outright), each a Vec of length n holding the n distinct range values in
/// some order; duplicates would arise only from equal source values.
/// `unique` then guarantees no sequence appears twice (a no-op safety net
/// here, so the count stays n!).  The bound keeps the materialised
/// enumeration within what a machine can hold.
#[verifier::external_body]
pub fn permutations_of(n: u64) -> (r: Vec<Vec<u64>>)
    requires
        n <= 20,
    ensures
        r@.len() == perms_of(n).len(),
        r@.len() == crate::expected::fact(n as nat),
        forall|i: int| 0 <= i < r@.len() ==> #[trigger] r@[i]@ == perms_of(n)[i],
        forall|i: int| 0 <= i < r@.len() ==> is_perm(#[trigger] r@[i]@) && r@[i]@.len() == n,
        forall|i: int, j: int| 0 <= i < j < r@.len() ==> r@[i]@ != r@[j]@,
{
    (1..(n + 1)).permutations(n as usize).unique().collect()
}

} // verus!
