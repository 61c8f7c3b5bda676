use vstd::prelude::*;

use crate::moves::first_desc_at;
use crate::moves::lemma_moves_fit_u64;
use crate::moves::lemma_one_move;
use crate::moves::lemma_sorted_zero;
use crate::moves::moves;
use crate::moves::step_at;

verus! {

/// Relocate the element after the first descent to the front.
pub(crate) fn relocate(v: &mut Vec<u64>, i: usize)
    requires
        old(v)@.no_duplicates(),
        forall|j: int| 0 <= j < old(v)@.len() ==> 1 <= #[trigger] old(v)@[j] <= 64,
        first_desc_at(old(v)@, i as int),
    ensures
        final(v)@ == step_at(old(v)@, i as int),
        moves(old(v)@) == 1 + moves(final(v)@),
        final(v)@.len() == old(v)@.len(),
        final(v)@.no_duplicates(),
        forall|j: int| 0 <= j < final(v)@.len() ==> 1 <= #[trigger] final(v)@[j] <= 64,
{
    let ghost prev = v@;
    let n = v.len();
    proof {
        assert(i + 2 <= n);
    }
    let x = v[i + 1];
    v.insert(0, x);
    v.remove(i + 2);
    proof {
        assert(v@ =~= step_at(prev, i as int));
        lemma_one_move(prev, i as int);
    }
}

/// MoveCounter: scan from the front; on the first adjacent descent, relocate
/// the smaller element to the front, count one move, and restart the scan.
///
/// The values must be distinct and lie in 1..=64: the count of such a
/// sequence always fits in a u64, which a wider band could not promise.
#[verifier::rlimit(100)]
pub fn f(l: Vec<u64>) -> (r: u64)
    requires
        l@.no_duplicates(),
        forall|j: int| 0 <= j < l@.len() ==> 1 <= #[trigger] l@[j] <= 64,
    ensures
        r == moves(l@),
{
    let ghost orig = l@;
    proof {
        lemma_moves_fit_u64(orig);
    }
    let mut cur = l;
    let mut i: usize = 0;
    let mut s: u64 = 0;
    while i + 1 < cur.len()
        invariant
            cur@.no_duplicates(),
            forall|j: int| 0 <= j < cur@.len() ==> 1 <= #[trigger] cur@[j] <= 64,
            moves(orig) == s + moves(cur@),
            moves(orig) <= u64::MAX,
            i < usize::MAX,
            cur@.len() == 0 ==> i == 0,
            cur@.len() > 0 ==> i < cur@.len(),
            forall|j: int| 0 <= j < i ==> #[trigger] cur@[j] <= cur@[j + 1],
        decreases moves(cur@), cur@.len() - i,
    {
        if cur[i] > cur[i + 1] {
            proof {
                assert(first_desc_at(cur@, i as int));
            }
            relocate(&mut cur, i);
            s = s + 1;
            i = 0;
        } else {
            i = i + 1;
        }
    }
    proof {
        assert forall|j: int| 0 <= j < cur@.len() - 1 implies #[trigger] cur@[j] <= cur@[j
            + 1] by {
            assert(0 <= j < i);
        }
        lemma_sorted_zero(cur@);
    }
    s
}

} // verus!
