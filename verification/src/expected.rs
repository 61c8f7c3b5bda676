use vstd::prelude::*;

use num::BigInt;

use crate::bigint::big_add_u64;
use crate::bigint::big_from_u64;
use crate::bigint::big_mul_u64;
use crate::bigint::big_value;
use crate::counter::f;
use crate::memo::cache_f;
use crate::memo::copy_vec;
use crate::memo::MemoTable;
use crate::moves::is_perm;
use crate::moves::lemma_moves_fit_u64;
use crate::moves::moves;
use crate::perms::perms_of;
use crate::perms::permutations_of;

verus! {

/// RationalAggregator's result: the exact fraction sum / n!, kept as a pair
/// of arbitrary-precision integers until the caller presents it.
pub struct ResultRational {
    pub num: BigInt,
    pub den: BigInt,
}

pub open spec fn fact(n: nat) -> nat
    decreases n,
{
    if n == 0 {
        1
    } else {
        n * fact((n - 1) as nat)
    }
}

/// The move counts of a batch of permutations, summed.
pub open spec fn total_moves(ps: Seq<Seq<u64>>) -> nat
    decreases ps.len(),
{
    if ps.len() == 0 {
        0
    } else {
        total_moves(ps.drop_last()) + moves(ps.last())
    }
}

/// What every mode must return for a given n: the exact rational
/// (sum of move counts over the enumeration) / n!.
pub open spec fn e_spec(n: u64, r: ResultRational) -> bool {
    &&& big_value(r.num) == total_moves(perms_of(n))
    &&& big_value(r.den) == fact(n as nat)
}

/// n! as an exact big integer; the empty product is 1.
pub fn factorial_big(n: u64) -> (r: BigInt)
    ensures
        big_value(r) == fact(n as nat),
{
    let mut acc = big_from_u64(1);
    let mut i: u64 = 0;
    while i < n
        invariant
            i <= n,
            big_value(acc) == fact(i as nat),
        decreases n - i,
    {
        i = i + 1;
        acc = big_mul_u64(acc, i);
        proof {
            assert(fact(i as nat) == i * fact((i - 1) as nat));
            assert(fact((i - 1) as nat) * i == i * fact((i - 1) as nat)) by (nonlinear_arith);
        }
    }
    acc
}

/// The band every enumerated permutation of 1..=n lies in.
proof fn lemma_perm_band(p: Seq<u64>, n: u64)
    requires
        is_perm(p),
        p.len() == n,
        n <= 64,
    ensures
        p.no_duplicates(),
        forall|j: int| 0 <= j < p.len() ==> 1 <= #[trigger] p[j] <= 64,
        moves(p) <= u64::MAX,
{
    assert forall|j: int| 0 <= j < p.len() implies 1 <= #[trigger] p[j] <= 64 by {
        assert(1 <= p[j] <= p.len());
    }
    lemma_moves_fit_u64(p);
}

/// Direct mode: MoveCounter over every permutation, summed exactly.
pub fn e(n: u64) -> (r: ResultRational)
    requires
        n <= 20,
    ensures
        e_spec(n, r),
{
    let perms = permutations_of(n);
    let ghost ps = perms_of(n);
    proof {
        assert forall|i: int| 0 <= i < ps.len() implies is_perm(#[trigger] ps[i]) && ps[i].len()
            == n by {
            assert(perms@[i]@ == ps[i]);
            assert(is_perm(perms@[i]@));
        }
    }
    let mut acc = big_from_u64(0);
    let mut k: usize = 0;
    while k < perms.len()
        invariant
            n <= 20,
            perms@.len() == ps.len(),
            ps == perms_of(n),
            forall|i: int| 0 <= i < perms@.len() ==> perms@[i]@ == ps[i],
            forall|i: int| 0 <= i < ps.len() ==> is_perm(#[trigger] ps[i]) && ps[i].len() == n,
            0 <= k <= perms@.len(),
            big_value(acc) == total_moves(ps.take(k as int)),
        decreases perms@.len() - k,
    {
        proof {
            lemma_perm_band(ps[k as int], n);
        }
        let c = f(copy_vec(&perms[k]));
        acc = big_add_u64(acc, c);
        k = k + 1;
        proof {
            assert(ps.take(k as int).drop_last() =~= ps.take(k as int - 1));
            assert(ps.take(k as int).last() == ps[k as int - 1]);
        }
    }
    proof {
        assert(ps.take(ps.len() as int) =~= ps);
    }
    ResultRational { num: acc, den: factorial_big(n) }
}

/// Memoized mode: the reducer over every permutation, one shared table,
/// summed exactly.  Caching runs on a single thread by design.
pub fn cache_e(n: u64) -> (r: ResultRational)
    requires
        n <= 20,
    ensures
        e_spec(n, r),
{
    let perms = permutations_of(n);
    let ghost ps = perms_of(n);
    proof {
        assert forall|i: int| 0 <= i < ps.len() implies is_perm(#[trigger] ps[i]) && ps[i].len()
            == n by {
            assert(perms@[i]@ == ps[i]);
            assert(is_perm(perms@[i]@));
        }
    }
    let mut table = MemoTable::new();
    let mut acc = big_from_u64(0);
    let mut k: usize = 0;
    while k < perms.len()
        invariant
            n <= 20,
            table.wf(),
            perms@.len() == ps.len(),
            ps == perms_of(n),
            forall|i: int| 0 <= i < perms@.len() ==> perms@[i]@ == ps[i],
            forall|i: int| 0 <= i < ps.len() ==> is_perm(#[trigger] ps[i]) && ps[i].len() == n,
            0 <= k <= perms@.len(),
            big_value(acc) == total_moves(ps.take(k as int)),
        decreases perms@.len() - k,
    {
        proof {
            lemma_perm_band(ps[k as int], n);
            assert(perms@[k as int]@ == ps[k as int]);
        }
        let c = cache_f(copy_vec(&perms[k]), &mut table);
        acc = big_add_u64(acc, c);
        k = k + 1;
        proof {
            assert(ps.take(k as int).drop_last() =~= ps.take(k as int - 1));
            assert(ps.take(k as int).last() == ps[k as int - 1]);
        }
    }
    proof {
        assert(ps.take(ps.len() as int) =~= ps);
    }
    ResultRational { num: acc, den: factorial_big(n) }
}

/// All modes compute one value: two results that meet `e_spec` for the same n
/// carry the same exact rational, numerator and denominator alike.
pub proof fn lemma_modes_agree(n: u64, a: ResultRational, b: ResultRational)
    requires
        e_spec(n, a),
        e_spec(n, b),
    ensures
        big_value(a.num) == big_value(b.num),
        big_value(a.den) == big_value(b.den),
{
}

} // verus!
