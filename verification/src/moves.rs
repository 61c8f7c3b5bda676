use vstd::prelude::*;

verus! {

// ---------------------------------------------------------------------------
// The relocate-first-inversion procedure, as a mathematical definition.
//
// A step finds the first adjacent descent `s[i] > s[i + 1]`, removes the
// element at `i + 1` and prepends it to the front.  `moves` counts the steps
// until no descent remains.  Termination is justified by the potential `phi`:
// the sum, over the positions that have a strictly greater element somewhere
// before them, of two to the power of the value stored there.  A step pays
// `pow2(x)` for the relocated value `x` and buys back strictly less, because
// the values newly placed behind the front are pairwise distinct and smaller
// than `x`.
// ---------------------------------------------------------------------------

pub open spec fn sorted_adj(s: Seq<u64>) -> bool {
    forall|j: int| 0 <= j < s.len() - 1 ==> #[trigger] s[j] <= s[j + 1]
}

pub open spec fn desc_at(s: Seq<u64>, i: int) -> bool {
    &&& 0 <= i < s.len() - 1
    &&& s[i] > s[i + 1]
}

/// `i` is the first adjacent descent of `s`.
pub open spec fn first_desc_at(s: Seq<u64>, i: int) -> bool {
    &&& desc_at(s, i)
    &&& forall|j: int| 0 <= j < i ==> #[trigger] s[j] <= s[j + 1]
}

pub open spec fn first_desc(s: Seq<u64>) -> int {
    choose|i: int| first_desc_at(s, i)
}

/// The sequence after one relocation at descent `i`.
pub open spec fn step_at(s: Seq<u64>, i: int) -> Seq<u64> {
    seq![s[i + 1]] + s.subrange(0, i + 1) + s.subrange(i + 2, s.len() as int)
}

pub open spec fn pow2(n: nat) -> nat
    decreases n,
{
    if n == 0 {
        1
    } else {
        2 * pow2((n - 1) as nat)
    }
}

/// Position `j` has a strictly greater element somewhere before it.
pub open spec fn blocked(s: Seq<u64>, j: int) -> bool {
    exists|k: int| 0 <= k < j && s[k] > s[j]
}

pub open spec fn weight(s: Seq<u64>, j: int) -> nat {
    if blocked(s, j) {
        pow2(s[j] as nat)
    } else {
        0
    }
}

pub open spec fn phi_range(s: Seq<u64>, a: int, b: int) -> nat
    decreases b - a,
{
    if a >= b {
        0
    } else {
        phi_range(s, a, b - 1) + weight(s, b - 1)
    }
}

pub open spec fn phi(s: Seq<u64>) -> nat {
    phi_range(s, 0, s.len() as int)
}

/// The sum over `[a, b)` of `pow2(s[j])` for the values strictly below `x`.
pub open spec fn psum(s: Seq<u64>, x: u64, a: int, b: int) -> nat
    decreases b - a,
{
    if a >= b {
        0
    } else {
        psum(s, x, a, b - 1) + if s[b - 1] < x {
            pow2(s[b - 1] as nat)
        } else {
            0 as nat
        }
    }
}

// ---------------------------------------------------------------------------
// Elementary facts about pow2 and the sums.
// ---------------------------------------------------------------------------

pub proof fn lemma_pow2_pos(n: nat)
    ensures
        pow2(n) >= 1,
    decreases n,
{
    if n > 0 {
        lemma_pow2_pos((n - 1) as nat);
    }
}

pub proof fn lemma_pow2_mono(m: nat, n: nat)
    requires
        m <= n,
    ensures
        pow2(m) <= pow2(n),
    decreases n,
{
    if m < n {
        lemma_pow2_mono(m, (n - 1) as nat);
        lemma_pow2_pos((n - 1) as nat);
    }
}

pub proof fn lemma_phi_split(s: Seq<u64>, a: int, b: int, c: int)
    requires
        a <= b <= c,
    ensures
        phi_range(s, a, c) == phi_range(s, a, b) + phi_range(s, b, c),
    decreases c - b,
{
    if b < c {
        lemma_phi_split(s, a, b, c - 1);
    }
}

pub proof fn lemma_phi_congr(s: Seq<u64>, t: Seq<u64>, a: int, b: int)
    requires
        forall|j: int| a <= j < b ==> weight(s, j) == weight(t, j),
    ensures
        phi_range(s, a, b) == phi_range(t, a, b),
    decreases b - a,
{
    if a < b {
        lemma_phi_congr(s, t, a, b - 1);
    }
}

pub proof fn lemma_phi_zero(s: Seq<u64>, a: int, b: int)
    requires
        forall|j: int| a <= j < b ==> !blocked(s, j),
    ensures
        phi_range(s, a, b) == 0,
    decreases b - a,
{
    if a < b {
        lemma_phi_zero(s, a, b - 1);
    }
}

/// In a range whose adjacent pairs do not descend, values grow with position.
pub proof fn lemma_prefix_le(s: Seq<u64>, k: int, j: int)
    requires
        0 <= k <= j < s.len(),
        forall|m: int| 0 <= m < j ==> #[trigger] s[m] <= s[m + 1],
    ensures
        s[k] <= s[j],
    decreases j - k,
{
    if k < j {
        lemma_prefix_le(s, k, j - 1);
    }
}

pub proof fn lemma_psum_congr(s: Seq<u64>, x: u64, y: u64, a: int, b: int)
    requires
        forall|j: int| a <= j < b ==> (s[j] < x <==> s[j] < y),
    ensures
        psum(s, x, a, b) == psum(s, y, a, b),
    decreases b - a,
{
    if a < b {
        lemma_psum_congr(s, x, y, a, b - 1);
    }
}

/// A sum of distinct powers of two below `pow2(x)` leaves room for `pow2(lo)`.
pub proof fn lemma_psum_bound(s: Seq<u64>, x: u64, lo: nat, a: int, b: int)
    requires
        a <= b <= s.len(),
        lo <= x as nat,
        forall|j: int| a <= j < b ==> lo <= s[j] as nat,
        forall|p: int, q: int| a <= p < q < b ==> s[p] < s[q],
    ensures
        psum(s, x, a, b) + pow2(lo) <= pow2(x as nat),
    decreases b - a,
{
    if a >= b {
        lemma_pow2_mono(lo, x as nat);
    } else {
        let y = s[b - 1];
        if y >= x {
            lemma_psum_bound(s, x, lo, a, b - 1);
        } else {
            lemma_psum_bound(s, y, lo, a, b - 1);
            assert forall|j: int| a <= j < b - 1 implies (s[j] < x <==> s[j] < y) by {
                assert(s[j] < y);
            }
            lemma_psum_congr(s, x, y, a, b - 1);
            assert(pow2((y + 1) as nat) == 2 * pow2(y as nat));
            lemma_pow2_mono((y + 1) as nat, x as nat);
        }
    }
}

// ---------------------------------------------------------------------------
// The key inequality: one relocation strictly shrinks the potential.
// ---------------------------------------------------------------------------

/// With all values at least `lo`, a relocation frees at least `pow2(lo)`
/// of the potential.
pub proof fn lemma_phi_move(s: Seq<u64>, i: int, lo: nat)
    requires
        first_desc_at(s, i),
        s.no_duplicates(),
        forall|j: int| 0 <= j < s.len() ==> lo <= s[j] as nat,
    ensures
        phi(step_at(s, i)) + pow2(lo) <= phi(s),
{
    let n = s.len() as int;
    let x = s[i + 1];
    let t = step_at(s, i);
    assert(t.len() == n);
    assert(forall|p: int| 1 <= p <= i + 1 ==> t[p] == s[p - 1]);
    assert(forall|p: int| i + 2 <= p < n ==> t[p] == s[p]);
    assert(t[0] == x);

    // phi(s) splits as: flat prefix + pow2(x) + suffix.
    lemma_phi_split(s, 0, i + 1, n);
    lemma_phi_split(s, i + 1, i + 2, n);
    assert forall|j: int| 0 <= j < i + 1 implies !blocked(s, j) by {
        assert forall|k: int| 0 <= k < j implies !(s[k] > s[j]) by {
            lemma_prefix_le(s, k, j);
        }
    }
    lemma_phi_zero(s, 0, i + 1);
    assert(blocked(s, i + 1)) by {
        assert(0 <= i < i + 1 && s[i] > s[i + 1]);
    }
    assert(phi_range(s, i + 1, i + 2) == weight(s, i + 1)) by {
        reveal_with_fuel(phi_range, 2);
    }
    assert(phi(s) == pow2(x as nat) + phi_range(s, i + 2, n));

    // phi(t) splits as: 0 + a sum of smaller distinct powers + the same suffix.
    lemma_phi_split(t, 0, 1, n);
    lemma_phi_split(t, 1, i + 2, n);
    assert(!blocked(t, 0));
    assert(phi_range(t, 0, 1) == weight(t, 0)) by {
        reveal_with_fuel(phi_range, 2);
    }

    // The suffix contributions agree position by position.
    assert forall|j: int| i + 2 <= j < n implies weight(t, j) == weight(s, j) by {
        assert(t[j] == s[j]);
        if blocked(s, j) {
            let k = choose|k: int| 0 <= k < j && s[k] > s[j];
            if k == i + 1 {
                assert(t[0] == s[k] && 0 < j);
            } else if k <= i {
                assert(t[k + 1] == s[k] && 0 <= k + 1 < j);
            } else {
                assert(t[k] == s[k]);
            }
            assert(blocked(t, j));
        }
        if blocked(t, j) {
            let k = choose|k: int| 0 <= k < j && t[k] > t[j];
            if k == 0 {
                assert(s[i + 1] == t[0] && i + 1 < j);
            } else if k <= i + 1 {
                assert(s[k - 1] == t[k] && 0 <= k - 1 < j);
            } else {
                assert(s[k] == t[k]);
            }
            assert(blocked(s, j));
        }
    }
    lemma_phi_congr(t, s, i + 2, n);

    // The middle of t sums the prefix values that sit below x.
    lemma_phi_mid(s, i, i + 2);

    // Those values are strictly increasing and at least lo.
    assert forall|p: int, q: int| 0 <= p < q < i + 1 implies s[p] < s[q] by {
        lemma_prefix_le(s, p, q);
    }
    lemma_psum_bound(s, x, lo, 0, i + 1);
}

/// The contributions of `t[1 ..= i + 1]` are exactly the prefix values of `s`
/// that lie strictly below the relocated value.
proof fn lemma_phi_mid(s: Seq<u64>, i: int, b: int)
    requires
        first_desc_at(s, i),
        s.no_duplicates(),
        1 <= b <= i + 2,
    ensures
        phi_range(step_at(s, i), 1, b) == psum(s, s[i + 1], 0, b - 1),
    decreases b,
{
    let t = step_at(s, i);
    let x = s[i + 1];
    if b > 1 {
        lemma_phi_mid(s, i, b - 1);
        let p = b - 1;
        assert(t[p] == s[p - 1]);
        if s[p - 1] < x {
            assert(t[0] == x && 0 < p);
            assert(blocked(t, p));
        }
        if blocked(t, p) {
            let k = choose|k: int| 0 <= k < p && t[k] > t[p];
            if k > 0 {
                assert(t[k] == s[k - 1]);
                lemma_prefix_le(s, k - 1, p - 1);
                assert(false);
            }
            assert(t[0] == x);
            assert(s[p - 1] < x);
        }
        assert(weight(t, p) == if s[p - 1] < x {
            pow2(s[p - 1] as nat)
        } else {
            0 as nat
        });
    }
}

// ---------------------------------------------------------------------------
// The move count itself.
// ---------------------------------------------------------------------------

#[verifier::opaque]
pub open spec fn moves(s: Seq<u64>) -> nat
    decreases phi(s),
    via moves_via
{
    if !s.no_duplicates() {
        0
    } else if sorted_adj(s) {
        0
    } else {
        1 + moves(step_at(s, first_desc(s)))
    }
}

#[via_fn]
proof fn moves_via(s: Seq<u64>) {
    if s.no_duplicates() && !sorted_adj(s) {
        lemma_first_desc_exists(s);
        let i = first_desc(s);
        assert(first_desc_at(s, i));
        lemma_phi_move(s, i, 0);
        lemma_pow2_pos(0);
    }
}

/// An unsorted sequence has a first adjacent descent.
pub proof fn lemma_first_desc_exists(s: Seq<u64>)
    requires
        !sorted_adj(s),
    ensures
        first_desc_at(s, first_desc(s)),
{
    let j = choose|j: int| 0 <= j < s.len() - 1 && !(#[trigger] s[j] <= s[j + 1]);
    lemma_first_desc_from(s, j);
    let i = choose|i: int| first_desc_at(s, i);
    assert(first_desc_at(s, i));
}

proof fn lemma_first_desc_from(s: Seq<u64>, j: int)
    requires
        desc_at(s, j),
    ensures
        exists|i: int| first_desc_at(s, i),
    decreases j,
{
    if forall|k: int| 0 <= k < j ==> !desc_at(s, k) {
        assert forall|k: int| 0 <= k < j implies #[trigger] s[k] <= s[k + 1] by {
            assert(!desc_at(s, k));
        }
        assert(first_desc_at(s, j));
    } else {
        let k = choose|k: int| 0 <= k < j && desc_at(s, k);
        lemma_first_desc_from(s, k);
    }
}

/// The first descent is unique.
pub proof fn lemma_first_desc_unique(s: Seq<u64>, i: int, j: int)
    requires
        first_desc_at(s, i),
        first_desc_at(s, j),
    ensures
        i == j,
{
    if i < j {
        assert(s[i] <= s[i + 1]);
    }
    if j < i {
        assert(s[j] <= s[j + 1]);
    }
}


// ---------------------------------------------------------------------------
// What a relocation and a trim preserve.
// ---------------------------------------------------------------------------

/// Distinct values drawn from 1..=len: the shape every working sequence keeps.
pub open spec fn is_perm(s: Seq<u64>) -> bool {
    &&& s.no_duplicates()
    &&& forall|j: int| 0 <= j < s.len() ==> 1 <= #[trigger] s[j] <= s.len()
}

pub open spec fn id_seq(n: nat) -> Seq<u64> {
    Seq::new(n, |i: int| (i + 1) as u64)
}

/// A relocation rearranges the sequence: same length, same multiset of values.
pub proof fn lemma_step_multiset(s: Seq<u64>, i: int)
    requires
        0 <= i < s.len() - 1,
    ensures
        step_at(s, i).len() == s.len(),
        step_at(s, i).to_multiset() == s.to_multiset(),
{
    let n = s.len() as int;
    let t = step_at(s, i);
    let front = s.subrange(0, i + 1);
    let mid = seq![s[i + 1]];
    let back = s.subrange(i + 2, n);
    assert(s =~= (front + mid) + back);
    assert(t =~= (mid + front) + back);
    vstd::seq_lib::lemma_multiset_commutative(front + mid, back);
    vstd::seq_lib::lemma_multiset_commutative(mid + front, back);
    vstd::seq_lib::lemma_multiset_commutative(front, mid);
    vstd::seq_lib::lemma_multiset_commutative(mid, front);
    assert((front + mid).to_multiset() =~= (mid + front).to_multiset());
    assert(t.to_multiset() =~= s.to_multiset());
}

/// Sequences with equal multisets exchange distinctness and membership.
pub proof fn lemma_same_values(s: Seq<u64>, t: Seq<u64>)
    requires
        t.to_multiset() == s.to_multiset(),
    ensures
        s.no_duplicates() ==> t.no_duplicates(),
        forall|p: int| 0 <= p < t.len() ==> s.contains(#[trigger] t[p]),
{
    s.to_multiset_ensures();
    t.to_multiset_ensures();
    if s.no_duplicates() {
        s.lemma_multiset_has_no_duplicates();
        t.lemma_multiset_has_no_duplicates_conv();
    }
    assert forall|p: int| 0 <= p < t.len() implies s.contains(#[trigger] t[p]) by {
        assert(t.contains(t[p]));
        assert(t.to_multiset().count(t[p]) > 0);
    }
}

/// Dropping a final element that bounds all values keeps the working shape.
pub proof fn lemma_trim_is_perm(s: Seq<u64>)
    requires
        is_perm(s),
        s.len() >= 1,
        s.last() == s.len() as u64,
        s.len() <= u64::MAX,
    ensures
        is_perm(s.drop_last()),
{
    let t = s.drop_last();
    assert forall|p: int, q: int|
        0 <= p < t.len() && 0 <= q < t.len() && p != q implies t[p] != t[q] by {
        assert(s[p] != s[q]);
    }
    assert forall|j: int| 0 <= j < t.len() implies 1 <= #[trigger] t[j] <= t.len() by {
        assert(s[j] != s[s.len() - 1]);
        assert(s[j] <= s.len());
        assert(s[j] != s.len() as u64);
    }
}

// ---------------------------------------------------------------------------
// The count is bounded: at most pow2(m) - 1 when values stay within 1..=m.
// ---------------------------------------------------------------------------

pub open spec fn vsum(s: Seq<u64>) -> nat
    decreases s.len(),
{
    if s.len() == 0 {
        0
    } else {
        vsum(s.drop_last()) + pow2(s.last() as nat)
    }
}

proof fn lemma_phi_le_vsum_range(s: Seq<u64>, b: int)
    requires
        0 <= b <= s.len(),
    ensures
        phi_range(s, 0, b) <= vsum(s.subrange(0, b)),
    decreases b,
{
    if b > 0 {
        lemma_phi_le_vsum_range(s, b - 1);
        assert(s.subrange(0, b).drop_last() =~= s.subrange(0, b - 1));
        assert(s.subrange(0, b).last() == s[b - 1]);
    }
}

pub proof fn lemma_phi_le_vsum(s: Seq<u64>)
    ensures
        phi(s) <= vsum(s),
{
    lemma_phi_le_vsum_range(s, s.len() as int);
    assert(s.subrange(0, s.len() as int) =~= s);
}

proof fn lemma_vsum_remove(s: Seq<u64>, j: int)
    requires
        0 <= j < s.len(),
    ensures
        vsum(s) == vsum(s.remove(j)) + pow2(s[j] as nat),
    decreases s.len(),
{
    if j == s.len() - 1 {
        assert(s.remove(j) =~= s.drop_last());
    } else {
        let t = s.remove(j);
        assert(t.drop_last() =~= s.drop_last().remove(j));
        assert(t.last() == s.last());
        lemma_vsum_remove(s.drop_last(), j);
    }
}

/// Distinct values within 1..=m: their powers of two sum below pow2(m + 1) - 1.
pub proof fn lemma_vsum_bound(s: Seq<u64>, m: nat)
    requires
        s.no_duplicates(),
        forall|j: int| 0 <= j < s.len() ==> 1 <= #[trigger] s[j] as nat <= m,
    ensures
        vsum(s) + 2 <= pow2(m + 1),
    decreases m,
{
    if s.len() == 0 {
        lemma_pow2_mono(1, m + 1);
        assert(pow2(1) == 2) by {
            reveal_with_fuel(pow2, 3);
        }
    } else if m == 0 {
        assert(1 <= s[0] as nat <= 0);
    } else if exists|j: int| 0 <= j < s.len() && s[j] as nat == m {
        let j = choose|j: int| 0 <= j < s.len() && s[j] as nat == m;
        let t = s.remove(j);
        lemma_vsum_remove(s, j);
        s.remove_ensures(j);
        assert forall|p: int, q: int|
            0 <= p < t.len() && 0 <= q < t.len() && p != q implies t[p] != t[q] by {
            let p1: int = if p < j { p } else { p + 1 };
            let q1: int = if q < j { q } else { q + 1 };
            assert(t[p] == s[p1] && t[q] == s[q1]);
            assert(s[p1] != s[q1]);
        }
        assert forall|p: int| 0 <= p < t.len() implies 1 <= #[trigger] t[p] as nat <= m - 1 by {
            let p1: int = if p < j { p } else { p + 1 };
            assert(t[p] == s[p1]);
            assert(s[p1] != s[j]);
        }
        lemma_vsum_bound(t, (m - 1) as nat);
        assert(pow2(m + 1) == 2 * pow2(m));
    } else {
        assert forall|j: int| 0 <= j < s.len() implies 1 <= #[trigger] s[j] as nat <= m - 1 by {
            assert(!(s[j] as nat == m));
        }
        lemma_vsum_bound(s, (m - 1) as nat);
        lemma_pow2_mono(m, m + 1);
    }
}

/// Each relocation frees at least two units of potential.
pub proof fn lemma_moves_le_phi(s: Seq<u64>)
    requires
        s.no_duplicates(),
        forall|j: int| 0 <= j < s.len() ==> 1 <= #[trigger] s[j],
    ensures
        2 * moves(s) <= phi(s),
    decreases phi(s),
{
    reveal(moves);
    if !sorted_adj(s) {
        lemma_first_desc_exists(s);
        let i = first_desc(s);
        let t = step_at(s, i);
        assert forall|j: int| 0 <= j < s.len() implies 1nat <= s[j] as nat by {
            assert(1 <= s[j]);
        }
        lemma_phi_move(s, i, 1);
        assert(pow2(1) == 2) by {
            reveal_with_fuel(pow2, 3);
        }
        lemma_step_multiset(s, i);
        lemma_same_values(s, t);
        assert forall|j: int| 0 <= j < t.len() implies 1 <= #[trigger] t[j] by {
            assert(s.contains(t[j]));
            let q = choose|q: int| 0 <= q < s.len() && s[q] == t[j];
            assert(1 <= s[q]);
        }
        lemma_phi_move(s, i, 0);
        lemma_pow2_pos(0);
        lemma_moves_le_phi(t);
        assert(moves(s) == 1 + moves(t));
    }
}

/// A working sequence of values within 1..=64 needs fewer than 2^64 moves.
pub proof fn lemma_moves_fit_u64(s: Seq<u64>)
    requires
        s.no_duplicates(),
        forall|j: int| 0 <= j < s.len() ==> 1 <= #[trigger] s[j] <= 64,
    ensures
        moves(s) <= u64::MAX,
{
    lemma_moves_le_phi(s);
    lemma_phi_le_vsum(s);
    assert forall|j: int| 0 <= j < s.len() implies 1 <= #[trigger] s[j] as nat <= 64 by {
        assert(s[j] <= 64);
    }
    lemma_vsum_bound(s, 64);
    assert(pow2(65) == 0x20000000000000000) by {
        reveal_with_fuel(pow2, 66);
    }
}

// ---------------------------------------------------------------------------
// Sorted working sequences are the identity, and cost nothing.
// ---------------------------------------------------------------------------

proof fn lemma_sorted_lower(s: Seq<u64>, j: int)
    requires
        sorted_adj(s),
        s.no_duplicates(),
        forall|k: int| 0 <= k < s.len() ==> 1 <= #[trigger] s[k],
        0 <= j < s.len(),
    ensures
        s[j] as nat >= j + 1,
    decreases j,
{
    if j > 0 {
        lemma_sorted_lower(s, j - 1);
        assert(s[j - 1] <= s[j]);
        assert(s[j - 1] != s[j]);
    }
}

/// A sorted working sequence ends with its own length.
pub proof fn lemma_sorted_last(s: Seq<u64>)
    requires
        sorted_adj(s),
        is_perm(s),
        s.len() >= 1,
        s.len() <= u64::MAX,
    ensures
        s.last() == s.len() as u64,
{
    lemma_sorted_lower(s, s.len() - 1);
    assert(s.last() <= s.len());
}

/// No relocation happens on an already sorted sequence.
pub proof fn lemma_sorted_zero(s: Seq<u64>)
    requires
        sorted_adj(s),
    ensures
        moves(s) == 0,
{
    reveal(moves);
}

/// The ascending sequence 1..=n costs zero moves, whatever n.
pub proof fn lemma_id_seq_zero(n: nat)
    requires
        n <= u64::MAX,
    ensures
        moves(id_seq(n)) == 0,
{
    let s = id_seq(n);
    assert forall|j: int| 0 <= j < s.len() - 1 implies #[trigger] s[j] <= s[j + 1] by {
        assert(s[j] == (j + 1) as u64);
        assert(s[j + 1] == (j + 2) as u64);
    }
    lemma_sorted_zero(s);
}

// ---------------------------------------------------------------------------
// The reduction rule: a trailing element in its final slot costs nothing.
// ---------------------------------------------------------------------------

/// Dropping a final element that dominates the sequence keeps the move count.
#[verifier::rlimit(60)]
pub proof fn lemma_moves_trim(s: Seq<u64>)
    requires
        s.no_duplicates(),
        s.len() >= 1,
        forall|j: int| 0 <= j < s.len() ==> #[trigger] s[j] <= s.last(),
    ensures
        moves(s) == moves(s.drop_last()),
    decreases phi(s),
{
    reveal(moves);
    let n = s.len() as int;
    let t = s.drop_last();
    assert forall|p: int, q: int|
        0 <= p < t.len() && 0 <= q < t.len() && p != q implies t[p] != t[q] by {
        assert(s[p] != s[q]);
    }
    if sorted_adj(t) {
        assert(sorted_adj(s)) by {
            assert forall|j: int| 0 <= j < n - 1 implies #[trigger] s[j] <= s[j + 1] by {
                if j < n - 2 {
                    assert(t[j] <= t[j + 1]);
                }
            }
        }
    } else {
        assert(!sorted_adj(s)) by {
            let j = choose|j: int| 0 <= j < t.len() - 1 && !(#[trigger] t[j] <= t[j + 1]);
            assert(s[j] == t[j] && s[j + 1] == t[j + 1]);
        }
        lemma_first_desc_exists(s);
        lemma_first_desc_exists(t);
        let i = first_desc(s);
        let it = first_desc(t);
        assert(i < n - 2) by {
            assert(s[n - 2] <= s.last());
        }
        assert(first_desc_at(t, i)) by {
            assert(t[i] == s[i] && t[i + 1] == s[i + 1]);
            assert forall|j: int| 0 <= j < i implies #[trigger] t[j] <= t[j + 1] by {
                assert(s[j] <= s[j + 1]);
            }
        }
        lemma_first_desc_unique(t, it, i);
        let u = step_at(s, i);
        assert(u.drop_last() =~= step_at(t, i));
        assert(u.last() == s.last());
        lemma_step_multiset(s, i);
        lemma_same_values(s, u);
        assert forall|j: int| 0 <= j < u.len() implies #[trigger] u[j] <= u.last() by {
            assert(s.contains(u[j]));
            let q = choose|q: int| 0 <= q < s.len() && s[q] == u[j];
            assert(s[q] <= s.last());
        }
        lemma_phi_move(s, i, 0);
        lemma_pow2_pos(0);
        lemma_moves_trim(u);
        assert(moves(s) == 1 + moves(u));
        assert(moves(t) == 1 + moves(step_at(t, i)));
    }
}


/// A relocation keeps distinctness and any value band.
pub proof fn lemma_step_band(s: Seq<u64>, i: int, hi: u64)
    requires
        s.no_duplicates(),
        0 <= i < s.len() - 1,
        forall|j: int| 0 <= j < s.len() ==> 1 <= #[trigger] s[j] <= hi,
    ensures
        step_at(s, i).len() == s.len(),
        step_at(s, i).no_duplicates(),
        forall|j: int| 0 <= j < step_at(s, i).len() ==> 1 <= #[trigger] step_at(s, i)[j] <= hi,
{
    lemma_step_multiset(s, i);
    lemma_same_values(s, step_at(s, i));
    let t = step_at(s, i);
    assert forall|j: int| 0 <= j < t.len() implies 1 <= #[trigger] t[j] <= hi by {
        assert(s.contains(t[j]));
        let q = choose|q: int| 0 <= q < s.len() && s[q] == t[j];
        assert(1 <= s[q] <= hi);
    }
}


/// One relocation at the first descent: one move is paid, the potential
/// strictly shrinks, and the value band survives.
pub proof fn lemma_one_move(prev: Seq<u64>, i: int)
    requires
        prev.no_duplicates(),
        forall|j: int| 0 <= j < prev.len() ==> 1 <= #[trigger] prev[j] <= 64,
        first_desc_at(prev, i),
    ensures
        moves(prev) == 1 + moves(step_at(prev, i)),
        step_at(prev, i).len() == prev.len(),
        step_at(prev, i).no_duplicates(),
        forall|j: int|
            0 <= j < step_at(prev, i).len() ==> 1 <= #[trigger] step_at(prev, i)[j] <= 64,
{
    reveal(moves);
    assert(!sorted_adj(prev));
    assert(first_desc_at(prev, first_desc(prev)));
    lemma_first_desc_unique(prev, first_desc(prev), i);
    assert(moves(prev) == 1 + moves(step_at(prev, i)));
    lemma_phi_move(prev, i, 0);
    lemma_pow2_pos(0);
    lemma_step_band(prev, i, 64);
}

} // verus!
