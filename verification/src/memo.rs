use vstd::prelude::*;

use crate::moves::first_desc_at;
use crate::moves::is_perm;
use crate::moves::lemma_moves_fit_u64;
use crate::moves::lemma_moves_trim;
use crate::moves::lemma_sorted_last;
use crate::moves::lemma_sorted_zero;
use crate::moves::lemma_trim_is_perm;
use crate::moves::moves;

verus! {

/// Compare two value sequences entry by entry.
fn vec_eq(a: &Vec<u64>, b: &Vec<u64>) -> (r: bool)
    ensures
        r <==> a@ == b@,
{
    if a.len() != b.len() {
        return false;
    }
    let mut k: usize = 0;
    while k < a.len()
        invariant
            a@.len() == b@.len(),
            0 <= k <= a@.len(),
            forall|j: int| 0 <= j < k ==> a@[j] == b@[j],
        decreases a@.len() - k,
    {
        if a[k] != b[k] {
            return false;
        }
        k = k + 1;
    }
    proof {
        assert(a@ =~= b@);
    }
    true
}

/// Copy a value sequence.
pub(crate) fn copy_vec(v: &Vec<u64>) -> (r: Vec<u64>)
    ensures
        r@ == v@,
{
    let mut r: Vec<u64> = Vec::new();
    let mut k: usize = 0;
    while k < v.len()
        invariant
            0 <= k <= v@.len(),
            r@ =~= v@.subrange(0, k as int),
        decreases v@.len() - k,
    {
        r.push(v[k]);
        k = k + 1;
        proof {
            assert(r@ =~= v@.subrange(0, k as int));
        }
    }
    proof {
        assert(v@.subrange(0, v@.len() as int) =~= v@);
    }
    r
}

/// The key is present among the table's entries.
pub open spec fn mem_key(m: Seq<(Seq<u64>, u64)>, k: Seq<u64>) -> bool {
    exists|i: int| 0 <= i < m.len() && (#[trigger] m[i]).0 == k
}

/// The key is present and maps to the value.
pub open spec fn mem_maps(m: Seq<(Seq<u64>, u64)>, k: Seq<u64>, v: u64) -> bool {
    exists|i: int| 0 <= i < m.len() && #[trigger] m[i] == (k, v)
}

/// MemoTable: a write-once mapping from a working sequence to its move count.
/// Single-threaded by design.  Its view lists the entries in insertion order.
pub struct MemoTable {
    entries: Vec<(Vec<u64>, u64)>,
}

impl View for MemoTable {
    type V = Seq<(Seq<u64>, u64)>;

    closed spec fn view(&self) -> Seq<(Seq<u64>, u64)> {
        self.entries@.map_values(|e: (Vec<u64>, u64)| (e.0@, e.1))
    }
}

impl MemoTable {
    /// Every stored key is a valid working sequence, stored exactly once
    /// (write-once, never overwritten), and every stored value is the exact
    /// move count of its key.
    pub open spec fn wf(self) -> bool {
        &&& forall|i: int|
            0 <= i < self@.len() ==> {
                &&& is_perm((#[trigger] self@[i]).0)
                &&& self@[i].0.len() <= 64
                &&& self@[i].1 == moves(self@[i].0)
            }
        &&& forall|i: int, j: int| 0 <= i < j < self@.len() ==> self@[i].0 != self@[j].0
    }

    /// A fresh table holds nothing.
    pub fn new() -> (r: MemoTable)
        ensures
            r.wf(),
            r@ == Seq::<(Seq<u64>, u64)>::empty(),
    {
        let t = MemoTable { entries: Vec::new() };
        proof {
            assert(t@ =~= Seq::<(Seq<u64>, u64)>::empty());
        }
        t
    }

    /// Look a key up: the stored value exactly when the key is present.
    fn get(&self, key: &Vec<u64>) -> (r: Option<u64>)
        requires
            self.wf(),
        ensures
            r matches Some(v) ==> mem_maps(self@, key@, v) && v == moves(key@),
            r is None ==> !mem_key(self@, key@),
    {
        let mut k: usize = 0;
        while k < self.entries.len()
            invariant
                self.wf(),
                0 <= k <= self@.len(),
                self@.len() == self.entries@.len(),
                forall|i: int| 0 <= i < k ==> (#[trigger] self@[i]).0 != key@,
            decreases self.entries@.len() - k,
        {
            if vec_eq(&self.entries[k].0, key) {
                proof {
                    assert(self@[k as int] == (key@, self.entries@[k as int].1));
                }
                return Some(self.entries[k].1);
            }
            proof {
                assert(self@[k as int].0 == self.entries@[k as int].0@);
            }
            k = k + 1;
        }
        None
    }

    /// Record a count for a key not seen before; older entries are untouched.
    fn put(&mut self, key: Vec<u64>, v: u64)
        requires
            old(self).wf(),
            is_perm(key@),
            key@.len() <= 64,
            v == moves(key@),
            !mem_key(old(self)@, key@),
        ensures
            final(self).wf(),
            final(self)@ == old(self)@.push((key@, v)),
    {
        let ghost before = self@;
        self.entries.push((key, v));
        proof {
            assert(self@ =~= before.push((key@, v)));
            assert forall|i: int| 0 <= i < self@.len() - 1 implies (#[trigger] self@[i]).0
                != key@ by {
                assert(before[i] == self@[i]);
            }
        }
    }
}

/// Each link of the pending chain costs one move when it was a relocation and
/// nothing when it was a trim, down to the tail sequence.
pub open spec fn chain_ok(ch: Seq<(Vec<u64>, bool)>, tail: Seq<u64>) -> bool {
    forall|k: int| 0 <= k < ch.len() ==> {
        let nx = if k + 1 < ch.len() {
            ch[k + 1].0@
        } else {
            tail
        };
        &&& is_perm((#[trigger] ch[k]).0@)
        &&& ch[k].0@.len() <= 64
        &&& moves(ch[k].0@) == (if ch[k].1 {
            1nat
        } else {
            0nat
        }) + moves(nx)
    }
}

/// MemoizedReducer: the same count as `f`, by the reduction recurrence.
/// A trailing element equal to the length is dropped for free; otherwise the
/// first descent is relocated for one move; every sequence met on the way is
/// remembered in the shared table.
///
/// The table only grows: old entries persist unchanged, the evaluated
/// sequence is afterwards present mapping to the result, a lookup hit leaves
/// the table exactly as it was, and every new key is a working sequence no
/// longer than the input.
#[verifier::rlimit(100)]
pub fn cache_f(l: Vec<u64>, c: &mut MemoTable) -> (r: u64)
    requires
        old(c).wf(),
        is_perm(l@),
        l@.len() <= 64,
    ensures
        final(c).wf(),
        r == moves(l@),
        old(c)@.is_prefix_of(final(c)@),
        mem_maps(final(c)@, l@, r),
        mem_key(old(c)@, l@) ==> final(c)@ == old(c)@,
        forall|i: int|
            old(c)@.len() <= i < final(c)@.len() ==> is_perm((#[trigger] final(c)@[i]).0)
                && final(c)@[i].0.len() <= l@.len(),
{
    let ghost orig = l@;
    let mut cur = l;
    let mut chain: Vec<(Vec<u64>, bool)> = Vec::new();
    let mut base: u64 = 0;
    let mut store_base: bool = false;
    let ghost mut tail = cur@;
    loop
        invariant_except_break
            c.wf(),
            c@ == old(c)@,
            is_perm(cur@),
            cur@.len() <= orig.len(),
            orig.len() <= 64,
            chain_ok(chain@, cur@),
            forall|k: int| 0 <= k < chain@.len() ==> (#[trigger] chain@[k]).0@.len() <= orig.len(),
            chain@.len() > 0 ==> chain@[0].0@ == orig,
            chain@.len() > 0 ==> !mem_key(old(c)@, orig),
            chain@.len() == 0 ==> cur@ == orig,
            !store_base,
        ensures
            c.wf(),
            c@ == old(c)@,
            is_perm(tail),
            tail.len() <= orig.len(),
            orig.len() <= 64,
            chain_ok(chain@, tail),
            forall|k: int| 0 <= k < chain@.len() ==> (#[trigger] chain@[k]).0@.len() <= orig.len(),
            chain@.len() > 0 ==> chain@[0].0@ == orig,
            chain@.len() == 0 ==> tail == orig,
            base == moves(tail),
            mem_key(old(c)@, orig) ==> chain@.len() == 0 && !store_base,
            store_base ==> !mem_key(old(c)@, tail) && base == 0,
            !store_base ==> mem_maps(old(c)@, tail, base),
            cur@ == tail,
        decreases moves(cur@), cur@.len(),
    {
        let hit = c.get(&cur);
        if let Some(v) = hit {
            base = v;
            proof {
                tail = cur@;
            }
            break;
        }
        let n = cur.len();
        if n == 0 {
            proof {
                lemma_sorted_zero(cur@);
                tail = cur@;
            }
            base = 0;
            store_base = true;
            break;
        }
        if cur[n - 1] == n as u64 {
            let ghost prev = cur@;
            chain.push((copy_vec(&cur), false));
            let _dropped: u64 = cur.remove(n - 1);
            proof {
                assert(cur@ =~= prev.drop_last());
                assert forall|j: int| 0 <= j < prev.len() implies #[trigger] prev[j]
                    <= prev.last() by {
                    assert(1 <= prev[j] <= prev.len());
                }
                lemma_moves_trim(prev);
                lemma_trim_is_perm(prev);
            }
        } else {
            // Find the first adjacent descent; a sorted working sequence would
            // end with its own length, which this branch has excluded.
            let mut j: usize = 0;
            proof {
                if n == 1 {
                    assert(1 <= cur@[0] <= 1);
                }
            }
            loop
                invariant_except_break
                    is_perm(cur@),
                    n == cur@.len(),
                    2 <= n <= 64,
                    cur@[n - 1] != n as u64,
                    0 <= j < n - 1,
                    forall|m: int| 0 <= m < j ==> #[trigger] cur@[m] <= cur@[m + 1],
                ensures
                    first_desc_at(cur@, j as int),
                decreases n - j,
            {
                if cur[j] > cur[j + 1] {
                    break;
                }
                j = j + 1;
                proof {
                    if j == n - 1 {
                        assert forall|m: int| 0 <= m < cur@.len() - 1 implies #[trigger] cur@[m]
                            <= cur@[m + 1] by {
                            assert(0 <= m < j);
                        }
                        lemma_sorted_last(cur@);
                        assert(false);
                    }
                }
            }
            chain.push((copy_vec(&cur), true));
            crate::counter::relocate(&mut cur, j);
        }
    }
    let mut val: u64 = base;
    if store_base {
        // The base case is memoized too: the empty sequence costs nothing.
        c.put(cur, base);
    }
    proof {
        if chain@.len() == 0 {
            if store_base {
                assert(c@[c@.len() - 1] == (orig, val));
            }
            assert(mem_maps(c@, orig, val));
        }
    }
    while chain.len() > 0
        invariant
            c.wf(),
            old(c)@.is_prefix_of(c@),
            forall|i: int|
                old(c)@.len() <= i < c@.len() ==> is_perm((#[trigger] c@[i]).0)
                    && c@[i].0.len() <= orig.len(),
            is_perm(tail),
            tail.len() <= orig.len(),
            orig.len() <= 64,
            chain_ok(chain@, tail),
            forall|k: int| 0 <= k < chain@.len() ==> (#[trigger] chain@[k]).0@.len() <= orig.len(),
            chain@.len() > 0 ==> chain@[0].0@ == orig,
            chain@.len() == 0 ==> mem_maps(c@, orig, val),
            mem_key(old(c)@, orig) ==> c@ == old(c)@ && chain@.len() == 0,
            val == moves(tail),
        decreases chain@.len(),
    {
        let ghost ch_prev = chain@;
        let entry = chain.pop().unwrap();
        let (key, was_move) = entry;
        proof {
            assert(chain@ =~= ch_prev.drop_last());
            assert(moves(key@) == (if was_move {
                1nat
            } else {
                0nat
            }) + moves(tail));
            assert forall|q: int| 0 <= q < key@.len() implies 1 <= #[trigger] key@[q] <= 64 by {
                assert(1 <= key@[q] <= key@.len());
            }
            lemma_moves_fit_u64(key@);
            tail = key@;
        }
        if was_move {
            val = val + 1;
        }
        // Write-once: a sequence already remembered is never overwritten;
        // its stored count already equals this one.
        let known = c.get(&key);
        match known {
            None => {
                c.put(key, val);
                proof {
                    assert(c@[c@.len() - 1] == (key@, val));
                    assert(mem_maps(c@, key@, val));
                }
            },
            Some(seen) => {
                proof {
                    assert(seen == val);
                    assert(mem_maps(c@, key@, val));
                }
            },
        }
        proof {
            if chain@.len() == 0 {
                assert(ch_prev[0].0@ == orig);
                assert(key@ == orig);
            }
        }
    }
    val
}

} // verus!
