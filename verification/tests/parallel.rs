use crossbeam::channel::unbounded;
use first_sort::concurrent::to_rational;
use first_sort::concurrent::Admission;
use first_sort::counter::f;
use first_sort::expected::e;
use first_sort::perms::permutations_of;
use num::BigInt;
use num::BigRational;
use num::ToPrimitive;
use parking_lot::Mutex;

/// The concurrent mode: wait-before-spawn admission control, workers adding
/// into a locked exact accumulator, a structured join, then sum / n!.
fn par_e(n: u64, t: usize) -> BigRational {
    let acc: Mutex<BigInt> = Mutex::new(BigInt::from(0u64));
    let (tx, rx) = unbounded::<bool>();
    let mut admission = Admission::new(t);
    crossbeam::scope(|scope| {
        for p in permutations_of(n) {
            if admission.must_wait() {
                rx.recv().unwrap_or_default();
                admission.on_complete();
            }
            let tx = tx.clone();
            let acc = &acc;
            scope.spawn(move |_| {
                let r = f(p);
                let mut total = acc.lock();
                *total += r;
                drop(total);
                tx.send(true).unwrap_or_default();
            });
            admission.on_spawn();
        }
    })
    .unwrap();
    let total = acc.into_inner();
    let r = to_rational(total, n);
    BigRational::new(r.num, r.den)
}

#[test]
fn concurrent_thread_counts_agree_with_direct() {
    let direct = e(4);
    let exact = BigRational::new(direct.num, direct.den);
    for t in [1usize, 2, 4] {
        assert_eq!(par_e(4, t), exact);
    }
}

#[test]
fn concurrent_total_is_the_sequential_sum() {
    for t in [1usize, 2, 3, 8] {
        let seq_sum: u64 = permutations_of(4).into_iter().map(f).sum();
        let parallel = par_e(4, t);
        let expected = BigRational::new(BigInt::from(seq_sum), BigInt::from(24u64));
        assert_eq!(parallel, expected);
    }
}

#[test]
fn concurrent_handles_the_empty_permutation() {
    let r = par_e(0, 2);
    assert_eq!(r.to_f64().unwrap_or_default(), 0.0);
}

#[test]
fn concurrent_budget_below_one_is_clamped() {
    let r = par_e(3, 0);
    assert_eq!(r, BigRational::new(BigInt::from(9u64), BigInt::from(6u64)));
}
