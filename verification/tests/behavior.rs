use first_sort::concurrent::sum_counts;
use first_sort::concurrent::to_rational;
use first_sort::concurrent::Admission;
use first_sort::counter::f;
use first_sort::expected::cache_e;
use first_sort::expected::e;
use first_sort::expected::ResultRational;
use first_sort::memo::cache_f;
use first_sort::memo::MemoTable;
use first_sort::perms::permutations_of;
use num::BigInt;
use num::BigRational;
use num::ToPrimitive;

fn as_f64(r: ResultRational) -> f64 {
    BigRational::new(r.num, r.den).to_f64().unwrap_or_default()
}

#[test]
fn sorted_sequences_cost_nothing() {
    for n in 0..=20u64 {
        let sorted: Vec<u64> = (1..=n).collect();
        assert_eq!(f(sorted), 0);
    }
}

#[test]
fn fixed_regression_counts() {
    assert_eq!(f(vec![3, 2, 1]), 2);
    assert_eq!(f(vec![2, 1]), 1);
    assert_eq!(f(vec![1, 2]), 0);
}

#[test]
fn reducer_agrees_with_counter_exhaustively() {
    for n in 0..=5u64 {
        let mut table = MemoTable::new();
        for p in permutations_of(n) {
            let direct = f(p.clone());
            let reduced = cache_f(p, &mut table);
            assert_eq!(direct, reduced);
        }
    }
}

#[test]
fn expected_value_of_zero_and_one() {
    assert_eq!(as_f64(e(0)), 0.0);
    assert_eq!(as_f64(e(1)), 0.0);
    assert_eq!(as_f64(cache_e(0)), 0.0);
    assert_eq!(as_f64(cache_e(1)), 0.0);
}

#[test]
fn expected_value_of_two() {
    assert_eq!(as_f64(e(2)), 0.5);
    assert_eq!(as_f64(cache_e(2)), 0.5);
}

#[test]
fn expected_value_of_three_golden() {
    // The six permutations of {1,2,3} cost 0, 2, 1, 1, 3, 2 moves: sum 9.
    let r = e(3);
    let exact = BigRational::new(r.num, r.den);
    assert_eq!(exact, BigRational::new(BigInt::from(9), BigInt::from(6)));
    assert_eq!(as_f64(e(3)), 1.5);
    assert_eq!(as_f64(cache_e(3)), 1.5);
}

#[test]
fn direct_and_memoized_agree_up_to_six() {
    for n in 0..=6u64 {
        let a = e(n);
        let b = cache_e(n);
        assert_eq!(a.num, b.num);
        assert_eq!(a.den, b.den);
    }
}

#[test]
fn enumeration_is_complete_for_three() {
    let mut ps = permutations_of(3);
    ps.sort();
    assert_eq!(
        ps,
        vec![
            vec![1, 2, 3],
            vec![1, 3, 2],
            vec![2, 1, 3],
            vec![2, 3, 1],
            vec![3, 1, 2],
            vec![3, 2, 1],
        ]
    );
}

#[test]
fn enumeration_of_zero_is_one_empty_sequence() {
    let ps = permutations_of(0);
    assert_eq!(ps, vec![Vec::<u64>::new()]);
}

#[test]
fn factorial_denominators() {
    assert_eq!(e(0).den, BigInt::from(1));
    assert_eq!(e(1).den, BigInt::from(1));
    assert_eq!(e(4).den, BigInt::from(24));
    assert_eq!(e(6).den, BigInt::from(720));
}

#[test]
fn summing_counts_is_exact() {
    let total = sum_counts(&vec![1, 2, 3, 10]);
    assert_eq!(total, BigInt::from(16));
    let r = to_rational(total, 4);
    assert_eq!(r.num, BigInt::from(16));
    assert_eq!(r.den, BigInt::from(24));
}

#[test]
fn admission_clamps_and_tracks() {
    let mut a = Admission::new(0);
    assert_eq!(a.budget, 1);
    assert!(!a.must_wait());
    a.on_spawn();
    assert!(a.must_wait());
    a.on_complete();
    assert!(!a.must_wait());
    let b = Admission::new(4);
    assert_eq!(b.budget, 4);
}

#[test]
fn memo_table_is_reused_across_the_enumeration() {
    let mut table = MemoTable::new();
    assert_eq!(cache_f(vec![3, 2, 1], &mut table), 2);
    assert_eq!(cache_f(vec![3, 2, 1], &mut table), 2);
    assert_eq!(cache_f(vec![2, 3, 1], &mut table), 1);
    assert_eq!(cache_f(vec![], &mut table), 0);
}
