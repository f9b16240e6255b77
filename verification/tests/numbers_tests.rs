use hypatia::numbers::factors;
use hypatia::numbers::fib;
use hypatia::numbers::is_palendrome;
use hypatia::numbers::prime_factors;
use hypatia::numbers::primes;
use hypatia::numbers::triangular;
use hypatia::numbers::Perfection;
use hypatia::numbers::Primes;

#[test]
fn it_works() {
    assert_eq!(2 + 2, 4);
}

fn is_prime_by_trial_division(n: u64) -> bool {
    if n < 2 {
        return false;
    }
    let mut d = 2;
    while d < n {
        if n % d == 0 {
            return false;
        }
        d += 1;
    }
    true
}

#[test]
fn first_ten_primes() {
    let ps = primes(10);
    assert_eq!(ps, vec![2, 3, 5, 7, 11, 13, 17, 19, 23, 29]);
}

#[test]
fn enumeration_is_ascending_with_no_gaps() {
    let ps = primes(40);
    for w in ps.windows(2) {
        assert!(w[0] < w[1]);
        for skipped in (w[0] + 1)..w[1] {
            assert!(!is_prime_by_trial_division(skipped));
        }
    }
    for &p in &ps {
        assert!(is_prime_by_trial_division(p));
    }
}

#[test]
fn shared_cache_enumerations_restart_from_two() {
    let mut cache = Primes::default();
    let mut first = cache.iter();
    let mut seen_first = Vec::new();
    for _ in 0..5 {
        seen_first.push(first.next(&mut cache).unwrap());
    }
    assert_eq!(seen_first[0], 2);

    // A second enumeration over the same cache starts again at two and
    // replays the primes the first one discovered.
    let mut second = cache.iter();
    let mut seen_second = Vec::new();
    for _ in 0..8 {
        seen_second.push(second.next(&mut cache).unwrap());
    }
    assert_eq!(seen_second[0], 2);
    assert_eq!(&seen_second[..5], &seen_first[..]);
    assert_eq!(seen_second, vec![2, 3, 5, 7, 11, 13, 17, 19]);
}

#[test]
fn factorise_reconstructs_every_small_number() {
    let mut cache = Primes::default();
    for n in 2u64..=10000 {
        let f = cache.factorise(n).unwrap();
        assert_eq!(f.n, n);
        let mut product = 1u64;
        for factor in f.factors.iter() {
            assert!(is_prime_by_trial_division(factor.prime));
            assert!(factor.power >= 1);
            product *= factor.prime.checked_pow(factor.power).unwrap();
        }
        assert_eq!(product, n);
    }
}

#[test]
fn factorise_records_exact_exponents_and_misses_no_prime() {
    let mut cache = Primes::default();
    for n in 2u64..=2000 {
        let f = cache.factorise(n).unwrap();
        for factor in f.factors.iter() {
            let pe = factor.prime.checked_pow(factor.power).unwrap();
            assert_eq!(n % pe, 0);
            if let Some(pe1) = factor.prime.checked_pow(factor.power + 1) {
                assert_ne!(n % pe1, 0);
            }
        }
        for q in 2..=n {
            if n % q == 0 && is_prime_by_trial_division(q) {
                assert!(f.factors.iter().iter().any(|x| x.prime == q));
            }
        }
    }
}

#[test]
fn factorise_one_is_empty_and_zero_fails() {
    let mut cache = Primes::default();
    let one = cache.factorise(1).unwrap();
    assert!(one.factors.iter().is_empty());
    assert!(cache.factorise(0).is_err());
}

#[test]
fn perfect_number_twenty_eight() {
    let mut cache = Primes::default();
    let f = cache.factorise(28).unwrap();
    assert_eq!(f.factors.count_divisors(), 6);
    assert_eq!(f.sum_proper_divisors(), 28);
    assert_eq!(f.perfection(), Perfection::Perfect);
}

#[test]
fn perfection_classification() {
    let mut cache = Primes::default();
    let twelve = cache.factorise(12).unwrap();
    assert_eq!(twelve.sum_proper_divisors(), 16);
    assert_eq!(twelve.perfection(), Perfection::Abundant);
    let ten = cache.factorise(10).unwrap();
    assert_eq!(ten.sum_proper_divisors(), 8);
    assert_eq!(ten.perfection(), Perfection::Deficient);
}

#[test]
fn gcf_and_lcm_of_twelve_and_eighteen() {
    let mut cache = Primes::default();
    let twelve = cache.factorise(12).unwrap();
    let eighteen = cache.factorise(18).unwrap();
    let gcf = twelve.factors.largest_common_factor(&eighteen.factors);
    assert_eq!(gcf.factorisation().n, 6);
    let twelve = cache.factorise(12).unwrap();
    let eighteen = cache.factorise(18).unwrap();
    let lcm = twelve.factors.smallest_common_multiple(&eighteen.factors);
    assert_eq!(lcm.factorisation().n, 36);
}

#[test]
fn multiplying_factorisations_sums_exponents() {
    let mut cache = Primes::default();
    let twelve = cache.factorise(12).unwrap();
    let eighteen = cache.factorise(18).unwrap();
    let product = twelve.factors.multiply(&eighteen.factors);
    assert_eq!(product.factorisation().n, 12 * 18);
}

#[test]
fn merge_join_reports_exponents_on_both_sides() {
    let mut cache = Primes::default();
    let twelve = cache.factorise(12).unwrap();
    let eighteen = cache.factorise(18).unwrap();
    // 12 = 2^2 * 3, 18 = 2 * 3^2.
    let rows = twelve.factors.factors_iterator(&eighteen.factors);
    assert_eq!(rows, vec![(2, (2, 1)), (3, (1, 2))]);
}

#[test]
fn sum_divisors_uses_the_geometric_closed_form() {
    let mut cache = Primes::default();
    // 360 = 2^3 * 3^2 * 5: sigma = 15 * 13 * 6 = 1170.
    let f = cache.factorise(360).unwrap();
    assert_eq!(f.factors.sum_divisors(), 1170);
    for factor in f.factors.iter() {
        if factor.prime == 2 {
            assert_eq!(factor.power_sum(), 15);
            assert_eq!(factor.calculate(), 8);
        }
    }
}

#[test]
fn factors_lists_proper_divisors_ascending() {
    assert_eq!(factors(28), vec![1, 2, 4, 7, 14]);
    assert_eq!(factors(1), Vec::<u64>::new());
}

#[test]
fn prime_factors_matches_factorise() {
    let f = prime_factors(600851475143).unwrap();
    let primes_of: Vec<u64> = f.iter().iter().map(|x| x.prime).collect();
    assert_eq!(primes_of, vec![71, 839, 1471, 6857]);
    assert!(prime_factors(0).is_err());
}

#[test]
fn triangular_numbers() {
    assert_eq!(triangular(1), 1);
    assert_eq!(triangular(10), 55);
    assert_eq!(triangular(100), 5050);
}

#[test]
fn fibonacci_walk() {
    assert_eq!(fib(10), vec![1, 2, 3, 5, 8, 13, 21, 34, 55, 89]);
}

#[test]
fn fibonacci_walk_reaches_the_word_limit() {
    let all = fib(92);
    assert_eq!(*all.last().unwrap(), 12200160415121876738);
}

#[test]
fn palindromes() {
    assert!(is_palendrome(9009));
    assert!(is_palendrome(7));
    assert!(is_palendrome(0));
    assert!(!is_palendrome(10));
    assert!(!is_palendrome(9008));
}
