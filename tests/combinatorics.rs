use complib::dpfactorial::DPFactorial;
use complib::primenumber::{get_mobius, get_primelist, Divisor, GetDivisor, PrimeFactorization};

#[test]
fn factorial_tables() {
    let mut f = DPFactorial::new(1_000_000_007);
    assert_eq!(f.get_factorial(0), 1);
    assert_eq!(f.get_factorial(10), 3_628_800);
    assert_eq!(f.get_factorial(20), 146_326_063);
    let inv = f.get_factorial_inv(10);
    assert_eq!(inv * 3_628_800 % 1_000_000_007, 1);
    assert_eq!(f.get_combination(10, 3), 120);
    assert_eq!(f.get_combination(3, 10), 0);
    assert_eq!(f.get_permutation(10, 3), 720);
    assert_eq!(f.get_permutation(2, 5), 0);
    let mut g = DPFactorial::new(7);
    assert_eq!(g.get_factorial(7), 0);
    assert_eq!(g.get_combination(6, 2), 15 % 7);
}

#[test]
fn mobius_values() {
    let mu = get_mobius(12);
    assert_eq!(mu, vec![0, 1, -1, -1, 0, -1, 1, -1, 0, 0, 1, -1, 0]);
    assert_eq!(get_mobius(0), vec![0, 1]);
}

fn collect_divisors(n: u64) -> Vec<u64> {
    let mut d = Divisor::calc(n);
    let mut out = Vec::new();
    while let Some(x) = d.next() {
        out.push(x);
    }
    out
}

#[test]
fn divisors_in_pairs() {
    assert_eq!(collect_divisors(12), vec![1, 12, 2, 6, 3, 4]);
    assert_eq!(collect_divisors(36), vec![1, 36, 2, 18, 3, 12, 4, 9, 6]);
    assert_eq!(collect_divisors(1), vec![1]);
    assert!(collect_divisors(0).is_empty());
    assert_eq!(collect_divisors(97), vec![1, 97]);
    let mut it = 30u64.get_divisor();
    let mut all = Vec::new();
    while let Some(x) = it.next() {
        all.push(x);
    }
    all.sort_unstable();
    assert_eq!(all, vec![1, 2, 3, 5, 6, 10, 15, 30]);
    let big = collect_divisors(1_000_000_007);
    assert_eq!(big, vec![1, 1_000_000_007]);
}

fn collect_fast(n: u64, list: &[u64]) -> Vec<u64> {
    let mut it = PrimeFactorization::calc_fast(n, list);
    let mut out = Vec::new();
    while let Some(p) = it.next() {
        out.push(p);
    }
    out
}

#[test]
fn factorization_with_prime_list() {
    let primes = get_primelist(100);
    assert_eq!(collect_fast(360, &primes), vec![2, 2, 2, 3, 3, 5]);
    assert_eq!(collect_fast(12, &primes), vec![2, 2, 3]);
    assert_eq!(collect_fast(9_973, &primes), Vec::<u64>::new());
    assert_eq!(collect_fast(9_973, &get_primelist(200)), vec![9_973]);
    assert_eq!(collect_fast(1, &primes), Vec::<u64>::new());
    assert_eq!(collect_fast(35, &[2, 3]), Vec::<u64>::new());
    assert_eq!(collect_fast(2 * 97 * 89, &primes), vec![2, 89, 97]);
}

#[test]
fn prime_list_reaching_square_root() {
    let primes = get_primelist(17);
    assert_eq!(collect_fast(202, &primes), vec![2, 101]);
    assert_eq!(collect_fast(7, &[2]), Vec::<u64>::new());
    assert_eq!(collect_fast(7, &[2, 3]), vec![7]);
}
