use complib::eratosthenes::{EratosthenesSieve, EratosthenesSieveRange};
use complib::factor::{factorize, PollardRho};
use complib::modarith::{modpow_128bit, modpow_64bit};
use complib::primality::miller_rabin;
use complib::primenumber::{get_primelist, GetPrimeFactorization, PrimeFactorization};
use complib::rng::{SmallRng, XorShift};

fn collect_pollard(n: u64) -> Vec<u64> {
    // 0 lies outside the factoriser's domain; its factor list is empty.
    if n == 0 {
        return Vec::new();
    }
    let mut it = PollardRho::calc(n);
    let mut out = Vec::new();
    while let Some(p) = it.next() {
        out.push(p);
    }
    out
}

fn collect_trial(n: u64) -> Vec<u64> {
    let mut it = PrimeFactorization::calc(n);
    let mut out = Vec::new();
    while let Some(p) = it.next() {
        out.push(p);
    }
    out
}

fn collect_sieve(sieve: &EratosthenesSieve, n: usize) -> Vec<usize> {
    let mut it = sieve.prime_factorization(n);
    let mut out = Vec::new();
    while let Some(p) = it.next() {
        out.push(p);
    }
    out
}

fn is_prime_naive(n: u64) -> bool {
    if n < 2 {
        return false;
    }
    let mut d = 2;
    while d * d <= n {
        if n % d == 0 {
            return false;
        }
        d += 1;
    }
    true
}

#[test]
fn miller_rabin_works() {
    let mut prime_list = get_primelist(1000000);
    prime_list.append(&mut vec![
        2_147_483_647,
        67_280_421_310_721,
        9_007_199_254_740_997,
        123_456_789_012_345_671,
    ]);
    let not_prime_list = vec![
        4,
        4_759_123_141,
        1_565_912_117_761,
        8_635_844_967_113_809,
        406_248_370_438_173_883,
        9_223_372_036_854_775_807,
    ];

    assert!(prime_list.iter().map(|&q| miller_rabin(q)).all(|q| q));
    assert!(not_prime_list.iter().map(|&q| miller_rabin(q)).all(|q| !q));
}

#[test]
fn pollard_rho_works() {
    let mut rng = XorShift::default();
    for _ in 0..100 {
        let num = rng.range_u64(0, 1_000_000_000);
        let mut slow = collect_trial(num);
        let mut fast = collect_pollard(num);
        slow.sort_unstable();
        fast.sort_unstable();
        assert_eq!(slow, fast);
    }
}

#[test]
fn test_is_prime() {
    let limit = 1_000_000;
    let sieve = EratosthenesSieve::new(limit);
    let mut rng = XorShift::default();

    for n in 0..10 {
        assert_eq!(sieve.is_prime(n), miller_rabin(n as u64));
    }
    for n in limit - 10..=limit {
        assert_eq!(sieve.is_prime(n), miller_rabin(n as u64));
    }

    for _ in 0..1000 {
        let n = rng.range_usize(0, limit);
        assert_eq!(sieve.is_prime(n), miller_rabin(n as u64));
    }
}

#[test]
fn test_prime_factorization() {
    let limit = 1_000_000;
    let sieve = EratosthenesSieve::new(limit);
    let mut rng = XorShift::default();

    let check = |n: usize| {
        let mut result = collect_sieve(&sieve, n);
        let mut result_pollardrho = collect_pollard(n as u64)
            .into_iter()
            .map(|q| q as usize)
            .collect::<Vec<_>>();
        result.sort_unstable();
        result_pollardrho.sort_unstable();
        assert_eq!(result, result_pollardrho);
    };
    for n in 0..10 {
        check(n);
    }
    for n in limit - 10..=limit {
        check(n);
    }
    for _ in 0..1000 {
        let n = rng.range_usize(0, limit);
        check(n);
    }
}

#[test]
fn miller_rabin_matches_trial_division_below_bound() {
    for n in 0..200_000u64 {
        assert_eq!(miller_rabin(n), is_prime_naive(n), "n = {}", n);
    }
    assert!(miller_rabin(2_147_483_647));
    assert!(!miller_rabin(4));
    assert!(!miller_rabin(4_759_123_141));
    assert!(!miller_rabin(9_223_372_036_854_775_807));
    assert!(!miller_rabin(0));
    assert!(!miller_rabin(1));
    assert!(miller_rabin(2));
    assert!(miller_rabin(18_446_744_073_709_551_557));
}

#[test]
fn factorize_product_and_primality() {
    let mut rng = XorShift::init(12345);
    let mut values: Vec<u64> = vec![1, 2, 3, 4, 12, 97, 1 << 40, 999_999_937 * 3, 4_759_123_141];
    for _ in 0..200 {
        values.push(rng.range_u64(1, u64::MAX));
    }
    for n in values {
        let f = factorize(n);
        let mut prod: u128 = 1;
        for &p in &f {
            assert!(miller_rabin(p), "{} from {}", p, n);
            prod *= p as u128;
        }
        assert_eq!(prod, n as u128);
    }
}

#[test]
fn factorize_matches_trial_division() {
    let mut rng = XorShift::init(777);
    let mut values: Vec<u64> = (999_999_990..1_000_000_010).collect();
    for _ in 0..200 {
        values.push(rng.range_u64(1, 1_000_000_000));
    }
    for n in values {
        let mut a = factorize(n);
        let mut b = collect_trial(n);
        a.sort_unstable();
        b.sort_unstable();
        assert_eq!(a, b, "n = {}", n);
    }
}

#[test]
fn factorize_edge_cases() {
    assert!(factorize(1).is_empty());
    assert_eq!(factorize(2), vec![2]);
    let mut f = factorize(360);
    f.sort_unstable();
    assert_eq!(f, vec![2, 2, 2, 3, 3, 5]);
    let mut g = factorize(4_759_123_141);
    g.sort_unstable();
    assert_eq!(g, vec![48_781, 97_561]);
}

#[test]
fn factorize_repeated_calls_agree() {
    for &n in &[600_851_475_143u64, 1_000_000_007 * 998_244_353, 1 << 63, 9_223_372_036_854_775_807] {
        let mut a = factorize(n);
        let mut b = factorize(n);
        a.sort_unstable();
        b.sort_unstable();
        assert_eq!(a, b);
    }
}

#[test]
fn modpow_paths_agree() {
    let mut rng = XorShift::init(2024);
    for _ in 0..2000 {
        let m = rng.range_u64(1, 1 << 32);
        let b = rng.next_u64();
        let e = rng.next_u64();
        assert_eq!(modpow_64bit(b, e, m) as u128, modpow_128bit(b as u128, e as u128, m as u128));
    }
    assert_eq!(modpow_64bit(2, 10, 1000), 24);
    assert_eq!(modpow_128bit(0, 0, 7), 1);
    assert_eq!(modpow_64bit(5, 3, 0), 1);
}

#[test]
fn primelist_and_trait() {
    assert_eq!(get_primelist(30), vec![2, 3, 5, 7, 11, 13, 17, 19, 23, 29]);
    assert!(get_primelist(1).is_empty());
    let mut it = 84u64.prime_factorization();
    let mut out = Vec::new();
    while let Some(p) = it.next() {
        out.push(p);
    }
    assert_eq!(out, vec![2, 2, 3, 7]);
    let sieve = EratosthenesSieve::new(100);
    assert_eq!(sieve.get_factor(91), 7);
    assert_eq!(sieve.get_factor(97), 97);
}

#[test]
fn miller_rabin_matches_sieve_below_million() {
    let limit = 1_000_000;
    let sieve = EratosthenesSieve::new(limit);
    for n in 0..limit {
        assert_eq!(miller_rabin(n as u64), sieve.is_prime(n), "n = {}", n);
    }
}

fn collect_range(sieve: &EratosthenesSieveRange, n: u64) -> Vec<u64> {
    let mut it = sieve.prime_factorization(n);
    let mut out = Vec::new();
    while let Some(p) = it.next() {
        out.push(p);
    }
    out
}

#[test]
fn test_prime_factorization_range() {
    let limit = 1_000_000_000_000;
    let offset = 1_000_000;
    let sieve = EratosthenesSieveRange::new(limit - offset, limit);
    let mut rng = XorShift::default();

    for n in 0..10 {
        let mut result = collect_range(&sieve, n);
        let mut result_pollardrho = collect_pollard(n as u64);
        result.sort_unstable();
        result_pollardrho.sort_unstable();
        assert_eq!(result, result_pollardrho);
    }

    for n in limit - 10..=limit {
        let mut result = collect_range(&sieve, n);
        let mut result_pollardrho = collect_pollard(n as u64);
        result.sort_unstable();
        result_pollardrho.sort_unstable();
        assert_eq!(result, result_pollardrho);
    }

    for _ in 0..100 {
        let n = rng.range_u64(limit - offset, limit);
        let mut result = collect_range(&sieve, n);
        let mut result_pollardrho = collect_pollard(n as u64);
        result.sort_unstable();
        result_pollardrho.sort_unstable();
        assert_eq!(result, result_pollardrho);
    }
}

#[test]
fn range_sieve_primality() {
    let sieve = EratosthenesSieveRange::new(1_000_000, 1_001_000);
    for n in 1_000_000..=1_001_000u64 {
        assert_eq!(sieve.is_prime(n), miller_rabin(n), "n = {}", n);
    }
    assert!(sieve.is_prime(997));
    assert!(!sieve.is_prime(999));
}

#[test]
fn modpow_exponent_zero() {
    assert_eq!(modpow_128bit(0, 0, 1), 1);
    assert_eq!(modpow_64bit(7, 0, 1), 1);
    assert_eq!(modpow_64bit(0, 0, 5), 1);
    assert_eq!(modpow_128bit(5, 3, 1), 0);
    assert_eq!(modpow_128bit(3, 5, 1u128 << 64), 243);
}

#[test]
fn range_sieve_small_values() {
    let sieve = EratosthenesSieveRange::new(100, 200);
    assert!(!sieve.is_prime(0));
    assert!(!sieve.is_prime(1));
    assert!(sieve.is_prime(2));
    assert!(!sieve.is_prime(9));
    assert!(sieve.is_prime(199));
}
