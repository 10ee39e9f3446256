use complib::dlp::dlp;

fn pow_mod_naive(x: i64, r: i64, m: i64) -> i64 {
    let mut acc = 1 % m;
    for _ in 0..r {
        acc = acc * x % m;
    }
    acc
}

fn dlp_naive(x: i64, y: i64, m: i64, allow_zero: bool) -> Option<i64> {
    for r in if allow_zero { 0 } else { 1 }..=m {
        if pow_mod_naive(x, r, m) == y {
            return Some(r);
        }
    }
    None
}

#[test]
fn dlp_works() {
    for m in 1..100 {
        for x in 0..m {
            for y in 0..m {
                assert_eq!(dlp(x, y, m, true), dlp_naive(x, y, m, true));
                assert_eq!(dlp(x, y, m, false), dlp_naive(x, y, m, false));
            }
        }
    }
}

#[test]
fn dlp_named_cases() {
    assert_eq!(dlp(0, 1, 5, true), Some(0));
    assert_eq!(dlp(0, 0, 5, true), Some(1));
    assert_eq!(dlp(2, 1, 5, false), Some(4));
    assert_eq!(dlp(0, 0, 1, true), Some(0));
    assert_eq!(dlp(0, 0, 1, false), Some(1));
    assert_eq!(dlp(0, 3, 5, true), None);
    assert_eq!(dlp(4, 3, 8, true), None);
    assert_eq!(dlp(2, 3, 7, true), None);
    assert_eq!(dlp(3, 13, 17, true), Some(4));
}

#[test]
fn dlp_large_modulus() {
    let m: i64 = 1_000_000_007;
    let k = dlp(5, 123_456_789, m, true).unwrap();
    assert_eq!(complib::modarith::modpow_128bit(5, k as u128, m as u128), 123_456_789);
    let k2 = dlp(2, 1, 3_037_000_493, false).unwrap();
    assert!(k2 >= 1);
    assert_eq!(complib::modarith::modpow_128bit(2, k2 as u128, 3_037_000_493), 1);
}
