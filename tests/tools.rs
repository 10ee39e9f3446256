use complib::rng::{Shuffle, SmallRng, XorShift, PCG64};
use complib::vectools::{next_permutation, prev_permutation, seq_compress, BSearch};
use std::collections::HashSet;

#[test]
fn xorshift_works() {
    let mut rng = XorShift::default();
    for i in [0, 10, 1000, 10000, 998244353] {
        assert_eq!(i, rng.range_i64(i, i + 1));
        assert_eq!(i, rng.range_i64(i, i + 1));

        assert_eq!(i as u64, rng.range_u64(i as u64, i as u64 + 1));
        assert_eq!(i as u64, rng.range_u64(i as u64, i as u64 + 1));

        assert_eq!(i as usize, rng.range_usize(i as usize, i as usize + 1));
        assert_eq!(i as usize, rng.range_usize(i as usize, i as usize + 1));

        assert_eq!(i as isize, rng.range_isize(i as isize, i as isize + 1));
        assert_eq!(i as isize, rng.range_isize(i as isize, i as isize + 1));
    }
}

#[test]
fn pcg64_works() {
    let mut rng = PCG64::default();
    for i in [0, 10, 1000, 10000, 998244353] {
        assert_eq!(i, rng.range_i64(i, i + 1));
        assert_eq!(i, rng.range_i64(i, i + 1));

        assert_eq!(i as u64, rng.range_u64(i as u64, i as u64 + 1));
        assert_eq!(i as u64, rng.range_u64(i as u64, i as u64 + 1));

        assert_eq!(i as usize, rng.range_usize(i as usize, i as usize + 1));
        assert_eq!(i as usize, rng.range_usize(i as usize, i as usize + 1));

        assert_eq!(i as isize, rng.range_isize(i as isize, i as isize + 1));
        assert_eq!(i as isize, rng.range_isize(i as isize, i as isize + 1));
    }
}

#[test]
fn shuffle_works() {
    let mut rng = XorShift::init(1_700_000_000);
    let mut v: Vec<usize> = Vec::new();
    v.shuffle(&mut rng);
    let mut w: Vec<usize> = (0..50).collect();
    w.shuffle(&mut rng);
    let mut sorted = w.clone();
    sorted.sort_unstable();
    assert_eq!(sorted, (0..50).collect::<Vec<_>>());
}

#[test]
fn generator_steps() {
    let mut x = XorShift::init(1);
    let s = 1u64 ^ (1u64 << 7);
    assert_eq!(x.next_u64(), s ^ (s >> 9));
    assert_eq!(x.get_seed(), s ^ (s >> 9));
    let mut p = PCG64::init(0);
    assert_eq!(p.get_seed(), 0);
    let state: u128 = 0x4d595df4d0f33173;
    let x64 = (state ^ (state >> 64)) as u64;
    assert_eq!(p.next_u64(), x64.rotate_right((state >> 122) as u32));
    let mut q = PCG64::init(5);
    let a = q.next_u64();
    let b = q.next_u64();
    assert_ne!(a, b);
}

#[test]
fn next_permutation_works() {
    let check = |mut v: Vec<i64>| {
        let mut prev_v = vec![0; v.len()];
        let mut set = HashSet::new();
        loop {
            assert!(!set.contains(&v));
            set.insert(v.clone());
            assert!(prev_v < v);
            prev_v = v.clone();
            if !next_permutation(&mut v) {
                break;
            }
        }
        assert!(set.contains(&v));
        set.len()
    };

    check(vec![1]);
    check(vec![1, 2, 3, 4, 5]);
    check(vec![1, 1, 5, 5, 9]);
    check(vec![1, 1, 1, 1, 1]);

    let mut u = vec![2, 1, 3];
    next_permutation(&mut u);
    assert_eq!(u, vec![2, 3, 1]);

    assert_eq!(check(vec![1, 2, 3, 4, 5]), (1..=5).product());
}

#[test]
fn prev_permutation_works() {
    let check = |mut v: Vec<i64>| {
        let mut prev_v = vec![i64::MAX; v.len()];
        let mut set = HashSet::new();
        loop {
            assert!(!set.contains(&v));
            set.insert(v.clone());
            assert!(prev_v > v);
            prev_v = v.clone();
            if !prev_permutation(&mut v) {
                break;
            }
        }
        assert!(set.contains(&v));
        set.len()
    };

    check(vec![1]);
    check(vec![5, 4, 3, 2, 1]);
    check(vec![5, 5, 2, 2, 1]);
    check(vec![1, 1, 1, 1, 1]);

    let mut u = vec![3, 1, 2];
    prev_permutation(&mut u);
    assert_eq!(u, vec![2, 3, 1]);

    assert_eq!(check(vec![5, 4, 3, 2, 1]), (1..=5).product());
}

#[test]
fn bsearch_works() {
    let v: Vec<i64> = vec![1, 2, 3, 4, 4, 7, 13, 19];

    assert_eq!(v.lower_bound(0), 0);
    assert_eq!(v.upper_bound(0), 0);
    assert_eq!(v.lower_bound(1), 0);
    assert_eq!(v.upper_bound(1), 1);
    assert_eq!(v.lower_bound(4), 3);
    assert_eq!(v.upper_bound(4), 5);
    assert_eq!(v.lower_bound(8), 6);
    assert_eq!(v.upper_bound(8), 6);
    assert_eq!(v.lower_bound(20), 8);
    assert_eq!(v.upper_bound(20), 8);
}

#[test]
fn bsearch_empty_and_permutation_edges() {
    let e: Vec<i64> = Vec::new();
    assert_eq!(e.lower_bound(3), 0);
    assert_eq!(e.upper_bound(3), 0);
    let mut z: Vec<i64> = Vec::new();
    assert!(!next_permutation(&mut z));
    assert!(!prev_permutation(&mut z));
    let mut d = vec![3, 2, 1];
    assert!(!next_permutation(&mut d));
    assert_eq!(d, vec![3, 2, 1]);
}

#[test]
fn seq_compress_works() {
    let mut v = vec![4, 9, -2, 3, 5];
    seq_compress(&mut v, 0, 1);
    assert_eq!(v, vec![2, 4, 0, 1, 3]);

    let mut v = vec![4, 9, -2, 3, 5];
    seq_compress(&mut v, 0, 2);
    assert_eq!(v, vec![4, 8, 0, 2, 6]);

    let mut v = vec![4, 9, -2, 3, 5];
    seq_compress(&mut v, 1, 2);
    assert_eq!(v, vec![5, 9, 1, 3, 7]);
}

#[test]
fn seq_compress_equal_values() {
    let mut v = vec![7, 7, 1, 7, 1];
    seq_compress(&mut v, 10, -3);
    assert_eq!(v, vec![7, 7, 10, 7, 10]);
    let mut e: Vec<i64> = Vec::new();
    seq_compress(&mut e, 0, 1);
    assert!(e.is_empty());
}
