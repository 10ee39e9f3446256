use complib::matrix::Matrix;
use complib::raq_bit::RaqBit;
use complib::rollinghash::RollingHash;
use complib::rng::{SmallRng, XorShift};

#[test]
fn test_matrix_basic() {
    let m1 = Matrix::new(3, 2, 1);
    let mut m2 = Matrix::from(vec![vec![1, 2], vec![3, 4], vec![5, 6]]);
    let m3 = Matrix::from(vec![vec![2, 3], vec![4, 5], vec![6, 7]]);
    assert_eq!(m1.add_matrix(&m2), m3);
    let mut m2p = m2.clone();
    m2p.add_scalar(1);
    assert_eq!(m2p, m3);
    m2.add_scalar(1);
    assert_eq!(m2, m3);
    m2.add_scalar(-1);
    let mut m2p = m2.clone();
    m2p.add_scalar(1);
    assert_eq!(m2p, m3);

    let m1 = Matrix::from(vec![vec![1, 2], vec![1, 2]]);
    let m2 = Matrix::from(vec![vec![1, -2], vec![1, 4]]);
    let m3 = Matrix::from(vec![vec![3, 6], vec![3, 6]]);
    assert_eq!(m1.mul_matrix(&m2), m3);

    let m1 = Matrix::from(vec![vec![1, 2, 3], vec![4, -5, 6]]);
    let m2 = Matrix::from(vec![vec![1, 4], vec![2, -5], vec![3, 6]]);
    assert_eq!(m1.t(), m2);

    let mut m1 = Matrix::from(vec![vec![1, 2, 3], vec![4, -5, 6], vec![7, 8, 9]]);
    let m2 = Matrix::from(vec![vec![4, -5, 6], vec![1, 2, 3], vec![7, 8, 9]]);
    m1.chrow(0, 1);
    assert_eq!(m1, m2);

    let mut m1 = Matrix::from(vec![vec![1, 2, 3], vec![4, -5, 6], vec![7, 8, 9]]);
    let m2 = Matrix::from(vec![vec![2, 1, 3], vec![-5, 4, 6], vec![8, 7, 9]]);
    m1.chcol(0, 1);
    assert_eq!(m1, m2);
}

#[test]
fn matrix_shape() {
    let m = Matrix::new(2, 5, 0);
    assert_eq!(m.h(), 2);
    assert_eq!(m.w(), 5);
    assert_eq!(m.get(1, 4), 0);
}

struct RaqNaive {
    data: Vec<i64>,
}

impl RaqNaive {
    fn new(n: usize) -> RaqNaive {
        RaqNaive { data: vec![0; n] }
    }

    fn add(&mut self, l: usize, r: usize, val: i64) {
        for i in l..r {
            self.data[i] += val;
        }
    }

    fn sum(&self, l: usize, r: usize) -> i64 {
        (l..r).map(|i| self.data[i]).sum()
    }
}

#[test]
fn bit_raq_works_small() {
    let mut raq = RaqBit::new(10);
    let mut raq_naive = RaqNaive::new(10);

    let instruction = [(0, 4, -4_i64), (9, 10, 4), (2, 10, -3), (5, 7, 3)];
    for (l, r, val) in instruction {
        raq.add(l, r, val);
        raq_naive.add(l, r, val);
        for i in 0..10 {
            for j in i..10 {
                assert_eq!(raq.sum(i, j), raq_naive.sum(i, j));
            }
        }
    }
}

#[test]
fn bit_raq_works_large() {
    let size = 100;

    let mut raq = RaqBit::new(size);
    let mut raq_naive = RaqNaive::new(size);

    let mut rng = XorShift::default();

    for _ in 0..50 {
        let l = rng.range_usize(0, size);
        let r = rng.range_usize(l, size);
        let val = rng.range_i64(-1_000_000, 1_000_000);

        raq.add(l, r, val);
        raq_naive.add(l, r, val);
        for i in 0..size {
            for j in i..size {
                assert_eq!(raq.sum(i, j), raq_naive.sum(i, j));
            }
        }
    }
}

#[test]
fn raq_accum_prefix() {
    let mut raq = RaqBit::new(5);
    raq.add(1, 4, 7);
    assert_eq!(raq.accum(0), 0);
    assert_eq!(raq.accum(2), 7);
    assert_eq!(raq.accum(5), 21);
    assert_eq!(raq.sum(3, 5), 7);
}

#[test]
fn test_rolling_hash() {
    let test_str = "hogehogepiyopiyoabcabc";
    let hash = RollingHash::calc(test_str, 1234);
    for i in 0..test_str.len() {
        for j in i..test_str.len() {
            for k in 0..test_str.len() {
                for l in k..test_str.len() {
                    assert_eq!(test_str[i..j] == test_str[k..l], hash.get(i, j) == hash.get(k, l));
                }
            }
        }
    }
}

#[test]
fn rolling_hash_values() {
    let hash = RollingHash::calc("ab", 10);
    assert_eq!(hash.get(0, 0), 0);
    assert_eq!(hash.get(0, 1), 97);
    assert_eq!(hash.get(1, 2), 98);
    assert_eq!(hash.get(0, 2), 97 * 10 + 98);
}
