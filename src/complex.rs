use vstd::prelude::*;
use crate::geometry::{fits, div_trunc, div_ok, lemma_div_trunc_fits};

verus! {

/// A complex number `re + im i`.
#[derive(Debug, Clone, Copy, PartialEq, Eq, Default)]
pub struct Complex<T> {
    pub re: T,
    pub im: T,
}

impl<T> Complex<T> {
    pub fn new(re: T, im: T) -> (r: Complex<T>)
        ensures
            r.re == re,
            r.im == im,
    {
        Complex { re, im }
    }
}

impl Complex<i64> {
    /// `re - im i`.
    pub fn conjugate(&self) -> (r: Complex<i64>)
        requires
            fits(-self.im),
        ensures
            r.re == self.re,
            r.im == -self.im,
    {
        Complex { re: self.re, im: -self.im }
    }

    /// The squared modulus `re^2 + im^2`.
    pub fn abs2(&self) -> (r: i64)
        requires
            fits(self.re * self.re),
            fits(self.im * self.im),
            fits(self.re * self.re + self.im * self.im),
        ensures
            r == self.re * self.re + self.im * self.im,
    {
        self.re * self.re + self.im * self.im
    }

    /// The sum of two complex numbers.
    pub fn plus(&self, o: Complex<i64>) -> (r: Complex<i64>)
        requires
            fits(self.re + o.re),
            fits(self.im + o.im),
        ensures
            r.re == self.re + o.re,
            r.im == self.im + o.im,
    {
        Complex { re: self.re + o.re, im: self.im + o.im }
    }

    /// The difference of two complex numbers.
    pub fn minus(&self, o: Complex<i64>) -> (r: Complex<i64>)
        requires
            fits(self.re - o.re),
            fits(self.im - o.im),
        ensures
            r.re == self.re - o.re,
            r.im == self.im - o.im,
    {
        Complex { re: self.re - o.re, im: self.im - o.im }
    }

    /// The product `(a + b i)(c + d i) = (ac - bd) + (ad + bc) i`.
    pub fn times(&self, o: Complex<i64>) -> (r: Complex<i64>)
        requires
            product_fits(*self, o),
        ensures
            r.re == self.re * o.re - self.im * o.im,
            r.im == self.re * o.im + self.im * o.re,
    {
        Complex {
            re: self.re * o.re - self.im * o.im,
            im: self.re * o.im + self.im * o.re,
        }
    }

    /// The quotient: `self` times the conjugate of `o`, each part divided by
    /// `|o|^2` and rounded toward zero.
    pub fn divide(&self, o: Complex<i64>) -> (r: Complex<i64>)
        requires
            quotient_fits(*self, o),
        ensures
            r.re == div_trunc(self.re * o.re + self.im * o.im, o.re * o.re + o.im * o.im),
            r.im == div_trunc(self.im * o.re - self.re * o.im, o.re * o.re + o.im * o.im),
    {
        let c = o.conjugate();
        let den = o.times(c).re;
        let num = self.times(c);
        proof {
            let (ar, ai, br, bi, cr, ci) = (self.re as int, self.im as int, o.re as int, o.im as int, c.re as int, c.im as int);
            assert(ar * cr - ai * ci == ar * br + ai * bi && ar * ci + ai * cr == ai * br - ar * bi
                && br * cr - bi * ci == br * br + bi * bi) by (nonlinear_arith)
                requires cr == br, ci == -bi;
            lemma_div_trunc_fits(num.re as int, den as int);
            lemma_div_trunc_fits(num.im as int, den as int);
        }
        Complex { re: num.re / den, im: num.im / den }
    }
}

/// Every intermediate value of a product fits in 64 bits.
pub open spec fn product_fits(a: Complex<i64>, b: Complex<i64>) -> bool {
    fits(a.re * b.re) && fits(a.im * b.im) && fits(a.re * b.im) && fits(a.im * b.re) && fits(
        a.re * b.re - a.im * b.im,
    ) && fits(a.re * b.im + a.im * b.re)
}

/// Every intermediate value of a quotient fits in 64 bits, and `b` is not 0.
pub open spec fn quotient_fits(a: Complex<i64>, b: Complex<i64>) -> bool {
    let c = Complex { re: b.re, im: (-b.im) as i64 };
    &&& fits(-b.im)
    &&& product_fits(b, c)
    &&& product_fits(a, c)
    &&& div_ok(a.re * b.re + a.im * b.im, b.re * b.re + b.im * b.im)
    &&& div_ok(a.im * b.re - a.re * b.im, b.re * b.re + b.im * b.im)
}

} // verus!
