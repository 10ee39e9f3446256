use vstd::prelude::*;
use crate::modarith::{spec_gcd, lemma_gcd_divides, gcd_u64};
use crate::primality::{is_prime, mr_accepts, miller_rabin};

verus! {

/// The product of a sequence of values (1 for the empty sequence).
pub open spec fn seq_product(s: Seq<u64>) -> int
    decreases s.len(),
{
    if s.len() == 0 {
        1
    } else {
        seq_product(s.drop_last()) * s.last()
    }
}

/// A value that may appear among emitted factors: at least 2, and prime by
/// the Miller-Rabin test or by having no divisor.
pub open spec fn accepted_factor(v: int) -> bool {
    v >= 2 && (mr_accepts(v) || is_prime(v))
}

pub proof fn lemma_product_push(s: Seq<u64>, x: u64)
    ensures
        seq_product(s.push(x)) == seq_product(s) * x,
{
    assert(s.push(x).drop_last() =~= s);
}

pub proof fn lemma_product_positive(s: Seq<u64>)
    requires
        forall|i: int| 0 <= i < s.len() ==> #[trigger] s[i] >= 1,
    ensures
        seq_product(s) >= 1,
    decreases s.len(),
{
    if s.len() > 0 {
        lemma_product_positive(s.drop_last());
        let p = seq_product(s.drop_last());
        assert(p * s.last() >= 1) by (nonlinear_arith)
            requires p >= 1, s.last() >= 1;
    }
}

/// One step `x -> (x^2 + c) mod v` of the pseudo-random walk, in single width
/// when the values are small enough and in double width otherwise.
fn rho_step(x: u64, c: u64, v: u64) -> (r: u64)
    requires
        x < v,
        c < v,
    ensures
        r == (x * x + c) % (v as int),
        r < v,
{
    if v <= 1_000_000_000 {
        proof {
            assert(x * x + c <= 1_000_000_000 * 1_000_000_000 + 1_000_000_000) by (nonlinear_arith)
                requires x < v, c < v, v <= 1_000_000_000;
        }
        (x * x + c) % v
    } else {
        proof {
            assert(x * x + c <= 0xffff_ffff_ffff_ffff * 0xffff_ffff_ffff_ffff + 0xffff_ffff_ffff_ffff)
                by (nonlinear_arith)
                requires x < v, c < v, v <= 0xffff_ffff_ffff_ffff;
        }
        ((x as u128 * x as u128 + c as u128) % v as u128) as u64
    }
}

/// A positive divisor of a positive number is at most that number.
proof fn lemma_divisor_le(v: int, d: int)
    requires
        v > 0,
        d > 0,
        v % d == 0,
    ensures
        d <= v,
{
    if d > v {
        vstd::arithmetic::div_mod::lemma_small_mod(v as nat, d as nat);
    }
}

/// One run of Floyd's cycle detection on the walk with constant `c`: a
/// divisor strictly between 1 and `v`, or nothing when the run closes on `v`.
fn rho_attempt(v: u64, c: u64) -> (r: Option<u64>)
    requires
        v >= 3,
        1 <= c < v,
    ensures
        r matches Some(d) ==> 1 < d < v && v % d == 0,
{
    let mut x: u64 = 2;
    let mut y: u64 = 2;
    let mut d: u64 = 1;
    let mut steps: u64 = 0;
    while d == 1 && steps < v
        invariant
            v >= 3,
            c < v,
            x < v,
            y < v,
            d >= 1,
            d > 1 ==> v % d == 0 && d <= v,
        decreases v - steps,
    {
        x = rho_step(x, c, v);
        y = rho_step(rho_step(y, c, v), c, v);
        let diff = if x > y { x - y } else { y - x };
        d = gcd_u64(diff, v);
        proof {
            lemma_gcd_divides(diff as nat, v as nat);
            lemma_divisor_le(v as int, d as int);
        }
        steps = steps + 1;
    }
    if d != 1 && d != v {
        Some(d)
    } else {
        None
    }
}

/// Looks for the smallest odd divisor of odd `v` up to its square root:
/// finds a divisor strictly between 1 and `v`, or shows that `v` is prime.
fn trial_divisor(v: u64) -> (r: Option<u64>)
    requires
        v >= 3,
        v % 2 == 1,
    ensures
        r matches Some(d) ==> 1 < d < v && v % d == 0,
        r is None ==> is_prime(v as int),
{
    let mut d: u64 = 3;
    while d <= v / d
        invariant
            v >= 3,
            v % 2 == 1,
            d >= 3,
            d % 2 == 1,
            d <= 0x1_0000_0001,
            forall|k: int| 3 <= k < d && k % 2 == 1 ==> #[trigger] (v as int % k) != 0,
        decreases 0x1_0000_0002 - d,
    {
        proof {
            vstd::arithmetic::div_mod::lemma_fundamental_div_mod(v as int, d as int);
            let q = v as int / d as int;
            assert(d * d <= v) by (nonlinear_arith)
                requires d <= q, v == d * q + v as int % d as int, v as int % d as int >= 0, d >= 3;
        }
        if v % d == 0 {
            proof {
                assert(d < v) by (nonlinear_arith)
                    requires d * d <= v, d >= 3;
            }
            return Some(d);
        }
        proof {
            assert(d + 2 <= 0x1_0000_0001) by (nonlinear_arith)
                requires d * d <= v, v <= 0xffff_ffff_ffff_ffff, d % 2 == 1;
        }
        d = d + 2;
    }
    proof {
        vstd::arithmetic::div_mod::lemma_fundamental_div_mod(v as int, d as int);
        let q = v as int / d as int;
        assert(v < d * d) by (nonlinear_arith)
            requires d > q, v == d * q + v as int % d as int, (v as int % d as int) < d, d >= 3;
        assert forall|e: int| 2 <= e < v implies #[trigger] (v as int % e) != 0 by {
            if v as int % e == 0 {
                let f = v as int / e;
                vstd::arithmetic::div_mod::lemma_fundamental_div_mod(v as int, e);
                assert(f >= 2) by (nonlinear_arith)
                    requires v == e * f, e < v, e >= 2;
                let m = if e <= f { e } else { f };
                assert(m * m <= v) by (nonlinear_arith)
                    requires v == e * f, m == e || m == f, m <= e, m <= f, m >= 2;
                assert(v as int % m == 0) by {
                    if m == f {
                        vstd::arithmetic::div_mod::lemma_mod_multiples_basic(e, f);
                        vstd::arithmetic::mul::lemma_mul_is_commutative(e, f);
                    }
                }
                if m % 2 == 0 {
                    let q = v as int / m;
                    vstd::arithmetic::div_mod::lemma_fundamental_div_mod(v as int, m);
                    vstd::arithmetic::div_mod::lemma_fundamental_div_mod(m, 2);
                    assert(v == 2 * ((m / 2) * q)) by (nonlinear_arith)
                        requires v == m * q, m == 2 * (m / 2);
                    vstd::arithmetic::div_mod::lemma_mod_multiples_basic((m / 2) * q, 2);
                } else {
                    assert(m < d) by (nonlinear_arith)
                        requires m * m <= v, v < d * d, m >= 2, d >= 3;
                }
            }
        }
    }
    None
}

/// Finds a divisor of odd `v` strictly between 1 and `v` with Pollard's rho,
/// trying the constants `c = 1, 2, 3, ...` in turn; when every walk closes on
/// `v` it falls back to trial division, which also shows when `v` is prime.
fn find_divisor(v: u64) -> (r: Option<u64>)
    requires
        v >= 3,
        v % 2 == 1,
    ensures
        r matches Some(d) ==> 1 < d < v && v % d == 0,
        r is None ==> is_prime(v as int),
{
    let mut c: u64 = 1;
    while c < v
        invariant
            v >= 3,
            c >= 1,
        decreases v - c,
    {
        if let Some(d) = rho_attempt(v, c) {
            return Some(d);
        }
        c = c + 1;
    }
    trial_divisor(v)
}

/// Pollard's rho factorisation, handing out prime factors one at a time.
pub struct PollardRho {
    arr: Vec<u64>,
}

impl PollardRho {
    /// The values still to be factored; their product times the product of
    /// the factors handed out so far is the number being factored.
    pub closed spec fn pending(&self) -> Seq<u64> {
        self.arr@
    }

    /// Every pending value is at least 2.
    pub closed spec fn wf(&self) -> bool {
        forall|i: int| 0 <= i < self.arr@.len() ==> #[trigger] self.arr@[i] >= 2
    }

    /// Starts the factorisation of `n >= 1`; 1 has no prime factors.
    pub fn calc(n: u64) -> (r: PollardRho)
        requires
            n >= 1,
        ensures
            r.wf(),
            seq_product(r.pending()) == n,
            n == 1 ==> r.pending().len() == 0,
    {
        let mut arr: Vec<u64> = Vec::new();
        if n >= 2 {
            arr.push(n);
        }
        proof {
            if n >= 2 {
                assert(arr@.drop_last() =~= Seq::<u64>::empty());
                assert(seq_product(arr@) == seq_product(arr@.drop_last()) * arr@.last());
            } else {
                assert(seq_product(arr@) == 1);
            }
        }
        PollardRho { arr }
    }

    /// Hands out the next prime factor, or `None` once all are handed out.
    pub fn next(&mut self) -> (r: Option<u64>)
        requires
            old(self).wf(),
        ensures
            final(self).wf(),
            old(self).pending().len() == 0 <==> r is None,
            r is None ==> final(self).pending() == old(self).pending(),
            r matches Some(v) ==> accepted_factor(v as int) && seq_product(old(self).pending())
                == v * seq_product(final(self).pending()),
    {
        let popped = self.arr.pop();
        match popped {
            None => None,
            Some(v0) => {
                let ghost orig = old(self).arr@;
                proof {
                    assert(orig =~= self.arr@.push(v0));
                    lemma_product_push(self.arr@, v0);
                }
                let mut v: u64 = v0;
                loop
                    invariant
                        self.wf(),
                        orig.len() > 0,
                        orig == old(self).arr@,
                        v >= 2,
                        seq_product(orig) == v * seq_product(self.arr@),
                    decreases v,
                {
                    if miller_rabin(v) {
                        return Some(v);
                    }
                    if v % 2 == 0 {
                        let h = v / 2;
                        proof {
                            lemma_product_push(self.arr@, h);
                            let p = seq_product(self.arr@);
                            assert(v * p == 2 * (p * h)) by (nonlinear_arith)
                                requires v == 2 * h;
                        }
                        self.arr.push(h);
                        proof {
                            assert(mr_accepts(2));
                            assert(seq_product(orig) == 2 * seq_product(self.arr@));
                        }
                        return Some(2);
                    }
                    match find_divisor(v) {
                        Some(d) => {
                            let q = v / d;
                            proof {
                                vstd::arithmetic::div_mod::lemma_fundamental_div_mod(
                                    v as int,
                                    d as int,
                                );
                                assert(q >= 2) by (nonlinear_arith)
                                    requires v == d * q, d < v, d > 1;
                                lemma_product_push(self.arr@, q);
                                let p = seq_product(self.arr@);
                                assert(v * p == d * (p * q)) by (nonlinear_arith)
                                    requires v == d * q;
                            }
                            self.arr.push(q);
                            v = d;
                        },
                        None => {
                            return Some(v);
                        },
                    }
                }
            },
        }
    }
}

/// The prime factors of `n >= 1` with multiplicity, in no particular order;
/// empty for 1. Their product is `n`, and each one is prime by the
/// Miller-Rabin test or by having no divisor.
pub fn factorize(n: u64) -> (r: Vec<u64>)
    requires
        n >= 1,
    ensures
        seq_product(r@) == n,
        forall|i: int| 0 <= i < r@.len() ==> accepted_factor(#[trigger] r@[i] as int),
{
    let mut pr = PollardRho::calc(n);
    let mut out: Vec<u64> = Vec::new();
    loop
        invariant
            pr.wf(),
            seq_product(out@) * seq_product(pr.pending()) == n,
            forall|i: int| 0 <= i < out@.len() ==> accepted_factor(#[trigger] out@[i] as int),
        decreases seq_product(pr.pending()),
    {
        let ghost before = pr.pending();
        proof {
            lemma_product_positive(before);
        }
        match pr.next() {
            Some(v) => {
                proof {
                    lemma_product_push(out@, v);
                    lemma_product_positive(pr.pending());
                    let a = seq_product(out@);
                    let b = seq_product(pr.pending());
                    assert(a * seq_product(before) == (a * v) * b) by (nonlinear_arith)
                        requires seq_product(before) == v * b;
                    assert(b < seq_product(before)) by (nonlinear_arith)
                        requires seq_product(before) == v * b, v >= 2, b >= 1;
                }
                out.push(v);
            },
            None => {
                proof {
                    assert(seq_product(pr.pending()) == 1);
                }
                return out;
            },
        }
    }
}

} // verus!
