use vstd::prelude::*;
use vstd::arithmetic::div_mod::*;
use crate::primality::is_prime;
use crate::eratosthenes::{EratosthenesSieve, smallest_factor, lemma_smallest_factor_prime, lemma_divides_trans};

verus! {

/// Prime factorisation by trial division, handing out the factors smallest
/// first; the candidates are all numbers, or the primes of a given list.
pub struct PrimeFactorization<'a> {
    n: u64,
    cur: u64,
    p_list: Option<&'a [u64]>,
    idx: usize,
}

/// `l` lists primes in increasing order, with every prime below a listed one listed too.
pub open spec fn prime_prefix(l: Seq<u64>) -> bool {
    &&& forall|k: int| 0 <= k < l.len() ==> is_prime(#[trigger] l[k] as int)
    &&& forall|a: int, b: int| 0 <= a < b < l.len() ==> l[a] < l[b]
    &&& forall|q: int, k: int|
        #![trigger l[k], is_prime(q)]
        0 <= k < l.len() && 2 <= q < l[k] && is_prime(q) ==> l.contains(q as u64)
}

/// No number in `[2, c]` divides `n`.
pub open spec fn no_divisor_upto(n: int, c: int) -> bool {
    forall|d: int| 2 <= d <= c ==> #[trigger] (n % d) != 0
}

impl<'a> PrimeFactorization<'a> {
    /// What is left to factor: 1 once the last factor was handed out.
    pub closed spec fn remaining(&self) -> int {
        if self.cur == 0 {
            1
        } else {
            self.n as int
        }
    }

    /// The candidate primes, when a list was given.
    pub closed spec fn candidates(&self) -> Option<Seq<u64>> {
        match self.p_list {
            Some(l) => Some(l@),
            None => None,
        }
    }

    pub closed spec fn wf(&self) -> bool {
        match self.p_list {
            None => self.cur == 0 || (self.cur <= self.n + 1 && no_divisor_upto(self.n as int, self.cur as int))
                || self.n == 0,
            Some(l) => {
                &&& prime_prefix(l@)
                &&& self.cur == 0 || (self.idx <= l@.len() && (self.cur <= self.n || self.n <= 1)
                    && forall|k: int| 0 <= k < self.idx ==> #[trigger] (self.n as int % l@[k] as int) != 0)
                &&& self.cur != 0 && self.idx == l@.len() && l@.len() > 0 && self.n > 1 ==> l@[l@.len() - 1]
                    * l@[l@.len() - 1] <= self.n
            },
        }
    }

    /// Starts the factorisation of `n`, trying every number as a divisor.
    pub fn calc(n: u64) -> (r: PrimeFactorization<'a>)
        ensures
            r.wf(),
            r.remaining() == n,
            r.candidates() is None,
    {
        PrimeFactorization { n, cur: 1, p_list: None, idx: 0 }
    }

    /// Starts the factorisation of `n`, trying the primes of `p_list` as divisors.
    pub fn calc_fast(n: u64, p_list: &'a [u64]) -> (r: PrimeFactorization<'a>)
        requires
            prime_prefix(p_list@),
        ensures
            r.wf(),
            r.remaining() == n,
            r.candidates() == Some(p_list@),
    {
        PrimeFactorization { n, cur: 1, p_list: Some(p_list), idx: 0 }
    }

    /// The next prime factor, the smallest one of what is left. `None` once
    /// what is left is 0 or 1, or, with a list of candidates, once no listed
    /// prime divides what is left and the list reaches no further than its
    /// square root.
    pub fn next(&mut self) -> (r: Option<u64>)
        requires
            old(self).wf(),
        ensures
            final(self).wf(),
            final(self).candidates() == old(self).candidates(),
            old(self).candidates() is None ==> (r is None <==> old(self).remaining() <= 1),
            r is None ==> old(self).remaining() <= 1 || (old(self).candidates() matches Some(l) && (forall|k: int|
                0 <= k < l.len() ==> #[trigger] (old(self).remaining() % l[k] as int) != 0) && (l.len() > 0
                ==> l[l.len() - 1] * l[l.len() - 1] <= old(self).remaining())),
            r is None ==> final(self).remaining() == old(self).remaining(),
            r matches Some(p) ==> is_prime(p as int) && old(self).remaining() == p * final(self).remaining()
                && smallest_factor(old(self).remaining(), p as int),
    {
        match self.p_list {
            Some(l) => self.next_listed(l),
            None => self.next_trial(),
        }
    }

    fn next_listed(&mut self, l: &'a [u64]) -> (r: Option<u64>)
        requires
            old(self).wf(),
            old(self).p_list == Some(l),
        ensures
            final(self).wf(),
            final(self).p_list == old(self).p_list,
            r is None ==> old(self).remaining() <= 1 || ((forall|k: int|
                0 <= k < l@.len() ==> #[trigger] (old(self).remaining() % l@[k] as int) != 0) && (l@.len() > 0
                ==> l@[l@.len() - 1] * l@[l@.len() - 1] <= old(self).remaining())),
            r is None ==> final(self).remaining() == old(self).remaining(),
            r matches Some(p) ==> is_prime(p as int) && old(self).remaining() == p * final(self).remaining()
                && smallest_factor(old(self).remaining(), p as int),
    {
        loop
            invariant
                self.p_list == Some(l),
                old(self).p_list == Some(l),
                self.n == old(self).n,
                old(self).cur != 0 ==> self.cur != 0,
                old(self).cur == 0 ==> self.cur == 0,
                self.wf(),
            decreases l@.len() - self.idx,
        {
            if self.cur == 0 || self.cur > self.n {
                return None;
            }
            if self.idx >= l.len() {
                return None;
            }
            let c = l[self.idx];
            proof {
                assert(is_prime(l@[self.idx as int] as int));
            }
            self.cur = c;
            self.idx = self.idx + 1;
            proof {
                assert((c as int) * (c as int) <= 0xffff_ffff_ffff_ffff * 0xffff_ffff_ffff_ffff) by (nonlinear_arith)
                    requires c <= 0xffff_ffff_ffff_ffff;
            }
            if (c as u128) * (c as u128) > self.n as u128 {
                if self.n != 1 {
                    let v = self.n;
                    proof {
                        if !is_prime(v as int) {
                            let q = crate::eratosthenes::lemma_smallest_divisor_exists(v as int, 2);
                            lemma_smallest_factor_prime(v as int, q);
                            lemma_fundamental_div_mod(v as int, q);
                            let e = v as int / q;
                            assert(v == q * e);
                            let d = choose|d: int| 2 <= d < v && #[trigger] (v as int % d) == 0;
                            assert(q <= d);
                            assert(e >= q) by {
                                if e < q {
                                    assert(e >= 2) by (nonlinear_arith)
                                        requires v == q * e, q < v, q >= 2;
                                    lemma_mod_multiples_basic(q, e);
                                    vstd::arithmetic::mul::lemma_mul_is_commutative(q, e);
                                    assert(v as int % e == 0);
                                }
                            }
                            assert(q < c) by (nonlinear_arith)
                                requires v == q * e, e >= q, q >= 2, c * c > v, c >= 2;
                            assert(l@.contains(q as u64));
                            let j = choose|j: int| 0 <= j < l@.len() && l@[j] == q as u64;
                            if j >= self.idx - 1 {
                                assert(l@[self.idx - 1] <= l@[j]);
                            }
                            assert(v as int % (l@[j] as int) != 0);
                        }
                        lemma_mod_self_0(v as int);
                    }
                    self.cur = 0;
                    return Some(v);
                }
                proof {
                    lemma_small_mod(1, c as nat);
                }
                return None;
            }
            if self.n % c == 0 {
                let q = self.n / c;
                proof {
                    lemma_fundamental_div_mod(self.n as int, c as int);
                    assert(q >= c) by (nonlinear_arith)
                        requires self.n == c * q, c * c <= self.n, c >= 2;
                    assert forall|d: int| 2 <= d < c implies #[trigger] (self.n as int % d) != 0 by {
                        if self.n as int % d == 0 {
                            let sq = crate::eratosthenes::lemma_smallest_divisor_exists(self.n as int, 2);
                            lemma_smallest_factor_prime(self.n as int, sq);
                            assert(sq <= d);
                            assert(l@.contains(sq as u64));
                            let j = choose|j: int| 0 <= j < l@.len() && l@[j] == sq as u64;
                            if j >= self.idx - 1 {
                                assert(l@[self.idx - 1] <= l@[j]);
                            }
                            assert(self.n as int % (l@[j] as int) != 0);
                        }
                    }
                    assert forall|k: int| 0 <= k < self.idx - 1 implies #[trigger] (q as int % l@[k] as int) != 0 by {
                        if q as int % (l@[k] as int) == 0 {
                            lemma_mod_multiples_basic(c as int, q as int);
                            vstd::arithmetic::mul::lemma_mul_is_commutative(c as int, q as int);
                            lemma_divides_trans(l@[k] as int, q as int, self.n as int);
                        }
                    }
                }
                self.n = q;
                self.idx = self.idx - 1;
                self.cur = c - 1;
                return Some(c);
            }
            proof {
                assert(c <= self.n) by (nonlinear_arith)
                    requires c * c <= self.n, c >= 2;
            }
        }
    }

    fn next_trial(&mut self) -> (r: Option<u64>)
        requires
            old(self).wf(),
            old(self).p_list is None,
        ensures
            final(self).wf(),
            final(self).p_list is None,
            r is None <==> old(self).remaining() <= 1,
            r is None ==> final(self).remaining() == old(self).remaining(),
            r matches Some(p) ==> is_prime(p as int) && old(self).remaining() == p * final(self).remaining()
                && smallest_factor(old(self).remaining(), p as int),
    {
        if self.n <= 1 || self.cur == 0 {
            return None;
        }
        proof {
            lemma_mod_self_0(self.n as int);
        }
        loop
            invariant
                self.n >= 2,
                1 <= self.cur < self.n,
                self.p_list is None,
                self.n == old(self).n,
                old(self).cur != 0,
                no_divisor_upto(self.n as int, self.cur as int),
            decreases self.n - self.cur,
        {
            self.cur = self.cur + 1;
            proof {
                assert(self.cur * self.cur <= 0xffff_ffff_ffff_ffff * 0xffff_ffff_ffff_ffff) by (nonlinear_arith)
                    requires self.cur <= 0xffff_ffff_ffff_ffff;
            }
            if (self.cur as u128) * (self.cur as u128) > self.n as u128 {
                proof {
                    assert forall|d: int| 2 <= d < self.n implies #[trigger] (self.n as int % d) != 0 by {
                        if self.n as int % d == 0 && d >= self.cur {
                            lemma_fundamental_div_mod(self.n as int, d);
                            let e = self.n as int / d;
                            assert(2 <= e < self.cur) by (nonlinear_arith)
                                requires self.n == d * e, d >= self.cur, self.cur * self.cur > self.n, d < self.n, d >= 2;
                            lemma_mod_multiples_basic(d, e);
                            vstd::arithmetic::mul::lemma_mul_is_commutative(d, e);
                            assert(self.n as int % (e - 1 + 1) == 0);
                        }
                    }
                }
                let v = self.n;
                self.cur = 0;
                return Some(v);
            }
            if self.n % self.cur == 0 {
                let p = self.cur;
                proof {
                    assert(smallest_factor(self.n as int, p as int));
                    lemma_smallest_factor_prime(self.n as int, p as int);
                    lemma_fundamental_div_mod(self.n as int, p as int);
                    let q = self.n as int / p as int;
                    assert(q >= p && q <= self.n) by (nonlinear_arith)
                        requires self.n == p * q, p >= 2, self.n >= 2, p * p <= self.n;
                    assert forall|d: int| 2 <= d <= p - 1 implies #[trigger] (q % d) != 0 by {
                        if q % d == 0 {
                            lemma_mod_multiples_basic(p as int, q);
                            vstd::arithmetic::mul::lemma_mul_is_commutative(q, p as int);
                            lemma_divides_trans(d, q, self.n as int);
                        }
                    }
                }
                self.n = self.n / p;
                self.cur = p - 1;
                return Some(p);
            }
            proof {
                lemma_mod_self_0(self.n as int);
            }
        }
    }
}

/// Gives the trial-division factorisation of a value.
pub trait GetPrimeFactorization {
    fn prime_factorization(&self) -> PrimeFactorization<'static>;
}

impl GetPrimeFactorization for u64 {
    fn prime_factorization(&self) -> (r: PrimeFactorization<'static>)
        ensures
            r.wf(),
            r.remaining() == *self,
    {
        PrimeFactorization::calc(*self)
    }
}

impl GetPrimeFactorization for u32 {
    fn prime_factorization(&self) -> (r: PrimeFactorization<'static>)
        ensures
            r.wf(),
            r.remaining() == *self,
    {
        PrimeFactorization::calc(*self as u64)
    }
}

/// The primes up to `u`, in increasing order.
pub fn get_primelist(u: u64) -> (r: Vec<u64>)
    requires
        u < usize::MAX / 2,
    ensures
        forall|i: int| 0 <= i < r@.len() ==> is_prime(#[trigger] r@[i] as int) && r@[i] <= u,
        forall|i: int, j: int| 0 <= i < j < r@.len() ==> r@[i] < r@[j],
        forall|p: int| 0 <= p <= u && is_prime(p) ==> r@.contains(p as u64),
{
    let sieve = EratosthenesSieve::new(u as usize);
    let mut r: Vec<u64> = Vec::new();
    let mut i: u64 = 2;
    while i <= u
        invariant
            sieve.wf(),
            sieve.table().len() == u + 1,
            2 <= i,
            i <= u + 1 || (i == 2 && r@.len() == 0),
            u < usize::MAX / 2,
            forall|k: int| 0 <= k < r@.len() ==> is_prime(#[trigger] r@[k] as int) && r@[k] < i,
            forall|k: int, j: int| 0 <= k < j < r@.len() ==> r@[k] < r@[j],
            forall|p: int| 0 <= p < i && is_prime(p) ==> r@.contains(p as u64),
        decreases u + 1 - i,
    {
        let ghost prev = r@;
        let isp = sieve.is_prime(i as usize);
        if isp {
            r.push(i);
        }
        proof {
            assert(isp ==> r@ == prev.push(i));
            assert(!isp ==> r@ == prev);
            assert forall|p: int| 0 <= p < i + 1 && is_prime(p) implies r@.contains(p as u64) by {
                if p == i {
                    assert(r@[r@.len() - 1] == i);
                } else {
                    assert(prev.contains(p as u64));
                    let k = choose|k: int| 0 <= k < prev.len() && prev[k] == p as u64;
                    assert(r@[k] == p as u64);
                }
            }
        }
        i = i + 1;
    }
    r
}

/// The smallest divisor of `n` that is at least 2 (its smallest prime factor).
pub open spec fn spf(n: int) -> int {
    choose|f: int| smallest_factor(n, f)
}

/// The Moebius function: 0 when a square divides `n`, else `(-1)^k` for `k`
/// prime factors. With `p` the smallest prime factor, `mu(n)` is 0 when `p`
/// divides `n / p`, and `-mu(n / p)` otherwise.
pub open spec fn mobius(n: int) -> int
    decreases n,
{
    if n <= 0 {
        0
    } else if n == 1 {
        1
    } else {
        let p = spf(n);
        if 2 <= p <= n && (n / p) < n {
            if (n / p) % p == 0 {
                0
            } else {
                -mobius(n / p)
            }
        } else {
            0
        }
    }
}

/// The smallest divisor is unique.
proof fn lemma_smallest_factor_unique(n: int, f: int)
    requires
        smallest_factor(n, f),
    ensures
        spf(n) == f,
{
    let g = spf(n);
    assert(smallest_factor(n, g));
    if g < f {
        assert(n % g != 0);
    }
    if f < g {
        assert(n % f != 0);
    }
}

/// The Moebius function on `0..=n` (at least on 0 and 1).
pub fn get_mobius(n: u64) -> (r: Vec<isize>)
    requires
        n < usize::MAX / 2,
    ensures
        r@.len() == if n < 1 { 2 } else { n + 1 },
        forall|i: int| 0 <= i < r@.len() ==> #[trigger] r@[i] == mobius(i),
{
    let mut r: Vec<isize> = Vec::new();
    r.push(0);
    r.push(1);
    let sieve = EratosthenesSieve::new(n as usize);
    let mut i: u64 = 2;
    while i <= n
        invariant
            2 <= i,
            i <= n + 1 || (i == 2 && n < 2),
            n < usize::MAX / 2,
            sieve.wf(),
            sieve.table().len() == n + 1,
            r@.len() == i,
            forall|k: int| 0 <= k < i ==> #[trigger] r@[k] == mobius(k) && -1 <= mobius(k) <= 1,
        decreases n + 1 - i,
    {
        let p = sieve.get_factor(i as usize) as u64;
        let q = i / p;
        proof {
            assert(smallest_factor(i as int, p as int));
            lemma_smallest_factor_unique(i as int, p as int);
            lemma_fundamental_div_mod(i as int, p as int);
            assert(q < i && q >= 1) by (nonlinear_arith)
                requires i == p * q, p >= 2, i >= 2;
        }
        let v: isize = if q % p == 0 { 0 } else { -r[q as usize] };
        proof {
            assert(spf(i as int) == p as int);
            assert(mobius(i as int) == if (q as int) % (p as int) == 0 { 0 } else { -mobius(q as int) });
            assert(v == mobius(i as int));
        }
        let ghost rb = r@;
        r.push(v);
        proof {
            assert forall|k: int| 0 <= k < i + 1 implies #[trigger] r@[k] == mobius(k) && -1 <= mobius(k) <= 1 by {
                if k < i {
                    assert(r@[k] == rb[k]);
                }
            }
        }
        i = i + 1;
    }
    r
}

/// The divisors of `n` handed out from candidate `c` on: each `d >= c` with
/// `d * d <= n` dividing `n`, followed by `n / d` unless that is `d` again.
pub open spec fn divisors_from(n: int, c: int) -> Seq<u64>
    decreases n + 1 - c,
{
    if c <= 0 || c > n || c * c > n {
        Seq::empty()
    } else if n % c == 0 {
        if c * c == n {
            seq![c as u64]
        } else {
            seq![c as u64, (n / c) as u64] + divisors_from(n, c + 1)
        }
    } else {
        divisors_from(n, c + 1)
    }
}

/// The divisors of a number, in pairs `d, n / d` for increasing `d`.
pub struct Divisor {
    n: u64,
    cur: u64,
    flag: bool,
}

impl Divisor {
    /// The divisors still to come.
    pub closed spec fn remaining(&self) -> Seq<u64> {
        let (n, c) = (self.n as int, self.cur as int);
        if c * c > n {
            Seq::empty()
        } else if self.flag {
            if c * c == n {
                Seq::empty()
            } else {
                seq![(n / c) as u64] + divisors_from(n, c + 1)
            }
        } else {
            divisors_from(n, c)
        }
    }

    pub closed spec fn wf(&self) -> bool {
        &&& self.cur >= 1
        &&& self.cur <= 0x1_0000_0000
        &&& self.flag ==> self.cur * self.cur <= self.n && self.n % self.cur == 0
    }

    /// Starts listing the divisors of `n`.
    pub fn calc(n: u64) -> (r: Divisor)
        ensures
            r.wf(),
            r.remaining() == divisors_from(n as int, 1),
    {
        Divisor { n, cur: 1, flag: false }
    }

    /// The next divisor, or `None` when all were handed out.
    pub fn next(&mut self) -> (r: Option<u64>)
        requires
            old(self).wf(),
        ensures
            final(self).wf(),
            r is None ==> old(self).remaining().len() == 0,
            r matches Some(d) ==> old(self).remaining() == seq![d] + final(self).remaining(),
    {
        let n = self.n as u128;
        let c = self.cur as u128;
        proof {
            assert(c * c <= 0x1_0000_0000 * 0x1_0000_0000) by (nonlinear_arith)
                requires c <= 0x1_0000_0000;
        }
        if c * c > n {
            return None;
        }
        if self.flag {
            if c * c == n {
                return None;
            }
            let d = self.n / self.cur;
            self.flag = false;
            self.cur = self.cur + 1;
            proof {
                assert(self.cur * self.cur > self.n ==> divisors_from(self.n as int, self.cur as int) =~= Seq::<u64>::empty());
                assert(self.cur <= 0x1_0000_0000) by (nonlinear_arith)
                    requires self.cur - 1 <= 0x1_0000_0000, (self.cur - 1) * (self.cur - 1) < self.n, self.n <= 0xffff_ffff_ffff_ffff;
            }
            return Some(d);
        }
        loop
            invariant
                self.n == old(self).n,
                !self.flag,
                1 <= self.cur,
                self.cur as int * self.cur as int <= self.n,
                divisors_from(self.n as int, self.cur as int) == old(self).remaining(),
            decreases self.n - self.cur,
        {
            proof {
                assert(self.cur <= self.n) by (nonlinear_arith)
                    requires self.cur * self.cur <= self.n, self.cur >= 1;
                assert(self.cur < 0x1_0000_0000) by (nonlinear_arith)
                    requires self.cur * self.cur <= self.n, self.n <= 0xffff_ffff_ffff_ffff;
            }
            if self.n % self.cur == 0 {
                self.flag = true;
                return Some(self.cur);
            }
            let ghost prev = self.cur as int;
            self.cur = self.cur + 1;
            let c2 = self.cur as u128;
            proof {
                assert(prev <= self.n);
                assert(divisors_from(self.n as int, prev) == divisors_from(self.n as int, prev + 1));
                assert(c2 * c2 <= 0x1_0000_0000 * 0x1_0000_0000) by (nonlinear_arith)
                    requires c2 <= 0x1_0000_0000;
            }
            if c2 * c2 > self.n as u128 {
                proof {
                    assert(divisors_from(self.n as int, self.cur as int) =~= Seq::<u64>::empty());
                }
                return None;
            }
            proof {
                assert(self.cur <= self.n) by (nonlinear_arith)
                    requires self.cur * self.cur <= self.n, self.cur >= 1;
            }
        }
    }
}

/// Lists the divisors of a value.
pub trait GetDivisor {
    fn get_divisor(&self) -> Divisor;
}

impl GetDivisor for u64 {
    fn get_divisor(&self) -> (r: Divisor)
        ensures
            r.wf(),
            r.remaining() == divisors_from(*self as int, 1),
    {
        Divisor::calc(*self)
    }
}

impl GetDivisor for u32 {
    fn get_divisor(&self) -> (r: Divisor)
        ensures
            r.wf(),
            r.remaining() == divisors_from(*self as int, 1),
    {
        Divisor::calc(*self as u64)
    }
}

} // verus!
