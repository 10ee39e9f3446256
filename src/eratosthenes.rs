use vstd::prelude::*;
use vstd::arithmetic::div_mod::*;
use crate::primality::is_prime;

verus! {

/// `f` is the smallest divisor of `j` that is at least 2.
pub open spec fn smallest_factor(j: int, f: int) -> bool {
    2 <= f <= j && j % f == 0 && forall|d: int| 2 <= d < f ==> #[trigger] (j % d) != 0
}

/// The loop invariant of the sieve after the primes below `i` were crossed out:
/// the entry `f` of `j` divides `j`, nothing below `min(i, f)` divides `j`,
/// and an entry other than `j` itself came from a prime below `i`.
pub open spec fn sieved_below(j: int, f: int, i: int) -> bool {
    &&& 2 <= f <= j
    &&& j % f == 0
    &&& forall|d: int| 2 <= d < i && d < f ==> #[trigger] (j % d) != 0
    &&& f < j ==> f < i
}

/// While the multiples of prime `i` below `j` are crossed out: the bound of
/// `sieved_below` for `t` is `i + 1` once `t` was crossed, else `i`.
pub open spec fn crossed_bound(t: int, i: int, j: int) -> int {
    if t % i == 0 && t < j && t >= 2 * i {
        i + 1
    } else {
        i
    }
}

/// Divisibility is transitive.
pub proof fn lemma_divides_trans(a: int, b: int, c: int)
    requires
        a > 0,
        b > 0,
        b % a == 0,
        c % b == 0,
    ensures
        c % a == 0,
{
    lemma_fundamental_div_mod(b, a);
    lemma_fundamental_div_mod(c, b);
    let (p, q) = (b / a, c / b);
    assert(c == (p * q) * a) by (nonlinear_arith)
        requires b == a * p, c == b * q;
    lemma_mod_multiples_basic(p * q, a);
}

/// The smallest divisor of `j` that is at least 2 is prime.
pub proof fn lemma_smallest_factor_prime(j: int, f: int)
    requires
        smallest_factor(j, f),
    ensures
        is_prime(f),
{
    assert forall|d: int| 2 <= d < f implies #[trigger] (f % d) != 0 by {
        if f % d == 0 {
            lemma_divides_trans(d, f, j);
            assert(j % d != 0);
        }
    }
}

/// A sieve over `[0, n]` that records for each number its smallest prime factor.
pub struct EratosthenesSieve {
    sieve: Vec<usize>,
}

impl EratosthenesSieve {
    /// The table: entry `j` is 0 for 0, 1 for 1, and the smallest prime
    /// factor of `j` otherwise.
    pub closed spec fn table(&self) -> Seq<usize> {
        self.sieve@
    }

    pub open spec fn wf(&self) -> bool {
        &&& self.table().len() >= 1
        &&& self.table()[0] == 0
        &&& self.table().len() >= 2 ==> self.table()[1] == 1
        &&& forall|j: int| 2 <= j < self.table().len() ==> smallest_factor(j, #[trigger] self.table()[j] as int)
    }

    /// Builds the sieve over `[0, n]`.
    pub fn new(n: usize) -> (r: EratosthenesSieve)
        requires
            n < usize::MAX / 2,
        ensures
            r.wf(),
            r.table().len() == n + 1,
    {
        let mut sieve: Vec<usize> = Vec::new();
        let mut k: usize = 0;
        while k <= n
            invariant
                k <= n + 1,
                n < usize::MAX / 2,
                sieve@.len() == k,
                forall|j: int| 0 <= j < k ==> #[trigger] sieve@[j] == j,
            decreases n + 1 - k,
        {
            sieve.push(k);
            k = k + 1;
        }
        let mut i: usize = 2;
        proof {
            assert forall|j: int| 2 <= j < sieve@.len() implies sieved_below(j, #[trigger] sieve@[j] as int, 2) by {
                lemma_mod_self_0(j);
            }
        }
        while i <= n / i
            invariant
                2 <= i,
                n < usize::MAX / 2,
                sieve@.len() == n + 1,
                sieve@[0] == 0,
                n >= 1 ==> sieve@[1] == 1,
                forall|j: int| 2 <= j < sieve@.len() ==> sieved_below(j, #[trigger] sieve@[j] as int, i as int),
            decreases n + 1 - i,
        {
            proof {
                lemma_fundamental_div_mod(n as int, i as int);
                assert(i * i <= n) by (nonlinear_arith)
                    requires i <= n as int / i as int, n == i * (n as int / i as int) + n as int % i as int, n as int % i as int >= 0, i >= 2;
            }
            if sieve[i] == i {
                let mut j: usize = i + i;
                proof {
                    lemma_mod_multiples_basic(2, i as int);
                }
                while j <= n
                    invariant
                        2 <= i,
                        i * i <= n,
                        n < usize::MAX / 2,
                        sieve@.len() == n + 1,
                        sieve@[0] == 0,
                        n >= 1 ==> sieve@[1] == 1,
                        sieve@[i as int] == i,
                        j % i == 0,
                        2 * i <= j <= n + i,
                        forall|t: int| 2 <= t < sieve@.len() ==> sieved_below(t, #[trigger] sieve@[t] as int,
                            crossed_bound(t, i as int, j as int)),
                    decreases n + i - j,
                {
                    let ghost before = sieve@;
                    if sieve[j] == j {
                        sieve.set(j, i);
                    }
                    proof {
                        assert forall|t: int| 2 <= t < sieve@.len() implies sieved_below(t, #[trigger] sieve@[t] as int,
                            crossed_bound(t, i as int, j + i)) by {
                            assert(sieved_below(t, before[t] as int, crossed_bound(t, i as int, j as int)));
                            if t == j {
                                assert(sieved_below(t, before[t] as int, i as int));
                            } else if t % (i as int) == 0 && t < j + i && t >= 2 * i {
                                assert(t < j) by {
                                    lemma_fundamental_div_mod(t, i as int);
                                    lemma_fundamental_div_mod(j as int, i as int);
                                    let (qt, qj) = (t / (i as int), j as int / (i as int));
                                    assert(t < j) by (nonlinear_arith)
                                        requires t == i * qt, j == i * qj, t < j + i, t != j, i > 0;
                                }
                            }
                        }
                        lemma_mod_multiples_vanish(1, j as int, i as int);
                    }
                    j = j + i;
                }
                proof {
                    assert forall|t: int| 2 <= t < sieve@.len() implies sieved_below(t, #[trigger] sieve@[t] as int, i + 1) by {
                        assert(sieved_below(t, sieve@[t] as int, crossed_bound(t, i as int, j as int)));
                        if t % (i as int) == 0 && t >= 2 * i {
                        } else if t == i {
                            assert(sieved_below(t, sieve@[t] as int, i as int));
                        } else {
                            assert(sieved_below(t, sieve@[t] as int, i as int));
                            if t % (i as int) == 0 {
                                lemma_fundamental_div_mod(t, i as int);
                                let q = t / (i as int);
                                assert(false) by (nonlinear_arith)
                                    requires t == i * q, t < 2 * i, t != i, t >= 2, i >= 2;
                            }
                        }
                    }
                }
            } else {
                proof {
                    let fi = sieve@[i as int] as int;
                    assert(sieved_below(i as int, fi, i as int));
                    assert forall|t: int| 2 <= t < sieve@.len() implies sieved_below(t, #[trigger] sieve@[t] as int, i + 1) by {
                        assert(sieved_below(t, sieve@[t] as int, i as int));
                        if (i as int) < sieve@[t] as int && t % (i as int) == 0 {
                            lemma_divides_trans(fi, i as int, t);
                        }
                    }
                }
            }
            i = i + 1;
        }
        proof {
            lemma_fundamental_div_mod(n as int, i as int);
            assert(n < i * i) by (nonlinear_arith)
                requires i > n as int / i as int, n == i * (n as int / i as int) + n as int % i as int, (n as int % i as int) < i, i >= 2;
            assert forall|j: int| 2 <= j < sieve@.len() implies smallest_factor(j, #[trigger] sieve@[j] as int) by {
                let f = sieve@[j] as int;
                assert(sieved_below(j, f, i as int));
                assert forall|d: int| 2 <= d < f implies #[trigger] (j % d) != 0 by {
                    if j % d == 0 && d >= i {
                        lemma_fundamental_div_mod(j, d);
                        let e = j / d;
                        assert(2 <= e < i && e < f) by (nonlinear_arith)
                            requires j == d * e, d >= i, d < f, f <= j, j <= n, n < i * i, d >= 2, i >= 2;
                        lemma_mod_multiples_basic(d, e);
                        assert(j % e == 0) by {
                            assert(j == d * e);
                            vstd::arithmetic::mul::lemma_mul_is_commutative(d, e);
                        }
                    }
                }
            }
        }
        EratosthenesSieve { sieve }
    }

    /// The smallest prime factor of `n` (0 for 0, 1 for 1).
    pub fn get_factor(&self, n: usize) -> (r: usize)
        requires
            n < self.table().len(),
        ensures
            r == self.table()[n as int],
    {
        self.sieve[n]
    }

    /// Whether `n` is prime; `n` must lie in the sieved range.
    pub fn is_prime(&self, n: usize) -> (r: bool)
        requires
            self.wf(),
            n < self.table().len(),
        ensures
            r == is_prime(n as int),
    {
        proof {
            if n >= 2 {
                let f = self.sieve@[n as int] as int;
                assert(smallest_factor(n as int, f));
                if f != n {
                    assert((n as int) % f == 0);
                }
            }
        }
        n > 1 && self.sieve[n] == n
    }

    /// The prime factors of `n`, handed out smallest first.
    pub fn prime_factorization(&self, n: usize) -> (r: PrimeFactorizationResult<'_>)
        requires
            self.wf(),
            n < self.table().len(),
        ensures
            r.remaining() == n,
            r.wf(),
    {
        PrimeFactorizationResult { n, sieve: self }
    }
}

/// The prime factors of a number, from a sieve.
pub struct PrimeFactorizationResult<'a> {
    n: usize,
    sieve: &'a EratosthenesSieve,
}

impl<'a> PrimeFactorizationResult<'a> {
    /// What is left to factor.
    pub closed spec fn remaining(&self) -> usize {
        self.n
    }

    pub closed spec fn wf(&self) -> bool {
        self.sieve.wf() && self.n < self.sieve.table().len()
    }

    /// The next prime factor, the smallest one of what is left, or `None` once
    /// what is left is 0 or 1.
    pub fn next(&mut self) -> (r: Option<usize>)
        requires
            old(self).wf(),
        ensures
            final(self).wf(),
            r is None <==> old(self).remaining() <= 1,
            r is None ==> final(self).remaining() == old(self).remaining(),
            r matches Some(p) ==> is_prime(p as int) && old(self).remaining() == p * final(self).remaining()
                && smallest_factor(old(self).remaining() as int, p as int),
    {
        if self.n <= 1 {
            return None;
        }
        let ret = self.sieve.get_factor(self.n);
        proof {
            assert(smallest_factor(self.n as int, ret as int));
            lemma_smallest_factor_prime(self.n as int, ret as int);
            lemma_fundamental_div_mod(self.n as int, ret as int);
        }
        self.n = self.n / ret;
        Some(ret)
    }
}

/// Some divisor of `n >= 2` is its smallest one.
pub proof fn lemma_smallest_divisor_exists(n: int, d: int) -> (f: int)
    requires
        n >= 2,
        2 <= d <= n,
        forall|e: int| 2 <= e < d ==> #[trigger] (n % e) != 0,
    ensures
        smallest_factor(n, f),
    decreases n - d,
{
    if n % d == 0 {
        d
    } else {
        if d == n {
            lemma_mod_self_0(n);
        }
        lemma_smallest_divisor_exists(n, d + 1)
    }
}

/// `l` lists, in increasing order, exactly the primes below `lim` that divide `j`.
pub open spec fn primes_below_dividing(l: Seq<u64>, j: int, lim: int) -> bool {
    &&& forall|k: int| 0 <= k < l.len() ==> is_prime(#[trigger] l[k] as int) && l[k] < lim && j % (l[k] as int) == 0
    &&& forall|a: int, b: int| 0 <= a < b < l.len() ==> l[a] < l[b]
    &&& forall|q: int| 2 <= q < lim && is_prime(q) && #[trigger] (j % q) == 0 ==> l.contains(q as u64)
}

/// The bound reached for window entry `j` while the multiples of prime `i`
/// below `cur` are being recorded.
pub open spec fn window_bound(j: int, i: int, cur: int) -> int {
    if j % i == 0 && j < cur {
        i + 1
    } else {
        i
    }
}

/// A copy of a list.
fn copy_list(r: &Vec<u64>) -> (c: Vec<u64>)
    ensures
        c@ == r@,
{
    let mut c: Vec<u64> = Vec::new();
    let mut j: usize = 0;
    while j < r.len()
        invariant
            j <= r@.len(),
            c@ == r@.subrange(0, j as int),
        decreases r@.len() - j,
    {
        c.push(r[j]);
        j = j + 1;
        assert(c@ =~= r@.subrange(0, j as int));
    }
    assert(c@ =~= r@);
    c
}

/// A sieve over the window `[f, t]`: the small primes up to `sqrt(t)`, and
/// for each number of the window the small primes that divide it.
pub struct EratosthenesSieveRange {
    sieve_small: EratosthenesSieve,
    sieve_big: Vec<Vec<u64>>,
    offset: u64,
    last: u64,
}

impl EratosthenesSieveRange {
    /// The first number of the window.
    pub closed spec fn from(&self) -> int {
        self.offset as int
    }

    /// The last number of the window.
    pub closed spec fn to(&self) -> int {
        self.last as int
    }

    /// `floor(sqrt(t))`: the small primes go up to it.
    pub closed spec fn root(&self) -> int {
        self.sieve_small.table().len() - 1
    }

    pub closed spec fn wf(&self) -> bool {
        &&& self.sieve_small.wf()
        &&& 0 <= self.root() < 0x4000_0000
        &&& self.root() * self.root() <= self.last
        &&& self.last < (self.root() + 1) * (self.root() + 1)
        &&& self.offset <= self.last < 0x1000_0000_0000_0000
        &&& self.last - self.offset < usize::MAX / 2
        &&& self.sieve_big@.len() == self.last - self.offset + 1
        &&& forall|j: int| self.offset <= j <= self.last ==> primes_below_dividing(
            #[trigger] self.sieve_big@[j - self.offset]@,
            j,
            self.root() + 1,
        )
    }

    /// Builds the sieve over the window `[f, t]`.
    pub fn new(f: u64, t: u64) -> (r: EratosthenesSieveRange)
        requires
            f <= t < 0x1000_0000_0000_0000,
            t - f < usize::MAX / 2,
        ensures
            r.wf(),
            r.from() == f,
            r.to() == t,
    {
        let mut root: u64 = 0;
        while (root + 1) * (root + 1) <= t
            invariant
                root * root <= t,
                t < 0x1000_0000_0000_0000,
                root < 0x4000_0000,
                (root + 1) * (root + 1) <= 0x4000_0000 * 0x4000_0000,
            decreases t - root * root,
        {
            proof {
                assert(root + 1 < 0x4000_0000) by (nonlinear_arith)
                    requires (root + 1) * (root + 1) <= t, t < 0x1000_0000_0000_0000;
                assert((root + 1) * (root + 1) > root * root) by (nonlinear_arith)
                    requires root >= 0;
                assert((root + 2) * (root + 2) <= 0x4000_0000 * 0x4000_0000) by (nonlinear_arith)
                    requires root + 1 < 0x4000_0000;
            }
            root = root + 1;
        }
        proof {
            assert((root + 1) * (root + 1) <= 0x4000_0000 * 0x4000_0000) by (nonlinear_arith)
                requires root < 0x4000_0000;
        }
        let small = EratosthenesSieve::new(root as usize);
        let mut big: Vec<Vec<u64>> = Vec::new();
        let mut k: u64 = f;
        while k <= t
            invariant
                f <= k <= t + 1,
                t < 0x1000_0000_0000_0000,
                big@.len() == k - f,
                forall|j: int| 0 <= j < big@.len() ==> #[trigger] big@[j]@.len() == 0,
            decreases t + 1 - k,
        {
            big.push(Vec::new());
            k = k + 1;
        }
        proof {
            assert forall|j: int| f <= j <= t implies primes_below_dividing(#[trigger] big@[j - f]@, j, 2) by {
                assert(big@[j - f]@.len() == 0);
            }
        }
        let mut i: u64 = 2;
        while i <= root
            invariant
                small.wf(),
                small.table().len() == root + 1,
                root < 0x4000_0000,
                root * root <= t,
                f <= t < 0x1000_0000_0000_0000,
                2 <= i <= root + 1 || (i == 2 && root < 2),
                t - f < usize::MAX / 2,
                big@.len() == t - f + 1,
                forall|j: int| f <= j <= t ==> primes_below_dividing(#[trigger] big@[j - f]@, j, i as int),
            decreases root + 1 - i,
        {
            let is_p = small.is_prime(i as usize);
            if is_p {
                proof {
                    let a = (f + i - 1) as int;
                    lemma_fundamental_div_mod(a, i as int);
                    assert((a / (i as int)) * (i as int) <= a) by (nonlinear_arith)
                        requires a == (i as int) * (a / (i as int)) + a % (i as int), a % (i as int) >= 0;
                }
                let first = ((f + i - 1) / i) * i;
                proof {
                    lemma_fundamental_div_mod((f + i - 1) as int, i as int);
                    let q = (f + i - 1) as int / i as int;
                    assert(first == q * i);
                    assert(f <= first < f + i) by (nonlinear_arith)
                        requires first == q * i, f + i - 1 == i * q + (f + i - 1) as int % i as int,
                            0 <= ((f + i - 1) as int % i as int) < i;
                    lemma_mod_multiples_basic(q, i as int);
                    assert forall|jj: int| f <= jj <= t implies primes_below_dividing(#[trigger] big@[jj - f]@, jj,
                        window_bound(jj, i as int, first as int)) by {
                        assert(primes_below_dividing(big@[jj - f]@, jj, i as int));
                        if jj % (i as int) == 0 && jj < first {
                            lemma_fundamental_div_mod(jj, i as int);
                            let (a, b) = (jj / (i as int), q);
                            assert(false) by (nonlinear_arith)
                                requires jj == i * a, first == b * i, f <= jj < first, first < f + i, i > 0;
                        }
                    }
                }
                let mut j: u64 = first;
                while j <= t
                    invariant
                        small.wf(),
                        small.table().len() == root + 1,
                        is_prime(i as int),
                        2 <= i <= root,
                        root < 0x4000_0000,
                        t - f < usize::MAX / 2,
                        root * root <= t,
                        f <= t < 0x1000_0000_0000_0000,
                        f <= first < f + i,
                        first % i == 0,
                        first <= j <= t + i,
                        j % i == 0,
                        big@.len() == t - f + 1,
                        forall|jj: int| f <= jj <= t ==> primes_below_dividing(#[trigger] big@[jj - f]@, jj,
                            window_bound(jj, i as int, j as int)),
                    decreases t + i - j,
                {
                    let idx = (j - f) as usize;
                    let mut row = copy_list(&big[idx]);
                    let ghost old_row = row@;
                    let ghost bb = big@;
                    proof {
                        assert(old_row == bb[j - f]@);
                        assert(primes_below_dividing(bb[j - f]@, j as int, window_bound(j as int, i as int, j as int)));
                    }
                    row.push(i);
                    let ghost new_row = row@;
                    big.set(idx, row);
                    proof {
                        assert(big@[j - f]@ == new_row);
                        assert(primes_below_dividing(old_row, j as int, i as int));
                        assert forall|jj: int| f <= jj <= t implies primes_below_dividing(#[trigger] big@[jj - f]@, jj,
                            window_bound(jj, i as int, j + i)) by {
                            if jj == j {
                                let l = big@[jj - f]@;
                                assert(l == old_row.push(i));
                                assert forall|a: int, b: int| 0 <= a < b < l.len() implies l[a] < l[b] by {
                                    if b == l.len() - 1 {
                                        assert(old_row[a] < i);
                                    }
                                }
                                assert forall|q: int| 2 <= q < i + 1 && is_prime(q) && #[trigger] (jj % q) == 0 implies l.contains(q as u64) by {
                                    if q < i {
                                        let kk = choose|kk: int| 0 <= kk < old_row.len() && old_row[kk] == q as u64;
                                        assert(l[kk] == q as u64);
                                    } else {
                                        assert(l[l.len() - 1] == i);
                                    }
                                }
                            } else {
                                assert(big@[jj - f] == bb[jj - f]);
                                if jj % (i as int) == 0 && jj < j + i && jj >= j {
                                    lemma_fundamental_div_mod(jj, i as int);
                                    lemma_fundamental_div_mod(j as int, i as int);
                                    let (a, b) = (jj / (i as int), j as int / (i as int));
                                    assert(false) by (nonlinear_arith)
                                        requires jj == i * a, j == i * b, j <= jj < j + i, jj != j, i > 0;
                                }
                            }
                        }
                        lemma_mod_multiples_vanish(1, j as int, i as int);
                    }
                    j = j + i;
                }
                proof {
                    assert forall|jj: int| f <= jj <= t implies primes_below_dividing(#[trigger] big@[jj - f]@, jj, i + 1) by {
                        assert(primes_below_dividing(big@[jj - f]@, jj, window_bound(jj, i as int, j as int)));
                    }
                }
            } else {
                proof {
                    assert forall|jj: int| f <= jj <= t implies primes_below_dividing(#[trigger] big@[jj - f]@, jj, i + 1) by {
                        assert(primes_below_dividing(big@[jj - f]@, jj, i as int));
                    }
                }
            }
            i = i + 1;
        }
        proof {
            assert forall|jj: int| f <= jj <= t implies primes_below_dividing(#[trigger] big@[jj - f]@, jj, root + 1) by {
                assert(primes_below_dividing(big@[jj - f]@, jj, i as int));
            }
        }
        EratosthenesSieveRange { sieve_small: small, sieve_big: big, offset: f, last: t }
    }

    /// Whether `n` is prime, for `n` up to `sqrt(t)` or in the window.
    pub fn is_prime(&self, n: u64) -> (r: bool)
        requires
            self.wf(),
            n <= self.root() || self.from() <= n <= self.to(),
        ensures
            r == is_prime(n as int),
    {
        if n < 2 {
            return false;
        }
        if n >= self.sieve_small.sieve.len() as u64 {
            proof {
                assert(n - self.offset < self.sieve_big@.len());
            }
            let idx = (n - self.offset) as usize;
            let l = &self.sieve_big[idx];
            proof {
                let lim = self.root() + 1;
                assert(idx == n - self.offset);
                assert(l@ == self.sieve_big@[n - self.offset]@);
                assert(primes_below_dividing(l@, n as int, lim));
                if n >= 2 {
                    if l@.len() > 0 {
                        assert(is_prime(l@[0] as int) && n as int % (l@[0] as int) == 0);
                        assert(l@[0] < n);
                    } else if !is_prime(n as int) {
                        let d = choose|d: int| 2 <= d < n && #[trigger] (n as int % d) == 0;
                        let fct = lemma_smallest_divisor_exists(n as int, 2);
                        lemma_smallest_factor_prime(n as int, fct);
                        lemma_fundamental_div_mod(n as int, fct);
                        let e = n as int / fct;
                        assert(fct < n) by {
                            assert(fct <= d);
                        }
                        assert(e >= fct) by {
                            if e < fct {
                                assert(e >= 2) by (nonlinear_arith)
                                    requires n == fct * e, fct < n, fct >= 2;
                                lemma_mod_multiples_basic(fct, e);
                                vstd::arithmetic::mul::lemma_mul_is_commutative(fct, e);
                                assert(n as int % e == 0);
                            }
                        }
                        assert(fct < lim) by (nonlinear_arith)
                            requires n == fct * e, e >= fct, fct >= 2, n <= self.last, self.last < lim * lim, lim >= 1;
                        assert(l@.contains(fct as u64));
                    }
                }
            }
            l.len() == 0
        } else {
            proof {
                if n >= 2 {
                    let fct = self.sieve_small.table()[n as int] as int;
                    assert(smallest_factor(n as int, fct));
                    if fct != n {
                        assert((n as int) % fct == 0);
                    }
                }
            }
            self.sieve_small.sieve[n as usize] as u64 == n
        }
    }
}

/// A strictly increasing list of values below `lim` has at most `lim` entries.
proof fn lemma_increasing_len(l: Seq<u64>, lim: int)
    requires
        lim >= 0,
        forall|a: int, b: int| 0 <= a < b < l.len() ==> l[a] < l[b],
        forall|k: int| 0 <= k < l.len() ==> #[trigger] l[k] < lim,
    ensures
        l.len() <= lim,
    decreases l.len(),
{
    if l.len() > 0 {
        let d = l.drop_last();
        assert(l[0] < lim);
        assert forall|k: int| 0 <= k < d.len() implies #[trigger] d[k] < lim - 1 by {
            assert(l[k] < l[l.len() - 1]);
        }
        lemma_increasing_len(d, lim - 1);
    }
}

impl EratosthenesSieveRange {
    /// The prime factors of `n`, which lies up to `sqrt(t)` or in the window.
    pub fn prime_factorization(&self, n: u64) -> (r: PrimeFactorizationRangeResult<'_>)
        requires
            self.wf(),
            n <= self.root() || self.from() <= n <= self.to(),
        ensures
            r.wf(),
            r.remaining() == n,
    {
        proof {
            if n <= self.root() {
                assert(self.root() <= self.root() * self.root() || self.root() == 0) by (nonlinear_arith)
                    requires self.root() >= 0;
            }
        }
        PrimeFactorizationRangeResult { n, buf: Vec::new(), sieve: self, fetched: Ghost(false) }
    }
}

/// The prime factors of a number, from a window sieve.
pub struct PrimeFactorizationRangeResult<'a> {
    n: u64,
    buf: Vec<u64>,
    sieve: &'a EratosthenesSieveRange,
    fetched: Ghost<bool>,
}

impl<'a> PrimeFactorizationRangeResult<'a> {
    /// What is left to factor.
    pub closed spec fn remaining(&self) -> u64 {
        self.n
    }

    pub closed spec fn wf(&self) -> bool {
        let lim = self.sieve.root() + 1;
        &&& self.sieve.wf()
        &&& self.n <= self.sieve.to()
        &&& forall|k: int| 0 <= k < self.buf@.len() ==> is_prime(#[trigger] self.buf@[k] as int) && self.buf@[k] < lim
        &&& forall|a: int, b: int| 0 <= a < b < self.buf@.len() ==> self.buf@[a] < self.buf@[b]
        &&& self.fetched@ ==> forall|q: int|
            2 <= q < lim && is_prime(q) && #[trigger] (self.n as int % q) == 0 ==> self.buf@.contains(q as u64)
        &&& !self.fetched@ ==> self.buf@.len() == 0 && (self.n <= 1 || self.n <= self.sieve.root()
            || self.sieve.from() <= self.n)
    }

    /// The next prime factor, or `None` once what is left is 0 or 1.
    pub fn next(&mut self) -> (r: Option<u64>)
        requires
            old(self).wf(),
        ensures
            final(self).wf(),
            r is None <==> old(self).remaining() <= 1,
            r is None ==> final(self).remaining() == old(self).remaining(),
            r matches Some(p) ==> is_prime(p as int) && old(self).remaining() == p * final(self).remaining(),
    {
        let ghost n0 = self.n;
        loop
            invariant
                self.wf(),
                self.n == n0,
                n0 == old(self).n,
                self.sieve == old(self).sieve,
            decreases (if self.fetched@ { 0 } else { self.sieve.root() + 2 }) + self.buf@.len(),
        {
            if self.n <= 1 {
                return None;
            }
            let ghost lim = self.sieve.root() + 1;
            if self.buf.len() > 0 {
                let ghost before = self.buf@;
                let p = self.buf.pop().unwrap();
                proof {
                    assert(before == self.buf@.push(p));
                    assert(p == before[before.len() - 1]);
                    assert(is_prime(p as int));
                }
                if self.n % p == 0 {
                    let q = self.n / p;
                    proof {
                        lemma_fundamental_div_mod(self.n as int, p as int);
                        assert(q > 0) by (nonlinear_arith)
                            requires self.n == p * q, self.n >= 2;
                        assert forall|qq: int| 2 <= qq < lim && is_prime(qq) && #[trigger] (q as int % qq) == 0
                            && qq != p implies self.buf@.contains(qq as u64) by {
                            if self.fetched@ {
                                lemma_mod_multiples_basic(p as int, q as int);
                                vstd::arithmetic::mul::lemma_mul_is_commutative(p as int, q as int);
                                lemma_divides_trans(qq, q as int, self.n as int);
                                assert(before.contains(qq as u64));
                                let k = choose|k: int| 0 <= k < before.len() && before[k] == qq as u64;
                                assert(before[before.len() - 1] == p);
                                assert((qq as u64) != p);
                                assert(k != before.len() - 1);
                                assert(self.buf@[k] == qq as u64);
                            }
                        }
                    }
                    self.n = q;
                    if self.n % p == 0 {
                        self.buf.push(p);
                        proof {
                            assert(self.buf@ == before);
                        }
                    }
                    return Some(p);
                }
                proof {
                    assert forall|qq: int| 2 <= qq < lim && is_prime(qq) && #[trigger] (self.n as int % qq) == 0 implies self.buf@.contains(qq as u64) by {
                        if self.fetched@ {
                            assert(before.contains(qq as u64));
                            let k = choose|k: int| 0 <= k < before.len() && before[k] == qq as u64;
                            if k < before.len() - 1 {
                                assert(self.buf@[k] == qq as u64);
                            }
                        }
                    }
                }
            } else if self.n < self.sieve.sieve_small.sieve.len() as u64 {
                let ret = self.sieve.sieve_small.sieve[self.n as usize] as u64;
                proof {
                    assert(smallest_factor(self.n as int, ret as int));
                    lemma_smallest_factor_prime(self.n as int, ret as int);
                    lemma_fundamental_div_mod(self.n as int, ret as int);
                }
                self.n = self.n / ret;
                self.fetched = Ghost(false);
                return Some(ret);
            } else if self.n >= self.sieve.offset {
                proof {
                    assert(self.n - self.sieve.offset < self.sieve.sieve_big@.len());
                }
                let idx = (self.n - self.sieve.offset) as usize;
                let l = copy_list(&self.sieve.sieve_big[idx]);
                proof {
                    assert(l@ == self.sieve.sieve_big@[self.n - self.sieve.offset]@);
                    assert(primes_below_dividing(l@, self.n as int, lim));
                    lemma_increasing_len(l@, lim);
                    if self.fetched@ && l@.len() > 0 {
                        assert(is_prime(l@[0] as int) && l@[0] < lim && self.n as int % (l@[0] as int) == 0);
                        assert(self.buf@.contains(l@[0]));
                    }
                }
                if l.len() == 0 {
                    let ret = self.n;
                    proof {
                        assert(self.sieve.sieve_small.table().len() == lim);
                        assert forall|qq: int| 2 <= qq < lim && is_prime(qq) implies #[trigger] (self.n as int % qq) != 0 by {
                            if self.n as int % qq == 0 {
                                assert(l@.contains(qq as u64));
                            }
                        }
                        assert(self.n as int >= lim);
                        assert(self.sieve.to() < lim * lim);
                        lemma_no_small_factor_prime(self.n as int, lim, self.sieve.to());
                        assert(is_prime(ret as int));
                    }
                    self.n = 1;
                    self.fetched = Ghost(false);
                    proof {
                        assert(self.wf());
                        assert(self.remaining() == 1);
                        assert(old(self).remaining() == ret);
                        assert(old(self).remaining() == ret * self.remaining());
                    }
                    return Some(ret);
                }
                self.buf = l;
                self.fetched = Ghost(true);
            } else {
                let ret = self.n;
                proof {
                    assert(self.sieve.sieve_small.table().len() == lim);
                    assert(self.fetched@);
                    assert forall|qq: int| 2 <= qq < lim && is_prime(qq) implies #[trigger] (self.n as int % qq) != 0 by {
                        if self.n as int % qq == 0 {
                            assert(self.buf@.contains(qq as u64));
                        }
                    }
                    lemma_no_small_factor_prime(self.n as int, lim, self.sieve.to());
                }
                self.n = 1;
                self.fetched = Ghost(false);
                return Some(ret);
            }
        }
    }
}

/// A number at least 2, below `lim^2`, with no prime factor below `lim` is prime.
proof fn lemma_no_small_factor_prime(n: int, lim: int, t: int)
    requires
        lim >= 1,
        n >= 2,
        n >= lim,
        n <= t,
        t < lim * lim,
        forall|q: int| 2 <= q < lim && is_prime(q) ==> #[trigger] (n % q) != 0,
    ensures
        is_prime(n),
{
    if !is_prime(n) {
        let d = choose|d: int| 2 <= d < n && #[trigger] (n % d) == 0;
        let fct = lemma_smallest_divisor_exists(n, 2);
        lemma_smallest_factor_prime(n, fct);
        lemma_fundamental_div_mod(n, fct);
        let e = n / fct;
        assert(n == fct * e);
        assert(fct <= d);
        assert(e >= fct) by {
            if e < fct {
                assert(e >= 2) by (nonlinear_arith)
                    requires n == fct * e, fct < n, fct >= 2;
                lemma_mod_multiples_basic(fct, e);
                vstd::arithmetic::mul::lemma_mul_is_commutative(fct, e);
                assert(n % e == 0);
            }
        }
        assert(fct < lim) by (nonlinear_arith)
            requires n == fct * e, e >= fct, fct >= 2, n <= t, t < lim * lim, lim >= 1;
        assert(n % fct != 0);
    }
}

} // verus!
