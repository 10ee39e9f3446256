use vstd::prelude::*;
use vstd::arithmetic::power::*;
use vstd::arithmetic::div_mod::*;
use crate::modarith::{pow_mod, modpow_64bit};

verus! {

/// `n!`.
pub open spec fn fact(n: nat) -> nat
    decreases n,
{
    if n == 0 {
        1
    } else {
        n * fact((n - 1) as nat)
    }
}

/// `(n!)^(p-2) mod p`: the inverse of `n!` modulo a prime `p` by Fermat's little theorem.
pub open spec fn fact_inv(n: nat, p: int) -> int {
    pow_mod(fact(n) as int, (p - 2) as nat, p)
}

/// Factorials and their inverses modulo `p`, tabulated as far as they were asked for.
pub struct DPFactorial {
    modulus: u64,
    normal: Vec<u64>,
    inv: Vec<u64>,
}

impl DPFactorial {
    pub closed spec fn modulus(&self) -> int {
        self.modulus as int
    }

    pub closed spec fn wf(&self) -> bool {
        &&& 2 <= self.modulus <= 0xffff_ffff
        &&& self.normal@.len() >= 1
        &&& self.inv@.len() >= 1
        &&& forall|k: int| 0 <= k < self.normal@.len() ==> #[trigger] self.normal@[k] == (fact(k as nat) as int) % (self.modulus as int)
        &&& forall|k: int| 0 <= k < self.inv@.len() ==> #[trigger] self.inv@[k] == fact_inv(k as nat, self.modulus as int)
    }

    /// Tables for modulus `modulus`, holding `0! = 1` so far.
    pub fn new(modulus: u32) -> (r: DPFactorial)
        requires
            modulus >= 2,
        ensures
            r.wf(),
            r.modulus() == modulus,
    {
        let m = modulus as u64;
        let mut normal: Vec<u64> = Vec::new();
        let mut inv: Vec<u64> = Vec::new();
        normal.push(1);
        inv.push(1);
        proof {
            reveal(pow);
            lemma1_pow((m - 2) as nat);
            lemma_small_mod(1, m as nat);
            assert(fact(0) == 1);
        }
        DPFactorial { modulus: m, normal, inv }
    }

    /// `n! mod p`.
    pub fn get_factorial(&mut self, n: usize) -> (r: u64)
        requires
            old(self).wf(),
            n < usize::MAX,
        ensures
            final(self).wf(),
            final(self).modulus() == old(self).modulus(),
            r == (fact(n as nat) as int) % old(self).modulus(),
    {
        if n < self.normal.len() {
            return self.normal[n];
        }
        let p = self.modulus;
        let mut z: usize = self.normal.len();
        while z <= n
            invariant
                self.wf(),
                self.modulus == p,
                self.modulus == old(self).modulus,
                z == self.normal@.len(),
                z >= 1,
                z <= n + 1,
                n < usize::MAX,
            decreases n + 1 - z,
        {
            let prev = self.normal[z - 1];
            let zm = (z as u64) % p;
            proof {
                lemma_mul_mod_noop_general(z as int, fact((z - 1) as nat) as int, p as int);
                assert(fact(z as nat) == z * fact((z - 1) as nat));
                assert(zm * prev <= 0xffff_ffff * 0xffff_ffff) by (nonlinear_arith)
                    requires zm < p, prev < p, p <= 0xffff_ffff;
                lemma_mod_bound(fact((z - 1) as nat) as int, p as int);
            }
            self.normal.push((zm * prev) % p);
            z = z + 1;
        }
        self.normal[n]
    }

    /// `(n!)^(p-2) mod p`, the inverse of `n!` when `p` is prime.
    pub fn get_factorial_inv(&mut self, n: usize) -> (r: u64)
        requires
            old(self).wf(),
            n < usize::MAX,
        ensures
            final(self).wf(),
            final(self).modulus() == old(self).modulus(),
            r == fact_inv(n as nat, old(self).modulus()),
    {
        if n < self.inv.len() {
            return self.inv[n];
        }
        let p = self.modulus;
        let mut z: usize = self.inv.len();
        while z <= n
            invariant
                self.wf(),
                self.modulus == p,
                self.modulus == old(self).modulus,
                z == self.inv@.len(),
                z >= 1,
                z <= n + 1,
                n < usize::MAX,
            decreases n + 1 - z,
        {
            let prev = self.inv[z - 1];
            let zi = modpow_64bit((z as u64) % p, p - 2, p);
            proof {
                let e = (p - 2) as nat;
                let f = fact((z - 1) as nat) as int;
                if e == 0 {
                    lemma_pow0(((z as u64) % p) as int);
                    lemma_small_mod(1, p as nat);
                }
                lemma_pow_mod_noop(z as int, e, p as int);
                lemma_pow_distributes(z as int, f, e);
                assert(fact(z as nat) == z * f);
                lemma_mul_mod_noop_general(pow(z as int, e), pow(f, e), p as int);
                lemma_mod_bound(pow(z as int, e), p as int);
                lemma_mod_bound(pow(f, e), p as int);
                assert(zi * prev <= 0xffff_ffff * 0xffff_ffff) by (nonlinear_arith)
                    requires zi < p, prev < p, p <= 0xffff_ffff;
            }
            self.inv.push((zi * prev) % p);
            z = z + 1;
        }
        self.inv[n]
    }

    /// `n! / ((n-r)! r!) mod p` through the inverse factorials; 0 when `n < r`.
    pub fn get_combination(&mut self, n: usize, r: usize) -> (c: u64)
        requires
            old(self).wf(),
            n < usize::MAX,
        ensures
            final(self).wf(),
            final(self).modulus() == old(self).modulus(),
            n < r ==> c == 0,
            n >= r ==> c == (fact(n as nat) * fact_inv((n - r) as nat, old(self).modulus()) * fact_inv(
                r as nat,
                old(self).modulus(),
            )) % old(self).modulus(),
    {
        if n < r {
            return 0;
        }
        let p = self.modulus;
        let a = self.get_factorial(n);
        let b = self.get_factorial_inv(n - r);
        let d = self.get_factorial_inv(r);
        proof {
            lemma_mod_bound(pow(fact((n - r) as nat) as int, (p - 2) as nat), p as int);
            lemma_mod_bound(pow(fact(r as nat) as int, (p - 2) as nat), p as int);
            assert(a * b <= 0xffff_ffff * 0xffff_ffff) by (nonlinear_arith)
                requires a < p, b < p, p <= 0xffff_ffff;
            lemma_mul_mod_noop_general(fact(n as nat) as int, b as int, p as int);
            lemma_mul_mod_noop_general(fact(n as nat) * b, d as int, p as int);
            lemma_mod_bound(a as int * b as int, p as int);
            let ab = (a as int * b as int) % (p as int);
            assert(ab * d <= 0xffff_ffff * 0xffff_ffff) by (nonlinear_arith)
                requires 0 <= ab < p, d < p, p <= 0xffff_ffff;
            lemma_mod_twice(fact(n as nat) as int, p as int);
            lemma_mul_mod_noop_left(fact(n as nat) as int, b as int, p as int);
            lemma_mul_mod_noop_left(fact(n as nat) * b, d as int, p as int);
        }
        (a * b % p) * d % p
    }

    /// `n! / (n-r)! mod p` through the inverse factorial; 0 when `n < r`.
    pub fn get_permutation(&mut self, n: usize, r: usize) -> (c: u64)
        requires
            old(self).wf(),
            n < usize::MAX,
        ensures
            final(self).wf(),
            final(self).modulus() == old(self).modulus(),
            n < r ==> c == 0,
            n >= r ==> c == (fact(n as nat) * fact_inv((n - r) as nat, old(self).modulus())) % old(
                self,
            ).modulus(),
    {
        if n < r {
            return 0;
        }
        let p = self.modulus;
        let a = self.get_factorial(n);
        let b = self.get_factorial_inv(n - r);
        proof {
            lemma_mod_bound(pow(fact((n - r) as nat) as int, (p - 2) as nat), p as int);
            assert(a * b <= 0xffff_ffff * 0xffff_ffff) by (nonlinear_arith)
                requires a < p, b < p, p <= 0xffff_ffff;
            lemma_mul_mod_noop_left(fact(n as nat) as int, b as int, p as int);
        }
        a * b % p
    }
}

} // verus!
