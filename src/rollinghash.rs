use vstd::prelude::*;
use vstd::arithmetic::div_mod::*;
use vstd::arithmetic::power::*;
use vstd::string::StringSliceAdditionalSpecFns;

verus! {

/// The Mersenne prime `2^61 - 1`, the modulus of every hash.
pub const MOD: u128 = 0x1fff_ffff_ffff_ffff;

/// The polynomial hash of `s` in `base`: `(s[0] b^(n-1) + ... + s[n-1]) mod MOD`.
pub open spec fn poly_hash(s: Seq<u8>, base: int) -> int
    decreases s.len(),
{
    if s.len() == 0 {
        0
    } else {
        (poly_hash(s.drop_last(), base) * base + s.last()) % (MOD as int)
    }
}

/// Rolling hashes of all prefixes of a string, for hashing any substring.
pub struct RollingHash {
    v: Vec<u128>,
    pow: Vec<u128>,
    text: Ghost<Seq<u8>>,
    base: Ghost<int>,
}

/// Reduces `t < MOD^2 + MOD` modulo `MOD`, using `2^61 == 1 (mod MOD)`.
fn calcmod(t: u128) -> (r: u128)
    requires
        t < MOD * MOD + MOD,
    ensures
        r == t % MOD,
{
    let hi = t >> 61u128;
    let lo = t & MOD;
    proof {
        assert(hi == t / 0x2000_0000_0000_0000 && lo == t % 0x2000_0000_0000_0000) by (bit_vector)
            requires hi == t >> 61u128, lo == t & 0x1fff_ffff_ffff_ffffu128;
        lemma_fundamental_div_mod(t as int, 0x2000_0000_0000_0000);
        assert(hi <= MOD) by (nonlinear_arith)
            requires hi == t / 0x2000_0000_0000_0000, t < MOD * MOD + MOD, MOD == 0x1fff_ffff_ffff_ffff;
        assert(t == (MOD as int) * hi + (hi + lo));
        lemma_mod_multiples_vanish(hi as int, (hi + lo) as int, MOD as int);
    }
    let s = hi + lo;
    if s >= MOD {
        proof {
            lemma_mod_multiples_vanish(1, (s - MOD) as int, MOD as int);
            lemma_small_mod((s - MOD) as nat, MOD as nat);
        }
        s - MOD
    } else {
        proof {
            lemma_small_mod(s as nat, MOD as nat);
        }
        s
    }
}

fn mulmod(a: u128, b: u128) -> (r: u128)
    requires
        a < MOD,
        b < MOD,
    ensures
        r == (a * b) % (MOD as int),
{
    proof {
        assert(a * b < MOD * MOD) by (nonlinear_arith)
            requires a < MOD, b < MOD;
    }
    calcmod(a * b)
}

fn addmod(a: u128, b: u128) -> (r: u128)
    requires
        a < MOD,
        b < MOD,
    ensures
        r == (a + b) % (MOD as int),
{
    calcmod(a + b)
}

fn submod(a: u128, b: u128) -> (r: u128)
    requires
        a < MOD,
        b < MOD,
    ensures
        r == (a - b) % (MOD as int),
{
    proof {
        lemma_mod_multiples_vanish(1, a - b, MOD as int);
    }
    calcmod(a + MOD - b)
}

/// The hash of a substring from the prefix hashes:
/// `H(s[..to]) == H(s[..from]) b^(to - from) + H(s[from..to]) (mod MOD)`.
pub proof fn lemma_substring_hash(s: Seq<u8>, base: int, from: int, to: int)
    requires
        0 <= from <= to <= s.len(),
    ensures
        poly_hash(s.subrange(0, to), base) % (MOD as int) == (poly_hash(s.subrange(0, from), base) * pow(
            base,
            (to - from) as nat,
        ) + poly_hash(s.subrange(from, to), base)) % (MOD as int),
    decreases to - from,
{
    let m = MOD as int;
    if to == from {
        assert(s.subrange(from, to) =~= Seq::<u8>::empty());
        lemma_pow0(base);
        lemma_mod_twice(poly_hash(s.subrange(0, to), base), m);
    } else {
        lemma_substring_hash(s, base, from, to - 1);
        let a = poly_hash(s.subrange(0, from), base);
        let p = pow(base, (to - 1 - from) as nat);
        let hp = poly_hash(s.subrange(0, to - 1), base);
        let hs = poly_hash(s.subrange(from, to - 1), base);
        let c = s[to - 1] as int;
        assert(s.subrange(0, to).drop_last() =~= s.subrange(0, to - 1));
        assert(s.subrange(from, to).drop_last() =~= s.subrange(from, to - 1));
        lemma_pow_adds(base, (to - 1 - from) as nat, 1);
        lemma_pow1(base);
        // H(to) == (hp b + c) % m and hp == (a p + hs) (mod m)
        lemma_mod_twice(hp * base + c, m);
        lemma_mul_mod_noop_left(hp, base, m);
        lemma_mul_mod_noop_left(a * p + hs, base, m);
        lemma_add_mod_noop(hp * base, c, m);
        lemma_add_mod_noop((a * p + hs) * base, c, m);
        assert((a * p + hs) * base + c == a * (p * base) + (hs * base + c)) by (nonlinear_arith);
        lemma_add_mod_noop(a * (p * base), hs * base + c, m);
        lemma_mod_twice(hs * base + c, m);
        lemma_add_mod_noop(a * (p * base), (hs * base + c) % m, m);
    }
}

impl RollingHash {
    pub closed spec fn prefix_hashes(&self) -> Seq<u128> {
        self.v@
    }

    pub closed spec fn powers(&self) -> Seq<u128> {
        self.pow@
    }

    /// The bytes that were hashed.
    pub closed spec fn text(&self) -> Seq<u8> {
        self.text@
    }

    /// The base of the hash.
    pub closed spec fn base(&self) -> int {
        self.base@
    }

    pub open spec fn wf(&self) -> bool {
        self.hashes(self.text(), self.base())
    }

    /// The hashes of every prefix of `text` and the powers of `base` up to
    /// its length.
    pub open spec fn hashes(&self, text: Seq<u8>, base: int) -> bool {
        &&& self.prefix_hashes().len() == text.len() + 1
        &&& self.powers().len() == text.len() + 1
        &&& forall|i: int| 0 <= i <= text.len() ==> #[trigger] self.prefix_hashes()[i] == poly_hash(
            text.subrange(0, i),
            base,
        )
        &&& forall|i: int| 0 <= i <= text.len() ==> #[trigger] self.powers()[i] == pow(base, i as nat) % (MOD as int)
    }

    /// Hashes every prefix of `input_str` in `base`.
    pub fn calc(input_str: &str, base: u128) -> (r: RollingHash)
        requires
            base < MOD,
        ensures
            r.wf(),
            r.text() == input_str.spec_bytes(),
            r.base() == base as int,
    {
        let bytes = input_str.as_bytes();
        let n = bytes.len();
        let ghost text = input_str.spec_bytes();
        let mut v: Vec<u128> = Vec::new();
        let mut powers: Vec<u128> = Vec::new();
        v.push(0);
        powers.push(1);
        let mut pow_buf: u128 = base;
        proof {
            assert(text.subrange(0, 0) =~= Seq::<u8>::empty());
            lemma_pow0(base as int);
            lemma_pow1(base as int);
            lemma_small_mod(1, MOD as nat);
            lemma_small_mod(base as nat, MOD as nat);
        }
        let mut k: usize = 0;
        while k < n
            invariant
                n == text.len(),
                base < MOD,
                k <= n,
                powers@.len() == k + 1,
                pow_buf < MOD,
                pow_buf == pow(base as int, (k + 1) as nat) % (MOD as int),
                forall|i: int| 0 <= i <= k ==> #[trigger] powers@[i] == pow(base as int, i as nat) % (MOD as int),
            decreases n - k,
        {
            powers.push(pow_buf);
            proof {
                lemma_pow_adds(base as int, (k + 1) as nat, 1);
                lemma_pow1(base as int);
                lemma_mul_mod_noop_left(pow(base as int, (k + 1) as nat), base as int, MOD as int);
                vstd::arithmetic::mul::lemma_mul_is_commutative(pow_buf as int, base as int);
            }
            pow_buf = mulmod(pow_buf, base);
            k = k + 1;
        }
        let mut hash: u128 = 0;
        let mut idx: usize = 0;
        while idx < n
            invariant
                n == text.len(),
                bytes@ == text,
                base < MOD,
                idx <= n,
                v@.len() == idx + 1,
                hash < MOD,
                hash == poly_hash(text.subrange(0, idx as int), base as int),
                forall|i: int| 0 <= i <= idx ==> #[trigger] v@[i] == poly_hash(text.subrange(0, i), base as int),
            decreases n - idx,
        {
            let c = bytes[idx];
            proof {
                assert(text.subrange(0, idx + 1).drop_last() =~= text.subrange(0, idx as int));
                lemma_mod_bound(hash * base, MOD as int);
                lemma_add_mod_noop(hash * base, c as int, MOD as int);
                lemma_mod_twice(hash * base, MOD as int);
                lemma_small_mod(c as nat, MOD as nat);
            }
            hash = mulmod(hash, base);
            hash = addmod(hash, c as u128);
            v.push(hash);
            idx = idx + 1;
        }
        RollingHash { v, pow: powers, text: Ghost(text), base: Ghost(base as int) }
    }

    /// The hash of the bytes in `[from, to)`.
    pub fn get(&self, from: usize, to: usize) -> (r: u128)
        requires
            self.wf(),
            from <= to <= self.text().len(),
        ensures
            r == poly_hash(self.text().subrange(from as int, to as int), self.base()),
    {
        let ghost m = MOD as int;
        let ghost text = self.text();
        let ghost b = self.base();
        proof {
            lemma_substring_hash(text, b, from as int, to as int);
            let hf = poly_hash(text.subrange(0, from as int), b);
            let ht = poly_hash(text.subrange(0, to as int), b);
            let hs = poly_hash(text.subrange(from as int, to as int), b);
            let pw = pow(b, (to - from) as nat);
            if to > 0 {
                lemma_mod_bound(ht, m);
            }
            lemma_mul_mod_noop_right(hf, pw, m);
            // (ht - hf * (pw % m)) % m == hs
            lemma_sub_mod_noop(ht, hf * (pw % m), m);
            lemma_sub_mod_noop(hf * pw + hs, hf * pw, m);
            lemma_mod_twice(ht, m);
            assert(hf * pw + hs - hf * pw == hs);
            if text.subrange(from as int, to as int).len() > 0 {
                lemma_mod_bound(poly_hash(text.subrange(from as int, to as int).drop_last(), b) * b
                    + text.subrange(from as int, to as int).last(), m);
            }
            lemma_small_mod(hs as nat, m as nat);
            if from > 0 {
                lemma_mod_bound(poly_hash(text.subrange(0, from as int).drop_last(), b) * b
                    + text.subrange(0, from as int).last(), m);
            }
            if to > 0 {
                lemma_mod_bound(poly_hash(text.subrange(0, to as int).drop_last(), b) * b
                    + text.subrange(0, to as int).last(), m);
            }
        }
        let t = mulmod(self.v[from], self.pow[to - from]);
        submod(self.v[to], t)
    }
}

} // verus!
