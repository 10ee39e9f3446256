use vstd::prelude::*;
use vstd::arithmetic::power::*;
use vstd::arithmetic::div_mod::*;
use vstd::arithmetic::mul::*;

verus! {

/// `b^e mod m`, the value every modular exponentiation in this crate computes.
pub open spec fn pow_mod(b: int, e: nat, m: int) -> int {
    pow(b, e) % m
}

/// One square-and-multiply step keeps `r * t^e` fixed modulo `m`.
pub proof fn lemma_square_step(r: int, t: int, e: nat, m: int)
    requires
        m > 0,
    ensures
        (r * pow(t, e)) % m == ((if e % 2 == 1 { (r * t) % m } else { r }) * pow(
            (t * t) % m,
            e / 2,
        )) % m,
{
    let h = e / 2;
    let k = e % 2;
    assert(e == 2 * h + k);
    lemma_pow_adds(t, 2 * h, k);
    lemma_pow_multiplies(t, 2, h);
    lemma_square_is_pow2(t);
    assert(pow(t, 2) == t * t) by {
        reveal(pow);
        lemma_pow1(t);
    }
    lemma_pow_mod_noop(t * t, h, m);
    let q = pow(t * t, h);
    let qm = pow((t * t) % m, h);
    assert(pow(t, e) == q * pow(t, k));
    assert(qm % m == q % m);
    if k == 1 {
        lemma_pow1(t);
        assert(r * pow(t, e) == (r * t) * q) by {
            lemma_mul_is_associative(r, q, t);
            lemma_mul_is_associative(r, t, q);
            lemma_mul_is_commutative(q, t);
        }
        lemma_mul_mod_noop_general(r * t, q, m);
        lemma_mul_mod_noop_general(r * t, qm, m);
        lemma_mul_mod_noop_general((r * t) % m, qm, m);
        lemma_mod_mod(r * t, m, 1);
    } else {
        lemma_pow0(t);
        assert(r * pow(t, e) == r * q);
        lemma_mul_mod_noop_general(r, q, m);
        lemma_mul_mod_noop_general(r, qm, m);
    }
}

/// What both exponentiations return: 1 for exponent 0 (whatever the base and
/// modulus) or modulus 0, else `s^n mod p`.
pub open spec fn modpow_value(s: int, n: nat, p: int) -> int {
    if n == 0 || p == 0 {
        1
    } else {
        pow_mod(s, n, p)
    }
}

/// Modular exponentiation with a double-width intermediate: any modulus up
/// to `2^64` is safe.
pub fn modpow_128bit(s: u128, n: u128, p: u128) -> (r: u128)
    requires
        p <= 0x1_0000_0000_0000_0000,
    ensures
        r == modpow_value(s as int, n as nat, p as int),
        n > 0 && p > 0 ==> r < p,
{
    if p == 0 || n == 0 {
        return 1;
    }
    let mut t: u128 = s % p;
    let mut acc: u128 = 1 % p;
    let mut e: u128 = n;
    proof {
        lemma_pow_mod_noop(s as int, n as nat, p as int);
        lemma_mod_mod(pow(s as int, n as nat), p as int, 1);
        lemma_mul_basics(pow(t as int, n as nat) % p as int);
        lemma_mul_mod_noop_left(1, pow(t as int, n as nat), p as int);
    }
    while e > 0
        invariant
            p > 0,
            n > 0,
            p <= 0x1_0000_0000_0000_0000,
            t < p,
            acc < p,
            (acc * pow(t as int, e as nat)) % (p as int) == pow_mod(s as int, n as nat, p as int),
        decreases e,
    {
        proof {
            lemma_square_step(acc as int, t as int, e as nat, p as int);
            assert(t * t <= (p - 1) * (p - 1) && acc * t <= (p - 1) * (p - 1)
                && (p - 1) * (p - 1) <= 0xffff_ffff_ffff_ffff * 0xffff_ffff_ffff_ffff)
                by (nonlinear_arith)
                requires t < p, acc < p, p <= 0x1_0000_0000_0000_0000;
        }
        if e % 2 == 1 {
            acc = (acc * t) % p;
        }
        t = (t * t) % p;
        e = e / 2;
    }
    proof {
        lemma_pow0(t as int);
        lemma_small_mod(acc as nat, p as nat);
    }
    acc
}

/// Modular exponentiation in single width: the modulus must be small enough
/// that the product of two residues fits in 64 bits.
pub fn modpow_64bit(s: u64, n: u64, p: u64) -> (r: u64)
    requires
        p <= 0x1_0000_0000,
    ensures
        r == modpow_value(s as int, n as nat, p as int),
        n > 0 && p > 0 ==> r < p,
{
    if p == 0 || n == 0 {
        return 1;
    }
    let mut t: u64 = s % p;
    let mut acc: u64 = 1 % p;
    let mut e: u64 = n;
    proof {
        lemma_pow_mod_noop(s as int, n as nat, p as int);
        lemma_mod_mod(pow(s as int, n as nat), p as int, 1);
        lemma_mul_mod_noop_left(1, pow(t as int, n as nat), p as int);
    }
    while e > 0
        invariant
            p > 0,
            n > 0,
            p <= 0x1_0000_0000,
            t < p,
            acc < p,
            (acc * pow(t as int, e as nat)) % (p as int) == pow_mod(s as int, n as nat, p as int),
        decreases e,
    {
        proof {
            lemma_square_step(acc as int, t as int, e as nat, p as int);
            assert(t * t <= (p - 1) * (p - 1) && acc * t <= (p - 1) * (p - 1)
                && (p - 1) * (p - 1) <= 0xffff_ffff * 0xffff_ffff)
                by (nonlinear_arith)
                requires t < p, acc < p, p <= 0x1_0000_0000;
        }
        if e % 2 == 1 {
            acc = (acc * t) % p;
        }
        t = (t * t) % p;
        e = e / 2;
    }
    proof {
        lemma_pow0(t as int);
        lemma_small_mod(acc as nat, p as nat);
    }
    acc
}

/// The single-width and double-width exponentiations agree wherever both
/// apply (a modulus up to `2^32`): each returns 1 for exponent 0 or modulus 0,
/// and `s^n mod p` otherwise, a residue below `p`.
pub proof fn lemma_modpow_paths_agree(s: u64, n: u64, p: u64)
    requires
        p <= 0x1_0000_0000,
    ensures
        modpow_value(s as int, n as nat, p as int) == modpow_value((s as u128) as int, (n as u128) as nat, (p as u128) as int),
        n == 0 ==> modpow_value(s as int, n as nat, p as int) == 1,
        n > 0 && p > 0 ==> 0 <= modpow_value(s as int, n as nat, p as int) < p,
{
    if p > 0 {
        lemma_mod_bound(pow(s as int, n as nat), p as int);
    }
}

/// Greatest common divisor by Euclid's recurrence, with `gcd(a, 0) == a`.
pub open spec fn spec_gcd(a: nat, b: nat) -> nat
    decreases b,
{
    if b == 0 {
        a
    } else {
        spec_gcd(b, a % b)
    }
}

/// The gcd divides both arguments, and is positive unless both are zero.
pub proof fn lemma_gcd_divides(a: nat, b: nat)
    ensures
        a > 0 || b > 0 ==> spec_gcd(a, b) > 0,
        spec_gcd(a, b) > 0 ==> a % spec_gcd(a, b) == 0 && b % spec_gcd(a, b) == 0,
    decreases b,
{
    if b == 0 {
        if a > 0 {
            lemma_mod_self_0(a as int);
        }
    } else {
        let r = a % b;
        lemma_gcd_divides(b, r);
        let g = spec_gcd(b, r);
        if g > 0 {
            lemma_fundamental_div_mod(a as int, b as int);
            lemma_fundamental_div_mod(b as int, g as int);
            lemma_fundamental_div_mod(r as int, g as int);
            let q = a as int / b as int;
            assert(a == g * ((b as int / g as int) * q + r as int / g as int)) by (nonlinear_arith)
                requires
                    a == b * q + r,
                    b == g * (b as int / g as int),
                    r == g * (r as int / g as int);
            lemma_mul_is_commutative(g as int, (b as int / g as int) * q + r as int / g as int);
            lemma_mod_multiples_basic((b as int / g as int) * q + r as int / g as int, g as int);
        }
    }
}

/// Euclid's algorithm on 64-bit values.
pub fn gcd_u64(a: u64, b: u64) -> (r: u64)
    ensures
        r == spec_gcd(a as nat, b as nat),
    decreases b,
{
    if b == 0 {
        return a;
    }
    gcd_u64(b, a % b)
}

} // verus!
