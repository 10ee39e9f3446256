use vstd::prelude::*;
use vstd::arithmetic::power::*;
use vstd::arithmetic::div_mod::*;
use vstd::arithmetic::mul::*;
use vstd::set_lib::*;
use vstd::relations::injective_on;
use std::collections::HashMap;
use crate::modarith::{pow_mod, spec_gcd, lemma_gcd_divides, modpow_128bit};

verus! {

/// The largest modulus the solver takes: the product of two residues fits in 64 bits.
pub const DLP_MAX_MODULUS: i64 = 3_037_000_500;

/// `a` and `b` are congruent modulo `m`.
pub open spec fn cong(a: int, b: int, m: int) -> bool {
    a % m == b % m
}

/// Congruences can be multiplied.
pub proof fn lemma_cong_mul(a: int, a2: int, b: int, b2: int, m: int)
    requires
        m > 0,
        cong(a, a2, m),
        cong(b, b2, m),
    ensures
        cong(a * b, a2 * b2, m),
{
    lemma_mul_mod_noop_general(a, b, m);
    lemma_mul_mod_noop_general(a2, b2, m);
}

/// Exponentiation with a non-negative modulus-sized result; exponent 0 gives 1
/// whatever the modulus.
fn modpow(s: i64, n: i64, p: i64) -> (r: i64)
    requires
        0 <= s,
        0 <= n,
        1 <= p,
    ensures
        n == 0 ==> r == 1,
        n > 0 ==> r == pow_mod(s as int, n as nat, p as int),
        n > 0 ==> 0 <= r < p,
{
    if n == 0 {
        return 1;
    }
    let r = modpow_128bit(s as u128, n as u128, p as u128);
    proof {
        lemma_mod_bound(pow(s as int, n as nat), p as int);
    }
    r as i64
}

/// Euclid's algorithm on non-negative values.
fn gcd(a: i64, b: i64) -> (r: i64)
    requires
        a >= 0,
        b >= 0,
    ensures
        r == spec_gcd(a as nat, b as nat),
    decreases b,
{
    if b == 0 {
        return a;
    }
    gcd(b, a % b)
}

/// `gcd(a, m) == gcd(m, a)` when `a < m`.
proof fn lemma_gcd_swap(a: nat, m: nat)
    requires
        a < m,
    ensures
        spec_gcd(a, m) == spec_gcd(m, a),
{
    lemma_small_mod(a, m);
}

/// The inverse of `a` modulo `m`, by the extended Euclidean algorithm with
/// coefficients kept reduced modulo `m`.
fn inv_mod(a: i64, m: i64) -> (r: i64)
    requires
        0 <= a < m <= DLP_MAX_MODULUS,
        spec_gcd(a as nat, m as nat) == 1,
    ensures
        0 <= r < m,
        cong(a * r, 1, m as int),
{
    let mut r0: i64 = m;
    let mut s0: i64 = 0;
    let mut r1: i64 = a;
    let mut s1: i64 = 1 % m;
    proof {
        lemma_gcd_swap(a as nat, m as nat);
        lemma_mod_self_0(m as int);
        lemma_small_mod(a as nat, m as nat);
        lemma_mul_mod_noop_right(a as int, 1, m as int);
    }
    while r1 != 0
        invariant
            0 < m <= DLP_MAX_MODULUS,
            0 <= r1,
            0 <= r0,
            0 <= s0 < m,
            0 <= s1 < m,
            cong(a * s0, r0 as int, m as int),
            cong(a * s1, r1 as int, m as int),
            spec_gcd(r0 as nat, r1 as nat) == 1,
        decreases r1,
    {
        let q = r0 / r1;
        let r2 = r0 % r1;
        proof {
            assert((q % m) * s1 <= (m - 1) * (m - 1)) by (nonlinear_arith)
                requires 0 <= q % m < m, 0 <= s1 < m;
            assert((m - 1) * (m - 1) <= 3_037_000_499 * 3_037_000_499) by (nonlinear_arith)
                requires 0 < m <= 3_037_000_500;
        }
        let t = ((q % m) * s1) % m;
        let s2 = (s0 + m - t) % m;
        proof {
            let (mi, qi, s0i, s1i) = (m as int, q as int, s0 as int, s1 as int);
            lemma_mul_mod_noop_left(qi, s1i, mi);
            lemma_fundamental_div_mod(qi * s1i, mi);
            let k = (qi * s1i) / mi;
            assert(s0i + mi - t == mi * (1 + k) + (s0i - qi * s1i)) by (nonlinear_arith)
                requires qi * s1i == mi * k + (qi * s1i) % mi, t == (qi * s1i) % mi;
            lemma_mod_multiples_vanish(1 + k, s0i - qi * s1i, mi);
            lemma_mul_mod_noop_right(a as int, s2 as int, mi);
            lemma_mul_mod_noop_right(a as int, s0i - qi * s1i, mi);
            assert(a * (s0i - qi * s1i) == a * s0i - qi * (a * s1i)) by (nonlinear_arith);
            lemma_mul_mod_noop_right(qi, a * s1i, mi);
            lemma_mul_mod_noop_right(qi, r1 as int, mi);
            lemma_sub_mod_noop(a * s0i, qi * (a * s1i), mi);
            lemma_sub_mod_noop(r0 as int, qi * r1, mi);
            lemma_fundamental_div_mod(r0 as int, r1 as int);
            assert(r2 == r0 - qi * r1) by (nonlinear_arith)
                requires r0 == r1 * qi + r2;
        }
        r0 = r1;
        s0 = s1;
        r1 = r2;
        s1 = s2;
    }
    s0
}

/// The integer square root: `r * r <= m < (r + 1) * (r + 1)`.
fn isqrt(m: i64) -> (r: i64)
    requires
        0 <= m <= DLP_MAX_MODULUS,
    ensures
        0 <= r,
        r * r <= m,
        m < (r + 1) * (r + 1),
        r <= 55_109,
{
    let mut r: i64 = 0;
    while (r + 1) * (r + 1) <= m
        invariant
            0 <= r <= 55_109,
            (r + 1) * (r + 1) <= 55_110 * 55_110,
            r * r <= m,
            m <= DLP_MAX_MODULUS,
        decreases 55_110 - r,
    {
        proof {
            if r + 1 > 55_109 {
                assert((r + 1) * (r + 1) > 3_037_000_500) by (nonlinear_arith)
                    requires r + 1 > 55_109;
            }
            assert((r + 2) * (r + 2) <= 55_110 * 55_110) by (nonlinear_arith)
                requires r + 1 <= 55_109, r >= 0;
        }
        r = r + 1;
    }
    r
}

/// `x^k` is congruent to `y` modulo `m`, for a residue `y`.
pub open spec fn solves(x: int, y: int, m: int, k: nat) -> bool {
    pow(x, k) % m == y
}

/// The smallest exponent that counts: 0 when zero is allowed, else 1.
pub open spec fn min_exp(allow_zero: bool) -> nat {
    if allow_zero {
        0
    } else {
        1
    }
}

/// `k` is the smallest admissible exponent with `x^k == y (mod m)`.
pub open spec fn is_least_solution(x: int, y: int, m: int, allow_zero: bool, k: nat) -> bool {
    &&& k >= min_exp(allow_zero)
    &&& solves(x, y, m, k)
    &&& forall|j: nat| min_exp(allow_zero) <= j < k ==> !#[trigger] solves(x, y, m, j)
}

/// Some admissible exponent solves `x^k == y (mod m)`.
pub open spec fn has_solution(x: int, y: int, m: int, allow_zero: bool) -> bool {
    exists|k: nat| k >= min_exp(allow_zero) && #[trigger] solves(x, y, m, k)
}

proof fn lemma_pow_succ(b: int, e: nat)
    ensures
        pow(b, e + 1) == pow(b, e) * b,
{
    lemma_pow_adds(b, e, 1);
    lemma_pow1(b);
}

/// If `x * inv == 1 (mod m)` then `x^e * inv^e == 1 (mod m)`.
proof fn lemma_unit_pow(x: int, inv: int, m: int, e: nat)
    requires
        m >= 2,
        cong(x * inv, 1, m),
    ensures
        cong(pow(x, e) * pow(inv, e), 1, m),
{
    lemma_pow_distributes(x, inv, e);
    lemma_pow_mod_noop(x * inv, e, m);
    lemma_small_mod(1, m as nat);
    lemma1_pow(e);
    lemma_pow_mod_noop(1, e, m);
}

/// The baby-step table for exponents `[start, jend)`: each key is `x^j mod m`
/// for the smallest such `j`, and every such power is a key.
pub open spec fn table_ok(tbl: Map<i64, i64>, x: int, m: int, start: int, jend: int) -> bool {
    &&& forall|key: i64|
        #[trigger] tbl.contains_key(key) ==> {
            &&& start <= tbl[key] < jend
            &&& pow(x, tbl[key] as nat) % m == key
            &&& forall|j2: nat| start <= j2 < tbl[key] ==> #[trigger] pow(x, j2) % m != key
        }
    &&& forall|j2: nat| start <= j2 < jend ==> tbl.contains_key(#[trigger] pow_key(x, m, j2))
}

/// `x^j mod m` as a table key.
pub open spec fn pow_key(x: int, m: int, j: nat) -> i64 {
    (pow(x, j) % m) as i64
}

/// A table hit at giant step `i` and baby step `j` gives a solution `i * b + j`.
proof fn lemma_hit(x: int, inv: int, m: int, y: int, b: nat, g: int, i: nat, j: nat)
    requires
        m >= 2,
        0 <= y < m,
        cong(x * inv, 1, m),
        g == pow(inv, b) % m,
        cong(pow(x, j), y * pow(g, i), m),
    ensures
        solves(x, y, m, i * b + j),
{
    lemma_pow_adds(x, b * i, j);
    lemma_pow_multiplies(x, b, i);
    lemma_pow_multiplies(inv, b, i);
    lemma_pow_mod_noop(pow(inv, b), i, m);
    lemma_unit_pow(x, inv, m, b * i);
    let xa = pow(x, b * i);
    let ia = pow(inv, b * i);
    // x^(b i + j) == x^(b i) * x^j == x^(b i) * y * g^i == y * (x^(b i) * inv^(b i)) == y
    lemma_cong_mul(xa, xa, pow(x, j), y * pow(g, i), m);
    lemma_cong_mul(y, y, pow(g, i), ia, m);
    lemma_cong_mul(xa, xa, y * pow(g, i), y * ia, m);
    assert(xa * (y * ia) == y * (xa * ia)) by (nonlinear_arith);
    lemma_cong_mul(y, y, xa * ia, 1, m);
    assert(i * b + j == b * i + j) by (nonlinear_arith);
    lemma_small_mod(y as nat, m as nat);
}

/// A solution `k` splits into giant step `(k - start) / b` and baby step
/// `start + (k - start) % b`, which the table sees.
proof fn lemma_decompose(x: int, inv: int, m: int, y: int, b: nat, g: int, start: nat, k: nat)
    requires
        m >= 2,
        b >= 1,
        0 <= y < m,
        cong(x * inv, 1, m),
        g == pow(inv, b) % m,
        k >= start,
        solves(x, y, m, k),
    ensures
        cong(y * pow(g, ((k - start) / b as int) as nat), pow(x, (start + (k - start) % (b as int)) as nat), m),
        k == b * ((k - start) / b as int) + (start + (k - start) % (b as int)),
{
    let i = ((k - start) / b as int) as nat;
    let j = (start + (k - start) % (b as int)) as nat;
    lemma_fundamental_div_mod(k - start, b as int);
    lemma_pow_adds(x, j, b * i);
    lemma_pow_multiplies(x, b, i);
    lemma_pow_multiplies(inv, b, i);
    lemma_pow_mod_noop(pow(inv, b), i, m);
    lemma_unit_pow(x, inv, m, b * i);
    let xa = pow(x, b * i);
    let ia = pow(inv, b * i);
    let xk = pow(x, k);
    assert(k == j + b * i);
    lemma_mod_mod(xk, m, 1);
    lemma_small_mod(y as nat, m as nat);
    // y * g^i == x^k * inv^(b i) == x^j * (x^(b i) * inv^(b i)) == x^j
    lemma_cong_mul(y, xk, pow(g, i), ia, m);
    assert(xk * ia == pow(x, j) * (xa * ia)) by (nonlinear_arith)
        requires xk == pow(x, j) * xa;
    lemma_cong_mul(pow(x, j), pow(x, j), xa * ia, 1, m);
}

/// Some power `x^p` with `1 <= p <= m` is 1 modulo `m`, when `x` is invertible.
proof fn lemma_period(x: int, inv: int, m: int) -> (p: nat)
    requires
        m >= 2,
        cong(x * inv, 1, m),
    ensures
        1 <= p <= m,
        pow(x, p) % m == 1,
{
    let f = |i: int| pow(x, i as nat) % m;
    let dom = set_int_range(0, m + 1);
    let rng = set_int_range(0, m);
    lemma_int_range(0, m + 1);
    lemma_int_range(0, m);
    if injective_on(f, dom) {
        lemma_map_size(dom, dom.map(f), f);
        assert forall|v: int| dom.map(f).contains(v) implies rng.contains(v) by {
            let i = choose|i: int| dom.contains(i) && f(i) == v;
            lemma_mod_bound(pow(x, i as nat), m);
        }
        lemma_len_subset(dom.map(f), rng);
        assert(false);
    }
    let (a0, b0) = choose|a0: int, b0: int|
        dom.contains(a0) && dom.contains(b0) && f(a0) == f(b0) && a0 != b0;
    let (a, bb) = if a0 < b0 { (a0, b0) } else { (b0, a0) };
    let p = (bb - a) as nat;
    lemma_pow_adds(x, a as nat, p);
    lemma_unit_pow(x, inv, m, a as nat);
    let xa = pow(x, a as nat);
    let ia = pow(inv, a as nat);
    let xp = pow(x, p);
    // x^a == x^a * x^p, times inv^a: 1 == x^p
    lemma_cong_mul(xa, xa * xp, ia, ia, m);
    assert(xa * xp * ia == xp * (xa * ia)) by (nonlinear_arith);
    lemma_cong_mul(xp, xp, xa * ia, 1, m);
    lemma_small_mod(1, m as nat);
    p
}

/// With `x^p == 1 (mod m)`, exponent `k` may be reduced into `[start, start + p)`.
proof fn lemma_reduce_exponent(x: int, m: int, p: nat, start: nat, k: nat)
    requires
        m >= 2,
        p >= 1,
        pow(x, p) % m == 1,
        k >= start,
    ensures
        pow(x, k) % m == pow(x, (start + (k - start) % (p as int)) as nat) % m,
        start + (k - start) % (p as int) < start + p,
{
    let t = ((k - start) / p as int) as nat;
    let k2 = (start + (k - start) % (p as int)) as nat;
    lemma_fundamental_div_mod(k - start, p as int);
    assert(k == k2 + p * t);
    lemma_pow_adds(x, k2, p * t);
    lemma_pow_multiplies(x, p, t);
    lemma_pow_mod_noop(pow(x, p), t, m);
    lemma1_pow(t);
    lemma_small_mod(1, m as nat);
    lemma_cong_mul(pow(x, k2), pow(x, k2), pow(x, p * t), 1, m);
}

/// Baby-step giant-step for `x` invertible modulo `m`.
fn bsgs(x: i64, y: i64, m: i64, allow_zero: bool) -> (r: Option<i64>)
    requires
        2 <= m <= DLP_MAX_MODULUS,
        1 <= x < m,
        0 <= y < m,
        spec_gcd(x as nat, m as nat) == 1,
    ensures
        match r {
            Some(k) => 0 <= k <= m && is_least_solution(x as int, y as int, m as int, allow_zero, k as nat),
            None => !has_solution(x as int, y as int, m as int, allow_zero),
        },
{
    broadcast use vstd::std_specs::hash::group_hash_axioms;

    let root = isqrt(m);
    let block = root + 1;
    proof {
        assert(block * block > m);
        assert(root <= m) by (nonlinear_arith)
            requires root * root <= m, root >= 0;
        assert(block * block <= 3 * m + 1) by (nonlinear_arith)
            requires block == root + 1, root * root <= m, root >= 0, root <= m;
        if root == 0 {
            assert((root + 1) * (root + 1) == 1) by (nonlinear_arith)
                requires root == 0;
            assert(false);
        }
    }
    let start: i64 = if allow_zero { 0 } else { 1 };
    let mut table: HashMap<i64, i64> = HashMap::new();
    let mut buf: i64 = if allow_zero { 1 } else { x % m };
    proof {
        lemma_pow0(x as int);
        lemma_pow1(x as int);
        lemma_small_mod(1, m as nat);
    }
    let mut j: i64 = start;
    while j < start + block
        invariant
            2 <= m <= DLP_MAX_MODULUS,
            1 <= x < m,
            2 <= block <= 55_110,
            start == min_exp(allow_zero),
            start <= j <= start + block,
            0 <= buf < m,
            buf == pow(x as int, j as nat) % m as int,
            table_ok(table@, x as int, m as int, start as int, j as int),
        decreases start + block - j,
    {
        if !table.contains_key(&buf) {
            let ghost before = table@;
            proof {
                assert forall|j2: nat| start <= j2 < j implies #[trigger] pow(x as int, j2) % (m as int) != buf by {
                    if pow(x as int, j2) % (m as int) == buf {
                        assert(before.contains_key(pow_key(x as int, m as int, j2)));
                    }
                }
            }
            table.insert(buf, j);
        }
        proof {
            lemma_pow_succ(x as int, j as nat);
            lemma_mul_mod_noop_left(pow(x as int, j as nat), x as int, m as int);
            assert(buf * x <= (m - 1) * (m - 1)) by (nonlinear_arith)
                requires 0 <= buf < m, 1 <= x < m;
            assert((m - 1) * (m - 1) <= 3_037_000_499 * 3_037_000_499) by (nonlinear_arith)
                requires m <= 3_037_000_500, m >= 2;
        }
        buf = (buf * x) % m;
        j = j + 1;
    }
    proof {
        lemma_gcd_swap(x as nat, m as nat);
    }
    let inv = inv_mod(x, m);
    let g = modpow(inv, block, m);
    let mut cur: i64 = y;
    let mut i: i64 = 0;
    proof {
        lemma_pow0(g as int);
        lemma_small_mod(y as nat, m as nat);
    }
    while i < block
        invariant
            2 <= m <= DLP_MAX_MODULUS,
            1 <= x < m,
            0 <= y < m,
            2 <= block <= 55_110,
            block * block > m,
            block * block <= 3 * m + 1,
            start == min_exp(allow_zero),
            0 <= i <= block,
            0 <= g < m,
            g == pow(inv as int, block as nat) % m as int,
            cong(x * inv, 1, m as int),
            0 <= cur < m,
            cur == (y * pow(g as int, i as nat)) % m as int,
            table_ok(table@, x as int, m as int, start as int, start + block),
            forall|i2: nat| i2 < i ==> !table@.contains_key(#[trigger] giant_key(y as int, g as int, m as int, i2)),
        decreases block - i,
    {
        match table.get(&cur) {
            Some(jj) => {
                let jv = *jj;
                proof {
                    lemma_found(x as int, inv as int, m as int, y as int, block as nat, g as int,
                        start as nat, i as nat, jv as nat, table@, cur);
                    let k = (i * block + jv) as nat;
                    let per = lemma_period(x as int, inv as int, m as int);
                    lemma_reduce_exponent(x as int, m as int, per, start as nat, k);
                    if k >= start + per {
                        let k2 = (start + (k - start) % (per as int)) as nat;
                        lemma_mod_bound(k - start, per as int);
                        assert(solves(x as int, y as int, m as int, k2));
                        assert(!solves(x as int, y as int, m as int, k2));
                    }
                }
                return Some(i * block + jv);
            },
            None => {},
        }
        proof {
            assert(!table@.contains_key(giant_key(y as int, g as int, m as int, i as nat)));
            lemma_pow_succ(g as int, i as nat);
            lemma_mul_mod_noop_left(y * pow(g as int, i as nat), g as int, m as int);
            assert(y * pow(g as int, i as nat) * g == y * (pow(g as int, i as nat) * g)) by (nonlinear_arith);
            assert(cur * g <= (m - 1) * (m - 1)) by (nonlinear_arith)
                requires 0 <= cur < m, 0 <= g < m;
            assert((m - 1) * (m - 1) <= 3_037_000_499 * 3_037_000_499) by (nonlinear_arith)
                requires m <= 3_037_000_500, m >= 2;
        }
        cur = (cur * g) % m;
        i = i + 1;
    }
    proof {
        lemma_not_found(x as int, inv as int, m as int, y as int, block as nat, g as int,
            start as nat, allow_zero, table@);
    }
    None
}

/// The table key of giant step `i`: `y * g^i mod m`.
pub open spec fn giant_key(y: int, g: int, m: int, i: nat) -> i64 {
    ((y * pow(g, i)) % m) as i64
}

/// A hit in the table at giant step `i` is the least solution.
proof fn lemma_found(x: int, inv: int, m: int, y: int, b: nat, g: int, start: nat, i: nat, jv: nat,
    tbl: Map<i64, i64>, cur: i64)
    requires
        m >= 2,
        b >= 1,
        start <= 1,
        0 <= y < m,
        cong(x * inv, 1, m),
        g == pow(inv, b) % m,
        table_ok(tbl, x, m, start as int, (start + b) as int),
        cur == (y * pow(g, i)) % m,
        tbl.contains_key(cur),
        tbl[cur] == jv,
        forall|i2: nat| i2 < i ==> !tbl.contains_key(#[trigger] giant_key(y, g, m, i2)),
    ensures
        solves(x, y, m, i * b + jv),
        i * b + jv >= start,
        forall|k: nat| start <= k < i * b + jv ==> !#[trigger] solves(x, y, m, k),
{
    lemma_mod_mod(y * pow(g, i), m, 1);
    lemma_hit(x, inv, m, y, b, g, i, jv);
    assert(i * b + jv >= start) by (nonlinear_arith)
        requires jv >= start, i >= 0, b >= 1;
    assert forall|k: nat| start <= k < i * b + jv implies !#[trigger] solves(x, y, m, k) by {
        if solves(x, y, m, k) {
            lemma_decompose(x, inv, m, y, b, g, start, k);
            let i2 = ((k - start) / b as int) as nat;
            let j2 = (start + (k - start) % (b as int)) as nat;
            lemma_mod_bound(k - start, b as int);
            assert(tbl.contains_key(pow_key(x, m, j2)));
            lemma_mod_bound(pow(x, j2), m);
            lemma_mod_bound(y * pow(g, i2), m);
            assert(pow_key(x, m, j2) == giant_key(y, g, m, i2));
            if i2 < i {
                assert(!tbl.contains_key(giant_key(y, g, m, i2)));
            } else if i2 == i {
                assert(j2 >= jv);
                assert(k >= i * b + jv) by (nonlinear_arith)
                    requires k == b * i2 + j2, i2 == i, j2 >= jv;
            } else {
                assert(k >= i * b + jv) by (nonlinear_arith)
                    requires k == b * i2 + j2, i2 >= i + 1, j2 >= start, jv < start + b;
            }
        }
    }
}

/// No hit at any giant step below `b` leaves no solution at all.
proof fn lemma_not_found(x: int, inv: int, m: int, y: int, b: nat, g: int, start: nat, allow_zero: bool,
    tbl: Map<i64, i64>)
    requires
        m >= 2,
        b >= 1,
        b * b > m,
        start == min_exp(allow_zero),
        0 <= y < m,
        cong(x * inv, 1, m),
        g == pow(inv, b) % m,
        table_ok(tbl, x, m, start as int, (start + b) as int),
        forall|i2: nat| i2 < b ==> !tbl.contains_key(#[trigger] giant_key(y, g, m, i2)),
    ensures
        !has_solution(x, y, m, allow_zero),
{
    if has_solution(x, y, m, allow_zero) {
        let k = choose|k: nat| k >= min_exp(allow_zero) && #[trigger] solves(x, y, m, k);
        let p = lemma_period(x, inv, m);
        lemma_reduce_exponent(x, m, p, start, k);
        let k2 = (start + (k - start) % (p as int)) as nat;
        lemma_mod_bound(k - start, p as int);
        assert(solves(x, y, m, k2));
        lemma_decompose(x, inv, m, y, b, g, start, k2);
        let i2 = ((k2 - start) / b as int) as nat;
        let j2 = (start + (k2 - start) % (b as int)) as nat;
        lemma_mod_bound(k2 - start, b as int);
        lemma_fundamental_div_mod(k2 - start, b as int);
        assert(i2 < b) by (nonlinear_arith)
            requires k2 - start == b * i2 + (k2 - start) % (b as int), 0 <= (k2 - start) % (b as int),
                k2 - start < p, p <= m, m < b * b, b >= 1;
        assert(tbl.contains_key(pow_key(x, m, j2)));
        lemma_mod_bound(pow(x, j2), m);
        lemma_mod_bound(y * pow(g, i2), m);
        assert(pow_key(x, m, j2) == giant_key(y, g, m, i2));
        assert(!tbl.contains_key(giant_key(y, g, m, i2)));
    }
}

/// Scaling both arguments scales the gcd: `gcd(a c, b c) == c gcd(a, b)`.
proof fn lemma_gcd_scale(a: nat, b: nat, c: nat)
    requires
        c > 0,
    ensures
        spec_gcd(a * c, b * c) == c * spec_gcd(a, b),
    decreases b,
{
    if b == 0 {
        assert(b * c == 0);
        assert(a * c == c * a) by (nonlinear_arith);
    } else {
        lemma_fundamental_div_mod(a as int, b as int);
        let q = a as int / b as int;
        let r = a as int % b as int;
        assert(a * c == q * (b * c) + r * c) by (nonlinear_arith)
            requires a == b * q + r;
        assert(0 <= r * c < b * c) by (nonlinear_arith)
            requires 0 <= r < b, c > 0;
        lemma_fundamental_div_mod_converse_mod((a * c) as int, (b * c) as int, q, r * c);
        assert(b * c > 0) by (nonlinear_arith)
            requires b > 0, c > 0;
        lemma_gcd_scale(b, r as nat, c);
    }
}

/// Dividing a congruence and its modulus by a common factor `g`.
proof fn lemma_cong_cancel(g: int, a: int, b: int, mm: int)
    requires
        g > 0,
        mm > 0,
    ensures
        cong(g * a, g * b, g * mm) <==> cong(a, b, mm),
{
    lemma_fundamental_div_mod(a, mm);
    lemma_fundamental_div_mod(b, mm);
    let (qa, ra) = (a / mm, a % mm);
    let (qb, rb) = (b / mm, b % mm);
    assert(g * a == qa * (g * mm) + g * ra) by (nonlinear_arith)
        requires a == mm * qa + ra;
    assert(g * b == qb * (g * mm) + g * rb) by (nonlinear_arith)
        requires b == mm * qb + rb;
    assert(0 <= g * ra < g * mm && 0 <= g * rb < g * mm) by (nonlinear_arith)
        requires 0 <= ra < mm, 0 <= rb < mm, g > 0;
    lemma_fundamental_div_mod_converse_mod(g * a, g * mm, qa, g * ra);
    lemma_fundamental_div_mod_converse_mod(g * b, g * mm, qb, g * rb);
    if g * ra == g * rb {
        lemma_mul_equality_converse(g, ra, rb);
    }
}

/// For `k >= 1`, with `x = g X`, `y = g Y`, `m = g M` and `X inv == 1 (mod M)`:
/// `x^k == y (mod m)` exactly when `(x mod M)^(k-1) == Y inv (mod M)`.
proof fn lemma_reduction(x: int, y: int, m: int, g: int, xd: int, yd: int, md: int, inv: int, k: nat)
    requires
        g >= 1,
        md >= 1,
        m == g * md,
        x == g * xd,
        y == g * yd,
        0 <= y < m,
        cong(xd * inv, 1, md),
        k >= 1,
    ensures
        solves(x, y, m, k) <==> solves(x % md, (yd * inv) % md, md, (k - 1) as nat),
{
    let z = pow(x, (k - 1) as nat);
    lemma_pow_succ(x, (k - 1) as nat);
    assert(pow(x, k) == g * (xd * z)) by (nonlinear_arith)
        requires pow(x, k) == z * x, x == g * xd;
    lemma_small_mod(y as nat, m as nat);
    // x^k == y (mod m)  <==>  X z == Y (mod M)
    lemma_cong_cancel(g, xd * z, yd, md);
    assert(solves(x, y, m, k) <==> cong(xd * z, yd, md));
    // X z == Y (mod M)  <==>  z == Y inv (mod M)
    lemma_pow_mod_noop(x, (k - 1) as nat, md);
    lemma_mod_mod(yd * inv, md, 1);
    if cong(xd * z, yd, md) {
        lemma_cong_mul(xd * z, yd, inv, inv, md);
        assert(xd * z * inv == z * (xd * inv)) by (nonlinear_arith);
        lemma_cong_mul(z, z, xd * inv, 1, md);
    }
    if cong(z, yd * inv, md) {
        lemma_cong_mul(xd, xd, z, yd * inv, md);
        assert(xd * (yd * inv) == yd * (xd * inv)) by (nonlinear_arith);
        lemma_cong_mul(yd, yd, xd * inv, 1, md);
    }
    lemma_mod_bound(yd * inv, md);
    lemma_small_mod(((yd * inv) % md) as nat, md as nat);
}

/// When `g` divides `x` and `m` but not `y`, no positive power of `x` is `y` modulo `m`.
proof fn lemma_not_divisible(x: int, y: int, m: int, g: int, k: nat)
    requires
        g >= 1,
        m >= 1,
        x % g == 0,
        m % g == 0,
        y % g != 0,
        k >= 1,
    ensures
        !solves(x, y, m, k),
{
    lemma_fundamental_div_mod(x, g);
    lemma_fundamental_div_mod(m, g);
    lemma_pow_succ(x, (k - 1) as nat);
    let z = pow(x, (k - 1) as nat);
    let v = pow(x, k);
    lemma_fundamental_div_mod(v, m);
    let (xg, mg) = (x / g, m / g);
    assert(v % m == g * (xg * z - mg * (v / m))) by (nonlinear_arith)
        requires v == z * x, x == g * xg, m == g * mg, v == m * (v / m) + v % m;
    lemma_mod_multiples_basic(xg * z - mg * (v / m), g);
    assert(g * (xg * z - mg * (v / m)) == (xg * z - mg * (v / m)) * g) by (nonlinear_arith);
}

/// The smallest `k` with `x^k == y (mod m)`, counting from 0 when `allow_zero`
/// and from 1 otherwise; `None` when no such `k` exists.
pub fn dlp(x: i64, y: i64, m: i64, allow_zero: bool) -> (r: Option<i64>)
    requires
        1 <= m <= DLP_MAX_MODULUS,
        0 <= x < m,
        0 <= y < m,
    ensures
        match r {
            Some(k) => 0 <= k <= m && is_least_solution(x as int, y as int, m as int, allow_zero, k as nat),
            None => !has_solution(x as int, y as int, m as int, allow_zero),
        },
    decreases m,
{
    proof {
        lemma_pow0(x as int);
    }
    if m == 1 && allow_zero {
        proof {
            lemma_small_mod(y as nat, 1);
        }
        return Some(0);
    }
    if x == 0 {
        proof {
            assert forall|k: nat| k >= 1 implies #[trigger] pow(x as int, k) == 0 by {
                lemma0_pow(k);
            }
            if m > 1 {
                lemma_small_mod(1, m as nat);
            }
            lemma_small_mod(0, m as nat);
        }
        if y == 1 && allow_zero {
            return Some(0);
        } else if y == 0 {
            proof {
                lemma0_pow(1);
                assert(solves(x as int, y as int, m as int, 1));
                if allow_zero {
                    assert(allow_zero ==> !solves(x as int, y as int, m as int, 0));
                }
            }
            return Some(1);
        } else {
            proof {
                assert forall|k: nat| k >= min_exp(allow_zero) implies !#[trigger] solves(x as int, y as int, m as int, k) by {
                    if k >= 1 {
                        assert(pow(x as int, k) == 0);
                    } else {
                        assert(m > 1);
                    }
                }
            }
            return None;
        }
    }
    if y == 1 && allow_zero {
        proof {
            lemma_small_mod(1, m as nat);
        }
        return Some(0);
    }
    let g = gcd(x, m);
    proof {
        lemma_gcd_divides(x as nat, m as nat);
        lemma_small_mod(1, m as nat);
    }
    if g != 1 {
        proof {
            if m < g {
                lemma_small_mod(m as nat, g as nat);
            }
            lemma_small_mod(1, m as nat);
        }
        if y % g != 0 {
            proof {
                assert forall|k: nat| k >= min_exp(allow_zero) implies !#[trigger] solves(x as int, y as int, m as int, k) by {
                    if k >= 1 {
                        lemma_not_divisible(x as int, y as int, m as int, g as int, k);
                    }
                }
            }
            return None;
        }
        let xd = x / g;
        let yd = y / g;
        let md = m / g;
        proof {
            lemma_fundamental_div_mod(x as int, g as int);
            lemma_fundamental_div_mod(y as int, g as int);
            lemma_fundamental_div_mod(m as int, g as int);
            assert(md < m && md >= 1 && xd < md && yd < md) by (nonlinear_arith)
                requires m == g * md, x == g * xd, y == g * yd, g >= 2, x < m, y < m, m >= 1;
            lemma_gcd_scale(xd as nat, md as nat, g as nat);
            assert(xd * g == x && md * g == m) by (nonlinear_arith)
                requires m == g * md, x == g * xd;
            assert(g * spec_gcd(xd as nat, md as nat) == g * 1);
            lemma_mul_equality_converse(g as int, spec_gcd(xd as nat, md as nat) as int, 1);
        }
        let xd_inv = inv_mod(xd, md);
        proof {
            assert(yd * xd_inv <= (md - 1) * (md - 1)) by (nonlinear_arith)
                requires 0 <= yd < md, 0 <= xd_inv < md;
            assert((md - 1) * (md - 1) <= 3_037_000_499 * 3_037_000_499) by (nonlinear_arith)
                requires md <= 3_037_000_500, md >= 1;
        }
        let x2 = x % md;
        let y2 = (yd * xd_inv) % md;
        let r = dlp(x2, y2, md, true);
        proof {
            assert forall|k: nat| k >= 1 implies #[trigger] solves(x as int, y as int, m as int, k)
                == solves(x2 as int, y2 as int, md as int, (k - 1) as nat) by {
                lemma_reduction(x as int, y as int, m as int, g as int, xd as int, yd as int, md as int,
                    xd_inv as int, k);
            }
            assert(allow_zero ==> !solves(x as int, y as int, m as int, 0));
        }
        match r {
            Some(r) => {
                proof {
                    assert(solves(x as int, y as int, m as int, (r + 1) as nat));
                    assert forall|j: nat| min_exp(allow_zero) <= j < r + 1 implies !#[trigger] solves(
                        x as int,
                        y as int,
                        m as int,
                        j,
                    ) by {
                        if j >= 1 {
                            assert(!solves(x2 as int, y2 as int, md as int, (j - 1) as nat));
                        }
                    }
                    assert(md + 1 <= m) by (nonlinear_arith)
                        requires m == g * md, g >= 2, md >= 1;
                }
                Some(r + 1)
            },
            None => {
                proof {
                    assert forall|k: nat| k >= min_exp(allow_zero) implies !#[trigger] solves(
                        x as int,
                        y as int,
                        m as int,
                        k,
                    ) by {
                        if k >= 1 {
                            assert(!solves(x2 as int, y2 as int, md as int, (k - 1) as nat));
                        }
                    }
                }
                None
            },
        }
    } else {
        bsgs(x, y, m, allow_zero)
    }
}

} // verus!
