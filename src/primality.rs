use vstd::prelude::*;
use vstd::arithmetic::power2::*;
use crate::modarith::{pow_mod, modpow_64bit, modpow_128bit};

verus! {

/// `n` is prime: at least 2 and without a divisor strictly between 1 and `n`.
pub open spec fn is_prime(n: int) -> bool {
    n >= 2 && forall|d: int| 2 <= d < n ==> #[trigger] (n % d) != 0
}

/// The odd part `t` of `x`, where `x == 2^s * t` and `t` is odd (0 for 0).
pub open spec fn odd_part(x: nat) -> nat
    decreases x,
{
    if x == 0 {
        0
    } else if x % 2 == 0 {
        odd_part(x / 2)
    } else {
        x
    }
}

/// The exponent `s` of 2 in `x`, where `x == 2^s * t` and `t` is odd (0 for 0).
pub open spec fn two_exp(x: nat) -> nat
    decreases x,
{
    if x == 0 {
        0
    } else if x % 2 == 0 {
        1 + two_exp(x / 2)
    } else {
        0
    }
}

/// The witness bases tried for `n`, chosen by the first bracket that `n` falls under.
pub open spec fn witnesses(n: int) -> Seq<u64> {
    if n < 4_759_123_141 {
        seq![2, 7, 61]
    } else if n < 341_550_071_728_321 {
        seq![2, 3, 5, 7, 11, 13, 17]
    } else if n < 3_825_123_056_546_413_051 {
        seq![2, 3, 5, 7, 11, 13, 17, 19, 23]
    } else {
        seq![2, 325, 9_375, 28_178, 450_775, 9_780_504, 1_795_265_022]
    }
}

/// Witness `a` does not expose odd `n` as composite: with `n - 1 == 2^s * t`,
/// `a^t == 1` or `a^(2^r * t) == n - 1` modulo `n` for some `r < s`.
pub open spec fn witness_accepts(a: int, n: int) -> bool {
    let s = two_exp((n - 1) as nat);
    let t = odd_part((n - 1) as nat);
    pow_mod(a, t, n) == 1 || exists|r: nat| r < s && #[trigger] pow_mod(a, (pow2(r) * t) as nat, n) == n - 1
}

/// What the Miller-Rabin test answers for `n`: 2 is prime, other even numbers
/// and numbers below 2 are not, and an odd `n` is prime when every witness
/// below `n` accepts it.
pub open spec fn mr_accepts(n: int) -> bool {
    if n == 2 {
        true
    } else if n < 2 || n % 2 == 0 {
        false
    } else {
        forall|i: int|
            0 <= i < witnesses(n).len() && witnesses(n)[i] < n ==> witness_accepts(
                #[trigger] witnesses(n)[i] as int,
                n,
            )
    }
}

proof fn lemma_halving(x: nat)
    requires
        x > 0,
        x % 2 == 0,
    ensures
        odd_part(x) == odd_part(x / 2),
        two_exp(x) == 1 + two_exp(x / 2),
{
}

/// Runs one witness round on odd `n >= 3`, given `n - 1 == 2^s * t` with `t` odd.
fn witness_round(a: u64, n: u64, s: u64, t: u64) -> (r: bool)
    requires
        n >= 3,
        n % 2 == 1,
        a < n,
        s == two_exp((n - 1) as nat),
        t == odd_part((n - 1) as nat),
        pow2(s as nat) * t == n - 1,
    ensures
        r == witness_accepts(a as int, n as int),
{
    let small = n < 1_000_000_000;
    proof {
        assert(t > 0) by (nonlinear_arith)
            requires pow2(s as nat) * t == n - 1, n >= 3;
    }
    let x: u128 = if small {
        modpow_64bit(a, t, n) as u128
    } else {
        modpow_128bit(a as u128, t as u128, n as u128)
    };
    if x == 1 {
        return true;
    }
    let mut i: u64 = 0;
    let mut e: u128 = t as u128;
    proof {
        lemma2_to64();
    }
    while i < s
        invariant
            small == (n < 1_000_000_000),
            n >= 3,
            a < n,
            i <= s,
            s == two_exp((n - 1) as nat),
            t == odd_part((n - 1) as nat),
            pow2(s as nat) * t == n - 1,
            e == pow2(i as nat) * t,
            t > 0,
            pow_mod(a as int, t as nat, n as int) != 1,
            forall|j: nat| j < i ==> #[trigger] pow_mod(a as int, (pow2(j) * t) as nat, n as int) != n - 1,
        decreases s - i,
    {
        proof {
            lemma_pow2_adds(i as nat, (s - i) as nat);
            lemma_pow2_pos((s - i) as nat);
            assert(pow2(i as nat) * t <= pow2(i as nat) * pow2((s - i) as nat) * t)
                by (nonlinear_arith)
                requires pow2((s - i) as nat) >= 1;
        }
        proof {
            lemma_pow2_pos(i as nat);
            assert(e > 0) by (nonlinear_arith)
                requires e == pow2(i as nat) * t, pow2(i as nat) > 0, t > 0;
        }
        let y: u128 = if small {
            modpow_64bit(a, e as u64, n) as u128
        } else {
            modpow_128bit(a as u128, e, n as u128)
        };
        if y == (n - 1) as u128 {
            assert(pow_mod(a as int, (pow2(i as nat) * t) as nat, n as int) == n - 1);
            return true;
        }
        proof {
            lemma_pow2_unfold((i + 1) as nat);
            assert(pow2((i + 1) as nat) * t == 2 * (pow2(i as nat) * t)) by (nonlinear_arith)
                requires pow2((i + 1) as nat) == 2 * pow2(i as nat);
        }
        i = i + 1;
        e = e * 2;
    }
    false
}

/// The Miller-Rabin primality test with the witness set for the magnitude of `n`.
pub fn miller_rabin(n: u64) -> (r: bool)
    ensures
        r == mr_accepts(n as int),
{
    if n == 2 {
        return true;
    }
    if n < 2 || n % 2 == 0 {
        return false;
    }
    let mut s: u64 = 0;
    let mut t: u64 = n - 1;
    proof {
        lemma2_to64();
    }
    while t % 2 == 0
        invariant
            t > 0,
            s < 64,
            two_exp((n - 1) as nat) == s + two_exp(t as nat),
            odd_part((n - 1) as nat) == odd_part(t as nat),
            pow2(s as nat) * t == n - 1,
        decreases t,
    {
        proof {
            lemma_halving(t as nat);
            lemma_pow2_unfold((s + 1) as nat);
            lemma2_to64();
            assert(pow2(s as nat) * t >= pow2(s as nat) * 2) by (nonlinear_arith)
                requires t >= 2;
            assert(pow2((s + 1) as nat) * (t / 2) == pow2(s as nat) * t) by (nonlinear_arith)
                requires pow2((s + 1) as nat) == 2 * pow2(s as nat), t % 2 == 0;
            if s + 1 >= 64 {
                if s + 1 > 64 {
                    lemma_pow2_strictly_increases(64, (s + 1) as nat);
                }
                assert(false);
            }
        }
        s = s + 1;
        t = t / 2;
    }
    let arr: Vec<u64> = if n < 4_759_123_141 {
        vec![2, 7, 61]
    } else if n < 341_550_071_728_321 {
        vec![2, 3, 5, 7, 11, 13, 17]
    } else if n < 3_825_123_056_546_413_051 {
        vec![2, 3, 5, 7, 11, 13, 17, 19, 23]
    } else {
        vec![2, 325, 9_375, 28_178, 450_775, 9_780_504, 1_795_265_022]
    };
    assert(arr@ =~= witnesses(n as int));
    let mut idx: usize = 0;
    while idx < arr.len()
        invariant
            n >= 3,
            n % 2 == 1,
            arr@ == witnesses(n as int),
            idx <= arr.len(),
            s == two_exp((n - 1) as nat),
            t == odd_part((n - 1) as nat),
            pow2(s as nat) * t == n - 1,
            forall|i: int|
                0 <= i < idx && arr@[i] < n ==> witness_accepts(#[trigger] arr@[i] as int, n as int),
        decreases arr.len() - idx,
    {
        let a = arr[idx];
        if a < n {
            if !witness_round(a, n, s, t) {
                return false;
            }
        }
        idx = idx + 1;
    }
    true
}

} // verus!
