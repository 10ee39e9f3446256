use vstd::prelude::*;

verus! {

broadcast use vstd::seq_lib::to_multiset_update;

/// `r` is `start + v % len` with Rust's remainder, which keeps the sign of `v`.
pub open spec fn offset_by_rem(start: int, v: int, len: int) -> int {
    start + if v >= 0 {
        v % len
    } else {
        -((-v) % len)
    }
}

/// A small pseudo-random generator: every value derives from `next_u64`.
pub trait SmallRng {
    fn next_u8(&mut self) -> u8;

    fn next_i8(&mut self) -> i8;

    fn next_u16(&mut self) -> u16;

    fn next_i16(&mut self) -> i16;

    fn next_u32(&mut self) -> u32;

    fn next_i32(&mut self) -> i32;

    fn next_i64(&mut self) -> i64;

    fn next_u64(&mut self) -> u64;

    fn next_u128(&mut self) -> u128;

    fn next_i128(&mut self) -> i128;

    fn next_usize(&mut self) -> usize;

    fn next_isize(&mut self) -> isize;

    fn next_bool(&mut self) -> bool;

    /// A value in `[start, end)`.
    fn range_u64(&mut self, start: u64, end: u64) -> (r: u64)
        requires
            start < end,
        ensures
            start <= r < end,
    ;

    /// `start` plus the signed remainder of a random value by `end - start`:
    /// within `end - start` of `start`, and below `end`.
    fn range_i64(&mut self, start: i64, end: i64) -> (r: i64)
        requires
            start < end,
            end - start <= i64::MAX,
            2 * start - end >= i64::MIN,
        ensures
            start - (end - start) < r < end,
    ;

    /// A value in `[start, end)`.
    fn range_usize(&mut self, start: usize, end: usize) -> (r: usize)
        requires
            start < end,
        ensures
            start <= r < end,
    ;

    /// `start` plus the signed remainder of a random value by `end - start`:
    /// within `end - start` of `start`, and below `end`.
    fn range_isize(&mut self, start: isize, end: isize) -> (r: isize)
        requires
            start < end,
            end - start <= isize::MAX,
            2 * start - end >= isize::MIN,
        ensures
            start - (end - start) < r < end,
    ;
}

proof fn lemma_rem_bounds(v: int, len: int)
    requires
        len > 0,
    ensures
        -len < (if v >= 0 { v % len } else { -((-v) % len) }) < len,
{
}

/// One xorshift step: `s ^= s << 7; s ^= s >> 9`.
pub open spec fn xorshift_step(s: u64) -> u64 {
    let a = s ^ (s << 7u64);
    a ^ (a >> 9u64)
}

/// The xorshift generator; its state is the seed.
pub struct XorShift {
    seed: u64,
}

impl XorShift {
    pub closed spec fn state(&self) -> u64 {
        self.seed
    }

    pub fn init(seed: u64) -> (r: XorShift)
        ensures
            r.state() == seed,
    {
        XorShift { seed }
    }

    pub fn get_seed(&self) -> (r: u64)
        ensures
            r == self.state(),
    {
        self.seed
    }
}

impl Default for XorShift {
    fn default() -> (r: XorShift)
        ensures
            r.state() == 88172645463325252,
    {
        XorShift { seed: 88172645463325252 }
    }
}

impl SmallRng for XorShift {
    fn next_u64(&mut self) -> (r: u64)
        ensures
            r == xorshift_step(old(self).state()),
            final(self).state() == r,
    {
        self.seed = self.seed ^ (self.seed << 7u64);
        self.seed = self.seed ^ (self.seed >> 9u64);
        self.seed
    }

    fn next_u8(&mut self) -> (r: u8)
        ensures
            r == xorshift_step(old(self).state()) as u8,
            final(self).state() == xorshift_step(old(self).state()),
    {
        self.next_u64() as u8
    }

    fn next_i8(&mut self) -> (r: i8)
        ensures
            r == xorshift_step(old(self).state()) as i8,
            final(self).state() == xorshift_step(old(self).state()),
    {
        self.next_u64() as i8
    }

    fn next_u16(&mut self) -> (r: u16)
        ensures
            r == xorshift_step(old(self).state()) as u16,
            final(self).state() == xorshift_step(old(self).state()),
    {
        self.next_u64() as u16
    }

    fn next_i16(&mut self) -> (r: i16)
        ensures
            r == xorshift_step(old(self).state()) as u16 as i16,
            final(self).state() == xorshift_step(old(self).state()),
    {
        self.next_u16() as i16
    }

    fn next_u32(&mut self) -> (r: u32)
        ensures
            r == xorshift_step(old(self).state()) as u32,
            final(self).state() == xorshift_step(old(self).state()),
    {
        self.next_u64() as u32
    }

    fn next_i32(&mut self) -> (r: i32)
        ensures
            r == xorshift_step(old(self).state()) as i32,
            final(self).state() == xorshift_step(old(self).state()),
    {
        self.next_u64() as i32
    }

    fn next_i64(&mut self) -> (r: i64)
        ensures
            r == xorshift_step(old(self).state()) as i64,
            final(self).state() == xorshift_step(old(self).state()),
    {
        self.next_u64() as i64
    }

    fn next_u128(&mut self) -> (r: u128)
        ensures
            r == (xorshift_step(old(self).state()) as u128) * 0x1_0000_0000_0000_0000
                + xorshift_step(xorshift_step(old(self).state())) as u128,
            final(self).state() == xorshift_step(xorshift_step(old(self).state())),
    {
        let hi = self.next_u64() as u128;
        let lo = self.next_u64() as u128;
        proof {
            assert((hi << 64u128) | lo == hi * 0x1_0000_0000_0000_0000 + lo) by (bit_vector)
                requires hi < 0x1_0000_0000_0000_0000, lo < 0x1_0000_0000_0000_0000;
        }
        (hi << 64u128) | lo
    }

    fn next_i128(&mut self) -> (r: i128)
        ensures
            r == ((xorshift_step(old(self).state()) as u128) * 0x1_0000_0000_0000_0000
                + xorshift_step(xorshift_step(old(self).state())) as u128) as i128,
            final(self).state() == xorshift_step(xorshift_step(old(self).state())),
    {
        self.next_u128() as i128
    }

    fn next_usize(&mut self) -> (r: usize)
        ensures
            r == xorshift_step(old(self).state()) as usize,
            final(self).state() == xorshift_step(old(self).state()),
    {
        self.next_u64() as usize
    }

    fn next_isize(&mut self) -> (r: isize)
        ensures
            r == xorshift_step(old(self).state()) as isize,
            final(self).state() == xorshift_step(old(self).state()),
    {
        self.next_u64() as isize
    }

    fn next_bool(&mut self) -> (r: bool)
        ensures
            r == (xorshift_step(old(self).state()) % 2 == 1),
            final(self).state() == xorshift_step(old(self).state()),
    {
        let v = self.next_u64();
        proof {
            assert(v & 1 == v % 2) by (bit_vector);
        }
        v & 1 == 1
    }

    fn range_u64(&mut self, start: u64, end: u64) -> (r: u64)
        ensures
            r == start as int + (xorshift_step(old(self).state()) as int) % (end as int - start as int),
            final(self).state() == xorshift_step(old(self).state()),
    {
        start + self.next_u64() % (end - start)
    }

    fn range_i64(&mut self, start: i64, end: i64) -> (r: i64)
        ensures
            r == offset_by_rem(start as int, xorshift_step(old(self).state()) as i64 as int, end - start),
            final(self).state() == xorshift_step(old(self).state()),
    {
        let v = self.next_i64();
        proof {
            lemma_rem_bounds(v as int, end - start);
        }
        start + v % (end - start)
    }

    fn range_usize(&mut self, start: usize, end: usize) -> (r: usize)
        ensures
            r == start as int + (xorshift_step(old(self).state()) as usize as int) % (end as int - start as int),
            final(self).state() == xorshift_step(old(self).state()),
    {
        start + self.next_usize() % (end - start)
    }

    fn range_isize(&mut self, start: isize, end: isize) -> (r: isize)
        ensures
            r == offset_by_rem(start as int, xorshift_step(old(self).state()) as isize as int, end - start),
            final(self).state() == xorshift_step(old(self).state()),
    {
        let v = self.next_isize();
        proof {
            lemma_rem_bounds(v as int, end - start);
        }
        start + v % (end - start)
    }
}

/// `v` rotated right by `k < 64` bits.
pub open spec fn spec_rotate_right(v: u64, k: u32) -> u64 {
    if k == 0 {
        v
    } else {
        (v >> k) | (v << (64 - k) as u32)
    }
}

/// Rotates `v` right by `k < 64` bits.
pub fn rotate_right(v: u64, k: u32) -> (r: u64)
    requires
        k < 64,
    ensures
        r == spec_rotate_right(v, k),
{
    if k == 0 {
        v
    } else {
        (v >> k) | (v << (64 - k))
    }
}

pub const PCG64_DEFAULT_MULTIPLIER: u128 = 6364136223846793005;

pub const PCG64_DEFAULT_INCREMENT: u128 = 1442695040888963407;

pub const PCG64_INIT_STATE: u128 = 0x4d595df4d0f33173;

/// `(x + y) mod 2^128`.
pub open spec fn add_wrap(x: u128, y: u128) -> u128 {
    if x + y > u128::MAX {
        (x + y - 0x1_0000_0000_0000_0000_0000_0000_0000_0000) as u128
    } else {
        (x + y) as u128
    }
}

/// `(x * y) mod 2^128`.
pub open spec fn mul_wrap(x: u128, y: u128) -> u128 {
    ((x as nat * y as nat) % 0x1_0000_0000_0000_0000_0000_0000_0000_0000nat) as u128
}

/// The linear congruential step of the PCG state.
pub open spec fn pcg_state_step(s: u128) -> u128 {
    add_wrap(mul_wrap(s, PCG64_DEFAULT_MULTIPLIER), PCG64_DEFAULT_INCREMENT)
}

/// The output drawn from state `x`: the xor of its halves, rotated right by
/// its top six bits.
pub open spec fn pcg_output(x: u128) -> u64 {
    spec_rotate_right((x ^ (x >> 64u128)) as u64, (x >> 122u128) as u32)
}

/// The PCG generator with 128-bit state and 64-bit output.
pub struct PCG64 {
    seed: u128,
    state: u128,
    increment: u128,
    multiplier: u128,
}

impl PCG64 {
    /// Multiplier and increment are the defaults in every generator.
    #[verifier::type_invariant]
    spec fn constants_fixed(&self) -> bool {
        self.multiplier == PCG64_DEFAULT_MULTIPLIER && self.increment == PCG64_DEFAULT_INCREMENT
    }

    pub closed spec fn state(&self) -> u128 {
        self.state
    }

    pub closed spec fn seed_value(&self) -> u128 {
        self.seed
    }

    /// A generator whose state starts at the fixed initial state plus `seed`.
    pub fn init(seed: u128) -> (r: PCG64)
        ensures
            r.seed_value() == seed,
            r.state() == add_wrap(PCG64_INIT_STATE, seed),
    {
        PCG64 {
            seed,
            state: PCG64_INIT_STATE.wrapping_add(seed),
            increment: PCG64_DEFAULT_INCREMENT,
            multiplier: PCG64_DEFAULT_MULTIPLIER,
        }
    }

    pub fn get_seed(&self) -> (r: u128)
        ensures
            r == self.seed_value(),
    {
        self.seed
    }
}

impl Default for PCG64 {
    fn default() -> (r: PCG64)
        ensures
            r.seed_value() == 88172645463325252,
            r.state() == add_wrap(PCG64_INIT_STATE, 88172645463325252),
    {
        PCG64::init(88172645463325252)
    }
}

impl SmallRng for PCG64 {
    fn next_u64(&mut self) -> (r: u64)
        ensures
            r == pcg_output(old(self).state()),
            final(self).state() == pcg_state_step(old(self).state()),
    {
        proof {
            use_type_invariant(&*self);
        }
        let x = self.state;
        let count = (#[verifier::truncate] ((x >> 122u128) as u32));
        let x64 = (#[verifier::truncate] ((x ^ (x >> 64u128)) as u64));
        self.state = x.wrapping_mul(self.multiplier).wrapping_add(self.increment);
        proof {
            assert(x >> 122u128 < 64u128) by (bit_vector);
        }
        rotate_right(x64, count)
    }

    fn next_u8(&mut self) -> (r: u8)
        ensures
            r == pcg_output(old(self).state()) as u8,
            final(self).state() == pcg_state_step(old(self).state()),
    {
        self.next_u64() as u8
    }

    fn next_i8(&mut self) -> (r: i8)
        ensures
            r == pcg_output(old(self).state()) as i8,
            final(self).state() == pcg_state_step(old(self).state()),
    {
        self.next_u64() as i8
    }

    fn next_u16(&mut self) -> (r: u16)
        ensures
            r == pcg_output(old(self).state()) as u16,
            final(self).state() == pcg_state_step(old(self).state()),
    {
        self.next_u64() as u16
    }

    fn next_i16(&mut self) -> (r: i16)
        ensures
            r == pcg_output(old(self).state()) as u16 as i16,
            final(self).state() == pcg_state_step(old(self).state()),
    {
        self.next_u16() as i16
    }

    fn next_u32(&mut self) -> (r: u32)
        ensures
            r == pcg_output(old(self).state()) as u32,
            final(self).state() == pcg_state_step(old(self).state()),
    {
        self.next_u64() as u32
    }

    fn next_i32(&mut self) -> (r: i32)
        ensures
            r == pcg_output(old(self).state()) as i32,
            final(self).state() == pcg_state_step(old(self).state()),
    {
        self.next_u64() as i32
    }

    fn next_i64(&mut self) -> (r: i64)
        ensures
            r == pcg_output(old(self).state()) as i64,
            final(self).state() == pcg_state_step(old(self).state()),
    {
        self.next_u64() as i64
    }

    fn next_u128(&mut self) -> (r: u128)
        ensures
            r == (pcg_output(old(self).state()) as u128) * 0x1_0000_0000_0000_0000
                + pcg_output(pcg_state_step(old(self).state())) as u128,
            final(self).state() == pcg_state_step(pcg_state_step(old(self).state())),
    {
        let hi = self.next_u64() as u128;
        let lo = self.next_u64() as u128;
        proof {
            assert((hi << 64u128) | lo == hi * 0x1_0000_0000_0000_0000 + lo) by (bit_vector)
                requires hi < 0x1_0000_0000_0000_0000, lo < 0x1_0000_0000_0000_0000;
        }
        (hi << 64u128) | lo
    }

    fn next_i128(&mut self) -> (r: i128)
        ensures
            r == ((pcg_output(old(self).state()) as u128) * 0x1_0000_0000_0000_0000
                + pcg_output(pcg_state_step(old(self).state())) as u128) as i128,
            final(self).state() == pcg_state_step(pcg_state_step(old(self).state())),
    {
        self.next_u128() as i128
    }

    fn next_usize(&mut self) -> (r: usize)
        ensures
            r == pcg_output(old(self).state()) as usize,
            final(self).state() == pcg_state_step(old(self).state()),
    {
        self.next_u64() as usize
    }

    fn next_isize(&mut self) -> (r: isize)
        ensures
            r == pcg_output(old(self).state()) as isize,
            final(self).state() == pcg_state_step(old(self).state()),
    {
        self.next_u64() as isize
    }

    fn next_bool(&mut self) -> (r: bool)
        ensures
            r == (pcg_output(old(self).state()) % 2 == 1),
            final(self).state() == pcg_state_step(old(self).state()),
    {
        let v = self.next_u64();
        proof {
            assert(v & 1 == v % 2) by (bit_vector);
        }
        v & 1 == 1
    }

    fn range_u64(&mut self, start: u64, end: u64) -> (r: u64)
        ensures
            r == start as int + (pcg_output(old(self).state()) as int) % (end as int - start as int),
            final(self).state() == pcg_state_step(old(self).state()),
    {
        start + self.next_u64() % (end - start)
    }

    fn range_i64(&mut self, start: i64, end: i64) -> (r: i64)
        ensures
            r == offset_by_rem(start as int, pcg_output(old(self).state()) as i64 as int, end - start),
            final(self).state() == pcg_state_step(old(self).state()),
    {
        let v = self.next_i64();
        proof {
            lemma_rem_bounds(v as int, end - start);
        }
        start + v % (end - start)
    }

    fn range_usize(&mut self, start: usize, end: usize) -> (r: usize)
        ensures
            r == start as int + (pcg_output(old(self).state()) as usize as int) % (end as int - start as int),
            final(self).state() == pcg_state_step(old(self).state()),
    {
        start + self.next_usize() % (end - start)
    }

    fn range_isize(&mut self, start: isize, end: isize) -> (r: isize)
        ensures
            r == offset_by_rem(start as int, pcg_output(old(self).state()) as isize as int, end - start),
            final(self).state() == pcg_state_step(old(self).state()),
    {
        let v = self.next_isize();
        proof {
            lemma_rem_bounds(v as int, end - start);
        }
        start + v % (end - start)
    }
}

/// Reorders a vector at random.
pub trait Shuffle<R: SmallRng> {
    fn shuffle(&mut self, rng: &mut R);
}

proof fn lemma_swap_multiset<T>(s: Seq<T>, i: int, j: int)
    requires
        0 <= i < s.len(),
        0 <= j < s.len(),
    ensures
        s.update(i, s[j]).update(j, s[i]).to_multiset() =~= s.to_multiset(),
{
    broadcast use vstd::multiset::group_multiset_axioms, vstd::seq_lib::to_multiset_contains;

    if i != j {
        let m = s.to_multiset();
        let s1 = s.update(i, s[j]);
        assert(s1.to_multiset() == m.insert(s[j]).remove(s[i]));
        assert(s1[j] == s[j]);
        assert(s1.update(j, s[i]).to_multiset() == s1.to_multiset().insert(s[i]).remove(s[j]));
        assert(m.count(s[i]) > 0);
        assert(m.count(s[j]) > 0);
        assert(m.insert(s[j]).remove(s[i]).insert(s[i]).remove(s[j]) =~= m);
    } else {
        assert(s.update(i, s[j]).update(j, s[i]) =~= s);
    }
}

impl<T: Copy, R: SmallRng> Shuffle<R> for Vec<T> {
    /// Fisher-Yates: each position in turn swaps with a random later one.
    fn shuffle(&mut self, rng: &mut R)
        ensures
            final(self)@.to_multiset() == old(self)@.to_multiset(),
            final(self)@.len() == old(self)@.len(),
    {
        if self.len() == 0 {
            return;
        }
        let n = self.len();
        let mut idx1: usize = 0;
        while idx1 < n - 1
            invariant
                n == self@.len(),
                n >= 1,
                idx1 <= n - 1,
                self@.to_multiset() == old(self)@.to_multiset(),
            decreases n - 1 - idx1,
        {
            let idx2 = rng.range_usize(idx1, n);
            let a = self[idx1];
            let b = self[idx2];
            proof {
                lemma_swap_multiset(self@, idx1 as int, idx2 as int);
            }
            self.set(idx1, b);
            self.set(idx2, a);
            idx1 = idx1 + 1;
        }
    }
}

} // verus!
