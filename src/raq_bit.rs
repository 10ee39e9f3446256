use vstd::prelude::*;

verus! {

/// `s[l] + ... + s[r - 1]` (0 when `r <= l`).
pub open spec fn range_sum(s: Seq<i64>, l: int, r: int) -> int
    decreases r - l,
{
    if r <= l {
        0
    } else {
        range_sum(s, l, r - 1) + s[r - 1]
    }
}

/// Every partial sum `s[l] + ... + s[k - 1]` with `l <= k <= r` fits in 64 bits.
pub open spec fn partial_sums_fit(s: Seq<i64>, l: int, r: int) -> bool {
    forall|k: int| l <= k <= r ==> i64::MIN <= #[trigger] range_sum(s, l, k) <= i64::MAX
}

/// An array of `n` integers, all 0 at first, with range addition and range sums.
pub struct RaqBit {
    n: usize,
    data: Vec<i64>,
}

impl RaqBit {
    /// The current values.
    pub closed spec fn values(&self) -> Seq<i64> {
        self.data@
    }

    pub closed spec fn wf(&self) -> bool {
        self.data@.len() == self.n
    }

    /// `n` zeros.
    pub fn new(n: usize) -> (r: RaqBit)
        ensures
            r.wf(),
            r.values() == Seq::new(n as nat, |i: int| 0i64),
    {
        let mut data: Vec<i64> = Vec::new();
        let mut i: usize = 0;
        while i < n
            invariant
                i <= n,
                data@ == Seq::new(i as nat, |k: int| 0i64),
            decreases n - i,
        {
            data.push(0);
            i = i + 1;
            assert(data@ =~= Seq::new(i as nat, |k: int| 0i64));
        }
        RaqBit { n, data }
    }

    /// `data[0] + ... + data[idx - 1]`.
    pub fn accum(&self, idx: usize) -> (r: i64)
        requires
            self.wf(),
            idx <= self.values().len(),
            partial_sums_fit(self.values(), 0, idx as int),
        ensures
            r == range_sum(self.values(), 0, idx as int),
    {
        self.sum(0, idx)
    }

    /// Adds `val` to `data[l]`, ..., `data[r - 1]`.
    pub fn add(&mut self, l: usize, r: usize, val: i64)
        requires
            old(self).wf(),
            l <= r <= old(self).values().len(),
            forall|i: int| l <= i < r ==> i64::MIN <= #[trigger] old(self).values()[i] + val <= i64::MAX,
        ensures
            final(self).wf(),
            final(self).values().len() == old(self).values().len(),
            forall|i: int| 0 <= i < old(self).values().len() ==> #[trigger] final(self).values()[i] == if l <= i < r {
                old(self).values()[i] + val
            } else {
                old(self).values()[i] as int
            },
    {
        let mut i: usize = l;
        while i < r
            invariant
                l <= i <= r,
                r <= self.data@.len(),
                self.n == old(self).n,
                self.data@.len() == old(self).data@.len(),
                forall|k: int| 0 <= k < self.data@.len() ==> #[trigger] self.data@[k] == if l <= k < i {
                    old(self).data@[k] + val
                } else {
                    old(self).data@[k] as int
                },
                forall|k: int| l <= k < r ==> i64::MIN <= #[trigger] old(self).data@[k] + val <= i64::MAX,
            decreases r - i,
        {
            let cur = self.data[i];
            self.data.set(i, cur + val);
            i = i + 1;
        }
    }

    /// `data[l] + ... + data[r - 1]`.
    pub fn sum(&self, l: usize, r: usize) -> (s: i64)
        requires
            self.wf(),
            l <= r <= self.values().len(),
            partial_sums_fit(self.values(), l as int, r as int),
        ensures
            s == range_sum(self.values(), l as int, r as int),
    {
        let mut acc: i64 = 0;
        let mut i: usize = l;
        while i < r
            invariant
                l <= i <= r,
                r <= self.data@.len(),
                partial_sums_fit(self.data@, l as int, r as int),
                acc == range_sum(self.data@, l as int, i as int),
            decreases r - i,
        {
            assert(i64::MIN <= range_sum(self.data@, l as int, i + 1) <= i64::MAX);
            acc = acc + self.data[i];
            i = i + 1;
        }
        acc
    }
}

} // verus!
