use vstd::prelude::*;

verus! {

/// Intervals `[a, b)` that are non-empty, in increasing order, and separated
/// by at least one missing value.
pub open spec fn separated(iv: Seq<(i64, i64)>) -> bool {
    &&& forall|k: int| 0 <= k < iv.len() ==> #[trigger] iv[k].0 < iv[k].1
    &&& forall|k: int| 0 <= k < iv.len() - 1 ==> #[trigger] iv[k].1 < iv[k + 1].0
}

/// `x` lies in one of the intervals.
pub open spec fn covers(iv: Seq<(i64, i64)>, x: int) -> bool {
    exists|k: int| 0 <= k < iv.len() && iv[k].0 <= x < #[trigger] iv[k].1
}

proof fn lemma_covers_one(p: (i64, i64), x: int)
    ensures
        covers(seq![p], x) == (p.0 <= x < p.1),
{
    if covers(seq![p], x) {
        let j = choose|j: int| 0 <= j < 1 && seq![p][j].0 <= x < #[trigger] seq![p][j].1;
        assert(j == 0);
    }
    if p.0 <= x < p.1 {
        assert(seq![p][0] == p);
    }
}

proof fn lemma_covers_two(p: (i64, i64), q: (i64, i64), x: int)
    ensures
        covers(seq![p, q], x) == (p.0 <= x < p.1 || q.0 <= x < q.1),
{
    let s = seq![p, q];
    if covers(s, x) {
        let j = choose|j: int| 0 <= j < 2 && s[j].0 <= x < #[trigger] s[j].1;
        assert(j == 0 || j == 1);
    }
    if p.0 <= x < p.1 {
        assert(s[0] == p);
    }
    if q.0 <= x < q.1 {
        assert(s[1] == q);
    }
}

proof fn lemma_covers_concat(s1: Seq<(i64, i64)>, s2: Seq<(i64, i64)>, x: int)
    ensures
        covers(s1 + s2, x) == (covers(s1, x) || covers(s2, x)),
{
    let s = s1 + s2;
    if covers(s, x) {
        let j = choose|j: int| 0 <= j < s.len() && s[j].0 <= x < #[trigger] s[j].1;
        if j < s1.len() {
            assert(s1[j] == s[j]);
        } else {
            assert(s2[j - s1.len()] == s[j]);
        }
    }
    if covers(s1, x) {
        let j = choose|j: int| 0 <= j < s1.len() && s1[j].0 <= x < #[trigger] s1[j].1;
        assert(s[j] == s1[j]);
    }
    if covers(s2, x) {
        let j = choose|j: int| 0 <= j < s2.len() && s2[j].0 <= x < #[trigger] s2[j].1;
        assert(s[s1.len() + j] == s2[j]);
    }
}

/// The merged interval `[lo, hi)` not yet written out holds `x`.
pub open spec fn pending(placed: bool, lo: i64, hi: i64, x: int) -> bool {
    !placed && lo <= x && x < hi
}

/// `x` lies in `[lo, hi)`.
pub open spec fn between(lo: i64, hi: i64, x: int) -> bool {
    lo <= x && x < hi
}

proof fn lemma_remove_step(out: Seq<(i64, i64)>, before: Seq<(i64, i64)>, added: Seq<(i64, i64)>,
    pre: Seq<(i64, i64)>, pre1: Seq<(i64, i64)>, a: i64, b: i64, f: i64, t: i64)
    requires
        forall|x: int| #[trigger] covers(out, x) == (covers(before, x) || covers(added, x)),
        forall|x: int| #[trigger] covers(added, x) == (between(a, b, x) && !between(f, t, x)),
        forall|x: int| #[trigger] covers(pre1, x) == (covers(pre, x) || between(a, b, x)),
        forall|x: int| #[trigger] covers(before, x) == (covers(pre, x) && !between(f, t, x)),
    ensures
        forall|x: int| #[trigger] covers(out, x) == (covers(pre1, x) && !between(f, t, x)),
{
    assert forall|x: int| #[trigger] covers(out, x) == (covers(pre1, x) && !between(f, t, x)) by {
        assert(covers(out, x) == (covers(before, x) || covers(added, x)));
        assert(covers(added, x) == (between(a, b, x) && !between(f, t, x)));
        assert(covers(pre1, x) == (covers(pre, x) || between(a, b, x)));
        assert(covers(before, x) == (covers(pre, x) && !between(f, t, x)));
    }
}

proof fn lemma_insert_step(out: Seq<(i64, i64)>, before: Seq<(i64, i64)>, added: Seq<(i64, i64)>,
    pre: Seq<(i64, i64)>, pre1: Seq<(i64, i64)>, a: i64, b: i64, f: i64, t: i64,
    placed0: bool, lo0: i64, hi0: i64, placed: bool, lo: i64, hi: i64)
    requires
        forall|x: int| #[trigger] covers(out, x) == (covers(before, x) || covers(added, x)),
        forall|x: int| #[trigger] covers(pre1, x) == (covers(pre, x) || between(a, b, x)),
        forall|x: int|
            #![trigger covers(pre, x)]
            (covers(before, x) || pending(placed0, lo0, hi0, x)) == (covers(pre, x) || between(f, t, x)),
        forall|x: int|
            #![trigger covers(added, x)]
            (covers(added, x) || pending(placed, lo, hi, x)) == (pending(placed0, lo0, hi0, x) || between(a, b, x)),
    ensures
        forall|x: int|
            #![trigger covers(pre1, x)]
            (covers(out, x) || pending(placed, lo, hi, x)) == (covers(pre1, x) || between(f, t, x)),
{
    assert forall|x: int| #![trigger covers(pre1, x)] (covers(out, x) || pending(placed, lo, hi, x)) == (covers(pre1, x) || between(f, t, x)) by {
        assert(covers(out, x) == (covers(before, x) || covers(added, x)));
        assert(covers(pre1, x) == (covers(pre, x) || between(a, b, x)));
        assert((covers(before, x) || pending(placed0, lo0, hi0, x)) == (covers(pre, x) || between(f, t, x)));
        assert((covers(added, x) || pending(placed, lo, hi, x)) == (pending(placed0, lo0, hi0, x) || between(a, b, x)));
    }
}

proof fn lemma_covers_empty(x: int)
    ensures
        !covers(Seq::<(i64, i64)>::empty(), x),
{
}

/// In separated intervals, every interval after `k` starts after `iv[k].1`.
proof fn lemma_separated_order(iv: Seq<(i64, i64)>, j: int, k: int)
    requires
        separated(iv),
        0 <= j < k < iv.len(),
    ensures
        iv[j].1 < iv[k].0,
    decreases k - j,
{
    if k > j + 1 {
        lemma_separated_order(iv, j, k - 1);
        assert(iv[k - 1].0 < iv[k - 1].1);
    }
}

/// A set of integers kept as intervals, answering for the smallest missing value in a range.
pub struct Mex {
    set: Vec<(i64, i64)>,
}

impl Mex {
    /// Whether `x` is in the set.
    pub closed spec fn contains(&self, x: int) -> bool {
        covers(self.set@, x)
    }

    pub closed spec fn wf(&self) -> bool {
        separated(self.set@)
    }

    /// The empty set.
    pub fn new() -> (r: Mex)
        ensures
            r.wf(),
            forall|x: int| !r.contains(x),
    {
        Mex { set: Vec::new() }
    }

    /// Removes every value in `[f, t)`.
    pub fn remove_range(&mut self, f: i64, t: i64)
        requires
            old(self).wf(),
            f < t,
        ensures
            final(self).wf(),
            forall|x: int| final(self).contains(x) == (old(self).contains(x) && !between(f, t, x)),
    {
        let ghost old_iv = self.set@;
        let mut out: Vec<(i64, i64)> = Vec::new();
        let mut k: usize = 0;
        while k < self.set.len()
            invariant
                self.set@ == old_iv,
                separated(old_iv),
                f < t,
                k <= old_iv.len(),
                separated(out@),
                out@.len() > 0 && k < old_iv.len() ==> out@[out@.len() - 1].1 < old_iv[k as int].0,
                forall|x: int| covers(out@, x) == (covers(old_iv.subrange(0, k as int), x) && !between(f, t, x)),
            decreases old_iv.len() - k,
        {
            let (a, b) = self.set[k];
            let ghost before = out@;
            if b <= f || a >= t {
                out.push((a, b));
            } else {
                if a < f {
                    out.push((a, f));
                }
                if t < b {
                    out.push((t, b));
                }
            }
            proof {
                let pre = old_iv.subrange(0, k as int);
                let pre1 = old_iv.subrange(0, k + 1);
                assert(pre1 =~= pre.push((a, b)));
                assert(old_iv[k as int] == (a, b));
                if k + 1 < old_iv.len() {
                    assert(b < old_iv[k + 1].0);
                }
                // what was appended, piece by piece
                let added: Seq<(i64, i64)> = if b <= f || a >= t {
                    seq![(a, b)]
                } else if a < f && t < b {
                    seq![(a, f), (t, b)]
                } else if a < f {
                    seq![(a, f)]
                } else if t < b {
                    seq![(t, b)]
                } else {
                    Seq::empty()
                };
                assert(out@ =~= before + added);
                assert forall|x: int| covers(added, x) == (between(a, b, x) && !between(f, t, x)) by {
                    if b <= f || a >= t {
                        lemma_covers_one((a, b), x);
                    } else if a < f && t < b {
                        lemma_covers_two((a, f), (t, b), x);
                    } else if a < f {
                        lemma_covers_one((a, f), x);
                    } else if t < b {
                        lemma_covers_one((t, b), x);
                    } else {
                        lemma_covers_empty(x);
                    }
                }
                assert forall|x: int| covers(out@, x) == (covers(before, x) || covers(added, x)) by {
                    lemma_covers_concat(before, added, x);
                }
                assert forall|x: int| covers(pre1, x) == (covers(pre, x) || between(a, b, x)) by {
                    if covers(pre1, x) {
                        let j = choose|j: int| 0 <= j < pre1.len() && pre1[j].0 <= x < #[trigger] pre1[j].1;
                        if j < k {
                            assert(pre[j] == pre1[j]);
                        }
                    }
                    if covers(pre, x) {
                        let j = choose|j: int| 0 <= j < pre.len() && pre[j].0 <= x < #[trigger] pre[j].1;
                        assert(pre1[j] == pre[j]);
                    }
                    if between(a, b, x) {
                        assert(pre1[k as int] == (a, b));
                    }
                }
                lemma_remove_step(out@, before, added, pre, pre1, a, b, f, t);
            }
            k = k + 1;
        }
        proof {
            assert(old_iv.subrange(0, old_iv.len() as int) =~= old_iv);
        }
        self.set = out;
    }

    /// Adds every value in `[f, t)`.
    pub fn insert_range(&mut self, f: i64, t: i64)
        requires
            old(self).wf(),
            f < t,
        ensures
            final(self).wf(),
            forall|x: int| final(self).contains(x) == (old(self).contains(x) || between(f, t, x)),
    {
        let ghost old_iv = self.set@;
        let mut out: Vec<(i64, i64)> = Vec::new();
        let mut lo: i64 = f;
        let mut hi: i64 = t;
        let mut placed = false;
        let mut k: usize = 0;
        while k < self.set.len()
            invariant
                self.set@ == old_iv,
                separated(old_iv),
                f < t,
                lo < hi,
                k <= old_iv.len(),
                separated(out@),
                out@.len() > 0 && k < old_iv.len() ==> out@[out@.len() - 1].1 < old_iv[k as int].0,
                !placed && out@.len() > 0 ==> out@[out@.len() - 1].1 < lo,
                placed ==> out@.len() > 0,
                forall|x: int|
                    #![trigger covers(old_iv.subrange(0, k as int), x)]
                    (covers(out@, x) || pending(placed, lo, hi, x)) == (covers(old_iv.subrange(0, k as int), x) || between(f, t, x)),
            decreases old_iv.len() - k,
        {
            let (a, b) = self.set[k];
            let ghost before = out@;
            let ghost lo0 = lo;
            let ghost hi0 = hi;
            let ghost placed0 = placed;
            proof {
                assert forall|x: int| (covers(before, x) || pending(placed0, lo0, hi0, x)) == (covers(old_iv.subrange(0, k as int), x) || between(f, t, x)) by {
                    assert((covers(out@, x) || pending(placed, lo, hi, x)) == (covers(old_iv.subrange(0, k as int), x) || between(f, t, x)));
                }
            }
            if placed {
                out.push((a, b));
            } else if b < lo {
                out.push((a, b));
            } else if a > hi {
                out.push((lo, hi));
                out.push((a, b));
                placed = true;
            } else {
                if a < lo {
                    lo = a;
                }
                if b > hi {
                    hi = b;
                }
            }
            proof {
                let pre = old_iv.subrange(0, k as int);
                let pre1 = old_iv.subrange(0, k + 1);
                assert(pre1 =~= pre.push((a, b)));
                assert(old_iv[k as int] == (a, b));
                if k + 1 < old_iv.len() {
                    assert(b < old_iv[k + 1].0);
                }
                let added: Seq<(i64, i64)> = if placed0 || b < lo0 {
                    seq![(a, b)]
                } else if a > hi0 {
                    seq![(lo0, hi0), (a, b)]
                } else {
                    Seq::empty()
                };
                assert(out@ =~= before + added);
                assert forall|x: int| covers(out@, x) == (covers(before, x) || covers(added, x)) by {
                    lemma_covers_concat(before, added, x);
                }
                assert forall|x: int| covers(added, x) == (
                    if placed0 || b < lo0 { between(a, b, x) }
                    else if a > hi0 { between(lo0, hi0, x) || between(a, b, x) }
                    else { false }) by {
                    if placed0 || b < lo0 {
                        lemma_covers_one((a, b), x);
                    } else if a > hi0 {
                        lemma_covers_two((lo0, hi0), (a, b), x);
                    } else {
                        lemma_covers_empty(x);
                    }
                }
                assert forall|x: int| covers(pre1, x) == (covers(pre, x) || between(a, b, x)) by {
                    if covers(pre1, x) {
                        let j = choose|j: int| 0 <= j < pre1.len() && pre1[j].0 <= x < #[trigger] pre1[j].1;
                        if j < k {
                            assert(pre[j] == pre1[j]);
                        }
                    }
                    if covers(pre, x) {
                        let j = choose|j: int| 0 <= j < pre.len() && pre[j].0 <= x < #[trigger] pre[j].1;
                        assert(pre1[j] == pre[j]);
                    }
                    if between(a, b, x) {
                        assert(pre1[k as int] == (a, b));
                    }
                }
                assert forall|x: int| #![trigger covers(added, x)] (covers(added, x) || pending(placed, lo, hi, x)) == (pending(placed0, lo0, hi0, x) || between(a, b, x)) by {
                    assert(covers(added, x) == (
                        if placed0 || b < lo0 { between(a, b, x) }
                        else if a > hi0 { between(lo0, hi0, x) || between(a, b, x) }
                        else { false }));
                }
                lemma_insert_step(out@, before, added, pre, pre1, a, b, f, t, placed0, lo0, hi0, placed, lo, hi);
                assert(pre1 == old_iv.subrange(0, (k + 1) as int));
                assert forall|x: int| #![trigger covers(old_iv.subrange(0, (k + 1) as int), x)]
                    (covers(out@, x) || pending(placed, lo, hi, x)) == (covers(old_iv.subrange(0, (k + 1) as int), x) || between(f, t, x)) by {
                    assert(covers(pre1, x) == covers(old_iv.subrange(0, (k + 1) as int), x));
                }
            }
            k = k + 1;
        }
        let ghost out_loop = out@;
        proof {
            assert(old_iv.subrange(0, old_iv.len() as int) =~= old_iv);
            assert forall|x: int| #![trigger covers(old_iv, x)]
                (covers(out_loop, x) || pending(placed, lo, hi, x)) == (covers(old_iv, x) || between(f, t, x)) by {
                assert((covers(out@, x) || pending(placed, lo, hi, x)) == (covers(old_iv.subrange(0, k as int), x) || between(f, t, x)));
            }
        }
        if !placed {
            out.push((lo, hi));
            proof {
                assert(out@ =~= out_loop + seq![(lo, hi)]);
                assert forall|x: int| covers(out@, x) == (covers(old_iv, x) || between(f, t, x)) by {
                    lemma_covers_concat(out_loop, seq![(lo, hi)], x);
                    lemma_covers_one((lo, hi), x);
                    assert((covers(out_loop, x) || pending(placed, lo, hi, x)) == (covers(old_iv, x) || between(f, t, x)));
                }
            }
        } else {
            proof {
                assert forall|x: int| covers(out@, x) == (covers(old_iv, x) || between(f, t, x)) by {
                    assert((covers(out_loop, x) || pending(placed, lo, hi, x)) == (covers(old_iv, x) || between(f, t, x)));
                }
            }
        }
        self.set = out;
    }

    /// Adds `x`.
    pub fn insert(&mut self, x: i64)
        requires
            old(self).wf(),
            x < i64::MAX,
        ensures
            final(self).wf(),
            forall|y: int| final(self).contains(y) == (old(self).contains(y) || y == x),
    {
        self.insert_range(x, x + 1);
    }

    /// Removes `x`.
    pub fn remove(&mut self, x: i64)
        requires
            old(self).wf(),
            x < i64::MAX,
        ensures
            final(self).wf(),
            forall|y: int| final(self).contains(y) == (old(self).contains(y) && y != x),
    {
        self.remove_range(x, x + 1);
    }

    /// The smallest value in `[f, t)` that is not in the set, or `None` when
    /// there is none.
    pub fn mex(&self, f: i64, t: i64) -> (r: Option<i64>)
        requires
            self.wf(),
        ensures
            r matches Some(y) ==> f <= y < t && !self.contains(y as int) && forall|z: int| f <= z < y ==> #[trigger] self.contains(z),
            r is None ==> forall|z: int| f <= z < t ==> #[trigger] self.contains(z),
    {
        if f >= t {
            return None;
        }
        let mut y: i64 = f;
        let mut k: usize = 0;
        while k < self.set.len()
            invariant
                separated(self.set@),
                f <= y,
                k <= self.set@.len(),
                forall|z: int| f <= z < y ==> #[trigger] covers(self.set@, z),
                forall|j: int| 0 <= j < k ==> !(self.set@[j].0 <= y < #[trigger] self.set@[j].1),
            decreases self.set@.len() - k,
        {
            let (a, b) = self.set[k];
            if a <= y && y < b {
                proof {
                    assert forall|z: int| f <= z < b implies #[trigger] covers(self.set@, z) by {
                        if z >= y {
                            assert(self.set@[k as int].0 <= z < self.set@[k as int].1);
                        }
                    }
                    assert forall|j: int| 0 <= j < k implies !(self.set@[j].0 <= b < #[trigger] self.set@[j].1) by {
                        lemma_separated_order(self.set@, j, k as int);
                    }
                }
                y = b;
            }
            k = k + 1;
        }
        proof {
            if !(y >= t) {
                assert(!covers(self.set@, y as int)) by {
                    if covers(self.set@, y as int) {
                        let j = choose|j: int| 0 <= j < self.set@.len() && self.set@[j].0 <= y < #[trigger] self.set@[j].1;
                    }
                }
            }
        }
        if y >= t {
            None
        } else {
            Some(y)
        }
    }
}

impl Default for Mex {
    fn default() -> (r: Mex)
        ensures
            r.wf(),
            forall|x: int| !r.contains(x),
    {
        Mex::new()
    }
}

} // verus!
