use vstd::prelude::*;

verus! {

broadcast use vstd::seq_lib::to_multiset_update;

/// `s` is in non-decreasing order.
pub open spec fn sorted(s: Seq<i64>) -> bool {
    forall|i: int, j: int| 0 <= i <= j < s.len() ==> s[i] <= s[j]
}

/// `b` comes after `a` in lexicographic order: they agree up to some
/// position, where `b` holds the larger value.
pub open spec fn lex_greater(b: Seq<i64>, a: Seq<i64>) -> bool {
    exists|p: int|
        0 <= p < a.len() && p < b.len() && b[p] > a[p] && forall|i: int|
            0 <= i < p ==> #[trigger] b[i] == a[i]
}

/// Binary search in a sorted vector.
pub trait BSearch<T> {
    /// The number of elements less than `k`.
    fn lower_bound(&self, k: T) -> usize;

    /// The number of elements not greater than `k`.
    fn upper_bound(&self, k: T) -> usize;
}

impl BSearch<i64> for Vec<i64> {
    fn lower_bound(&self, k: i64) -> (r: usize)
        ensures
            r <= self@.len(),
            sorted(self@) ==> (forall|i: int| 0 <= i < r ==> #[trigger] self@[i] < k) && (forall|
                i: int,
            |
                r <= i < self@.len() ==> #[trigger] self@[i] >= k),
    {
        if self.len() == 0 {
            return 0;
        }
        let mut from: usize = 0;
        let mut to: usize = self.len();
        while to - from > 1
            invariant
                from < to <= self@.len(),
                sorted(self@) ==> from == 0 || self@[from as int] < k,
                sorted(self@) ==> to == self@.len() || self@[to as int] >= k,
            decreases to - from,
        {
            let mid = from + (to - from) / 2;
            if self[mid] < k {
                from = mid;
            } else {
                to = mid;
            }
        }
        if self[from] < k {
            to
        } else {
            from
        }
    }

    fn upper_bound(&self, k: i64) -> (r: usize)
        ensures
            r <= self@.len(),
            sorted(self@) ==> (forall|i: int| 0 <= i < r ==> #[trigger] self@[i] <= k) && (forall|
                i: int,
            |
                r <= i < self@.len() ==> #[trigger] self@[i] > k),
    {
        if self.len() == 0 {
            return 0;
        }
        let mut from: usize = 0;
        let mut to: usize = self.len();
        while to - from > 1
            invariant
                from < to <= self@.len(),
                sorted(self@) ==> from == 0 || self@[from as int] <= k,
                sorted(self@) ==> to == self@.len() || self@[to as int] > k,
            decreases to - from,
        {
            let mid = from + (to - from) / 2;
            if self[mid] <= k {
                from = mid;
            } else {
                to = mid;
            }
        }
        if self[from] > k {
            from
        } else {
            to
        }
    }
}

proof fn lemma_swap_multiset(s: Seq<i64>, i: int, j: int)
    requires
        0 <= i < s.len(),
        0 <= j < s.len(),
    ensures
        s.update(i, s[j]).update(j, s[i]).to_multiset() =~= s.to_multiset(),
{
    broadcast use vstd::multiset::group_multiset_axioms, vstd::seq_lib::to_multiset_contains;

    if i != j {
        let m = s.to_multiset();
        let s1 = s.update(i, s[j]);
        assert(s1.to_multiset() == m.insert(s[j]).remove(s[i]));
        assert(s1[j] == s[j]);
        assert(s1.update(j, s[i]).to_multiset() == s1.to_multiset().insert(s[i]).remove(s[j]));
        assert(m.count(s[i]) > 0);
        assert(m.count(s[j]) > 0);
        assert(m.insert(s[j]).remove(s[i]).insert(s[i]).remove(s[j]) =~= m);
    } else {
        assert(s.update(i, s[j]).update(j, s[i]) =~= s);
    }
}

/// Swaps two elements.
fn swap_at(v: &mut Vec<i64>, i: usize, j: usize)
    requires
        i < old(v)@.len(),
        j < old(v)@.len(),
    ensures
        final(v)@ == old(v)@.update(i as int, old(v)@[j as int]).update(j as int, old(v)@[i as int]),
        final(v)@.to_multiset() == old(v)@.to_multiset(),
{
    let a = v[i];
    let b = v[j];
    proof {
        lemma_swap_multiset(v@, i as int, j as int);
    }
    v.set(i, b);
    v.set(j, a);
}

/// Reverses the elements from position `from` to the end.
fn reverse_from(v: &mut Vec<i64>, from: usize)
    requires
        from <= old(v)@.len(),
    ensures
        final(v)@.len() == old(v)@.len(),
        final(v)@.to_multiset() == old(v)@.to_multiset(),
        forall|i: int| 0 <= i < from ==> #[trigger] final(v)@[i] == old(v)@[i],
        forall|i: int| from <= i < old(v)@.len() ==> #[trigger] final(v)@[i] == old(v)@[from + old(v)@.len() - 1 - i],
{
    if v.len() == 0 {
        return;
    }
    let ghost n = v@.len() as int;
    let mut i: usize = from;
    let mut j: usize = v.len() - 1;
    while i < j
        invariant
            from <= i,
            j < v@.len(),
            v@.len() == n,
            n == old(v)@.len(),
            i + j == from + n - 1,
            v@.to_multiset() == old(v)@.to_multiset(),
            forall|k: int| 0 <= k < from ==> #[trigger] v@[k] == old(v)@[k],
            forall|k: int| i <= k <= j ==> #[trigger] v@[k] == old(v)@[k],
            forall|k: int| (from <= k < i || j < k < n) ==> #[trigger] v@[k] == old(v)@[from + n - 1 - k],
        decreases j + 1 - i,
    {
        swap_at(v, i, j);
        i = i + 1;
        j = j - 1;
    }
}

/// Sequences with equal multisets that agree before `q` have equal
/// multisets from `q` on.
proof fn lemma_suffix_multiset(a: Seq<i64>, b: Seq<i64>, q: int)
    requires
        0 <= q <= a.len(),
        a.len() == b.len(),
        a.to_multiset() == b.to_multiset(),
        forall|i: int| 0 <= i < q ==> a[i] == b[i],
    ensures
        a.subrange(q, a.len() as int).to_multiset() == b.subrange(q, b.len() as int).to_multiset(),
{
    broadcast use vstd::multiset::group_multiset_axioms;

    let (pa, sa) = (a.subrange(0, q), a.subrange(q, a.len() as int));
    let (pb, sb) = (b.subrange(0, q), b.subrange(q, b.len() as int));
    assert(a =~= pa + sa);
    assert(b =~= pb + sb);
    assert(pa =~= pb);
    vstd::seq_lib::lemma_multiset_commutative(pa, sa);
    vstd::seq_lib::lemma_multiset_commutative(pb, sb);
    assert forall|x: i64| sa.to_multiset().count(x) == sb.to_multiset().count(x) by {
        assert(a.to_multiset().count(x) == pa.to_multiset().count(x) + sa.to_multiset().count(x));
        assert(b.to_multiset().count(x) == pb.to_multiset().count(x) + sb.to_multiset().count(x));
    }
    assert(sa.to_multiset() =~= sb.to_multiset());
}

/// An element of `t` occurs in `s` when both have the same multiset.
proof fn lemma_member(s: Seq<i64>, t: Seq<i64>, i: int) -> (j: int)
    requires
        s.to_multiset() == t.to_multiset(),
        0 <= i < t.len(),
    ensures
        0 <= j < s.len(),
        s[j] == t[i],
{
    broadcast use vstd::seq_lib::to_multiset_contains;

    assert(t.contains(t[i]));
    assert(t.to_multiset().count(t[i]) > 0);
    assert(s.to_multiset().count(t[i]) > 0);
    assert(s.contains(t[i]));
    choose|j: int| 0 <= j < s.len() && s[j] == t[i]
}

/// A non-decreasing sequence comes first among the arrangements of its elements.
proof fn lemma_sorted_is_least(s: Seq<i64>, t: Seq<i64>)
    requires
        sorted(s),
        s.len() == t.len(),
        s.to_multiset() == t.to_multiset(),
    ensures
        !lex_greater(s, t),
{
    if lex_greater(s, t) {
        let q = choose|q: int|
            0 <= q < t.len() && q < s.len() && s[q] > t[q] && forall|i: int| 0 <= i < q ==> #[trigger] s[i] == t[i];
        lemma_suffix_multiset(s, t, q);
        let ss = s.subrange(q, s.len() as int);
        let ts = t.subrange(q, t.len() as int);
        let j = lemma_member(ss, ts, 0);
        assert(ss[j] == s[q + j]);
        assert(s[q] <= s[q + j]);
    }
}

/// The arrangement that `next_permutation` builds is the least one above `old`.
proof fn lemma_next_is_adjacent(old: Seq<i64>, new: Seq<i64>, p: int, sw: int, w: Seq<i64>)
    requires
        0 <= p < sw < old.len(),
        new.len() == old.len(),
        w.len() == old.len(),
        new.to_multiset() == old.to_multiset(),
        w.to_multiset() == old.to_multiset(),
        forall|i: int| 0 <= i < p ==> #[trigger] new[i] == old[i],
        new[p] == old[sw],
        old[sw] > old[p],
        forall|i: int, j: int| p < i <= j < old.len() ==> old[i] >= old[j],
        forall|k: int| p < k < old.len() && #[trigger] old[k] > old[p] ==> old[k] >= old[sw],
        sorted(new.subrange(p + 1, new.len() as int)),
        lex_greater(w, old),
    ensures
        !lex_greater(new, w),
{
    let q = choose|q: int|
        0 <= q < old.len() && q < w.len() && w[q] > old[q] && forall|i: int| 0 <= i < q ==> #[trigger] w[i] == old[i];
    if lex_greater(new, w) {
        let q2 = choose|q2: int|
            0 <= q2 < w.len() && q2 < new.len() && new[q2] > w[q2] && forall|i: int| 0 <= i < q2 ==> #[trigger] new[i] == w[i];
        if q < p {
            if q2 < q {
                assert(new[q2] == old[q2] && w[q2] == old[q2]);
            } else if q2 == q {
                assert(new[q] == old[q]);
            } else {
                assert(new[q] == w[q]);
                assert(new[q] == old[q]);
            }
        } else if q > p {
            lemma_suffix_multiset(w, old, q);
            let ws = w.subrange(q, w.len() as int);
            let os = old.subrange(q, old.len() as int);
            let j = lemma_member(os, ws, 0);
            assert(os[j] == old[q + j]);
            assert(old[q] >= old[q + j]);
        } else {
            lemma_suffix_multiset(w, old, p);
            let ws = w.subrange(p, w.len() as int);
            let os = old.subrange(p, old.len() as int);
            let j = lemma_member(os, ws, 0);
            assert(os[j] == old[p + j]);
            assert(j > 0);
            assert(old[p + j] > old[p]);
            assert(w[p] >= new[p]);
            if q2 < p {
                assert(new[q2] == old[q2] && w[q2] == old[q2]);
            } else if q2 == p {
            } else {
                assert(new[p] == w[p]);
                assert forall|i: int| 0 <= i < p + 1 implies new[i] == w[i] by {
                    if i < p {
                        assert(new[i] == old[i] && w[i] == old[i]);
                    }
                }
                lemma_suffix_multiset(new, w, p + 1);
                let ns = new.subrange(p + 1, new.len() as int);
                let ws2 = w.subrange(p + 1, w.len() as int);
                lemma_sorted_is_least(ns, ws2);
                assert(ns[q2 - p - 1] > ws2[q2 - p - 1]);
                assert forall|i: int| 0 <= i < q2 - p - 1 implies #[trigger] ns[i] == ws2[i] by {
                    assert(new[p + 1 + i] == w[p + 1 + i]);
                }
                assert(lex_greater(ns, ws2));
            }
        }
    }
}

/// Adjacent steps that never increase give a sequence that never increases.
proof fn lemma_non_increasing(s: Seq<i64>, lo: int, i: int, j: int)
    requires
        0 <= lo <= i <= j < s.len(),
        forall|k: int| lo <= k < s.len() - 1 ==> #[trigger] s[k] >= s[k + 1],
    ensures
        s[i] >= s[j],
    decreases j - i,
{
    if i < j {
        lemma_non_increasing(s, lo, i + 1, j);
    }
}

/// Rearranges `v` into the next permutation in lexicographic order. When `v`
/// is already the last one (non-increasing) it is left as it is and `false`
/// is returned.
pub fn next_permutation(v: &mut Vec<i64>) -> (r: bool)
    ensures
        final(v)@.to_multiset() == old(v)@.to_multiset(),
        final(v)@.len() == old(v)@.len(),
        !r <==> forall|i: int| 0 <= i < old(v)@.len() - 1 ==> #[trigger] old(v)@[i] >= old(v)@[i + 1],
        !r ==> final(v)@ == old(v)@,
        r ==> lex_greater(final(v)@, old(v)@),
        r ==> forall|w: Seq<i64>|
            w.len() == old(v)@.len() && w.to_multiset() == old(v)@.to_multiset() && #[trigger] lex_greater(w, old(v)@)
                ==> !lex_greater(final(v)@, w),
{
    if v.len() == 0 {
        return false;
    }
    let mut pivot: usize = v.len() - 1;
    while pivot > 0
        invariant
            pivot < v@.len(),
            v@ == old(v)@,
            forall|i: int| pivot <= i < v@.len() - 1 ==> #[trigger] v@[i] >= v@[i + 1],
        ensures
            pivot < v@.len(),
            v@ == old(v)@,
            forall|i: int| pivot <= i < v@.len() - 1 ==> #[trigger] v@[i] >= v@[i + 1],
            pivot == 0 || v@[pivot as int] > v@[pivot - 1],
        decreases pivot,
    {
        if v[pivot] > v[pivot - 1] {
            break;
        }
        pivot = pivot - 1;
    }
    if pivot == 0 {
        return false;
    }
    let p = pivot - 1;
    let mut s: usize = v.len() - 1;
    while v[p] >= v[s]
        invariant
            p < s < v@.len(),
            v@ == old(v)@,
            v@[p + 1] > v@[p as int],
            forall|k: int| s < k < v@.len() ==> #[trigger] v@[k] <= v@[p as int],
        decreases s,
    {
        s = s - 1;
    }
    let ghost orig = v@;
    swap_at(v, p, s);
    let ghost v1 = v@;
    reverse_from(v, p + 1);
    assert(v@[p as int] > orig[p as int]);
    assert(forall|i: int| 0 <= i < p ==> #[trigger] v@[i] == orig[i]);
    proof {
        let n = orig.len() as int;
        assert forall|i: int, j: int| p < i <= j < n implies orig[i] >= orig[j] by {
            lemma_non_increasing(orig, p + 1, i, j);
        }
        assert forall|k: int| p < k < n && #[trigger] orig[k] > orig[p as int] implies orig[k] >= orig[s as int] by {
            if k > s {
                assert(orig[k] <= orig[p as int]);
            }
        }
        assert forall|i: int, j: int| p < i <= j < n implies v1[i] >= v1[j] by {
            if i == s {
                if j > s {
                    assert(orig[j] <= orig[p as int]);
                }
            } else if j == s {
                assert(orig[i] >= orig[s as int]);
            }
        }
        let sub = v@.subrange(p + 1, n);
        assert forall|a: int, b: int| 0 <= a <= b < sub.len() implies sub[a] <= sub[b] by {
            assert(sub[a] == v@[p + 1 + a]);
            assert(sub[b] == v@[p + 1 + b]);
            assert(v@[p + 1 + a] == v1[n - 1 - a]);
            assert(v@[p + 1 + b] == v1[n - 1 - b]);
        }
        assert forall|w: Seq<i64>|
            w.len() == orig.len() && w.to_multiset() == orig.to_multiset() && #[trigger] lex_greater(w, orig)
                implies !lex_greater(v@, w) by {
            lemma_next_is_adjacent(orig, v@, p as int, s as int, w);
        }
    }
    true
}

/// Adjacent steps that never decrease give a sequence that never decreases.
proof fn lemma_non_decreasing(s: Seq<i64>, lo: int, i: int, j: int)
    requires
        0 <= lo <= i <= j < s.len(),
        forall|k: int| lo <= k < s.len() - 1 ==> #[trigger] s[k] <= s[k + 1],
    ensures
        s[i] <= s[j],
    decreases j - i,
{
    if i < j {
        lemma_non_decreasing(s, lo, i + 1, j);
    }
}

/// A non-increasing sequence comes last among the arrangements of its elements.
proof fn lemma_descending_is_greatest(s: Seq<i64>, t: Seq<i64>)
    requires
        forall|i: int, j: int| 0 <= i <= j < s.len() ==> s[i] >= s[j],
        s.len() == t.len(),
        s.to_multiset() == t.to_multiset(),
    ensures
        !lex_greater(t, s),
{
    if lex_greater(t, s) {
        let q = choose|q: int|
            0 <= q < s.len() && q < t.len() && t[q] > s[q] && forall|i: int| 0 <= i < q ==> #[trigger] t[i] == s[i];
        lemma_suffix_multiset(s, t, q);
        let ss = s.subrange(q, s.len() as int);
        let ts = t.subrange(q, t.len() as int);
        let j = lemma_member(ss, ts, 0);
        assert(ss[j] == s[q + j]);
        assert(s[q] >= s[q + j]);
    }
}

/// The arrangement that `prev_permutation` builds is the greatest one below `old`.
proof fn lemma_prev_is_adjacent(old: Seq<i64>, new: Seq<i64>, p: int, sw: int, w: Seq<i64>)
    requires
        0 <= p < sw < old.len(),
        new.len() == old.len(),
        w.len() == old.len(),
        new.to_multiset() == old.to_multiset(),
        w.to_multiset() == old.to_multiset(),
        forall|i: int| 0 <= i < p ==> #[trigger] new[i] == old[i],
        new[p] == old[sw],
        old[sw] < old[p],
        forall|i: int, j: int| p < i <= j < old.len() ==> old[i] <= old[j],
        forall|k: int| p < k < old.len() && #[trigger] old[k] < old[p] ==> old[k] <= old[sw],
        forall|a: int, b: int| p < a <= b < new.len() ==> new[a] >= new[b],
        lex_greater(old, w),
    ensures
        !lex_greater(w, new),
{
    let q = choose|q: int|
        0 <= q < w.len() && q < old.len() && old[q] > w[q] && forall|i: int| 0 <= i < q ==> #[trigger] old[i] == w[i];
    if lex_greater(w, new) {
        let q2 = choose|q2: int|
            0 <= q2 < new.len() && q2 < w.len() && w[q2] > new[q2] && forall|i: int| 0 <= i < q2 ==> #[trigger] w[i] == new[i];
        if q < p {
            if q2 < q {
                assert(new[q2] == old[q2] && w[q2] == old[q2]);
            } else if q2 == q {
                assert(new[q] == old[q]);
            } else {
                assert(new[q] == w[q]);
                assert(new[q] == old[q]);
            }
        } else if q > p {
            lemma_suffix_multiset(w, old, q);
            let ws = w.subrange(q, w.len() as int);
            let os = old.subrange(q, old.len() as int);
            let j = lemma_member(os, ws, 0);
            assert(os[j] == old[q + j]);
            assert(old[q] <= old[q + j]);
        } else {
            lemma_suffix_multiset(w, old, p);
            let ws = w.subrange(p, w.len() as int);
            let os = old.subrange(p, old.len() as int);
            let j = lemma_member(os, ws, 0);
            assert(os[j] == old[p + j]);
            assert(j > 0);
            assert(old[p + j] < old[p]);
            assert(w[p] <= new[p]);
            if q2 < p {
                assert(new[q2] == old[q2] && w[q2] == old[q2]);
            } else if q2 == p {
            } else {
                assert(new[p] == w[p]);
                assert forall|i: int| 0 <= i < p + 1 implies new[i] == w[i] by {
                    if i < p {
                        assert(new[i] == old[i] && w[i] == old[i]);
                    }
                }
                lemma_suffix_multiset(new, w, p + 1);
                let ns = new.subrange(p + 1, new.len() as int);
                let ws2 = w.subrange(p + 1, w.len() as int);
                assert forall|a: int, b: int| 0 <= a <= b < ns.len() implies ns[a] >= ns[b] by {
                    assert(ns[a] == new[p + 1 + a] && ns[b] == new[p + 1 + b]);
                }
                lemma_descending_is_greatest(ns, ws2);
                assert(ws2[q2 - p - 1] > ns[q2 - p - 1]);
                assert forall|i: int| 0 <= i < q2 - p - 1 implies #[trigger] ws2[i] == ns[i] by {
                    assert(new[p + 1 + i] == w[p + 1 + i]);
                }
                assert(lex_greater(ws2, ns));
            }
        }
    }
}

/// Rearranges `v` into the previous permutation in lexicographic order. When
/// `v` is already the first one (non-decreasing) it is left as it is and
/// `false` is returned.
pub fn prev_permutation(v: &mut Vec<i64>) -> (r: bool)
    ensures
        final(v)@.to_multiset() == old(v)@.to_multiset(),
        final(v)@.len() == old(v)@.len(),
        !r <==> forall|i: int| 0 <= i < old(v)@.len() - 1 ==> #[trigger] old(v)@[i] <= old(v)@[i + 1],
        !r ==> final(v)@ == old(v)@,
        r ==> lex_greater(old(v)@, final(v)@),
        r ==> forall|w: Seq<i64>|
            w.len() == old(v)@.len() && w.to_multiset() == old(v)@.to_multiset() && #[trigger] lex_greater(old(v)@, w)
                ==> !lex_greater(w, final(v)@),
{
    if v.len() == 0 {
        return false;
    }
    let mut pivot: usize = v.len() - 1;
    while pivot > 0
        invariant
            pivot < v@.len(),
            v@ == old(v)@,
            forall|i: int| pivot <= i < v@.len() - 1 ==> #[trigger] v@[i] <= v@[i + 1],
        ensures
            pivot < v@.len(),
            v@ == old(v)@,
            forall|i: int| pivot <= i < v@.len() - 1 ==> #[trigger] v@[i] <= v@[i + 1],
            pivot == 0 || v@[pivot as int] < v@[pivot - 1],
        decreases pivot,
    {
        if v[pivot] < v[pivot - 1] {
            break;
        }
        pivot = pivot - 1;
    }
    if pivot == 0 {
        return false;
    }
    let p = pivot - 1;
    let mut s: usize = v.len() - 1;
    while v[p] <= v[s]
        invariant
            p < s < v@.len(),
            v@ == old(v)@,
            v@[p + 1] < v@[p as int],
            forall|k: int| s < k < v@.len() ==> #[trigger] v@[k] >= v@[p as int],
        decreases s,
    {
        s = s - 1;
    }
    let ghost orig = v@;
    swap_at(v, p, s);
    let ghost v1 = v@;
    reverse_from(v, p + 1);
    assert(v@[p as int] < orig[p as int]);
    assert(forall|i: int| 0 <= i < p ==> #[trigger] v@[i] == orig[i]);
    proof {
        let n = orig.len() as int;
        assert forall|i: int, j: int| p < i <= j < n implies orig[i] <= orig[j] by {
            lemma_non_decreasing(orig, p + 1, i, j);
        }
        assert forall|k: int| p < k < n && #[trigger] orig[k] < orig[p as int] implies orig[k] <= orig[s as int] by {
            if k > s {
                assert(orig[k] >= orig[p as int]);
            }
        }
        assert forall|i: int, j: int| p < i <= j < n implies v1[i] <= v1[j] by {
            if i == s {
                if j > s {
                    assert(orig[j] >= orig[p as int]);
                }
            } else if j == s {
                assert(orig[i] <= orig[s as int]);
            }
        }
        assert forall|a: int, b: int| p < a <= b < n implies v@[a] >= v@[b] by {
            assert(v@[a] == v1[p + 1 + n - 1 - a]);
            assert(v@[b] == v1[p + 1 + n - 1 - b]);
        }
        assert forall|w: Seq<i64>|
            w.len() == orig.len() && w.to_multiset() == orig.to_multiset() && #[trigger] lex_greater(orig, w)
                implies !lex_greater(w, v@) by {
            lemma_prev_is_adjacent(orig, v@, p as int, s as int, w);
        }
    }
    true
}

/// `s` is in strictly increasing order.
pub open spec fn strictly_sorted(s: Seq<i64>) -> bool {
    forall|i: int, j: int| 0 <= i < j < s.len() ==> s[i] < s[j]
}

/// `u` holds the distinct values of `s` in increasing order.
pub open spec fn distinct_sorted_values(u: Seq<i64>, s: Seq<i64>) -> bool {
    &&& strictly_sorted(u)
    &&& forall|y: i64| u.contains(y) <==> s.contains(y)
}

/// The number of elements of `u` below `x`.
pub open spec fn count_less(u: Seq<i64>, x: i64) -> nat
    decreases u.len(),
{
    if u.len() == 0 {
        0
    } else {
        count_less(u.drop_last(), x) + if u.last() < x {
            1nat
        } else {
            0nat
        }
    }
}

/// In a sorted sequence split at `k` into elements below `x` and the rest,
/// `count_less` is `k`.
proof fn lemma_count_less_split(u: Seq<i64>, x: i64, k: int)
    requires
        0 <= k <= u.len(),
        forall|i: int| 0 <= i < k ==> #[trigger] u[i] < x,
        forall|i: int| k <= i < u.len() ==> #[trigger] u[i] >= x,
    ensures
        count_less(u, x) == k,
    decreases u.len(),
{
    if u.len() > 0 {
        let d = u.drop_last();
        if k == u.len() {
            lemma_count_less_split(d, x, k - 1);
        } else {
            lemma_count_less_split(d, x, k);
        }
    }
}

/// A prefix one longer holds what the shorter one holds and the new element.
proof fn lemma_prefix_contains(s: Seq<i64>, k: int, y: i64)
    requires
        0 <= k < s.len(),
    ensures
        s.subrange(0, k + 1).contains(y) <==> (s.subrange(0, k).contains(y) || s[k] == y),
{
    if s.subrange(0, k + 1).contains(y) {
        let t = choose|t: int| 0 <= t < k + 1 && #[trigger] s.subrange(0, k + 1)[t] == y;
        if t < k {
            assert(s.subrange(0, k)[t] == y);
        }
    }
    if s.subrange(0, k).contains(y) {
        let t = choose|t: int| 0 <= t < k && #[trigger] s.subrange(0, k)[t] == y;
        assert(s.subrange(0, k + 1)[t] == y);
    }
    if s[k] == y {
        assert(s.subrange(0, k + 1)[k] == y);
    }
}

/// Replaces each value by `start + step * r`, where `r` is the number of
/// distinct values of `v` below it.
pub fn seq_compress(v: &mut Vec<i64>, start: i64, step: i64)
    requires
        old(v)@.len() <= i64::MAX,
        forall|j: int| 0 <= j < old(v)@.len() ==> i64::MIN <= #[trigger] (step * j) <= i64::MAX && i64::MIN
            <= start + step * j <= i64::MAX,
    ensures
        final(v)@.len() == old(v)@.len(),
        exists|u: Seq<i64>|
            #[trigger] distinct_sorted_values(u, old(v)@) && forall|i: int|
                0 <= i < old(v)@.len() ==> #[trigger] final(v)@[i] == start + step * count_less(u, old(v)@[i]),
{
    let ghost orig = v@;
    let mut u: Vec<i64> = Vec::new();
    let mut k: usize = 0;
    while k < v.len()
        invariant
            v@ == orig,
            k <= v@.len(),
            u@.len() <= k,
            strictly_sorted(u@),
            forall|y: i64| u@.contains(y) <==> orig.subrange(0, k as int).contains(y),
        decreases v@.len() - k,
    {
        let x = v[k];
        let pos = u.lower_bound(x);
        let ghost before = u@;
        proof {
            assert(sorted(u@));
        }
        if pos == u.len() || u[pos] != x {
            u.insert(pos, x);
            proof {
                assert forall|i: int, j: int| 0 <= i < j < u@.len() implies u@[i] < u@[j] by {
                    if j < pos {
                    } else if i > pos {
                        assert(u@[i] == before[i - 1] && u@[j] == before[j - 1]);
                    } else if i == pos {
                        assert(u@[j] == before[j - 1]);
                        assert(before[j - 1] >= x);
                    } else {
                        if j != pos {
                            assert(u@[j] == before[j - 1]);
                        }
                    }
                }
                assert forall|y: i64| u@.contains(y) <==> orig.subrange(0, k + 1).contains(y) by {
                    lemma_prefix_contains(orig, k as int, y);
                    if u@.contains(y) {
                        let t = choose|t: int| 0 <= t < u@.len() && #[trigger] u@[t] == y;
                        if t != pos {
                            let t2 = if t < pos { t } else { t - 1 };
                            assert(before[t2] == y);
                            assert(before.contains(y));
                        }
                    }
                    if orig.subrange(0, k as int).contains(y) {
                        assert(before.contains(y));
                        let t = choose|t: int| 0 <= t < before.len() && #[trigger] before[t] == y;
                        let t2 = if t < pos { t } else { t + 1 };
                        assert(u@[t2] == y);
                    }
                    if y == x {
                        assert(u@[pos as int] == x);
                    }
                }
            }
        } else {
            proof {
                assert forall|y: i64| u@.contains(y) <==> orig.subrange(0, k + 1).contains(y) by {
                    lemma_prefix_contains(orig, k as int, y);
                    if y == x {
                        assert(u@[pos as int] == x);
                    }
                }
            }
        }
        k = k + 1;
    }
    proof {
        assert(orig.subrange(0, orig.len() as int) =~= orig);
    }
    let ghost uu = u@;
    let mut i: usize = 0;
    while i < v.len()
        invariant
            u@ == uu,
            distinct_sorted_values(uu, orig),
            uu.len() <= orig.len(),
            orig.len() <= i64::MAX,
            v@.len() == orig.len(),
            i <= v@.len(),
            forall|j: int| 0 <= j < orig.len() ==> i64::MIN <= #[trigger] (step * j) <= i64::MAX && i64::MIN
                <= start + step * j <= i64::MAX,
            forall|t: int| i <= t < v@.len() ==> #[trigger] v@[t] == orig[t],
            forall|t: int| 0 <= t < i ==> #[trigger] v@[t] == start + step * count_less(uu, orig[t]),
        decreases v@.len() - i,
    {
        let x = v[i];
        proof {
            assert(orig[i as int] == x);
            assert(orig.contains(x));
            assert(sorted(u@));
        }
        let pos = u.lower_bound(x);
        proof {
            lemma_count_less_split(uu, x, pos as int);
            assert(i64::MIN <= step * (pos as int) <= i64::MAX);
        }
        let nv = start + step * (pos as i64);
        v.set(i, nv);
        i = i + 1;
    }
    proof {
        assert(distinct_sorted_values(uu, orig));
    }
}

} // verus!
