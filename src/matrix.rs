use vstd::prelude::*;

verus! {

/// `v` viewed as a sequence of rows.
pub open spec fn rows_of(v: Seq<Vec<i64>>) -> Seq<Seq<i64>> {
    v.map_values(|r: Vec<i64>| r@)
}

/// `a[i][0] b[0][j] + ... + a[i][k - 1] b[k - 1][j]`.
pub open spec fn dot_upto(a: Seq<Seq<i64>>, b: Seq<Seq<i64>>, i: int, j: int, k: int) -> int
    decreases k,
{
    if k <= 0 {
        0
    } else {
        dot_upto(a, b, i, j, k - 1) + a[i][k - 1] * b[k - 1][j]
    }
}

proof fn lemma_rows_of_index(v: Seq<Vec<i64>>, k: int)
    requires
        0 <= k < v.len(),
    ensures
        rows_of(v)[k] == v[k]@,
        rows_of(v).len() == v.len(),
{
}

/// A row of `w` copies of `init`.
pub open spec fn filled_row(w: nat, init: i64) -> Seq<i64> {
    Seq::new(w, |j: int| init)
}

/// A matrix stored by rows.
#[derive(Debug, Clone, PartialEq)]
pub struct Matrix<T> {
    v: Vec<Vec<T>>,
}

/// A copy of a row.
fn copy_row(r: &Vec<i64>) -> (c: Vec<i64>)
    ensures
        c@ == r@,
{
    let mut c: Vec<i64> = Vec::new();
    let mut j: usize = 0;
    while j < r.len()
        invariant
            j <= r@.len(),
            c@ == r@.subrange(0, j as int),
        decreases r@.len() - j,
    {
        c.push(r[j]);
        j = j + 1;
        assert(c@ =~= r@.subrange(0, j as int));
    }
    assert(c@ =~= r@);
    c
}

impl Matrix<i64> {
    /// The entries, row by row.
    pub closed spec fn rows(&self) -> Seq<Seq<i64>> {
        rows_of(self.v@)
    }

    /// Every row has the length of the first.
    pub open spec fn rectangular(&self) -> bool {
        forall|i: int| 0 <= i < self.rows().len() ==> #[trigger] self.rows()[i].len() == self.rows()[0].len()
    }

    /// An `h` by `w` matrix filled with `init`.
    pub fn new(h: usize, w: usize, init: i64) -> (r: Matrix<i64>)
        ensures
            r.rows() == Seq::new(h as nat, |i: int| filled_row(w as nat, init)),
    {
        let mut v: Vec<Vec<i64>> = Vec::new();
        let mut i: usize = 0;
        while i < h
            invariant
                i <= h,
                v@.len() == i,
                rows_of(v@) =~= Seq::new(i as nat, |k: int| filled_row(w as nat, init)),
            decreases h - i,
        {
            let mut row: Vec<i64> = Vec::new();
            let mut j: usize = 0;
            while j < w
                invariant
                    j <= w,
                    row@ =~= filled_row(j as nat, init),
                decreases w - j,
            {
                row.push(init);
                j = j + 1;
            }
            let ghost prev = v@;
            assert(row@ =~= filled_row(w as nat, init));
            let ghost rv = row@;
            v.push(row);
            proof {
                assert(v@ == prev.push(row));
                assert forall|k: int| 0 <= k < i + 1 implies #[trigger] rows_of(v@)[k] == filled_row(w as nat, init) by {
                    lemma_rows_of_index(v@, k);
                    if k < i {
                        lemma_rows_of_index(prev, k);
                        assert(rows_of(prev)[k] == filled_row(w as nat, init));
                    } else {
                        assert(v@[k]@ == rv);
                    }
                }
            }
            i = i + 1;
        }
        Matrix { v }
    }

    /// The matrix with the given rows.
    pub fn from(v: Vec<Vec<i64>>) -> (r: Matrix<i64>)
        ensures
            r.rows() == rows_of(v@),
    {
        Matrix { v }
    }

    /// The number of rows.
    pub fn h(&self) -> (r: usize)
        ensures
            r == self.rows().len(),
    {
        self.v.len()
    }

    /// The number of columns: the length of the first row.
    pub fn w(&self) -> (r: usize)
        requires
            self.rows().len() >= 1,
        ensures
            r == self.rows()[0].len(),
    {
        self.v[0].len()
    }

    /// The entry in row `i`, column `j`.
    pub fn get(&self, i: usize, j: usize) -> (r: i64)
        requires
            i < self.rows().len(),
            j < self.rows()[i as int].len(),
        ensures
            r == self.rows()[i as int][j as int],
    {
        self.v[i][j]
    }

    /// Exchanges rows `a` and `b`.
    pub fn chrow(&mut self, a: usize, b: usize)
        requires
            a < old(self).rows().len(),
            b < old(self).rows().len(),
        ensures
            final(self).rows() == old(self).rows().update(a as int, old(self).rows()[b as int]).update(
                b as int,
                old(self).rows()[a as int],
            ),
    {
        let ra = copy_row(&self.v[a]);
        let rb = copy_row(&self.v[b]);
        let ghost old_v = self.v@;
        self.v.set(a, rb);
        self.v.set(b, ra);
        proof {
            let want = old(self).rows().update(a as int, old(self).rows()[b as int]).update(
                b as int,
                old(self).rows()[a as int],
            );
            assert forall|k: int| 0 <= k < self.v@.len() implies #[trigger] rows_of(self.v@)[k] == want[k] by {
                lemma_rows_of_index(self.v@, k);
                lemma_rows_of_index(old_v, k);
                lemma_rows_of_index(old_v, a as int);
                lemma_rows_of_index(old_v, b as int);
            }
            assert(rows_of(self.v@) =~= want);
        }
    }

    /// Exchanges columns `a` and `b` in every row.
    pub fn chcol(&mut self, a: usize, b: usize)
        requires
            forall|i: int| 0 <= i < old(self).rows().len() ==> a < #[trigger] old(self).rows()[i].len() && b
                < old(self).rows()[i].len(),
        ensures
            final(self).rows().len() == old(self).rows().len(),
            forall|i: int| 0 <= i < old(self).rows().len() ==> #[trigger] final(self).rows()[i] == old(
                self,
            ).rows()[i].update(a as int, old(self).rows()[i][b as int]).update(b as int, old(self).rows()[i][a as int]),
    {
        let mut i: usize = 0;
        proof {
            assert forall|k: int| 0 <= k < old(self).v@.len() implies a < #[trigger] old(self).v@[k]@.len() && b < old(self).v@[k]@.len() by {
                assert(old(self).rows()[k] == old(self).v@[k]@);
            }
        }
        while i < self.v.len()
            invariant
                i <= self.v@.len(),
                self.v@.len() == old(self).v@.len(),
                forall|k: int| 0 <= k < old(self).v@.len() ==> a < #[trigger] old(self).v@[k]@.len() && b < old(self).v@[k]@.len(),
                forall|k: int| i <= k < self.v@.len() ==> #[trigger] self.v@[k] == old(self).v@[k],
                forall|k: int| 0 <= k < i ==> #[trigger] self.v@[k]@ == old(self).v@[k]@.update(a as int, old(self).v@[k]@[b as int]).update(b as int, old(self).v@[k]@[a as int]),
            decreases self.v@.len() - i,
        {
            let mut row = copy_row(&self.v[i]);
            let x = row[a];
            let y = row[b];
            row.set(a, y);
            row.set(b, x);
            self.v.set(i, row);
            i = i + 1;
        }
        proof {
            assert forall|k: int| 0 <= k < old(self).rows().len() implies #[trigger] self.rows()[k] == old(self).rows()[k].update(a as int, old(self).rows()[k][b as int]).update(b as int, old(self).rows()[k][a as int]) by {
                assert(self.rows()[k] == self.v@[k]@);
                assert(old(self).rows()[k] == old(self).v@[k]@);
            }
        }
    }

    /// The transpose; the matrix must have at least one row.
    pub fn t(&self) -> (r: Matrix<i64>)
        requires
            self.rows().len() >= 1,
            self.rectangular(),
        ensures
            r.rows().len() == self.rows()[0].len(),
            forall|j: int| 0 <= j < r.rows().len() ==> #[trigger] r.rows()[j].len() == self.rows().len(),
            forall|i: int, j: int| 0 <= i < self.rows().len() && 0 <= j < self.rows()[0].len() ==> r.rows()[j][i]
                == #[trigger] self.rows()[i][j],
    {
        let h = self.h();
        let w = self.w();
        let mut v: Vec<Vec<i64>> = Vec::new();
        let mut j: usize = 0;
        while j < w
            invariant
                h == self.rows().len(),
                w == self.rows()[0].len(),
                self.rectangular(),
                j <= w,
                v@.len() == j,
                forall|jj: int| 0 <= jj < j ==> #[trigger] v@[jj]@.len() == h,
                forall|i: int, jj: int| 0 <= i < h && 0 <= jj < j ==> v@[jj]@[i] == #[trigger] self.rows()[i][jj],
            decreases w - j,
        {
            let mut col: Vec<i64> = Vec::new();
            let mut i: usize = 0;
            while i < h
                invariant
                    h == self.rows().len(),
                    w == self.rows()[0].len(),
                    self.rectangular(),
                    j < w,
                    i <= h,
                    col@.len() == i,
                    forall|ii: int| 0 <= ii < i ==> col@[ii] == #[trigger] self.rows()[ii][j as int],
                decreases h - i,
            {
                assert(self.rows()[i as int].len() == w);
                col.push(self.v[i][j]);
                i = i + 1;
            }
            v.push(col);
            j = j + 1;
        }
        Matrix { v }
    }

    /// The elementwise sum of two matrices of the same shape.
    pub fn add_matrix(&self, other: &Matrix<i64>) -> (r: Matrix<i64>)
        requires
            other.rows().len() == self.rows().len(),
            forall|i: int| 0 <= i < self.rows().len() ==> #[trigger] other.rows()[i].len() == self.rows()[i].len(),
            forall|i: int, j: int| 0 <= i < self.rows().len() && 0 <= j < self.rows()[i].len() ==> i64::MIN
                <= #[trigger] self.rows()[i][j] + other.rows()[i][j] <= i64::MAX,
        ensures
            r.rows().len() == self.rows().len(),
            forall|i: int| 0 <= i < self.rows().len() ==> #[trigger] r.rows()[i].len() == self.rows()[i].len(),
            forall|i: int, j: int| 0 <= i < self.rows().len() && 0 <= j < self.rows()[i].len() ==> #[trigger] r.rows()[i][j]
                == self.rows()[i][j] + other.rows()[i][j],
    {
        let mut v: Vec<Vec<i64>> = Vec::new();
        let mut i: usize = 0;
        while i < self.v.len()
            invariant
                other.rows().len() == self.rows().len(),
                forall|k: int| 0 <= k < self.rows().len() ==> #[trigger] other.rows()[k].len() == self.rows()[k].len(),
                forall|k: int, j: int| 0 <= k < self.rows().len() && 0 <= j < self.rows()[k].len() ==> i64::MIN
                    <= #[trigger] self.rows()[k][j] + other.rows()[k][j] <= i64::MAX,
                i <= self.rows().len(),
                v@.len() == i,
                forall|k: int| 0 <= k < i ==> #[trigger] v@[k]@.len() == self.rows()[k].len(),
                forall|k: int, j: int| 0 <= k < i && 0 <= j < self.rows()[k].len() ==> #[trigger] v@[k]@[j]
                    == self.rows()[k][j] + other.rows()[k][j],
            decreases self.rows().len() - i,
        {
            let mut row: Vec<i64> = Vec::new();
            let mut j: usize = 0;
            let ghost ii = i as int;
            assert(other.rows()[ii].len() == self.rows()[ii].len());
            assert(self.rows()[ii] == self.v@[ii]@);
            assert(other.rows()[ii] == other.v@[ii]@);
            while j < self.v[i].len()
                invariant
                    i < self.rows().len(),
                    other.v@.len() == self.v@.len(),
                    self.rows()[i as int] == self.v@[i as int]@,
                    other.rows()[i as int] == other.v@[i as int]@,
                    other.rows()[i as int].len() == self.rows()[i as int].len(),
                    forall|jj: int| 0 <= jj < self.rows()[i as int].len() ==> i64::MIN
                        <= #[trigger] self.rows()[i as int][jj] + other.rows()[i as int][jj] <= i64::MAX,
                    j <= self.rows()[i as int].len(),
                    row@.len() == j,
                    forall|jj: int| 0 <= jj < j ==> #[trigger] row@[jj] == self.rows()[i as int][jj] + other.rows()[i as int][jj],
                decreases self.rows()[i as int].len() - j,
            {
                assert(j < other.v@[i as int]@.len());
                row.push(self.v[i][j] + other.v[i][j]);
                j = j + 1;
            }
            v.push(row);
            i = i + 1;
        }
        Matrix { v }
    }

    /// Adds `c` to every entry.
    pub fn add_scalar(&mut self, c: i64)
        requires
            forall|i: int, j: int| 0 <= i < old(self).rows().len() && 0 <= j < old(self).rows()[i].len() ==> i64::MIN
                <= #[trigger] old(self).rows()[i][j] + c <= i64::MAX,
        ensures
            final(self).rows().len() == old(self).rows().len(),
            forall|i: int| 0 <= i < old(self).rows().len() ==> #[trigger] final(self).rows()[i].len() == old(self).rows()[i].len(),
            forall|i: int, j: int| 0 <= i < old(self).rows().len() && 0 <= j < old(self).rows()[i].len() ==> #[trigger] final(self).rows()[i][j]
                == old(self).rows()[i][j] + c,
    {
        let mut i: usize = 0;
        proof {
            assert forall|k: int, j: int| 0 <= k < old(self).v@.len() && 0 <= j < old(self).v@[k]@.len() implies i64::MIN
                <= #[trigger] old(self).v@[k]@[j] + c <= i64::MAX by {
                assert(old(self).rows()[k] == old(self).v@[k]@);
            }
        }
        while i < self.v.len()
            invariant
                i <= self.v@.len(),
                self.v@.len() == old(self).v@.len(),
                forall|k: int, j: int| 0 <= k < old(self).v@.len() && 0 <= j < old(self).v@[k]@.len() ==> i64::MIN
                    <= #[trigger] old(self).v@[k]@[j] + c <= i64::MAX,
                forall|k: int| i <= k < self.v@.len() ==> #[trigger] self.v@[k] == old(self).v@[k],
                forall|k: int| 0 <= k < i ==> #[trigger] self.v@[k]@.len() == old(self).v@[k]@.len(),
                forall|k: int, j: int| 0 <= k < i && 0 <= j < old(self).v@[k]@.len() ==> #[trigger] self.v@[k]@[j]
                    == old(self).v@[k]@[j] + c,
            decreases self.v@.len() - i,
        {
            let src = copy_row(&self.v[i]);
            let mut row: Vec<i64> = Vec::new();
            let mut j: usize = 0;
            while j < src.len()
                invariant
                    i < old(self).v@.len(),
                    src@ == old(self).v@[i as int]@,
                    forall|jj: int| 0 <= jj < src@.len() ==> i64::MIN <= #[trigger] src@[jj] + c <= i64::MAX,
                    j <= src@.len(),
                    row@.len() == j,
                    forall|jj: int| 0 <= jj < j ==> #[trigger] row@[jj] == src@[jj] + c,
                decreases src@.len() - j,
            {
                row.push(src[j] + c);
                j = j + 1;
            }
            self.v.set(i, row);
            i = i + 1;
        }
        proof {
            assert forall|k: int| 0 <= k < old(self).rows().len() implies #[trigger] self.rows()[k] == self.v@[k]@ && old(self).rows()[k] == old(self).v@[k]@ by {}
        }
    }

    /// The matrix product; `self` has as many columns as `other` has rows.
    pub fn mul_matrix(&self, other: &Matrix<i64>) -> (r: Matrix<i64>)
        requires
            self.rows().len() >= 1,
            other.rows().len() >= 1,
            self.rectangular(),
            other.rectangular(),
            self.rows()[0].len() == other.rows().len(),
            forall|i: int, j: int, k: int|
                0 <= i < self.rows().len() && 0 <= j < other.rows()[0].len() && 0 <= k <= other.rows().len() ==> i64::MIN
                    <= #[trigger] dot_upto(self.rows(), other.rows(), i, j, k) <= i64::MAX,
            forall|i: int, j: int, k: int|
                0 <= i < self.rows().len() && 0 <= j < other.rows()[0].len() && 0 <= k < other.rows().len() ==> i64::MIN
                    <= #[trigger] (self.rows()[i][k] * other.rows()[k][j]) <= i64::MAX,
        ensures
            r.rows().len() == self.rows().len(),
            forall|i: int| 0 <= i < r.rows().len() ==> #[trigger] r.rows()[i].len() == other.rows()[0].len(),
            forall|i: int, j: int| 0 <= i < self.rows().len() && 0 <= j < other.rows()[0].len() ==> #[trigger] r.rows()[i][j]
                == dot_upto(self.rows(), other.rows(), i, j, other.rows().len() as int),
    {
        let h = self.h();
        let w = other.w();
        let n = other.h();
        let mut v: Vec<Vec<i64>> = Vec::new();
        let mut i: usize = 0;
        while i < h
            invariant
                h == self.rows().len(),
                w == other.rows()[0].len(),
                n == other.rows().len(),
                self.rows()[0].len() == n,
                self.rectangular(),
                other.rectangular(),
                forall|i: int, j: int, k: int|
                    0 <= i < h && 0 <= j < w && 0 <= k <= n ==> i64::MIN
                        <= #[trigger] dot_upto(self.rows(), other.rows(), i, j, k) <= i64::MAX,
                forall|i: int, j: int, k: int|
                    0 <= i < h && 0 <= j < w && 0 <= k < n ==> i64::MIN
                        <= #[trigger] (self.rows()[i][k] * other.rows()[k][j]) <= i64::MAX,
                i <= h,
                v@.len() == i,
                forall|k: int| 0 <= k < i ==> #[trigger] v@[k]@.len() == w,
                forall|k: int, j: int| 0 <= k < i && 0 <= j < w ==> #[trigger] v@[k]@[j]
                    == dot_upto(self.rows(), other.rows(), k, j, n as int),
            decreases h - i,
        {
            let mut row: Vec<i64> = Vec::new();
            let mut j: usize = 0;
            while j < w
                invariant
                    h == self.rows().len(),
                    w == other.rows()[0].len(),
                    n == other.rows().len(),
                    self.rows()[0].len() == n,
                    self.rectangular(),
                    other.rectangular(),
                    forall|i: int, j: int, k: int|
                        0 <= i < h && 0 <= j < w && 0 <= k <= n ==> i64::MIN
                            <= #[trigger] dot_upto(self.rows(), other.rows(), i, j, k) <= i64::MAX,
                    forall|i: int, j: int, k: int|
                        0 <= i < h && 0 <= j < w && 0 <= k < n ==> i64::MIN
                            <= #[trigger] (self.rows()[i][k] * other.rows()[k][j]) <= i64::MAX,
                    i < h,
                    j <= w,
                    row@.len() == j,
                    forall|jj: int| 0 <= jj < j ==> #[trigger] row@[jj] == dot_upto(self.rows(), other.rows(), i as int, jj, n as int),
                decreases w - j,
            {
                let mut acc: i64 = 0;
                let mut q: usize = 0;
                while q < n
                    invariant
                        h == self.rows().len(),
                        w == other.rows()[0].len(),
                        n == other.rows().len(),
                        self.rows()[0].len() == n,
                        self.rectangular(),
                        other.rectangular(),
                        forall|i: int, j: int, k: int|
                            0 <= i < h && 0 <= j < w && 0 <= k <= n ==> i64::MIN
                                <= #[trigger] dot_upto(self.rows(), other.rows(), i, j, k) <= i64::MAX,
                        forall|i: int, j: int, k: int|
                            0 <= i < h && 0 <= j < w && 0 <= k < n ==> i64::MIN
                                <= #[trigger] (self.rows()[i][k] * other.rows()[k][j]) <= i64::MAX,
                        i < h,
                        j < w,
                        q <= n,
                        acc == dot_upto(self.rows(), other.rows(), i as int, j as int, q as int),
                    decreases n - q,
                {
                    assert(self.rows()[i as int].len() == n);
                    assert(other.rows()[q as int].len() == w);
                    let p = self.v[i][q] * other.v[q][j];
                    assert(i64::MIN <= dot_upto(self.rows(), other.rows(), i as int, j as int, q + 1) <= i64::MAX);
                    acc = acc + p;
                    q = q + 1;
                }
                row.push(acc);
                j = j + 1;
            }
            v.push(row);
            i = i + 1;
        }
        Matrix { v }
    }
}

} // verus!
