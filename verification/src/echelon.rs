//! Gauss-Jordan row reduction with partial pivoting, and the operations
//! built on it: reduced row-echelon form, rank and matrix inversion.

use vstd::prelude::*;
use crate::scalar::Scalar;
use crate::matrix::Matrix;
use crate::matrix::MatrixError;

verus! {

/// Scan rows `lo..hi` of column `col`, keeping `best` and replacing it only
/// when a row's entry has strictly larger magnitude.
pub open spec fn pivot_scan<K: Scalar>(
    rows: Seq<Seq<K>>,
    col: int,
    lo: int,
    hi: int,
    best: int,
) -> int
    decreases hi - lo,
{
    if lo >= hi {
        best
    } else {
        pivot_scan(
            rows,
            col,
            lo + 1,
            hi,
            if K::spec_abs_gt(rows[lo][col], rows[best][col]) {
                lo
            } else {
                best
            },
        )
    }
}

/// Partial pivot selection: among rows `pr..hi`, the row whose entry in
/// `col` has the largest magnitude; ties keep the earliest row.
pub open spec fn pivot_select<K: Scalar>(rows: Seq<Seq<K>>, col: int, pr: int, hi: int) -> int {
    pivot_scan(rows, col, pr + 1, hi, pr)
}

/// `rows` with rows `a` and `b` exchanged.
pub open spec fn swap_rows_spec<K>(rows: Seq<Seq<K>>, a: int, b: int) -> Seq<Seq<K>> {
    rows.update(a, rows[b]).update(b, rows[a])
}

/// `row` divided by `piv`, from column `col` onward.
pub open spec fn normalize_row<K: Scalar>(row: Seq<K>, piv: K, col: int) -> Seq<K> {
    Seq::new(
        row.len(),
        |j: int|
            if j >= col {
                K::spec_div(row[j], piv)
            } else {
                row[j]
            },
    )
}

/// One elimination step: from `col` onward, fold `-row[col]` times the
/// pivot row into `row` with the fused multiply-add.
pub open spec fn elim_row<K: Scalar>(row: Seq<K>, prow: Seq<K>, col: int) -> Seq<K> {
    Seq::new(
        row.len(),
        |j: int|
            if j >= col {
                K::spec_mul_add(K::spec_neg(row[col]), prow[j], row[j])
            } else {
                row[j]
            },
    )
}

/// Eliminate column `col` from every row but the pivot row `pr`.
pub open spec fn eliminate<K: Scalar>(rows: Seq<Seq<K>>, pr: int, col: int) -> Seq<Seq<K>> {
    Seq::new(
        rows.len(),
        |i: int|
            if i == pr {
                rows[i]
            } else {
                elim_row(rows[i], rows[pr], col)
            },
    )
}

/// Row reduction from column `col` on, with `pr` rows already fixed as
/// pivot rows.  Column by column: select the partial pivot below `pr`; a
/// zero candidate means the column contributes no pivot; otherwise swap the
/// candidate up, normalize it to a leading one, eliminate the column from
/// every other row, and move on.
pub open spec fn echelon_from<K: Scalar>(rows: Seq<Seq<K>>, n: int, col: int, pr: int) -> Seq<
    Seq<K>,
>
    decreases n - col,
{
    let m = rows.len() as int;
    if col >= n || pr >= m {
        rows
    } else {
        let mx = pivot_select(rows, col, pr, m);
        if rows[mx][col] == K::spec_zero() {
            echelon_from(rows, n, col + 1, pr)
        } else {
            let sw = swap_rows_spec(rows, pr, mx);
            let nm = sw.update(pr, normalize_row(sw[pr], sw[pr][col], col));
            let el = eliminate(nm, pr, col);
            echelon_from(el, n, col + 1, pr + 1)
        }
    }
}

/// The reduced row-echelon form of a grid with `n` columns.
pub open spec fn spec_row_echelon<K: Scalar>(rows: Seq<Seq<K>>, n: int) -> Seq<Seq<K>> {
    echelon_from(rows, n, 0, 0)
}

/// Whether a row holds at least one entry other than zero.
pub open spec fn row_nonzero<K: Scalar>(row: Seq<K>) -> bool {
    exists|j: int| 0 <= j < row.len() && row[j] != K::spec_zero()
}

/// How many rows hold at least one entry other than zero.
pub open spec fn count_nonzero_rows<K: Scalar>(rows: Seq<Seq<K>>) -> nat
    decreases rows.len(),
{
    if rows.len() == 0 {
        0
    } else {
        count_nonzero_rows(rows.drop_last()) + if row_nonzero(rows.last()) {
            1nat
        } else {
            0nat
        }
    }
}

/// The rank of a grid with `n` columns: the rows of its reduced
/// row-echelon form that keep a nonzero entry.  An entry counts as zero
/// exactly when it equals the scalar zero; no tolerance is applied.
pub open spec fn spec_rank<K: Scalar>(rows: Seq<Seq<K>>, n: int) -> nat {
    count_nonzero_rows(spec_row_echelon(rows, n))
}

/// Row `i` of the `n` x `n` identity.
pub open spec fn identity_row<K: Scalar>(n: nat, i: int) -> Seq<K> {
    Seq::new(
        n,
        |j: int|
            if i == j {
                K::spec_one()
            } else {
                K::spec_zero()
            },
    )
}

/// The `n` x `n` identity grid.
pub open spec fn spec_identity<K: Scalar>(n: nat) -> Seq<Seq<K>> {
    Seq::new(n, |i: int| identity_row(n, i))
}

/// The grid `a` with row `i` of the identity appended to row `i`: the
/// augmented matrix Gauss-Jordan inversion reduces.
pub open spec fn spec_augmented<K: Scalar>(a: Seq<Seq<K>>, n: nat) -> Seq<Seq<K>> {
    Seq::new(a.len(), |i: int| a[i] + identity_row(n, i))
}

/// Gauss-Jordan reduction of an augmented grid: the pivot of column `col`
/// is looked for among rows `col..`, so every column must produce one; a
/// zero candidate means the base matrix is singular.  Swap, normalization
/// and elimination run over the full augmented rows.
pub open spec fn gauss_jordan_aug<K: Scalar>(rows: Seq<Seq<K>>, n: int, col: int) -> Option<
    Seq<Seq<K>>,
>
    decreases n - col,
{
    let m = rows.len() as int;
    if col >= n {
        Some(rows)
    } else {
        let mx = pivot_select(rows, col, col, m);
        if rows[mx][col] == K::spec_zero() {
            None
        } else {
            let sw = swap_rows_spec(rows, col, mx);
            let nm = sw.update(col, normalize_row(sw[col], sw[col][col], col));
            let el = eliminate(nm, col, col);
            gauss_jordan_aug(el, n, col + 1)
        }
    }
}

/// The inverse of an `n` x `n` grid: reduce `[a | identity]`; when every
/// column yields a pivot the right half is the inverse, otherwise `a` is
/// singular and there is none.
pub open spec fn spec_inverse<K: Scalar>(a: Seq<Seq<K>>, n: int) -> Option<Seq<Seq<K>>> {
    match gauss_jordan_aug(spec_augmented(a, n as nat), n, 0) {
        Some(rows) => Some(Seq::new(n as nat, |i: int| rows[i].subrange(n, 2 * n))),
        None => None,
    }
}

impl<K: Scalar> Matrix<K> {
    /// The row in `pr..size_y` whose entry in column `col` has the largest
    /// magnitude, earliest on ties.
    fn pivot_select_exec(&self, col: usize, pr: usize) -> (mx: usize)
        requires
            self.wf(),
            col < self.size_x,
            pr < self.size_y,
        ensures
            pr <= mx < self.size_y,
            mx == pivot_select(self@, col as int, pr as int, self.size_y as int),
    {
        let m = self.size_y;
        let mut max_row: usize = pr;
        #[verifier::loop_isolation(false)]
        for i in (pr + 1)..m
            invariant
                pr <= max_row < m,
                pivot_scan(self@, col as int, i as int, m as int, max_row as int) == pivot_select(
                    self@,
                    col as int,
                    pr as int,
                    m as int,
                ),
        {
            proof {
                assert(self@[i as int] == self.data@[i as int]@);
                assert(self@[max_row as int] == self.data@[max_row as int]@);
            }
            if self.data[i][col].abs_gt(self.data[max_row][col]) {
                max_row = i;
            }
        }
        max_row
    }

    /// Exchange rows `a` and `b`.
    fn swap_rows(&mut self, a: usize, b: usize)
        requires
            old(self).wf(),
            a < old(self).size_y,
            b < old(self).size_y,
            a != b,
        ensures
            final(self).wf(),
            final(self).size_x == old(self).size_x,
            final(self).size_y == old(self).size_y,
            final(self).is_square == old(self).is_square,
            final(self)@ == swap_rows_spec(old(self)@, a as int, b as int),
    {
        let ghost orig: Seq<Seq<K>> = self@;
        let n = self.size_x;
        #[verifier::loop_isolation(false)]
        for c in 0..n
            invariant
                self.wf(),
                self.size_x == n,
                self.size_y == old(self).size_y,
                self.is_square == old(self).is_square,
                forall|r: int|
                    0 <= r < self.data@.len() && r != a as int && r != b as int ==> (
                    #[trigger] self.data@[r])@ == orig[r],
                forall|j: int|
                    0 <= j < c ==> (#[trigger] self.data@[a as int]@[j]) == orig[b as int][j],
                forall|j: int|
                    c <= j < n ==> (#[trigger] self.data@[a as int]@[j]) == orig[a as int][j],
                forall|j: int|
                    0 <= j < c ==> (#[trigger] self.data@[b as int]@[j]) == orig[a as int][j],
                forall|j: int|
                    c <= j < n ==> (#[trigger] self.data@[b as int]@[j]) == orig[b as int][j],
        {
            let tmp = self.data[a][c];
            self.data[a][c] = self.data[b][c];
            assert(self.data@[a as int]@[c as int] == orig[b as int][c as int]);
            self.data[b][c] = tmp;
            assert(self.data@[b as int]@[c as int] == orig[a as int][c as int]);
        }
        proof {
            assert(self@ =~~= swap_rows_spec(orig, a as int, b as int));
        }
    }

    /// Divide row `pr`, from column `col` onward, by `piv`.
    fn scale_row_div(&mut self, pr: usize, col: usize, piv: K)
        requires
            old(self).wf(),
            pr < old(self).size_y,
            col < old(self).size_x,
            piv != K::spec_zero(),
        ensures
            final(self).wf(),
            final(self).size_x == old(self).size_x,
            final(self).size_y == old(self).size_y,
            final(self).is_square == old(self).is_square,
            final(self)@ == old(self)@.update(
                pr as int,
                normalize_row(old(self)@[pr as int], piv, col as int),
            ),
    {
        let ghost orig: Seq<Seq<K>> = self@;
        let n = self.size_x;
        #[verifier::loop_isolation(false)]
        for j in col..n
            invariant
                self.wf(),
                self.size_x == n,
                self.size_y == old(self).size_y,
                self.is_square == old(self).is_square,
                forall|r: int|
                    0 <= r < self.data@.len() && r != pr as int ==> (#[trigger] self.data@[r])@
                        == orig[r],
                forall|c: int|
                    col <= c < j ==> (#[trigger] self.data@[pr as int]@[c]) == K::spec_div(
                        orig[pr as int][c],
                        piv,
                    ),
                forall|c: int|
                    0 <= c < col || j <= c < n ==> (#[trigger] self.data@[pr as int]@[c])
                        == orig[pr as int][c],
        {
            let val = self.data[pr][j].div(piv);
            assert(val == K::spec_div(orig[pr as int][j as int], piv));
            self.data[pr][j] = val;
            assert(self.data@[pr as int]@[j as int] == val);
        }
        proof {
            assert(self.data@[pr as int]@ =~= normalize_row(orig[pr as int], piv, col as int));
            assert(self@ =~~= orig.update(
                pr as int,
                normalize_row(orig[pr as int], piv, col as int),
            ));
        }
    }

    /// Zero column `col` in every row but the pivot row `pr`: from `col`
    /// onward, fold `-factor` times the pivot row into each row with the
    /// fused multiply-add, the factor being that row's entry in `col`.
    fn eliminate_exec(&mut self, pr: usize, col: usize)
        requires
            old(self).wf(),
            pr < old(self).size_y,
            col < old(self).size_x,
        ensures
            final(self).wf(),
            final(self).size_x == old(self).size_x,
            final(self).size_y == old(self).size_y,
            final(self).is_square == old(self).is_square,
            final(self)@ == eliminate(old(self)@, pr as int, col as int),
    {
        let ghost orig: Seq<Seq<K>> = self@;
        let m = self.size_y;
        let n = self.size_x;
        #[verifier::loop_isolation(false)]
        for i in 0..m
            invariant
                self.wf(),
                self.size_x == n,
                self.size_y == m,
                self.is_square == old(self).is_square,
                forall|r: int|
                    0 <= r < i && r != pr as int ==> (#[trigger] self.data@[r])@ == elim_row(
                        orig[r],
                        orig[pr as int],
                        col as int,
                    ),
                forall|r: int|
                    (i <= r < m || r == pr as int) ==> (#[trigger] self.data@[r])@ == orig[r],
        {
            if i != pr {
                proof {
                    assert(self@[i as int] == self.data@[i as int]@);
                }
                let factor = self.data[i][col];
                assert(factor == orig[i as int][col as int]);
                let nf = factor.neg();
                let ghost prevrow: Seq<K> = self.data@[i as int]@;
                #[verifier::loop_isolation(false)]
                for j in col..n
                    invariant
                        self.wf(),
                        self.size_x == n,
                        self.size_y == m,
                        self.is_square == old(self).is_square,
                        nf == K::spec_neg(orig[i as int][col as int]),
                        forall|r: int|
                            0 <= r < i && r != pr as int ==> (#[trigger] self.data@[r])@
                                == elim_row(orig[r], orig[pr as int], col as int),
                        forall|r: int|
                            (i < r < m || r == pr as int) ==> (#[trigger] self.data@[r])@
                                == orig[r],
                        forall|c: int|
                            col <= c < j ==> (#[trigger] self.data@[i as int]@[c])
                                == K::spec_mul_add(
                                K::spec_neg(orig[i as int][col as int]),
                                orig[pr as int][c],
                                orig[i as int][c],
                            ),
                        forall|c: int|
                            0 <= c < col || j <= c < n ==> (#[trigger] self.data@[i as int]@[c])
                                == orig[i as int][c],
                {
                    let val = nf.mul_add(self.data[pr][j], self.data[i][j]);
                    assert(val == K::spec_mul_add(
                        K::spec_neg(orig[i as int][col as int]),
                        orig[pr as int][j as int],
                        orig[i as int][j as int],
                    ));
                    self.data[i][j] = val;
                    assert(self.data@[i as int]@[j as int] == val);
                }
                proof {
                    assert(self.data@[i as int]@ =~= elim_row(
                        orig[i as int],
                        orig[pr as int],
                        col as int,
                    ));
                }
            }
        }
        proof {
            assert(self@ =~~= eliminate(orig, pr as int, col as int));
        }
    }

    /// The reduced row-echelon form of `self`, by Gauss-Jordan reduction
    /// with partial pivoting: column by column, the largest-magnitude
    /// candidate below the pivot row becomes the pivot (ties keep the
    /// earliest row); a zero candidate leaves the column without a pivot;
    /// otherwise the pivot row is swapped up, normalized to a leading one,
    /// and the column is eliminated from every other row.
    pub fn row_echelon(&self) -> (r: Matrix<K>)
        requires
            self.wf(),
        ensures
            r.wf(),
            r.size_x == self.size_x,
            r.size_y == self.size_y,
            r.is_square == self.is_square,
            r@ == spec_row_echelon(self@, self.size_x as int),
    {
        let mut result = self.clone();
        let m = self.size_y;
        let n = self.size_x;
        let mut pivot_row: usize = 0;
        #[verifier::loop_isolation(false)]
        for col in 0..n
            invariant
                result.wf(),
                result.size_x == n,
                result.size_y == m,
                result.is_square == self.is_square,
                pivot_row <= m,
                echelon_from(result@, n as int, col as int, pivot_row as int) == spec_row_echelon(
                    self@,
                    n as int,
                ),
        {
            if pivot_row < m {
                let ghost s0: Seq<Seq<K>> = result@;
                let mx = result.pivot_select_exec(col, pivot_row);
                proof {
                    assert(result@[mx as int] == result.data@[mx as int]@);
                }
                if !result.data[mx][col].eq_zero() {
                    if mx != pivot_row {
                        result.swap_rows(pivot_row, mx);
                    } else {
                        proof {
                            assert(result@ =~~= swap_rows_spec(s0, pivot_row as int, mx as int));
                        }
                    }
                    let ghost sw: Seq<Seq<K>> = result@;
                    proof {
                        assert(sw == swap_rows_spec(s0, pivot_row as int, mx as int));
                        assert(sw[pivot_row as int] == s0[mx as int]);
                        assert(result@[pivot_row as int] == result.data@[pivot_row as int]@);
                    }
                    let piv = result.data[pivot_row][col];
                    proof {
                        assert(piv == sw[pivot_row as int][col as int]);
                        assert(piv != K::spec_zero());
                    }
                    result.scale_row_div(pivot_row, col, piv);
                    result.eliminate_exec(pivot_row, col);
                    proof {
                        let nm = sw.update(
                            pivot_row as int,
                            normalize_row(sw[pivot_row as int], piv, col as int),
                        );
                        let el = eliminate(nm, pivot_row as int, col as int);
                        assert(result@ == el);
                        assert(echelon_from(s0, n as int, col as int, pivot_row as int)
                            == echelon_from(el, n as int, col as int + 1, pivot_row as int + 1));
                    }
                    pivot_row += 1;
                } else {
                    proof {
                        assert(echelon_from(s0, n as int, col as int, pivot_row as int)
                            == echelon_from(s0, n as int, col as int + 1, pivot_row as int));
                    }
                }
            }
        }
        result
    }

    /// The rank of `self`: reduce to row-echelon form, then count the rows
    /// that keep at least one nonzero entry.  An entry counts as zero
    /// exactly when it equals the scalar zero.
    pub fn rank(&self) -> (r: usize)
        requires
            self.wf(),
        ensures
            r == spec_rank(self@, self.size_x as int),
    {
        let e = self.row_echelon();
        let m = e.size_y;
        let n = e.size_x;
        let mut count: usize = 0;
        #[verifier::loop_isolation(false)]
        for i in 0..m
            invariant
                count <= i,
                count == count_nonzero_rows(e@.take(i as int)),
        {
            let mut found = false;
            #[verifier::loop_isolation(false)]
            for j in 0..n
                invariant
                    found == exists|c: int|
                        0 <= c < j && e@[i as int][c] != K::spec_zero(),
            {
                proof {
                    assert(e@[i as int] == e.data@[i as int]@);
                }
                if !e.data[i][j].eq_zero() {
                    found = true;
                }
            }
            proof {
                assert(found == row_nonzero(e@[i as int]));
                lemma_count_take_step(e@, i as int);
            }
            if found {
                count = count + 1;
            }
        }
        proof {
            assert(e@.take(m as int) =~= e@);
        }
        count
    }

    /// The inverse of a square matrix, by Gauss-Jordan reduction of the
    /// augmented matrix `[self | identity]`.  When some pivot column's
    /// candidate entry is zero the matrix is singular and has no inverse;
    /// otherwise the transformed augmentation is returned.
    #[verifier::rlimit(100)]
    pub fn inverse(&self) -> (r: Result<Matrix<K>, MatrixError>)
        requires
            self.wf(),
            self.is_square,
        ensures
            match r {
                Ok(inv) => {
                    &&& inv.wf()
                    &&& inv.size_x == self.size_x
                    &&& inv.size_y == self.size_y
                    &&& inv.is_square
                    &&& spec_inverse(self@, self.size_y as int) == Some(inv@)
                },
                Err(e) => {
                    &&& spec_inverse(self@, self.size_y as int) is None
                    &&& e == MatrixError::Singular
                },
            },
    {
        let n = self.size_y;
        let mut rows: Vec<Vec<K>> = Vec::new();
        #[verifier::loop_isolation(false)]
        for i in 0..n
            invariant
                rows@.len() == i,
                forall|r: int|
                    0 <= r < i ==> (#[trigger] rows@[r])@ == spec_augmented(self@, n as nat)[r],
        {
            let mut row: Vec<K> = Vec::new();
            #[verifier::loop_isolation(false)]
            for j in 0..n
                invariant
                    row@ =~= self@[i as int].take(j as int),
            {
                row.push(self.data[i][j]);
            }
            #[verifier::loop_isolation(false)]
            for j in 0..n
                invariant
                    row@.len() == n + j,
                    row@.subrange(0, n as int) =~= self@[i as int],
                    forall|c: int|
                        0 <= c < j ==> row@[n + c] == identity_row::<K>(n as nat, i as int)[c],
            {
                if j == i {
                    row.push(K::one());
                } else {
                    row.push(K::zero());
                }
            }
            proof {
                assert(row@ =~= self@[i as int] + identity_row(n as nat, i as int));
            }
            rows.push(row);
        }
        let mut work = Matrix::new(rows);
        proof {
            assert(work@ =~~= spec_augmented(self@, n as nat));
        }
        #[verifier::loop_isolation(false)]
        for col in 0..n
            invariant
                work.wf(),
                work.size_y == n,
                work.size_x == n + n,
                gauss_jordan_aug(work@, n as int, col as int) == gauss_jordan_aug(
                    spec_augmented(self@, n as nat),
                    n as int,
                    0,
                ),
        {
            let ghost s0: Seq<Seq<K>> = work@;
            let mx = work.pivot_select_exec(col, col);
            proof {
                assert(work@[mx as int] == work.data@[mx as int]@);
            }
            if work.data[mx][col].eq_zero() {
                return Err(MatrixError::Singular);
            }
            if mx != col {
                work.swap_rows(col, mx);
            } else {
                proof {
                    assert(work@ =~~= swap_rows_spec(s0, col as int, mx as int));
                }
            }
            let ghost sw: Seq<Seq<K>> = work@;
            proof {
                assert(sw == swap_rows_spec(s0, col as int, mx as int));
                assert(sw[col as int] == s0[mx as int]);
                assert(work@[col as int] == work.data@[col as int]@);
            }
            let piv = work.data[col][col];
            proof {
                assert(piv == sw[col as int][col as int]);
                assert(piv != K::spec_zero());
            }
            work.scale_row_div(col, col, piv);
            work.eliminate_exec(col, col);
            proof {
                let nm = sw.update(col as int, normalize_row(sw[col as int], piv, col as int));
                let el = eliminate(nm, col as int, col as int);
                assert(work@ == el);
                assert(gauss_jordan_aug(s0, n as int, col as int) == gauss_jordan_aug(
                    el,
                    n as int,
                    col as int + 1,
                ));
            }
        }
        let mut inv_rows: Vec<Vec<K>> = Vec::new();
        #[verifier::loop_isolation(false)]
        for i in 0..n
            invariant
                inv_rows@.len() == i,
                forall|r: int|
                    0 <= r < i ==> (#[trigger] inv_rows@[r])@ == work@[r].subrange(
                        n as int,
                        n + n,
                    ),
        {
            let mut row: Vec<K> = Vec::new();
            #[verifier::loop_isolation(false)]
            for j in 0..n
                invariant
                    row@.len() == j,
                    forall|c: int| 0 <= c < j ==> row@[c] == work@[i as int][n + c],
            {
                row.push(work.data[i][n + j]);
            }
            proof {
                assert(row@ =~= work@[i as int].subrange(n as int, n + n));
            }
            inv_rows.push(row);
        }
        let inv = Matrix::new(inv_rows);
        proof {
            assert(inv@ =~~= Seq::new(n as nat, |i: int| work@[i].subrange(n as int, n + n)));
        }
        Ok(inv)
    }
}

proof fn lemma_count_take_step<K: Scalar>(rows: Seq<Seq<K>>, i: int)
    requires
        0 <= i < rows.len(),
    ensures
        count_nonzero_rows(rows.take(i + 1)) == count_nonzero_rows(rows.take(i)) + if row_nonzero(
            rows[i],
        ) {
            1nat
        } else {
            0nat
        },
{
    assert(rows.take(i + 1).drop_last() =~= rows.take(i));
    assert(rows.take(i + 1).last() == rows[i]);
}

proof fn lemma_pivot_scan_stays<K: Scalar>(rows: Seq<Seq<K>>, col: int, lo: int, hi: int, best: int)
    requires
        forall|i: int| lo <= i < hi ==> !K::spec_abs_gt(rows[i][col], rows[best][col]),
    ensures
        pivot_scan(rows, col, lo, hi, best) == best,
    decreases hi - lo,
{
    if lo < hi {
        lemma_pivot_scan_stays(rows, col, lo + 1, hi, best);
    }
}

proof fn lemma_echelon_identity_from<K: Scalar>(n: int, col: int)
    requires
        0 <= col <= n,
    ensures
        echelon_from(spec_identity::<K>(n as nat), n, col, col) == spec_identity::<K>(n as nat),
    decreases n - col,
{
    let idm = spec_identity::<K>(n as nat);
    if col < n {
        assert forall|i: int| col + 1 <= i < n implies !K::spec_abs_gt(
            idm[i][col],
            idm[col][col],
        ) by {
            assert(idm[i][col] == K::spec_zero());
            K::law_abs_gt_zero(idm[col][col]);
        }
        lemma_pivot_scan_stays(idm, col, col + 1, n, col);
        assert(pivot_select(idm, col, col, n) == col);
        K::law_one_nonzero();
        assert(idm[col][col] == K::spec_one());
        let sw = swap_rows_spec(idm, col, col);
        assert(sw =~~= idm);
        let nr = normalize_row(idm[col], K::spec_one(), col);
        assert forall|j: int| 0 <= j < n implies nr[j] == idm[col][j] by {
            K::law_div_one(idm[col][j]);
        }
        assert(nr =~= idm[col]);
        let nm = sw.update(col, normalize_row(sw[col], sw[col][col], col));
        assert(nm =~~= idm);
        let el = eliminate(nm, col, col);
        assert forall|i: int| 0 <= i < n && i != col implies el[i] =~= idm[i] by {
            assert(idm[i][col] == K::spec_zero());
            K::law_neg_zero();
            assert forall|j: int| col <= j < n implies elim_row(idm[i], idm[col], col)[j]
                == idm[i][j] by {
                K::law_mul_add_zero(idm[col][j], idm[i][j]);
            }
        }
        assert(el =~~= idm);
        lemma_echelon_identity_from::<K>(n, col + 1);
    }
}

proof fn lemma_count_all_nonzero<K: Scalar>(rows: Seq<Seq<K>>)
    requires
        forall|i: int| 0 <= i < rows.len() ==> row_nonzero(#[trigger] rows[i]),
    ensures
        count_nonzero_rows(rows) == rows.len(),
    decreases rows.len(),
{
    if rows.len() > 0 {
        lemma_count_all_nonzero(rows.drop_last());
    }
}

/// Law: the identity matrix of size `n` has rank `n`: its reduced
/// row-echelon form is itself, and every one of its rows keeps a nonzero
/// entry.
pub proof fn lemma_rank_identity<K: Scalar>(n: nat)
    ensures
        spec_rank(spec_identity::<K>(n), n as int) == n,
{
    let idm = spec_identity::<K>(n);
    lemma_echelon_identity_from::<K>(n as int, 0);
    assert(spec_row_echelon(idm, n as int) == idm);
    assert forall|i: int| 0 <= i < n implies row_nonzero(#[trigger] idm[i]) by {
        K::law_one_nonzero();
        assert(0 <= i < idm[i].len() && idm[i][i] != K::spec_zero());
    }
    lemma_count_all_nonzero(idm);
}

spec fn strictly_increasing(s: Seq<int>) -> bool {
    forall|i: int, j: int| 0 <= i < j < s.len() ==> s[i] < s[j]
}

/// How many entries of the increasing sequence `s` lie below `c`.
spec fn num_pivots_below(s: Seq<int>, c: int) -> int
    decreases s.len(),
{
    if s.len() == 0 {
        0
    } else if s.last() < c {
        s.len() as int
    } else {
        num_pivots_below(s.drop_last(), c)
    }
}

proof fn lemma_npb_all_below(s: Seq<int>, c: int)
    requires
        forall|i: int| 0 <= i < s.len() ==> #[trigger] s[i] < c,
    ensures
        num_pivots_below(s, c) == s.len(),
    decreases s.len(),
{
    if s.len() > 0 {
        lemma_npb_all_below(s.drop_last(), c);
    }
}

proof fn lemma_npb_all_at_least(s: Seq<int>, c: int)
    requires
        forall|i: int| 0 <= i < s.len() ==> #[trigger] s[i] >= c,
    ensures
        num_pivots_below(s, c) == 0,
    decreases s.len(),
{
    if s.len() > 0 {
        lemma_npb_all_at_least(s.drop_last(), c);
    }
}

proof fn lemma_npb_push_ge(s: Seq<int>, v: int, c: int)
    requires
        v >= c,
    ensures
        num_pivots_below(s.push(v), c) == num_pivots_below(s, c),
{
    assert(s.push(v).last() == v);
    assert(s.push(v).drop_last() =~= s);
}

proof fn lemma_npb_at_member(s: Seq<int>, k: int)
    requires
        strictly_increasing(s),
        0 <= k < s.len(),
    ensures
        num_pivots_below(s, s[k]) == k,
    decreases s.len(),
{
    let c = s[k];
    if k == s.len() - 1 {
        assert(!(s.last() < c));
        assert forall|i: int| 0 <= i < s.drop_last().len() implies #[trigger] s.drop_last()[i]
            < c by {
            assert(s.drop_last()[i] == s[i]);
        }
        lemma_npb_all_below(s.drop_last(), c);
    } else {
        assert(s.last() == s[s.len() - 1]);
        assert(s.last() > c);
        assert(s.drop_last()[k] == s[k]);
        assert(strictly_increasing(s.drop_last())) by {
            assert forall|i: int, j: int|
                0 <= i < j < s.drop_last().len() implies s.drop_last()[i] < s.drop_last()[j] by {
                assert(s.drop_last()[i] == s[i]);
                assert(s.drop_last()[j] == s[j]);
            }
        }
        lemma_npb_at_member(s.drop_last(), k);
    }
}

proof fn lemma_npb_step(s: Seq<int>, c: int)
    requires
        strictly_increasing(s),
    ensures
        num_pivots_below(s, c + 1) == num_pivots_below(s, c) + if s.contains(c) {
            1int
        } else {
            0int
        },
    decreases s.len(),
{
    if s.len() == 0 {
        assert(!s.contains(c));
    } else {
        let sd = s.drop_last();
        assert(strictly_increasing(sd)) by {
            assert forall|i: int, j: int| 0 <= i < j < sd.len() implies sd[i] < sd[j] by {
                assert(sd[i] == s[i]);
                assert(sd[j] == s[j]);
            }
        }
        if s.last() < c {
            assert forall|i: int| 0 <= i < s.len() implies #[trigger] s[i] != c by {
                if i < s.len() - 1 {
                    assert(s[i] < s.last());
                }
            }
            assert(!s.contains(c));
        } else if s.last() == c {
            assert forall|i: int| 0 <= i < sd.len() implies #[trigger] sd[i] < c by {
                assert(sd[i] == s[i]);
                assert(s[i] < s.last());
            }
            lemma_npb_all_below(sd, c);
            assert(num_pivots_below(s, c) == sd.len());
            assert(num_pivots_below(s, c + 1) == s.len());
            assert(s.contains(c)) by {
                assert(s[s.len() - 1] == c);
            }
        } else {
            lemma_npb_step(sd, c);
            assert(num_pivots_below(s, c) == num_pivots_below(sd, c));
            assert(num_pivots_below(s, c + 1) == num_pivots_below(sd, c + 1));
            if s.contains(c) {
                let w = choose|i: int| 0 <= i < s.len() && s[i] == c;
                assert(w < s.len() - 1);
                assert(sd[w] == c);
                assert(sd.contains(c));
            } else {
                if sd.contains(c) {
                    let w = choose|i: int| 0 <= i < sd.len() && sd[i] == c;
                    assert(s[w] == c);
                }
                assert(!sd.contains(c));
            }
        }
    }
}

proof fn lemma_pivot_scan_range<K: Scalar>(rows: Seq<Seq<K>>, col: int, lo: int, hi: int, best: int)
    ensures
        ({
            let r = pivot_scan(rows, col, lo, hi, best);
            r == best || lo <= r < hi
        }),
    decreases hi - lo,
{
    if lo < hi {
        let b2 = if K::spec_abs_gt(rows[lo][col], rows[best][col]) {
            lo
        } else {
            best
        };
        lemma_pivot_scan_range(rows, col, lo + 1, hi, b2);
    }
}

proof fn lemma_npb_bounds(s: Seq<int>, c: int)
    ensures
        0 <= num_pivots_below(s, c) <= s.len(),
    decreases s.len(),
{
    if s.len() > 0 {
        lemma_npb_bounds(s.drop_last(), c);
    }
}

proof fn lemma_pivot_scan_max<K: Scalar>(rows: Seq<Seq<K>>, col: int, lo: int, hi: int, best: int)
    ensures
        ({
            let r = pivot_scan(rows, col, lo, hi, best);
            &&& (best != r ==> !K::spec_abs_gt(rows[best][col], rows[r][col]))
            &&& forall|i: int|
                lo <= i < hi && i != r ==> !K::spec_abs_gt(rows[i][col], rows[r][col])
        }),
    decreases hi - lo,
{
    if lo < hi {
        let e_lo = rows[lo][col];
        let e_best = rows[best][col];
        let beats = K::spec_abs_gt(e_lo, e_best);
        let b2 = if beats {
            lo
        } else {
            best
        };
        lemma_pivot_scan_max(rows, col, lo + 1, hi, b2);
        let r = pivot_scan(rows, col, lo + 1, hi, b2);
        let e_r = rows[r][col];
        if beats {
            // b2 == lo; show the displaced best cannot beat the result
            if best != r {
                if lo != r {
                    K::law_abs_asym(e_lo, e_best);
                    K::law_abs_no_gt_trans(e_best, e_lo, e_r);
                } else {
                    K::law_abs_asym(e_lo, e_best);
                }
            }
        } else {
            // b2 == best; show the passed-over row cannot beat the result
            if lo != r {
                if best != r {
                    K::law_abs_no_gt_trans(e_lo, e_best, e_r);
                }
            }
        }
    }
}

/// The shape a partial reduction leaves behind: one pivot column per fixed
/// row, listed in increasing order in `pivcols`; each pivot column is a
/// unit column with its one in its own row; and every column already
/// passed over without a pivot is zero in each row from the pivot count it
/// saw downward.
spec fn reduced_state<K: Scalar>(
    rows: Seq<Seq<K>>,
    n: int,
    col: int,
    pr: int,
    pivcols: Seq<int>,
) -> bool {
    let m = rows.len() as int;
    &&& forall|i: int| 0 <= i < m ==> (#[trigger] rows[i]).len() == n
    &&& strictly_increasing(pivcols)
    &&& pivcols.len() == pr
    &&& pr <= m
    &&& forall|k: int| 0 <= k < pr ==> 0 <= #[trigger] pivcols[k] < col
    &&& forall|k: int| 0 <= k < pr ==> rows[k][#[trigger] pivcols[k]] == K::spec_one()
    &&& forall|k: int, i: int|
        #![trigger rows[i], pivcols[k]]
        0 <= k < pr && 0 <= i < m && i != k ==> rows[i][pivcols[k]] == K::spec_zero()
    &&& forall|c: int, i: int|
        0 <= c < col && !pivcols.contains(c) && num_pivots_below(pivcols, c) <= i < m
            ==> #[trigger] rows[i][c] == K::spec_zero()
}

/// The pivot columns that the reduction from `(col, pr)` onward adds to
/// `pivcols`, mirroring `echelon_from`.
spec fn echelon_pivcols<K: Scalar>(
    rows: Seq<Seq<K>>,
    n: int,
    col: int,
    pr: int,
    pivcols: Seq<int>,
) -> Seq<int>
    decreases n - col,
{
    let m = rows.len() as int;
    if col >= n || pr >= m {
        pivcols
    } else {
        let mx = pivot_select(rows, col, pr, m);
        if rows[mx][col] == K::spec_zero() {
            echelon_pivcols(rows, n, col + 1, pr, pivcols)
        } else {
            let sw = swap_rows_spec(rows, pr, mx);
            let nm = sw.update(pr, normalize_row(sw[pr], sw[pr][col], col));
            let el = eliminate(nm, pr, col);
            echelon_pivcols(el, n, col + 1, pr + 1, pivcols.push(col))
        }
    }
}

/// Running the reduction from a reduced partial state yields a fully
/// reduced state over the final pivot columns.
proof fn lemma_echelon_reduces<K: Scalar>(
    rows: Seq<Seq<K>>,
    n: int,
    col: int,
    pr: int,
    pivcols: Seq<int>,
)
    requires
        0 <= col <= n,
        reduced_state(rows, n, col, pr, pivcols),
    ensures
        ({
            let e = echelon_from(rows, n, col, pr);
            let pc = echelon_pivcols(rows, n, col, pr, pivcols);
            &&& e.len() == rows.len()
            &&& reduced_state(e, n, n, pc.len() as int, pc)
        }),
    decreases n - col,
{
    let m = rows.len() as int;
    if col >= n {
        // nothing left: the state is already final
    } else if pr >= m {
        // every remaining column sits below no row at all
        assert forall|c: int, i: int|
            0 <= c < n && !pivcols.contains(c) && num_pivots_below(pivcols, c) <= i
                < m implies #[trigger] rows[i][c] == K::spec_zero() by {
            if c >= col {
                lemma_npb_all_below(pivcols, c);
            }
        }
        assert(reduced_state(rows, n, n, pr, pivcols));
    } else {
        let mx = pivot_select(rows, col, pr, m);
        lemma_pivot_scan_range(rows, col, pr + 1, m, pr);
        assert(pr <= mx < m);
        assert(!pivcols.contains(col)) by {
            if pivcols.contains(col) {
                let w = choose|k: int| 0 <= k < pivcols.len() && pivcols[k] == col;
                assert(pivcols[w] < col);
            }
        }
        if rows[mx][col] == K::spec_zero() {
            lemma_pivot_scan_max(rows, col, pr + 1, m, pr);
            assert forall|i: int| pr <= i < m implies rows[i][col] == K::spec_zero() by {
                if i != mx {
                    assert(!K::spec_abs_gt(rows[i][col], rows[mx][col]));
                    K::law_abs_gt_faithful(rows[i][col]);
                }
            }
            lemma_npb_all_below(pivcols, col);
            assert forall|c: int, i: int|
                0 <= c < col + 1 && !pivcols.contains(c) && num_pivots_below(pivcols, c) <= i
                    < m implies #[trigger] rows[i][c] == K::spec_zero() by {
                if c == col {
                    assert(pr <= i < m);
                }
            }
            assert(reduced_state(rows, n, col + 1, pr, pivcols));
            lemma_echelon_reduces(rows, n, col + 1, pr, pivcols);
        } else {
            let sw = swap_rows_spec(rows, pr, mx);
            let piv = sw[pr][col];
            let nm = sw.update(pr, normalize_row(sw[pr], piv, col));
            let el = eliminate(nm, pr, col);
            let pc2 = pivcols.push(col);
            assert(sw[pr] == rows[mx as int]);
            assert(sw[mx] == rows[pr as int]);
            assert(forall|i: int| 0 <= i < m && i != pr && i != mx ==> sw[i] == #[trigger] rows[i]);
            assert(piv == rows[mx][col]);
            assert(el.len() == m);
            assert(el[pr as int] == nm[pr as int]);
            assert(nm[pr as int] == normalize_row(rows[mx as int], piv, col));
            assert(nm[pr as int][col] == K::spec_div(piv, piv));
            K::law_div_self(piv);
            assert(nm[pr as int][col] == K::spec_one());

            // dimensions
            assert forall|i: int| 0 <= i < m implies (#[trigger] el[i]).len() == n by {
                if i == pr {
                    assert(el[i] == normalize_row(rows[mx as int], piv, col));
                } else {
                    assert(el[i] == elim_row(nm[i], nm[pr as int], col));
                    assert(nm[i] == sw[i]);
                }
            }

            // the pivot column list stays increasing and in range
            assert(strictly_increasing(pc2)) by {
                assert forall|i: int, j: int| 0 <= i < j < pc2.len() implies pc2[i] < pc2[j] by {
                    if j < pivcols.len() {
                        assert(pc2[i] == pivcols[i] && pc2[j] == pivcols[j]);
                    } else {
                        assert(pc2[j] == col);
                        assert(pc2[i] == pivcols[i]);
                    }
                }
            }
            assert forall|k: int| 0 <= k < pr + 1 implies 0 <= #[trigger] pc2[k] < col + 1 by {
                if k < pivcols.len() {
                    assert(pc2[k] == pivcols[k]);
                }
            }

            // each pivot row keeps its one
            assert forall|k: int| 0 <= k < pr + 1 implies el[k][#[trigger] pc2[k]]
                == K::spec_one() by {
                if k < pr {
                    assert(pc2[k] == pivcols[k]);
                    assert(el[k] == elim_row(nm[k], nm[pr as int], col));
                    assert(pivcols[k] < col);
                    assert(el[k][pivcols[k]] == nm[k][pivcols[k]]);
                    assert(nm[k] == sw[k]);
                    assert(sw[k] == rows[k]);
                } else {
                    assert(pc2[k] == col);
                    assert(el[pr as int][col] == K::spec_one());
                }
            }

            // each pivot column is zero outside its own row
            assert forall|k: int, i: int|
                #![trigger el[i], pc2[k]]
                0 <= k < pr + 1 && 0 <= i < m && i != k implies el[i][pc2[k]]
                == K::spec_zero() by {
                if k == pr {
                    assert(pc2[k] == col);
                    assert(el[i] == elim_row(nm[i], nm[pr as int], col));
                    assert(el[i][col] == K::spec_mul_add(
                        K::spec_neg(nm[i][col]),
                        nm[pr as int][col],
                        nm[i][col],
                    ));
                    K::law_mul_add_cancel(nm[i][col]);
                } else {
                    let ck = pivcols[k];
                    assert(pc2[k] == ck);
                    assert(0 <= ck < col);
                    if i == pr {
                        assert(el[i] == normalize_row(rows[mx as int], piv, col));
                        assert(el[i][ck] == rows[mx as int][ck]);
                        assert(mx != k);
                    } else {
                        assert(el[i] == elim_row(nm[i], nm[pr as int], col));
                        assert(el[i][ck] == nm[i][ck]);
                        assert(nm[i] == sw[i]);
                        if i == mx {
                            assert(sw[i] == rows[pr as int]);
                            assert(pr != k);
                        } else {
                            assert(sw[i] == rows[i]);
                        }
                    }
                }
            }

            // columns passed over before keep their zeros
            assert forall|c: int, i: int|
                0 <= c < col + 1 && !pc2.contains(c) && num_pivots_below(pc2, c) <= i
                    < m implies #[trigger] el[i][c] == K::spec_zero() by {
                assert(pc2[pc2.len() - 1] == col);
                assert(c != col);
                if pivcols.contains(c) {
                    let w = choose|t: int| 0 <= t < pivcols.len() && pivcols[t] == c;
                    assert(pc2[w] == c);
                }
                assert(!pivcols.contains(c));
                lemma_npb_push_ge(pivcols, col, c);
                let qc = num_pivots_below(pivcols, c);
                lemma_npb_bounds(pivcols, c);
                assert(qc <= pr);
                if i == pr {
                    assert(el[i] == normalize_row(rows[mx as int], piv, col));
                    assert(el[i][c] == rows[mx as int][c]);
                    assert(qc <= mx < m);
                } else {
                    assert(el[i] == elim_row(nm[i], nm[pr as int], col));
                    assert(el[i][c] == nm[i][c]);
                    assert(nm[i] == sw[i]);
                    if i == mx {
                        assert(sw[i] == rows[pr as int]);
                        assert(qc <= pr < m);
                    } else {
                        assert(sw[i] == rows[i]);
                    }
                }
            }

            assert(reduced_state(el, n, col + 1, pr + 1, pc2));
            lemma_echelon_reduces(el, n, col + 1, pr + 1, pc2);
            assert(echelon_from(rows, n, col, pr) == echelon_from(el, n, col + 1, pr + 1));
            assert(echelon_pivcols(rows, n, col, pr, pivcols) == echelon_pivcols(
                el,
                n,
                col + 1,
                pr + 1,
                pc2,
            ));
        }
    }
}

/// Running the reduction over a fully reduced grid, with the pivot count
/// each column saw, changes nothing.
proof fn lemma_reduced_fixed<K: Scalar>(e: Seq<Seq<K>>, n: int, col: int, pivcols: Seq<int>)
    requires
        0 <= col <= n,
        reduced_state(e, n, n, pivcols.len() as int, pivcols),
    ensures
        echelon_from(e, n, col, num_pivots_below(pivcols, col)) == e,
    decreases n - col,
{
    let m = e.len() as int;
    let q = num_pivots_below(pivcols, col);
    lemma_npb_bounds(pivcols, col);
    if col >= n || q >= m {
        // the reduction stops at once
    } else {
        lemma_npb_step(pivcols, col);
        if pivcols.contains(col) {
            let k = choose|t: int| 0 <= t < pivcols.len() && pivcols[t] == col;
            lemma_npb_at_member(pivcols, k);
            assert(pivcols[q] == col);
            assert(e[q][col] == K::spec_one());
            assert forall|i: int| q + 1 <= i < m implies !K::spec_abs_gt(
                e[i][col],
                e[q][col],
            ) by {
                assert(e[i][col] == K::spec_zero());
                K::law_abs_gt_zero(e[q][col]);
            }
            lemma_pivot_scan_stays(e, col, q + 1, m, q);
            let mx = pivot_select(e, col, q, m);
            assert(mx == q);
            K::law_one_nonzero();
            assert(e[mx][col] != K::spec_zero());
            let sw = swap_rows_spec(e, q, q);
            assert(sw =~~= e);
            let piv = sw[q][col];
            assert(piv == K::spec_one());
            let nr = normalize_row(e[q], piv, col);
            assert forall|j: int| 0 <= j < nr.len() implies nr[j] == e[q][j] by {
                if j >= col {
                    K::law_div_one(e[q][j]);
                }
            }
            assert(nr =~= e[q]);
            let nm = sw.update(q, normalize_row(sw[q], sw[q][col], col));
            assert(nm =~~= e);
            let el = eliminate(nm, q, col);
            assert forall|i: int| 0 <= i < m && i != q implies el[i] =~= e[i] by {
                assert(el[i] == elim_row(e[i], e[q], col));
                assert(e[i][col] == K::spec_zero());
                K::law_neg_zero();
                assert forall|j: int| col <= j < n implies elim_row(e[i], e[q], col)[j]
                    == e[i][j] by {
                    K::law_mul_add_zero(e[q][j], e[i][j]);
                }
            }
            assert(el =~~= e);
            assert(num_pivots_below(pivcols, col + 1) == q + 1);
            lemma_reduced_fixed(e, n, col + 1, pivcols);
            assert(echelon_from(e, n, col, q) == echelon_from(e, n, col + 1, q + 1));
        } else {
            assert forall|i: int| q <= i < m implies e[i][col] == K::spec_zero() by {
            }
            let mx = pivot_select(e, col, q, m);
            lemma_pivot_scan_range(e, col, q + 1, m, q);
            assert(q <= mx < m);
            assert(e[mx][col] == K::spec_zero());
            assert(num_pivots_below(pivcols, col + 1) == q);
            lemma_reduced_fixed(e, n, col + 1, pivcols);
            assert(echelon_from(e, n, col, q) == echelon_from(e, n, col + 1, q));
        }
    }
}

/// Law: row reduction is idempotent.  Reducing a grid a second time
/// returns the first reduction unchanged.
pub proof fn lemma_row_echelon_idempotent<K: Scalar>(a: Seq<Seq<K>>, n: int)
    requires
        0 <= n,
        forall|i: int| 0 <= i < a.len() ==> (#[trigger] a[i]).len() == n,
    ensures
        spec_row_echelon(spec_row_echelon(a, n), n) == spec_row_echelon(a, n),
{
    let noplace = Seq::<int>::empty();
    assert(reduced_state(a, n, 0, 0, noplace));
    lemma_echelon_reduces(a, n, 0, 0, noplace);
    let e = spec_row_echelon(a, n);
    let pc = echelon_pivcols(a, n, 0, 0, noplace);
    assert(reduced_state(e, n, n, pc.len() as int, pc));
    assert forall|i: int| 0 <= i < pc.len() implies #[trigger] pc[i] >= 0 by {
    }
    lemma_npb_all_at_least(pc, 0);
    lemma_reduced_fixed(e, n, 0, pc);
}

} // verus!
