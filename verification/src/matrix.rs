//! Rectangular matrices over an abstract scalar: construction, elementwise
//! arithmetic, matrix and matrix-vector products, trace, transpose and the
//! cofactor determinant (up to 4x4).

use vstd::prelude::*;
use crate::scalar::Scalar;
use crate::vector::Vector;
use crate::vector::{spec_dot, spec_dot_prefix, spec_vec_add, spec_vec_scl, spec_vec_sub};

verus! {

/// An error a matrix operation can report.
#[derive(Clone, Copy, Debug, PartialEq, Eq, Structural)]
pub enum MatrixError {
    /// The matrix has no multiplicative inverse.
    Singular,
}

/// A `size_y` x `size_x` grid of scalars, row-major.  The dimensions are
/// fixed at construction; operations check them against their operands.
pub struct Matrix<K> {
    pub size_x: usize,
    pub size_y: usize,
    pub is_square: bool,
    pub data: Vec<Vec<K>>,
}

impl<K> View for Matrix<K> {
    type V = Seq<Seq<K>>;

    open spec fn view(&self) -> Seq<Seq<K>> {
        Seq::new(self.data@.len(), |i: int| self.data@[i]@)
    }
}

impl<K> Matrix<K> {
    /// The cached dimensions agree with the data: `size_y` rows, each of
    /// `size_x` entries, and the squareness flag derived from the two.  A
    /// matrix with no rows keeps its column count, so shape-changing
    /// operations such as `transpose` preserve every dimension.
    pub open spec fn wf(&self) -> bool {
        &&& self.size_y == self.data@.len()
        &&& forall|i: int| 0 <= i < self.data@.len() ==> (#[trigger] self.data@[i])@.len()
            == self.size_x
        &&& self.is_square == (self.size_x == self.size_y)
    }

    /// Build a matrix from its rows, which must be equally long.
    pub fn new(data: Vec<Vec<K>>) -> (m: Matrix<K>)
        requires
            forall|i: int| 0 <= i < data@.len() ==> (#[trigger] data@[i])@.len()
                == data@[0]@.len(),
        ensures
            m.wf(),
            m.size_y == data@.len(),
            m.size_x == if data@.len() > 0 {
                data@[0]@.len()
            } else {
                0
            },
            m@ == Seq::new(data@.len(), |i: int| data@[i]@),
    {
        let size_y = data.len();
        let size_x = if size_y > 0 {
            data[0].len()
        } else {
            0
        };
        let is_square = size_x == size_y;
        Matrix { size_x, size_y, is_square, data }
    }
}

/// Rowwise sum, at the shape of the left operand.
pub open spec fn spec_mat_add<K: Scalar>(a: Seq<Seq<K>>, b: Seq<Seq<K>>) -> Seq<Seq<K>> {
    Seq::new(a.len(), |i: int| spec_vec_add(a[i], b[i]))
}

/// Rowwise difference, at the shape of the left operand.
pub open spec fn spec_mat_sub<K: Scalar>(a: Seq<Seq<K>>, b: Seq<Seq<K>>) -> Seq<Seq<K>> {
    Seq::new(a.len(), |i: int| spec_vec_sub(a[i], b[i]))
}

/// Rowwise scaling.
pub open spec fn spec_mat_scl<K: Scalar>(a: Seq<Seq<K>>, c: K) -> Seq<Seq<K>> {
    Seq::new(a.len(), |i: int| spec_vec_scl(a[i], c))
}

/// Column `j` of a row-major grid, as a sequence.
pub open spec fn col_of<K>(b: Seq<Seq<K>>, j: int) -> Seq<K> {
    Seq::new(b.len(), |k: int| b[k][j])
}

/// The matrix product: entry `(i, j)` is the dot product of row `i` of `a`
/// with column `j` of `b`, accumulated with the fused multiply-add.
pub open spec fn spec_mul_mat<K: Scalar>(a: Seq<Seq<K>>, b: Seq<Seq<K>>, p: nat) -> Seq<Seq<K>> {
    Seq::new(a.len(), |i: int| Seq::new(p, |j: int| spec_dot(a[i], col_of(b, j))))
}

/// The matrix-vector product, as a single-column grid.
pub open spec fn spec_mul_vec<K: Scalar>(a: Seq<Seq<K>>, v: Seq<K>) -> Seq<Seq<K>> {
    Seq::new(a.len(), |i: int| seq![spec_dot(a[i], v)])
}

/// The sum of the first `k` diagonal entries, accumulated front to back.
pub open spec fn spec_trace_prefix<K: Scalar>(a: Seq<Seq<K>>, k: int) -> K
    decreases k,
{
    if k <= 0 {
        K::spec_zero()
    } else {
        K::spec_add(spec_trace_prefix(a, k - 1), a[k - 1][k - 1])
    }
}

/// The trace of a square grid: the sum of its diagonal.
pub open spec fn spec_trace<K: Scalar>(a: Seq<Seq<K>>) -> K {
    spec_trace_prefix(a, a.len() as int)
}

/// The transpose of an `m` x `n` grid.
pub open spec fn spec_transpose<K>(a: Seq<Seq<K>>, m: nat, n: nat) -> Seq<Seq<K>> {
    Seq::new(n, |j: int| Seq::new(m, |i: int| a[i][j]))
}

/// The minor of an `n` x `n` grid obtained by deleting row 0 and column `c`.
pub open spec fn spec_minor<K>(a: Seq<Seq<K>>, n: nat, c: int) -> Seq<Seq<K>> {
    Seq::new(
        (n - 1) as nat,
        |i: int|
            Seq::new(
                (n - 1) as nat,
                |j: int|
                    a[i + 1][if j < c {
                        j
                    } else {
                        j + 1
                    }],
            ),
    )
}

/// The 2x2 determinant `ad - bc`, one fused multiply-add and one negation.
pub open spec fn spec_det2<K: Scalar>(a: Seq<Seq<K>>) -> K {
    K::spec_mul_add(a[0][0], a[1][1], K::spec_neg(K::spec_mul(a[0][1], a[1][0])))
}

/// The 3x3 determinant: three-term cofactor expansion along the first row,
/// each 2x2 minor as in `spec_det2`.
pub open spec fn spec_det3<K: Scalar>(a: Seq<Seq<K>>) -> K {
    K::spec_add(
        K::spec_sub(
            K::spec_mul(a[0][0], spec_det2(spec_minor(a, 3, 0))),
            K::spec_mul(a[0][1], spec_det2(spec_minor(a, 3, 1))),
        ),
        K::spec_mul(a[0][2], spec_det2(spec_minor(a, 3, 2))),
    )
}

/// The first `k` cofactor terms of the 4x4 expansion along the first row,
/// signs alternating with the column index, accumulated with the fused
/// multiply-add.
pub open spec fn spec_det4_prefix<K: Scalar>(a: Seq<Seq<K>>, k: int) -> K
    decreases k,
{
    if k <= 0 {
        K::spec_zero()
    } else {
        let f = if (k - 1) % 2 == 0 {
            a[0][k - 1]
        } else {
            K::spec_neg(a[0][k - 1])
        };
        K::spec_mul_add(f, spec_det3(spec_minor(a, 4, k - 1)), spec_det4_prefix(a, k - 1))
    }
}

/// The 4x4 determinant by cofactor expansion along the first row.
pub open spec fn spec_det4<K: Scalar>(a: Seq<Seq<K>>) -> K {
    spec_det4_prefix(a, 4)
}

/// The determinant of an `n` x `n` grid, for `n` up to four.
pub open spec fn spec_determinant<K: Scalar>(a: Seq<Seq<K>>, n: nat) -> K {
    if n == 0 {
        K::spec_one()
    } else if n == 1 {
        a[0][0]
    } else if n == 2 {
        spec_det2(a)
    } else if n == 3 {
        spec_det3(a)
    } else {
        spec_det4(a)
    }
}

impl<K: Scalar> Matrix<K> {
    pub fn clone(&self) -> (r: Matrix<K>)
        requires
            self.wf(),
        ensures
            r.wf(),
            r@ == self@,
            r.size_x == self.size_x,
            r.size_y == self.size_y,
            r.is_square == self.is_square,
    {
        let m = self.size_y;
        let n = self.size_x;
        let mut rows: Vec<Vec<K>> = Vec::new();
        #[verifier::loop_isolation(false)]
        for i in 0..m
            invariant
                rows@.len() == i,
                forall|r: int| 0 <= r < i ==> (#[trigger] rows@[r])@ == self@[r],
        {
            let mut row: Vec<K> = Vec::new();
            #[verifier::loop_isolation(false)]
            for j in 0..n
                invariant
                    row@ =~= self@[i as int].take(j as int),
            {
                row.push(self.data[i][j]);
            }
            proof {
                assert(row@ =~= self@[i as int]);
            }
            rows.push(row);
        }
        let r = Matrix { size_x: n, size_y: m, is_square: self.is_square, data: rows };
        proof {
            assert(r@ =~~= self@);
        }
        r
    }

    /// Add `v` to `self` in place, entrywise.
    pub fn add(&mut self, v: &Matrix<K>)
        requires
            old(self).wf(),
            v.wf(),
            v.size_x == old(self).size_x,
            v.size_y == old(self).size_y,
        ensures
            final(self).wf(),
            final(self).size_x == old(self).size_x,
            final(self).size_y == old(self).size_y,
            final(self).is_square == old(self).is_square,
            final(self)@ == spec_mat_add(old(self)@, v@),
    {
        let ghost orig: Seq<Seq<K>> = self@;
        let m = self.size_y;
        let n = self.size_x;
        #[verifier::loop_isolation(false)]
        for i in 0..m
            invariant
                self.wf(),
                self.size_y == m,
                self.size_x == n,
                self.is_square == old(self).is_square,
                forall|r: int| 0 <= r < i ==> (#[trigger] self.data@[r])@ == spec_vec_add(
                    orig[r],
                    v@[r],
                ),
                forall|r: int| i <= r < m ==> (#[trigger] self.data@[r])@ == orig[r],
        {
            #[verifier::loop_isolation(false)]
            for j in 0..n
                invariant
                    self.wf(),
                    self.size_y == m,
                    self.size_x == n,
                    self.is_square == old(self).is_square,
                    forall|r: int| 0 <= r < i ==> (#[trigger] self.data@[r])@ == spec_vec_add(
                        orig[r],
                        v@[r],
                    ),
                    forall|r: int| i < r < m ==> (#[trigger] self.data@[r])@ == orig[r],
                    forall|c: int| 0 <= c < j ==> (#[trigger] self.data@[i as int]@[c])
                        == K::spec_add(orig[i as int][c], v@[i as int][c]),
                    forall|c: int| j <= c < n ==> (#[trigger] self.data@[i as int]@[c])
                        == orig[i as int][c],
            {
                proof {
                    assert(v@[i as int] == v.data@[i as int]@);
                }
                let val = self.data[i][j].add(v.data[i][j]);
                assert(val == K::spec_add(orig[i as int][j as int], v@[i as int][j as int]));
                self.data[i][j] = val;
                assert(self.data@[i as int]@[j as int] == val);
            }
            proof {
                assert(self.data@[i as int]@ =~= spec_vec_add(orig[i as int], v@[i as int]));
            }
        }
        proof {
            assert(self@ =~~= spec_mat_add(orig, v@));
        }
    }

    /// Subtract `v` from `self` in place, entrywise.
    pub fn sub(&mut self, v: &Matrix<K>)
        requires
            old(self).wf(),
            v.wf(),
            v.size_x == old(self).size_x,
            v.size_y == old(self).size_y,
        ensures
            final(self).wf(),
            final(self).size_x == old(self).size_x,
            final(self).size_y == old(self).size_y,
            final(self).is_square == old(self).is_square,
            final(self)@ == spec_mat_sub(old(self)@, v@),
    {
        let ghost orig: Seq<Seq<K>> = self@;
        let m = self.size_y;
        let n = self.size_x;
        #[verifier::loop_isolation(false)]
        for i in 0..m
            invariant
                self.wf(),
                self.size_y == m,
                self.size_x == n,
                self.is_square == old(self).is_square,
                forall|r: int| 0 <= r < i ==> (#[trigger] self.data@[r])@ == spec_vec_sub(
                    orig[r],
                    v@[r],
                ),
                forall|r: int| i <= r < m ==> (#[trigger] self.data@[r])@ == orig[r],
        {
            #[verifier::loop_isolation(false)]
            for j in 0..n
                invariant
                    self.wf(),
                    self.size_y == m,
                    self.size_x == n,
                    self.is_square == old(self).is_square,
                    forall|r: int| 0 <= r < i ==> (#[trigger] self.data@[r])@ == spec_vec_sub(
                        orig[r],
                        v@[r],
                    ),
                    forall|r: int| i < r < m ==> (#[trigger] self.data@[r])@ == orig[r],
                    forall|c: int| 0 <= c < j ==> (#[trigger] self.data@[i as int]@[c])
                        == K::spec_sub(orig[i as int][c], v@[i as int][c]),
                    forall|c: int| j <= c < n ==> (#[trigger] self.data@[i as int]@[c])
                        == orig[i as int][c],
            {
                proof {
                    assert(v@[i as int] == v.data@[i as int]@);
                }
                let val = self.data[i][j].sub(v.data[i][j]);
                assert(val == K::spec_sub(orig[i as int][j as int], v@[i as int][j as int]));
                self.data[i][j] = val;
                assert(self.data@[i as int]@[j as int] == val);
            }
            proof {
                assert(self.data@[i as int]@ =~= spec_vec_sub(orig[i as int], v@[i as int]));
            }
        }
        proof {
            assert(self@ =~~= spec_mat_sub(orig, v@));
        }
    }

    /// Scale `self` in place by `a`.
    pub fn scl(&mut self, a: K)
        requires
            old(self).wf(),
        ensures
            final(self).wf(),
            final(self).size_x == old(self).size_x,
            final(self).size_y == old(self).size_y,
            final(self).is_square == old(self).is_square,
            final(self)@ == spec_mat_scl(old(self)@, a),
    {
        let ghost orig: Seq<Seq<K>> = self@;
        let m = self.size_y;
        let n = self.size_x;
        #[verifier::loop_isolation(false)]
        for i in 0..m
            invariant
                self.wf(),
                self.size_y == m,
                self.size_x == n,
                self.is_square == old(self).is_square,
                forall|r: int| 0 <= r < i ==> (#[trigger] self.data@[r])@ == spec_vec_scl(
                    orig[r],
                    a,
                ),
                forall|r: int| i <= r < m ==> (#[trigger] self.data@[r])@ == orig[r],
        {
            #[verifier::loop_isolation(false)]
            for j in 0..n
                invariant
                    self.wf(),
                    self.size_y == m,
                    self.size_x == n,
                    self.is_square == old(self).is_square,
                    forall|r: int| 0 <= r < i ==> (#[trigger] self.data@[r])@ == spec_vec_scl(
                        orig[r],
                        a,
                    ),
                    forall|r: int| i < r < m ==> (#[trigger] self.data@[r])@ == orig[r],
                    forall|c: int| 0 <= c < j ==> (#[trigger] self.data@[i as int]@[c])
                        == K::spec_mul(orig[i as int][c], a),
                    forall|c: int| j <= c < n ==> (#[trigger] self.data@[i as int]@[c])
                        == orig[i as int][c],
            {
                let val = self.data[i][j].mul(a);
                assert(val == K::spec_mul(orig[i as int][j as int], a));
                self.data[i][j] = val;
                assert(self.data@[i as int]@[j as int] == val);
            }
            proof {
                assert(self.data@[i as int]@ =~= spec_vec_scl(orig[i as int], a));
            }
        }
        proof {
            assert(self@ =~~= spec_mat_scl(orig, a));
        }
    }

    /// The matrix product of `self` (m x n) and `mat` (n x p).
    pub fn mul_mat(&self, mat: Matrix<K>) -> (r: Matrix<K>)
        requires
            self.wf(),
            mat.wf(),
            mat.size_y == self.size_x,
        ensures
            r.wf(),
            r.size_y == self.size_y,
            r.size_x == mat.size_x,
            r@ == spec_mul_mat(self@, mat@, mat.size_x as nat),
    {
        let m = self.size_y;
        let n = self.size_x;
        let p = mat.size_x;
        let mut rows: Vec<Vec<K>> = Vec::new();
        #[verifier::loop_isolation(false)]
        for i in 0..m
            invariant
                rows@.len() == i,
                forall|r: int| 0 <= r < i ==> (#[trigger] rows@[r])@ == Seq::new(
                    p as nat,
                    |j: int| spec_dot(self@[r], col_of(mat@, j)),
                ),
        {
            let mut row: Vec<K> = Vec::new();
            #[verifier::loop_isolation(false)]
            for j in 0..p
                invariant
                    row@.len() == j,
                    forall|c: int| 0 <= c < j ==> #[trigger] row@[c] == spec_dot(
                        self@[i as int],
                        col_of(mat@, c),
                    ),
            {
                let mut acc = K::zero();
                #[verifier::loop_isolation(false)]
                for k in 0..n
                    invariant
                        acc == spec_dot_prefix(self@[i as int], col_of(mat@, j as int), k as int),
                {
                    acc = self.data[i][k].mul_add(mat.data[k][j], acc);
                }
                proof {
                    assert(acc == spec_dot(self@[i as int], col_of(mat@, j as int)));
                }
                row.push(acc);
            }
            proof {
                assert(row@ =~= Seq::new(p as nat, |j: int| spec_dot(self@[i as int], col_of(mat@, j))));
            }
            rows.push(row);
        }
        let r = Matrix { size_x: p, size_y: m, is_square: p == m, data: rows };
        proof {
            assert(r@ =~~= spec_mul_mat(self@, mat@, p as nat));
        }
        r
    }

    /// The matrix-vector product of `self` (m x n) and an n-vector, as an
    /// m x 1 matrix.
    pub fn mul_vec(&self, vec: Vector<K>) -> (r: Matrix<K>)
        requires
            self.wf(),
            vec.wf(),
            vec.size == self.size_x,
        ensures
            r.wf(),
            r.size_y == self.size_y,
            r.size_x == 1,
            r@ == spec_mul_vec(self@, vec@),
    {
        let m = self.size_y;
        let n = self.size_x;
        let mut rows: Vec<Vec<K>> = Vec::new();
        #[verifier::loop_isolation(false)]
        for i in 0..m
            invariant
                rows@.len() == i,
                forall|r: int| 0 <= r < i ==> (#[trigger] rows@[r])@ == seq![
                    spec_dot(self@[r], vec@),
                ],
        {
            let mut acc = K::zero();
            #[verifier::loop_isolation(false)]
            for k in 0..n
                invariant
                    acc == spec_dot_prefix(self@[i as int], vec@, k as int),
            {
                acc = self.data[i][k].mul_add(vec.data[k], acc);
            }
            let mut row: Vec<K> = Vec::new();
            row.push(acc);
            proof {
                assert(row@ =~= seq![spec_dot(self@[i as int], vec@)]);
            }
            rows.push(row);
        }
        let r = Matrix { size_x: 1, size_y: m, is_square: m == 1, data: rows };
        proof {
            assert(r@ =~~= spec_mul_vec(self@, vec@));
        }
        r
    }

    /// The trace of a square matrix: the sum of its diagonal entries.
    pub fn trace(&self) -> (r: K)
        requires
            self.wf(),
            self.is_square,
        ensures
            r == spec_trace(self@),
    {
        let m = self.size_y;
        let mut result = K::zero();
        #[verifier::loop_isolation(false)]
        for i in 0..m
            invariant
                result == spec_trace_prefix(self@, i as int),
        {
            result = result.add(self.data[i][i]);
        }
        result
    }

    /// The transpose: entry `(j, i)` of the result is entry `(i, j)` of
    /// `self`.
    pub fn transpose(&self) -> (r: Matrix<K>)
        requires
            self.wf(),
        ensures
            r.wf(),
            r.size_y == self.size_x,
            r.size_x == self.size_y,
            r.is_square == self.is_square,
            r@ == spec_transpose(self@, self.size_y as nat, self.size_x as nat),
    {
        let m = self.size_y;
        let n = self.size_x;
        let mut rows: Vec<Vec<K>> = Vec::new();
        #[verifier::loop_isolation(false)]
        for j in 0..n
            invariant
                rows@.len() == j,
                forall|r: int| 0 <= r < j ==> (#[trigger] rows@[r])@ == Seq::new(
                    m as nat,
                    |i: int| self@[i][r],
                ),
        {
            let mut row: Vec<K> = Vec::new();
            #[verifier::loop_isolation(false)]
            for i in 0..m
                invariant
                    row@.len() == i,
                    forall|c: int| 0 <= c < i ==> #[trigger] row@[c] == self@[c][j as int],
            {
                row.push(self.data[i][j]);
            }
            proof {
                assert(row@ =~= Seq::new(m as nat, |i: int| self@[i][j as int]));
            }
            rows.push(row);
        }
        let r = Matrix { size_x: m, size_y: n, is_square: self.is_square, data: rows };
        proof {
            assert(r@ =~~= spec_transpose(self@, m as nat, n as nat));
        }
        r
    }

    /// The determinant, by explicit formulas up to 3x3 and cofactor
    /// expansion along the first row for 4x4.  Larger sizes are outside this
    /// operation's domain.
    pub fn determinant(&self) -> (r: K)
        requires
            self.wf(),
            self.is_square,
            self.size_y <= 4,
        ensures
            r == spec_determinant(self@, self.size_y as nat),
        decreases self.size_y,
    {
        let n = self.size_y;
        if n == 0 {
            K::one()
        } else if n == 1 {
            self.data[0][0]
        } else if n == 2 {
            self.data[0][0].mul_add(
                self.data[1][1],
                (self.data[0][1].mul(self.data[1][0])).neg(),
            )
        } else if n == 3 {
            let m0 = self.data[1][1].mul_add(
                self.data[2][2],
                (self.data[1][2].mul(self.data[2][1])).neg(),
            );
            let m1 = self.data[1][0].mul_add(
                self.data[2][2],
                (self.data[1][2].mul(self.data[2][0])).neg(),
            );
            let m2 = self.data[1][0].mul_add(
                self.data[2][1],
                (self.data[1][1].mul(self.data[2][0])).neg(),
            );
            proof {
                assert(m0 == spec_det2(spec_minor(self@, 3, 0)));
                assert(m1 == spec_det2(spec_minor(self@, 3, 1)));
                assert(m2 == spec_det2(spec_minor(self@, 3, 2)));
            }
            (self.data[0][0].mul(m0).sub(self.data[0][1].mul(m1))).add(self.data[0][2].mul(m2))
        } else {
            let mut result = K::zero();
            #[verifier::loop_isolation(false)]
            for i in 0..4usize
                invariant
                    result == spec_det4_prefix(self@, i as int),
            {
                let mut subrows: Vec<Vec<K>> = Vec::new();
                #[verifier::loop_isolation(false)]
                for j in 1..4usize
                    invariant
                        subrows@.len() == j - 1,
                        forall|r: int| 0 <= r < j - 1 ==> (#[trigger] subrows@[r])@ == spec_minor(
                            self@,
                            4,
                            i as int,
                        )[r],
                {
                    let mut row: Vec<K> = Vec::new();
                    #[verifier::loop_isolation(false)]
                    for k in 0..4usize
                        invariant
                            row@.len() == if k <= i {
                                k as int
                            } else {
                                k - 1
                            },
                            forall|c: int| 0 <= c < row@.len() ==> #[trigger] row@[c]
                                == self@[j as int][if c < i {
                                    c
                                } else {
                                    c + 1
                                }],
                    {
                        if k != i {
                            row.push(self.data[j][k]);
                        }
                    }
                    proof {
                        assert(row@ =~= spec_minor(self@, 4, i as int)[j - 1]);
                    }
                    subrows.push(row);
                }
                let submatrix = Matrix::new(subrows);
                proof {
                    assert(submatrix@ =~~= spec_minor(self@, 4, i as int));
                }
                let d = submatrix.determinant();
                if i % 2 == 0 {
                    result = self.data[0][i].mul_add(d, result);
                } else {
                    result = self.data[0][i].neg().mul_add(d, result);
                }
            }
            result
        }
    }
}

/// Law: transposing twice gives the original grid back.  Stated over views:
/// for a rectangular `m` x `n` grid, the double transpose is the grid
/// itself.
pub proof fn lemma_transpose_involutive<K>(a: Seq<Seq<K>>, m: nat, n: nat)
    requires
        a.len() == m,
        forall|i: int| 0 <= i < m ==> (#[trigger] a[i]).len() == n,
    ensures
        spec_transpose(spec_transpose(a, m, n), n, m) == a,
{
    assert(spec_transpose(spec_transpose(a, m, n), n, m) =~~= a);
}

} // verus!
