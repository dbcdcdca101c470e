//! Fixed-length vectors over an abstract scalar: construction, in-place
//! elementwise arithmetic, linear combination, dot product and the
//! three-dimensional cross product.

use vstd::prelude::*;
use crate::scalar::Scalar;
use crate::matrix::Matrix;

verus! {

/// An ordered, fixed-length sequence of scalars.  The length is fixed at
/// construction and recorded in `size`; operations on two vectors require
/// matching sizes.
pub struct Vector<K> {
    pub data: Vec<K>,
    pub size: usize,
}

impl<K> View for Vector<K> {
    type V = Seq<K>;

    open spec fn view(&self) -> Seq<K> {
        self.data@
    }
}

impl<K> Vector<K> {
    /// The cached length agrees with the data.
    pub open spec fn wf(&self) -> bool {
        self.size == self.data@.len()
    }

    pub fn new(data: Vec<K>) -> (v: Vector<K>)
        ensures
            v@ == data@,
            v.wf(),
    {
        let size = data.len();
        Vector { data, size }
    }
}

/// The all-zero sequence of the given length.
pub open spec fn zero_seq<K: Scalar>(n: nat) -> Seq<K> {
    Seq::new(n, |i: int| K::spec_zero())
}

/// Elementwise sum, at the length of the left operand.
pub open spec fn spec_vec_add<K: Scalar>(u: Seq<K>, v: Seq<K>) -> Seq<K> {
    Seq::new(u.len(), |i: int| K::spec_add(u[i], v[i]))
}

/// Elementwise difference, at the length of the left operand.
pub open spec fn spec_vec_sub<K: Scalar>(u: Seq<K>, v: Seq<K>) -> Seq<K> {
    Seq::new(u.len(), |i: int| K::spec_sub(u[i], v[i]))
}

/// Elementwise scaling.
pub open spec fn spec_vec_scl<K: Scalar>(u: Seq<K>, a: K) -> Seq<K> {
    Seq::new(u.len(), |i: int| K::spec_mul(u[i], a))
}

/// The dot product of the first `k` components, accumulated front to back
/// with the fused multiply-add, starting from zero.
pub open spec fn spec_dot_prefix<K: Scalar>(u: Seq<K>, v: Seq<K>, k: int) -> K
    decreases k,
{
    if k <= 0 {
        K::spec_zero()
    } else {
        K::spec_mul_add(u[k - 1], v[k - 1], spec_dot_prefix(u, v, k - 1))
    }
}

/// The dot product of two equally long vectors.
pub open spec fn spec_dot<K: Scalar>(u: Seq<K>, v: Seq<K>) -> K {
    spec_dot_prefix(u, v, u.len() as int)
}

/// One step of a linear combination: fold `u` scaled by `c` into the
/// accumulator, componentwise, with the fused multiply-add.
pub open spec fn spec_lincomb_step<K: Scalar>(acc: Seq<K>, u: Seq<K>, c: K) -> Seq<K> {
    Seq::new(acc.len(), |j: int| K::spec_mul_add(u[j], c, acc[j]))
}

/// The linear combination of the first `k` vectors, starting from the zero
/// vector of length `n`.
pub open spec fn spec_lincomb_prefix<K: Scalar>(us: Seq<Seq<K>>, cs: Seq<K>, n: nat, k: int) -> Seq<
    K,
>
    decreases k,
{
    if k <= 0 {
        zero_seq(n)
    } else {
        spec_lincomb_step(spec_lincomb_prefix(us, cs, n, k - 1), us[k - 1], cs[k - 1])
    }
}

/// The full linear combination `sum_i cs[i] * us[i]` over vectors of length
/// `n`.
pub open spec fn spec_linear_combination<K: Scalar>(us: Seq<Seq<K>>, cs: Seq<K>, n: nat) -> Seq<K> {
    spec_lincomb_prefix(us, cs, n, us.len() as int)
}

/// The views of a sequence of vectors.
pub open spec fn views_of<K>(vs: Seq<Vector<K>>) -> Seq<Seq<K>> {
    Seq::new(vs.len(), |i: int| vs[i]@)
}

/// The three-dimensional cross product, each component one fused
/// multiply-add and one negation.
pub open spec fn spec_cross<K: Scalar>(u: Seq<K>, v: Seq<K>) -> Seq<K> {
    seq![
        K::spec_mul_add(u[1], v[2], K::spec_neg(K::spec_mul(u[2], v[1]))),
        K::spec_mul_add(u[2], v[0], K::spec_neg(K::spec_mul(u[0], v[2]))),
        K::spec_mul_add(u[0], v[1], K::spec_neg(K::spec_mul(u[1], v[0]))),
    ]
}

impl<K: Scalar> Vector<K> {
    pub fn clone(&self) -> (r: Vector<K>)
        requires
            self.wf(),
        ensures
            r@ == self@,
            r.wf(),
            r.size == self.size,
    {
        let n = self.size;
        let mut data: Vec<K> = Vec::new();
        for i in 0..n
            invariant
                self.wf(),
                self.size == n,
                data@ =~= self@.take(i as int),
        {
            data.push(self.data[i]);
        }
        proof {
            assert(data@ =~= self@);
        }
        Vector::new(data)
    }

    /// Reinterpret the vector as a single-column matrix.
    pub fn vtom(&self) -> (m: Matrix<K>)
        requires
            self.wf(),
        ensures
            m.wf(),
            m.size_y == self.size,
            m.size_x == 1,
            m@ == Seq::new(self@.len(), |i: int| seq![self@[i]]),
    {
        let n = self.size;
        let mut rows: Vec<Vec<K>> = Vec::new();
        for i in 0..n
            invariant
                self.wf(),
                self.size == n,
                rows@.len() == i,
                forall|k: int| 0 <= k < i ==> (#[trigger] rows@[k])@ =~= seq![self@[k]],
        {
            let mut row: Vec<K> = Vec::new();
            row.push(self.data[i]);
            rows.push(row);
        }
        let m = Matrix { size_x: 1, size_y: n, is_square: n == 1, data: rows };
        proof {
            assert(m@ =~~= Seq::new(self@.len(), |i: int| seq![self@[i]]));
        }
        m
    }

    /// Add `v` to `self` in place, componentwise.
    pub fn add(&mut self, v: &Vector<K>)
        requires
            old(self).wf(),
            v.wf(),
            v.size == old(self).size,
        ensures
            final(self).wf(),
            final(self).size == old(self).size,
            final(self)@ == spec_vec_add(old(self)@, v@),
    {
        let ghost orig: Seq<K> = self@;
        let n = self.size;
        for i in 0..n
            invariant
                self.wf(),
                v.wf(),
                self.size == n,
                v.size == n,
                orig.len() == n,
                forall|j: int| 0 <= j < i ==> self@[j] == K::spec_add(orig[j], v@[j]),
                forall|j: int| i <= j < n ==> self@[j] == orig[j],
        {
            let val = self.data[i].add(v.data[i]);
            assert(val == K::spec_add(orig[i as int], v@[i as int]));
            self.data[i] = val;
            assert(self@[i as int] == val);
            assert(forall|j: int| 0 <= j < i ==> self@[j] == K::spec_add(orig[j], v@[j]));
        }
        proof {
            assert(self@ =~= spec_vec_add(orig, v@));
        }
    }

    /// Subtract `v` from `self` in place, componentwise.
    pub fn sub(&mut self, v: &Vector<K>)
        requires
            old(self).wf(),
            v.wf(),
            v.size == old(self).size,
        ensures
            final(self).wf(),
            final(self).size == old(self).size,
            final(self)@ == spec_vec_sub(old(self)@, v@),
    {
        let ghost orig: Seq<K> = self@;
        let n = self.size;
        for i in 0..n
            invariant
                self.wf(),
                v.wf(),
                self.size == n,
                v.size == n,
                orig.len() == n,
                forall|j: int| 0 <= j < i ==> self@[j] == K::spec_sub(orig[j], v@[j]),
                forall|j: int| i <= j < n ==> self@[j] == orig[j],
        {
            let val = self.data[i].sub(v.data[i]);
            assert(val == K::spec_sub(orig[i as int], v@[i as int]));
            self.data[i] = val;
            assert(self@[i as int] == val);
            assert(forall|j: int| 0 <= j < i ==> self@[j] == K::spec_sub(orig[j], v@[j]));
        }
        proof {
            assert(self@ =~= spec_vec_sub(orig, v@));
        }
    }

    /// Scale `self` in place by `a`.
    pub fn scl(&mut self, a: K)
        requires
            old(self).wf(),
        ensures
            final(self).wf(),
            final(self).size == old(self).size,
            final(self)@ == spec_vec_scl(old(self)@, a),
    {
        let ghost orig: Seq<K> = self@;
        let n = self.size;
        for i in 0..n
            invariant
                self.wf(),
                self.size == n,
                orig.len() == n,
                forall|j: int| 0 <= j < i ==> self@[j] == K::spec_mul(orig[j], a),
                forall|j: int| i <= j < n ==> self@[j] == orig[j],
        {
            let val = self.data[i].mul(a);
            assert(val == K::spec_mul(orig[i as int], a));
            self.data[i] = val;
            assert(self@[i as int] == val);
            assert(forall|j: int| 0 <= j < i ==> self@[j] == K::spec_mul(orig[j], a));
        }
        proof {
            assert(self@ =~= spec_vec_scl(orig, a));
        }
    }

    /// The linear combination `sum_i coefs[i] * u[i]`, accumulated with the
    /// fused multiply-add.  The vectors and the coefficients must come in
    /// equal number, and the vectors must share one size.
    pub fn linear_combination(u: &[Vector<K>], coefs: &[K]) -> (r: Vector<K>)
        requires
            u@.len() == coefs@.len(),
            forall|i: int| 0 <= i < u@.len() ==> (#[trigger] u@[i]).wf(),
            forall|i: int| 0 <= i < u@.len() ==> (#[trigger] u@[i]).size == u@[0].size,
        ensures
            r.wf(),
            r.size == if u@.len() > 0 {
                u@[0].size as int
            } else {
                0int
            },
            r@ == spec_linear_combination(
                views_of(u@),
                coefs@,
                if u@.len() > 0 {
                    u@[0].size as nat
                } else {
                    0nat
                },
            ),
    {
        let n: usize = if u.len() > 0 {
            u[0].size
        } else {
            0
        };
        let mut result: Vec<K> = Vec::new();
        for j in 0..n
            invariant
                result@ =~= zero_seq::<K>(n as nat).take(j as int),
        {
            result.push(K::zero());
        }
        proof {
            assert(result@ =~= zero_seq::<K>(n as nat));
        }
        let m = u.len();
        for i in 0..m
            invariant
                u@.len() == m,
                coefs@.len() == m,
                forall|k: int| 0 <= k < m ==> (#[trigger] u@[k]).wf(),
                forall|k: int| 0 <= k < m ==> (#[trigger] u@[k]).size == n,
                result@.len() == n,
                result@ == spec_lincomb_prefix(views_of(u@), coefs@, n as nat, i as int),
        {
            let ghost prev: Seq<K> = result@;
            let c = coefs[i];
            for j in 0..n
                invariant
                    u@.len() == m,
                    coefs@.len() == m,
                    i < m,
                    c == coefs@[i as int],
                    forall|k: int| 0 <= k < m ==> (#[trigger] u@[k]).wf(),
                    forall|k: int| 0 <= k < m ==> (#[trigger] u@[k]).size == n,
                    result@.len() == n,
                    prev.len() == n,
                    forall|k: int|
                        0 <= k < j ==> result@[k] == K::spec_mul_add(
                            u@[i as int]@[k],
                            c,
                            prev[k],
                        ),
                    forall|k: int| j <= k < n ==> result@[k] == prev[k],
            {
                result[j] = u[i].data[j].mul_add(c, result[j]);
            }
            proof {
                assert(result@ =~= spec_lincomb_step(prev, u@[i as int]@, c));
            }
        }
        Vector::new(result)
    }

    /// The dot product of `self` and `v`.
    pub fn dot(&self, v: Vector<K>) -> (r: K)
        requires
            self.wf(),
            v.wf(),
            v.size == self.size,
        ensures
            r == spec_dot(self@, v@),
    {
        let mut result = K::zero();
        let n = self.size;
        for i in 0..n
            invariant
                self.wf(),
                v.wf(),
                self.size == n,
                v.size == n,
                result == spec_dot_prefix(self@, v@, i as int),
        {
            result = self.data[i].mul_add(v.data[i], result);
        }
        result
    }

    /// The cross product of two three-dimensional vectors, each component
    /// one fused multiply-add and one negation.
    pub fn cross_product(u: &Vector<K>, v: &Vector<K>) -> (r: Vector<K>)
        requires
            u.wf(),
            v.wf(),
            u.size == 3,
            v.size == 3,
        ensures
            r.wf(),
            r.size == 3,
            r@ == spec_cross(u@, v@),
    {
        let mut data: Vec<K> = Vec::new();
        data.push(u.data[1].mul_add(v.data[2], (u.data[2].mul(v.data[1])).neg()));
        data.push(u.data[2].mul_add(v.data[0], (u.data[0].mul(v.data[2])).neg()));
        data.push(u.data[0].mul_add(v.data[1], (u.data[1].mul(v.data[0])).neg()));
        proof {
            assert(data@ =~= spec_cross(u@, v@));
        }
        Vector::new(data)
    }
}

proof fn lemma_dot_prefix_commutes<K: Scalar>(u: Seq<K>, v: Seq<K>, k: int)
    ensures
        spec_dot_prefix(u, v, k) == spec_dot_prefix(v, u, k),
    decreases k,
{
    if k > 0 {
        lemma_dot_prefix_commutes(u, v, k - 1);
        K::law_mul_add_comm(u[k - 1], v[k - 1], spec_dot_prefix(u, v, k - 1));
    }
}

/// Law: the dot product is commutative.  For vectors of one length, the two
/// orders of arguments give the same scalar.
pub proof fn lemma_dot_commutes<K: Scalar>(u: Seq<K>, v: Seq<K>)
    requires
        u.len() == v.len(),
    ensures
        spec_dot(u, v) == spec_dot(v, u),
{
    lemma_dot_prefix_commutes(u, v, u.len() as int);
}

} // verus!
