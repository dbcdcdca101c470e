//! The scalar bound: the capability set a numeric type must provide so that
//! `Vector` and `Matrix` can be instantiated with it.
//!
//! Every executable operation is pinned to a spec-level counterpart
//! (`spec_add`, `spec_mul_add`, ...) that the implementing type defines, so
//! every vector and matrix contract can state its result exactly as a term
//! over those operations.  A handful of proof obligations (the `law_*`
//! functions) state the little algebra the generic proofs rely on; an
//! implementation must prove them for its own operations.
//!
//! The crate ships one verified instance, `i64` with wrapping arithmetic and
//! truncating division.  Callers are free to instantiate the containers with
//! scalar types of their own (fixed point, floating point, rationals, ...);
//! such an instance carries the same obligations.

use vstd::prelude::*;
use vstd::arithmetic::div_mod::{
    lemma_add_mod_noop, lemma_mod_add_multiples_vanish, lemma_small_mod,
};
use vstd::wrapping::i64_specs;

verus! {

/// The scalar capability set: default-like zero, one, the four arithmetic
/// operations, negation, a fused multiply-add, a zero test and a magnitude
/// comparison (used for partial pivoting).
pub trait Scalar: Sized + Copy {
    /// The additive identity.
    spec fn spec_zero() -> Self;

    /// The multiplicative identity.
    spec fn spec_one() -> Self;

    /// What `add` returns.
    spec fn spec_add(a: Self, b: Self) -> Self;

    /// What `sub` returns.
    spec fn spec_sub(a: Self, b: Self) -> Self;

    /// What `mul` returns.
    spec fn spec_mul(a: Self, b: Self) -> Self;

    /// What `div` returns (on a divisor other than `spec_zero`).
    spec fn spec_div(a: Self, b: Self) -> Self;

    /// What `neg` returns.
    spec fn spec_neg(a: Self) -> Self;

    /// What `mul_add` returns: `a * b + c` as one operation.
    spec fn spec_mul_add(a: Self, b: Self, c: Self) -> Self;

    /// Whether the magnitude of `a` strictly exceeds the magnitude of `b`.
    spec fn spec_abs_gt(a: Self, b: Self) -> bool;

    fn zero() -> (r: Self)
        ensures
            r == Self::spec_zero(),
    ;

    fn one() -> (r: Self)
        ensures
            r == Self::spec_one(),
    ;

    fn add(self, o: Self) -> (r: Self)
        ensures
            r == Self::spec_add(self, o),
    ;

    fn sub(self, o: Self) -> (r: Self)
        ensures
            r == Self::spec_sub(self, o),
    ;

    fn mul(self, o: Self) -> (r: Self)
        ensures
            r == Self::spec_mul(self, o),
    ;

    fn div(self, o: Self) -> (r: Self)
        requires
            o != Self::spec_zero(),
        ensures
            r == Self::spec_div(self, o),
    ;

    fn neg(self) -> (r: Self)
        ensures
            r == Self::spec_neg(self),
    ;

    /// Fused multiply-add: `self * a + b` as one operation.
    fn mul_add(self, a: Self, b: Self) -> (r: Self)
        ensures
            r == Self::spec_mul_add(self, a, b),
    ;

    fn eq_zero(self) -> (b: bool)
        ensures
            b == (self == Self::spec_zero()),
    ;

    /// Magnitude comparison for pivot selection.
    fn abs_gt(self, o: Self) -> (b: bool)
        ensures
            b == Self::spec_abs_gt(self, o),
    ;

    /// The fused multiply-add is symmetric in its two factors.
    proof fn law_mul_add_comm(a: Self, b: Self, c: Self)
        ensures
            Self::spec_mul_add(a, b, c) == Self::spec_mul_add(b, a, c),
    ;

    /// A fused multiply-add with a zero factor returns the addend unchanged.
    proof fn law_mul_add_zero(b: Self, c: Self)
        ensures
            Self::spec_mul_add(Self::spec_zero(), b, c) == c,
    ;

    /// Negating zero gives zero.
    proof fn law_neg_zero()
        ensures
            Self::spec_neg(Self::spec_zero()) == Self::spec_zero(),
    ;

    /// Dividing by one changes nothing.
    proof fn law_div_one(a: Self)
        ensures
            Self::spec_div(a, Self::spec_one()) == a,
    ;

    /// Zero's magnitude never strictly exceeds another magnitude.
    proof fn law_abs_gt_zero(a: Self)
        ensures
            !Self::spec_abs_gt(Self::spec_zero(), a),
    ;

    /// The two identities differ.
    proof fn law_one_nonzero()
        ensures
            Self::spec_one() != Self::spec_zero(),
    ;

    /// A nonzero value divided by itself gives one.
    proof fn law_div_self(a: Self)
        requires
            a != Self::spec_zero(),
        ensures
            Self::spec_div(a, a) == Self::spec_one(),
    ;

    /// Folding `-a` times one into `a` cancels exactly.
    proof fn law_mul_add_cancel(a: Self)
        ensures
            Self::spec_mul_add(Self::spec_neg(a), Self::spec_one(), a) == Self::spec_zero(),
    ;

    /// Only zero's magnitude fails to exceed zero's.
    proof fn law_abs_gt_faithful(a: Self)
        ensures
            a != Self::spec_zero() ==> Self::spec_abs_gt(a, Self::spec_zero()),
    ;

    /// The magnitude comparison is asymmetric.
    proof fn law_abs_asym(a: Self, b: Self)
        requires
            Self::spec_abs_gt(a, b),
        ensures
            !Self::spec_abs_gt(b, a),
    ;

    /// Failing to exceed in magnitude is transitive.
    proof fn law_abs_no_gt_trans(a: Self, b: Self, c: Self)
        requires
            !Self::spec_abs_gt(a, b),
            !Self::spec_abs_gt(b, c),
        ensures
            !Self::spec_abs_gt(a, c),
    ;
}

/// The magnitude of a mathematical integer.
pub open spec fn abs_int(x: int) -> int {
    if x < 0 {
        -x
    } else {
        x
    }
}

/// Division truncating toward zero, as the machine's signed division does.
/// Unspecified use on a zero divisor is avoided by returning zero there.
pub open spec fn trunc_div_int(a: int, b: int) -> int {
    if b == 0 {
        0
    } else if (a < 0) == (b < 0) {
        abs_int(a) / abs_int(b)
    } else {
        -(abs_int(a) / abs_int(b))
    }
}

/// The width of the `i64` value range, as an `int`.
pub open spec fn i64_range() -> int {
    0x1_0000_0000_0000_0000
}

proof fn lemma_signed_crop_id(x: int)
    requires
        i64::MIN <= x <= i64::MAX,
    ensures
        i64_specs::signed_crop(x) == x as i64,
{
    if x >= 0 {
        lemma_small_mod(x as nat, i64_range() as nat);
    } else {
        lemma_mod_add_multiples_vanish(x, i64_range());
        lemma_small_mod((x + i64_range()) as nat, i64_range() as nat);
    }
}

proof fn lemma_wrapping_add_is_crop(x: i64, y: i64)
    ensures
        i64_specs::wrapping_add(x, y) == i64_specs::signed_crop(x + y),
{
    let s = x + y;
    if s > i64::MAX {
        lemma_small_mod(s as nat, i64_range() as nat);
    } else if s < i64::MIN {
        lemma_mod_add_multiples_vanish(s, i64_range());
        lemma_small_mod((s + i64_range()) as nat, i64_range() as nat);
    } else {
        lemma_signed_crop_id(s);
    }
}

proof fn lemma_wrapping_sub_is_crop(x: i64, y: i64)
    ensures
        i64_specs::wrapping_sub(x, y) == i64_specs::signed_crop(x - y),
{
    let s = x - y;
    if s > i64::MAX {
        lemma_small_mod(s as nat, i64_range() as nat);
    } else if s < i64::MIN {
        lemma_mod_add_multiples_vanish(s, i64_range());
        lemma_small_mod((s + i64_range()) as nat, i64_range() as nat);
    } else {
        lemma_signed_crop_id(s);
    }
}

/// `signed_crop(x)` and `x` agree modulo the range width.
proof fn lemma_crop_congruent(x: int)
    ensures
        (i64_specs::signed_crop(x) as int) % i64_range() == x % i64_range(),
{
    let r = i64_range();
    let m = x % r;
    if m > i64::MAX {
        lemma_mod_add_multiples_vanish(m - r, r);
        lemma_small_mod(m as nat, r as nat);
    } else {
        lemma_small_mod(m as nat, r as nat);
    }
}

/// Cropping a sum may crop the left summand first.
proof fn lemma_crop_add(v: int, c: int)
    ensures
        i64_specs::signed_crop(i64_specs::signed_crop(v) + c) == i64_specs::signed_crop(v + c),
{
    let r = i64_range();
    let w = i64_specs::signed_crop(v) as int;
    lemma_crop_congruent(v);
    lemma_add_mod_noop(w, c, r);
    lemma_add_mod_noop(v, c, r);
    assert((w + c) % r == (v + c) % r);
}

impl Scalar for i64 {
    open spec fn spec_zero() -> i64 {
        0
    }

    open spec fn spec_one() -> i64 {
        1
    }

    open spec fn spec_add(a: i64, b: i64) -> i64 {
        i64_specs::signed_crop(a + b)
    }

    open spec fn spec_sub(a: i64, b: i64) -> i64 {
        i64_specs::signed_crop(a - b)
    }

    open spec fn spec_mul(a: i64, b: i64) -> i64 {
        i64_specs::signed_crop(a * b)
    }

    open spec fn spec_div(a: i64, b: i64) -> i64 {
        i64_specs::signed_crop(trunc_div_int(a as int, b as int))
    }

    open spec fn spec_neg(a: i64) -> i64 {
        i64_specs::signed_crop(-a)
    }

    open spec fn spec_mul_add(a: i64, b: i64, c: i64) -> i64 {
        i64_specs::signed_crop(a * b + c)
    }

    open spec fn spec_abs_gt(a: i64, b: i64) -> bool {
        abs_int(a as int) > abs_int(b as int)
    }

    fn zero() -> (r: i64) {
        0
    }

    fn one() -> (r: i64) {
        1
    }

    fn add(self, o: i64) -> (r: i64) {
        proof {
            lemma_wrapping_add_is_crop(self, o);
        }
        self.wrapping_add(o)
    }

    fn sub(self, o: i64) -> (r: i64) {
        proof {
            lemma_wrapping_sub_is_crop(self, o);
        }
        self.wrapping_sub(o)
    }

    fn mul(self, o: i64) -> (r: i64) {
        self.wrapping_mul(o)
    }

    fn div(self, o: i64) -> (r: i64) {
        let wa: i128 = self as i128;
        let wb: i128 = o as i128;
        let ma: u64 = if wa < 0 {
            (-wa) as u64
        } else {
            wa as u64
        };
        let mb: u64 = if wb < 0 {
            (-wb) as u64
        } else {
            wb as u64
        };
        let q: u64 = ma / mb;
        if (self < 0) == (o < 0) {
            proof {
                if q <= i64::MAX as u64 {
                    lemma_signed_crop_id(q as int);
                } else {
                    lemma_small_mod(q as nat, i64_range() as nat);
                }
            }
            if q > i64::MAX as u64 {
                i64::MIN
            } else {
                q as i64
            }
        } else {
            proof {
                lemma_signed_crop_id(-(q as int));
            }
            (-(q as i128)) as i64
        }
    }

    fn neg(self) -> (r: i64) {
        proof {
            lemma_wrapping_sub_is_crop(0, self);
        }
        (0i64).wrapping_sub(self)
    }

    fn mul_add(self, a: i64, b: i64) -> (r: i64) {
        proof {
            lemma_wrapping_add_is_crop(i64_specs::signed_crop(self * a), b);
            lemma_crop_add(self * a, b as int);
        }
        self.wrapping_mul(a).wrapping_add(b)
    }

    fn eq_zero(self) -> (b: bool) {
        self == 0
    }

    fn abs_gt(self, o: i64) -> (b: bool) {
        let wa: i128 = self as i128;
        let wb: i128 = o as i128;
        let ma: i128 = if wa < 0 {
            -wa
        } else {
            wa
        };
        let mb: i128 = if wb < 0 {
            -wb
        } else {
            wb
        };
        ma > mb
    }

    proof fn law_mul_add_comm(a: i64, b: i64, c: i64) {
        assert(a * b == b * a) by (nonlinear_arith);
    }

    proof fn law_mul_add_zero(b: i64, c: i64) {
        assert(0 * b == 0) by (nonlinear_arith);
        lemma_signed_crop_id(c as int);
    }

    proof fn law_neg_zero() {
        lemma_signed_crop_id(0);
    }

    proof fn law_div_one(a: i64) {
        assert(abs_int(a as int) / 1 == abs_int(a as int));
        lemma_signed_crop_id(a as int);
    }

    proof fn law_abs_gt_zero(a: i64) {
    }

    proof fn law_one_nonzero() {
    }

    proof fn law_div_self(a: i64) {
        vstd::arithmetic::div_mod::lemma_div_by_self(abs_int(a as int));
        lemma_signed_crop_id(1);
    }

    proof fn law_mul_add_cancel(a: i64) {
        let w = i64_specs::signed_crop(-a);
        assert(w * 1 == w as int);
        lemma_crop_add(-a, a as int);
        lemma_signed_crop_id(0);
    }

    proof fn law_abs_gt_faithful(a: i64) {
    }

    proof fn law_abs_asym(a: i64, b: i64) {
    }

    proof fn law_abs_no_gt_trans(a: i64, b: i64, c: i64) {
    }
}

} // verus!
