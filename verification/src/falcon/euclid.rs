//! The extended Euclidean algorithm.
use crate::falcon::bigint::{
    copy, difference, equal, from_i64, magnitude, product, quotient, quotient_toward_zero, value,
};
use num::BigInt;
use vstd::arithmetic::div_mod::lemma_fundamental_div_mod;
use vstd::prelude::*;

verus! {

/// `x` is a multiple of `d`.
pub open spec fn divides(d: int, x: int) -> bool {
    exists|k: int| x == #[trigger] (d * k)
}

/// A greatest common divisor of `a` and `b`, which may be negative, and the two factors that
/// combine `a` and `b` into it.
pub open spec fn euclid(a: int, b: int) -> (int, int, int)
    decreases magnitude(b),
{
    if b == 0 {
        (a, 1, 0)
    } else {
        let q = quotient_toward_zero(a, b);
        proof {
            lemma_remainder_is_smaller(a, b);
        }
        let (g, u, v) = euclid(b, a - q * b);
        (g, v, u - q * v)
    }
}

/// The remainder of a division that rounds toward zero is smaller than the divisor.
pub proof fn lemma_remainder_is_smaller(a: int, b: int)
    requires
        b != 0,
    ensures
        magnitude(a - quotient_toward_zero(a, b) * b) < magnitude(b),
{
    if a >= 0 {
        lemma_fundamental_div_mod(a, b);
        assert(b * (a / b) == (a / b) * b) by (nonlinear_arith);
    } else {
        let c = -a;
        let q = c / b;
        lemma_fundamental_div_mod(c, b);
        assert(b * q == q * b) by (nonlinear_arith);
        assert((-q) * b == -(q * b)) by (nonlinear_arith);
    }
}

/// The factors of `euclid` combine `a` and `b` into the common divisor: `u a + v b = g`.
pub proof fn lemma_bezout(a: int, b: int)
    ensures
        ({
            let (g, u, v) = euclid(a, b);
            u * a + v * b == g
        }),
    decreases magnitude(b),
{
    if b != 0 {
        let q = quotient_toward_zero(a, b);
        lemma_remainder_is_smaller(a, b);
        lemma_bezout(b, a - q * b);
        let (g, u, v) = euclid(b, a - q * b);
        assert(v * a + (u - q * v) * b == u * b + v * (a - q * b)) by (nonlinear_arith);
    }
}

/// The common divisor of `euclid` divides both arguments.
pub proof fn lemma_divides_both(a: int, b: int)
    ensures
        divides(euclid(a, b).0, a),
        divides(euclid(a, b).0, b),
    decreases magnitude(b),
{
    let g = euclid(a, b).0;
    if b == 0 {
        assert(a == a * 1);
        assert(0 == a * 0);
    } else {
        let q = quotient_toward_zero(a, b);
        let r = a - q * b;
        lemma_remainder_is_smaller(a, b);
        lemma_divides_both(b, r);
        let i = choose|i: int| b == #[trigger] (g * i);
        let j = choose|j: int| r == #[trigger] (g * j);
        assert(q * (g * i) + g * j == g * (q * i + j)) by (nonlinear_arith);
        assert(a == g * (q * i + j));
    }
}

/// Every common divisor divides that of `euclid`.
pub proof fn lemma_common_divisor_divides(a: int, b: int, d: int)
    requires
        divides(d, a),
        divides(d, b),
    ensures
        divides(d, euclid(a, b).0),
{
    lemma_bezout(a, b);
    let (g, u, v) = euclid(a, b);
    let i = choose|i: int| a == #[trigger] (d * i);
    let j = choose|j: int| b == #[trigger] (d * j);
    assert(u * (d * i) + v * (d * j) == d * (u * i + v * j)) by (nonlinear_arith);
    assert(g == d * (u * i + v * j));
}

/// Extended Euclidean algorithm: a greatest common divisor `g` of `a` and `b`, and factors
/// `u`, `v` such that `u a + v b = g`, in the order `(g, u, v)`.
pub fn xgcd(a: &BigInt, b: &BigInt) -> (r: (BigInt, BigInt, BigInt))
    ensures
        (value(r.0), value(r.1), value(r.2)) == euclid(value(*a), value(*b)),
        value(r.1) * value(*a) + value(r.2) * value(*b) == value(r.0),
        divides(value(r.0), value(*a)),
        divides(value(r.0), value(*b)),
{
    let zero = from_i64(0);
    let mut old_r = copy(a);
    let mut r = copy(b);
    let mut old_s = from_i64(1);
    let mut s = from_i64(0);
    let mut old_t = from_i64(0);
    let mut t = from_i64(1);
    proof {
        let (g, u, v) = euclid(value(*a), value(*b));
        assert(u * 1 + v * 0 == u && u * 0 + v * 1 == v) by (nonlinear_arith);
    }
    while !equal(&r, &zero)
        invariant
            value(zero) == 0,
            ({
                let (g, u, v) = euclid(value(old_r), value(r));
                euclid(value(*a), value(*b)) == (
                    g,
                    u * value(old_s) + v * value(s),
                    u * value(old_t) + v * value(t),
                )
            }),
        decreases magnitude(value(r)),
    {
        let q = quotient(&old_r, &r);
        let next_r = difference(&old_r, &product(&q, &r));
        let next_s = difference(&old_s, &product(&q, &s));
        let next_t = difference(&old_t, &product(&q, &t));
        proof {
            lemma_remainder_is_smaller(value(old_r), value(r));
            let k = value(q);
            let (g, u, v) = euclid(value(r), value(next_r));
            let (x, y) = (value(old_s), value(s));
            let (z, w) = (value(old_t), value(t));
            assert(v * x + (u - k * v) * y == u * y + v * (x - k * y)) by (nonlinear_arith);
            assert(v * z + (u - k * v) * w == u * w + v * (z - k * w)) by (nonlinear_arith);
        }
        old_r = r;
        r = next_r;
        old_s = s;
        s = next_s;
        old_t = t;
        t = next_t;
    }
    proof {
        lemma_bezout(value(*a), value(*b));
        lemma_divides_both(value(*a), value(*b));
        let (x, y) = (value(old_s), value(s));
        let (z, w) = (value(old_t), value(t));
        assert(1 * x + 0 * y == x && 1 * z + 0 * w == z) by (nonlinear_arith);
    }
    (old_r, old_s, old_t)
}

} // verus!
