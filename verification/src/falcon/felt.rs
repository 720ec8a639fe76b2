//! The prime field with 12289 elements.
use crate::falcon::bigint::{magnitude, quotient_toward_zero};
use crate::falcon::euclid::{euclid, lemma_bezout, lemma_divides_both};
use crate::falcon::inverse::{Field, Inverse};
use vstd::arithmetic::div_mod::{
    lemma_fundamental_div_mod, lemma_mod_multiples_vanish, lemma_mul_mod_noop_left,
    lemma_mul_mod_noop_right, lemma_small_mod,
};
use vstd::prelude::*;

verus! {

/// The Falcon modulus.
pub const MODULUS: i16 = 12289;

const Q: u64 = 12289;

/// An element of the field of the integers modulo 12289.
#[derive(Debug, Clone, Copy, PartialEq, Eq, Structural)]
pub struct FalconFelt {
    residue: u64,
}

/// The remainder of `a` modulo 12289.
pub open spec fn residue_of(a: int) -> int {
    a % 12289
}

/// The number between -6144 and 6144 that is equal to `a` modulo 12289.
pub open spec fn centered(a: int) -> int {
    if residue_of(a) > 6144 {
        residue_of(a) - 12289
    } else {
        residue_of(a)
    }
}

/// The `b` below 12289 with `a * b = 1` modulo 12289, or zero if `a` is zero.
pub open spec fn inverse_residue(a: int) -> int {
    if residue_of(a) == 0 {
        0
    } else {
        choose|b: int| 0 <= b < 12289 && #[trigger] residue_of(a * b) == 1
    }
}

impl View for FalconFelt {
    type V = int;

    closed spec fn view(&self) -> int {
        self.residue as int
    }
}

/// 12289 is prime.
pub proof fn lemma_modulus_is_prime(d: int, e: int)
    requires
        d * e == 12289,
        1 < d,
    ensures
        d == 12289,
{
    assert(forall|k: u32| 2 <= k && k <= 110 ==> #[trigger] (12289u32 % k) != 0) by (bit_vector);
    if d != 12289 {
        assert(1 < e) by (nonlinear_arith)
            requires
                d * e == 12289,
                1 < d,
                d != 12289,
        ;
        assert(d < 111 || e < 111) by (nonlinear_arith)
            requires
                d * e == 12289,
                1 < d,
                1 < e,
        ;
        if d < 111 {
            let k = d as u32;
            assert(12289int % d == 0) by (nonlinear_arith)
                requires
                    d * e == 12289,
                    1 < d,
            ;
            assert(12289u32 % k != 0);
        } else {
            let k = e as u32;
            assert(12289int % e == 0) by (nonlinear_arith)
                requires
                    d * e == 12289,
                    1 < e,
            ;
            assert(12289u32 % k != 0);
        }
    }
}

proof fn lemma_coprime(a: int)
    requires
        0 < a < 12289,
    ensures
        euclid(a, 12289).0 == 1 || euclid(a, 12289).0 == -1,
{
    lemma_divides_both(a, 12289);
    let g = euclid(a, 12289).0;
    let i = choose|i: int| a == #[trigger] (g * i);
    let j = choose|j: int| 12289 == #[trigger] (g * j);
    if g > 1 {
        lemma_modulus_is_prime(g, j);
        assert(false) by (nonlinear_arith)
            requires
                a == 12289 * i,
                0 < a < 12289,
        ;
    } else if g < -1 {
        assert((-g) * (-j) == g * j) by (nonlinear_arith);
        lemma_modulus_is_prime(-g, -j);
        assert(false) by (nonlinear_arith)
            requires
                a == -12289 * i,
                0 < a < 12289,
        ;
    } else {
        assert(g != 0) by (nonlinear_arith)
            requires
                12289 == g * j,
        ;
    }
}

/// Every number that 12289 does not divide has an inverse.
pub proof fn lemma_inverse_exists(a: int)
    requires
        0 < a < 12289,
    ensures
        0 <= inverse_residue(a) < 12289,
        residue_of(a * inverse_residue(a)) == 1,
{
    lemma_coprime(a);
    lemma_bezout(a, 12289);
    let (g, u, v) = euclid(a, 12289);
    let b = residue_of(u * g);
    assert(g * g == 1) by (nonlinear_arith)
        requires
            g == 1 || g == -1,
    ;
    assert(a * (u * g) == 12289 * (-(v * g)) + 1) by (nonlinear_arith)
        requires
            u * a + v * 12289 == g,
            g * g == 1,
    ;
    lemma_mod_multiples_vanish(-(v * g), 1, 12289);
    lemma_mul_mod_noop_right(a, u * g, 12289);
    assert(residue_of(a * b) == 1);
    assert(0 <= b < 12289);
    assert(residue_of(a) != 0);
}

proof fn lemma_residue_inverse_is_unique(a: int, b: int, c: int)
    requires
        0 <= b < 12289,
        0 <= c < 12289,
        residue_of(a * b) == 1,
        residue_of(a * c) == 1,
    ensures
        b == c,
{
    assert(b * (a * c) == c * (a * b)) by (nonlinear_arith);
    lemma_mul_mod_noop_right(b, a * c, 12289);
    lemma_mul_mod_noop_right(c, a * b, 12289);
    assert(b * 1 == b && c * 1 == c);
}

impl FalconFelt {
    /// The element that an integer stands for.
    pub fn new(value: i16) -> (r: Self)
        ensures
            r.is_element(),
            r@ == residue_of(value as int),
    {
        let v = value as i64;
        let r = if v >= 0 {
            v % 12289
        } else {
            let m = (-v) % 12289;
            proof {
                lemma_fundamental_div_mod(-v as int, 12289);
                let k = (-v) / 12289;
                if m == 0 {
                    lemma_mod_multiples_vanish(-k, 0, 12289);
                } else {
                    lemma_mod_multiples_vanish(-k - 1, 12289 - m, 12289);
                }
            }
            if m == 0 {
                0
            } else {
                12289 - m
            }
        };
        FalconFelt { residue: r as u64 }
    }

    /// The representative of the smallest magnitude: between -6144 and 6144.
    pub fn balanced_value(&self) -> (r: i16)
        requires
            self.is_element(),
        ensures
            r == centered(self@),
    {
        let v = self.residue as i16;
        if v > 6144 {
            v - 12289
        } else {
            v
        }
    }
}

impl Field for FalconFelt {
    open spec fn is_element(self) -> bool {
        0 <= self@ < 12289
    }

    closed spec fn zero_element() -> Self {
        FalconFelt { residue: 0 }
    }

    closed spec fn one_element() -> Self {
        FalconFelt { residue: 1 }
    }

    closed spec fn times(self, other: Self) -> Self {
        FalconFelt { residue: residue_of(self@ * other@) as u64 }
    }

    closed spec fn inverse(self) -> Self {
        FalconFelt { residue: inverse_residue(self@) as u64 }
    }

    proof fn law_constants() {
    }

    proof fn law_times_commutative(a: Self, b: Self) {
        let (x, y) = (a@, b@);
        assert(x * y == y * x) by (nonlinear_arith);
    }

    proof fn law_times_associative(a: Self, b: Self, c: Self) {
        let (x, y, z) = (a@, b@, c@);
        lemma_mul_mod_noop_left(x * y, z, 12289);
        lemma_mul_mod_noop_right(x, y * z, 12289);
        assert((x * y) * z == x * (y * z)) by (nonlinear_arith);
    }

    proof fn law_times_constants(a: Self) {
        lemma_small_mod(a@ as nat, 12289);
    }

    proof fn law_inverse(a: Self) {
        if a@ != 0 {
            lemma_inverse_exists(a@);
        }
    }

    fn zero() -> (r: Self) {
        FalconFelt { residue: 0 }
    }

    fn one() -> (r: Self) {
        FalconFelt { residue: 1 }
    }

    fn is_zero(&self) -> (r: bool) {
        self.residue == 0
    }

    fn multiply(self, other: Self) -> (r: Self) {
        let (x, y) = (self.residue, other.residue);
        assert(0 <= x * y <= 12288 * 12288) by (nonlinear_arith)
            requires
                0 <= x <= 12288,
                0 <= y <= 12288,
        ;
        FalconFelt { residue: (x * y) % Q }
    }

}

impl Inverse for FalconFelt {
    fn inverse_or_zero(self) -> (r: Self)
        ensures
            r@ == inverse_residue(self@),
    {
        let a = self.residue;
        if a == 0 {
            return FalconFelt { residue: 0 };
        }
        let mut old_r: u64 = a;
        let mut r: u64 = Q;
        let mut old_s: u64 = 1;
        let mut s: u64 = 0;
        assert(1 * a == a && 0 * a == 0);
        while r != 0
            invariant
                0 < a < 12289,
                0 < old_r <= 12289,
                0 <= r <= 12289,
                old_s < 12289,
                s < 12289,
                residue_of(old_s * a - old_r) == 0,
                residue_of(s * a - r) == 0,
                euclid(old_r as int, r as int).0 == euclid(a as int, 12289).0,
            decreases r,
        {
            let k = old_r / r;
            let next_r = old_r % r;
            proof {
                lemma_fundamental_div_mod(old_r as int, r as int);
                let (x, y) = (r as int, k as int);
                assert(x * y == y * x) by (nonlinear_arith);
                assert(quotient_toward_zero(old_r as int, x) == y);
            }
            assert(k <= 12289) by (nonlinear_arith)
                requires
                    r * k + next_r == old_r,
                    old_r <= 12289,
                    r > 0,
                    next_r >= 0,
            ;
            assert(0 <= k * s <= 12289 * 12289) by (nonlinear_arith)
                requires
                    0 <= k <= 12289,
                    0 <= s < 12289,
            ;
            let taken = (k * s) % Q;
            let next_s = (old_s + Q - taken) % Q;
            proof {
                let (c, d) = (old_s as int, s as int);
                let (e, f) = (old_r as int, r as int);
                let (x, y) = (a as int, k as int);
                let t = (y * d) / 12289;
                let w = (c + 12289 - taken) / 12289;
                lemma_fundamental_div_mod(y * d, 12289);
                lemma_fundamental_div_mod(c + 12289 - taken, 12289);
                lemma_fundamental_div_mod(c * x - e, 12289);
                lemma_fundamental_div_mod(d * x - f, 12289);
                let m = (c * x - e) / 12289;
                let n = (d * x - f) / 12289;
                let z = next_s as int;
                assert(z == c - y * d + 12289 * (1 + t - w));
                assert(z * x - next_r == 12289 * (m - y * n + x * (1 + t - w)) + 0) by (nonlinear_arith)
                    requires
                        z == c - y * d + 12289 * (1 + t - w),
                        c * x - e == 12289 * m,
                        d * x - f == 12289 * n,
                        next_r == e - y * f,
                ;
                lemma_mod_multiples_vanish(m - y * n + x * (1 + t - w), 0, 12289);
            }
            old_r = r;
            r = next_r;
            old_s = s;
            s = next_s;
        }
        proof {
            lemma_coprime(a as int);
            lemma_inverse_exists(a as int);
            let (x, y) = (a as int, old_s as int);
            assert(old_r == 1);
            lemma_fundamental_div_mod(y * x - 1, 12289);
            let m = (y * x - 1) / 12289;
            assert(x * y == y * x) by (nonlinear_arith);
            assert(x * y == 12289 * m + 1);
            lemma_mod_multiples_vanish(m, 1, 12289);
            lemma_residue_inverse_is_unique(x, y, inverse_residue(x));
        }
        FalconFelt { residue: old_s }
    }
}

/// The field of `FalconFelt` is that of the integers modulo 12289.
pub proof fn lemma_felt_arithmetic(a: FalconFelt, b: FalconFelt)
    requires
        a.is_element(),
        b.is_element(),
    ensures
        FalconFelt::zero_element()@ == 0,
        FalconFelt::one_element()@ == 1,
        a.times(b)@ == residue_of(a@ * b@),
        a.inverse()@ == inverse_residue(a@),
        a == b <==> a@ == b@,
{
    if a@ != 0 {
        lemma_inverse_exists(a@);
    }
}

} // verus!
