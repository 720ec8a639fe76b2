//! The sizes of coefficients in bits, and their leading 53 bits.
use crate::falcon::bigint::{bit_length, bits, magnitude, shifted_right, to_i64, value};
use crate::falcon::polynomial::Polynomial;
use num::BigInt;
use vstd::arithmetic::div_mod::lemma_fundamental_div_mod;
use vstd::arithmetic::power2::{
    lemma2_to64, lemma2_to64_rest, lemma_pow2_adds, lemma_pow2_pos, lemma_pow2_strictly_increases,
    lemma_pow2_unfold, pow2,
};
use vstd::prelude::*;

verus! {

/// The number of bits that are kept of the largest coefficient.
pub const PRECISION: u64 = 53;

/// `bits` rounded up to a whole number of bytes.
pub open spec fn whole_bytes(bits: nat) -> nat {
    (bits + 7) / 8 * 8
}

/// The size of the largest coefficient, in bits, in whole bytes.
pub open spec fn size_of(a: Seq<int>) -> nat
    decreases a.len(),
{
    if a.len() == 0 {
        0
    } else {
        let before = size_of(a.drop_last());
        let last = whole_bytes(bit_length(magnitude(a.last())));
        if before >= last {
            before
        } else {
            last
        }
    }
}

/// The size of the largest coefficient of two polynomials, and at least the precision.
pub open spec fn joint_size(a: Seq<int>, b: Seq<int>) -> nat {
    let (x, y) = (size_of(a), size_of(b));
    let larger = if x >= y {
        x
    } else {
        y
    };
    if larger >= 53 {
        larger
    } else {
        53
    }
}

/// A size is representable if it is an `i64`, as shifts to the right need it.
pub open spec fn representable(size: nat) -> bool {
    size <= i64::MAX
}

/// The coefficients without their lowest `size - 53` bits.
pub open spec fn leading_bits(a: Seq<int>, size: nat) -> Seq<i64> {
    Seq::new(a.len(), |i: int| (a[i] / (pow2((size - 53) as nat) as int)) as i64)
}

proof fn lemma_bit_length(a: nat)
    ensures
        a < pow2(bit_length(a)),
    decreases a,
{
    lemma2_to64();
    if a > 0 {
        lemma_bit_length(a / 2);
        lemma_pow2_unfold(bit_length(a));
    }
}

/// Each coefficient fits in the size.
proof fn lemma_size_bounds(a: Seq<int>, i: int)
    requires
        0 <= i < a.len(),
    ensures
        magnitude(a[i]) < pow2(size_of(a)),
    decreases a.len(),
{
    let last = whole_bytes(bit_length(magnitude(a.last())));
    if i == a.len() - 1 {
        let bits = bit_length(magnitude(a[i]));
        lemma_bit_length(magnitude(a[i]));
        assert(bits <= last <= size_of(a));
        lemma_pow2_monotone(bits, size_of(a));
    } else {
        lemma_size_bounds(a.drop_last(), i);
        lemma_pow2_monotone(size_of(a.drop_last()), size_of(a));
    }
}

proof fn lemma_pow2_monotone(a: nat, b: nat)
    requires
        a <= b,
    ensures
        pow2(a) <= pow2(b),
{
    if a < b {
        lemma_pow2_strictly_increases(a, b);
    }
}

/// The size of coefficients is the least multiple of 8 such that `2^size` is above all their
/// magnitudes.
pub proof fn law_size(a: Seq<int>)
    ensures
        size_of(a) % 8 == 0,
        forall|i: int| 0 <= i < a.len() ==> magnitude(#[trigger] a[i]) < pow2(size_of(a)),
        size_of(a) > 0 ==> exists|i: int|
            0 <= i < a.len() && magnitude(#[trigger] a[i]) >= pow2((size_of(a) - 8) as nat),
    decreases a.len(),
{
    assert forall|i: int| 0 <= i < a.len() implies magnitude(#[trigger] a[i]) < pow2(
        size_of(a),
    ) by {
        lemma_size_bounds(a, i);
    }
    if a.len() > 0 {
        let before = a.drop_last();
        law_size(before);
        let m = magnitude(a.last());
        let bits = bit_length(m);
        assert(a.last() == a[a.len() - 1]);
        if size_of(before) >= whole_bytes(bits) {
            if size_of(a) > 0 {
                let i = choose|i: int|
                    0 <= i < before.len() && magnitude(#[trigger] before[i]) >= pow2(
                        (size_of(before) - 8) as nat,
                    );
                assert(a[i] == before[i]);
            }
        } else {
            lemma_bit_length_least(m);
            lemma_pow2_monotone((whole_bytes(bits) - 8) as nat, (bits - 1) as nat);
        }
    }
}

proof fn lemma_bit_length_least(a: nat)
    requires
        a > 0,
    ensures
        bit_length(a) > 0,
        pow2((bit_length(a) - 1) as nat) <= a,
    decreases a,
{
    lemma2_to64();
    if a > 1 {
        lemma_bit_length_least(a / 2);
        lemma_pow2_unfold((bit_length(a) - 1) as nat);
    } else {
        reveal_with_fuel(bit_length, 2);
    }
}

/// The joint size of two polynomials is the greatest of their sizes and 53.
pub proof fn law_joint_size(a: Seq<int>, b: Seq<int>)
    ensures
        joint_size(a, b) >= size_of(a) && joint_size(a, b) >= size_of(b) && joint_size(a, b) >= 53,
        joint_size(a, b) == size_of(a) || joint_size(a, b) == size_of(b) || joint_size(a, b) == 53,
{
}

/// The leading bits of a coefficient are the coefficient divided by `2^(size - 53)`, rounded down.
pub proof fn law_leading_bits(a: Seq<int>, size: nat, i: int)
    requires
        0 <= i < a.len(),
        53 <= size,
        size_of(a) <= size,
    ensures
        leading_bits(a, size).len() == a.len(),
        leading_bits(a, size)[i] * pow2((size - 53) as nat) <= a[i],
        a[i] < (leading_bits(a, size)[i] + 1) * pow2((size - 53) as nat),
{
    lemma_size_bounds(a, i);
    lemma_pow2_monotone(size_of(a), size);
    lemma_leading_bits_fit(a[i], size);
    let d = pow2((size - 53) as nat) as int;
    let q = a[i] / d;
    lemma_pow2_pos((size - 53) as nat);
    lemma_fundamental_div_mod(a[i], d);
    assert(d * q == q * d) by (nonlinear_arith);
    assert((q + 1) * d == q * d + d) by (nonlinear_arith);
}

/// The leading bits of a coefficient are an `i64`.
proof fn lemma_leading_bits_fit(c: int, size: nat)
    requires
        53 <= size,
        magnitude(c) < pow2(size),
    ensures
        -0x20_0000_0000_0000 <= c / (pow2((size - 53) as nat) as int) < 0x20_0000_0000_0000,
{
    let d = pow2((size - 53) as nat) as int;
    let q = c / d;
    lemma_pow2_pos((size - 53) as nat);
    lemma_pow2_adds(53, (size - 53) as nat);
    lemma2_to64();
    lemma_fundamental_div_mod(c, d);
    assert(pow2(53) == 0x20_0000_0000_0000) by {
        lemma2_to64_rest();
    }
    assert(q < 0x20_0000_0000_0000) by (nonlinear_arith)
        requires
            c == d * q + c % d,
            0 <= c % d,
            c < 0x20_0000_0000_0000 * d,
            d > 0,
    ;
    assert(q >= -0x20_0000_0000_0000) by (nonlinear_arith)
        requires
            c == d * q + c % d,
            c % d < d,
            c > -0x20_0000_0000_0000 * d,
            d > 0,
    ;
}

impl Polynomial<BigInt> {
    /// The size of the largest coefficient in bits, rounded up to whole bytes; `None` where it
    /// is too large for a shift.
    pub fn size(&self) -> (r: Option<u64>)
        ensures
            r matches Some(s) ==> s == size_of(self@) && representable(size_of(self@)),
            r is None ==> !representable(size_of(self@)),
    {
        let limit = i64::MAX as u64;
        let mut largest: u64 = 0;
        let mut fits = true;
        assert(self@.take(0) =~= Seq::<int>::empty());
        for i in 0..self.coefficients.len()
            invariant
                limit == i64::MAX,
                fits ==> largest == size_of(self@.take(i as int)) && largest <= limit,
                !fits ==> size_of(self@.take(i as int)) > limit,
        {
            let b = bits(&self.coefficients[i]);
            proof {
                assert(self@.take(i + 1).drop_last() =~= self@.take(i as int));
                assert(self@.take(i + 1).last() == value(self.coefficients@[i as int]));
            }
            if b > limit {
                fits = false;
            } else {
                let rounded = (b + 7) / 8 * 8;
                if rounded > limit {
                    fits = false;
                } else if rounded > largest {
                    largest = rounded;
                }
            }
        }
        assert(self@.take(self@.len() as int) =~= self@);
        if fits {
            Some(largest)
        } else {
            None
        }
    }

    /// The coefficients without their lowest `size - 53` bits.
    pub fn leading(&self, size: u64) -> (r: Vec<i64>)
        requires
            53 <= size,
            size_of(self@) <= size,
            representable(size as nat),
        ensures
            r@ == leading_bits(self@, size as nat),
    {
        let shift = (size - PRECISION) as i64;
        let mut r: Vec<i64> = Vec::new();
        for i in 0..self.coefficients.len()
            invariant
                53 <= size,
                size_of(self@) <= size,
                shift == size - 53,
                r@ =~= leading_bits(self@, size as nat).take(i as int),
        {
            proof {
                lemma_size_bounds(self@, i as int);
                lemma_pow2_monotone(size_of(self@), size as nat);
                lemma_leading_bits_fit(self@[i as int], size as nat);
            }
            match to_i64(&shifted_right(&self.coefficients[i], shift)) {
                Some(c) => r.push(c),
                None => {},
            }
        }
        assert(r@ =~= leading_bits(self@, size as nat));
        r
    }
}

/// The size of the largest coefficient of two polynomials, and at least the precision; `None`
/// where it is too large for a shift.
pub fn larger_size(a: &Polynomial<BigInt>, b: &Polynomial<BigInt>) -> (r: Option<u64>)
    ensures
        r matches Some(s) ==> s == joint_size(a@, b@) && representable(joint_size(a@, b@)),
        r is None ==> !representable(joint_size(a@, b@)),
{
    match (a.size(), b.size()) {
        (Some(x), Some(y)) => {
            let larger = if x >= y {
                x
            } else {
                y
            };
            Some(
                if larger >= PRECISION {
                    larger
                } else {
                    PRECISION
                },
            )
        },
        _ => None,
    }
}

} // verus!
