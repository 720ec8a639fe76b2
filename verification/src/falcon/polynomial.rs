//! Polynomials as vectors of coefficients.
use crate::falcon::bigint::{
    bits, can_shift_left, copy, difference, digits, equal, from_i64, lemma_values_push, negation,
    product, shifted_left, sum,
    value, values,
};
use crate::falcon::convolution::{
    coefficient, convolution, folded, lemma_convolution_outside, lemma_karatsuba,
    lemma_reduced_product, partial_convolution, polynomial_product, reduced,
};
use crate::falcon::ring::{
    adjoint, even_part, lemma_partial_product_len, lifted, minus, norm, odd_part, plus, rotated,
    scale, times,
};
use num::BigInt;
use vstd::arithmetic::power2::pow2;
use vstd::prelude::*;
use vstd::slice::slice_subrange;

verus! {

broadcast use lemma_values_push;

/// A polynomial: index `i` of `coefficients` is the coefficient of `X^i`.
#[derive(Debug, Clone)]
pub struct Polynomial<F> {
    pub coefficients: Vec<F>,
}

impl View for Polynomial<BigInt> {
    type V = Seq<int>;

    open spec fn view(&self) -> Seq<int> {
        values(self.coefficients@)
    }
}

impl View for Polynomial<i16> {
    type V = Seq<int>;

    open spec fn view(&self) -> Seq<int> {
        self.coefficients@.map_values(|c: i16| c as int)
    }
}

/// Two sequences of coefficients stand for the same polynomial: they differ at most in zeros at
/// the end.
pub open spec fn same_polynomial(a: Seq<int>, b: Seq<int>) -> bool {
    forall|i: int| coefficient(a, i) == coefficient(b, i)
}

fn is_zero_from(a: &Vec<BigInt>, start: usize) -> (r: bool)
    requires
        start <= a@.len(),
    ensures
        r == forall|i: int| start <= i < a@.len() ==> values(a@)[i] == 0,
{
    let zero = from_i64(0);
    for i in start..a.len()
        invariant
            start <= a@.len(),
            value(zero) == 0,
            forall|j: int| start <= j < i ==> values(a@)[j] == 0,
    {
        if !equal(&a[i], &zero) {
            assert(values(a@)[i as int] != 0);
            return false;
        }
    }
    true
}

impl PartialEq for Polynomial<BigInt> {
    fn eq(&self, other: &Self) -> (r: bool) {
        let (a, b) = (&self.coefficients, &other.coefficients);
        let ghost (x, y) = (self@, other@);
        let n = if a.len() <= b.len() {
            a.len()
        } else {
            b.len()
        };
        for i in 0..n
            invariant
                n <= a@.len(),
                n <= b@.len(),
                a == self.coefficients,
                b == other.coefficients,
                x == self@,
                y == other@,
                forall|j: int| 0 <= j < i ==> x[j] == y[j],
        {
            if !equal(&a[i], &b[i]) {
                assert(coefficient(x, i as int) != coefficient(y, i as int));
                return false;
            }
        }
        let r = is_zero_from(a, n) && is_zero_from(b, n);
        proof {
            if r {
                assert(same_polynomial(x, y));
            } else {
                if exists|i: int| n <= i < x.len() && x[i] != 0 {
                    let i = choose|i: int| n <= i < x.len() && x[i] != 0;
                    assert(coefficient(x, i) != coefficient(y, i));
                } else {
                    let i = choose|i: int| n <= i < y.len() && y[i] != 0;
                    assert(coefficient(x, i) != coefficient(y, i));
                }
            }
        }
        r
    }
}

impl vstd::std_specs::cmp::PartialEqSpecImpl for Polynomial<BigInt> {
    open spec fn obeys_eq_spec() -> bool {
        true
    }

    open spec fn eq_spec(&self, other: &Self) -> bool {
        same_polynomial(self@, other@)
    }
}

impl<F> Polynomial<F> {
    pub fn new(coefficients: Vec<F>) -> (p: Self)
        ensures
            p.coefficients == coefficients,
    {
        Polynomial { coefficients }
    }
}

/// Up to this length products are computed coefficient by coefficient.
const SCHOOLBOOK_LENGTH: usize = 8;

fn schoolbook(a: &[BigInt], b: &[BigInt]) -> (r: Vec<BigInt>)
    requires
        0 < a@.len(),
        0 < b@.len(),
        a@.len() + b@.len() <= usize::MAX,
    ensures
        values(r@) == polynomial_product(values(a@), values(b@)),
{
    let ghost (x, y) = (values(a@), values(b@));
    let len = a.len() + b.len() - 1;
    let mut r: Vec<BigInt> = Vec::new();
    for k in 0..len
        invariant
            len == a@.len() + b@.len() - 1,
            x == values(a@),
            y == values(b@),
            values(r@) =~= Seq::new(k as nat, |j: int| convolution(x, y, j)),
    {
        let mut c = from_i64(0);
        for i in 0..a.len()
            invariant
                k < len,
                len == a@.len() + b@.len() - 1,
                x == values(a@),
                y == values(b@),
                value(c) == partial_convolution(x, y, k as int, i as nat),
        {
            if i <= k && k - i < b.len() {
                c = sum(&c, &product(&a[i], &b[k - i]));
            } else {
                proof {
                    let v = x[i as int];
                    assert(v * 0 == 0) by (nonlinear_arith);
                }
            }
        }
        r.push(c);
    }
    assert(values(r@) =~= polynomial_product(x, y));
    r
}

fn added(a: &[BigInt], b: &[BigInt]) -> (r: Vec<BigInt>)
    requires
        a@.len() == b@.len(),
    ensures
        values(r@) == plus(values(a@), values(b@)),
{
    let mut r: Vec<BigInt> = Vec::new();
    for i in 0..a.len()
        invariant
            a@.len() == b@.len(),
            values(r@) =~= plus(values(a@), values(b@)).take(i as int),
    {
        r.push(sum(&a[i], &b[i]));
    }
    assert(values(r@) =~= plus(values(a@), values(b@)));
    r
}

/// The product, by three products of half the length where both factors have the same even
/// length.
fn multiplied(a: &[BigInt], b: &[BigInt]) -> (r: Vec<BigInt>)
    requires
        0 < a@.len(),
        0 < b@.len(),
        a@.len() + b@.len() <= usize::MAX,
    ensures
        values(r@) == polynomial_product(values(a@), values(b@)),
    decreases a@.len(),
{
    let n = a.len();
    if n <= SCHOOLBOOK_LENGTH || n != b.len() || n % 2 != 0 {
        return schoolbook(a, b);
    }
    let h = n / 2;
    let ghost (x, y) = (values(a@), values(b@));
    let (a_low, a_high) = (slice_subrange(a, 0, h), slice_subrange(a, h, n));
    let (b_low, b_high) = (slice_subrange(b, 0, h), slice_subrange(b, h, n));
    let low = multiplied(a_low, b_low);
    let high = multiplied(a_high, b_high);
    let a_both = added(a_low, a_high);
    let b_both = added(b_low, b_high);
    proof {
        assert(a_both@.len() == values(a_both@).len());
        assert(b_both@.len() == values(b_both@).len());
    }
    let cross = multiplied(a_both.as_slice(), b_both.as_slice());
    proof {
        assert(values(a_low@) =~= x.take(h as int));
        assert(values(a_high@) =~= x.skip(h as int));
        assert(values(b_low@) =~= y.take(h as int));
        assert(values(b_high@) =~= y.skip(h as int));
        assert(low@.len() == values(low@).len());
        assert(high@.len() == values(high@).len());
        assert(cross@.len() == values(cross@).len());
    }
    let ghost (p, q) = (x.take(h as int), x.skip(h as int));
    let ghost (s, t) = (y.take(h as int), y.skip(h as int));
    let mut r: Vec<BigInt> = Vec::new();
    for k in 0..2 * n - 1
        invariant
            n == 2 * h,
            h > 0,
            2 * n <= usize::MAX,
            x.len() == n,
            y.len() == n,
            p == x.take(h as int),
            q == x.skip(h as int),
            s == y.take(h as int),
            t == y.skip(h as int),
            low@.len() == n - 1,
            high@.len() == n - 1,
            cross@.len() == n - 1,
            values(low@) == polynomial_product(p, s),
            values(high@) == polynomial_product(q, t),
            values(cross@) == polynomial_product(plus(p, q), plus(s, t)),
            values(r@) =~= Seq::new(k as nat, |j: int| convolution(x, y, j)),
    {
        let mut c = from_i64(0);
        proof {
            lemma_karatsuba(x, y, h as nat, k as int);
        }
        if k < n - 1 {
            assert(values(low@)[k as int] == convolution(p, s, k as int));
            c = sum(&c, &low[k]);
        } else {
            proof {
                lemma_convolution_outside(p, s, k as int);
            }
        }
        if h <= k && k - h < n - 1 {
            assert(values(low@)[k - h] == convolution(p, s, k - h));
            assert(values(high@)[k - h] == convolution(q, t, k - h));
            assert(values(cross@)[k - h] == convolution(plus(p, q), plus(s, t), k - h));
            c = sum(&c, &cross[k - h]);
            c = difference(&c, &low[k - h]);
            c = difference(&c, &high[k - h]);
        } else {
            proof {
                lemma_convolution_outside(p, s, k - h);
                lemma_convolution_outside(q, t, k - h);
                lemma_convolution_outside(plus(p, q), plus(s, t), k - h);
            }
        }
        if n <= k {
            assert(values(high@)[k - n] == convolution(q, t, k - n));
            c = sum(&c, &high[k - n]);
        } else {
            proof {
                lemma_convolution_outside(q, t, k - n);
            }
        }
        r.push(c);
    }
    assert(values(r@) =~= polynomial_product(x, y));
    r
}

/// The digits of all coefficients can be held after a shift to the left.
pub open spec fn is_shiftable(a: Seq<int>, shift: int) -> bool {
    forall|i: int| 0 <= i < a.len() ==> can_shift_left(#[trigger] a[i], shift)
}

fn digits_fit(a: &BigInt, shift: u64) -> (r: bool)
    ensures
        r == can_shift_left(value(*a), shift as int),
{
    let length = bits(a);
    if length == 0 || shift == 0 {
        return true;
    }
    let digit_bits = usize::BITS as u64;
    let digit_bytes = digit_bits / 8;
    let limit = isize::MAX as u64;
    let digits = (length - 1) / digit_bits + 1;
    assert(digits == self::digits(value(*a)));
    if shift < digit_bits {
        digits <= limit / 2 / digit_bytes
    } else {
        shift / digit_bits + digits + 1 <= limit / digit_bytes
    }
}

impl Polynomial<BigInt> {
    /// The product of two polynomials, by Karatsuba's algorithm.
    pub fn karatsuba(&self, other: &Self) -> (r: Self)
        requires
            self@.len() + other@.len() <= usize::MAX,
        ensures
            r@ == polynomial_product(self@, other@),
    {
        if self.coefficients.len() == 0 || other.coefficients.len() == 0 {
            let r = Polynomial::new(Vec::new());
            assert(r@ =~= polynomial_product(self@, other@));
            return r;
        }
        Polynomial::new(multiplied(self.coefficients.as_slice(), other.coefficients.as_slice()))
    }

    /// The remainder modulo `X^n + 1`.
    pub fn reduce_by_cyclotomic(&self, n: usize) -> (r: Self)
        requires
            n > 0,
        ensures
            r@ == reduced(self@, n as nat),
    {
        let len = self.coefficients.len();
        let ghost x = self@;
        let mut r: Vec<BigInt> = Vec::new();
        for i in 0..n
            invariant
                n > 0,
                len == self.coefficients@.len(),
                x == self@,
                values(r@) =~= reduced(x, n as nat).take(i as int),
        {
            let mut c = from_i64(0);
            let mut positive = true;
            let mut j = i;
            let mut more = i < len;
            while more
                invariant
                    n > 0,
                    len == self.coefficients@.len(),
                    x == self@,
                    more ==> i <= j < len,
                    !more ==> value(c) == folded(x, n as nat, i as int),
                    more ==> folded(x, n as nat, i as int) == value(c) + (if positive {
                        folded(x, n as nat, j as int)
                    } else {
                        -folded(x, n as nat, j as int)
                    }),
                decreases
                    len - j,
                    if more {
                        1int
                    } else {
                        0int
                    },
            {
                if positive {
                    c = sum(&c, &self.coefficients[j]);
                } else {
                    c = difference(&c, &self.coefficients[j]);
                }
                positive = !positive;
                if len - j > n {
                    j = j + n;
                } else {
                    assert(folded(x, n as nat, j + n) == 0);
                    more = false;
                }
            }
            r.push(c);
        }
        assert(values(r@) =~= reduced(x, n as nat));
        Polynomial::new(r)
    }

    /// The product in the ring `Z[X] / (X^n + 1)`.
    pub fn times(&self, other: &Self) -> (r: Self)
        requires
            self@.len() == other@.len(),
            0 < self@.len(),
            2 * self@.len() <= usize::MAX,
        ensures
            r@ == times(self@, other@),
    {
        proof {
            lemma_reduced_product(self@, other@);
        }
        self.karatsuba(other).reduce_by_cyclotomic(self.coefficients.len())
    }

    /// The difference of two polynomials of the same length.
    pub fn minus(&self, other: &Self) -> (r: Self)
        requires
            self@.len() == other@.len(),
        ensures
            r@ == minus(self@, other@),
    {
        let mut r: Vec<BigInt> = Vec::new();
        for i in 0..self.coefficients.len()
            invariant
                self.coefficients@.len() == other.coefficients@.len(),
                values(r@) =~= minus(self@, other@).take(i as int),
        {
            r.push(difference(&self.coefficients[i], &other.coefficients[i]));
        }
        assert(values(r@) =~= minus(self@, other@));
        Polynomial::new(r)
    }

    /// A copy of the polynomial.
    pub fn duplicate(&self) -> (r: Self)
        ensures
            r@ == self@,
    {
        let mut r: Vec<BigInt> = Vec::new();
        for i in 0..self.coefficients.len()
            invariant
                values(r@) =~= self@.take(i as int),
        {
            r.push(copy(&self.coefficients[i]));
        }
        assert(values(r@) =~= self@);
        Polynomial::new(r)
    }

    /// Whether all coefficients are zero.
    pub fn is_zero(&self) -> (r: bool)
        ensures
            r == forall|i: int| 0 <= i < self@.len() ==> self@[i] == 0,
    {
        assert(self@.len() == self.coefficients@.len());
        is_zero_from(&self.coefficients, 0)
    }

    /// Whether the digits of all coefficients can be held after a shift to the left.
    pub fn can_be_shifted(&self, shift: u64) -> (r: bool)
        ensures
            r == is_shiftable(self@, shift as int),
    {
        for i in 0..self.coefficients.len()
            invariant
                forall|j: int|
                    0 <= j < i ==> can_shift_left(#[trigger] self@[j], shift as int),
        {
            if !digits_fit(&self.coefficients[i], shift) {
                assert(!can_shift_left(self@[i as int], shift as int));
                return false;
            }
        }
        true
    }

    /// The polynomial multiplied by a power of two.
    pub fn shifted(&self, shift: u64) -> (r: Self)
        requires
            is_shiftable(self@, shift as int),
        ensures
            r@ == scale(pow2(shift as nat) as int, self@),
    {
        let ghost factor = pow2(shift as nat) as int;
        let mut r: Vec<BigInt> = Vec::new();
        for i in 0..self.coefficients.len()
            invariant
                is_shiftable(self@, shift as int),
                factor == pow2(shift as nat),
                values(r@) =~= scale(factor, self@).take(i as int),
        {
            proof {
                let c = self@[i as int];
                assert(can_shift_left(c, shift as int));
                assert(c * factor == factor * c) by (nonlinear_arith);
            }
            r.push(shifted_left(&self.coefficients[i], shift));
        }
        assert(values(r@) =~= scale(factor, self@));
        Polynomial::new(r)
    }

    /// `X * self` in the ring.
    fn times_x(&self) -> (r: Self)
        requires
            0 < self@.len(),
        ensures
            r@ == rotated(self@, 1),
    {
        let n = self.coefficients.len();
        let mut r: Vec<BigInt> = Vec::new();
        r.push(negation(&self.coefficients[n - 1]));
        for i in 1..n
            invariant
                n == self.coefficients@.len(),
                0 < n,
                values(r@) =~= rotated(self@, 1).take(i as int),
        {
            r.push(copy(&self.coefficients[i - 1]));
        }
        assert(values(r@) =~= rotated(self@, 1));
        Polynomial::new(r)
    }

    /// The coefficients at the indices `start`, `start + 2`, and so on.
    fn every_second(&self, start: usize) -> (r: Self)
        requires
            start < 2,
        ensures
            start == 0 ==> r@ == even_part(self@),
            start == 1 ==> r@ == odd_part(self@),
    {
        let n = self.coefficients.len();
        let h = n / 2;
        let mut r: Vec<BigInt> = Vec::new();
        for i in 0..h
            invariant
                n == self.coefficients@.len(),
                h == n / 2,
                start < 2,
                values(r@) =~= Seq::new(i as nat, |j: int| self@[2 * j + start]),
        {
            r.push(copy(&self.coefficients[2 * i + start]));
        }
        assert(start == 0 ==> values(r@) =~= even_part(self@));
        assert(start == 1 ==> values(r@) =~= odd_part(self@));
        Polynomial::new(r)
    }

    /// The norm in the ring of half the degree.
    pub fn field_norm(&self) -> (r: Self)
        requires
            2 <= self@.len(),
        ensures
            r@ == norm(self@),
    {
        let n = self.coefficients.len();
        let even = self.every_second(0);
        let odd = self.every_second(1);
        assert(2 * (n / 2) <= n);
        let even_squared = even.times(&even);
        let odd_squared = odd.times(&odd);
        proof {
            lemma_partial_product_len(even@, even@, even@.len());
            lemma_partial_product_len(odd@, odd@, odd@.len());
        }
        let shifted = odd_squared.times_x();
        even_squared.minus(&shifted)
    }

    /// `self(X^2)`, in the ring of twice the degree.
    pub fn lift_next_cyclotomic(&self) -> (r: Self)
        ensures
            r@ == lifted(self@),
    {
        let n = self.coefficients.len();
        let mut r: Vec<BigInt> = Vec::new();
        for i in 0..n
            invariant
                n == self.coefficients@.len(),
                values(r@) =~= lifted(self@).take(2 * i),
        {
            assert(lifted(self@)[2 * i as int] == self@[i as int]);
            assert(lifted(self@)[2 * i + 1] == 0);
            r.push(copy(&self.coefficients[i]));
            r.push(from_i64(0));
        }
        assert(values(r@) =~= lifted(self@));
        Polynomial::new(r)
    }

    /// `self(-X)`.
    pub fn galois_adjoint(&self) -> (r: Self)
        ensures
            r@ == adjoint(self@),
    {
        let mut r: Vec<BigInt> = Vec::new();
        for i in 0..self.coefficients.len()
            invariant
                values(r@) =~= adjoint(self@).take(i as int),
        {
            if i % 2 == 0 {
                r.push(copy(&self.coefficients[i]));
            } else {
                r.push(negation(&self.coefficients[i]));
            }
        }
        assert(values(r@) =~= adjoint(self@));
        Polynomial::new(r)
    }
}

} // verus!
