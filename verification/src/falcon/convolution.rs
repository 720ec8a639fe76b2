//! Products of integer polynomials, and their remainders modulo `X^n + 1`.
use crate::falcon::ring::{lemma_partial_product_len, partial_product, plus, rotated, times};
use vstd::prelude::*;

verus! {

/// The coefficient of `X^i`, zero outside the sequence.
pub open spec fn coefficient(a: Seq<int>, i: int) -> int {
    if 0 <= i < a.len() {
        a[i]
    } else {
        0
    }
}

/// The part of the coefficient of `X^k` in `a * b` that comes from the first `m` coefficients
/// of `a`.
pub open spec fn partial_convolution(a: Seq<int>, b: Seq<int>, k: int, m: nat) -> int
    decreases m,
{
    if m == 0 {
        0
    } else {
        let last = m - 1;
        partial_convolution(a, b, k, last as nat) + a[last] * coefficient(b, k - last)
    }
}

/// The coefficient of `X^k` in `a * b`: the sum of all `a_i b_(k - i)`.
pub open spec fn convolution(a: Seq<int>, b: Seq<int>, k: int) -> int {
    partial_convolution(a, b, k, a.len())
}

/// The polynomial `a * b`.
pub open spec fn polynomial_product(a: Seq<int>, b: Seq<int>) -> Seq<int> {
    Seq::new(
        if a.len() == 0 || b.len() == 0 {
            0
        } else {
            (a.len() + b.len() - 1) as nat
        },
        |k: int| convolution(a, b, k),
    )
}

/// The alternating sum of the coefficients of `X^i`, `X^(i + n)`, `X^(i + 2n)` and so on.
pub open spec fn folded(a: Seq<int>, n: nat, i: int) -> int
    decreases
        if i < a.len() {
            a.len() - i
        } else {
            0
        },
{
    if n == 0 || i >= a.len() {
        0
    } else {
        coefficient(a, i) - folded(a, n, i + n)
    }
}

/// The remainder of `a` modulo `X^n + 1`.
pub open spec fn reduced(a: Seq<int>, n: nat) -> Seq<int> {
    Seq::new(n, |i: int| folded(a, n, i))
}

proof fn lemma_partial_is_folded(a: Seq<int>, b: Seq<int>, k: int, m: nat)
    requires
        a.len() == b.len(),
        m <= a.len(),
        0 <= k < a.len(),
    ensures
        partial_product(a, b, m)[k] == partial_convolution(a, b, k, m) - partial_convolution(
            a,
            b,
            k + a.len(),
            m,
        ),
    decreases m,
{
    let n = a.len();
    if m > 0 {
        let l = m - 1;
        lemma_partial_is_folded(a, b, k, l as nat);
        lemma_partial_product_len(a, b, l as nat);
        let x = a[l];
        let (y, z) = (coefficient(b, k - l), coefficient(b, k + n - l));
        assert(rotated(b, l)[k] == y - z);
        assert(x * (y - z) == x * y - x * z) by (nonlinear_arith);
    }
}

proof fn lemma_convolution_past_the_end(a: Seq<int>, b: Seq<int>, k: int, m: nat)
    requires
        m <= a.len(),
        k >= m + b.len() - 1 || b.len() == 0,
    ensures
        partial_convolution(a, b, k, m) == 0,
    decreases m,
{
    if m > 0 {
        lemma_convolution_past_the_end(a, b, k, (m - 1) as nat);
        let x = a[m - 1];
        assert(x * 0 == 0) by (nonlinear_arith);
    }
}

/// The product of two polynomials of `n` coefficients, reduced modulo `X^n + 1`, is their
/// product in the ring.
pub proof fn lemma_reduced_product(a: Seq<int>, b: Seq<int>)
    requires
        a.len() == b.len(),
        0 < a.len(),
    ensures
        reduced(polynomial_product(a, b), a.len()) == times(a, b),
{
    let n = a.len();
    let p = polynomial_product(a, b);
    lemma_partial_product_len(a, b, n);
    assert forall|k: int| 0 <= k < n implies reduced(p, n)[k] == times(a, b)[k] by {
        lemma_partial_is_folded(a, b, k, n);
        reveal_with_fuel(folded, 3);
        if k == n - 1 {
            lemma_convolution_past_the_end(a, b, k + n, n);
        }
    }
    assert(reduced(p, n) =~= times(a, b));
}

/// The product is additive in its second factor.
proof fn lemma_convolution_plus_right(a: Seq<int>, b: Seq<int>, c: Seq<int>, k: int, m: nat)
    requires
        b.len() == c.len(),
        m <= a.len(),
    ensures
        partial_convolution(a, plus(b, c), k, m) == partial_convolution(a, b, k, m)
            + partial_convolution(a, c, k, m),
    decreases m,
{
    if m > 0 {
        let l = m - 1;
        lemma_convolution_plus_right(a, b, c, k, l as nat);
        let x = a[l];
        let (y, z) = (coefficient(b, k - l), coefficient(c, k - l));
        assert(coefficient(plus(b, c), k - l) == y + z);
        assert(x * (y + z) == x * y + x * z) by (nonlinear_arith);
    }
}

/// The product is additive in its first factor.
proof fn lemma_convolution_plus_left(a: Seq<int>, b: Seq<int>, c: Seq<int>, k: int, m: nat)
    requires
        a.len() == b.len(),
        m <= a.len(),
    ensures
        partial_convolution(plus(a, b), c, k, m) == partial_convolution(a, c, k, m)
            + partial_convolution(b, c, k, m),
    decreases m,
{
    if m > 0 {
        let l = m - 1;
        lemma_convolution_plus_left(a, b, c, k, l as nat);
        let x = coefficient(c, k - l);
        let (y, z) = (a[l], b[l]);
        assert((y + z) * x == y * x + z * x) by (nonlinear_arith);
    }
}

/// `b = low + X^h high`, in the second factor.
proof fn lemma_convolution_split_right(
    a: Seq<int>,
    b: Seq<int>,
    h: int,
    k: int,
    m: nat,
)
    requires
        0 <= h <= b.len(),
        m <= a.len(),
    ensures
        partial_convolution(a, b, k, m) == partial_convolution(a, b.take(h), k, m)
            + partial_convolution(a, b.skip(h), k - h, m),
    decreases m,
{
    if m > 0 {
        let l = m - 1;
        lemma_convolution_split_right(a, b, h, k, l as nat);
        let x = a[l];
        let (y, z) = (coefficient(b.take(h), k - l), coefficient(b.skip(h), k - h - l));
        assert(coefficient(b, k - l) == y + z);
        assert(x * (y + z) == x * y + x * z) by (nonlinear_arith);
    }
}

/// `a = low + X^h high`, in the first factor.
proof fn lemma_convolution_split_left(a: Seq<int>, b: Seq<int>, h: nat, k: int, m: nat)
    requires
        h + m <= a.len(),
    ensures
        partial_convolution(a, b, k, h + m) == partial_convolution(a.take(h as int), b, k, h)
            + partial_convolution(a.skip(h as int), b, k - h, m),
    decreases m,
{
    if m == 0 {
        lemma_convolution_of_prefix(a, a.take(h as int), b, k, h);
    } else {
        lemma_convolution_split_left(a, b, h, k, (m - 1) as nat);
    }
}

proof fn lemma_convolution_of_prefix(a: Seq<int>, c: Seq<int>, b: Seq<int>, k: int, m: nat)
    requires
        m <= a.len(),
        m <= c.len(),
        forall|i: int| 0 <= i < m ==> a[i] == c[i],
    ensures
        partial_convolution(a, b, k, m) == partial_convolution(c, b, k, m),
    decreases m,
{
    if m > 0 {
        lemma_convolution_of_prefix(a, c, b, k, (m - 1) as nat);
    }
}

/// Karatsuba's identity: with `a = p + X^h q` and `b = r + X^h s`, the product `a b` is
/// `p r + X^h ((p + q)(r + s) - p r - q s) + X^(2h) q s`.
pub proof fn lemma_karatsuba(a: Seq<int>, b: Seq<int>, h: nat, k: int)
    requires
        a.len() == 2 * h,
        b.len() == 2 * h,
    ensures
        ({
            let (p, q) = (a.take(h as int), a.skip(h as int));
            let (r, s) = (b.take(h as int), b.skip(h as int));
            convolution(a, b, k) == convolution(p, r, k) + (convolution(plus(p, q), plus(r, s), k - h)
                - convolution(p, r, k - h) - convolution(q, s, k - h)) + convolution(q, s, k - 2 * h)
        }),
{
    let (p, q) = (a.take(h as int), a.skip(h as int));
    let (r, s) = (b.take(h as int), b.skip(h as int));
    lemma_convolution_split_left(a, b, h, k, h);
    lemma_convolution_split_right(p, b, h as int, k, h);
    lemma_convolution_split_right(q, b, h as int, k - h, h);
    lemma_convolution_plus_left(p, q, plus(r, s), k - h, h);
    lemma_convolution_plus_right(p, r, s, k - h, h);
    lemma_convolution_plus_right(q, r, s, k - h, h);
}

/// Outside the range of the product's coefficients the convolution is zero.
pub proof fn lemma_convolution_outside(a: Seq<int>, b: Seq<int>, k: int)
    requires
        k < 0 || k >= a.len() + b.len() - 1,
    ensures
        convolution(a, b, k) == 0,
{
    if k < 0 {
        lemma_convolution_before_the_start(a, b, k, a.len());
    } else {
        lemma_convolution_past_the_end(a, b, k, a.len());
    }
}

proof fn lemma_convolution_before_the_start(a: Seq<int>, b: Seq<int>, k: int, m: nat)
    requires
        m <= a.len(),
        k < 0,
    ensures
        partial_convolution(a, b, k, m) == 0,
    decreases m,
{
    if m > 0 {
        lemma_convolution_before_the_start(a, b, k, (m - 1) as nat);
        let x = a[m - 1];
        assert(x * 0 == 0) by (nonlinear_arith);
    }
}

/// The remainder modulo `X^n + 1`: with `a = b + X^n c`, where `b` has `n` coefficients, it is `b`
/// minus the remainder of `c`. What has at most `n` coefficients is its own remainder, but for zeros
/// that fill it up.
pub proof fn law_remainder(a: Seq<int>, n: nat, i: int)
    requires
        0 <= i < n,
    ensures
        reduced(a, n).len() == n,
        a.len() > n ==> reduced(a, n)[i] == a[i] - reduced(a.skip(n as int), n)[i],
        a.len() <= n ==> reduced(a, n)[i] == (if i < a.len() {
            a[i]
        } else {
            0
        }),
{
    reveal_with_fuel(folded, 2);
    if a.len() > n {
        lemma_folded_skip(a, n, i);
    }
}

proof fn lemma_folded_skip(a: Seq<int>, n: nat, i: int)
    requires
        0 <= i,
        0 < n <= a.len(),
    ensures
        folded(a.skip(n as int), n, i) == folded(a, n, i + n),
    decreases a.len() - i + n,
{
    let b = a.skip(n as int);
    if i < b.len() {
        lemma_folded_skip(a, n, i + n);
    }
}

} // verus!
