//! The ring `Z[X] / (X^n + 1)`, whose elements are the sequences of `n` integers.
//!
//! Index `i` of a sequence is the coefficient of `X^i`. All operations keep the length.
use vstd::prelude::*;

verus! {

pub open spec fn zero(n: nat) -> Seq<int> {
    Seq::new(n, |i: int| 0int)
}

/// The constant polynomial `c`.
pub open spec fn constant(c: int, n: nat) -> Seq<int> {
    Seq::new(n, |i: int| if i == 0 { c } else { 0int })
}

pub open spec fn plus(a: Seq<int>, b: Seq<int>) -> Seq<int> {
    Seq::new(a.len(), |i: int| a[i] + b[i])
}

pub open spec fn minus(a: Seq<int>, b: Seq<int>) -> Seq<int> {
    Seq::new(a.len(), |i: int| a[i] - b[i])
}

/// The integer multiple `c * a`.
pub open spec fn scale(c: int, a: Seq<int>) -> Seq<int> {
    Seq::new(a.len(), |i: int| c * a[i])
}

/// `X^k * a`, for `k` up to `n`: what is moved past `X^(n - 1)` comes back negated, because
/// `X^n = -1`.
pub open spec fn rotated(a: Seq<int>, k: int) -> Seq<int> {
    Seq::new(a.len(), |i: int| if i >= k { a[i - k] } else { -a[i - k + a.len()] })
}

/// `a_0 * b + a_1 X * b + ... + a_(k - 1) X^(k - 1) * b`.
pub open spec fn partial_product(a: Seq<int>, b: Seq<int>, k: nat) -> Seq<int>
    decreases k,
{
    if k == 0 {
        zero(b.len())
    } else {
        let last = (k - 1) as nat;
        plus(partial_product(a, b, last), scale(a[last as int], rotated(b, last as int)))
    }
}

/// The product of two ring elements.
pub open spec fn times(a: Seq<int>, b: Seq<int>) -> Seq<int> {
    partial_product(a, b, a.len())
}

pub proof fn lemma_partial_product_len(a: Seq<int>, b: Seq<int>, k: nat)
    ensures
        partial_product(a, b, k).len() == b.len(),
    decreases k,
{
    if k > 0 {
        lemma_partial_product_len(a, b, (k - 1) as nat);
    }
}

proof fn lemma_scale_plus(c: int, a: Seq<int>, b: Seq<int>)
    requires
        a.len() == b.len(),
    ensures
        scale(c, plus(a, b)) == plus(scale(c, a), scale(c, b)),
{
    assert forall|i: int| 0 <= i < a.len() implies scale(c, plus(a, b))[i] == plus(
        scale(c, a),
        scale(c, b),
    )[i] by {
        assert(c * (a[i] + b[i]) == c * a[i] + c * b[i]) by (nonlinear_arith);
    }
    assert(scale(c, plus(a, b)) =~= plus(scale(c, a), scale(c, b)));
}

proof fn lemma_scale_scale(c: int, d: int, a: Seq<int>)
    ensures
        scale(c, scale(d, a)) == scale(c * d, a),
{
    assert forall|i: int| 0 <= i < a.len() implies scale(c, scale(d, a))[i] == scale(c * d, a)[i] by {
        assert(c * (d * a[i]) == (c * d) * a[i]) by (nonlinear_arith);
    }
    assert(scale(c, scale(d, a)) =~= scale(c * d, a));
}

proof fn lemma_scale_sum(c: int, d: int, a: Seq<int>)
    ensures
        scale(c + d, a) == plus(scale(c, a), scale(d, a)),
{
    assert forall|i: int| 0 <= i < a.len() implies scale(c + d, a)[i] == plus(
        scale(c, a),
        scale(d, a),
    )[i] by {
        assert((c + d) * a[i] == c * a[i] + d * a[i]) by (nonlinear_arith);
    }
    assert(scale(c + d, a) =~= plus(scale(c, a), scale(d, a)));
}

proof fn lemma_rotated_scale(c: int, a: Seq<int>, k: int)
    requires
        0 <= k <= a.len(),
    ensures
        rotated(scale(c, a), k) == scale(c, rotated(a, k)),
{
    assert forall|i: int| 0 <= i < a.len() implies rotated(scale(c, a), k)[i] == scale(
        c,
        rotated(a, k),
    )[i] by {
        if i < k {
            let x = a[i - k + a.len()];
            assert(-(c * x) == c * (-x)) by (nonlinear_arith);
        }
    }
    assert(rotated(scale(c, a), k) =~= scale(c, rotated(a, k)));
}

proof fn lemma_rotated_plus(a: Seq<int>, b: Seq<int>, k: int)
    requires
        0 <= k <= a.len(),
        a.len() == b.len(),
    ensures
        rotated(plus(a, b), k) == plus(rotated(a, k), rotated(b, k)),
{
    assert(rotated(plus(a, b), k) =~= plus(rotated(a, k), rotated(b, k)));
}

pub proof fn lemma_rotated_twice(a: Seq<int>, j: int, k: int)
    requires
        0 <= j,
        0 <= k,
        j + k <= a.len(),
    ensures
        rotated(rotated(a, j), k) == rotated(a, j + k),
{
    assert(rotated(rotated(a, j), k) =~= rotated(a, j + k));
}

/// The product is additive in its first factor.
pub proof fn lemma_times_plus_left(a: Seq<int>, b: Seq<int>, c: Seq<int>)
    requires
        a.len() == b.len() == c.len(),
    ensures
        times(plus(a, b), c) == plus(times(a, c), times(b, c)),
{
    lemma_partial_plus_left(a, b, c, a.len());
}

proof fn lemma_partial_plus_left(a: Seq<int>, b: Seq<int>, c: Seq<int>, k: nat)
    requires
        a.len() == b.len() == c.len(),
        k <= a.len(),
    ensures
        partial_product(plus(a, b), c, k) == plus(
            partial_product(a, c, k),
            partial_product(b, c, k),
        ),
    decreases k,
{
    if k == 0 {
        assert(zero(c.len()) =~= plus(zero(c.len()), zero(c.len())));
    } else {
        let l = (k - 1) as nat;
        lemma_partial_plus_left(a, b, c, l);
        lemma_partial_product_len(a, c, l);
        lemma_partial_product_len(b, c, l);
        lemma_scale_sum(a[l as int], b[l as int], rotated(c, l as int));
        assert(partial_product(plus(a, b), c, k) =~= plus(
            partial_product(a, c, k),
            partial_product(b, c, k),
        ));
    }
}

/// An integer factor can be taken out of the first factor.
pub proof fn lemma_times_scale_left(s: int, a: Seq<int>, c: Seq<int>)
    requires
        a.len() == c.len(),
    ensures
        times(scale(s, a), c) == scale(s, times(a, c)),
{
    lemma_partial_scale_left(s, a, c, a.len());
}

proof fn lemma_partial_scale_left(s: int, a: Seq<int>, c: Seq<int>, k: nat)
    requires
        a.len() == c.len(),
        k <= a.len(),
    ensures
        partial_product(scale(s, a), c, k) == scale(s, partial_product(a, c, k)),
    decreases k,
{
    if k == 0 {
        assert forall|i: int| 0 <= i < c.len() implies scale(s, zero(c.len()))[i] == 0 by {
            assert(s * 0 == 0) by (nonlinear_arith);
        }
        assert(zero(c.len()) =~= scale(s, zero(c.len())));
    } else {
        let l = (k - 1) as nat;
        lemma_partial_scale_left(s, a, c, l);
        lemma_partial_product_len(a, c, l);
        lemma_scale_scale(s, a[l as int], rotated(c, l as int));
        lemma_scale_plus(s, partial_product(a, c, l), scale(a[l as int], rotated(c, l as int)));
    }
}

/// The product is additive in its second factor.
pub proof fn lemma_times_plus_right(a: Seq<int>, b: Seq<int>, c: Seq<int>)
    requires
        a.len() == b.len() == c.len(),
    ensures
        times(a, plus(b, c)) == plus(times(a, b), times(a, c)),
{
    lemma_partial_plus_right(a, b, c, a.len());
}

proof fn lemma_partial_plus_right(a: Seq<int>, b: Seq<int>, c: Seq<int>, k: nat)
    requires
        a.len() == b.len() == c.len(),
        k <= a.len(),
    ensures
        partial_product(a, plus(b, c), k) == plus(
            partial_product(a, b, k),
            partial_product(a, c, k),
        ),
    decreases k,
{
    if k == 0 {
        assert(zero(c.len()) =~= plus(zero(c.len()), zero(c.len())));
    } else {
        let l = (k - 1) as nat;
        lemma_partial_plus_right(a, b, c, l);
        lemma_partial_product_len(a, c, l);
        lemma_partial_product_len(a, b, l);
        lemma_rotated_plus(b, c, l as int);
        lemma_scale_plus(a[l as int], rotated(b, l as int), rotated(c, l as int));
        assert(partial_product(a, plus(b, c), k) =~= plus(
            partial_product(a, b, k),
            partial_product(a, c, k),
        ));
    }
}

/// An integer factor can be taken out of the second factor.
pub proof fn lemma_times_scale_right(s: int, a: Seq<int>, c: Seq<int>)
    requires
        a.len() == c.len(),
    ensures
        times(a, scale(s, c)) == scale(s, times(a, c)),
{
    lemma_partial_scale_right(s, a, c, a.len());
}

proof fn lemma_partial_scale_right(s: int, a: Seq<int>, c: Seq<int>, k: nat)
    requires
        a.len() == c.len(),
        k <= a.len(),
    ensures
        partial_product(a, scale(s, c), k) == scale(s, partial_product(a, c, k)),
    decreases k,
{
    if k == 0 {
        assert forall|i: int| 0 <= i < c.len() implies scale(s, zero(c.len()))[i] == 0 by {
            assert(s * 0 == 0) by (nonlinear_arith);
        }
        assert(zero(c.len()) =~= scale(s, zero(c.len())));
    } else {
        let l = (k - 1) as nat;
        let x = a[l as int];
        lemma_partial_scale_right(s, a, c, l);
        lemma_partial_product_len(a, c, l);
        lemma_rotated_scale(s, c, l as int);
        lemma_scale_scale(s, x, rotated(c, l as int));
        lemma_scale_scale(x, s, rotated(c, l as int));
        assert(s * x == x * s) by (nonlinear_arith);
        lemma_scale_plus(s, partial_product(a, c, l), scale(x, rotated(c, l as int)));
    }
}

proof fn lemma_rotated_partial(a: Seq<int>, b: Seq<int>, k: nat)
    requires
        a.len() == b.len(),
        0 < b.len(),
        k <= a.len(),
    ensures
        rotated(partial_product(a, b, k), 1) == partial_product(a, rotated(b, 1), k),
    decreases k,
{
    if k == 0 {
        assert(rotated(zero(b.len()), 1) =~= zero(b.len()));
    } else {
        let l = (k - 1) as nat;
        lemma_rotated_partial(a, b, l);
        lemma_partial_product_len(a, b, l);
        lemma_rotated_plus(partial_product(a, b, l), scale(a[l as int], rotated(b, l as int)), 1);
        lemma_rotated_scale(a[l as int], rotated(b, l as int), 1);
        lemma_rotated_twice(b, l as int, 1);
        lemma_rotated_twice(b, 1, l as int);
    }
}

proof fn lemma_partial_of_rotated(a: Seq<int>, b: Seq<int>, k: nat)
    requires
        a.len() == b.len(),
        0 < b.len(),
        k < a.len(),
    ensures
        partial_product(rotated(a, 1), b, k + 1) == plus(
            scale(-a[a.len() - 1], b),
            rotated(partial_product(a, b, k), 1),
        ),
    decreases k,
{
    let n = a.len();
    if k == 0 {
        assert(rotated(b, 0) =~= b);
        reveal_with_fuel(partial_product, 2);
        assert(partial_product(rotated(a, 1), b, 1) =~= plus(
            scale(-a[n - 1], b),
            rotated(zero(n), 1),
        ));
    } else {
        let l = (k - 1) as nat;
        lemma_partial_of_rotated(a, b, l);
        lemma_partial_product_len(a, b, l);
        lemma_partial_product_len(a, b, k);
        let term = scale(a[l as int], rotated(b, l as int));
        lemma_rotated_plus(partial_product(a, b, l), term, 1);
        lemma_rotated_scale(a[l as int], rotated(b, l as int), 1);
        lemma_rotated_twice(b, l as int, 1);
        assert(rotated(a, 1)[k as int] == a[l as int]);
        assert(partial_product(rotated(a, 1), b, k + 1) =~= plus(
            scale(-a[n - 1], b),
            rotated(partial_product(a, b, k), 1),
        ));
    }
}

/// A factor `X` can be taken out of the second factor.
pub proof fn lemma_times_rotated_right(a: Seq<int>, b: Seq<int>)
    requires
        a.len() == b.len(),
        0 < b.len(),
    ensures
        times(a, rotated(b, 1)) == rotated(times(a, b), 1),
{
    lemma_rotated_partial(a, b, a.len());
}

/// A factor `X` can be taken out of the first factor.
pub proof fn lemma_times_rotated_left(a: Seq<int>, b: Seq<int>)
    requires
        a.len() == b.len(),
        0 < b.len(),
    ensures
        times(rotated(a, 1), b) == rotated(times(a, b), 1),
{
    let n = a.len();
    let l = (n - 1) as nat;
    let x = a[n - 1];
    lemma_partial_of_rotated(a, b, l);
    lemma_partial_product_len(a, b, l);
    lemma_rotated_plus(partial_product(a, b, l), scale(x, rotated(b, l as int)), 1);
    lemma_rotated_scale(x, rotated(b, l as int), 1);
    lemma_rotated_twice(b, l as int, 1);
    assert(scale(x, rotated(b, n as int)) =~= scale(-x, b)) by {
        assert forall|i: int| 0 <= i < n implies x * (-b[i]) == (-x) * b[i] by {
            let y = b[i];
            assert(x * (-y) == (-x) * y) by (nonlinear_arith);
        }
    }
    assert(times(rotated(a, 1), b) =~= rotated(times(a, b), 1));
}

proof fn lemma_times_rotated_left_by(a: Seq<int>, b: Seq<int>, k: nat)
    requires
        a.len() == b.len(),
        k < a.len(),
    ensures
        times(rotated(a, k as int), b) == rotated(times(a, b), k as int),
    decreases k,
{
    lemma_partial_product_len(a, b, a.len());
    if k == 0 {
        assert(rotated(a, 0) =~= a);
        assert(rotated(times(a, b), 0) =~= times(a, b));
    } else {
        let l = (k - 1) as nat;
        lemma_times_rotated_left_by(a, b, l);
        lemma_rotated_twice(a, l as int, 1);
        lemma_times_rotated_left(rotated(a, l as int), b);
        lemma_rotated_twice(times(a, b), l as int, 1);
    }
}

proof fn lemma_times_rotated_right_by(a: Seq<int>, b: Seq<int>, k: nat)
    requires
        a.len() == b.len(),
        k < a.len(),
    ensures
        times(a, rotated(b, k as int)) == rotated(times(a, b), k as int),
    decreases k,
{
    lemma_partial_product_len(a, b, a.len());
    if k == 0 {
        assert(rotated(b, 0) =~= b);
        assert(rotated(times(a, b), 0) =~= times(a, b));
    } else {
        let l = (k - 1) as nat;
        lemma_times_rotated_right_by(a, b, l);
        lemma_rotated_twice(b, l as int, 1);
        lemma_times_rotated_right(a, rotated(b, l as int));
        lemma_rotated_twice(times(a, b), l as int, 1);
    }
}

proof fn lemma_times_zero_left(n: nat, c: Seq<int>)
    requires
        c.len() == n,
    ensures
        times(zero(n), c) == zero(n),
{
    lemma_partial_product_len(zero(n), c, n);
    assert(scale(0, zero(n)) =~= zero(n));
    lemma_times_scale_left(0, zero(n), c);
    assert(scale(0, times(zero(n), c)) =~= zero(n));
}

proof fn lemma_times_zero_right(n: nat, c: Seq<int>)
    requires
        c.len() == n,
    ensures
        times(c, zero(n)) == zero(n),
{
    lemma_partial_product_len(c, zero(n), n);
    assert(scale(0, zero(n)) =~= zero(n));
    lemma_times_scale_right(0, c, zero(n));
    assert(scale(0, times(c, zero(n))) =~= zero(n));
}

proof fn lemma_times_partial_left(a: Seq<int>, b: Seq<int>, c: Seq<int>, k: nat)
    requires
        a.len() == b.len() == c.len(),
        k <= a.len(),
    ensures
        times(partial_product(a, b, k), c) == partial_product(a, times(b, c), k),
    decreases k,
{
    lemma_partial_product_len(b, c, b.len());
    if k == 0 {
        lemma_times_zero_left(b.len(), c);
    } else {
        let l = (k - 1) as nat;
        lemma_times_partial_left(a, b, c, l);
        lemma_partial_product_len(a, b, l);
        let x = a[l as int];
        let r = rotated(b, l as int);
        lemma_times_plus_left(partial_product(a, b, l), scale(x, r), c);
        lemma_times_scale_left(x, r, c);
        lemma_times_rotated_left_by(b, c, l);
    }
}

/// The product is associative.
pub proof fn lemma_times_associative(a: Seq<int>, b: Seq<int>, c: Seq<int>)
    requires
        a.len() == b.len() == c.len(),
    ensures
        times(times(a, b), c) == times(a, times(b, c)),
{
    lemma_times_partial_left(a, b, c, a.len());
}

proof fn lemma_partial_of_one(a: Seq<int>, k: nat)
    requires
        k <= a.len(),
    ensures
        partial_product(a, constant(1, a.len()), k) == Seq::new(
            a.len(),
            |i: int| if i < k { a[i] } else { 0int },
        ),
    decreases k,
{
    let one = constant(1, a.len());
    let want = Seq::new(a.len(), |i: int| if i < k { a[i] } else { 0int });
    if k == 0 {
        assert(partial_product(a, one, k) =~= want);
    } else {
        let l = (k - 1) as nat;
        lemma_partial_of_one(a, l);
        let x = a[l as int];
        let r = rotated(one, l as int);
        assert forall|i: int| 0 <= i < a.len() implies #[trigger] scale(x, r)[i] == (if i == l {
            x
        } else {
            0int
        }) by {
            assert(r[i] == if i == l { 1int } else { 0int });
            assert(x * 1 == x && x * 0 == 0) by (nonlinear_arith);
        }
        assert(partial_product(a, one, k) =~= want);
    }
}

/// `1` is neutral.
pub proof fn lemma_times_one(a: Seq<int>)
    ensures
        times(a, constant(1, a.len())) == a,
{
    lemma_partial_of_one(a, a.len());
    assert(times(a, constant(1, a.len())) =~= a);
}

proof fn lemma_times_partial_right(a: Seq<int>, b: Seq<int>, k: nat)
    requires
        a.len() == b.len(),
        k <= a.len(),
    ensures
        times(a, partial_product(b, constant(1, a.len()), k)) == partial_product(b, a, k),
    decreases k,
{
    let one = constant(1, a.len());
    if k == 0 {
        lemma_times_zero_right(a.len(), a);
    } else {
        let l = (k - 1) as nat;
        let x = b[l as int];
        lemma_times_partial_right(a, b, l);
        lemma_partial_product_len(b, one, l);
        lemma_times_plus_right(
            a,
            partial_product(b, one, l),
            scale(x, rotated(one, l as int)),
        );
        lemma_times_scale_right(x, a, rotated(one, l as int));
        lemma_times_rotated_right_by(a, one, l);
        lemma_times_one(a);
    }
}

/// The product is commutative.
pub proof fn lemma_times_commutative(a: Seq<int>, b: Seq<int>)
    requires
        a.len() == b.len(),
    ensures
        times(a, b) == times(b, a),
{
    lemma_times_partial_right(a, b, a.len());
    lemma_times_one(b);
}

/// The product is subtractive in its first factor.
pub proof fn lemma_times_minus_left(a: Seq<int>, b: Seq<int>, c: Seq<int>)
    requires
        a.len() == b.len() == c.len(),
    ensures
        times(minus(a, b), c) == minus(times(a, c), times(b, c)),
{
    lemma_partial_product_len(a, c, a.len());
    lemma_partial_product_len(b, c, a.len());
    assert(minus(a, b) =~= plus(a, scale(-1, b)));
    lemma_times_plus_left(a, scale(-1, b), c);
    lemma_times_scale_left(-1, b, c);
    assert(plus(times(a, c), scale(-1, times(b, c))) =~= minus(times(a, c), times(b, c)));
}

/// The product is subtractive in its second factor.
pub proof fn lemma_times_minus_right(a: Seq<int>, b: Seq<int>, c: Seq<int>)
    requires
        a.len() == b.len() == c.len(),
    ensures
        times(a, minus(b, c)) == minus(times(a, b), times(a, c)),
{
    lemma_times_commutative(a, minus(b, c));
    lemma_times_commutative(a, b);
    lemma_times_commutative(a, c);
    lemma_times_minus_left(b, c, a);
}

/// `a(X^2)`, an element of the ring of twice the degree.
pub open spec fn lifted(a: Seq<int>) -> Seq<int> {
    Seq::new(2 * a.len(), |i: int| if i % 2 == 0 { a[i / 2] } else { 0int })
}

/// `a(-X)`.
pub open spec fn adjoint(a: Seq<int>) -> Seq<int> {
    Seq::new(a.len(), |i: int| if i % 2 == 0 { a[i] } else { -a[i] })
}

/// The coefficients of the even powers of `X`.
pub open spec fn even_part(a: Seq<int>) -> Seq<int> {
    Seq::new(a.len() / 2, |i: int| a[2 * i])
}

/// The coefficients of the odd powers of `X`.
pub open spec fn odd_part(a: Seq<int>) -> Seq<int> {
    Seq::new(a.len() / 2, |i: int| a[2 * i + 1])
}

/// The norm of `a` in the ring of half the degree: with `a = e(X^2) + X o(X^2)` it is
/// `e^2 - X o^2`.
pub open spec fn norm(a: Seq<int>) -> Seq<int> {
    let even = even_part(a);
    let odd = odd_part(a);
    minus(times(even, even), rotated(times(odd, odd), 1))
}

proof fn lemma_lifted_rotated(a: Seq<int>, k: int)
    requires
        0 <= k <= a.len(),
    ensures
        lifted(rotated(a, k)) == rotated(lifted(a), 2 * k),
{
    let n = a.len();
    assert forall|i: int| 0 <= i < 2 * n implies lifted(rotated(a, k))[i] == rotated(
        lifted(a),
        2 * k,
    )[i] by {
        let j = i / 2;
        if i % 2 == 0 {
            assert(i == 2 * j);
            if j >= k {
                assert(i - 2 * k == 2 * (j - k));
            } else {
                assert(i - 2 * k + 2 * n == 2 * (j - k + n));
            }
        } else {
            assert(i == 2 * j + 1);
            if j >= k {
                assert(i - 2 * k == 2 * (j - k) + 1);
            } else {
                assert(i - 2 * k + 2 * n == 2 * (j - k + n) + 1);
            }
        }
    }
    assert(lifted(rotated(a, k)) =~= rotated(lifted(a), 2 * k));
}

proof fn lemma_lifted_partial(a: Seq<int>, b: Seq<int>, k: nat)
    requires
        a.len() == b.len(),
        k <= a.len(),
    ensures
        lifted(partial_product(a, b, k)) == partial_product(lifted(a), lifted(b), 2 * k),
    decreases k,
{
    if k == 0 {
        assert(lifted(zero(b.len())) =~= zero(2 * b.len()));
    } else {
        let l = (k - 1) as nat;
        lemma_lifted_partial(a, b, l);
        lemma_partial_product_len(a, b, l);
        lemma_lifted_rotated(b, l as int);
        let x = a[l as int];
        let r = rotated(b, l as int);
        let base = partial_product(lifted(a), lifted(b), 2 * l);
        let with_even = partial_product(lifted(a), lifted(b), (2 * l + 1) as nat);
        assert(lifted(a)[(2 * l) as int] == x);
        assert(lifted(a)[(2 * l + 1) as int] == 0);
        assert(with_even == plus(base, scale(x, rotated(lifted(b), (2 * l) as int))));
        assert(partial_product(lifted(a), lifted(b), 2 * k) == plus(
            with_even,
            scale(0, rotated(lifted(b), (2 * l + 1) as int)),
        ));
        assert(lifted(plus(partial_product(a, b, l), scale(x, r))) =~= plus(
            lifted(partial_product(a, b, l)),
            scale(x, lifted(r)),
        )) by {
            assert(x * 0 == 0) by (nonlinear_arith);
        }
        assert(plus(with_even, scale(0, rotated(lifted(b), (2 * l + 1) as int))) =~= with_even);
    }
}

/// Lifting keeps products.
pub proof fn lemma_lifted_times(a: Seq<int>, b: Seq<int>)
    requires
        a.len() == b.len(),
    ensures
        lifted(times(a, b)) == times(lifted(a), lifted(b)),
{
    lemma_lifted_partial(a, b, a.len());
}

/// Lifting the norm of `a` gives the product of `a` with its adjoint:
/// `N(a)(X^2) = a(X) * a(-X)` modulo `X^n + 1`.
pub proof fn lemma_lifted_norm(a: Seq<int>)
    requires
        a.len() % 2 == 0,
        a.len() > 0,
    ensures
        lifted(norm(a)) == times(a, adjoint(a)),
{
    let m = a.len() / 2;
    let even = even_part(a);
    let odd = odd_part(a);
    let e = lifted(even);
    let o = lifted(odd);
    let xo = rotated(o, 1);
    assert(a.len() == 2 * m);
    assert(a =~= plus(e, xo)) by {
        assert forall|i: int| 0 <= i < a.len() implies a[i] == plus(e, xo)[i] by {
            if i % 2 == 0 {
                assert(i == 2 * (i / 2));
            } else {
                assert(i == 2 * (i / 2) + 1);
                assert((i - 1) / 2 == i / 2);
            }
        }
    }
    assert(adjoint(a) =~= minus(e, xo)) by {
        assert forall|i: int| 0 <= i < a.len() implies adjoint(a)[i] == minus(e, xo)[i] by {
            if i % 2 == 0 {
                assert(i == 2 * (i / 2));
            } else {
                assert(i == 2 * (i / 2) + 1);
                assert((i - 1) / 2 == i / 2);
            }
        }
    }
    lemma_partial_product_len(e, e, a.len());
    lemma_partial_product_len(e, xo, a.len());
    lemma_partial_product_len(xo, e, a.len());
    lemma_partial_product_len(xo, xo, a.len());
    lemma_partial_product_len(o, o, a.len());
    lemma_partial_product_len(o, xo, a.len());
    lemma_partial_product_len(even, even, m);
    lemma_partial_product_len(odd, odd, m);
    lemma_times_plus_left(e, xo, minus(e, xo));
    lemma_times_minus_right(e, e, xo);
    lemma_times_minus_right(xo, e, xo);
    lemma_times_commutative(e, xo);
    assert(times(a, adjoint(a)) =~= minus(times(e, e), times(xo, xo)));
    lemma_times_rotated_left(o, xo);
    lemma_times_rotated_right(o, o);
    lemma_rotated_twice(times(o, o), 1, 1);
    lemma_lifted_times(even, even);
    lemma_lifted_times(odd, odd);
    lemma_lifted_rotated(times(odd, odd), 1);
    assert(lifted(norm(a)) =~= minus(
        lifted(times(even, even)),
        lifted(rotated(times(odd, odd), 1)),
    ));
}

/// `f G - g F`.
pub open spec fn determinant(f: Seq<int>, g: Seq<int>, capital_f: Seq<int>, capital_g: Seq<int>) -> Seq<int> {
    minus(times(f, capital_g), times(g, capital_f))
}

/// A pair of solutions for the norms of `f` and `g`, lifted and multiplied by the adjoints, is
/// one for `f` and `g`.
pub proof fn lemma_lifted_solution(
    f: Seq<int>,
    g: Seq<int>,
    half_f: Seq<int>,
    half_g: Seq<int>,
    c: int,
)
    requires
        f.len() == g.len(),
        f.len() % 2 == 0,
        f.len() > 0,
        half_f.len() == f.len() / 2,
        half_g.len() == f.len() / 2,
        determinant(norm(f), norm(g), half_f, half_g) == constant(c, f.len() / 2),
    ensures
        determinant(f, g, times(lifted(half_f), adjoint(g)), times(lifted(half_g), adjoint(f)))
            == constant(c, f.len()),
{
    let m = f.len() / 2;
    assert(f.len() == 2 * m);
    lemma_product_with_lift(f, half_g);
    lemma_product_with_lift(g, half_f);
    lemma_norm_len(f);
    lemma_norm_len(g);
    let x = times(norm(f), half_g);
    let y = times(norm(g), half_f);
    lemma_partial_product_len(norm(f), half_g, m);
    lemma_partial_product_len(norm(g), half_f, m);
    assert(minus(lifted(x), lifted(y)) =~= lifted(minus(x, y)));
    assert(lifted(constant(c, m)) =~= constant(c, f.len()));
}

pub proof fn lemma_norm_len(a: Seq<int>)
    ensures
        norm(a).len() == a.len() / 2,
{
    lemma_partial_product_len(even_part(a), even_part(a), even_part(a).len());
}

pub proof fn lemma_product_with_lift(f: Seq<int>, half: Seq<int>)
    requires
        f.len() % 2 == 0,
        f.len() > 0,
        half.len() == f.len() / 2,
    ensures
        times(f, times(lifted(half), adjoint(f))) == lifted(times(norm(f), half)),
{
    lemma_norm_len(f);
    assert(f.len() == 2 * half.len());
    lemma_times_commutative(lifted(half), adjoint(f));
    lemma_times_associative(f, adjoint(f), lifted(half));
    lemma_lifted_norm(f);
    lemma_lifted_times(norm(f), half);
}

/// Subtracting the same multiple of `(f, g)` from `(F, G)` keeps `f G - g F`.
pub proof fn lemma_reduced_solution(
    f: Seq<int>,
    g: Seq<int>,
    capital_f: Seq<int>,
    capital_g: Seq<int>,
    k: Seq<int>,
    s: int,
)
    requires
        f.len() == g.len() == capital_f.len() == capital_g.len() == k.len(),
    ensures
        determinant(
            f,
            g,
            minus(capital_f, scale(s, times(k, f))),
            minus(capital_g, scale(s, times(k, g))),
        ) == determinant(f, g, capital_f, capital_g),
{
    let n = f.len();
    let kf = times(k, f);
    let kg = times(k, g);
    lemma_partial_product_len(k, f, n);
    lemma_partial_product_len(k, g, n);
    lemma_times_minus_right(f, capital_g, scale(s, kg));
    lemma_times_minus_right(g, capital_f, scale(s, kf));
    lemma_times_scale_right(s, f, kg);
    lemma_times_scale_right(s, g, kf);
    lemma_times_commutative(f, kg);
    lemma_times_associative(k, g, f);
    lemma_times_commutative(g, f);
    lemma_times_associative(k, f, g);
    lemma_times_commutative(kf, g);
    lemma_partial_product_len(f, kg, n);
    lemma_partial_product_len(g, kf, n);
    lemma_partial_product_len(f, capital_g, n);
    lemma_partial_product_len(g, capital_f, n);
    assert(times(f, kg) == times(g, kf));
    assert(determinant(
        f,
        g,
        minus(capital_f, scale(s, kf)),
        minus(capital_g, scale(s, kg)),
    ) =~= determinant(f, g, capital_f, capital_g));
}

} // verus!
