//! Why the zeros of the number-theoretic transform matter: a polynomial whose transform has no zero
//! is one that can be inverted modulo 12289 and `X^n + 1`.
use crate::falcon::convolution::{coefficient, partial_convolution, polynomial_product};
use crate::falcon::felt::{inverse_residue, lemma_inverse_exists, residue_of};
use crate::falcon::keygen::{evaluation, is_cyclotomic_root, transform_has_zero};
use crate::falcon::ntru::is_power_of_two;
use crate::falcon::ring::{
    adjoint, constant, lemma_lifted_norm, lemma_norm_len, lemma_partial_product_len,
    lemma_product_with_lift, lemma_rotated_twice, lifted, norm, partial_product, plus, rotated,
    scale, times, zero,
};
use vstd::arithmetic::div_mod::{
    lemma_add_mod_noop, lemma_fundamental_div_mod, lemma_mod_multiples_vanish, lemma_mul_mod_noop,
    lemma_small_mod,
};
use vstd::arithmetic::power::{
    lemma_pow0, lemma_pow1, lemma_pow_adds, lemma_pow_distributes, lemma_pow_mod_noop,
    lemma_pow_multiplies, pow,
};
use vstd::prelude::*;

verus! {

/// `f h = 1` modulo 12289 and `X^n + 1`.
pub open spec fn is_inverse_of(h: Seq<int>, f: Seq<int>) -> bool {
    &&& h.len() == f.len()
    &&& forall|i: int|
        0 <= i < f.len() ==> (#[trigger] times(f, h)[i] - constant(1, f.len())[i]) % 12289 == 0
}

/// `f` has an inverse modulo 12289 and `X^n + 1`.
pub open spec fn is_invertible(f: Seq<int>) -> bool {
    exists|h: Seq<int>| is_inverse_of(h, f)
}

// Residues.
proof fn lemma_same_product(a: int, b: int, c: int, d: int)
    requires
        residue_of(a) == residue_of(c),
        residue_of(b) == residue_of(d),
    ensures
        residue_of(a * b) == residue_of(c * d),
{
    lemma_mul_mod_noop(a, b, 12289);
    lemma_mul_mod_noop(c, d, 12289);
}

proof fn lemma_same_sum(a: int, b: int, c: int, d: int)
    requires
        residue_of(a) == residue_of(c),
        residue_of(b) == residue_of(d),
    ensures
        residue_of(a + b) == residue_of(c + d),
{
    lemma_add_mod_noop(a, b, 12289);
    lemma_add_mod_noop(c, d, 12289);
}

proof fn lemma_residue(a: int)
    ensures
        0 <= residue_of(a) < 12289,
        residue_of(residue_of(a)) == residue_of(a),
{
    lemma_small_mod(residue_of(a) as nat, 12289);
}

proof fn lemma_multiple_added(a: int, k: int)
    ensures
        residue_of(a + 12289 * k) == residue_of(a),
{
    lemma_mod_multiples_vanish(k, a, 12289);
}

/// A product is zero only if one of its factors is.
pub proof fn lemma_no_zero_divisors(a: int, b: int)
    requires
        residue_of(a * b) == 0,
    ensures
        residue_of(a) == 0 || residue_of(b) == 0,
{
    lemma_residue(a);
    let x = residue_of(a);
    if x != 0 {
        lemma_inverse_exists(x);
        let i = inverse_residue(x);
        // b = a i b = 0.
        lemma_same_product(x, i, a, i);
        lemma_same_product(a * i, b, 1, b);
        assert((a * i) * b == i * (a * b)) by (nonlinear_arith);
        lemma_same_product(i, a * b, i, 0);
        assert(i * 0 == 0 && 1 * b == b);
    }
}

// Evaluation.
proof fn lemma_evaluation_push(a: Seq<int>, c: int, x: int)
    ensures
        evaluation(a.push(c), x) == evaluation(a, x) + c * pow(x, a.len()),
    decreases a.len(),
{
    let b = a.push(c);
    if a.len() == 0 {
        lemma_pow0(x);
        assert(b.drop_first() =~= seq![]);
        assert(evaluation(b.drop_first(), x) == 0);
        assert(x * 0 == 0);
        assert(c * 1 == c);
    } else {
        let t = a.drop_first();
        assert(b.drop_first() =~= t.push(c));
        lemma_evaluation_push(t, c, x);
        reveal(pow);
        let (e, p) = (evaluation(t, x), pow(x, t.len()));
        assert(pow(x, a.len()) == x * p);
        assert(x * (e + c * p) == x * e + c * (x * p)) by (nonlinear_arith);
    }
}

proof fn lemma_evaluation_plus(a: Seq<int>, b: Seq<int>, x: int)
    requires
        a.len() == b.len(),
    ensures
        evaluation(plus(a, b), x) == evaluation(a, x) + evaluation(b, x),
    decreases a.len(),
{
    if a.len() > 0 {
        let (s, t) = (a.drop_first(), b.drop_first());
        assert(plus(a, b).drop_first() =~= plus(s, t));
        lemma_evaluation_plus(s, t, x);
        let (e, f) = (evaluation(s, x), evaluation(t, x));
        assert(x * (e + f) == x * e + x * f) by (nonlinear_arith);
    }
}

proof fn lemma_evaluation_scale(c: int, a: Seq<int>, x: int)
    ensures
        evaluation(scale(c, a), x) == c * evaluation(a, x),
    decreases a.len(),
{
    if a.len() > 0 {
        let s = a.drop_first();
        assert(scale(c, a).drop_first() =~= scale(c, s));
        lemma_evaluation_scale(c, s, x);
        let e = evaluation(s, x);
        assert(c * a[0] + x * (c * e) == c * (a[0] + x * e)) by (nonlinear_arith);
    } else {
        assert(c * 0 == 0);
    }
}

proof fn lemma_evaluation_zero(n: nat, x: int)
    ensures
        evaluation(zero(n), x) == 0,
    decreases n,
{
    if n > 0 {
        assert(zero(n).drop_first() =~= zero((n - 1) as nat));
        lemma_evaluation_zero((n - 1) as nat, x);
        assert(x * 0 == 0);
    }
}

/// Coefficients that are the same modulo 12289 give the same values.
proof fn lemma_evaluation_same(a: Seq<int>, b: Seq<int>, x: int)
    requires
        a.len() == b.len(),
        forall|i: int| 0 <= i < a.len() ==> residue_of(#[trigger] a[i]) == residue_of(b[i]),
    ensures
        residue_of(evaluation(a, x)) == residue_of(evaluation(b, x)),
    decreases a.len(),
{
    if a.len() > 0 {
        let (s, t) = (a.drop_first(), b.drop_first());
        assert forall|i: int| 0 <= i < s.len() implies residue_of(#[trigger] s[i]) == residue_of(
            t[i],
        ) by {
            assert(s[i] == a[i + 1] && t[i] == b[i + 1]);
        }
        lemma_evaluation_same(s, t, x);
        lemma_same_product(x, evaluation(s, x), x, evaluation(t, x));
        lemma_same_sum(a[0], x * evaluation(s, x), b[0], x * evaluation(t, x));
    }
}

/// At a root of `X^n + 1` the value of `X a` is `x a(x)`.
proof fn lemma_evaluation_rotated_once(a: Seq<int>, x: int)
    requires
        a.len() > 0,
        is_cyclotomic_root(x, a.len()),
    ensures
        residue_of(evaluation(rotated(a, 1), x)) == residue_of(x * evaluation(a, x)),
{
    let n = a.len();
    let (b, c) = (a.drop_last(), a.last());
    let p = pow(x, b.len());
    assert(b.push(c) =~= a);
    lemma_evaluation_push(b, c, x);
    let r = rotated(a, 1);
    assert(r[0] == -c);
    assert(r.drop_first() =~= b);
    let e = evaluation(b, x);
    reveal(pow);
    assert(pow(x, n) == x * p);
    let y = pow(x, n);
    assert(-c + x * e == x * (e + c * p) - c * (y + 1)) by (nonlinear_arith)
        requires
            y == x * p,
    ;
    // x^n + 1 is a multiple of the modulus.
    lemma_fundamental_div_mod(y, 12289);
    let k = y / 12289 + 1;
    assert(y + 1 == 12289 * k);
    assert(-(c * (12289 * k)) == 12289 * (-(c * k))) by (nonlinear_arith);
    lemma_multiple_added(x * (e + c * p), -(c * k));
}

proof fn lemma_evaluation_rotated(a: Seq<int>, k: nat, x: int)
    requires
        a.len() > 0,
        k <= a.len(),
        is_cyclotomic_root(x, a.len()),
    ensures
        residue_of(evaluation(rotated(a, k as int), x)) == residue_of(
            pow(x, k) * evaluation(a, x),
        ),
    decreases k,
{
    if k == 0 {
        assert(rotated(a, 0) =~= a);
        lemma_pow0(x);
        assert(1 * evaluation(a, x) == evaluation(a, x));
    } else {
        let j = (k - 1) as nat;
        lemma_evaluation_rotated(a, j, x);
        lemma_rotated_twice(a, j as int, 1);
        let b = rotated(a, j as int);
        lemma_evaluation_rotated_once(b, x);
        let (p, e) = (pow(x, j), evaluation(a, x));
        lemma_same_product(x, evaluation(b, x), x, p * e);
        reveal(pow);
        assert(pow(x, k) == x * p);
        assert(x * (p * e) == (x * p) * e) by (nonlinear_arith);
    }
}

proof fn lemma_evaluation_partial(a: Seq<int>, b: Seq<int>, k: nat, x: int)
    requires
        a.len() == b.len() > 0,
        k <= a.len(),
        is_cyclotomic_root(x, a.len()),
    ensures
        residue_of(evaluation(partial_product(a, b, k), x)) == residue_of(
            evaluation(a.take(k as int), x) * evaluation(b, x),
        ),
    decreases k,
{
    let e = evaluation(b, x);
    if k == 0 {
        lemma_evaluation_zero(b.len(), x);
        assert(a.take(0) =~= seq![]);
        assert(evaluation(a.take(0), x) == 0);
        assert(0 * e == 0);
    } else {
        let j = (k - 1) as nat;
        let c = a[j as int];
        let d = evaluation(a.take(j as int), x);
        let p = pow(x, j);
        let r = rotated(b, j as int);
        lemma_evaluation_partial(a, b, j, x);
        lemma_partial_product_len(a, b, j);
        lemma_evaluation_plus(partial_product(a, b, j), scale(c, r), x);
        lemma_evaluation_scale(c, r, x);
        lemma_evaluation_rotated(b, j, x);
        lemma_same_product(c, evaluation(r, x), c, p * e);
        lemma_same_sum(
            evaluation(partial_product(a, b, j), x),
            c * evaluation(r, x),
            d * e,
            c * (p * e),
        );
        assert(a.take(k as int) =~= a.take(j as int).push(c));
        lemma_evaluation_push(a.take(j as int), c, x);
        assert(d * e + c * (p * e) == (d + c * p) * e) by (nonlinear_arith);
    }
}

/// At a root of `X^n + 1` the value of a product is the product of the values.
pub proof fn law_transform_of_product(a: Seq<int>, b: Seq<int>, x: int)
    requires
        a.len() == b.len() > 0,
        residue_of(pow(x, a.len())) == 12288,
    ensures
        residue_of(evaluation(times(a, b), x)) == residue_of(evaluation(a, x) * evaluation(b, x)),
{
    assert(is_cyclotomic_root(x, a.len()));
    lemma_evaluation_partial(a, b, a.len(), x);
    assert(a.take(a.len() as int) =~= a);
}

proof fn lemma_evaluation_lifted(a: Seq<int>, x: int)
    ensures
        evaluation(lifted(a), x) == evaluation(a, x * x),
    decreases a.len(),
{
    if a.len() > 0 {
        let t = a.drop_first();
        let l = lifted(a);
        assert(l.drop_first().drop_first() =~= lifted(t)) by {
            assert forall|i: int| 0 <= i < 2 * t.len() implies l.drop_first().drop_first()[i]
                == lifted(t)[i] by {
                assert((i + 2) / 2 == i / 2 + 1);
                assert((i + 2) % 2 == i % 2);
            }
        }
        assert(l.drop_first()[0] == 0);
        lemma_evaluation_lifted(t, x);
        let e = evaluation(lifted(t), x);
        assert(evaluation(l.drop_first(), x) == 0 + x * e);
        assert(x * (x * e) == (x * x) * e) by (nonlinear_arith);
    } else {
        assert(lifted(a) =~= seq![]);
    }
}

/// The even powers of `-x` are those of `x`, the odd ones are their negatives.
proof fn lemma_pow_negative(x: int, n: nat)
    ensures
        pow(-x, n) == (if n % 2 == 0 {
            pow(x, n)
        } else {
            -pow(x, n)
        }),
    decreases n,
{
    reveal(pow);
    if n > 0 {
        let j = (n - 1) as nat;
        lemma_pow_negative(x, j);
        let p = pow(x, j);
        assert((-x) * p == -(x * p)) by (nonlinear_arith);
        assert((-x) * (-p) == x * p) by (nonlinear_arith);
        assert((n % 2 == 0) == (j % 2 == 1));
    }
}

proof fn lemma_evaluation_adjoint(a: Seq<int>, x: int)
    ensures
        evaluation(adjoint(a), x) == evaluation(a, -x),
    decreases a.len(),
{
    if a.len() > 0 {
        let (b, c) = (a.drop_last(), a.last());
        assert(b.push(c) =~= a);
        let d = adjoint(a).last();
        assert(adjoint(b).push(d) =~= adjoint(a));
        lemma_evaluation_adjoint(b, x);
        lemma_evaluation_push(b, c, -x);
        lemma_evaluation_push(adjoint(b), d, x);
        lemma_pow_negative(x, b.len());
        let p = pow(x, b.len());
        assert(c * (-p) == (-c) * p) by (nonlinear_arith);
    } else {
        assert(adjoint(a) =~= seq![]);
        assert(a =~= seq![]);
    }
}

// Square roots.
/// A number whose `n`th power is -1 modulo 12289.
spec fn root(n: nat) -> int {
    if n == 1 {
        12288
    } else if n == 2 {
        1479
    } else if n == 4 {
        4043
    } else if n == 8 {
        5736
    } else if n == 16 {
        1646
    } else if n == 32 {
        4591
    } else if n == 64 {
        1000
    } else if n == 128 {
        544
    } else if n == 256 {
        1663
    } else if n == 512 {
        3957
    } else if n == 1024 {
        1826
    } else {
        5669
    }
}

proof fn lemma_powers_of_two(n: nat)
    requires
        is_power_of_two(n),
        n <= 2048,
    ensures
        n == 1 || n == 2 || n == 4 || n == 8 || n == 16 || n == 32 || n == 64 || n == 128 || n
            == 256 || n == 512 || n == 1024 || n == 2048,
    decreases n,
{
    if n > 1 {
        lemma_powers_of_two(n / 2);
    }
}

proof fn lemma_root_squared(n: nat)
    requires
        is_power_of_two(n),
        1 < n <= 2048,
    ensures
        residue_of(root(n) * root(n)) == root(n / 2),
        0 < root(n) < 12289,
        0 < root(n / 2) < 12289,
{
    lemma_powers_of_two(n);
    assert(1479int * 1479 % 12289 == 12288);
    assert(4043int * 4043 % 12289 == 1479);
    assert(5736int * 5736 % 12289 == 4043);
    assert(1646int * 1646 % 12289 == 5736);
    assert(4591int * 4591 % 12289 == 1646);
    assert(1000int * 1000 % 12289 == 4591);
    assert(544int * 544 % 12289 == 1000);
    assert(1663int * 1663 % 12289 == 544);
    assert(3957int * 3957 % 12289 == 1663);
    assert(1826int * 1826 % 12289 == 3957);
    assert(5669int * 5669 % 12289 == 1826);
}

/// Powers of numbers that are the same modulo 12289 are the same.
proof fn lemma_same_power(a: int, b: int, n: nat)
    requires
        residue_of(a) == residue_of(b),
    ensures
        residue_of(pow(a, n)) == residue_of(pow(b, n)),
{
    lemma_pow_mod_noop(a, n, 12289);
    lemma_pow_mod_noop(b, n, 12289);
}

proof fn lemma_pow_of_square(x: int, n: nat)
    ensures
        pow(x * x, n) == pow(x, 2 * n),
        pow(x, n) * pow(x, n) == pow(x, 2 * n),
{
    reveal(pow);
    lemma_pow1(x);
    assert(pow(x, 2) == x * pow(x, 1));
    lemma_pow_multiplies(x, 2, n);
    lemma_pow_adds(x, n, n);
}

proof fn lemma_root_power(n: nat)
    requires
        is_power_of_two(n),
        n <= 2048,
    ensures
        residue_of(pow(root(n), n)) == 12288,
    decreases n,
{
    if n == 1 {
        lemma_pow1(12288);
        lemma_small_mod(12288, 12289);
    } else {
        let m = n / 2;
        assert(n == 2 * m);
        lemma_root_squared(n);
        lemma_root_power(m);
        lemma_pow_of_square(root(n), m);
        lemma_small_mod(root(m) as nat, 12289);
        lemma_same_power(root(n) * root(n), root(m), m);
    }
}

/// A number whose `n`th power is 1 is a square, if `n` is a power of two up to 2048.
proof fn lemma_square_root(z: int, n: nat) -> (x: int)
    requires
        is_power_of_two(n),
        n <= 2048,
        residue_of(pow(z, n)) == 1,
    ensures
        residue_of(x * x) == residue_of(z),
    decreases n,
{
    if n == 1 {
        lemma_pow1(z);
        assert(1int * 1 == 1);
        lemma_small_mod(1, 12289);
        1
    } else {
        let m = n / 2;
        assert(n == 2 * m);
        let a = pow(z, m);
        lemma_pow_of_square(z, m);
        // (a - 1) (a + 1) = 0.
        assert((a - 1) * (a + 1) == a * a - 1) by (nonlinear_arith);
        lemma_small_mod(1, 12289);
        lemma_same_sum(a * a, -1, 1, -1);
        assert(residue_of((a - 1) * (a + 1)) == 0);
        lemma_no_zero_divisors(a - 1, a + 1);
        if residue_of(a - 1) == 0 {
            lemma_same_sum(a - 1, 1, 0, 1);
            lemma_square_root(z, m)
        } else {
            lemma_same_sum(a + 1, -1, 0, -1);
            let s = root(m);
            let t = root(n);
            let w = z * s;
            lemma_root_squared(n);
            lemma_root_power(m);
            lemma_pow_distributes(z, s, m);
            lemma_small_mod(12288, 12289);
            lemma_multiple_added(-1, 1);
            lemma_same_product(a, pow(s, m), -1, -1);
            assert((-1) * (-1) == 1);
            let u = lemma_square_root(w, m);
            lemma_inverse_exists(t);
            let i = inverse_residue(t);
            let x = u * i;
            // x x = u u i i = z s i i = z t t i i = z.
            assert(x * x == (u * u) * (i * i)) by (nonlinear_arith)
                requires
                    x == u * i,
            ;
            lemma_small_mod(s as nat, 12289);
            lemma_same_product(z, s, z, t * t);
            lemma_same_product(u * u, i * i, z * (t * t), i * i);
            assert((z * (t * t)) * (i * i) == z * ((t * i) * (t * i))) by (nonlinear_arith);
            lemma_same_product(t * i, t * i, 1, 1);
            lemma_same_product(z, (t * i) * (t * i), z, 1);
            assert(1int * 1 == 1 && z * 1 == z);
            x
        }
    }
}

// Both directions.
/// A polynomial with a zero among its values has no inverse.
proof fn lemma_zero_prevents_inverse(f: Seq<int>, h: Seq<int>)
    requires
        f.len() > 0,
        transform_has_zero(f),
    ensures
        !is_inverse_of(h, f),
{
    if is_inverse_of(h, f) {
        let n = f.len();
        let x = choose|x: int|
            0 <= x < 12289 && #[trigger] is_cyclotomic_root(x, n) && residue_of(evaluation(f, x))
                == 0;
        law_transform_of_product(f, h, x);
        let p = times(f, h);
        let one = constant(1, n);
        lemma_partial_product_len(f, h, n);
        assert forall|i: int| 0 <= i < n implies residue_of(#[trigger] p[i]) == residue_of(
            one[i],
        ) by {
            let d = p[i] - one[i];
            assert(d % 12289 == 0);
            lemma_fundamental_div_mod(d, 12289);
            lemma_multiple_added(one[i], d / 12289);
        }
        lemma_evaluation_same(p, one, x);
        assert(evaluation(one, x) == 1) by {
            let t = one.drop_first();
            assert(t =~= zero((n - 1) as nat));
            lemma_evaluation_zero((n - 1) as nat, x);
            assert(x * 0 == 0);
        }
        lemma_same_product(evaluation(f, x), evaluation(h, x), 0, evaluation(h, x));
        assert(0 * evaluation(h, x) == 0);
        lemma_small_mod(1, 12289);
    }
}

/// The norm of a polynomial without zeros among its values has none either.
proof fn lemma_norm_has_no_zero(f: Seq<int>)
    requires
        is_power_of_two(f.len()),
        1 < f.len() <= 2048,
        !transform_has_zero(f),
    ensures
        !transform_has_zero(norm(f)),
{
    let n = f.len();
    let m = n / 2;
    assert(n == 2 * m);
    let g = norm(f);
    lemma_norm_len(f);
    assert forall|y: int|
        0 <= y < 12289 && #[trigger] is_cyclotomic_root(y, g.len()) implies residue_of(
        evaluation(g, y),
    ) != 0 by {
        // y^n = 1, so y is the square of some x.
        lemma_pow_of_square(y, m);
        lemma_multiple_added(-1, 1);
        lemma_small_mod(12288, 12289);
        lemma_same_product(pow(y, m), pow(y, m), -1, -1);
        assert((-1) * (-1) == 1);
        lemma_small_mod(1, 12289);
        let r = lemma_square_root(y, n);
        let x = residue_of(r);
        lemma_residue(r);
        lemma_same_product(x, x, r, r);
        // x and -x are roots.
        lemma_pow_of_square(x, m);
        lemma_same_power(x * x, y, m);
        let z = residue_of(-x);
        lemma_residue(-x);
        lemma_pow_negative(x, n);
        lemma_same_power(z, -x, n);
        assert(is_cyclotomic_root(x, n) && is_cyclotomic_root(z, n));
        assert(residue_of(evaluation(f, x)) != 0);
        assert(residue_of(evaluation(f, z)) != 0);
        lemma_evaluation_argument(f, z, -x);
        // g(y) = f(x) f(-x).
        lemma_lifted_norm(f);
        assert(adjoint(f).len() == n);
        law_transform_of_product(f, adjoint(f), x);
        lemma_evaluation_adjoint(f, x);
        lemma_evaluation_lifted(g, x);
        lemma_evaluation_argument(g, x * x, y);
        if residue_of(evaluation(g, y)) == 0 {
            lemma_no_zero_divisors(evaluation(f, x), evaluation(f, -x));
        }
    }
}

/// Arguments that are the same modulo 12289 give the same values.
proof fn lemma_evaluation_argument(a: Seq<int>, x: int, y: int)
    requires
        residue_of(x) == residue_of(y),
    ensures
        residue_of(evaluation(a, x)) == residue_of(evaluation(a, y)),
    decreases a.len(),
{
    if a.len() > 0 {
        let t = a.drop_first();
        lemma_evaluation_argument(t, x, y);
        lemma_same_product(x, evaluation(t, x), y, evaluation(t, y));
        lemma_same_sum(a[0], x * evaluation(t, x), a[0], y * evaluation(t, y));
    }
}

/// A polynomial without zeros among its values has an inverse.
proof fn lemma_no_zero_gives_inverse(f: Seq<int>) -> (h: Seq<int>)
    requires
        is_power_of_two(f.len()),
        f.len() <= 2048,
        !transform_has_zero(f),
    ensures
        is_inverse_of(h, f),
    decreases f.len(),
{
    let n = f.len();
    if n == 1 {
        let a = f[0];
        assert(is_cyclotomic_root(12288, 1)) by {
            lemma_pow1(12288);
            lemma_small_mod(12288, 12289);
        }
        assert(f.drop_first() =~= seq![]);
        assert(evaluation(f.drop_first(), 12288) == 0);
        assert(evaluation(f, 12288) == a);
        lemma_residue(a);
        let x = residue_of(a);
        lemma_inverse_exists(x);
        let i = inverse_residue(x);
        let h = seq![i];
        lemma_same_product(a, i, x, i);
        reveal_with_fuel(partial_product, 2);
        let p = times(f, h);
        assert(p.len() == 1);
        assert(p[0] == 0 + a * h[0]);
        lemma_small_mod(1, 12289);
        lemma_same_sum(a * i, -1, 1, -1);
        assert(is_inverse_of(h, f)) by {
            assert forall|j: int| 0 <= j < 1 implies (#[trigger] times(f, h)[j] - constant(
                1,
                f.len(),
            )[j]) % 12289 == 0 by {
                assert(j == 0);
            }
        }
        h
    } else {
        let m = n / 2;
        assert(n == 2 * m);
        lemma_norm_len(f);
        lemma_norm_has_no_zero(f);
        let g = lemma_no_zero_gives_inverse(norm(f));
        let h = times(lifted(g), adjoint(f));
        lemma_product_with_lift(f, g);
        lemma_partial_product_len(lifted(g), adjoint(f), lifted(g).len());
        let q = times(norm(f), g);
        assert forall|i: int| 0 <= i < n implies (#[trigger] times(f, h)[i] - constant(1, n)[i])
            % 12289 == 0 by {
            assert(times(f, h)[i] == lifted(q)[i]);
            lemma_partial_product_len(norm(f), g, m);
            if i % 2 == 0 {
                assert(lifted(q)[i] == q[i / 2]);
                assert((q[i / 2] - constant(1, m)[i / 2]) % 12289 == 0);
            }
        }
        h
    }
}

/// The transform of a polynomial has a zero if and only if the polynomial has no inverse modulo
/// 12289 and `X^n + 1`.
pub proof fn law_zero_means_not_invertible(f: Seq<int>)
    requires
        is_power_of_two(f.len()),
        f.len() <= 2048,
    ensures
        transform_has_zero(f) <==> !is_invertible(f),
{
    if transform_has_zero(f) {
        if is_invertible(f) {
            let h = choose|h: Seq<int>| is_inverse_of(h, f);
            lemma_zero_prevents_inverse(f, h);
        }
    } else {
        let h = lemma_no_zero_gives_inverse(f);
        assert(is_inverse_of(h, f));
    }
}

// Products of polynomials.
/// The coefficients of `a * b` that come from the first `m` coefficients of `a`.
spec fn partial_coefficients(a: Seq<int>, b: Seq<int>, m: nat) -> Seq<int> {
    Seq::new(polynomial_product(a, b).len(), |k: int| partial_convolution(a, b, k, m))
}

/// `X^m b`, with zeros to fill it up to `n` coefficients.
spec fn moved(b: Seq<int>, m: nat, n: nat) -> Seq<int> {
    Seq::new(n, |k: int| coefficient(b, k - m))
}

proof fn lemma_evaluation_moved(b: Seq<int>, m: nat, n: nat, x: int)
    requires
        m + b.len() <= n,
    ensures
        evaluation(moved(b, m, n), x) == pow(x, m) * evaluation(b, x),
    decreases n,
{
    let s = moved(b, m, n);
    if m == 0 {
        lemma_pow0(x);
        assert(1 * evaluation(b, x) == evaluation(b, x));
        if n == 0 {
            assert(s =~= b);
        } else if b.len() == 0 {
            assert(s =~= zero(n));
            lemma_evaluation_zero(n, x);
        } else {
            let t = b.drop_first();
            assert(s.drop_first() =~= moved(t, 0, (n - 1) as nat));
            lemma_evaluation_moved(t, 0, (n - 1) as nat, x);
            assert(1 * evaluation(t, x) == evaluation(t, x));
        }
    } else {
        let j = (m - 1) as nat;
        assert(s.drop_first() =~= moved(b, j, (n - 1) as nat));
        assert(s[0] == 0);
        lemma_evaluation_moved(b, j, (n - 1) as nat, x);
        reveal(pow);
        let (p, e) = (pow(x, j), evaluation(b, x));
        assert(x * (p * e) == (x * p) * e) by (nonlinear_arith);
    }
}

proof fn lemma_evaluation_of_part(a: Seq<int>, b: Seq<int>, m: nat, x: int)
    requires
        a.len() > 0,
        b.len() > 0,
        m <= a.len(),
    ensures
        evaluation(partial_coefficients(a, b, m), x) == evaluation(a.take(m as int), x)
            * evaluation(b, x),
    decreases m,
{
    let n = polynomial_product(a, b).len();
    let e = evaluation(b, x);
    if m == 0 {
        assert(partial_coefficients(a, b, 0) =~= zero(n));
        lemma_evaluation_zero(n, x);
        assert(a.take(0) =~= seq![]);
        assert(evaluation(a.take(0), x) == 0);
        assert(0 * e == 0);
    } else {
        let j = (m - 1) as nat;
        let c = a[j as int];
        lemma_evaluation_of_part(a, b, j, x);
        assert(partial_coefficients(a, b, m) =~= plus(
            partial_coefficients(a, b, j),
            scale(c, moved(b, j, n)),
        ));
        lemma_evaluation_plus(partial_coefficients(a, b, j), scale(c, moved(b, j, n)), x);
        lemma_evaluation_scale(c, moved(b, j, n), x);
        lemma_evaluation_moved(b, j, n, x);
        let s = a.take(j as int);
        assert(a.take(m as int) =~= s.push(c));
        lemma_evaluation_push(s, c, x);
        let (d, p) = (evaluation(s, x), pow(x, j));
        assert(d * e + c * (p * e) == (d + c * p) * e) by (nonlinear_arith);
    }
}

/// The value of a product of polynomials is the product of their values, everywhere.
pub proof fn law_value_of_product(a: Seq<int>, b: Seq<int>, x: int)
    ensures
        evaluation(polynomial_product(a, b), x) == evaluation(a, x) * evaluation(b, x),
{
    if a.len() == 0 || b.len() == 0 {
        assert(polynomial_product(a, b) =~= seq![]);
        assert(evaluation(polynomial_product(a, b), x) == 0);
        assert(0 * evaluation(b, x) == 0);
        assert(evaluation(a, x) * 0 == 0);
    } else {
        lemma_evaluation_of_part(a, b, a.len(), x);
        assert(a.take(a.len() as int) =~= a);
        assert(partial_coefficients(a, b, a.len()) =~= polynomial_product(a, b));
    }
}

} // verus!
