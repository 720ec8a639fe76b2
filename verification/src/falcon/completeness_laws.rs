//! The solver finds a solution wherever the norms of `f` and `g` are coprime.
use crate::falcon::bigint::{bit_length, magnitude, quotient_toward_zero};
use crate::falcon::euclid::{euclid, lemma_bezout, lemma_divides_both, lemma_remainder_is_smaller};
use crate::falcon::ntru::{
    ascended, integer_norms, integer_solution, is_power_of_two, is_zero_quotient,
    lemma_integer_solution, resumed, settled, solves, started, tower, Progress,
};
use crate::falcon::ntru_laws::lemma_ascended_waits_above;
use crate::falcon::ring::{
    adjoint, even_part, lemma_lifted_solution, lemma_norm_len, lemma_partial_product_len, lifted, norm, odd_part,
    partial_product, rotated, times, zero,
};
use crate::falcon::size::{joint_size, representable, size_of};
use vstd::arithmetic::div_mod::lemma_fundamental_div_mod;
use vstd::arithmetic::power2::{
    lemma2_to64, lemma_pow2_adds, lemma_pow2_pos, lemma_pow2_strictly_increases, lemma_pow2_unfold,
    pow2,
};
use vstd::prelude::*;

verus! {

// The greatest common divisor.
/// Of numbers that are not negative the common divisor is not negative.
proof fn lemma_euclid_not_negative(a: int, b: int)
    requires
        0 <= a,
        0 <= b,
    ensures
        0 <= euclid(a, b).0,
    decreases b,
{
    if b != 0 {
        let q = quotient_toward_zero(a, b);
        lemma_remainder_is_smaller(a, b);
        lemma_fundamental_div_mod(a, b);
        assert(b * q == q * b) by (nonlinear_arith);
        lemma_euclid_not_negative(b, a - q * b);
    }
}

/// The factors of `euclid` are no larger than the arguments.
proof fn lemma_factors_are_small(a: int, b: int)
    ensures
        magnitude(euclid(a, b).1) <= 1 || magnitude(euclid(a, b).1) <= magnitude(b),
        magnitude(euclid(a, b).2) <= 1 || magnitude(euclid(a, b).2) <= magnitude(a),
    decreases magnitude(b),
{
    if b != 0 {
        let q = quotient_toward_zero(a, b);
        let r = a - q * b;
        lemma_remainder_is_smaller(a, b);
        lemma_factors_are_small(b, r);
        let (g, u, v) = euclid(b, r);
        let (x, y, z, w) = (
            magnitude(q) as int,
            magnitude(b) as int,
            magnitude(r) as int,
            magnitude(v) as int,
        );
        // |a| = |q| |b| + |r|.
        assert(magnitude(a) == x * y + z) by {
            let c = magnitude(a) as int;
            lemma_fundamental_div_mod(c, b);
            let d = c / b;
            assert(c == b * d + c % b);
            assert(0 <= c % b);
            if b > 0 {
                assert(d >= 0) by (nonlinear_arith)
                    requires
                        c == b * d + c % b,
                        0 <= c,
                        c % b < b,
                        b > 0,
                ;
            } else {
                assert(d <= 0) by (nonlinear_arith)
                    requires
                        c == b * d + c % b,
                        0 <= c,
                        c % b < -b,
                        b < 0,
                ;
                assert((-d) * (-b) == b * d) by (nonlinear_arith);
            }
            assert(b * d == d * b) by (nonlinear_arith);
            if a < 0 {
                assert(q == -d);
                assert((-d) * b == -(d * b)) by (nonlinear_arith);
            }
        }
        if r == 0 {
            assert(u == 1 && v == 0);
            assert(q * 0 == 0);
        } else {
            assert(magnitude(q * v) == x * w) by (nonlinear_arith)
                requires
                    x == magnitude(q),
                    w == magnitude(v),
            ;
            assert(magnitude(u) <= z);
            assert(w <= y);
            assert(x * w <= x * y) by (nonlinear_arith)
                requires
                    0 <= x,
                    w <= y,
            ;
        }
    }
}

/// The norms of degree 1 are sums of squares, and so not negative.
proof fn lemma_norms_not_negative(f: Seq<int>, g: Seq<int>)
    requires
        f.len() == g.len(),
        is_power_of_two(f.len()),
        f.len() > 1,
    ensures
        0 <= integer_norms(f, g).0,
        0 <= integer_norms(f, g).1,
    decreases f.len(),
{
    lemma_norm_len(f);
    lemma_norm_len(g);
    if f.len() == 2 {
        lemma_norm_of_two(f);
        lemma_norm_of_two(g);
        assert(integer_norms(norm(f), norm(g)) == (norm(f)[0], norm(g)[0]));
    } else {
        lemma_norms_not_negative(norm(f), norm(g));
    }
}

proof fn lemma_norm_of_two(a: Seq<int>)
    requires
        a.len() == 2,
    ensures
        norm(a).len() == 1,
        norm(a)[0] >= 0,
{
    let (e, o) = (even_part(a), odd_part(a));
    reveal_with_fuel(partial_product, 2);
    assert(times(e, e)[0] == 0 + e[0] * e[0]);
    assert(times(o, o)[0] == 0 + o[0] * o[0]);
    assert(norm(a)[0] == e[0] * e[0] + o[0] * o[0]);
    assert(e[0] * e[0] >= 0) by (nonlinear_arith);
    assert(o[0] * o[0] >= 0) by (nonlinear_arith);
}

// Sizes.
/// No coefficient has a magnitude over `2^b`.
pub open spec fn is_bounded(a: Seq<int>, b: nat) -> bool {
    forall|i: int| 0 <= i < a.len() ==> -pow2(b) <= #[trigger] a[i] <= pow2(b)
}

proof fn lemma_pow2_monotone(a: nat, b: nat)
    requires
        a <= b,
    ensures
        pow2(a) <= pow2(b),
{
    if a < b {
        lemma_pow2_strictly_increases(a, b);
    }
}

proof fn lemma_bounded_more(a: Seq<int>, b: nat, c: nat)
    requires
        is_bounded(a, b),
        b <= c,
    ensures
        is_bounded(a, c),
{
    lemma_pow2_monotone(b, c);
}

proof fn lemma_bit_length_at_most(m: nat, b: nat)
    requires
        m <= pow2(b),
    ensures
        bit_length(m) <= b + 1,
    decreases b,
{
    lemma2_to64();
    if b == 0 {
        reveal_with_fuel(bit_length, 3);
    } else {
        lemma_pow2_unfold(b);
        if m > 0 {
            lemma_bit_length_at_most(m / 2, (b - 1) as nat);
        }
    }
}

proof fn lemma_size_at_most(a: Seq<int>, b: nat)
    requires
        is_bounded(a, b),
    ensures
        size_of(a) <= b + 8,
    decreases a.len(),
{
    if a.len() > 0 {
        let c = a.last();
        assert(c == a[a.len() - 1]);
        lemma_bit_length_at_most(magnitude(c), b);
        assert(is_bounded(a.drop_last(), b)) by {
            assert forall|i: int| 0 <= i < a.drop_last().len() implies -pow2(b)
                <= #[trigger] a.drop_last()[i] <= pow2(b) by {
                assert(a.drop_last()[i] == a[i]);
            }
        }
        lemma_size_at_most(a.drop_last(), b);
    }
}

proof fn lemma_joint_size_at_most(a: Seq<int>, c: Seq<int>, b: nat)
    requires
        is_bounded(a, b),
        is_bounded(c, b),
        b + 64 <= i64::MAX,
    ensures
        representable(joint_size(a, c)),
{
    lemma_size_at_most(a, b);
    lemma_size_at_most(c, b);
}

proof fn lemma_partial_product_bounded(a: Seq<int>, c: Seq<int>, k: nat, x: int, y: int)
    requires
        a.len() == c.len(),
        k <= a.len(),
        0 <= x,
        0 <= y,
        forall|i: int| 0 <= i < a.len() ==> -x <= #[trigger] a[i] <= x,
        forall|i: int| 0 <= i < c.len() ==> -y <= #[trigger] c[i] <= y,
    ensures
        forall|i: int|
            0 <= i < c.len() ==> -(k * (x * y)) <= #[trigger] partial_product(a, c, k)[i] <= k * (x
                * y),
    decreases k,
{
    if k == 0 {
        assert(0 * (x * y) == 0);
    } else {
        let j = (k - 1) as nat;
        lemma_partial_product_bounded(a, c, j, x, y);
        lemma_partial_product_len(a, c, j);
        let r = rotated(c, j as int);
        let d = a[j as int];
        let xy = x * y;
        assert(k * xy == j * xy + xy) by (nonlinear_arith)
            requires
                k == j + 1,
        ;
        assert forall|i: int| 0 <= i < c.len() implies -(k * xy) <= #[trigger] partial_product(
            a,
            c,
            k,
        )[i] <= k * xy by {
            let e = r[i];
            assert(-y <= e <= y);
            assert(-xy <= d * e <= xy) by (nonlinear_arith)
                requires
                    -x <= d <= x,
                    -y <= e <= y,
                    0 <= x,
                    0 <= y,
                    xy == x * y,
            ;
            assert(partial_product(a, c, k)[i] == partial_product(a, c, j)[i] + d * e);
        }
    }
}

/// The degrees that are considered: at most `2^32`.
proof fn lemma_times_bounded(a: Seq<int>, c: Seq<int>, x: nat, y: nat)
    requires
        a.len() == c.len(),
        a.len() <= 0x1_0000_0000,
        is_bounded(a, x),
        is_bounded(c, y),
    ensures
        times(a, c).len() == a.len(),
        forall|i: int|
            0 <= i < a.len() ==> -(a.len() * pow2(x + y)) <= #[trigger] times(a, c)[i] <= a.len()
                * pow2(x + y),
        is_bounded(times(a, c), x + y + 32),
{
    let n = a.len();
    lemma_partial_product_len(a, c, n);
    lemma_pow2_pos(x);
    lemma_pow2_pos(y);
    lemma_partial_product_bounded(a, c, n, pow2(x) as int, pow2(y) as int);
    lemma_pow2_adds(x, y);
    lemma_pow2_adds(x + y, 32);
    lemma2_to64();
    let p = pow2(x + y);
    assert(pow2(32) == 0x1_0000_0000);
    assert(n * p <= p * 0x1_0000_0000) by (nonlinear_arith)
        requires
            n <= 0x1_0000_0000,
    ;
}

proof fn lemma_norm_bounded(a: Seq<int>, b: nat)
    requires
        a.len() % 2 == 0,
        a.len() <= 0x1_0000_0000,
        is_bounded(a, b),
    ensures
        is_bounded(norm(a), 2 * b + 32),
{
    let (e, o) = (even_part(a), odd_part(a));
    let m = a.len() / 2;
    assert(is_bounded(e, b)) by {
        assert forall|i: int| 0 <= i < e.len() implies -pow2(b) <= #[trigger] e[i] <= pow2(b) by {
            assert(e[i] == a[2 * i]);
        }
    }
    assert(is_bounded(o, b)) by {
        assert forall|i: int| 0 <= i < o.len() implies -pow2(b) <= #[trigger] o[i] <= pow2(b) by {
            assert(o[i] == a[2 * i + 1]);
        }
    }
    lemma_times_bounded(e, e, b, b);
    lemma_times_bounded(o, o, b, b);
    let p = pow2(2 * b);
    lemma_pow2_adds(2 * b, 32);
    lemma2_to64();
    assert(pow2(32) == 0x1_0000_0000);
    assert(m * p + m * p <= p * 0x1_0000_0000) by (nonlinear_arith)
        requires
            2 * m <= 0x1_0000_0000,
    ;
    lemma_norm_len(a);
    assert forall|i: int| 0 <= i < norm(a).len() implies -pow2((2 * b + 32) as nat)
        <= #[trigger] norm(a)[i] <= pow2((2 * b + 32) as nat) by {
        let r = rotated(times(o, o), 1);
        assert(-(m * p) <= r[i] <= m * p);
        assert(-(m * p) <= times(e, e)[i] <= m * p);
    }
}

// The run without reductions.
/// The solution for `f` and `g` that comes from the one for their integer norms, not reduced.
pub open spec fn unreduced(f: Seq<int>, g: Seq<int>, x: int, y: int) -> (Seq<int>, Seq<int>)
    decreases f.len(),
{
    if f.len() <= 1 {
        (seq![x], seq![y])
    } else {
        proof {
            lemma_norm_len(f);
        }
        let (capital_f, capital_g) = unreduced(norm(f), norm(g), x, y);
        (times(lifted(capital_f), adjoint(g)), times(lifted(capital_g), adjoint(f)))
    }
}

/// What the solver comes to when every request is answered with zeros.
pub open spec fn answered_with_zeros(p: Progress) -> Progress
    decreases
            match p {
                Progress::Reducing(levels, _, _, _) => levels.len() + 1,
                _ => 0,
            },
{
    match p {
        Progress::Reducing(levels, capital_f, capital_g, rounds) => {
            proof {
                lemma_ascended_waits_above(levels.drop_last(), capital_f, capital_g);
                assert(is_zero_quotient(zero(capital_f.len())));
            }
            if levels.len() == 0 {
                p
            } else {
                answered_with_zeros(
                    resumed(levels, capital_f, capital_g, rounds, zero(capital_f.len())),
                )
            }
        },
        _ => p,
    }
}

/// The number of bits of the integer norms, for `m` coefficients of `b` bits.
spec fn norm_bits(m: int, b: int) -> int {
    m * (b + 40)
}

/// The number of bits of the unreduced solution.
spec fn solution_bits(m: int, b: int) -> int {
    m * (b + 40) + 14 + (m - 1) * (b + 64)
}

proof fn lemma_bits(m: int, b: int)
    requires
        m >= 1,
        b >= 0,
    ensures
        b + 40 <= norm_bits(m, b) <= solution_bits(m, b),
        norm_bits(m, 2 * b + 32) <= norm_bits(2 * m, b),
        solution_bits(m, 2 * b + 32) + b + 32 <= solution_bits(2 * m, b),
{
    assert(m * (b + 40) >= b + 40) by (nonlinear_arith)
        requires
            m >= 1,
            b >= 0,
    ;
    assert((m - 1) * (b + 64) >= 0) by (nonlinear_arith)
        requires
            m >= 1,
            b >= 0,
    ;
    assert(m * (2 * b + 72) == 2 * m * (b + 36)) by (nonlinear_arith);
    assert(2 * m * (b + 40) == 2 * m * (b + 36) + 8 * m) by (nonlinear_arith);
    assert((m - 1) * (2 * b + 96) == (2 * m - 2) * (b + 48)) by (nonlinear_arith);
    assert((2 * m - 1) * (b + 64) == (2 * m - 2) * (b + 48) + (2 * m - 2) * 16 + b + 64)
        by (nonlinear_arith);
}

proof fn lemma_unreduced_bounded(f: Seq<int>, g: Seq<int>, x: int, y: int, b: nat)
    requires
        f.len() == g.len(),
        is_power_of_two(f.len()),
        f.len() <= 0x1_0000_0000,
        is_bounded(f, b),
        is_bounded(g, b),
        integer_solution(integer_norms(f, g).0, integer_norms(f, g).1) == Some((x, y)),
    ensures
        ({
            let (capital_f, capital_g) = unreduced(f, g, x, y);
            &&& solution_bits(f.len() as int, b as int) >= 0
            &&& capital_f.len() == capital_g.len() == f.len()
            &&& is_bounded(capital_f, solution_bits(f.len() as int, b as int) as nat)
            &&& is_bounded(capital_g, solution_bits(f.len() as int, b as int) as nat)
        }),
    decreases f.len(),
{
    let n = f.len();
    lemma_bits(n as int, b as int);
    if n == 1 {
        let (c, d) = (f[0], g[0]);
        let (gcd, u, v) = euclid(c, d);
        lemma_factors_are_small(c, d);
        lemma_pow2_pos(b);
        let p = pow2(b) as int;
        assert(-p <= u <= p && -p <= v <= p);
        lemma_pow2_adds(b, 14);
        lemma2_to64();
        assert(pow2(14) == 16384);
        assert(x == -v * 12289 && y == u * 12289);
        lemma_pow2_monotone((b + 14) as nat, solution_bits(1, b as int) as nat);
        assert(-(p * 16384) <= x <= p * 16384);
        assert(-(p * 16384) <= y <= p * 16384);
    } else {
        let m = n / 2;
        assert(n == 2 * m);
        let c = (2 * b + 32) as nat;
        lemma_norm_len(f);
        lemma_norm_len(g);
        lemma_norm_bounded(f, b);
        lemma_norm_bounded(g, b);
        lemma_unreduced_bounded(norm(f), norm(g), x, y, c);
        let (half_f, half_g) = unreduced(norm(f), norm(g), x, y);
        let e = solution_bits(m as int, c as int) as nat;
        lemma_lifted_bounded(half_f, e);
        lemma_lifted_bounded(half_g, e);
        lemma_adjoint_bounded(f, b);
        lemma_adjoint_bounded(g, b);
        lemma_times_bounded(lifted(half_f), adjoint(g), e, b);
        lemma_times_bounded(lifted(half_g), adjoint(f), e, b);
        lemma_bits(m as int, b as int);
        let (capital_f, capital_g) = unreduced(f, g, x, y);
        let s = solution_bits(n as int, b as int) as nat;
        lemma_bounded_more(capital_f, (e + b + 32) as nat, s);
        lemma_bounded_more(capital_g, (e + b + 32) as nat, s);
    }
}

proof fn lemma_lifted_bounded(a: Seq<int>, b: nat)
    requires
        is_bounded(a, b),
    ensures
        is_bounded(lifted(a), b),
{
    lemma_pow2_pos(b);
    assert forall|i: int| 0 <= i < lifted(a).len() implies -pow2(b) <= #[trigger] lifted(a)[i]
        <= pow2(b) by {
        if i % 2 == 0 {
            assert(lifted(a)[i] == a[i / 2]);
        }
    }
}

proof fn lemma_adjoint_bounded(a: Seq<int>, b: nat)
    requires
        is_bounded(a, b),
    ensures
        is_bounded(adjoint(a), b),
{
    assert forall|i: int| 0 <= i < adjoint(a).len() implies -pow2(b) <= #[trigger] adjoint(a)[i]
        <= pow2(b) by {
        assert(adjoint(a)[i] == a[i] || adjoint(a)[i] == -a[i]);
    }
}

/// With all requests answered with zeros, the solver goes up through the levels of `f` and `g`
/// with the unreduced solution.
proof fn lemma_goes_up(
    prefix: Seq<(Seq<int>, Seq<int>)>,
    f: Seq<int>,
    g: Seq<int>,
    x: int,
    y: int,
    b: nat,
)
    requires
        f.len() == g.len(),
        is_power_of_two(f.len()),
        f.len() <= 0x1_0000_0000,
        is_bounded(f, b),
        is_bounded(g, b),
        integer_solution(integer_norms(f, g).0, integer_norms(f, g).1) == Some((x, y)),
        solution_bits(f.len() as int, b as int) + 64 <= i64::MAX,
    ensures
        answered_with_zeros(ascended(prefix + tower(f, g), seq![x], seq![y]))
            == answered_with_zeros(
            ascended(prefix, unreduced(f, g, x, y).0, unreduced(f, g, x, y).1),
        ),
    decreases f.len(),
{
    let n = f.len();
    if n == 1 {
        assert(prefix + tower(f, g) =~= prefix);
    } else {
        let m = n / 2;
        assert(n == 2 * m);
        let c = (2 * b + 32) as nat;
        let longer = prefix.push((f, g));
        lemma_norm_len(f);
        lemma_norm_len(g);
        lemma_norm_bounded(f, b);
        lemma_norm_bounded(g, b);
        lemma_bits(m as int, b as int);
        lemma_bits(n as int, b as int);
        lemma_goes_up(longer, norm(f), norm(g), x, y, c);
        assert(prefix + tower(f, g) =~= longer + tower(norm(f), norm(g)));
        lemma_unreduced_bounded(f, g, x, y, b);
        let (capital_f, capital_g) = unreduced(f, g, x, y);
        let s = solution_bits(n as int, b as int) as nat;
        lemma_joint_size_at_most(capital_f, capital_g, s);
        lemma_joint_size_at_most(f, g, b);
        assert(longer.last() == (f, g));
        assert(longer.drop_last() =~= prefix);
        let here = settled(longer, capital_f, capital_g, 0);
        let (half_f, half_g) = unreduced(norm(f), norm(g), x, y);
        assert(ascended(longer, half_f, half_g) == here);
        if here == Progress::Reducing(longer, capital_f, capital_g, 0) {
            assert(is_zero_quotient(zero(capital_f.len())));
            assert(resumed(longer, capital_f, capital_g, 0, zero(capital_f.len())) == ascended(
                prefix,
                capital_f,
                capital_g,
            ));
        }
    }
}

/// Two numbers are coprime: 1 is a combination of them.
pub open spec fn are_coprime(a: int, b: int) -> bool {
    exists|u: int, v: int| #[trigger] (u * a) + #[trigger] (v * b) == 1
}

proof fn lemma_coprime_euclid(a: int, b: int)
    requires
        0 <= a,
        0 <= b,
    ensures
        are_coprime(a, b) <==> euclid(a, b).0 == 1,
{
    let (g, s, t) = euclid(a, b);
    lemma_bezout(a, b);
    if g == 1 {
        assert((s * a) + (t * b) == 1);
    }
    if are_coprime(a, b) {
        let (u, v) = choose|u: int, v: int| #[trigger] (u * a) + #[trigger] (v * b) == 1;
        lemma_divides_both(a, b);
        lemma_euclid_not_negative(a, b);
        let i = choose|i: int| a == #[trigger] (g * i);
        let j = choose|j: int| b == #[trigger] (g * j);
        assert(u * (g * i) + v * (g * j) == g * (u * i + v * j)) by (nonlinear_arith);
        let k = u * i + v * j;
        assert(g * k == 1);
        assert(g == 1) by (nonlinear_arith)
            requires
                g * k == 1,
                0 <= g,
        ;
    }
}

/// The polynomials that key generation can come upon: at most `2^32` coefficients, which are those
/// of an `i16`.
pub open spec fn is_ordinary(f: Seq<int>, g: Seq<int>) -> bool {
    &&& f.len() == g.len()
    &&& is_power_of_two(f.len())
    &&& 1 < f.len() <= 0x1_0000_0000
    &&& f.len() <= usize::MAX / 2
    &&& forall|i: int| 0 <= i < f.len() ==> -32768 <= #[trigger] f[i] <= 32767
    &&& forall|i: int| 0 <= i < g.len() ==> -32768 <= #[trigger] g[i] <= 32767
}

/// The solver is complete: it fails at once if and only if the integer norms of `f` and `g` are
/// not coprime. If they are, it comes to a solution, if need be with all its requests answered
/// with zeros.
pub proof fn law_coprime_norms_are_solved(f: Seq<int>, g: Seq<int>)
    requires
        is_ordinary(f, g),
    ensures
        ({
            let (a, b) = integer_norms(f, g);
            &&& are_coprime(a, b) <==> !(started(f, g) is Unsolvable)
            &&& are_coprime(a, b) ==> (answered_with_zeros(started(f, g)) matches Progress::Solved(
                capital_f,
                capital_g,
            ) && solves(f, g, capital_f, capital_g))
        }),
{
    let (a, b) = integer_norms(f, g);
    lemma_norms_not_negative(f, g);
    lemma_coprime_euclid(a, b);
    if are_coprime(a, b) {
        let (x, y) = integer_solution(a, b)->Some_0;
        lemma2_to64();
        assert(pow2(15) == 32768);
        assert(is_bounded(f, 15) && is_bounded(g, 15));
        let n = f.len() as int;
        assert(solution_bits(n, 15) + 64 <= i64::MAX) by {
            assert(n * 55 + 14 + (n - 1) * 79 <= 0x1_0000_0000 * 134 + 14);
        }
        assert(seq![] + tower(f, g) =~= tower(f, g));
        lemma_goes_up(seq![], f, g, x, y, 15);
        let (capital_f, capital_g) = unreduced(f, g, x, y);
        assert(answered_with_zeros(started(f, g)) == Progress::Solved(capital_f, capital_g));
        lemma_unreduced_solves(f, g, x, y);
        assert(answered_with_zeros(Progress::Unsolvable) == Progress::Unsolvable);
    }
}

proof fn lemma_unreduced_solves(f: Seq<int>, g: Seq<int>, x: int, y: int)
    requires
        f.len() == g.len(),
        is_power_of_two(f.len()),
        integer_solution(integer_norms(f, g).0, integer_norms(f, g).1) == Some((x, y)),
    ensures
        solves(f, g, unreduced(f, g, x, y).0, unreduced(f, g, x, y).1),
    decreases f.len(),
{
    let n = f.len();
    if n == 1 {
        let (a, b) = integer_norms(f, g);
        lemma_integer_solution(a, b, x, y);
        assert(f =~= seq![a]);
        assert(g =~= seq![b]);
    } else {
        let m = n / 2;
        assert(n == 2 * m);
        lemma_norm_len(f);
        lemma_norm_len(g);
        lemma_unreduced_solves(norm(f), norm(g), x, y);
        let (half_f, half_g) = unreduced(norm(f), norm(g), x, y);
        lemma_lifted_solution(f, g, half_f, half_g, 12289);
        lemma_partial_product_len(lifted(half_f), adjoint(g), n);
        lemma_partial_product_len(lifted(half_g), adjoint(f), n);
    }
}

} // verus!
