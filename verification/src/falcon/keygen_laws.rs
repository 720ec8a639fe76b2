//! What key generation accepts and what it makes of it.
use crate::falcon::felt::centered;
use crate::falcon::keygen::{
    concluded, fits_i16, samples_per_coefficient, sample_sum, screened, within_bound,
    Generation,
};
use crate::falcon::ntru::{is_power_of_two, Progress};
use crate::falcon::ring::scale;
use crate::falcon::transform_laws::{is_invertible, law_zero_means_not_invertible};
use vstd::arithmetic::div_mod::{
    lemma_fundamental_div_mod, lemma_mod_multiples_vanish, lemma_small_mod,
};
use vstd::prelude::*;

verus! {

/// Each coefficient differs by a multiple of 12289 from a number between `-bound` and `bound`.
pub open spec fn is_small(a: Seq<int>, bound: int) -> bool {
    forall|i: int| 0 <= i < a.len() ==> (#[trigger] a[i] + bound) % 12289 <= 2 * bound
}

/// The balanced value is the number between -6144 and 6144 that differs by a multiple of 12289.
pub proof fn law_balanced_value(a: int)
    ensures
        -6144 <= centered(a) <= 6144,
        (a - centered(a)) % 12289 == 0,
        forall|b: int| -6144 <= b <= 6144 && #[trigger] ((a - b) % 12289) == 0 ==> b == centered(a),
{
    lemma_fundamental_div_mod(a, 12289);
    let (q, r) = (a / 12289, a % 12289);
    let c = centered(a);
    lemma_mod_multiples_vanish(q, 0, 12289);
    lemma_mod_multiples_vanish(q + 1, 0, 12289);
    assert forall|b: int| -6144 <= b <= 6144 && #[trigger] ((a - b) % 12289) == 0 implies b == c by {
        lemma_fundamental_div_mod(a - b, 12289);
    }
}

/// Coefficients are within a bound if and only if the numbers between -6144 and 6144 that differ
/// from them by multiples of 12289 are.
pub proof fn law_within_bound(a: Seq<int>, bound: int)
    ensures
        within_bound(a, bound) <==> forall|i: int, b: int|
            0 <= i < a.len() && -6144 <= b <= 6144 && #[trigger] ((a[i] - b) % 12289) == 0
                ==> -bound <= b <= bound,
{
    if within_bound(a, bound) {
        assert forall|i: int, b: int|
            0 <= i < a.len() && -6144 <= b <= 6144 && #[trigger] ((a[i] - b) % 12289)
                == 0 implies -bound <= b <= bound by {
            law_balanced_value(a[i]);
            assert(-bound <= centered(a[i]) <= bound);
        }
    }
    if forall|i: int, b: int|
        0 <= i < a.len() && -6144 <= b <= 6144 && #[trigger] ((a[i] - b) % 12289) == 0 ==> -bound
            <= b <= bound {
        assert forall|i: int| 0 <= i < a.len() implies -bound <= #[trigger] centered(a[i])
            <= bound by {
            law_balanced_value(a[i]);
            assert((a[i] - centered(a[i])) % 12289 == 0);
        }
    }
}

proof fn lemma_bound(a: int, bound: int)
    requires
        0 <= bound < 6144,
    ensures
        (-bound <= centered(a) <= bound) <==> (a + bound) % 12289 <= 2 * bound,
{
    lemma_fundamental_div_mod(a, 12289);
    let (q, r) = (a / 12289, a % 12289);
    if r + bound < 12289 {
        lemma_mod_multiples_vanish(q, r + bound, 12289);
        lemma_small_mod((r + bound) as nat, 12289);
    } else {
        lemma_mod_multiples_vanish(q + 1, r + bound - 12289, 12289);
        lemma_small_mod((r + bound - 12289) as nat, 12289);
    }
}

proof fn lemma_small(a: Seq<int>, bound: int)
    requires
        0 <= bound < 6144,
    ensures
        within_bound(a, bound) <==> is_small(a, bound),
{
    assert forall|i: int| 0 <= i < a.len() implies ((-bound <= #[trigger] centered(a[i]) <= bound)
        <==> (a[i] + bound) % 12289 <= 2 * bound) by {
        lemma_bound(a[i], bound);
    }
    if within_bound(a, bound) {
        assert forall|i: int| 0 <= i < a.len() implies (#[trigger] a[i] + bound) % 12289 <= 2
            * bound by {
            assert(-bound <= centered(a[i]) <= bound);
        }
    }
    if is_small(a, bound) {
        assert forall|i: int| 0 <= i < a.len() implies -bound <= #[trigger] centered(a[i])
            <= bound by {
            assert((a[i] + bound) % 12289 <= 2 * bound);
        }
    }
}

/// A candidate goes on to the test of its norm if and only if its coefficients are within 31,
/// modulo 12289, and `f` has an inverse modulo 12289 and `X^n + 1`.
pub proof fn law_screening(f: Seq<int>, g: Seq<int>)
    requires
        f.len() == g.len(),
        is_power_of_two(f.len()),
        f.len() <= 2048,
    ensures
        screened(f, g) == (if is_small(f, 31) && is_small(g, 31) && is_invertible(f) {
            Generation::CheckNorm(f, g)
        } else {
            Generation::Resample
        }),
{
    lemma_small(f, 31);
    lemma_small(g, 31);
    law_zero_means_not_invertible(f);
}

/// A solution becomes the basis `[g, -f, G, -F]` if and only if its coefficients are those of an
/// `i16` and, modulo 12289, within 127. Any other solution, and a failure to find one, rejects the
/// candidate; a solver that waits is waited for.
pub proof fn law_conclusion(
    f: Seq<int>,
    g: Seq<int>,
    capital_f: Seq<int>,
    capital_g: Seq<int>,
    p: Progress,
)
    ensures
        ({
            let encodable = is_small(capital_f, 127) && is_small(capital_g, 127) && (forall|i: int|
                0 <= i < capital_f.len() ==> -32768 <= #[trigger] capital_f[i] <= 32767) && (forall|
                i: int,
            |
                0 <= i < capital_g.len() ==> -32768 <= #[trigger] capital_g[i] <= 32767);
            let end = concluded(f, g, Progress::Solved(capital_f, capital_g));
            &&& encodable <==> end is Basis
            &&& !encodable <==> end is Resample
            &&& end matches Generation::Basis(a, b, c, d) ==> {
                &&& a == g
                &&& b == Seq::new(f.len(), |i: int| -f[i])
                &&& c == capital_g
                &&& d == Seq::new(capital_f.len(), |i: int| -capital_f[i])
            }
        }),
        concluded(f, g, Progress::Unsolvable) is Resample,
        p is Reducing ==> concluded(f, g, p) == Generation::Solving(f, g, p),
{
    lemma_small(capital_f, 127);
    lemma_small(capital_g, 127);
    assert(scale(-1, f) =~= Seq::new(f.len(), |i: int| -f[i]));
    assert(scale(-1, capital_f) =~= Seq::new(capital_f.len(), |i: int| -capital_f[i]));
    assert(fits_i16(capital_f) <==> forall|i: int|
        0 <= i < capital_f.len() ==> -32768 <= #[trigger] capital_f[i] <= 32767);
    assert(fits_i16(capital_g) <==> forall|i: int|
        0 <= i < capital_g.len() ==> -32768 <= #[trigger] capital_g[i] <= 32767);
}

/// Sums of samples: of none it is zero, of one it is the sample, and of two runs one after the
/// other it is the sum of both.
pub proof fn law_sample_sum(samples: Seq<i16>, a: int, b: int, c: int)
    requires
        0 <= a <= b <= c <= samples.len(),
    ensures
        sample_sum(samples, a, a) == 0,
        a < samples.len() ==> sample_sum(samples, a, a + 1) == samples[a],
        sample_sum(samples, a, c) == sample_sum(samples, a, b) + sample_sum(samples, b, c),
    decreases c - b,
{
    reveal_with_fuel(sample_sum, 2);
    if b < c {
        law_sample_sum(samples, a, b, c - 1);
    }
}

/// The samples are shared out evenly: each coefficient gets `4096 / n`, and together they get all.
pub proof fn law_samples_are_shared(n: int)
    requires
        0 < n <= 4096,
        4096int % n == 0,
    ensures
        samples_per_coefficient(n) * n == 4096,
{
    lemma_fundamental_div_mod(4096, n);
    assert(n * (4096int / n) == (4096int / n) * n) by (nonlinear_arith);
}

} // verus!
