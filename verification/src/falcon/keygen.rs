//! Generation of NTRU bases.
//!
//! The caller samples polynomials and does the floating-point arithmetic; what is made of them is
//! decided here.
use crate::falcon::bigint::{from_i64, lemma_values_push, to_i16, values};
use crate::falcon::felt::{centered, residue_of, FalconFelt, MODULUS};
use crate::falcon::keygen_laws::{is_small, law_screening};
use crate::falcon::ntru::{
    integers, is_power_of_two, leads_to_solution, ntru_solve, resumed, solves, started, NtruSolver,
    NtruStep, Progress, QuotientRequest,
};
use crate::falcon::polynomial::Polynomial;
use crate::falcon::ring::{
    constant, determinant, lemma_partial_product_len, lemma_times_scale_left,
    lemma_times_scale_right, scale,
};
use crate::falcon::transform_laws::is_invertible;
use num::BigInt;
use vstd::arithmetic::div_mod::{
    lemma_add_mod_noop, lemma_fundamental_div_mod, lemma_mod_multiples_vanish,
    lemma_mul_mod_noop_left, lemma_mul_mod_noop_right,
};
use vstd::arithmetic::power::{lemma_pow0, pow};
use vstd::prelude::*;

verus! {

broadcast use lemma_values_push;

/// The largest magnitude of a coefficient of `f` and `g` that can be encoded.
pub const MAX_SMALL_POLY_COEFFICIENT_SIZE: i16 = 31;

/// The largest magnitude of a coefficient of `F` and `G` that can be encoded.
pub const MAX_BIG_POLY_COEFFICIENT_SIZE: i16 = 127;

/// The number of samples that make up a polynomial.
pub const SAMPLES: usize = 4096;

/// The balanced values of all coefficients are at most `bound` in magnitude.
pub open spec fn within_bound(a: Seq<int>, bound: int) -> bool {
    forall|i: int| 0 <= i < a.len() ==> -bound <= #[trigger] centered(a[i]) <= bound
}

/// All coefficients are those of an `i16`.
pub open spec fn fits_i16(a: Seq<int>) -> bool {
    forall|i: int| 0 <= i < a.len() ==> i16::MIN <= #[trigger] a[i] <= i16::MAX
}

impl Polynomial<i16> {
    /// Gets the balanced values of the coefficients.
    pub fn to_balanced_values(&self) -> (r: Vec<i16>)
        ensures
            r@ == self@.map_values(|c: int| centered(c) as i16),
    {
        let mut r: Vec<i16> = Vec::new();
        for i in 0..self.coefficients.len()
            invariant
                r@ =~= self@.map_values(|c: int| centered(c) as i16).take(i as int),
        {
            let felt = FalconFelt::new(self.coefficients[i]);
            let balanced = felt.balanced_value();
            proof {
                vstd::arithmetic::div_mod::lemma_mod_twice(self@[i as int], 12289);
            }
            r.push(balanced);
        }
        assert(r@ =~= self@.map_values(|c: int| centered(c) as i16));
        r
    }
}

/// Checks that the balanced values of the coefficients of a polynomial are within the interval
/// `[-bound, bound]`.
pub fn check_coefficients_bound(polynomial: &Polynomial<i16>, bound: i16) -> (r: bool)
    ensures
        r == within_bound(polynomial@, bound as int),
{
    let balanced = polynomial.to_balanced_values();
    assert(balanced@.len() == polynomial@.len());
    for i in 0..balanced.len()
        invariant
            balanced@ == polynomial@.map_values(|c: int| centered(c) as i16),
            forall|j: int|
                0 <= j < i ==> -(bound as int) <= #[trigger] centered(polynomial@[j]) <= bound,
    {
        let c = balanced[i];
        assert(c == centered(polynomial@[i as int]));
        if !(c <= bound && c as i32 >= -(bound as i32)) {
            return false;
        }
    }
    true
}

/// Converts a polynomial over arbitrary-size integers to `i16` coefficients.
///
/// Returns `None` when any coefficient does not fit.
pub fn try_bigint_polynomial_to_i16(polynomial: &Polynomial<BigInt>) -> (r: Option<Polynomial<i16>>)
    ensures
        r is Some <==> fits_i16(polynomial@),
        r matches Some(p) ==> p@ == polynomial@,
{
    let mut coefficients: Vec<i16> = Vec::new();
    for i in 0..polynomial.coefficients.len()
        invariant
            forall|j: int| 0 <= j < i ==> i16::MIN <= #[trigger] polynomial@[j] <= i16::MAX,
            coefficients@.map_values(|c: i16| c as int) =~= polynomial@.take(i as int),
    {
        let ghost before = coefficients@;
        match to_i16(&polynomial.coefficients[i]) {
            Some(c) => {
                coefficients.push(c);
                assert(coefficients@.map_values(|c: i16| c as int) =~= before.map_values(
                    |c: i16| c as int,
                ).push(c as int));
                assert(polynomial@[i as int] == c);
            },
            None => {
                assert(!(i16::MIN <= polynomial@[i as int] <= i16::MAX));
                return None;
            },
        }
    }
    let p = Polynomial::new(coefficients);
    assert(p@ =~= polynomial@);
    Some(p)
}

fn to_bigint_polynomial(polynomial: &Polynomial<i16>) -> (r: Polynomial<BigInt>)
    ensures
        r@ == polynomial@,
{
    let mut coefficients: Vec<BigInt> = Vec::new();
    for i in 0..polynomial.coefficients.len()
        invariant
            values(coefficients@) =~= polynomial@.take(i as int),
    {
        coefficients.push(from_i64(polynomial.coefficients[i] as i64));
    }
    let p = Polynomial::new(coefficients);
    assert(p@ =~= polynomial@);
    p
}

/// `a(x)`.
pub open spec fn evaluation(a: Seq<int>, x: int) -> int
    decreases a.len(),
{
    if a.len() == 0 {
        0
    } else {
        a[0] + x * evaluation(a.drop_first(), x)
    }
}

/// `x^n = -1` modulo 12289.
pub open spec fn is_cyclotomic_root(x: int, n: nat) -> bool {
    residue_of(pow(x, n)) == 12288
}

/// One of the values of `a` at the roots of `X^n + 1` modulo 12289 is zero.
///
/// For every power of two `n` up to 2048 there are `n` such roots, and the values at them are the
/// number-theoretic transform of `a`. For greater powers of two there is no root, and so no value
/// that could be zero.
pub open spec fn transform_has_zero(a: Seq<int>) -> bool {
    exists|x: int|
        0 <= x < 12289 && #[trigger] is_cyclotomic_root(x, a.len()) && residue_of(
            evaluation(a, x),
        ) == 0
}

fn power_is_minus_one(x: u64, n: usize) -> (r: bool)
    requires
        x < 12289,
    ensures
        r == is_cyclotomic_root(x as int, n as nat),
{
    let mut p: u64 = 1;
    proof {
        lemma_pow0(x as int);
    }
    for i in 0..n
        invariant
            x < 12289,
            p < 12289,
            p == residue_of(pow(x as int, i as nat)),
    {
        assert(0 <= p * x <= 12288 * 12288) by (nonlinear_arith)
            requires
                0 <= p <= 12288,
                0 <= x <= 12288,
        ;
        proof {
            reveal(pow);
            let (y, z) = (pow(x as int, i as nat), x as int);
            assert(pow(x as int, (i + 1) as nat) == z * y);
            lemma_mul_mod_noop_left(y, z, 12289);
            assert(z * y == y * z) by (nonlinear_arith);
        }
        p = (p * x) % 12289;
    }
    p == 12288
}

fn evaluates_to_zero(f: &Polynomial<i16>, x: u64) -> (r: bool)
    requires
        x < 12289,
    ensures
        r == (residue_of(evaluation(f@, x as int)) == 0),
{
    let n = f.coefficients.len();
    let mut i = n;
    let mut acc: u64 = 0;
    assert(f@.skip(n as int) =~= Seq::<int>::empty());
    while i > 0
        invariant
            i <= n,
            n == f@.len(),
            x < 12289,
            acc < 12289,
            acc == residue_of(evaluation(f@.skip(i as int), x as int)),
        decreases i,
    {
        i = i - 1;
        // A multiple of the modulus that makes any `i16` nonnegative.
        let c = (f.coefficients[i] as i64 + 3 * 12289) as u64;
        assert(0 <= x * acc <= 12288 * 12288) by (nonlinear_arith)
            requires
                0 <= x <= 12288,
                0 <= acc <= 12288,
        ;
        proof {
            let rest = evaluation(f@.skip(i + 1), x as int);
            let (y, a) = (x as int, acc as int);
            let d = f@[i as int];
            assert(f@.skip(i as int).drop_first() =~= f@.skip(i + 1));
            assert(evaluation(f@.skip(i as int), y) == d + y * rest);
            lemma_mul_mod_noop_right(y, rest, 12289);
            lemma_add_mod_noop(d, y * rest, 12289);
            lemma_add_mod_noop(c as int, y * a, 12289);
            assert(residue_of(c as int) == residue_of(d));
        }
        acc = (c + x * acc) % 12289;
    }
    assert(f@.skip(0) =~= f@);
    acc == 0
}

/// Whether the number-theoretic transform of `f` has a zero.
pub fn has_transform_zero(f: &Polynomial<i16>) -> (r: bool)
    ensures
        r == transform_has_zero(f@),
{
    let n = f.coefficients.len();
    assert(f@.len() == n);
    for x in 0..12289u64
        invariant
            n == f@.len(),
            forall|y: int|
                0 <= y < x && #[trigger] is_cyclotomic_root(y, f@.len()) ==> residue_of(
                    evaluation(f@, y),
                ) != 0,
    {
        if power_is_minus_one(x, n) && evaluates_to_zero(f, x) {
            assert(is_cyclotomic_root(x as int, f@.len()));
            return true;
        }
    }
    false
}

/// The sum of the samples from index `start` up to index `end`.
pub open spec fn sample_sum(samples: Seq<i16>, start: int, end: int) -> int
    decreases end - start,
{
    if start >= end {
        0
    } else {
        sample_sum(samples, start, end - 1) + samples[end - 1]
    }
}

/// The number of samples of each coefficient of a polynomial of degree `n`.
pub open spec fn samples_per_coefficient(n: int) -> int {
    4096int / n
}

/// No sum of the samples of a coefficient is too large on the way.
pub open spec fn sums_fit(samples: Seq<i16>, n: int) -> bool {
    forall|i: int, end: int|
        0 <= i < n && i * samples_per_coefficient(n) <= end <= (i + 1) * samples_per_coefficient(n)
            ==> i16::MIN <= #[trigger] sample_sum(
            samples,
            i * samples_per_coefficient(n),
            end,
        ) <= i16::MAX
}

/// Generates a polynomial of degree at most `n - 1` from samples of a discrete Gaussian: each
/// coefficient is a sum of `4096 / n` of them.
pub fn gen_poly(n: usize, samples: &Vec<i16>) -> (r: Polynomial<i16>)
    requires
        0 < n <= 4096,
        4096int % (n as int) == 0,
        samples@.len() == 4096,
        sums_fit(samples@, n as int),
    ensures
        r@.len() == n,
        r@ == Seq::new(
            n as nat,
            |i: int|
                sample_sum(
                    samples@,
                    i * samples_per_coefficient(n as int),
                    (i + 1) * samples_per_coefficient(n as int),
                ),
        ),
{
    let size = SAMPLES / n;
    let ghost w = samples_per_coefficient(n as int);
    proof {
        lemma_fundamental_div_mod(4096, n as int);
    }
    let ghost want = Seq::new(n as nat, |i: int| sample_sum(samples@, i * w, (i + 1) * w));
    let mut coefficients: Vec<i16> = Vec::new();
    let mut start: usize = 0;
    assert(0 * w == 0);
    for i in 0..n
        invariant
            n * w == 4096,
            samples@.len() == 4096,
            sums_fit(samples@, n as int),
            w == samples_per_coefficient(n as int),
            size == w,
            start == i * w,
            start <= 4096,
            want == Seq::new(n as nat, |i: int| sample_sum(samples@, i * w, (i + 1) * w)),
            coefficients@.map_values(|c: i16| c as int) =~= want.take(i as int),
    {
        assert((i + 1) * w == i * w + w) by (nonlinear_arith);
        assert((i + 1) * w <= n * w) by (nonlinear_arith)
            requires
                i < n,
                0 <= w,
        ;
        let end = start + size;
        let mut sum: i16 = 0;
        for j in start..end
            invariant
                samples@.len() == 4096,
                sums_fit(samples@, n as int),
                w == samples_per_coefficient(n as int),
                0 <= i < n,
                start == i * w,
                end == (i + 1) * w,
                end <= 4096,
                sum == sample_sum(samples@, start as int, j as int),
        {
            proof {
                assert(sample_sum(samples@, i * w, j + 1) == sum + samples@[j as int]);
            }
            sum = sum + samples[j];
        }
        let ghost before = coefficients@;
        coefficients.push(sum);
        proof {
            assert(coefficients@.map_values(|c: i16| c as int) =~= before.map_values(
                |c: i16| c as int,
            ).push(sum as int));
        }
        start = end;
    }
    let r = Polynomial::new(coefficients);
    assert(r@ =~= want);
    r
}

/// What key generation has come to.
#[verifier::ext_equal]
pub enum Generation {
    /// The candidate is rejected.
    Resample,
    /// The Gram-Schmidt norm of `(f, g)` is to be checked.
    CheckNorm(Seq<int>, Seq<int>),
    /// The NTRU equation is being solved for `(f, g)`.
    Solving(Seq<int>, Seq<int>, Progress),
    /// The basis `[g, -f, G, -F]`.
    Basis(Seq<int>, Seq<int>, Seq<int>, Seq<int>),
}

/// The first test of a candidate: its coefficients can be encoded, and the transform of `f` has no
/// zero.
pub open spec fn screened(f: Seq<int>, g: Seq<int>) -> Generation {
    if within_bound(f, MAX_SMALL_POLY_COEFFICIENT_SIZE as int) && within_bound(
        g,
        MAX_SMALL_POLY_COEFFICIENT_SIZE as int,
    ) && !transform_has_zero(f) {
        Generation::CheckNorm(f, g)
    } else {
        Generation::Resample
    }
}

/// What is made of the state of the solver: a solution whose coefficients can be encoded gives a
/// basis.
pub open spec fn concluded(f: Seq<int>, g: Seq<int>, p: Progress) -> Generation {
    match p {
        Progress::Unsolvable => Generation::Resample,
        Progress::Reducing(..) => Generation::Solving(f, g, p),
        Progress::Solved(capital_f, capital_g) => if fits_i16(capital_f) && fits_i16(capital_g)
            && within_bound(capital_f, MAX_BIG_POLY_COEFFICIENT_SIZE as int) && within_bound(
            capital_g,
            MAX_BIG_POLY_COEFFICIENT_SIZE as int,
        ) {
            Generation::Basis(g, scale(-1, f), capital_g, scale(-1, capital_f))
        } else {
            Generation::Resample
        },
    }
}

/// `a d - b c = q` modulo `X^n + 1`.
pub open spec fn is_ntru_basis(a: Seq<int>, b: Seq<int>, c: Seq<int>, d: Seq<int>) -> bool {
    &&& a.len() == b.len() == c.len() == d.len()
    &&& determinant(a, b, c, d) == constant(MODULUS as int, a.len())
}

/// If `(F, G)` solves the NTRU equation for `f` and `g`, the determinant of `[g, -f, G, -F]` is
/// the modulus.
pub proof fn lemma_basis_determinant(
    f: Seq<int>,
    g: Seq<int>,
    capital_f: Seq<int>,
    capital_g: Seq<int>,
)
    requires
        f.len() == g.len(),
        solves(f, g, capital_f, capital_g),
    ensures
        is_ntru_basis(g, scale(-1, f), capital_g, scale(-1, capital_f)),
{
    let n = f.len();
    lemma_times_scale_right(-1, g, capital_f);
    lemma_times_scale_left(-1, f, capital_g);
    lemma_partial_product_len(g, capital_f, n);
    lemma_partial_product_len(f, capital_g, n);
    assert(determinant(g, scale(-1, f), capital_g, scale(-1, capital_f)) =~= determinant(
        f,
        g,
        capital_f,
        capital_g,
    ));
}

/// The negative of a polynomial has the same bound.
pub proof fn lemma_negative_within_bound(a: Seq<int>, bound: int)
    requires
        within_bound(a, bound),
    ensures
        within_bound(scale(-1, a), bound),
{
    let b = scale(-1, a);
    assert forall|i: int| 0 <= i < b.len() implies -bound <= #[trigger] centered(b[i])
        <= bound by {
        let (r, q) = (a[i] % 12289, a[i] / 12289);
        lemma_fundamental_div_mod(a[i], 12289);
        assert(b[i] == -a[i]);
        if r == 0 {
            lemma_mod_multiples_vanish(-q, 0, 12289);
        } else {
            lemma_mod_multiples_vanish(-q - 1, 12289 - r, 12289);
        }
        assert(centered(b[i]) == -centered(a[i]));
    }
}

/// A basis that key generation ends with satisfies the NTRU equation, its first half is made of
/// the candidate, and all its coefficients are within the bounds of the encoding.
pub open spec fn is_sound(step: Generation, f: Seq<int>, g: Seq<int>) -> bool {
    match step {
        Generation::Resample => true,
        Generation::CheckNorm(..) => true,
        Generation::Solving(a, b, p) => a == f && b == g && leads_to_solution(p, f, g),
        Generation::Basis(a, b, c, d) => {
            &&& a == g
            &&& b == scale(-1, f)
            &&& is_ntru_basis(a, b, c, d)
            &&& within_bound(a, MAX_SMALL_POLY_COEFFICIENT_SIZE as int)
            &&& within_bound(b, MAX_SMALL_POLY_COEFFICIENT_SIZE as int)
            &&& within_bound(c, MAX_BIG_POLY_COEFFICIENT_SIZE as int)
            &&& within_bound(d, MAX_BIG_POLY_COEFFICIENT_SIZE as int)
        },
    }
}

/// A pair of polynomials that passed the first test.
pub struct Candidate {
    f: Polynomial<i16>,
    g: Polynomial<i16>,
}

/// A candidate for which the NTRU equation is being solved.
pub struct BasisSolver {
    candidate: Candidate,
    solver: NtruSolver,
}

/// What key generation has come to, and what it needs to go on.
pub enum KeygenStep {
    /// The candidate is rejected: new polynomials are to be sampled.
    Resample,
    /// The Gram-Schmidt norm of the candidate is to be checked.
    CheckNorm(Candidate),
    /// The solver needs a quotient.
    Quotient(BasisSolver, QuotientRequest),
    /// The basis `[g, -f, G, -F]`.
    Basis([Polynomial<i16>; 4]),
}

impl Candidate {
    pub closed spec fn spec_f(&self) -> Seq<int> {
        self.f@
    }

    pub closed spec fn spec_g(&self) -> Seq<int> {
        self.g@
    }

    /// The polynomials are small and of a degree for which the equation can be solved, and the
    /// transform of the first has no zero.
    pub open spec fn is_well_formed(&self) -> bool {
        &&& self.spec_f().len() == self.spec_g().len()
        &&& is_power_of_two(self.spec_f().len())
        &&& self.spec_f().len() <= usize::MAX / 2
        &&& within_bound(self.spec_f(), MAX_SMALL_POLY_COEFFICIENT_SIZE as int)
        &&& within_bound(self.spec_g(), MAX_SMALL_POLY_COEFFICIENT_SIZE as int)
        &&& !transform_has_zero(self.spec_f())
    }

    pub fn f(&self) -> (r: &Polynomial<i16>)
        ensures
            r@ == self.spec_f(),
    {
        &self.f
    }

    pub fn g(&self) -> (r: &Polynomial<i16>)
        ensures
            r@ == self.spec_g(),
    {
        &self.g
    }
}

impl BasisSolver {
    pub closed spec fn spec_candidate(&self) -> Candidate {
        self.candidate
    }

    pub closed spec fn spec_solver(&self) -> NtruSolver {
        self.solver
    }

    pub open spec fn is_well_formed(&self) -> bool {
        &&& self.spec_candidate().is_well_formed()
        &&& self.spec_solver()@ is Reducing
        &&& leads_to_solution(
            self.spec_solver()@,
            self.spec_candidate().spec_f(),
            self.spec_candidate().spec_g(),
        )
    }
}

impl View for KeygenStep {
    type V = Generation;

    open spec fn view(&self) -> Generation {
        match *self {
            KeygenStep::Resample => Generation::Resample,
            KeygenStep::CheckNorm(candidate) => Generation::CheckNorm(
                candidate.spec_f(),
                candidate.spec_g(),
            ),
            KeygenStep::Quotient(solver, _) => Generation::Solving(
                solver.spec_candidate().spec_f(),
                solver.spec_candidate().spec_g(),
                solver.spec_solver()@,
            ),
            KeygenStep::Basis(basis) => Generation::Basis(
                basis@[0]@,
                basis@[1]@,
                basis@[2]@,
                basis@[3]@,
            ),
        }
    }
}

impl KeygenStep {
    /// What the step carries is well-formed, and what it asks for are the leading bits of the
    /// polynomials that are being reduced.
    pub open spec fn is_well_formed(&self) -> bool {
        match *self {
            KeygenStep::CheckNorm(candidate) => candidate.is_well_formed(),
            KeygenStep::Quotient(solver, request) => {
                &&& solver.is_well_formed()
                &&& solver.spec_solver().asks_for(request)
            },
            _ => true,
        }
    }
}

fn negated(p: &Polynomial<i16>, bound: i16) -> (r: Polynomial<i16>)
    requires
        within_bound(p@, bound as int),
        bound <= 127,
    ensures
        r@ == scale(-1, p@),
{
    let mut coefficients: Vec<i16> = Vec::new();
    for i in 0..p.coefficients.len()
        invariant
            within_bound(p@, bound as int),
            bound <= 127,
            coefficients@.map_values(|c: i16| c as int) =~= scale(-1, p@).take(i as int),
    {
        let ghost before = coefficients@;
        let c = p.coefficients[i];
        assert(centered(p@[i as int]) <= bound);
        assert(c != -32768);
        coefficients.push(-c);
        assert(coefficients@.map_values(|c: i16| c as int) =~= before.map_values(
            |c: i16| c as int,
        ).push(-c as int));
    }
    let r = Polynomial::new(coefficients);
    assert(r@ =~= scale(-1, p@));
    r
}

/// Makes a basis of a solution, or waits for the solver to go on.
fn conclude(candidate: Candidate, step: NtruStep) -> (r: KeygenStep)
    requires
        candidate.is_well_formed(),
        leads_to_solution(step@, candidate.spec_f(), candidate.spec_g()),
        step.asks_for_quotient(),
    ensures
        r@ == concluded(candidate.spec_f(), candidate.spec_g(), step@),
        is_sound(r@, candidate.spec_f(), candidate.spec_g()),
        r.is_well_formed(),
{
    match step {
        NtruStep::Unsolvable => KeygenStep::Resample,
        NtruStep::Quotient(solver, request) => KeygenStep::Quotient(
            BasisSolver { candidate, solver },
            request,
        ),
        NtruStep::Solved(capital_f, capital_g) => {
            let ghost (big_f, big_g) = (capital_f@, capital_g@);
            let capital_f = match try_bigint_polynomial_to_i16(&capital_f) {
                Some(p) => p,
                None => {
                    return KeygenStep::Resample;
                },
            };
            let capital_g = match try_bigint_polynomial_to_i16(&capital_g) {
                Some(p) => p,
                None => {
                    return KeygenStep::Resample;
                },
            };
            if !(check_coefficients_bound(&capital_f, MAX_BIG_POLY_COEFFICIENT_SIZE)
                && check_coefficients_bound(&capital_g, MAX_BIG_POLY_COEFFICIENT_SIZE)) {
                return KeygenStep::Resample;
            }
            let minus_f = negated(&candidate.f, MAX_SMALL_POLY_COEFFICIENT_SIZE);
            let minus_capital_f = negated(&capital_f, MAX_BIG_POLY_COEFFICIENT_SIZE);
            proof {
                lemma_basis_determinant(candidate.f@, candidate.g@, big_f, big_g);
                lemma_negative_within_bound(
                    candidate.f@,
                    MAX_SMALL_POLY_COEFFICIENT_SIZE as int,
                );
                lemma_negative_within_bound(big_f, MAX_BIG_POLY_COEFFICIENT_SIZE as int);
            }
            KeygenStep::Basis([candidate.g, minus_f, capital_g, minus_capital_f])
        },
    }
}

/// Samples of `f` and `g` in, the first decision on an NTRU basis out.
///
/// Generates `f`, `g`, `F`, `G` such that `f G - g F = q` modulo `X^n + 1`: whatever the answers
/// to the steps are, a basis `[g, -f, G, -F]` that comes out satisfies the equation.
pub fn ntru_gen(f: Polynomial<i16>, g: Polynomial<i16>) -> (r: KeygenStep)
    requires
        f@.len() == g@.len(),
        is_power_of_two(f@.len()),
        f@.len() <= usize::MAX / 2,
    ensures
        r@ == screened(f@, g@),
        r.is_well_formed(),
        f@.len() <= 2048 ==> (r is CheckNorm <==> is_small(f@, 31) && is_small(g@, 31)
            && is_invertible(f@)),
        r is CheckNorm || r is Resample,
{
    proof {
        if f@.len() <= 2048 {
            law_screening(f@, g@);
        }
    }
    if !(check_coefficients_bound(&f, MAX_SMALL_POLY_COEFFICIENT_SIZE)
        && check_coefficients_bound(&g, MAX_SMALL_POLY_COEFFICIENT_SIZE)) {
        return KeygenStep::Resample;
    }
    if has_transform_zero(&f) {
        return KeygenStep::Resample;
    }
    KeygenStep::CheckNorm(Candidate { f, g })
}

impl Candidate {
    /// Goes on with the answer on the Gram-Schmidt norm: rejects the candidate, or starts to
    /// solve the NTRU equation.
    pub fn norm_checked(self, acceptable: bool) -> (r: KeygenStep)
        requires
            self.is_well_formed(),
        ensures
            r@ == (if acceptable {
                concluded(self.spec_f(), self.spec_g(), started(self.spec_f(), self.spec_g()))
            } else {
                Generation::Resample
            }),
            is_sound(r@, self.spec_f(), self.spec_g()),
            r.is_well_formed(),
    {
        if !acceptable {
            return KeygenStep::Resample;
        }
        let f = to_bigint_polynomial(&self.f);
        let g = to_bigint_polynomial(&self.g);
        let step = ntru_solve(&f, &g);
        conclude(self, step)
    }
}

impl BasisSolver {
    /// Goes on with the quotient that was asked for.
    pub fn quotient_found(self, k: &Vec<i64>) -> (r: KeygenStep)
        requires
            self.is_well_formed(),
            k@.len() == self.spec_solver().degree(),
        ensures
            self.spec_solver()@ matches Progress::Reducing(levels, capital_f, capital_g, rounds)
                ==> r@ == concluded(
                self.spec_candidate().spec_f(),
                self.spec_candidate().spec_g(),
                resumed(levels, capital_f, capital_g, rounds, integers(k@)),
            ),
            is_sound(r@, self.spec_candidate().spec_f(), self.spec_candidate().spec_g()),
            r.is_well_formed(),
    {
        let step = self.solver.babai_reduce(k);
        conclude(self.candidate, step)
    }
}

} // verus!
