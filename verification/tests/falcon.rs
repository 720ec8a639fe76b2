use miden_tools::falcon::euclid::xgcd;
use miden_tools::falcon::felt::{FalconFelt, MODULUS};
use miden_tools::falcon::inverse::{Field, Inverse};
use miden_tools::falcon::keygen::{
    check_coefficients_bound, gen_poly, has_transform_zero, ntru_gen,
    try_bigint_polynomial_to_i16, KeygenStep, MAX_BIG_POLY_COEFFICIENT_SIZE,
    MAX_SMALL_POLY_COEFFICIENT_SIZE, SAMPLES,
};
use miden_tools::falcon::ntru::{ntru_solve, NtruStep, QuotientRequest, MAX_ROUNDS};
use miden_tools::falcon::polynomial::Polynomial;
use miden_tools::falcon::size::larger_size;
use num::{BigInt, FromPrimitive, One, Zero};
use num_complex::Complex64;
use rand::{Rng, SeedableRng};
use rand_chacha::ChaCha20Rng;

#[test]
fn bigint_polynomial_to_i16_rejects_out_of_range_coefficients() {
    let in_range = Polynomial::new(vec![BigInt::from(i16::MIN), BigInt::from(i16::MAX)]);
    assert_eq!(
        try_bigint_polynomial_to_i16(&in_range).unwrap().coefficients,
        vec![i16::MIN, i16::MAX],
    );

    let too_large = Polynomial::new(vec![BigInt::from(i16::MAX) + 1]);
    assert!(try_bigint_polynomial_to_i16(&too_large).is_none());

    let too_small = Polynomial::new(vec![BigInt::from(i16::MIN) - 1]);
    assert!(try_bigint_polynomial_to_i16(&too_small).is_none());
}

/// A sample of the discrete Gaussian distribution around zero.
fn sample<R: Rng>(sigma: f64, rng: &mut R) -> i16 {
    let weight = |x: i16| (-(x as f64) * (x as f64) / (2.0 * sigma * sigma)).exp();
    let total: f64 = (-15..=15).map(weight).sum();
    let mut rest = rng.random::<f64>() * total;
    for x in -15..=15 {
        rest -= weight(x);
        if rest < 0.0 {
            return x;
        }
    }
    15
}

fn sample_poly<R: Rng>(n: usize, rng: &mut R) -> Polynomial<i16> {
    let samples: Vec<i16> = (0..SAMPLES).map(|_| sample(1.43300980528773, rng)).collect();
    gen_poly(n, &samples)
}

/// The values at the roots of X^n + 1.
fn transform(a: &[f64]) -> Vec<Complex64> {
    let n = a.len();
    (0..n)
        .map(|k| {
            let mut sum = Complex64::new(0.0, 0.0);
            for (j, c) in a.iter().enumerate() {
                let turns = ((2 * k + 1) * j) % (2 * n);
                let angle = std::f64::consts::PI * turns as f64 / n as f64;
                sum += Complex64::new(angle.cos(), angle.sin()) * c;
            }
            sum
        })
        .collect()
}

/// The coefficients of the polynomial with the given values at the roots of X^n + 1.
fn inverse_transform(values: &[Complex64]) -> Vec<f64> {
    let n = values.len();
    (0..n)
        .map(|j| {
            let mut sum = Complex64::new(0.0, 0.0);
            for (k, c) in values.iter().enumerate() {
                let turns = ((2 * k + 1) * j) % (2 * n);
                let angle = -std::f64::consts::PI * turns as f64 / n as f64;
                sum += Complex64::new(angle.cos(), angle.sin()) * c;
            }
            sum.re / n as f64
        })
        .collect()
}

fn quotient(request: &QuotientRequest) -> Vec<i64> {
    let values = |a: &Vec<i64>| transform(&a.iter().map(|&c| c as f64).collect::<Vec<f64>>());
    let (f, g) = (values(&request.f), values(&request.g));
    let (big_f, big_g) = (values(&request.capital_f), values(&request.capital_g));
    let k: Vec<Complex64> = (0..f.len())
        .map(|i| {
            (big_f[i] * f[i].conj() + big_g[i] * g[i].conj())
                / (f[i] * f[i].conj() + g[i] * g[i].conj())
        })
        .collect();
    inverse_transform(&k).iter().map(|c| c.round() as i64).collect()
}

fn is_short(f: &Polynomial<i16>, g: &Polynomial<i16>) -> bool {
    let n = f.coefficients.len();
    let floats =
        |a: &Polynomial<i16>| a.coefficients.iter().map(|&c| c as f64).collect::<Vec<f64>>();
    let (f, g) = (floats(f), floats(g));
    let first: f64 = f.iter().chain(g.iter()).map(|c| c * c).sum();
    let (f, g) = (transform(&f), transform(&g));
    let q = MODULUS as f64;
    let second: f64 = (0..n)
        .map(|i| q * q / (f[i].norm_sqr() + g[i].norm_sqr()))
        .sum::<f64>()
        / n as f64;
    let norm = first.max(second);
    norm.is_finite() && norm <= 1.3689 * q
}

fn generate<R: Rng>(n: usize, rng: &mut R) -> [Polynomial<i16>; 4] {
    loop {
        let f = sample_poly(n, rng);
        let g = sample_poly(n, rng);
        let mut step = ntru_gen(f, g);
        loop {
            step = match step {
                KeygenStep::Resample => break,
                KeygenStep::CheckNorm(candidate) => {
                    let acceptable = is_short(candidate.f(), candidate.g());
                    candidate.norm_checked(acceptable)
                }
                KeygenStep::Quotient(solver, request) => solver.quotient_found(&quotient(&request)),
                KeygenStep::Basis(basis) => return basis,
            };
        }
    }
}

fn schoolbook(a: &[BigInt], b: &[BigInt]) -> Polynomial<BigInt> {
    let mut product = vec![BigInt::zero(); a.len() + b.len() - 1];
    for (i, x) in a.iter().enumerate() {
        for (j, y) in b.iter().enumerate() {
            product[i + j] += x * y;
        }
    }
    Polynomial::new(product)
}

fn big_polynomial(a: &[i64]) -> Polynomial<BigInt> {
    Polynomial::new(a.iter().map(|&c| BigInt::from(c)).collect())
}

fn widened(a: &Polynomial<i16>) -> Vec<BigInt> {
    a.coefficients.iter().map(|&c| BigInt::from(c)).collect()
}

/// `ntru_gen` leads to the secret-key basis rows `[g, -f, G, -F]`; the NTRU equation
/// `f*G - g*F = q (mod X^n + 1)` is then exactly `a*d - b*c = q` on the quadruple `[a, b, c, d]`.
/// Schoolbook multiplication is the oracle here.
#[test]
fn ntru_gen_output_satisfies_the_ntru_equation() {
    for (n, seed_byte) in [(64usize, 7u8), (128, 11)] {
        let mut rng = ChaCha20Rng::from_seed([seed_byte; 32]);
        let [a, b, c, d] = generate(n, &mut rng).map(|p| widened(&p));

        let determinant = schoolbook(&a, &d)
            .minus(&schoolbook(&b, &c))
            .reduce_by_cyclotomic(n);
        assert_eq!(
            determinant,
            Polynomial::new(vec![BigInt::from(MODULUS)]),
            "basis determinant must equal q for n = {n}",
        );
    }
}

/// The identity that the solver recurses on: lifting the half-size field norm back up must agree
/// with multiplying `f` by its Galois adjoint, `N(f)(X^2) = f(X) * f(-X) (mod X^n + 1)`.
#[test]
fn field_norm_lift_matches_galois_adjoint_product() {
    let n = 8;
    let f = Polynomial::new(
        [3i64, -1, 4, 1, -5, 9, -2, 6]
            .iter()
            .map(|&c| BigInt::from_i64(c).unwrap())
            .collect(),
    );

    let lifted_norm = f.field_norm().lift_next_cyclotomic();
    let adjoint_product =
        schoolbook(&f.coefficients, &f.galois_adjoint().coefficients).reduce_by_cyclotomic(n);
    assert_eq!(lifted_norm, adjoint_product);
}

#[test]
fn xgcd_satisfies_bezout_identity() {
    let big = |v: i64| BigInt::from_i64(v).unwrap();
    for (a, b) in [(240, 46), (46, 240), (17, 5), (12, 18), (0, 9), (9, 0), (1, 1)] {
        let (g, u, v) = xgcd(&big(a), &big(b));
        assert_eq!(u.clone() * big(a) + v.clone() * big(b), g, "Bezout failed for ({a}, {b})");
        if a != 0 && b != 0 {
            assert!(
                (big(a) % g.clone()).is_zero() && (big(b) % g.clone()).is_zero(),
                "gcd does not divide both operands for ({a}, {b})"
            );
        }
    }
    // Coprimality is what the solver checks at degree one.
    let (g, ..) = xgcd(&big(17), &big(5));
    assert!(g.is_one());
}

#[test]
fn batch_inverse_or_zero_matches_individual_inverses_and_skips_zeros() {
    let batch: Vec<FalconFelt> =
        [5i16, 0, 1, 12288, 0, 7, 42].iter().map(|&v| FalconFelt::new(v)).collect();
    let batch_inverses = FalconFelt::batch_inverse_or_zero(&batch);
    assert_eq!(batch.len(), batch_inverses.len());
    for (element, inverse) in batch.iter().zip(&batch_inverses) {
        assert_eq!(element.inverse_or_zero(), *inverse);
    }
}

#[test]
fn check_coefficients_bound_is_inclusive() {
    let poly = Polynomial::new(vec![3i16, -3, 0]);
    assert!(check_coefficients_bound(&poly, 3));
    assert!(!check_coefficients_bound(&poly, 2));
}

#[test]
fn coefficients_are_bounded_by_their_balanced_values() {
    // 12290 is 1 and 12288 is -1 modulo q.
    let poly = Polynomial::new(vec![12290i16, 12288, -12290]);
    assert_eq!(poly.to_balanced_values(), vec![1, -1, -1]);
    assert!(check_coefficients_bound(&poly, 1));
    assert!(!check_coefficients_bound(&poly, 0));
    assert!(!check_coefficients_bound(&poly, -1));
    assert!(check_coefficients_bound(&Polynomial::new(vec![]), -1));
    let ends = Polynomial::new(vec![6144i16, 6145]);
    assert_eq!(ends.to_balanced_values(), vec![6144, -6144]);
}

#[test]
fn encoding_bounds() {
    assert_eq!(MAX_SMALL_POLY_COEFFICIENT_SIZE, 31);
    assert_eq!(MAX_BIG_POLY_COEFFICIENT_SIZE, 127);
}

#[test]
fn inverses_in_the_field() {
    let one = FalconFelt::new(1);
    for v in [1i16, 2, 5, -1, 6145, 12288] {
        let a = FalconFelt::new(v);
        assert_eq!(a.multiply(a.inverse_or_zero()), one);
    }
    assert_eq!(FalconFelt::new(2).inverse_or_zero(), FalconFelt::new(6145));
    assert_eq!(FalconFelt::zero().inverse_or_zero(), FalconFelt::zero());
    assert_eq!(FalconFelt::new(MODULUS), FalconFelt::zero());
    assert_eq!(FalconFelt::new(-3).balanced_value(), -3);
    assert_eq!(FalconFelt::one(), one);
    assert!(FalconFelt::zero().is_zero() && !one.is_zero());
}

#[test]
fn xgcd_follows_the_signs_of_truncated_division() {
    let big = |v: i64| BigInt::from(v);
    assert_eq!(xgcd(&big(240), &big(46)), (big(2), big(-9), big(47)));
    assert_eq!(xgcd(&big(-7), &big(0)), (big(-7), big(1), big(0)));
    assert_eq!(xgcd(&big(-17), &big(5)), (big(1), big(2), big(7)));
    assert_eq!(xgcd(&big(0), &big(0)), (big(0), big(1), big(0)));
}

#[test]
fn products_of_polynomials() {
    let a = big_polynomial(&[1, 2, 3]);
    let b = big_polynomial(&[4, 5]);
    assert_eq!(a.karatsuba(&b), big_polynomial(&[4, 13, 22, 15]));
    // X^4 = -1.
    let c = big_polynomial(&[1, 2, 3, 4]);
    let d = big_polynomial(&[0, 1, 0, 0]);
    assert_eq!(c.times(&d), big_polynomial(&[-4, 1, 2, 3]));
    assert_eq!(big_polynomial(&[1, 2, 3, 4, 5]).reduce_by_cyclotomic(2), big_polynomial(&[3, -2]));
    let long: Vec<i64> = (0..40).map(|i| i * i - 13 * i + 5).collect();
    let other: Vec<i64> = (0..40).map(|i| 100 - 7 * i).collect();
    let (x, y) = (big_polynomial(&long), big_polynomial(&other));
    assert_eq!(x.karatsuba(&y), schoolbook(&x.coefficients, &y.coefficients));
    assert_eq!(a.minus(&big_polynomial(&[1, 1, 1])), big_polynomial(&[0, 1, 2]));
    assert!(b.can_be_shifted(3) && b.can_be_shifted(1000));
    assert_eq!(b.shifted(3), big_polynomial(&[32, 40]));
    assert_eq!(b.shifted(200).coefficients[0], BigInt::from(4) << 200);
    assert!(big_polynomial(&[0, 0]).is_zero() && !b.is_zero());
    assert_eq!(a.duplicate(), a);
}

#[test]
fn trailing_zeros_do_not_matter() {
    assert_eq!(big_polynomial(&[1, 2, 0]), big_polynomial(&[1, 2]));
    assert_ne!(big_polynomial(&[0, 1, 2]), big_polynomial(&[1, 2]));
    assert_eq!(big_polynomial(&[0]), big_polynomial(&[]));
}

#[test]
fn norms_and_adjoints() {
    // N(a + b X) = a^2 + b^2 modulo X + 1.
    assert_eq!(big_polynomial(&[3, 4]).field_norm(), big_polynomial(&[25]));
    assert_eq!(big_polynomial(&[1, 2, 3, 4]).galois_adjoint(), big_polynomial(&[1, -2, 3, -4]));
    assert_eq!(big_polynomial(&[5, 6]).lift_next_cyclotomic(), big_polynomial(&[5, 0, 6, 0]));
}

#[test]
fn sizes_are_whole_bytes() {
    let small = big_polynomial(&[255, -255]);
    assert_eq!(small.size(), Some(8));
    let larger = big_polynomial(&[256]);
    assert_eq!(larger.size(), Some(16));
    assert_eq!(larger_size(&small, &larger), Some(53));
    let huge = Polynomial::new(vec![BigInt::from(-1) << 60]);
    assert_eq!(huge.size(), Some(64));
    assert_eq!(larger_size(&small, &huge), Some(64));
    assert_eq!(huge.leading(64), vec![-(1i64 << 49)]);
    assert_eq!(Polynomial::new(vec![BigInt::from(-1)]).leading(54), vec![-1]);
}

#[test]
fn transform_zeros() {
    // X - 7 has the root 7 where 7 is a root of X^1 + 1 only if 8 = 0 modulo q.
    assert!(!has_transform_zero(&Polynomial::new(vec![1i16])));
    assert!(has_transform_zero(&Polynomial::new(vec![0i16])));
    assert!(has_transform_zero(&Polynomial::new(vec![12289i16])));
    // 1479^2 = -1 modulo q, so X - 1479 vanishes at a root of X^2 + 1.
    assert!(has_transform_zero(&Polynomial::new(vec![-1479i16, 1])));
    assert!(!has_transform_zero(&Polynomial::new(vec![-1478i16, 1])));
}

#[test]
fn coefficients_are_sums_of_samples() {
    let samples: Vec<i16> = (0..SAMPLES).map(|i| (i % 3) as i16 - 1).collect();
    let poly = gen_poly(1024, &samples);
    assert_eq!(poly.coefficients.len(), 1024);
    assert_eq!(poly.coefficients[..3], [-1, 0, 1]);
    let whole = gen_poly(1, &vec![2i16; SAMPLES]);
    assert_eq!(whole.coefficients, vec![8192]);
}

fn solve(f: &[i64], g: &[i64]) -> Option<(Polynomial<BigInt>, Polynomial<BigInt>)> {
    let mut step = ntru_solve(&big_polynomial(f), &big_polynomial(g));
    loop {
        step = match step {
            NtruStep::Unsolvable => return None,
            NtruStep::Solved(capital_f, capital_g) => return Some((capital_f, capital_g)),
            NtruStep::Quotient(solver, request) => solver.babai_reduce(&quotient(&request)),
        };
    }
}

#[test]
fn solver_at_degree_one() {
    // -2 * 17 + 7 * 5 = 1.
    let (capital_f, capital_g) = solve(&[17], &[5]).unwrap();
    assert_eq!(capital_f, big_polynomial(&[-7 * 12289]));
    assert_eq!(capital_g, big_polynomial(&[-2 * 12289]));
    assert!(solve(&[12], &[18]).is_none());
    // The greatest common divisor comes out negative.
    assert!(solve(&[-1], &[0]).is_none());
    assert!(solve(&[0], &[0]).is_none());
}

#[test]
fn solver_finds_a_solution() {
    let (f, g) = ([3i64, -1, 4, 1], [2i64, 7, -1, 8]);
    let (capital_f, capital_g) = solve(&f, &g).unwrap();
    let (f, g) = (big_polynomial(&f), big_polynomial(&g));
    let determinant = f.times(&capital_g).minus(&g.times(&capital_f));
    assert_eq!(determinant, big_polynomial(&[12289]));
}

#[test]
fn a_second_reduction_changes_nothing() {
    let (f, g) = ([3i64, -1, 4, 1], [2i64, 7, -1, 8]);
    let (capital_f, capital_g) = solve(&f, &g).unwrap();
    let (f, g) = (big_polynomial(&f), big_polynomial(&g));
    let size = larger_size(&f, &g).unwrap();
    let capital_size = larger_size(&capital_f, &capital_g).unwrap();
    assert_eq!(size, capital_size);
    let request = QuotientRequest {
        f: f.leading(size),
        g: g.leading(size),
        capital_f: capital_f.leading(capital_size),
        capital_g: capital_g.leading(capital_size),
    };
    assert_eq!(quotient(&request), vec![0, 0, 0, 0]);
}

#[test]
fn solver_finds_no_solution_for_a_common_factor() {
    assert!(solve(&[2, 4, 6, 8], &[2, 0, 0, 0]).is_none());
}

#[test]
fn solver_gives_up_on_quotients_that_do_not_help() {
    let mut step = ntru_solve(&big_polynomial(&[3, 1]), &big_polynomial(&[2, 5]));
    let mut rounds = 0;
    loop {
        step = match step {
            NtruStep::Unsolvable => break,
            NtruStep::Solved(..) => panic!("solved"),
            NtruStep::Quotient(solver, request) => {
                assert_eq!(request.f, vec![3, 1]);
                assert_eq!(request.g, vec![2, 5]);
                assert_eq!(request.capital_f.len(), 2);
                rounds += 1;
                let sign = if rounds % 2 == 0 { 1 } else { -1 };
                solver.babai_reduce(&vec![sign, 0])
            }
        };
    }
    assert_eq!(rounds, MAX_ROUNDS + 1);
}

#[test]
fn whatever_the_quotients_the_equation_holds() {
    let (f, g) = (big_polynomial(&[3, 1]), big_polynomial(&[2, 5]));
    let mut step = ntru_solve(&f, &g);
    let mut quotients = vec![vec![1000i64, -3], vec![0, 77], vec![0, 0]].into_iter();
    loop {
        step = match step {
            NtruStep::Unsolvable => panic!("unsolvable"),
            NtruStep::Quotient(solver, _) => solver.babai_reduce(&quotients.next().unwrap()),
            NtruStep::Solved(capital_f, capital_g) => {
                let determinant = f.times(&capital_g).minus(&g.times(&capital_f));
                assert_eq!(determinant, big_polynomial(&[12289]));
                return;
            }
        };
    }
}

#[test]
fn candidates_are_screened() {
    let zero = || Polynomial::new(vec![0i16, 0]);
    let short = || Polynomial::new(vec![3i16, 1]);
    let long = || Polynomial::new(vec![32i16, 0]);
    assert!(matches!(ntru_gen(long(), short()), KeygenStep::Resample));
    assert!(matches!(ntru_gen(short(), long()), KeygenStep::Resample));
    assert!(matches!(ntru_gen(zero(), short()), KeygenStep::Resample));
    match ntru_gen(short(), zero()) {
        KeygenStep::CheckNorm(candidate) => {
            assert_eq!(candidate.f().coefficients, vec![3, 1]);
            assert_eq!(candidate.g().coefficients, vec![0, 0]);
            assert!(matches!(candidate.norm_checked(false), KeygenStep::Resample));
        }
        _ => panic!("not screened"),
    }
    match ntru_gen(short(), zero()) {
        // The norms of f and g, 10 and 0, are not coprime.
        KeygenStep::CheckNorm(candidate) => {
            assert!(matches!(candidate.norm_checked(true), KeygenStep::Resample));
        }
        _ => panic!("not screened"),
    }
}

#[test]
fn solutions_that_are_too_large_are_rejected() {
    // F = 0 and G = q.
    match ntru_gen(Polynomial::new(vec![1i16]), Polynomial::new(vec![0i16])) {
        KeygenStep::CheckNorm(candidate) => match candidate.norm_checked(true) {
            KeygenStep::Basis([g, minus_f, capital_g, minus_capital_f]) => {
                // The balanced value of q is 0.
                assert_eq!(g.coefficients, vec![0]);
                assert_eq!(minus_f.coefficients, vec![-1]);
                assert_eq!(capital_g.coefficients, vec![12289]);
                assert_eq!(minus_capital_f.coefficients, vec![0]);
            }
            _ => panic!("no basis"),
        },
        _ => panic!("not screened"),
    }
    // F does not fit: 7 * 12289.
    match ntru_gen(Polynomial::new(vec![17i16]), Polynomial::new(vec![5i16])) {
        KeygenStep::CheckNorm(candidate) => {
            assert!(matches!(candidate.norm_checked(true), KeygenStep::Resample));
        }
        _ => panic!("not screened"),
    }
}
