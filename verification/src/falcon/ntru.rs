//! The NTRU equation `f G - g F = q` modulo `X^n + 1`.
//!
//! The solver works its way down to the norms of `f` and `g` in rings of smaller and smaller
//! degree, solves the equation for integers, and lifts the solution back up. On the way up it
//! keeps the coefficients small: it subtracts multiples of `(f, g)` from `(F, G)`. Which multiple
//! is best is a matter of floating-point arithmetic, so the solver stops and asks for it. Any
//! answer keeps the equation.
use crate::falcon::bigint::{equal, from_i64, lemma_values_push, negation, product, values};
use crate::falcon::completeness_laws::{are_coprime, is_ordinary, law_coprime_norms_are_solved};
use crate::falcon::euclid::{euclid, lemma_bezout, xgcd};
use crate::falcon::felt::MODULUS;
use crate::falcon::polynomial::{is_shiftable, Polynomial};
use crate::falcon::ring::{
    adjoint, constant, determinant, lemma_lifted_solution, lemma_norm_len,
    lemma_partial_product_len, lemma_reduced_solution, lifted, minus, norm, scale, times,
};
use crate::falcon::size::{joint_size, larger_size, leading_bits, representable};
use num::BigInt;
use vstd::arithmetic::power2::pow2;
use vstd::prelude::*;

verus! {

broadcast use lemma_values_push;

/// After so many rounds at one degree the reduction is taken to go on for ever.
pub const MAX_ROUNDS: u32 = 1000;

pub open spec fn is_power_of_two(n: nat) -> bool
    decreases n,
{
    n == 1 || (n > 1 && n % 2 == 0 && is_power_of_two(n / 2))
}

/// `(f, g)` and the pairs of their norms, down to degree 2.
pub open spec fn tower(f: Seq<int>, g: Seq<int>) -> Seq<(Seq<int>, Seq<int>)>
    decreases f.len(),
{
    if f.len() <= 1 {
        seq![]
    } else {
        proof {
            lemma_norm_len(f);
        }
        seq![(f, g)] + tower(norm(f), norm(g))
    }
}

/// The norms of `f` and `g` of degree 1, which are integers.
pub open spec fn integer_norms(f: Seq<int>, g: Seq<int>) -> (int, int)
    decreases f.len(),
{
    if f.len() <= 1 {
        (f[0], g[0])
    } else {
        proof {
            lemma_norm_len(f);
        }
        integer_norms(norm(f), norm(g))
    }
}

/// The solution for integers: `f G - g F = q`, if the common divisor found for `f` and `g` is 1.
pub open spec fn integer_solution(f: int, g: int) -> Option<(int, int)> {
    let (d, u, v) = euclid(f, g);
    if d == 1 {
        Some((-v * MODULUS, u * MODULUS))
    } else {
        None
    }
}

/// The state of the solver, or its result.
pub enum Progress {
    /// There is no solution, or none was found.
    Unsolvable,
    /// The solution `(F, G)`.
    Solved(Seq<int>, Seq<int>),
    /// `(F, G)` is a solution for the last of the levels and is being reduced; so many rounds
    /// have been made.
    Reducing(Seq<(Seq<int>, Seq<int>)>, Seq<int>, Seq<int>, nat),
}

/// Lifts the solution `(F, G)` for the norms of the last level to a solution for that level.
pub open spec fn ascended(
    levels: Seq<(Seq<int>, Seq<int>)>,
    capital_f: Seq<int>,
    capital_g: Seq<int>,
) -> Progress
    decreases levels.len(), 2int,
{
    if levels.len() == 0 {
        Progress::Solved(capital_f, capital_g)
    } else {
        let (f, g) = levels.last();
        settled(
            levels,
            times(lifted(capital_f), adjoint(g)),
            times(lifted(capital_g), adjoint(f)),
            0,
        )
    }
}

/// Goes on with the level above if `(F, G)` is small enough, and waits for a quotient if not.
/// Coefficients whose size is not representable are given up.
pub open spec fn settled(
    levels: Seq<(Seq<int>, Seq<int>)>,
    capital_f: Seq<int>,
    capital_g: Seq<int>,
    rounds: nat,
) -> Progress
    decreases levels.len(), 1int,
{
    if levels.len() == 0 {
        Progress::Unsolvable
    } else {
        let (f, g) = levels.last();
        let size = joint_size(f, g);
        let capital_size = joint_size(capital_f, capital_g);
        if !representable(size) || !representable(capital_size) {
            Progress::Unsolvable
        } else if capital_size < size {
            ascended(levels.drop_last(), capital_f, capital_g)
        } else {
            Progress::Reducing(levels, capital_f, capital_g, rounds)
        }
    }
}

/// There is nothing to subtract.
pub open spec fn is_zero_quotient(k: Seq<int>) -> bool {
    forall|i: int| 0 <= i < k.len() ==> k[i] == 0
}

/// Subtracts `k` times `(f, g)`, shifted to the size of `(F, G)`, from `(F, G)`. A `k` of zero
/// ends the reduction, and so does one round too many. A multiple that no memory can hold is given
/// up.
pub open spec fn resumed(
    levels: Seq<(Seq<int>, Seq<int>)>,
    capital_f: Seq<int>,
    capital_g: Seq<int>,
    rounds: nat,
    k: Seq<int>,
) -> Progress {
    let (f, g) = levels.last();
    let shift = joint_size(capital_f, capital_g) - joint_size(f, g);
    let factor = pow2(shift as nat) as int;
    if is_zero_quotient(k) {
        ascended(levels.drop_last(), capital_f, capital_g)
    } else if rounds >= MAX_ROUNDS || !is_shiftable(times(k, f), shift) || !is_shiftable(
        times(k, g),
        shift,
    ) {
        Progress::Unsolvable
    } else {
        settled(
            levels,
            minus(capital_f, scale(factor, times(k, f))),
            minus(capital_g, scale(factor, times(k, g))),
            rounds + 1,
        )
    }
}

/// What the solver does with `f` and `g` before it needs the first quotient.
pub open spec fn started(f: Seq<int>, g: Seq<int>) -> Progress {
    let (a, b) = integer_norms(f, g);
    match integer_solution(a, b) {
        None => Progress::Unsolvable,
        Some((x, y)) => ascended(tower(f, g), seq![x], seq![y]),
    }
}

/// Each level holds the norms of the level before, in the ring of half the degree.
pub open spec fn is_tower(levels: Seq<(Seq<int>, Seq<int>)>) -> bool {
    &&& forall|i: int|
        0 <= i < levels.len() ==> {
            &&& (#[trigger] levels[i]).0.len() == levels[i].1.len()
            &&& levels[i].0.len() % 2 == 0
            &&& 2 <= levels[i].0.len() <= usize::MAX / 2
        }
    &&& forall|i: int|
        0 <= i < levels.len() - 1 ==> #[trigger] levels[i + 1] == (
            norm(levels[i].0),
            norm(levels[i].1),
        )
}

/// `f G - g F = q` modulo `X^n + 1`.
pub open spec fn solves(
    f: Seq<int>,
    g: Seq<int>,
    capital_f: Seq<int>,
    capital_g: Seq<int>,
) -> bool {
    &&& capital_f.len() == f.len()
    &&& capital_g.len() == f.len()
    &&& determinant(f, g, capital_f, capital_g) == constant(MODULUS as int, f.len())
}

/// `p` is a solution for `f` and `g`, or on the way to one.
pub open spec fn leads_to_solution(p: Progress, f: Seq<int>, g: Seq<int>) -> bool {
    match p {
        Progress::Unsolvable => true,
        Progress::Solved(capital_f, capital_g) => solves(f, g, capital_f, capital_g),
        Progress::Reducing(levels, capital_f, capital_g, rounds) => {
            let (a, b) = levels.last();
            &&& levels.len() > 0
            &&& is_tower(levels)
            &&& levels[0] == (f, g)
            &&& solves(a, b, capital_f, capital_g)
            &&& rounds <= MAX_ROUNDS
            &&& representable(joint_size(a, b))
            &&& representable(joint_size(capital_f, capital_g))
            &&& joint_size(a, b) <= joint_size(capital_f, capital_g)
        },
    }
}

proof fn lemma_tower_without_last(levels: Seq<(Seq<int>, Seq<int>)>)
    requires
        is_tower(levels),
        levels.len() > 0,
    ensures
        is_tower(levels.drop_last()),
{
    let rest = levels.drop_last();
    assert forall|i: int| 0 <= i < rest.len() implies {
        &&& (#[trigger] rest[i]).0.len() == rest[i].1.len()
        &&& rest[i].0.len() % 2 == 0
        &&& 2 <= rest[i].0.len() <= usize::MAX / 2
    } by {
        assert(rest[i] == levels[i]);
    }
    assert forall|i: int| 0 <= i < rest.len() - 1 implies #[trigger] rest[i + 1] == (
        norm(rest[i].0),
        norm(rest[i].1),
    ) by {
        assert(rest[i + 1] == levels[i + 1]);
    }
}

/// Lifting a solution leads to a solution for the topmost level.
pub proof fn lemma_ascended(
    levels: Seq<(Seq<int>, Seq<int>)>,
    f: Seq<int>,
    g: Seq<int>,
    capital_f: Seq<int>,
    capital_g: Seq<int>,
)
    requires
        is_tower(levels),
        levels.len() == 0 ==> solves(f, g, capital_f, capital_g),
        levels.len() > 0 ==> levels[0] == (f, g) && solves(
            norm(levels.last().0),
            norm(levels.last().1),
            capital_f,
            capital_g,
        ),
    ensures
        leads_to_solution(ascended(levels, capital_f, capital_g), f, g),
    decreases levels.len(), 2int,
{
    if levels.len() > 0 {
        let (a, b) = levels.last();
        assert(levels.last() == levels[levels.len() - 1]);
        lemma_norm_len(a);
        lemma_lifted_solution(a, b, capital_f, capital_g, MODULUS as int);
        lemma_partial_product_len(lifted(capital_f), adjoint(b), lifted(capital_f).len());
        lemma_partial_product_len(lifted(capital_g), adjoint(a), lifted(capital_g).len());
        lemma_settled(
            levels,
            f,
            g,
            times(lifted(capital_f), adjoint(b)),
            times(lifted(capital_g), adjoint(a)),
            0,
        );
    }
}

/// A solution for the last level leads to one for the topmost level.
pub proof fn lemma_settled(
    levels: Seq<(Seq<int>, Seq<int>)>,
    f: Seq<int>,
    g: Seq<int>,
    capital_f: Seq<int>,
    capital_g: Seq<int>,
    rounds: nat,
)
    requires
        is_tower(levels),
        levels.len() > 0,
        levels[0] == (f, g),
        solves(levels.last().0, levels.last().1, capital_f, capital_g),
        rounds <= MAX_ROUNDS,
    ensures
        leads_to_solution(settled(levels, capital_f, capital_g, rounds), f, g),
    decreases levels.len(), 1int,
{
    let rest = levels.drop_last();
    lemma_tower_without_last(levels);
    if rest.len() > 0 {
        assert(levels[rest.len() - 1 + 1] == (norm(levels[rest.len() - 1].0), norm(
            levels[rest.len() - 1].1,
        )));
        assert(rest.last() == levels[rest.len() - 1]);
    }
    let (a, b) = levels.last();
    if joint_size(capital_f, capital_g) < joint_size(a, b) {
        lemma_ascended(rest, f, g, capital_f, capital_g);
    }
}

/// Whatever the quotient is, a round of reduction keeps leading to a solution.
pub proof fn lemma_resumed(
    levels: Seq<(Seq<int>, Seq<int>)>,
    f: Seq<int>,
    g: Seq<int>,
    capital_f: Seq<int>,
    capital_g: Seq<int>,
    rounds: nat,
    k: Seq<int>,
)
    requires
        leads_to_solution(Progress::Reducing(levels, capital_f, capital_g, rounds), f, g),
        k.len() == capital_f.len(),
    ensures
        leads_to_solution(resumed(levels, capital_f, capital_g, rounds, k), f, g),
{
    let (a, b) = levels.last();
    let rest = levels.drop_last();
    let shift = joint_size(capital_f, capital_g) - joint_size(a, b);
    let factor = pow2(shift as nat) as int;
    lemma_tower_without_last(levels);
    if rest.len() > 0 {
        assert(levels[rest.len() - 1 + 1] == (norm(levels[rest.len() - 1].0), norm(
            levels[rest.len() - 1].1,
        )));
        assert(rest.last() == levels[rest.len() - 1]);
    }
    assert(levels.last() == levels[levels.len() - 1]);
    if is_zero_quotient(k) {
        lemma_ascended(rest, f, g, capital_f, capital_g);
    } else if rounds < MAX_ROUNDS && is_shiftable(times(k, a), shift) && is_shiftable(
        times(k, b),
        shift,
    ) {
        lemma_partial_product_len(k, a, k.len());
        lemma_partial_product_len(k, b, k.len());
        lemma_reduced_solution(a, b, capital_f, capital_g, k, factor);
        lemma_settled(
            levels,
            f,
            g,
            minus(capital_f, scale(factor, times(k, a))),
            minus(capital_g, scale(factor, times(k, b))),
            rounds + 1,
        );
    }
}

proof fn lemma_tower(f: Seq<int>, g: Seq<int>)
    requires
        f.len() == g.len(),
        is_power_of_two(f.len()),
        f.len() <= usize::MAX / 2,
    ensures
        is_tower(tower(f, g)),
        f.len() > 1 ==> tower(f, g).len() > 0,
        f.len() > 1 ==> tower(f, g)[0] == (f, g),
        f.len() > 1 ==> norm(tower(f, g).last().0) == seq![integer_norms(f, g).0],
        f.len() > 1 ==> norm(tower(f, g).last().1) == seq![integer_norms(f, g).1],
    decreases f.len(),
{
    if f.len() > 1 {
        let (a, b) = (norm(f), norm(g));
        lemma_norm_len(f);
        lemma_norm_len(g);
        lemma_tower(a, b);
        let rest = tower(a, b);
        let levels = tower(f, g);
        assert(forall|i: int| 0 < i < levels.len() ==> #[trigger] levels[i] == rest[i - 1]);
        if a.len() == 1 {
            assert(rest =~= seq![]);
            assert(integer_norms(a, b) == (a[0], b[0]));
            assert(a =~= seq![integer_norms(f, g).0]);
            assert(b =~= seq![integer_norms(f, g).1]);
        } else {
            assert(levels.last() == rest.last());
            assert forall|i: int| 0 <= i < levels.len() - 1 implies #[trigger] levels[i + 1] == (
                norm(levels[i].0),
                norm(levels[i].1),
            ) by {
                if i > 0 {
                    assert(rest[i - 1 + 1] == (norm(rest[i - 1].0), norm(rest[i - 1].1)));
                }
            }
        }
    }
}

pub proof fn lemma_integer_solution(a: int, b: int, x: int, y: int)
    requires
        integer_solution(a, b) == Some((x, y)),
    ensures
        solves(seq![a], seq![b], seq![x], seq![y]),
{
    let (d, u, v) = euclid(a, b);
    lemma_bezout(a, b);
    reveal_with_fuel(crate::falcon::ring::partial_product, 2);
    assert(times(seq![a], seq![y]) =~= seq![a * y]);
    assert(times(seq![b], seq![x]) =~= seq![b * x]);
    let q = MODULUS as int;
    assert(a * (u * q) - b * (-v * q) == (u * a + v * b) * q) by (nonlinear_arith);
    assert(1 * q == q);
    assert(determinant(seq![a], seq![b], seq![x], seq![y]) =~= constant(q, 1));
}

/// Solving for any `f` and `g` of the same degree leads to a solution.
pub proof fn lemma_started(f: Seq<int>, g: Seq<int>)
    requires
        f.len() == g.len(),
        is_power_of_two(f.len()),
        f.len() <= usize::MAX / 2,
    ensures
        leads_to_solution(started(f, g), f, g),
{
    let (a, b) = integer_norms(f, g);
    if let Some((x, y)) = integer_solution(a, b) {
        lemma_tower(f, g);
        lemma_integer_solution(a, b, x, y);
        if f.len() == 1 {
            assert(f =~= seq![a]);
            assert(g =~= seq![b]);
        }
        lemma_ascended(tower(f, g), f, g, seq![x], seq![y]);
    }
}

/// A polynomial and its partner at one degree.
type Level = (Polynomial<BigInt>, Polynomial<BigInt>);

closed spec fn level_view(level: Level) -> (Seq<int>, Seq<int>) {
    (level.0@, level.1@)
}

closed spec fn levels_view(levels: Seq<Level>) -> Seq<(Seq<int>, Seq<int>)> {
    levels.map_values(|l: Level| level_view(l))
}

/// A solver that waits for a quotient.
pub struct NtruSolver {
    levels: Vec<Level>,
    capital_f: Polynomial<BigInt>,
    capital_g: Polynomial<BigInt>,
    rounds: u32,
}

/// The numbers from which the quotient is to be computed: the leading bits of `f`, `g`, `F` and
/// `G`. Asked for is `(F f* + G g*) / (f f* + g g*)`, each coefficient rounded, where `f*` is
/// `f(1 / X)`.
pub struct QuotientRequest {
    pub f: Vec<i64>,
    pub g: Vec<i64>,
    pub capital_f: Vec<i64>,
    pub capital_g: Vec<i64>,
}

/// What the solver has come to.
pub enum NtruStep {
    /// There is no solution, or none was found.
    Unsolvable,
    /// The solution `(F, G)`.
    Solved(Polynomial<BigInt>, Polynomial<BigInt>),
    /// The solver needs a quotient to go on.
    Quotient(NtruSolver, QuotientRequest),
}

impl View for NtruSolver {
    type V = Progress;

    closed spec fn view(&self) -> Progress {
        Progress::Reducing(
            levels_view(self.levels@),
            self.capital_f@,
            self.capital_g@,
            self.rounds as nat,
        )
    }
}

impl NtruSolver {
    /// The polynomials `f` and `g` of the equation that is being solved.
    pub open spec fn target(&self) -> (Seq<int>, Seq<int>) {
        match self@ {
            Progress::Reducing(levels, _, _, _) => levels[0],
            _ => (seq![], seq![]),
        }
    }

    /// The solver is on the way to a solution.
    pub open spec fn is_well_formed(&self) -> bool {
        &&& self@ is Reducing
        &&& leads_to_solution(self@, self.target().0, self.target().1)
    }

    /// `request` holds the leading bits of the polynomials that are being reduced.
    pub open spec fn asks_for(&self, request: QuotientRequest) -> bool {
        match self@ {
            Progress::Reducing(levels, capital_f, capital_g, _) => {
                let (f, g) = levels.last();
                let size = joint_size(f, g);
                let capital_size = joint_size(capital_f, capital_g);
                &&& request.f@ == leading_bits(f, size)
                &&& request.g@ == leading_bits(g, size)
                &&& request.capital_f@ == leading_bits(capital_f, capital_size)
                &&& request.capital_g@ == leading_bits(capital_g, capital_size)
            },
            _ => false,
        }
    }

    /// The degree for which a quotient is needed.
    pub open spec fn degree(&self) -> nat {
        match self@ {
            Progress::Reducing(_, capital_f, _, _) => capital_f.len(),
            _ => 0,
        }
    }
}

impl View for NtruStep {
    type V = Progress;

    open spec fn view(&self) -> Progress {
        match *self {
            NtruStep::Unsolvable => Progress::Unsolvable,
            NtruStep::Solved(capital_f, capital_g) => Progress::Solved(capital_f@, capital_g@),
            NtruStep::Quotient(solver, _) => solver@,
        }
    }
}

impl NtruStep {
    /// What is asked for are the leading bits of the polynomials that are being reduced.
    pub open spec fn asks_for_quotient(&self) -> bool {
        self matches NtruStep::Quotient(solver, request) ==> solver.asks_for(*request)
    }
}

/// Lifts the solution for the norms of the last level to that level.
fn ascend(
    levels: Vec<Level>,
    capital_f: Polynomial<BigInt>,
    capital_g: Polynomial<BigInt>,
) -> (r: NtruStep)
    requires
        is_tower(levels_view(levels@)),
        capital_f@.len() == capital_g@.len(),
        levels@.len() > 0 ==> 2 * capital_f@.len() == levels@.last().0@.len(),
    ensures
        r@ == ascended(levels_view(levels@), capital_f@, capital_g@),
        r.asks_for_quotient(),
    decreases levels@.len(), 2int,
{
    let count = levels.len();
    if count == 0 {
        return NtruStep::Solved(capital_f, capital_g);
    }
    let (f, g) = &levels[count - 1];
    proof {
        lemma_level(levels@, count - 1);
        lemma_partial_product_len(lifted(capital_f@), adjoint(g@), lifted(capital_f@).len());
        lemma_partial_product_len(lifted(capital_g@), adjoint(f@), lifted(capital_g@).len());
    }
    let lifted_f = capital_f.lift_next_cyclotomic();
    let lifted_g = capital_g.lift_next_cyclotomic();
    let adjoint_f = f.galois_adjoint();
    let adjoint_g = g.galois_adjoint();
    let next_f = lifted_f.times(&adjoint_g);
    let next_g = lifted_g.times(&adjoint_f);
    settle(levels, next_f, next_g, 0)
}

proof fn lemma_level(levels: Seq<Level>, i: int)
    requires
        is_tower(levels_view(levels)),
        0 <= i < levels.len(),
    ensures
        levels_view(levels)[i] == (levels[i].0@, levels[i].1@),
        levels[i].0@.len() == levels[i].1@.len(),
        2 <= levels[i].0@.len() <= usize::MAX / 2,
        levels[i].0@.len() % 2 == 0,
        i > 0 ==> levels[i].0@.len() == levels[i - 1].0@.len() / 2,
{
    assert(levels_view(levels)[i] == (levels[i].0@, levels[i].1@));
    if i > 0 {
        let before = levels_view(levels)[i - 1];
        assert(before == (levels[i - 1].0@, levels[i - 1].1@));
        assert(levels_view(levels)[i - 1 + 1] == (norm(before.0), norm(before.1)));
        lemma_norm_len(before.0);
    }
}

/// Goes on with the level above if `(F, G)` is small enough, and asks for a quotient if not.
fn settle(
    levels: Vec<Level>,
    capital_f: Polynomial<BigInt>,
    capital_g: Polynomial<BigInt>,
    rounds: u32,
) -> (r: NtruStep)
    requires
        is_tower(levels_view(levels@)),
        levels@.len() > 0,
        capital_f@.len() == levels@.last().0@.len(),
        capital_g@.len() == levels@.last().0@.len(),
    ensures
        r@ == settled(levels_view(levels@), capital_f@, capital_g@, rounds as nat),
        r.asks_for_quotient(),
    decreases levels@.len(), 1int,
{
    let count = levels.len();
    let (f, g) = &levels[count - 1];
    proof {
        lemma_level(levels@, count - 1);
        assert(levels_view(levels@).last() == (f@, g@));
    }
    match (larger_size(f, g), larger_size(&capital_f, &capital_g)) {
        (Some(size), Some(capital_size)) => {
            if capital_size < size {
                return leave_level(levels, capital_f, capital_g);
            }
            let request = QuotientRequest {
                f: f.leading(size),
                g: g.leading(size),
                capital_f: capital_f.leading(capital_size),
                capital_g: capital_g.leading(capital_size),
            };
            let solver = NtruSolver { levels, capital_f, capital_g, rounds };
            NtruStep::Quotient(solver, request)
        },
        _ => NtruStep::Unsolvable,
    }
}

/// Goes on with the level above the last.
fn leave_level(
    levels: Vec<Level>,
    capital_f: Polynomial<BigInt>,
    capital_g: Polynomial<BigInt>,
) -> (r: NtruStep)
    requires
        is_tower(levels_view(levels@)),
        levels@.len() > 0,
        capital_f@.len() == levels@.last().0@.len(),
        capital_g@.len() == levels@.last().0@.len(),
    ensures
        r@ == ascended(levels_view(levels@).drop_last(), capital_f@, capital_g@),
        r.asks_for_quotient(),
    decreases levels@.len(), 0int,
{
    let mut levels = levels;
    let ghost before = levels@;
    proof {
        lemma_tower_without_last(levels_view(before));
        lemma_level(before, before.len() - 1);
        if before.len() > 1 {
            lemma_level(before, before.len() - 2);
        }
    }
    levels.pop();
    assert(levels_view(levels@) =~= levels_view(before).drop_last());
    ascend(levels, capital_f, capital_g)
}

/// The integers of a quotient.
pub open spec fn integers(k: Seq<i64>) -> Seq<int> {
    k.map_values(|c: i64| c as int)
}

fn polynomial_of(k: &Vec<i64>) -> (r: Polynomial<BigInt>)
    ensures
        r@ == integers(k@),
{
    let mut r: Vec<BigInt> = Vec::new();
    for i in 0..k.len()
        invariant
            values(r@) =~= integers(k@).take(i as int),
    {
        r.push(from_i64(k[i]));
    }
    assert(values(r@) =~= integers(k@));
    Polynomial::new(r)
}

impl NtruSolver {
    /// Goes on with the quotient `k` that was asked for: subtracts that multiple of `(f, g)`, and
    /// reduces further or goes on with the level above.
    pub fn babai_reduce(self, k: &Vec<i64>) -> (r: NtruStep)
        requires
            self.is_well_formed(),
            k@.len() == self.degree(),
        ensures
            self@ matches Progress::Reducing(levels, capital_f, capital_g, rounds) ==> r@
                == resumed(levels, capital_f, capital_g, rounds, integers(k@)),
            leads_to_solution(r@, self.target().0, self.target().1),
            r.asks_for_quotient(),
    {
        let NtruSolver { levels, capital_f, capital_g, rounds } = self;
        let ghost view = levels_view(levels@);
        let ghost target = view[0];
        let ghost (big_f, big_g) = (capital_f@, capital_g@);
        let count = levels.len();
        let (f, g) = &levels[count - 1];
        proof {
            lemma_level(levels@, count - 1);
            assert(view.last() == (f@, g@));
            lemma_resumed(
                view,
                target.0,
                target.1,
                capital_f@,
                capital_g@,
                rounds as nat,
                integers(k@),
            );
        }
        let k = polynomial_of(k);
        if k.is_zero() {
            return leave_level(levels, capital_f, capital_g);
        }
        if rounds >= MAX_ROUNDS {
            return NtruStep::Unsolvable;
        }
        match (larger_size(f, g), larger_size(&capital_f, &capital_g)) {
            (Some(size), Some(capital_size)) => {
                let shift = capital_size - size;
                proof {
                    lemma_partial_product_len(k@, f@, k@.len());
                    lemma_partial_product_len(k@, g@, k@.len());
                }
                let kf = k.times(f);
                let kg = k.times(g);
                if !kf.can_be_shifted(shift) || !kg.can_be_shifted(shift) {
                    return NtruStep::Unsolvable;
                }
                let kf = kf.shifted(shift);
                let kg = kg.shifted(shift);
                let next_f = capital_f.minus(&kf);
                let next_g = capital_g.minus(&kg);
                settle(levels, next_f, next_g, rounds + 1)
            },
            _ => NtruStep::Unsolvable,
        }
    }
}

/// Solves the NTRU equation. Given `f` and `g`, finds `F` and `G` such that
/// `f G - g F = q` modulo `X^n + 1`.
///
/// The solver may need quotients; each goes to `NtruSolver::babai_reduce`.
pub fn ntru_solve(f: &Polynomial<BigInt>, g: &Polynomial<BigInt>) -> (r: NtruStep)
    requires
        f@.len() == g@.len(),
        is_power_of_two(f@.len()),
        f@.len() <= usize::MAX / 2,
    ensures
        r@ == started(f@, g@),
        leads_to_solution(r@, f@, g@),
        r.asks_for_quotient(),
        is_ordinary(f@, g@) ==> (r is Unsolvable <==> !are_coprime(
            integer_norms(f@, g@).0,
            integer_norms(f@, g@).1,
        )),
{
    proof {
        if is_ordinary(f@, g@) {
            law_coprime_norms_are_solved(f@, g@);
        }
        lemma_started(f@, g@);
        lemma_tower(f@, g@);
    }
    let mut levels: Vec<Level> = Vec::new();
    let mut last_f = f.duplicate();
    let mut last_g = g.duplicate();
    assert(levels_view(levels@) + tower(last_f@, last_g@) =~= tower(f@, g@));
    while last_f.coefficients.len() > 1
        invariant
            last_f@.len() == last_g@.len(),
            is_power_of_two(last_f@.len()),
            last_f@.len() <= usize::MAX / 2,
            levels_view(levels@) + tower(last_f@, last_g@) == tower(f@, g@),
            integer_norms(last_f@, last_g@) == integer_norms(f@, g@),
            levels@.len() == 0 ==> f@.len() == last_f@.len(),
            levels@.len() > 0 ==> 2 * last_f@.len() == levels@.last().0@.len(),
        decreases last_f@.len(),
    {
        let next_f = last_f.field_norm();
        let next_g = last_g.field_norm();
        proof {
            lemma_norm_len(last_f@);
            lemma_norm_len(last_g@);
            assert(levels_view(levels@.push((last_f, last_g))) =~= levels_view(levels@).push(
                (last_f@, last_g@),
            ));
            assert(levels_view(levels@).push((last_f@, last_g@)) + tower(next_f@, next_g@)
                =~= levels_view(levels@) + tower(last_f@, last_g@));
        }
        levels.push((last_f, last_g));
        last_f = next_f;
        last_g = next_g;
    }
    assert(tower(last_f@, last_g@) =~= seq![]);
    assert(levels_view(levels@) =~= tower(f@, g@));
    let (gcd, u, v) = xgcd(&last_f.coefficients[0], &last_g.coefficients[0]);
    if !equal(&gcd, &from_i64(1)) {
        return NtruStep::Unsolvable;
    }
    let q = from_i64(MODULUS as i64);
    let mut capital_f: Vec<BigInt> = Vec::new();
    capital_f.push(product(&negation(&v), &q));
    let mut capital_g: Vec<BigInt> = Vec::new();
    capital_g.push(product(&u, &q));
    let capital_f = Polynomial::new(capital_f);
    let capital_g = Polynomial::new(capital_g);
    proof {
        let (a, b) = integer_norms(f@, g@);
        let (x, y) = integer_solution(a, b)->0;
        assert(capital_f@ =~= seq![x]);
        assert(capital_g@ =~= seq![y]);
    }
    ascend(levels, capital_f, capital_g)
}

} // verus!
