//! The reduction of `(F, G)` by `(f, g)` at one degree, from its first round to its last.
use crate::falcon::ntru::{
    ascended, is_zero_quotient, resumed, settled, NtruSolver, Progress, QuotientRequest, MAX_ROUNDS,
};
use crate::falcon::polynomial::is_shiftable;
use crate::falcon::ring::{adjoint, lemma_partial_product_len, lifted, minus, scale, times};
use crate::falcon::size::{joint_size, leading_bits, representable};
use vstd::arithmetic::power2::pow2;
use vstd::prelude::*;

verus! {

/// A rule by which requests for quotients are answered: it goes by the leading bits of `f`, `g`,
/// `F` and `G`.
pub type QuotientRule = spec_fn(Seq<i64>, Seq<i64>, Seq<i64>, Seq<i64>) -> Seq<int>;

/// The answer to the request that is made for `f`, `g`, `F` and `G`.
pub open spec fn quotient_for(
    rule: QuotientRule,
    f: Seq<int>,
    g: Seq<int>,
    capital_f: Seq<int>,
    capital_g: Seq<int>,
) -> Seq<int> {
    let size = joint_size(f, g);
    let capital_size = joint_size(capital_f, capital_g);
    rule(
        leading_bits(f, size),
        leading_bits(g, size),
        leading_bits(capital_f, capital_size),
        leading_bits(capital_g, capital_size),
    )
}

/// What becomes of `(F, G)` after so many rounds: it is reduced by `(f, g)` until it is smaller or
/// the quotient is zero, and given up if that takes too many rounds or too much memory.
pub open spec fn reduction(
    rule: QuotientRule,
    f: Seq<int>,
    g: Seq<int>,
    capital_f: Seq<int>,
    capital_g: Seq<int>,
    rounds: nat,
) -> Option<(Seq<int>, Seq<int>)>
    decreases MAX_ROUNDS - rounds,
{
    let size = joint_size(f, g);
    let capital_size = joint_size(capital_f, capital_g);
    let k = quotient_for(rule, f, g, capital_f, capital_g);
    let factor = pow2((capital_size - size) as nat) as int;
    if !representable(size) || !representable(capital_size) {
        None
    } else if capital_size < size || is_zero_quotient(k) {
        Some((capital_f, capital_g))
    } else if rounds >= MAX_ROUNDS || !is_shiftable(times(k, f), capital_size - size)
        || !is_shiftable(times(k, g), capital_size - size) {
        None
    } else {
        reduction(
            rule,
            f,
            g,
            minus(capital_f, scale(factor, times(k, f))),
            minus(capital_g, scale(factor, times(k, g))),
            rounds + 1,
        )
    }
}

/// A second reduction changes nothing: what a reduction has come to is not reduced further.
pub proof fn law_reduction_is_final(
    rule: QuotientRule,
    f: Seq<int>,
    g: Seq<int>,
    capital_f: Seq<int>,
    capital_g: Seq<int>,
    rounds: nat,
)
    requires
        reduction(rule, f, g, capital_f, capital_g, rounds) is Some,
    ensures
        ({
            let reduced = reduction(rule, f, g, capital_f, capital_g, rounds);
            reduction(rule, f, g, reduced->Some_0.0, reduced->Some_0.1, 0) == reduced
        }),
    decreases MAX_ROUNDS - rounds,
{
    let size = joint_size(f, g);
    let capital_size = joint_size(capital_f, capital_g);
    let k = quotient_for(rule, f, g, capital_f, capital_g);
    let factor = pow2((capital_size - size) as nat) as int;
    if capital_size >= size && !is_zero_quotient(k) {
        law_reduction_is_final(
            rule,
            f,
            g,
            minus(capital_f, scale(factor, times(k, f))),
            minus(capital_g, scale(factor, times(k, g))),
            rounds + 1,
        );
    }
}

/// What the solver comes to when its requests at the last of the levels are answered by a rule.
pub open spec fn answered(
    rule: QuotientRule,
    levels: Seq<(Seq<int>, Seq<int>)>,
    capital_f: Seq<int>,
    capital_g: Seq<int>,
    rounds: nat,
) -> Progress
    decreases MAX_ROUNDS - rounds,
{
    let (f, g) = levels.last();
    let k = quotient_for(rule, f, g, capital_f, capital_g);
    let next = resumed(levels, capital_f, capital_g, rounds, k);
    match next {
        Progress::Reducing(same_levels, next_f, next_g, next_rounds) => if same_levels == levels
            && next_rounds == rounds + 1 && rounds < MAX_ROUNDS {
            answered(rule, levels, next_f, next_g, next_rounds)
        } else {
            next
        },
        _ => next,
    }
}

/// Going up, the solver waits at none but the levels that are left.
pub proof fn lemma_ascended_waits_above(
    levels: Seq<(Seq<int>, Seq<int>)>,
    capital_f: Seq<int>,
    capital_g: Seq<int>,
)
    ensures
        ascended(levels, capital_f, capital_g) matches Progress::Reducing(left, _, _, _)
            ==> left.len() <= levels.len(),
    decreases levels.len(),
{
    if levels.len() > 0 {
        let (f, g) = levels.last();
        let next_f = times(lifted(capital_f), adjoint(g));
        let next_g = times(lifted(capital_g), adjoint(f));
        lemma_ascended_waits_above(levels.drop_last(), next_f, next_g);
        assert(ascended(levels, capital_f, capital_g) == settled(levels, next_f, next_g, 0));
    }
}

/// The solver reduces: with its requests answered by a rule, it goes up from a level with what
/// the reduction there comes to, or gives up with it.
pub proof fn law_solver_reduces(
    rule: QuotientRule,
    levels: Seq<(Seq<int>, Seq<int>)>,
    capital_f: Seq<int>,
    capital_g: Seq<int>,
    rounds: nat,
)
    requires
        levels.len() > 0,
        settled(levels, capital_f, capital_g, rounds) == Progress::Reducing(
            levels,
            capital_f,
            capital_g,
            rounds,
        ),
    ensures
        answered(rule, levels, capital_f, capital_g, rounds) == (match reduction(
            rule,
            levels.last().0,
            levels.last().1,
            capital_f,
            capital_g,
            rounds,
        ) {
            Some((reduced_f, reduced_g)) => ascended(levels.drop_last(), reduced_f, reduced_g),
            None => Progress::Unsolvable,
        }),
    decreases MAX_ROUNDS - rounds,
{
    let (f, g) = levels.last();
    let size = joint_size(f, g);
    let capital_size = joint_size(capital_f, capital_g);
    lemma_ascended_waits_above(levels.drop_last(), capital_f, capital_g);
    assert(representable(size) && representable(capital_size) && capital_size >= size) by {
        if representable(size) && representable(capital_size) && capital_size < size {
            assert(settled(levels, capital_f, capital_g, rounds) == ascended(
                levels.drop_last(),
                capital_f,
                capital_g,
            ));
        }
    }
    let k = quotient_for(rule, f, g, capital_f, capital_g);
    let factor = pow2((capital_size - size) as nat) as int;
    if !is_zero_quotient(k) && rounds < MAX_ROUNDS && is_shiftable(times(k, f), capital_size - size)
        && is_shiftable(times(k, g), capital_size - size) {
        let next_f = minus(capital_f, scale(factor, times(k, f)));
        let next_g = minus(capital_g, scale(factor, times(k, g)));
        let next = settled(levels, next_f, next_g, rounds + 1);
        lemma_ascended_waits_above(levels.drop_last(), next_f, next_g);
        if next == Progress::Reducing(levels, next_f, next_g, rounds + 1) {
            law_solver_reduces(rule, levels, next_f, next_g, rounds + 1);
        }
    }
}

/// One round of reduction, for any quotient `k` that is not zero: `F` and `G` lose `2^s k f` and
/// `2^s k g`, where `s` is the difference of the sizes. Up to the 1000th round it is not given up,
/// after that it is. The reduction goes on at the same level while `(F, G)` is not smaller than
/// `(f, g)`.
pub proof fn law_round(
    levels: Seq<(Seq<int>, Seq<int>)>,
    capital_f: Seq<int>,
    capital_g: Seq<int>,
    rounds: nat,
    k: Seq<int>,
)
    requires
        levels.len() > 0,
        levels.last().0.len() == k.len(),
        levels.last().1.len() == k.len(),
        capital_f.len() == k.len(),
        capital_g.len() == k.len(),
        exists|i: int| 0 <= i < k.len() && k[i] != 0,
        joint_size(levels.last().0, levels.last().1) <= joint_size(capital_f, capital_g),
    ensures
        ({
            let (f, g) = levels.last();
            let shift = joint_size(capital_f, capital_g) - joint_size(f, g);
            let factor = pow2(shift as nat);
            let next_f = Seq::new(k.len(), |i: int| capital_f[i] - factor * times(k, f)[i]);
            let next_g = Seq::new(k.len(), |i: int| capital_g[i] - factor * times(k, g)[i]);
            let fits = is_shiftable(times(k, f), shift) && is_shiftable(times(k, g), shift)
                && representable(joint_size(f, g)) && representable(joint_size(next_f, next_g));
            let p = resumed(levels, capital_f, capital_g, rounds, k);
            &&& rounds >= 1000 ==> p is Unsolvable
            &&& rounds < 1000 && fits && joint_size(next_f, next_g) >= joint_size(f, g) ==> p
                == Progress::Reducing(levels, next_f, next_g, rounds + 1)
            &&& rounds < 1000 && fits && joint_size(next_f, next_g) < joint_size(f, g) ==> p
                == ascended(levels.drop_last(), next_f, next_g)
        }),
{
    let (f, g) = levels.last();
    let shift = joint_size(capital_f, capital_g) - joint_size(f, g);
    let factor = pow2(shift as nat);
    lemma_partial_product_len(k, f, k.len());
    lemma_partial_product_len(k, g, k.len());
    let next_f = Seq::new(k.len(), |i: int| capital_f[i] - factor * times(k, f)[i]);
    let next_g = Seq::new(k.len(), |i: int| capital_g[i] - factor * times(k, g)[i]);
    assert(minus(capital_f, scale(factor as int, times(k, f))) =~= next_f);
    assert(minus(capital_g, scale(factor as int, times(k, g))) =~= next_g);
    assert(!is_zero_quotient(k));
}

/// A quotient of zeros ends the reduction at a level, and leaves `F` and `G` as they are.
pub proof fn law_zero_quotient(
    levels: Seq<(Seq<int>, Seq<int>)>,
    capital_f: Seq<int>,
    capital_g: Seq<int>,
    rounds: nat,
    k: Seq<int>,
)
    requires
        levels.len() > 0,
        forall|i: int| 0 <= i < k.len() ==> k[i] == 0,
    ensures
        resumed(levels, capital_f, capital_g, rounds, k) == ascended(
            levels.drop_last(),
            capital_f,
            capital_g,
        ),
        levels.len() == 1 ==> resumed(levels, capital_f, capital_g, rounds, k) == Progress::Solved(
            capital_f,
            capital_g,
        ),
{
    assert(is_zero_quotient(k));
}

/// A solution is lifted to the next level as `F(X^2) g(-X)` and `G(X^2) f(-X)`. It is reduced there
/// unless it is smaller than `(f, g)` already; above the topmost level it is the result.
pub proof fn law_lift(
    levels: Seq<(Seq<int>, Seq<int>)>,
    capital_f: Seq<int>,
    capital_g: Seq<int>,
)
    ensures
        levels.len() == 0 ==> ascended(levels, capital_f, capital_g) == Progress::Solved(
            capital_f,
            capital_g,
        ),
        levels.len() > 0 ==> {
            let (f, g) = levels.last();
            let next_f = times(lifted(capital_f), adjoint(g));
            let next_g = times(lifted(capital_g), adjoint(f));
            let (size, next_size) = (joint_size(f, g), joint_size(next_f, next_g));
            &&& size <= i64::MAX && next_size <= i64::MAX && size <= next_size ==> ascended(
                levels,
                capital_f,
                capital_g,
            ) == Progress::Reducing(levels, next_f, next_g, 0)
            &&& size <= i64::MAX && next_size < size ==> ascended(levels, capital_f, capital_g)
                == ascended(levels.drop_last(), next_f, next_g)
        },
{
}

/// What is asked for, at every degree: the leading bits of `f`, `g`, `F` and `G`, each pair by its
/// own size.
pub proof fn law_request(solver: NtruSolver, request: QuotientRequest)
    requires
        solver.is_well_formed(),
        solver.asks_for(request),
    ensures
        solver@ matches Progress::Reducing(levels, capital_f, capital_g, _) && {
            let (f, g) = levels.last();
            &&& request.f@ == leading_bits(f, joint_size(f, g))
            &&& request.g@ == leading_bits(g, joint_size(f, g))
            &&& request.capital_f@ == leading_bits(capital_f, joint_size(capital_f, capital_g))
            &&& request.capital_g@ == leading_bits(capital_g, joint_size(capital_f, capital_g))
            &&& solver.degree() == request.f@.len()
            &&& solver.degree() == request.capital_f@.len()
        },
{
}

} // verus!
