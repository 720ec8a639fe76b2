//! Inversion in a field, one element at a time or a batch at once.
use vstd::prelude::*;

verus! {

/// A field with exact arithmetic.
///
/// The spec functions describe the field and the proof functions are its laws; the executable
/// functions compute in it.
pub trait Field: Copy {
    /// Whether a value of the type represents an element of the field.
    spec fn is_element(self) -> bool;

    spec fn zero_element() -> Self;

    spec fn one_element() -> Self;

    spec fn times(self, other: Self) -> Self;

    /// The multiplicative inverse, or zero for zero.
    spec fn inverse(self) -> Self;

    proof fn law_constants()
        ensures
            Self::zero_element().is_element(),
            Self::one_element().is_element(),
            Self::zero_element() != Self::one_element(),
    ;

    proof fn law_times_commutative(a: Self, b: Self)
        requires
            a.is_element(),
            b.is_element(),
        ensures
            a.times(b).is_element(),
            a.times(b) == b.times(a),
    ;

    proof fn law_times_associative(a: Self, b: Self, c: Self)
        requires
            a.is_element(),
            b.is_element(),
            c.is_element(),
        ensures
            a.times(b).times(c) == a.times(b.times(c)),
    ;

    proof fn law_times_constants(a: Self)
        requires
            a.is_element(),
        ensures
            a.times(Self::one_element()) == a,
            a.times(Self::zero_element()) == Self::zero_element(),
    ;

    proof fn law_inverse(a: Self)
        requires
            a.is_element(),
        ensures
            a.inverse().is_element(),
            a == Self::zero_element() ==> a.inverse() == Self::zero_element(),
            a != Self::zero_element() ==> a.times(a.inverse()) == Self::one_element(),
    ;

    fn zero() -> (r: Self)
        ensures
            r == Self::zero_element(),
    ;

    fn one() -> (r: Self)
        ensures
            r == Self::one_element(),
    ;

    fn is_zero(&self) -> (r: bool)
        ensures
            r == (*self == Self::zero_element()),
    ;

    fn multiply(self, other: Self) -> (r: Self)
        requires
            self.is_element(),
            other.is_element(),
        ensures
            r == self.times(other),
    ;
}

/// The product of those of the first `n` elements that are not zero.
pub open spec fn product_of_nonzeros<F: Field>(batch: Seq<F>, n: nat) -> F
    decreases n,
{
    if n == 0 {
        F::one_element()
    } else {
        let before = product_of_nonzeros(batch, (n - 1) as nat);
        if batch[n - 1] == F::zero_element() {
            before
        } else {
            batch[n - 1].times(before)
        }
    }
}

proof fn lemma_product_of_nonzeros<F: Field>(batch: Seq<F>, n: nat)
    requires
        n <= batch.len(),
        forall|j: int| 0 <= j < batch.len() ==> (#[trigger] batch[j]).is_element(),
    ensures
        product_of_nonzeros(batch, n).is_element(),
    decreases n,
{
    if n == 0 {
        F::law_constants();
    } else {
        lemma_product_of_nonzeros(batch, (n - 1) as nat);
        F::law_times_commutative(batch[n - 1], product_of_nonzeros(batch, (n - 1) as nat));
    }
}

/// A product of elements other than zero is not zero.
pub proof fn lemma_product_is_not_zero<F: Field>(a: F, b: F)
    requires
        a.is_element(),
        b.is_element(),
        a != F::zero_element(),
        b != F::zero_element(),
    ensures
        a.times(b) != F::zero_element(),
{
    F::law_inverse(a);
    F::law_times_commutative(a, a.inverse());
    F::law_times_associative(a.inverse(), a, b);
    F::law_times_constants(a.inverse());
    F::law_constants();
    F::law_times_commutative(F::one_element(), b);
    F::law_times_constants(b);
}

/// An element has only one inverse.
pub proof fn lemma_inverse_is_unique<F: Field>(a: F, b: F)
    requires
        a.is_element(),
        b.is_element(),
        a.times(b) == F::one_element(),
    ensures
        b == a.inverse(),
{
    F::law_constants();
    F::law_inverse(a);
    if a == F::zero_element() {
        F::law_times_commutative(a, b);
        F::law_times_constants(b);
    } else {
        F::law_times_constants(b);
        F::law_times_associative(b, a, a.inverse());
        F::law_times_commutative(a, b);
        F::law_times_commutative(F::one_element(), a.inverse());
        F::law_times_constants(a.inverse());
    }
}

/// Elements of a field that can be inverted.
pub trait Inverse: Field {
    /// Gets the inverse of a, or zero if it is zero.
    fn inverse_or_zero(self) -> (r: Self)
        requires
            self.is_element(),
        ensures
            r == self.inverse(),
    ;

    /// Gets the inverses of a batch of elements, with a single inversion; zeros stay zero.
    fn batch_inverse_or_zero(batch: &[Self]) -> (r: Vec<Self>)
        requires
            forall|i: int| 0 <= i < batch@.len() ==> (#[trigger] batch@[i]).is_element(),
        ensures
            r@.len() == batch@.len(),
            forall|i: int| 0 <= i < batch@.len() ==> #[trigger] r@[i] == batch@[i].inverse(),
    {
        let n = batch.len();
        let mut acc = Self::one();
        let mut rp: Vec<Self> = Vec::with_capacity(n);
        proof {
            Self::law_constants();
        }
        for i in 0..n
            invariant
                n == batch@.len(),
                forall|j: int| 0 <= j < batch@.len() ==> (#[trigger] batch@[j]).is_element(),
                acc == product_of_nonzeros(batch@, i as nat),
                acc.is_element(),
                acc != Self::zero_element(),
                rp@.len() == i,
                forall|j: int|
                    0 <= j < i ==> #[trigger] rp@[j] == (if batch@[j] == Self::zero_element() {
                        Self::zero_element()
                    } else {
                        product_of_nonzeros(batch@, j as nat)
                    }),
        {
            if !batch[i].is_zero() {
                rp.push(acc);
                proof {
                    Self::law_times_commutative(batch@[i as int], acc);
                    lemma_product_is_not_zero(batch@[i as int], acc);
                }
                acc = batch[i].multiply(acc);
            } else {
                rp.push(Self::zero());
            }
        }
        let mut inv = acc.inverse_or_zero();
        proof {
            Self::law_inverse(acc);
            Self::law_times_commutative(acc, inv);
        }
        let mut i = n;
        while i > 0
            invariant
                n == batch@.len(),
                i <= n,
                forall|j: int| 0 <= j < batch@.len() ==> (#[trigger] batch@[j]).is_element(),
                inv.is_element(),
                inv.times(product_of_nonzeros(batch@, i as nat)) == Self::one_element(),
                rp@.len() == n,
                forall|j: int|
                    0 <= j < i ==> #[trigger] rp@[j] == (if batch@[j] == Self::zero_element() {
                        Self::zero_element()
                    } else {
                        product_of_nonzeros(batch@, j as nat)
                    }),
                forall|j: int| i <= j < n ==> #[trigger] rp@[j] == batch@[j].inverse(),
            decreases i,
        {
            i = i - 1;
            proof {
                lemma_product_of_nonzeros(batch@, i as nat);
                Self::law_inverse(batch@[i as int]);
            }
            if !batch[i].is_zero() {
                let item = batch[i];
                let prefix = rp[i];
                proof {
                    Self::law_times_associative(inv, item, prefix);
                    Self::law_times_commutative(inv, item);
                    Self::law_times_commutative(prefix, inv);
                    Self::law_times_associative(item, inv, prefix);
                    Self::law_times_commutative(inv, prefix);
                    lemma_inverse_is_unique(item, prefix.times(inv));
                }
                let inverse = prefix.multiply(inv);
                rp.set(i, inverse);
                inv = inv.multiply(item);
            }
        }
        rp
    }
}

} // verus!
