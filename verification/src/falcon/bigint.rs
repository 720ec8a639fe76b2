//! The operations on `num::BigInt` that key generation uses, specified over the integers.
use num::BigInt;
use vstd::arithmetic::power2::pow2;
use vstd::prelude::*;

verus! {

/// `num::BigInt`, a signed sequence of digits of any length.
#[verifier::external_type_specification]
#[verifier::external_body]
pub struct ExBigInt(num::BigInt);

/// The integer that the digits and the sign of a `num::BigInt` hold.
pub uninterp spec fn value(x: BigInt) -> int;

/// The integers that a sequence of `BigInt` holds.
pub open spec fn values(s: Seq<BigInt>) -> Seq<int> {
    s.map_values(|c: BigInt| value(c))
}

/// Appending a `BigInt` appends its value.
pub broadcast proof fn lemma_values_push(s: Seq<BigInt>, c: BigInt)
    ensures
        #[trigger] values(s.push(c)) == values(s).push(value(c)),
{
    assert(values(s.push(c)) =~= values(s).push(value(c)));
}

/// `a` divided by `b`, rounded toward zero.
pub open spec fn quotient_toward_zero(a: int, b: int) -> int {
    if a >= 0 {
        a / b
    } else {
        -((-a) / b)
    }
}

/// The number of binary digits of `a`, zero for zero.
pub open spec fn bit_length(a: nat) -> nat
    decreases a,
{
    if a == 0 {
        0
    } else {
        1 + bit_length(a / 2)
    }
}

/// The absolute value.
pub open spec fn magnitude(a: int) -> nat {
    if a >= 0 {
        a as nat
    } else {
        (-a) as nat
    }
}

/// `BigInt::from(i64)`: the value is that of the argument.
#[verifier::external_body]
pub(crate) fn from_i64(a: i64) -> (r: BigInt)
    ensures
        value(r) == a,
{
    BigInt::from(a)
}

/// `BigInt::clone`: the copy has the same value.
#[verifier::external_body]
pub(crate) fn copy(a: &BigInt) -> (r: BigInt)
    ensures
        value(r) == value(*a),
{
    a.clone()
}

/// `&BigInt == &BigInt`: whether the two values are equal.
#[verifier::external_body]
pub(crate) fn equal(a: &BigInt, b: &BigInt) -> (r: bool)
    ensures
        r == (value(*a) == value(*b)),
{
    a == b
}

/// `&BigInt + &BigInt`: the sum.
#[verifier::external_body]
pub(crate) fn sum(a: &BigInt, b: &BigInt) -> (r: BigInt)
    ensures
        value(r) == value(*a) + value(*b),
{
    a + b
}

/// `&BigInt - &BigInt`: the difference.
#[verifier::external_body]
pub(crate) fn difference(a: &BigInt, b: &BigInt) -> (r: BigInt)
    ensures
        value(r) == value(*a) - value(*b),
{
    a - b
}

/// `&BigInt * &BigInt`: the product.
#[verifier::external_body]
pub(crate) fn product(a: &BigInt, b: &BigInt) -> (r: BigInt)
    ensures
        value(r) == value(*a) * value(*b),
{
    a * b
}

/// `-&BigInt`: the negation.
#[verifier::external_body]
pub(crate) fn negation(a: &BigInt) -> (r: BigInt)
    ensures
        value(r) == -value(*a),
{
    -a
}

/// `&BigInt / &BigInt`: the quotient, rounded toward zero. Division by zero panics.
#[verifier::external_body]
pub(crate) fn quotient(a: &BigInt, b: &BigInt) -> (r: BigInt)
    requires
        value(*b) != 0,
    ensures
        value(r) == quotient_toward_zero(value(*a), value(*b)),
{
    a / b
}

/// `BigInt::bits`: the number of binary digits of the magnitude. No memory holds so many that an
/// `u64` cannot count them.
#[verifier::external_body]
pub(crate) fn bits(a: &BigInt) -> (r: u64)
    ensures
        r == bit_length(magnitude(value(*a))),
{
    a.bits()
}

/// The number of digits of `a`: each has as many bits as a `usize`.
pub open spec fn digits(a: int) -> int {
    (bit_length(magnitude(a)) + usize::BITS - 1) / (usize::BITS as int)
}

/// The digits of `a` shifted to the left can be held: a `Vec` has at most `isize::MAX` bytes. A
/// shift by less than a digit may double the memory of `a`, to append one digit; any other shift
/// takes the new zero digits, those of `a`, and one digit more.
pub open spec fn can_shift_left(a: int, shift: int) -> bool {
    let digit_bytes = usize::BITS as int / 8;
    if a == 0 || shift == 0 {
        true
    } else if shift < usize::BITS {
        2 * digits(a) * digit_bytes <= isize::MAX
    } else {
        (shift / (usize::BITS as int) + digits(a) + 1) * digit_bytes <= isize::MAX
    }
}

/// `&BigInt << u64`: multiplication by a power of two. It panics where the digits of the result
/// cannot be held.
#[verifier::external_body]
pub(crate) fn shifted_left(a: &BigInt, shift: u64) -> (r: BigInt)
    requires
        can_shift_left(value(*a), shift as int),
    ensures
        value(r) == value(*a) * pow2(shift as nat),
{
    a << shift
}

/// `&BigInt >> i64`: division by a power of two, rounded down. A negative shift panics.
#[verifier::external_body]
pub(crate) fn shifted_right(a: &BigInt, shift: i64) -> (r: BigInt)
    requires
        0 <= shift,
    ensures
        value(r) == value(*a) / (pow2(shift as nat) as int),
{
    a >> shift
}

/// `i16::try_from(&BigInt)`: the value, if it is one of an `i16`.
#[verifier::external_body]
pub(crate) fn to_i16(a: &BigInt) -> (r: Option<i16>)
    ensures
        r == (if i16::MIN <= value(*a) <= i16::MAX { Some(value(*a) as i16) } else { None::<i16> }),
{
    i16::try_from(a).ok()
}

/// `i64::try_from(&BigInt)`: the value, if it is one of an `i64`.
#[verifier::external_body]
pub(crate) fn to_i64(a: &BigInt) -> (r: Option<i64>)
    ensures
        r == (if i64::MIN <= value(*a) <= i64::MAX { Some(value(*a) as i64) } else { None::<i64> }),
{
    i64::try_from(a).ok()
}

} // verus!
