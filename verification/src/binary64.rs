//! IEEE-754 binary64 values seen through their bit patterns.
//!
//! A value is a `u64` holding the raw encoding. The spec functions here state
//! what the hardware comparisons (`<=`, `<`, `==`, `min`, `max`) and the
//! total order (`total_cmp`) are on such encodings; the executable functions
//! compute them with integer operations only.

use vstd::prelude::*;

verus! {

/// Encoding of positive infinity.
pub const INFINITY: u64 = 0x7FF0_0000_0000_0000;

/// Encoding of negative infinity.
pub const NEG_INFINITY: u64 = 0xFFF0_0000_0000_0000;

/// The sign bit.
pub const SIGN_BIT: u64 = 0x8000_0000_0000_0000;

/// The encoding with its sign bit cleared: exponent and mantissa.
pub open spec fn magnitude(b: u64) -> int {
    if b < SIGN_BIT { b as int } else { b - SIGN_BIT }
}

/// All exponent bits set and a nonzero mantissa.
pub open spec fn spec_is_nan(b: u64) -> bool {
    magnitude(b) > INFINITY
}

/// `+0.0` or `-0.0`.
pub open spec fn spec_is_zero(b: u64) -> bool {
    magnitude(b) == 0
}

/// The integer that `total_cmp` compares: non-negative encodings keep their
/// value, negative ones are mirrored below zero, so that
/// `-NaN < -inf < ... < -0.0 < +0.0 < ... < +inf < +NaN`.
pub open spec fn order_key(b: u64) -> int {
    if b < SIGN_BIT { b as int } else { -1 - magnitude(b) }
}

/// The total order of `total_cmp`, as a relation.
pub open spec fn total_le(a: u64, b: u64) -> bool {
    order_key(a) <= order_key(b)
}

/// `total_le` as a spec closure, for `sort_by` and `sorted_by`.
pub open spec fn total_le_fn() -> spec_fn(u64, u64) -> bool {
    |a: u64, b: u64| total_le(a, b)
}

/// The order key with `-0.0` folded onto `+0.0`: the numeric order of
/// non-NaN values.
pub open spec fn numeric_key(b: u64) -> int {
    if spec_is_zero(b) { 0 } else { order_key(b) }
}

/// IEEE `a <= b`: false when either side is NaN, otherwise numeric order
/// (the two zeros are equal).
pub open spec fn spec_le(a: u64, b: u64) -> bool {
    &&& !spec_is_nan(a)
    &&& !spec_is_nan(b)
    &&& numeric_key(a) <= numeric_key(b)
}

/// IEEE `a < b`.
pub open spec fn spec_lt(a: u64, b: u64) -> bool {
    &&& !spec_is_nan(a)
    &&& !spec_is_nan(b)
    &&& numeric_key(a) < numeric_key(b)
}

/// IEEE `a == b`.
pub open spec fn spec_eq(a: u64, b: u64) -> bool {
    &&& !spec_is_nan(a)
    &&& !spec_is_nan(b)
    &&& numeric_key(a) == numeric_key(b)
}

/// Two non-NaN encodings are IEEE-equal exactly when they are the same
/// encoding or both are zeros.
pub proof fn lemma_eq_is_same_or_zeros(a: u64, b: u64)
    ensures
        spec_eq(a, b) <==> (!spec_is_nan(a) && !spec_is_nan(b) && (a == b || (spec_is_zero(a)
            && spec_is_zero(b)))),
{
}

/// The order key is one-to-one.
pub proof fn lemma_order_key_injective(a: u64, b: u64)
    ensures
        order_key(a) == order_key(b) ==> a == b,
{
}

/// `total_le` is a total order on encodings.
pub proof fn lemma_total_le_is_total_ordering()
    ensures
        vstd::relations::total_ordering(total_le_fn()),
{
    assert forall|a: u64, b: u64| #[trigger] total_le_fn()(a, b) && #[trigger] total_le_fn()(b, a)
        implies a == b by {
        lemma_order_key_injective(a, b);
    }
}

/// Whether `b` encodes a NaN.
pub fn is_nan(b: u64) -> (r: bool)
    ensures
        r == spec_is_nan(b),
{
    let m = if b < SIGN_BIT { b } else { b - SIGN_BIT };
    m > INFINITY
}

/// Whether `b` encodes a zero of either sign.
pub fn is_zero(b: u64) -> (r: bool)
    ensures
        r == spec_is_zero(b),
{
    b == 0 || b == SIGN_BIT
}

/// The `total_cmp` key of `b`.
pub fn total_key(b: u64) -> (k: i64)
    ensures
        k == order_key(b),
{
    if b < SIGN_BIT {
        b as i64
    } else {
        let m = (b - SIGN_BIT) as i64;
        -1 - m
    }
}

/// The numeric key of `b` (see `numeric_key`).
pub fn numeric(b: u64) -> (k: i64)
    ensures
        k == numeric_key(b),
{
    if is_zero(b) { 0 } else { total_key(b) }
}

/// IEEE `a <= b` on encodings.
pub fn le(a: u64, b: u64) -> (r: bool)
    ensures
        r == spec_le(a, b),
{
    !is_nan(a) && !is_nan(b) && numeric(a) <= numeric(b)
}

/// IEEE `a < b` on encodings.
pub fn lt(a: u64, b: u64) -> (r: bool)
    ensures
        r == spec_lt(a, b),
{
    !is_nan(a) && !is_nan(b) && numeric(a) < numeric(b)
}

/// IEEE `a == b` on encodings.
pub fn eq(a: u64, b: u64) -> (r: bool)
    ensures
        r == spec_eq(a, b),
{
    !is_nan(a) && !is_nan(b) && numeric(a) == numeric(b)
}

} // verus!
