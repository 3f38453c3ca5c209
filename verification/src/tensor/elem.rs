//! Trusted per-element operations, each a single call into the `num_traits`
//! crate (or a `core` operator reached through its `Float` bound). Nothing is
//! claimed about the returned values: floating-point behaviour is the outside
//! crate's business; the library verifies the surrounding shape and index
//! logic.

use vstd::prelude::*;

verus! {

/// Relies on num_traits::Zero::zero.
#[verifier::external_body]
pub(crate) fn el_zero<T: num_traits::Float>() -> T {
    T::zero()
}

/// Relies on num_traits::One::one.
#[verifier::external_body]
pub(crate) fn el_one<T: num_traits::Float>() -> T {
    T::one()
}

/// Relies on num_traits::NumCast::from; `None` when the value has no
/// representation in `T`.
#[verifier::external_body]
pub(crate) fn el_from_usize<T: num_traits::Float>(v: usize) -> Option<T> {
    T::from(v)
}

/// Relies on num_traits::ToPrimitive::to_u8.
#[verifier::external_body]
pub(crate) fn el_to_u8<T: num_traits::Float>(x: T) -> Option<u8> {
    x.to_u8()
}

/// Relies on num_traits::Float::min_positive_value.
#[verifier::external_body]
pub(crate) fn el_min_positive<T: num_traits::Float>() -> T {
    T::min_positive_value()
}

/// Relies on core::ops::Neg::neg through num_traits::Float.
#[verifier::external_body]
pub(crate) fn el_neg<T: num_traits::Float>(x: T) -> T {
    -x
}

/// Relies on core::ops::Add::add through num_traits::Float.
#[verifier::external_body]
pub(crate) fn el_add<T: num_traits::Float>(x: T, y: T) -> T {
    x + y
}

/// Relies on core::ops::Sub::sub through num_traits::Float.
#[verifier::external_body]
pub(crate) fn el_sub<T: num_traits::Float>(x: T, y: T) -> T {
    x - y
}

/// Relies on core::ops::Mul::mul through num_traits::Float.
#[verifier::external_body]
pub(crate) fn el_mul<T: num_traits::Float>(x: T, y: T) -> T {
    x * y
}

/// Relies on core::ops::Div::div through num_traits::Float.
#[verifier::external_body]
pub(crate) fn el_div<T: num_traits::Float>(x: T, y: T) -> T {
    x / y
}

/// Relies on core::cmp::PartialOrd::lt through num_traits::Float.
#[verifier::external_body]
pub(crate) fn el_lt<T: num_traits::Float>(x: T, y: T) -> bool {
    x < y
}

/// Relies on core::cmp::PartialOrd::le through num_traits::Float.
#[verifier::external_body]
pub(crate) fn el_le<T: num_traits::Float>(x: T, y: T) -> bool {
    x <= y
}

/// Relies on core::cmp::PartialOrd::gt through num_traits::Float.
#[verifier::external_body]
pub(crate) fn el_gt<T: num_traits::Float>(x: T, y: T) -> bool {
    x > y
}

/// Relies on core::cmp::PartialOrd::ge through num_traits::Float.
#[verifier::external_body]
pub(crate) fn el_ge<T: num_traits::Float>(x: T, y: T) -> bool {
    x >= y
}

/// Relies on core::cmp::PartialEq::eq through num_traits::Float.
#[verifier::external_body]
pub(crate) fn el_eq<T: num_traits::Float>(x: T, y: T) -> bool {
    x == y
}

/// Relies on core::cmp::PartialEq::ne through num_traits::Float.
#[verifier::external_body]
pub(crate) fn el_ne<T: num_traits::Float>(x: T, y: T) -> bool {
    x != y
}

/// Relies on num_traits::Float::abs.
#[verifier::external_body]
pub(crate) fn el_abs<T: num_traits::Float>(x: T) -> T {
    x.abs()
}

/// Relies on num_traits::Float::acos.
#[verifier::external_body]
pub(crate) fn el_acos<T: num_traits::Float>(x: T) -> T {
    x.acos()
}

/// Relies on num_traits::Float::asin.
#[verifier::external_body]
pub(crate) fn el_asin<T: num_traits::Float>(x: T) -> T {
    x.asin()
}

/// Relies on num_traits::Float::atan.
#[verifier::external_body]
pub(crate) fn el_atan<T: num_traits::Float>(x: T) -> T {
    x.atan()
}

/// Relies on num_traits::Float::ceil.
#[verifier::external_body]
pub(crate) fn el_ceil<T: num_traits::Float>(x: T) -> T {
    x.ceil()
}

/// Relies on num_traits::Float::cos.
#[verifier::external_body]
pub(crate) fn el_cos<T: num_traits::Float>(x: T) -> T {
    x.cos()
}

/// Relies on num_traits::Float::cosh.
#[verifier::external_body]
pub(crate) fn el_cosh<T: num_traits::Float>(x: T) -> T {
    x.cosh()
}

/// Relies on num_traits::Float::exp.
#[verifier::external_body]
pub(crate) fn el_exp<T: num_traits::Float>(x: T) -> T {
    x.exp()
}

/// Relies on num_traits::Float::exp_m1.
#[verifier::external_body]
pub(crate) fn el_exp_m1<T: num_traits::Float>(x: T) -> T {
    x.exp_m1()
}

/// Relies on num_traits::Float::floor.
#[verifier::external_body]
pub(crate) fn el_floor<T: num_traits::Float>(x: T) -> T {
    x.floor()
}

/// Relies on num_traits::Float::fract.
#[verifier::external_body]
pub(crate) fn el_fract<T: num_traits::Float>(x: T) -> T {
    x.fract()
}

/// Relies on num_traits::Float::ln.
#[verifier::external_body]
pub(crate) fn el_ln<T: num_traits::Float>(x: T) -> T {
    x.ln()
}

/// Relies on num_traits::Float::log10.
#[verifier::external_body]
pub(crate) fn el_log10<T: num_traits::Float>(x: T) -> T {
    x.log10()
}

/// Relies on num_traits::Float::ln_1p.
#[verifier::external_body]
pub(crate) fn el_ln_1p<T: num_traits::Float>(x: T) -> T {
    x.ln_1p()
}

/// Relies on num_traits::Float::log2.
#[verifier::external_body]
pub(crate) fn el_log2<T: num_traits::Float>(x: T) -> T {
    x.log2()
}

/// Relies on num_traits::Float::powf.
#[verifier::external_body]
pub(crate) fn el_powf<T: num_traits::Float>(x: T, n: T) -> T {
    x.powf(n)
}

/// Relies on num_traits::Float::recip.
#[verifier::external_body]
pub(crate) fn el_recip<T: num_traits::Float>(x: T) -> T {
    x.recip()
}

/// Relies on num_traits::Float::round.
#[verifier::external_body]
pub(crate) fn el_round<T: num_traits::Float>(x: T) -> T {
    x.round()
}

/// Relies on num_traits::Float::sqrt.
#[verifier::external_body]
pub(crate) fn el_sqrt<T: num_traits::Float>(x: T) -> T {
    x.sqrt()
}

/// Relies on num_traits::Float::sin.
#[verifier::external_body]
pub(crate) fn el_sin<T: num_traits::Float>(x: T) -> T {
    x.sin()
}

/// Relies on num_traits::Float::sinh.
#[verifier::external_body]
pub(crate) fn el_sinh<T: num_traits::Float>(x: T) -> T {
    x.sinh()
}

/// Relies on num_traits::Float::tan.
#[verifier::external_body]
pub(crate) fn el_tan<T: num_traits::Float>(x: T) -> T {
    x.tan()
}

/// Relies on num_traits::Float::tanh.
#[verifier::external_body]
pub(crate) fn el_tanh<T: num_traits::Float>(x: T) -> T {
    x.tanh()
}

/// Relies on num_traits::Float::trunc.
#[verifier::external_body]
pub(crate) fn el_trunc<T: num_traits::Float>(x: T) -> T {
    x.trunc()
}

} // verus!
