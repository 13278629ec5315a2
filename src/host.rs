use vstd::prelude::*;
use crate::float::Float;
use crate::uval::UnitValue;

verus! {

/// What the calculator needs from its surroundings: floating-point
/// arithmetic on doubles (held as bit patterns), and the registries of named
/// constants, units and functions. The library itself performs no
/// floating-point operation and promises nothing about these results beyond
/// rejecting NaN wherever one comes back.
pub trait Host {
    /// `a + b` in double precision.
    fn float_add(&self, a: Float, b: Float) -> Float;

    /// `a - b` in double precision.
    fn float_sub(&self, a: Float, b: Float) -> Float;

    /// `a * b` in double precision.
    fn float_mul(&self, a: Float, b: Float) -> Float;

    /// `a / b` in double precision.
    fn float_div(&self, a: Float, b: Float) -> Float;

    /// `a` raised to `b` in double precision.
    fn float_pow(&self, a: Float, b: Float) -> Float;

    /// The ordering of two doubles, neither of them NaN.
    fn float_cmp(&self, a: Float, b: Float) -> core::cmp::Ordering;

    /// The double nearest to `num / den`.
    fn float_of_ratio(&self, num: i32, den: u32) -> Float;

    /// The double nearest to a decimal literal: ASCII digits with an optional
    /// point and an optional exponent.
    fn parse_float(&self, text: &Vec<u8>) -> Float;

    /// The numerical constant of this name (letters only), if any.
    fn constant(&self, name: &Vec<u8>) -> Option<Float>;

    /// The unit of this name, if any.
    fn unit(&self, name: &Vec<u8>) -> Option<UnitValue>;

    /// The handle of the function of this name, if any.
    fn function(&self, name: &Vec<u8>) -> Option<usize>;

    /// The function with this handle applied to the arguments; NaN where the
    /// arguments are outside its domain.
    fn call(&self, function: usize, args: &Vec<Float>) -> Float;
}

} // verus!
