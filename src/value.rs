use vstd::prelude::*;
use crate::float::{Float, is_nan_bits, float_neg, lemma_float_neg, integer_of_bits};
use crate::host::Host;
use crate::literal::{Literal, is_eighths};
use crate::rational::{
    Rational,
    canonical,
    reduced,
    representable,
    sum_of,
    difference_of,
    product_of,
    quotient_of,
    power_of,
};

verus! {

/// The ways an arithmetic operation can fail.
#[derive(Clone, Copy, Debug, PartialEq, Eq, Structural, Hash)]
pub enum ArithmeticError {
    /// Division by an exact zero.
    DivideByZeroError,
    /// A NaN, or an argument outside a function's domain.
    DomainError,
    /// An exact result that does not fit.
    OverflowError,
    /// Incompatible units, or a unit where none may stand.
    UnitError,
}

/// A number: an exact fraction, or a double that is never NaN.
#[derive(Clone, Copy, Debug)]
pub enum Value {
    /// A double, never NaN.
    Inexact(Float),
    /// A fraction in lowest terms.
    Exact(Rational),
}

/// `p` where it fits in a `Rational`.
pub open spec fn fitting(p: (int, int)) -> Option<(int, int)> {
    if representable(p) {
        Some(p)
    } else {
        None
    }
}

/// The exact sum that `a + b` owes: where both are exact and it fits.
pub open spec fn exact_sum(a: Value, b: Value) -> Option<(int, int)> {
    match (a, b) {
        (Value::Exact(x), Value::Exact(y)) => fitting(sum_of(x@, y@)),
        _ => None,
    }
}

/// The exact difference that `a - b` owes: where both are exact and it fits.
pub open spec fn exact_difference(a: Value, b: Value) -> Option<(int, int)> {
    match (a, b) {
        (Value::Exact(x), Value::Exact(y)) => fitting(difference_of(x@, y@)),
        _ => None,
    }
}

/// The exact product that `a * b` owes: where both are exact and it fits.
pub open spec fn exact_product(a: Value, b: Value) -> Option<(int, int)> {
    match (a, b) {
        (Value::Exact(x), Value::Exact(y)) => fitting(product_of(x@, y@)),
        _ => None,
    }
}

/// The exact quotient that `a / b` owes: where both are exact, the divisor
/// is nonzero and the quotient fits.
pub open spec fn exact_quotient(a: Value, b: Value) -> Option<(int, int)> {
    match (a, b) {
        (Value::Exact(x), Value::Exact(y)) => if y@.0 != 0 {
            fitting(quotient_of(x@, y@))
        } else {
            None
        },
        _ => None,
    }
}

/// The exact power that `a ^ b` owes: where both are exact, the exponent is
/// an integer and the power fits.
pub open spec fn exact_power(a: Value, b: Value) -> Option<(int, int)> {
    match (a, b) {
        (Value::Exact(x), Value::Exact(y)) => if y@.1 == 1 {
            power_of(x@, y@.0)
        } else {
            None
        },
        _ => None,
    }
}

/// An outcome that is exactly `exact` where that is given, and otherwise an
/// inexact value or a `DomainError` (a NaN in floating point).
pub open spec fn follows(r: Result<Value, ArithmeticError>, exact: Option<(int, int)>) -> bool {
    match exact {
        Some(p) => r matches Ok(Value::Exact(q)) && q@ == p,
        None => match r {
            Ok(Value::Inexact(f)) => !is_nan_bits(f.0),
            Ok(Value::Exact(_)) => false,
            Err(e) => e == ArithmeticError::DomainError,
        },
    }
}

/// What `a / b` owes: a `DivideByZeroError` for an exact zero divisor of an
/// exact dividend, else as `follows` says.
pub open spec fn quotient_outcome(a: Value, b: Value, r: Result<Value, ArithmeticError>) -> bool {
    if a is Exact && (b matches Value::Exact(y) && y@.0 == 0) {
        r == Err::<Value, ArithmeticError>(ArithmeticError::DivideByZeroError)
    } else {
        follows(r, exact_quotient(a, b))
    }
}

/// What `Value::from_float` returns.
pub open spec fn float_value(f: Float) -> Result<Value, ArithmeticError> {
    if is_nan_bits(f.0) {
        Err(ArithmeticError::DomainError)
    } else {
        Ok(Value::Inexact(f))
    }
}

/// What `Value::from_input` owes for a literal: exact, as `n / 8`, where
/// eight times its value is an integer `n` of at most `i32::MAX`; otherwise
/// the double that the host reads from it, or a `DomainError` for a NaN.
pub open spec fn input_outcome(lit: &Literal, r: Result<Value, ArithmeticError>) -> bool {
    match r {
        Ok(Value::Exact(q)) => reduced(q@) && exists|n: int|
            0 <= n <= i32::MAX && is_eighths(lit, n) && q@ == canonical(n, 8),
        Ok(Value::Inexact(f)) => !is_nan_bits(f.0) && forall|n: int|
            0 <= n <= i32::MAX ==> !is_eighths(lit, n),
        Err(e) => e == ArithmeticError::DomainError && forall|n: int|
            0 <= n <= i32::MAX ==> !is_eighths(lit, n),
    }
}

/// A literal whose value is `n / 8` for an integer `n` of at most
/// `i32::MAX` is read as that exact fraction.
pub proof fn lemma_literal_exactness(lit: &Literal, n: int, r: Result<Value, ArithmeticError>)
    requires
        0 <= n <= i32::MAX,
        is_eighths(lit, n),
        input_outcome(lit, r),
    ensures
        r matches Ok(Value::Exact(q)) && q@ == canonical(n, 8),
{
    if let Ok(Value::Exact(q)) = r {
        let m = choose|m: int| 0 <= m <= i32::MAX && is_eighths(lit, m) && q@ == canonical(m, 8);
        crate::literal::lemma_eighths_unique(lit, n, m);
    }
}

impl Value {
    /// No value is NaN.
    pub open spec fn wf(&self) -> bool {
        match self {
            Value::Inexact(f) => !is_nan_bits(f.0),
            Value::Exact(_) => true,
        }
    }

    /// A double as an inexact value; NaN is a `DomainError`.
    pub fn from_float(f: Float) -> (r: Result<Value, ArithmeticError>)
        ensures
            r == float_value(f),
    {
        if f.is_nan() {
            Err(ArithmeticError::DomainError)
        } else {
            Ok(Value::Inexact(f))
        }
    }

    /// A literal as the user typed it: exact where eight times its value is
    /// an integer of at most `i32::MAX`, else the nearest double.
    pub fn from_input<H: Host>(lit: &Literal, host: &H) -> (r: Result<Value, ArithmeticError>)
        requires
            lit.wf(),
        ensures
            input_outcome(lit, r),
            r is Ok ==> r->Ok_0.wf(),
    {
        match lit.exact_eighths() {
            Some(n) => match Rational::new(n, 8) {
                Ok(q) => Ok(Value::Exact(q)),
                Err(_) => Err(ArithmeticError::OverflowError),
            },
            None => Value::from_float(host.parse_float(&lit.text())),
        }
    }

    /// The fraction, if the value is exact.
    pub fn get_exact(&self) -> (r: Option<Rational>)
        ensures
            r == (match self {
                Value::Exact(x) => Some(*x),
                Value::Inexact(_) => None,
            }),
    {
        match self {
            Value::Exact(x) => Some(*x),
            Value::Inexact(_) => None,
        }
    }

    /// The value as an `i32`, where it is an integer of magnitude at most
    /// `i32::MAX`.
    pub fn as_integer(&self) -> (r: Option<i32>)
        ensures
            match *self {
                Value::Exact(x) => if x@.1 == 1 {
                    r matches Some(n) && n == x@.0
                } else {
                    r is None
                },
                Value::Inexact(f) => match integer_of_bits(f.0) {
                    Some(n) => r matches Some(k) && k == n,
                    None => r is None,
                },
            },
    {
        match self {
            Value::Exact(x) => if x.is_integer() {
                Some(x.numer())
            } else {
                None
            },
            Value::Inexact(f) => f.as_integer(),
        }
    }

    /// The value as a double.
    pub fn as_float<H: Host>(&self, host: &H) -> (r: Float)
        ensures
            self matches Value::Inexact(f) ==> r == f,
    {
        match self {
            Value::Inexact(f) => *f,
            Value::Exact(x) => host.float_of_ratio(x.numer(), x.denom()),
        }
    }

    /// The negation: of the fraction, or of the double.
    pub open spec fn neg_spec(self) -> Value {
        match self {
            Value::Exact(x) => Value::Exact(x.neg_spec()),
            Value::Inexact(f) => Value::Inexact(float_neg(f)),
        }
    }

    /// Negating twice gives the value back; negation keeps a value free of NaN.
    pub proof fn lemma_neg_neg(self)
        ensures
            self.neg_spec().neg_spec() == self,
            self.neg_spec().wf() == self.wf(),
    {
        match self {
            Value::Exact(x) => x.lemma_neg_neg(),
            Value::Inexact(f) => lemma_float_neg(f),
        }
    }

    /// The negation, which always exists.
    pub fn neg(&self) -> (r: Value)
        requires
            self.wf(),
        ensures
            r.wf(),
            r == self.neg_spec(),
            match (*self, r) {
                (Value::Exact(x), Value::Exact(y)) => y@ == (-x@.0, x@.1),
                _ => true,
            },
    {
        match self {
            Value::Exact(x) => Value::Exact(x.neg()),
            Value::Inexact(f) => Value::Inexact(f.neg()),
        }
    }

    /// The sum: exact where both are exact and it fits, else in floating point.
    pub fn add<H: Host>(&self, other: &Value, host: &H) -> (r: Result<Value, ArithmeticError>)
        ensures
            follows(r, exact_sum(*self, *other)),
    {
        if let Value::Exact(a) = self {
            if let Value::Exact(b) = other {
                if let Ok(q) = a.add(b) {
                    return Ok(Value::Exact(q));
                }
            }
        }
        Value::from_float(host.float_add(self.as_float(host), other.as_float(host)))
    }

    /// The difference: exact where both are exact and it fits, else in
    /// floating point.
    pub fn sub<H: Host>(&self, other: &Value, host: &H) -> (r: Result<Value, ArithmeticError>)
        ensures
            follows(r, exact_difference(*self, *other)),
    {
        if let Value::Exact(a) = self {
            if let Value::Exact(b) = other {
                if let Ok(q) = a.sub(b) {
                    return Ok(Value::Exact(q));
                }
            }
        }
        Value::from_float(host.float_sub(self.as_float(host), other.as_float(host)))
    }

    /// The product: exact where both are exact and it fits, else in floating
    /// point.
    pub fn mul<H: Host>(&self, other: &Value, host: &H) -> (r: Result<Value, ArithmeticError>)
        ensures
            follows(r, exact_product(*self, *other)),
    {
        if let Value::Exact(a) = self {
            if let Value::Exact(b) = other {
                if let Ok(q) = a.mul(b) {
                    return Ok(Value::Exact(q));
                }
            }
        }
        Value::from_float(host.float_mul(self.as_float(host), other.as_float(host)))
    }

    /// The quotient: an exact zero divisor is a `DivideByZeroError`; exact
    /// where both are exact and it fits, else in floating point.
    pub fn div<H: Host>(&self, other: &Value, host: &H) -> (r: Result<Value, ArithmeticError>)
        ensures
            quotient_outcome(*self, *other, r),
    {
        if let Value::Exact(a) = self {
            if let Value::Exact(b) = other {
                if b.numer() == 0 {
                    return Err(ArithmeticError::DivideByZeroError);
                }
                if let Ok(q) = a.div(b) {
                    return Ok(Value::Exact(q));
                }
            }
        }
        Value::from_float(host.float_div(self.as_float(host), other.as_float(host)))
    }

    /// The power: exact where both are exact, the exponent is an integer and
    /// the result fits; else in floating point.
    pub fn pow<H: Host>(&self, other: &Value, host: &H) -> (r: Result<Value, ArithmeticError>)
        ensures
            follows(r, exact_power(*self, *other)),
    {
        if let Value::Exact(a) = self {
            if let Value::Exact(b) = other {
                if b.is_integer() {
                    if let Ok(q) = a.pow(b.numer()) {
                        return Ok(Value::Exact(q));
                    }
                }
            }
        }
        Value::from_float(host.float_pow(self.as_float(host), other.as_float(host)))
    }

    /// Orders two values by the numbers they denote: exactly where both are
    /// exact, else in floating point.
    pub fn cmp<H: Host>(&self, other: &Value, host: &H) -> (r: core::cmp::Ordering)
        ensures
            match (*self, *other) {
                (Value::Exact(x), Value::Exact(y)) => {
                    &&& (r == core::cmp::Ordering::Less) == (x@.0 * y@.1 < y@.0 * x@.1)
                    &&& (r == core::cmp::Ordering::Equal) == (x@.0 * y@.1 == y@.0 * x@.1)
                },
                _ => true,
            },
    {
        if let Value::Exact(a) = self {
            if let Value::Exact(b) = other {
                return a.cmp(b);
            }
        }
        host.float_cmp(self.as_float(host), other.as_float(host))
    }
}

} // verus!
