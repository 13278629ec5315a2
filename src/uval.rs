use vstd::prelude::*;
use crate::float::Float;
use crate::host::Host;
use crate::literal::Literal;
use crate::value::input_outcome;
use crate::unit::{Unit, dimensionless, unit_sum, unit_difference, unit_scaled, exponents_fit};
use crate::value::{
    ArithmeticError,
    Value,
    float_value,
    quotient_outcome,
    follows,
    exact_sum,
    exact_difference,
    exact_product,
    exact_power,
};

verus! {

/// A number together with its physical dimension.
#[derive(Clone, Copy, Debug)]
pub struct UnitValue {
    pub value: Value,
    pub unit: Unit,
}

/// The value part of an outcome, with the unit dropped.
pub open spec fn value_part(r: Result<UnitValue, ArithmeticError>) -> Result<Value, ArithmeticError> {
    match r {
        Ok(w) => Ok(w.value),
        Err(e) => Err(e),
    }
}

/// What `a + b` owes: a `UnitError` where the units differ; otherwise the
/// value outcome of the sum, with the common unit.
pub open spec fn sum_outcome(a: UnitValue, b: UnitValue, r: Result<UnitValue, ArithmeticError>) -> bool {
    if a.unit == b.unit {
        follows(value_part(r), exact_sum(a.value, b.value)) && (r is Ok ==> r->Ok_0.unit == a.unit)
    } else {
        r == Err::<UnitValue, ArithmeticError>(ArithmeticError::UnitError)
    }
}

/// What `a - b` owes: a `UnitError` where the units differ; otherwise the
/// value outcome of the difference, with the common unit.
pub open spec fn difference_outcome(
    a: UnitValue,
    b: UnitValue,
    r: Result<UnitValue, ArithmeticError>,
) -> bool {
    if a.unit == b.unit {
        follows(value_part(r), exact_difference(a.value, b.value)) && (r is Ok ==> r->Ok_0.unit
            == a.unit)
    } else {
        r == Err::<UnitValue, ArithmeticError>(ArithmeticError::UnitError)
    }
}

/// Where the value outcome `v` is a value, a unit exponent that leaves `i32`
/// is a `UnitError`; otherwise `r` is `v` with unit exponents `u`.
pub open spec fn with_exponents(
    r: Result<UnitValue, ArithmeticError>,
    v: Result<Value, ArithmeticError>,
    u: Seq<int>,
) -> bool {
    match v {
        Err(e) => r == Err::<UnitValue, ArithmeticError>(e),
        Ok(x) => if exponents_fit(u) {
            r matches Ok(w) && w.value == x && w.unit@ == u
        } else {
            r == Err::<UnitValue, ArithmeticError>(ArithmeticError::UnitError)
        },
    }
}

/// What `a * b` owes: the value outcome of the product, with the exponents
/// added.
pub open spec fn product_outcome(
    a: UnitValue,
    b: UnitValue,
    r: Result<UnitValue, ArithmeticError>,
) -> bool {
    exists|v: Result<Value, ArithmeticError>|
        follows(v, exact_product(a.value, b.value)) && with_exponents(
            r,
            v,
            unit_sum(a.unit@, b.unit@),
        )
}

/// What `a / b` owes: the value outcome of the quotient, with the divisor's
/// exponents subtracted.
pub open spec fn quotient_unit_outcome(
    a: UnitValue,
    b: UnitValue,
    r: Result<UnitValue, ArithmeticError>,
) -> bool {
    exists|v: Result<Value, ArithmeticError>|
        quotient_outcome(a.value, b.value, v) && with_exponents(
            r,
            v,
            unit_difference(a.unit@, b.unit@),
        )
}

/// What `a ^ b` owes. The exponent must be dimensionless, else `UnitError`.
/// A dimensionless base takes the value outcome of the power. A base with a
/// unit needs an exact integer exponent `k` (else `UnitError`), and its
/// exponents are multiplied by `k`.
pub open spec fn power_outcome(a: UnitValue, b: UnitValue, r: Result<UnitValue, ArithmeticError>) -> bool {
    if b.unit != dimensionless() {
        r == Err::<UnitValue, ArithmeticError>(ArithmeticError::UnitError)
    } else if a.unit == dimensionless() {
        follows(value_part(r), exact_power(a.value, b.value)) && (r is Ok ==> r->Ok_0.unit
            == dimensionless())
    } else {
        match b.value {
            Value::Exact(k) => if k@.1 == 1 {
                exists|v: Result<Value, ArithmeticError>|
                    follows(v, exact_power(a.value, b.value)) && with_exponents(
                        r,
                        v,
                        unit_scaled(a.unit@, k@.0),
                    )
            } else {
                r == Err::<UnitValue, ArithmeticError>(ArithmeticError::UnitError)
            },
            Value::Inexact(_) => r == Err::<UnitValue, ArithmeticError>(ArithmeticError::UnitError),
        }
    }
}

/// A sum needs equal units and keeps them: with different units it is a
/// `UnitError`; with the same unit it fails only where floating point makes
/// a NaN, and otherwise has that unit.
pub proof fn lemma_sum_units(a: UnitValue, b: UnitValue, r: Result<UnitValue, ArithmeticError>)
    requires
        sum_outcome(a, b, r),
    ensures
        r is Ok ==> a.unit == b.unit && r->Ok_0.unit == a.unit,
        a.unit != b.unit ==> r == Err::<UnitValue, ArithmeticError>(ArithmeticError::UnitError),
        a.unit == b.unit && r is Err ==> r == Err::<UnitValue, ArithmeticError>(
            ArithmeticError::DomainError,
        ),
{
}

/// A difference needs equal units and keeps them, as a sum does.
pub proof fn lemma_difference_units(
    a: UnitValue,
    b: UnitValue,
    r: Result<UnitValue, ArithmeticError>,
)
    requires
        difference_outcome(a, b, r),
    ensures
        r is Ok ==> a.unit == b.unit && r->Ok_0.unit == a.unit,
        a.unit != b.unit ==> r == Err::<UnitValue, ArithmeticError>(ArithmeticError::UnitError),
        a.unit == b.unit && r is Err ==> r == Err::<UnitValue, ArithmeticError>(
            ArithmeticError::DomainError,
        ),
{
}

/// The unit of a product is the component-wise sum of the units; a
/// `UnitError` comes only from an exponent that leaves `i32`.
pub proof fn lemma_product_units(a: UnitValue, b: UnitValue, r: Result<UnitValue, ArithmeticError>)
    requires
        product_outcome(a, b, r),
    ensures
        r is Ok ==> r->Ok_0.unit@ == unit_sum(a.unit@, b.unit@),
        r == Err::<UnitValue, ArithmeticError>(ArithmeticError::UnitError) ==> !exponents_fit(
            unit_sum(a.unit@, b.unit@),
        ),
{
}

/// The unit of a quotient is the component-wise difference of the units; a
/// `UnitError` comes only from an exponent that leaves `i32`.
pub proof fn lemma_quotient_units(
    a: UnitValue,
    b: UnitValue,
    r: Result<UnitValue, ArithmeticError>,
)
    requires
        quotient_unit_outcome(a, b, r),
    ensures
        r is Ok ==> r->Ok_0.unit@ == unit_difference(a.unit@, b.unit@),
        r == Err::<UnitValue, ArithmeticError>(ArithmeticError::UnitError) ==> !exponents_fit(
            unit_difference(a.unit@, b.unit@),
        ),
{
}

impl UnitValue {
    /// The value is not NaN.
    pub open spec fn wf(&self) -> bool {
        self.value.wf()
    }

    /// A dimensionless value from a double; NaN is a `DomainError`.
    pub fn from_float(f: Float) -> (r: Result<UnitValue, ArithmeticError>)
        ensures
            value_part(r) == float_value(f),
            r is Ok ==> r->Ok_0.unit == dimensionless(),
    {
        match Value::from_float(f) {
            Ok(v) => Ok(UnitValue { value: v, unit: Unit::zero() }),
            Err(e) => Err(e),
        }
    }

    /// A dimensionless value from a literal the user typed; see
    /// `Value::from_input`.
    pub fn from_input<H: Host>(lit: &Literal, host: &H) -> (r: Result<UnitValue, ArithmeticError>)
        requires
            lit.wf(),
        ensures
            input_outcome(lit, value_part(r)),
            r is Ok ==> r->Ok_0.wf() && r->Ok_0.unit == dimensionless(),
    {
        match Value::from_input(lit, host) {
            Ok(v) => Ok(UnitValue { value: v, unit: Unit::zero() }),
            Err(e) => Err(e),
        }
    }

    /// Whether the value has no dimension.
    pub fn unitless(&self) -> (r: bool)
        ensures
            r == (self.unit == dimensionless()),
    {
        self.unit == Unit::zero()
    }

    /// The sum; both must have the same unit, which the sum keeps.
    pub fn add<H: Host>(&self, other: &UnitValue, host: &H) -> (r: Result<UnitValue, ArithmeticError>)
        ensures
            sum_outcome(*self, *other, r),
    {
        if self.unit == other.unit {
            match self.value.add(&other.value, host) {
                Ok(v) => Ok(UnitValue { value: v, unit: self.unit }),
                Err(e) => Err(e),
            }
        } else {
            Err(ArithmeticError::UnitError)
        }
    }

    /// The difference; both must have the same unit, which the difference keeps.
    pub fn sub<H: Host>(&self, other: &UnitValue, host: &H) -> (r: Result<UnitValue, ArithmeticError>)
        ensures
            difference_outcome(*self, *other, r),
    {
        if self.unit == other.unit {
            match self.value.sub(&other.value, host) {
                Ok(v) => Ok(UnitValue { value: v, unit: self.unit }),
                Err(e) => Err(e),
            }
        } else {
            Err(ArithmeticError::UnitError)
        }
    }

    /// The product; the units' exponents add.
    pub fn mul<H: Host>(&self, other: &UnitValue, host: &H) -> (r: Result<UnitValue, ArithmeticError>)
        ensures
            product_outcome(*self, *other, r),
    {
        let v = self.value.mul(&other.value, host);
        let x = match v {
            Ok(x) => x,
            Err(e) => return Err(e),
        };
        match self.unit.add(&other.unit) {
            Some(u) => Ok(UnitValue { value: x, unit: u }),
            None => Err(ArithmeticError::UnitError),
        }
    }

    /// The quotient; the divisor's exponents are subtracted.
    pub fn div<H: Host>(&self, other: &UnitValue, host: &H) -> (r: Result<UnitValue, ArithmeticError>)
        ensures
            quotient_unit_outcome(*self, *other, r),
    {
        let v = self.value.div(&other.value, host);
        let x = match v {
            Ok(x) => x,
            Err(e) => return Err(e),
        };
        match self.unit.sub(&other.unit) {
            Some(u) => Ok(UnitValue { value: x, unit: u }),
            None => Err(ArithmeticError::UnitError),
        }
    }

    /// The power; see `power_outcome`.
    pub fn pow<H: Host>(&self, other: &UnitValue, host: &H) -> (r: Result<UnitValue, ArithmeticError>)
        ensures
            power_outcome(*self, *other, r),
    {
        if !other.unitless() {
            return Err(ArithmeticError::UnitError);
        }
        if self.unitless() {
            return match self.value.pow(&other.value, host) {
                Ok(x) => Ok(UnitValue { value: x, unit: Unit::zero() }),
                Err(e) => Err(e),
            };
        }
        let k = match other.value.get_exact() {
            Some(k) => k,
            None => return Err(ArithmeticError::UnitError),
        };
        if !k.is_integer() {
            return Err(ArithmeticError::UnitError);
        }
        let v = self.value.pow(&other.value, host);
        let x = match v {
            Ok(x) => x,
            Err(e) => return Err(e),
        };
        match self.unit.scale(k.numer()) {
            Some(u) => Ok(UnitValue { value: x, unit: u }),
            None => Err(ArithmeticError::UnitError),
        }
    }

    /// Orders two values of the same unit by their numbers; values of
    /// different units have no order.
    pub fn partial_cmp<H: Host>(&self, other: &UnitValue, host: &H) -> (r: Option<
        core::cmp::Ordering,
    >)
        ensures
            (r is None) == (self.unit != other.unit),
            match (self.value, other.value) {
                (Value::Exact(x), Value::Exact(y)) => r matches Some(o) ==> ((o
                    == core::cmp::Ordering::Less) == (x@.0 * y@.1 < y@.0 * x@.1) && (o
                    == core::cmp::Ordering::Equal) == (x@.0 * y@.1 == y@.0 * x@.1)),
                _ => true,
            },
    {
        if self.unit == other.unit {
            Some(self.value.cmp(&other.value, host))
        } else {
            None
        }
    }

    /// The negation: the value negated, the unit kept.
    pub open spec fn neg_spec(self) -> UnitValue {
        UnitValue { value: self.value.neg_spec(), unit: self.unit }
    }

    /// The negation, with the same unit.
    pub fn neg(&self) -> (r: UnitValue)
        requires
            self.wf(),
        ensures
            r.wf(),
            r == self.neg_spec(),
    {
        UnitValue { value: self.value.neg(), unit: self.unit }
    }
}

} // verus!
