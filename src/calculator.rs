use vstd::prelude::*;
use crate::expr::{Expression, tree_ok};
use crate::host::Host;
use crate::parser::{parse, in_alphabet};
use crate::grammar::{Model, Parsed, g_input};
use crate::unit::dimensionless;
use crate::value::Value;
use crate::uval::UnitValue;
use crate::value::ArithmeticError;

verus! {

/// The ways a calculation can fail.
#[derive(Clone, Copy, Debug, PartialEq, Eq, Structural, Hash)]
pub enum CalculatorError {
    /// Division by an exact zero.
    DivideByZeroError,
    /// An argument outside a function's domain, or a NaN.
    DomainError,
    /// An exact result that does not fit.
    OverflowError,
    /// Incompatible units, or a unit where none may stand.
    UnitError,
    /// Input that the grammar does not take in full.
    SyntaxError,
}

/// The calculator error for an arithmetic error: the same kind.
pub open spec fn error_kind(e: ArithmeticError) -> CalculatorError {
    match e {
        ArithmeticError::DivideByZeroError => CalculatorError::DivideByZeroError,
        ArithmeticError::DomainError => CalculatorError::DomainError,
        ArithmeticError::OverflowError => CalculatorError::OverflowError,
        ArithmeticError::UnitError => CalculatorError::UnitError,
    }
}

impl From<ArithmeticError> for CalculatorError {
    fn from(e: ArithmeticError) -> (r: CalculatorError)
        ensures
            r == error_kind(e),
    {
        match e {
            ArithmeticError::DivideByZeroError => CalculatorError::DivideByZeroError,
            ArithmeticError::DomainError => CalculatorError::DomainError,
            ArithmeticError::OverflowError => CalculatorError::OverflowError,
            ArithmeticError::UnitError => CalculatorError::UnitError,
        }
    }
}

impl vstd::std_specs::convert::FromSpecImpl<ArithmeticError> for CalculatorError {
    open spec fn obeys_from_spec() -> bool {
        true
    }

    open spec fn from_spec(e: ArithmeticError) -> CalculatorError {
        error_kind(e)
    }
}

/// The answer for a folded tree: its value, its error, or (for a function
/// applied to a quantity with a unit, which stays unevaluated) a `UnitError`.
pub open spec fn answer(e: Expression) -> Result<UnitValue, CalculatorError> {
    match e {
        Expression::Value(v) => Ok(v),
        Expression::Error(k) => Err(error_kind(k)),
        _ => Err(CalculatorError::UnitError),
    }
}

/// The outcome of one calculation.
pub struct Calculator {
    /// Notes for the user beside a result; none are issued at present.
    pub warnings: Vec<String>,
    /// The value, or the first error to reach the top of the expression.
    pub result: Result<UnitValue, CalculatorError>,
}

impl Calculator {
    /// Parses `input`, folding constants as it goes, and reports the value
    /// or the error.
    pub fn calculate<H: Host>(input: &[u8], host: &H) -> (r: Calculator)
        ensures
            r.result matches Ok(v) ==> v.wf(),
            input@.len() == 0 ==> r.result == Err::<UnitValue, CalculatorError>(
                CalculatorError::SyntaxError,
            ),
            r.warnings@.len() == 0,
            (exists|i: int| 0 <= i < input@.len() && !in_alphabet(#[trigger] input@[i]))
                ==> r.result == Err::<UnitValue, CalculatorError>(CalculatorError::SyntaxError),
            match g_input(input@) {
                Parsed::NoParse => r.result == Err::<UnitValue, CalculatorError>(
                    CalculatorError::SyntaxError,
                ),
                Parsed::NeedsHost => true,
                Parsed::Done(m, _) => match m {
                    Model::Exact(v) => r.result matches Ok(w) && w.unit == dimensionless() && (
                    w.value matches Value::Exact(x) && x@ == v),
                    Model::Fail(k) => r.result == Err::<UnitValue, CalculatorError>(error_kind(k)),
                    Model::Approx => (r.result matches Ok(w) && w.unit == dimensionless()
                        && w.value is Inexact) || r.result == Err::<UnitValue, CalculatorError>(
                        CalculatorError::DomainError,
                    ),
                    Model::ApproxFail(k) => r.result == Err::<UnitValue, CalculatorError>(
                        error_kind(k),
                    ) || r.result == Err::<UnitValue, CalculatorError>(
                        CalculatorError::DomainError,
                    ),
                },
            },
    {
        let result = match parse(input, host) {
            Some(e) => Calculator::answer(e),
            None => Err(CalculatorError::SyntaxError),
        };
        Calculator { warnings: Vec::new(), result }
    }

    /// The answer for a folded tree.
    fn answer(e: Expression) -> (r: Result<UnitValue, CalculatorError>)
        requires
            tree_ok(e),
        ensures
            r == answer(e),
            r matches Ok(v) ==> v.wf(),
    {
        match e {
            Expression::Value(v) => Ok(v),
            Expression::Error(k) => Err(CalculatorError::from(k)),
            _ => Err(CalculatorError::UnitError),
        }
    }
}

} // verus!
