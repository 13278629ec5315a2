use vstd::prelude::*;
use crate::float::{Float, is_nan_bits};
use crate::literal::Literal;
use crate::host::Host;
use crate::unit::dimensionless;
use crate::uval::{
    UnitValue,
    sum_outcome,
    difference_outcome,
    product_outcome,
    quotient_unit_outcome,
    power_outcome,
};
use crate::value::{ArithmeticError, Value, input_outcome, fitting};
use crate::rational::{sum_of, difference_of, product_of, quotient_of, power_of};

verus! {

/// An expression tree. Folding collapses every subtree whose operands are
/// known into a `Value` or an `Error` leaf.
pub enum Expression {
    /// A known value with its unit.
    Value(UnitValue),
    /// A failure, which every expression around it takes on.
    Error(ArithmeticError),
    /// `a ^ b`
    Exp(Box<Expression>, Box<Expression>),
    /// `a * b`
    Mul(Box<Expression>, Box<Expression>),
    /// `a / b`
    Div(Box<Expression>, Box<Expression>),
    /// `a + b`
    Add(Box<Expression>, Box<Expression>),
    /// `a - b`
    Sub(Box<Expression>, Box<Expression>),
    /// `-a`
    Neg(Box<Expression>),
    /// A call of the host's function with this handle.
    Call(usize, Vec<Expression>),
}

/// The five binary operators.
#[derive(Clone, Copy, Debug, PartialEq, Eq, Structural)]
pub enum BinaryOp {
    /// `^`
    Exp,
    /// `*`, or two factors side by side
    Mul,
    /// `/`
    Div,
    /// `+`
    Add,
    /// `-`
    Sub,
}

/// An outcome as a leaf: its value, or its error.
pub open spec fn lift(r: Result<UnitValue, ArithmeticError>) -> Expression {
    match r {
        Ok(v) => Expression::Value(v),
        Err(e) => Expression::Error(e),
    }
}

/// What applying `op` to two known values owes.
pub open spec fn op_outcome(
    op: BinaryOp,
    a: UnitValue,
    b: UnitValue,
    r: Result<UnitValue, ArithmeticError>,
) -> bool {
    match op {
        BinaryOp::Exp => power_outcome(a, b, r),
        BinaryOp::Mul => product_outcome(a, b, r),
        BinaryOp::Div => quotient_unit_outcome(a, b, r),
        BinaryOp::Add => sum_outcome(a, b, r),
        BinaryOp::Sub => difference_outcome(a, b, r),
    }
}

/// The node `a op b`, unfolded.
pub open spec fn node(op: BinaryOp, a: Expression, b: Expression) -> Expression {
    match op {
        BinaryOp::Exp => Expression::Exp(Box::new(a), Box::new(b)),
        BinaryOp::Mul => Expression::Mul(Box::new(a), Box::new(b)),
        BinaryOp::Div => Expression::Div(Box::new(a), Box::new(b)),
        BinaryOp::Add => Expression::Add(Box::new(a), Box::new(b)),
        BinaryOp::Sub => Expression::Sub(Box::new(a), Box::new(b)),
    }
}

/// One folding step on `a op b`: two values are combined; otherwise an error
/// on the right wins, then one on the left; otherwise the node stays.
pub open spec fn binary_folds(op: BinaryOp, a: Expression, b: Expression, r: Expression) -> bool {
    match (a, b) {
        (Expression::Value(x), Expression::Value(y)) => exists|res: Result<
            UnitValue,
            ArithmeticError,
        >| op_outcome(op, x, y, res) && r == lift(res),
        (_, Expression::Error(k)) => r == Expression::Error(k),
        (Expression::Error(k), _) => r == Expression::Error(k),
        _ => r == node(op, a, b),
    }
}

/// One folding step on `-a`: a value is negated, a double negation cancels,
/// an error stays; otherwise the node stays.
pub open spec fn negation_folds(a: Expression, r: Expression) -> bool {
    match a {
        Expression::Value(x) => r == Expression::Value(x.neg_spec()),
        Expression::Neg(y) => r == *y,
        Expression::Error(k) => r == Expression::Error(k),
        _ => r == Expression::Neg(Box::new(a)),
    }
}

/// Every argument is a dimensionless value.
pub open spec fn all_plain(args: Seq<Expression>) -> bool {
    forall|i: int|
        0 <= i < args.len() ==> (#[trigger] args[i] matches Expression::Value(v) && v.unit
            == dimensionless())
}

/// Some argument is an error.
pub open spec fn has_error(args: Seq<Expression>) -> bool {
    exists|i: int| 0 <= i < args.len() && #[trigger] args[i] is Error
}

/// `k` is the error of the first argument that is an error.
pub open spec fn first_error(args: Seq<Expression>, k: ArithmeticError) -> bool {
    exists|i: int|
        0 <= i < args.len() && #[trigger] args[i] == Expression::Error(k) && forall|j: int|
            0 <= j < i ==> !(#[trigger] args[j] is Error)
}

/// One folding step on a call: with only dimensionless values as arguments
/// the function is applied (a dimensionless inexact value, or a
/// `DomainError`); otherwise the first error is passed on; otherwise the call
/// stays.
pub open spec fn call_folds(f: usize, args: Seq<Expression>, r: Expression) -> bool {
    if all_plain(args) {
        (r matches Expression::Value(v) && v.unit == dimensionless() && v.value is Inexact
            && v.wf()) || r == Expression::Error(ArithmeticError::DomainError)
    } else if has_error(args) {
        exists|k: ArithmeticError| first_error(args, k) && r == Expression::Error(k)
    } else {
        r matches Expression::Call(g, a) && g == f && a@ == args
    }
}

/// What one folding step on `e` gives.
pub open spec fn folds_to(e: Expression, r: Expression) -> bool {
    match e {
        Expression::Exp(a, b) => binary_folds(BinaryOp::Exp, *a, *b, r),
        Expression::Mul(a, b) => binary_folds(BinaryOp::Mul, *a, *b, r),
        Expression::Div(a, b) => binary_folds(BinaryOp::Div, *a, *b, r),
        Expression::Add(a, b) => binary_folds(BinaryOp::Add, *a, *b, r),
        Expression::Sub(a, b) => binary_folds(BinaryOp::Sub, *a, *b, r),
        Expression::Neg(a) => negation_folds(*a, r),
        Expression::Call(f, args) => call_folds(f, args@, r),
        _ => r == e,
    }
}

/// No value anywhere in the tree is NaN.
pub open spec fn tree_ok(e: Expression) -> bool
    decreases e,
{
    match e {
        Expression::Value(v) => v.wf(),
        Expression::Error(_) => true,
        Expression::Exp(a, b) => tree_ok(*a) && tree_ok(*b),
        Expression::Mul(a, b) => tree_ok(*a) && tree_ok(*b),
        Expression::Div(a, b) => tree_ok(*a) && tree_ok(*b),
        Expression::Add(a, b) => tree_ok(*a) && tree_ok(*b),
        Expression::Sub(a, b) => tree_ok(*a) && tree_ok(*b),
        Expression::Neg(a) => tree_ok(*a),
        Expression::Call(_, args) => forall|i: int|
            0 <= i < args@.len() ==> tree_ok(#[trigger] args@[i]),
    }
}

/// Folding `-(-e)` gives `e` back, whatever `e` is.
pub proof fn lemma_double_negation(e: Expression, r: Expression)
    requires
        folds_to(Expression::Neg(Box::new(Expression::Neg(Box::new(e)))), r),
    ensures
        r == e,
{
}

/// Negating a known value and folding, twice over, gives the value back.
pub proof fn lemma_negate_value_twice(v: UnitValue, once: Expression, twice: Expression)
    requires
        folds_to(Expression::Neg(Box::new(Expression::Value(v))), once),
        folds_to(Expression::Neg(Box::new(once)), twice),
    ensures
        twice == Expression::Value(v),
{
    v.value.lemma_neg_neg();
}

/// An error absorbs every operator: `e op Error(k)` folds to `Error(k)`, and
/// `Error(k) op e` folds to `Error(k)` unless `e` is itself an error, which
/// then wins as the right operand.
pub proof fn lemma_error_absorbs(
    op: BinaryOp,
    k: ArithmeticError,
    e: Expression,
    left: Expression,
    right: Expression,
)
    requires
        folds_to(node(op, Expression::Error(k), e), left),
        folds_to(node(op, e, Expression::Error(k)), right),
    ensures
        right == Expression::Error(k),
        left == (if e is Error {
            e
        } else {
            Expression::Error(k)
        }),
{
}

/// Negation keeps an error.
pub proof fn lemma_negated_error(k: ArithmeticError, r: Expression)
    requires
        folds_to(Expression::Neg(Box::new(Expression::Error(k))), r),
    ensures
        r == Expression::Error(k),
{
}

/// The exact result of `x op y` on fractions, where it fits.
pub open spec fn exact_op(op: BinaryOp, x: (int, int), y: (int, int)) -> Option<(int, int)> {
    match op {
        BinaryOp::Add => fitting(sum_of(x, y)),
        BinaryOp::Sub => fitting(difference_of(x, y)),
        BinaryOp::Mul => fitting(product_of(x, y)),
        BinaryOp::Div => if y.0 != 0 {
            fitting(quotient_of(x, y))
        } else {
            None
        },
        BinaryOp::Exp => if y.1 == 1 {
            power_of(x, y.0)
        } else {
            None
        },
    }
}

/// Folding an operator on two dimensionless exact values gives the exact
/// mathematical result wherever that fits in a fraction.
pub proof fn lemma_exact_fold(op: BinaryOp, a: UnitValue, b: UnitValue, p: (int, int), r: Expression)
    requires
        a.value is Exact,
        b.value is Exact,
        a.unit == dimensionless(),
        b.unit == dimensionless(),
        exact_op(op, a.value->Exact_0@, b.value->Exact_0@) == Some(p),
        folds_to(node(op, Expression::Value(a), Expression::Value(b)), r),
    ensures
        r matches Expression::Value(v) && v.unit == dimensionless() && (v.value matches Value::Exact(
            q,
        ) && q@ == p),
{
    let res = choose|res: Result<UnitValue, ArithmeticError>|
        op_outcome(op, a, b, res) && r == lift(res);
    assert(op_outcome(op, a, b, res) && r == lift(res));
    let z = dimensionless();
    assert(crate::unit::unit_sum(z@, z@) =~= z@);
    assert(crate::unit::unit_difference(z@, z@) =~= z@);
    assert(crate::unit::exponents_fit(z@));
    if let Ok(w) = res {
        if w.unit@ == z@ {
            assert(w.unit@[0] == 0 && w.unit@[1] == 0 && w.unit@[2] == 0 && w.unit@[3] == 0
                && w.unit@[4] == 0 && w.unit@[5] == 0 && w.unit@[6] == 0);
            assert(w.unit == z);
        }
    }
}

/// No operator outcome is NaN.
proof fn lemma_outcome_ok(
    op: BinaryOp,
    a: UnitValue,
    b: UnitValue,
    r: Result<UnitValue, ArithmeticError>,
)
    requires
        op_outcome(op, a, b, r),
    ensures
        tree_ok(lift(r)),
{
}

/// Applies a binary operator to two known values.
fn apply<H: Host>(op: BinaryOp, x: &UnitValue, y: &UnitValue, host: &H) -> (r: Result<
    UnitValue,
    ArithmeticError,
>)
    ensures
        op_outcome(op, *x, *y, r),
{
    match op {
        BinaryOp::Exp => x.pow(y, host),
        BinaryOp::Mul => x.mul(y, host),
        BinaryOp::Div => x.div(y, host),
        BinaryOp::Add => x.add(y, host),
        BinaryOp::Sub => x.sub(y, host),
    }
}

/// Builds the node `a op b`.
fn make_node(op: BinaryOp, a: Box<Expression>, b: Box<Expression>) -> (r: Expression)
    ensures
        r == node(op, *a, *b),
{
    match op {
        BinaryOp::Exp => Expression::Exp(a, b),
        BinaryOp::Mul => Expression::Mul(a, b),
        BinaryOp::Div => Expression::Div(a, b),
        BinaryOp::Add => Expression::Add(a, b),
        BinaryOp::Sub => Expression::Sub(a, b),
    }
}

/// An outcome as a leaf.
fn lift_result(r: Result<UnitValue, ArithmeticError>) -> (e: Expression)
    ensures
        e == lift(r),
{
    match r {
        Ok(v) => Expression::Value(v),
        Err(k) => Expression::Error(k),
    }
}

/// One folding step on `a op b`.
fn fold_binary<H: Host>(op: BinaryOp, a: Box<Expression>, b: Box<Expression>, host: &H) -> (r:
    Expression)
    requires
        tree_ok(*a),
        tree_ok(*b),
    ensures
        binary_folds(op, *a, *b, r),
        tree_ok(r),
{
    let known: Option<Expression> = match (&*a, &*b) {
        (Expression::Value(x), Expression::Value(y)) => {
            let res = apply(op, x, y, host);
            proof {
                lemma_outcome_ok(op, *x, *y, res);
            }
            Some(lift_result(res))
        },
        (_, Expression::Error(k)) => Some(Expression::Error(*k)),
        (Expression::Error(k), _) => Some(Expression::Error(*k)),
        _ => None,
    };
    match known {
        Some(r) => r,
        None => make_node(op, a, b),
    }
}

/// One folding step on `-a`.
fn fold_negation(a: Box<Expression>) -> (r: Expression)
    requires
        tree_ok(*a),
    ensures
        negation_folds(*a, r),
        tree_ok(r),
{
    let inner: Expression = *a;
    match inner {
        Expression::Value(x) => Expression::Value(x.neg()),
        Expression::Neg(y) => *y,
        Expression::Error(k) => Expression::Error(k),
        other => Expression::Neg(Box::new(other)),
    }
}

/// The doubles that a call hands its function: one per argument, in order,
/// where every argument is a dimensionless value (an inexact one gives its own
/// double); `None` otherwise.
pub fn call_arguments<H: Host>(args: &Vec<Expression>, host: &H) -> (r: Option<Vec<Float>>)
    ensures
        r is Some <==> all_plain(args@),
        r matches Some(v) ==> v@.len() == args@.len() && forall|i: int|
            0 <= i < args@.len() ==> (args@[i] matches Expression::Value(w) && (w.value matches Value::Inexact(
                x,
            ) ==> #[trigger] v@[i] == x)),
{
    let mut floats: Vec<Float> = Vec::new();
    let mut i: usize = 0;
    while i < args.len()
        invariant
            0 <= i <= args@.len(),
            floats@.len() == i,
            forall|j: int|
                0 <= j < i ==> (#[trigger] args@[j] matches Expression::Value(w) && w.unit
                    == dimensionless()),
            forall|j: int|
                0 <= j < i ==> (args@[j] matches Expression::Value(w) && (w.value matches Value::Inexact(
                    x,
                ) ==> #[trigger] floats@[j] == x)),
        decreases args@.len() - i,
    {
        match &args[i] {
            Expression::Value(v) => {
                if v.unitless() {
                    floats.push(v.value.as_float(host));
                } else {
                    return None;
                }
            },
            _ => {
                return None;
            },
        }
        i = i + 1;
    }
    Some(floats)
}

/// One folding step on a call of the function with handle `f`.
fn fold_call<H: Host>(f: usize, args: Vec<Expression>, host: &H) -> (r: Expression)
    requires
        forall|i: int| 0 <= i < args@.len() ==> tree_ok(#[trigger] args@[i]),
    ensures
        call_folds(f, args@, r),
        tree_ok(r),
{
    if let Some(floats) = call_arguments(&args, host) {
        return lift_result(UnitValue::from_float(host.call(f, &floats)));
    }
    let mut j: usize = 0;
    while j < args.len()
        invariant
            0 <= j <= args@.len(),
            !all_plain(args@),
            forall|m: int| 0 <= m < j ==> !(#[trigger] args@[m] is Error),
        decreases args@.len() - j,
    {
        if let Expression::Error(k) = &args[j] {
            let k = *k;
            assert(first_error(args@, k));
            return Expression::Error(k);
        }
        j = j + 1;
    }
    Expression::Call(f, args)
}

/// Things that can become a value with a unit, or fail trying.
pub trait ToValue {
    /// What `to_value` returns.
    spec fn value_spec(&self) -> Result<UnitValue, ArithmeticError>;

    /// The value, or the error.
    fn to_value(&self) -> (r: Result<UnitValue, ArithmeticError>)
        ensures
            r == self.value_spec(),
    ;
}

impl ToValue for Result<UnitValue, ArithmeticError> {
    open spec fn value_spec(&self) -> Result<UnitValue, ArithmeticError> {
        *self
    }

    fn to_value(&self) -> (r: Result<UnitValue, ArithmeticError>) {
        *self
    }
}

impl ToValue for UnitValue {
    open spec fn value_spec(&self) -> Result<UnitValue, ArithmeticError> {
        Ok(*self)
    }

    fn to_value(&self) -> (r: Result<UnitValue, ArithmeticError>) {
        Ok(*self)
    }
}

impl ToValue for Float {
    /// A double is a dimensionless inexact value, unless it is NaN.
    open spec fn value_spec(&self) -> Result<UnitValue, ArithmeticError> {
        if is_nan_bits(self.0) {
            Err(ArithmeticError::DomainError)
        } else {
            Ok(UnitValue { value: Value::Inexact(*self), unit: dimensionless() })
        }
    }

    fn to_value(&self) -> (r: Result<UnitValue, ArithmeticError>) {
        if self.is_nan() {
            Err(ArithmeticError::DomainError)
        } else {
            Ok(UnitValue { value: Value::Inexact(*self), unit: crate::unit::Unit::zero() })
        }
    }
}

/// A leaf for anything that converts to a value: the value, or the error.
pub fn make_value<V: ToValue>(v: V) -> (r: Expression)
    ensures
        r == lift(v.value_spec()),
{
    lift_result(v.to_value())
}

/// A leaf for a literal the user typed; see `Value::from_input`.
pub fn input_value<H: Host>(lit: &Literal, host: &H) -> (r: Expression)
    requires
        lit.wf(),
    ensures
        tree_ok(r),
        r is Value || r is Error,
        r is Value ==> r->Value_0.unit == dimensionless(),
        input_outcome(
            lit,
            match r {
                Expression::Value(v) => Ok(v.value),
                Expression::Error(k) => Err(k),
                _ => Err(ArithmeticError::OverflowError),
            },
        ),
{
    lift_result(UnitValue::from_input(lit, host))
}

impl Expression {
    /// One folding step: collapses this node where its operands allow.
    pub fn simplify1<H: Host>(self, host: &H) -> (r: Expression)
        requires
            tree_ok(self),
        ensures
            folds_to(self, r),
            tree_ok(r),
    {
        match self {
            Expression::Exp(a, b) => fold_binary(BinaryOp::Exp, a, b, host),
            Expression::Mul(a, b) => fold_binary(BinaryOp::Mul, a, b, host),
            Expression::Div(a, b) => fold_binary(BinaryOp::Div, a, b, host),
            Expression::Add(a, b) => fold_binary(BinaryOp::Add, a, b, host),
            Expression::Sub(a, b) => fold_binary(BinaryOp::Sub, a, b, host),
            Expression::Neg(a) => fold_negation(a),
            Expression::Call(f, args) => fold_call(f, args, host),
            Expression::Value(v) => Expression::Value(v),
            Expression::Error(k) => Expression::Error(k),
        }
    }

    /// Whether this is a known value.
    pub fn is_known(&self) -> (r: bool)
        ensures
            r == self is Value,
    {
        match self {
            Expression::Value(_) => true,
            _ => false,
        }
    }

    /// Whether this is an error.
    pub fn is_error(&self) -> (r: bool)
        ensures
            r == self is Error,
    {
        match self {
            Expression::Error(_) => true,
            _ => false,
        }
    }

    /// The known value as a double.
    pub fn extract_float<H: Host>(&self, host: &H) -> (r: Float)
        requires
            self is Value,
        ensures
            self->Value_0.value matches Value::Inexact(f) ==> r == f,
    {
        self.extract_value().value.as_float(host)
    }

    /// The known value.
    pub fn extract_value(&self) -> (r: UnitValue)
        requires
            self is Value,
        ensures
            self == Expression::Value(r),
    {
        match self {
            Expression::Value(v) => *v,
            _ => {
                assert(false);
                UnitValue { value: Value::Inexact(Float(0)), unit: crate::unit::Unit::zero() }
            },
        }
    }
}

} // verus!
