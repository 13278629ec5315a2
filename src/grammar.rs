use vstd::prelude::*;
use crate::expr::{BinaryOp, Expression, exact_op, folds_to, node, lift, op_outcome};
use crate::unit::{unit_sum, unit_difference, exponents_fit};
use crate::uval::UnitValue;
use crate::rational::{power_of, lemma_power_representable};
use crate::literal::eighths_of;
use crate::parser::{CharClass, in_class, is_alpha};
use crate::rational::{canonical, representable};
use crate::unit::dimensionless;
use crate::value::{ArithmeticError, Value};

verus! {

/// What the grammar knows of a folded expression without asking the host.
pub enum Model {
    /// An exact, dimensionless number.
    Exact((int, int)),
    /// This error.
    Fail(ArithmeticError),
    /// A dimensionless inexact value, or a `DomainError` (a NaN).
    Approx,
    /// This error, or a `DomainError`.
    ApproxFail(ArithmeticError),
}

/// What the grammar gives at a position, without asking the host.
pub enum Parsed {
    /// Nothing parses here.
    NoParse,
    /// The outcome hangs on a name that only the host can look up.
    NeedsHost,
    /// A parse with this model, ending at this position.
    Done(Model, int),
}

/// The bytes with the underscores left out.
pub open spec fn strip(s: Seq<u8>) -> Seq<u8>
    decreases s.len(),
{
    if s.len() == 0 {
        s
    } else if s.last() == 95 {
        strip(s.drop_last())
    } else {
        strip(s.drop_last()).push(s.last())
    }
}

/// The end of the longest run of `class` bytes from `pos`.
pub open spec fn run_end(s: Seq<u8>, pos: int, class: CharClass) -> int
    decreases s.len() - pos,
{
    if 0 <= pos < s.len() && in_class(s[pos], class) {
        run_end(s, pos + 1, class)
    } else {
        pos
    }
}

/// The mantissa of a decimal literal at `pos`: its digits (underscores left
/// out, a leading `0` where it starts with a point), how many follow the
/// point, and where it ends.
pub open spec fn g_mantissa(s: Seq<u8>, pos: int) -> Option<(Seq<u8>, nat, int)> {
    if 0 <= pos < s.len() && in_class(s[pos], CharClass::Decimal) {
        let ie = run_end(s, pos, CharClass::Decimal);
        let dot = ie < s.len() && s[ie] == 46;
        let fe = if dot {
            run_end(s, ie + 1, CharClass::Decimal)
        } else {
            ie
        };
        let frac = if dot {
            strip(s.subrange(ie + 1, fe))
        } else {
            Seq::<u8>::empty()
        };
        Some((strip(s.subrange(pos, ie)) + frac, frac.len(), fe))
    } else if 0 <= pos < s.len() && s[pos] == 46 {
        let fe = run_end(s, pos + 1, CharClass::Decimal);
        if fe == pos + 1 {
            None
        } else {
            let frac = strip(s.subrange(pos + 1, fe));
            Some((seq![48u8] + frac, frac.len(), fe))
        }
    } else {
        None
    }
}

/// A decimal literal at `pos`: the mantissa, then `e` or `E`, an optional
/// sign and digits where digits follow. Gives the mantissa digits, the
/// fraction length, whether there is an exponent, whether it is negative,
/// its digits, and the end. It needs a mantissa digit, and an exponent digit
/// where an exponent was read.
pub open spec fn g_number(s: Seq<u8>, pos: int) -> Option<(Seq<u8>, nat, bool, bool, Seq<u8>, int)> {
    match g_mantissa(s, pos) {
        Some((d, f, p)) => {
            let marked = 0 <= p < s.len() && (s[p] == 101 || s[p] == 69);
            let signed = marked && p + 1 < s.len() && (s[p + 1] == 43 || s[p + 1] == 45);
            let q = if signed {
                p + 2
            } else {
                p + 1
            };
            let ee = run_end(s, q, CharClass::Decimal);
            let has_exp = marked && ee > q;
            let x = if has_exp {
                strip(s.subrange(q, ee))
            } else {
                Seq::<u8>::empty()
            };
            let neg = has_exp && signed && s[p + 1] == 45;
            let end = if has_exp {
                ee
            } else {
                p
            };
            if d.len() == 0 || (has_exp && x.len() == 0) {
                None
            } else {
                Some((d, f, has_exp, neg, x, end))
            }
        },
        None => None,
    }
}

/// A literal is exact where eight times its value is an integer of at most
/// `i32::MAX`; otherwise the host reads it as a double.
pub open spec fn literal_model(d: Seq<u8>, f: nat, neg: bool, x: Seq<u8>) -> Model {
    if exists|n: int| 0 <= n <= i32::MAX && #[trigger] eighths_of(d, f, neg, x, n) {
        Model::Exact(
            canonical(choose|n: int| 0 <= n <= i32::MAX && #[trigger] eighths_of(d, f, neg, x, n), 8),
        )
    } else {
        Model::Approx
    }
}

/// `x op y` on exact numbers: a `DivideByZeroError` for a zero divisor, the
/// exact result where it fits, otherwise floating point.
pub open spec fn exact_model(op: BinaryOp, x: (int, int), y: (int, int)) -> Model {
    if op == BinaryOp::Div && y.0 == 0 {
        Model::Fail(ArithmeticError::DivideByZeroError)
    } else {
        match exact_op(op, x, y) {
            Some(z) => Model::Exact(z),
            None => Model::Approx,
        }
    }
}

/// `a op b` folded: an error on the right wins, then one on the left.
pub open spec fn model_op(op: BinaryOp, a: Model, b: Model) -> Model {
    match b {
        Model::Fail(k) => Model::Fail(k),
        Model::ApproxFail(k) => Model::ApproxFail(k),
        _ => match a {
            Model::Fail(k) => if b is Approx {
                Model::ApproxFail(k)
            } else {
                Model::Fail(k)
            },
            Model::ApproxFail(k) => Model::ApproxFail(k),
            Model::Exact(x) => match b {
                Model::Exact(y) => exact_model(op, x, y),
                _ => Model::Approx,
            },
            Model::Approx => Model::Approx,
        },
    }
}

/// `-a` folded.
pub open spec fn model_neg(a: Model) -> Model {
    match a {
        Model::Exact(x) => Model::Exact((-x.0, x.1)),
        _ => a,
    }
}

/// A dimensionless inexact value.
pub open spec fn plain_inexact(e: Expression) -> bool {
    e matches Expression::Value(w) && w.unit == dimensionless() && w.value is Inexact && w.wf()
}

/// A folded expression is one that the model allows.
pub open spec fn agrees(m: Model, e: Expression) -> bool {
    match m {
        Model::Exact(v) => e matches Expression::Value(w) && w.unit == dimensionless() && (
        w.value matches Value::Exact(x) && x@ == v) && representable(v),
        Model::Fail(k) => e == Expression::Error(k),
        Model::Approx => plain_inexact(e) || e == Expression::Error(ArithmeticError::DomainError),
        Model::ApproxFail(k) => e == Expression::Error(k) || e == Expression::Error(
            ArithmeticError::DomainError,
        ),
    }
}

/// Folding an operator on expressions that agree with models agrees with
/// the model of the result.
pub proof fn lemma_fold_agrees(
    op: BinaryOp,
    a: Expression,
    b: Expression,
    ma: Model,
    mb: Model,
    r: Expression,
)
    requires
        agrees(ma, a),
        agrees(mb, b),
        folds_to(node(op, a, b), r),
    ensures
        agrees(model_op(op, ma, mb), r),
{
    let z = dimensionless();
    assert(unit_sum(z@, z@) =~= z@);
    assert(unit_difference(z@, z@) =~= z@);
    assert(exponents_fit(z@));
    if a is Value && b is Value {
        let x = a->Value_0;
        let y = b->Value_0;
        let res = choose|res: Result<UnitValue, ArithmeticError>|
            op_outcome(op, x, y, res) && r == lift(res);
        assert(op_outcome(op, x, y, res) && r == lift(res));
        if let Ok(w) = res {
            if w.unit@ == z@ {
                assert(w.unit@[0] == 0 && w.unit@[1] == 0 && w.unit@[2] == 0 && w.unit@[3] == 0
                    && w.unit@[4] == 0 && w.unit@[5] == 0 && w.unit@[6] == 0);
                assert(w.unit == z);
            }
        }
        if let (Model::Exact(p), Model::Exact(q)) = (ma, mb) {
            if op == BinaryOp::Exp && q.1 == 1 && power_of(p, q.0) is Some {
                lemma_power_representable(p, q.0);
            }
        }
    }
}

/// Negating and folding agrees with the negated model.
pub proof fn lemma_negation_agrees(m: Model, a: Expression, r: Expression)
    requires
        agrees(m, a),
        folds_to(Expression::Neg(Box::new(a)), r),
    ensures
        agrees(model_neg(m), r),
{
    if let Expression::Value(w) = a {
        w.value.lemma_neg_neg();
        if let Value::Exact(x) = w.value {
            x.lemma_neg_view();
        }
    }
}

/// atom := '(' ws? expr ws? ')' | number | a name (the host's)
pub open spec fn g_atom(s: Seq<u8>, pos: int) -> Parsed
    decreases s.len() - pos, 1nat,
{
    let paren: Parsed = if 0 <= pos < s.len() && s[pos] == 40 {
        let p = run_end(s, pos + 1, CharClass::Space);
        if pos < p <= s.len() {
            match g_expr(s, p) {
                Parsed::Done(m, q) => {
                    let q1 = run_end(s, q, CharClass::Space);
                    if 0 <= q1 < s.len() && s[q1] == 41 {
                        Parsed::Done(m, q1 + 1)
                    } else {
                        Parsed::NoParse
                    }
                },
                other => other,
            }
        } else {
            Parsed::NoParse
        }
    } else {
        Parsed::NoParse
    };
    if !(paren is NoParse) {
        paren
    } else if 0 <= pos < s.len() && is_alpha(s[pos]) {
        Parsed::NeedsHost
    } else {
        match g_number(s, pos) {
            Some((d, f, _he, neg, x, q)) => Parsed::Done(literal_model(d, f, neg, x), q),
            None => Parsed::NoParse,
        }
    }
}

/// imul := atom atom*
pub open spec fn g_imul(s: Seq<u8>, pos: int) -> Parsed
    decreases s.len() - pos, 2nat,
{
    match g_atom(s, pos) {
        Parsed::Done(m, q) => if pos < q <= s.len() {
            g_imul_rest(s, q, m)
        } else {
            Parsed::NoParse
        },
        other => other,
    }
}

/// The atoms after the first, multiplied into `m`.
pub open spec fn g_imul_rest(s: Seq<u8>, p: int, m: Model) -> Parsed
    decreases s.len() - p, 2nat,
{
    match g_atom(s, p) {
        Parsed::Done(r, q) => if p < q <= s.len() {
            g_imul_rest(s, q, model_op(BinaryOp::Mul, m, r))
        } else {
            Parsed::Done(m, p)
        },
        Parsed::NeedsHost => Parsed::NeedsHost,
        Parsed::NoParse => Parsed::Done(m, p),
    }
}

/// exp := imul (ws? '^' ws? unary)?
pub open spec fn g_exp(s: Seq<u8>, pos: int) -> Parsed
    decreases s.len() - pos, 3nat,
{
    match g_imul(s, pos) {
        Parsed::Done(l, p) => {
            let p1 = run_end(s, p, CharClass::Space);
            if 0 <= p1 < s.len() && s[p1] == 94 {
                let p2 = run_end(s, p1 + 1, CharClass::Space);
                if pos < p2 <= s.len() {
                    match g_unary(s, p2) {
                        Parsed::Done(r, q) => Parsed::Done(model_op(BinaryOp::Exp, l, r), q),
                        Parsed::NeedsHost => Parsed::NeedsHost,
                        Parsed::NoParse => Parsed::Done(l, p),
                    }
                } else {
                    Parsed::Done(l, p)
                }
            } else {
                Parsed::Done(l, p)
            }
        },
        other => other,
    }
}

/// unary := exp | ('+' | '-') ws? unary
pub open spec fn g_unary(s: Seq<u8>, pos: int) -> Parsed
    decreases s.len() - pos, 4nat,
{
    match g_exp(s, pos) {
        Parsed::NoParse => if 0 <= pos < s.len() && (s[pos] == 43 || s[pos] == 45) {
            let p = run_end(s, pos + 1, CharClass::Space);
            if pos < p <= s.len() {
                match g_unary(s, p) {
                    Parsed::Done(v, q) => Parsed::Done(
                        if s[pos] == 45 {
                            model_neg(v)
                        } else {
                            v
                        },
                        q,
                    ),
                    other => other,
                }
            } else {
                Parsed::NoParse
            }
        } else {
            Parsed::NoParse
        },
        other => other,
    }
}

/// Where the operator of a factor term at `pos` ends, and which it is:
/// `*` or `/` after optional whitespace, or whitespace not followed by `+`
/// or `-` (a product).
pub open spec fn g_facterm_op(s: Seq<u8>, pos: int) -> Option<(BinaryOp, int)> {
    let p1 = run_end(s, pos, CharClass::Space);
    if 0 <= p1 < s.len() && s[p1] == 42 {
        Some((BinaryOp::Mul, p1 + 1))
    } else if 0 <= p1 < s.len() && s[p1] == 47 {
        Some((BinaryOp::Div, p1 + 1))
    } else if p1 > pos && (p1 == s.len() || (s[p1] != 43 && s[p1] != 45)) {
        Some((BinaryOp::Mul, p1))
    } else {
        None
    }
}

/// facterm := operator ws? unary
pub open spec fn g_facterm(s: Seq<u8>, pos: int) -> Parsed
    decreases s.len() - pos, 5nat,
{
    match g_facterm_op(s, pos) {
        Some((_op, p)) => {
            let p2 = run_end(s, p, CharClass::Space);
            if pos <= p2 <= s.len() {
                g_unary(s, p2)
            } else {
                Parsed::NoParse
            }
        },
        None => Parsed::NoParse,
    }
}

/// fac := unary facterm*
pub open spec fn g_fac(s: Seq<u8>, pos: int) -> Parsed
    decreases s.len() - pos, 6nat,
{
    match g_unary(s, pos) {
        Parsed::Done(m, q) => if pos < q <= s.len() {
            g_fac_rest(s, q, m)
        } else {
            Parsed::NoParse
        },
        other => other,
    }
}

/// The factor terms after the first, applied to `m` from left to right.
pub open spec fn g_fac_rest(s: Seq<u8>, p: int, m: Model) -> Parsed
    decreases s.len() - p, 6nat,
{
    match g_facterm(s, p) {
        Parsed::Done(r, q) => if p < q <= s.len() {
            g_fac_rest(s, q, model_op(g_facterm_op(s, p)->Some_0.0, m, r))
        } else {
            Parsed::Done(m, p)
        },
        Parsed::NeedsHost => Parsed::NeedsHost,
        Parsed::NoParse => Parsed::Done(m, p),
    }
}

/// expr := fac (ws? ('+' | '-') ws? fac)*
pub open spec fn g_expr(s: Seq<u8>, pos: int) -> Parsed
    decreases s.len() - pos, 7nat,
{
    match g_fac(s, pos) {
        Parsed::Done(m, q) => if pos < q <= s.len() {
            g_expr_rest(s, q, m)
        } else {
            Parsed::NoParse
        },
        other => other,
    }
}

/// The sums and differences after the first factor, applied to `m` from
/// left to right.
pub open spec fn g_expr_rest(s: Seq<u8>, p: int, m: Model) -> Parsed
    decreases s.len() - p, 7nat,
{
    let p1 = run_end(s, p, CharClass::Space);
    if 0 <= p1 < s.len() && (s[p1] == 43 || s[p1] == 45) {
        let op = if s[p1] == 43 {
            BinaryOp::Add
        } else {
            BinaryOp::Sub
        };
        let p2 = run_end(s, p1 + 1, CharClass::Space);
        if p < p2 <= s.len() {
            match g_fac(s, p2) {
                Parsed::Done(r, q) => if p2 < q <= s.len() {
                    g_expr_rest(s, q, model_op(op, m, r))
                } else {
                    Parsed::Done(m, p)
                },
                Parsed::NeedsHost => Parsed::NeedsHost,
                Parsed::NoParse => Parsed::Done(m, p),
            }
        } else {
            Parsed::Done(m, p)
        }
    } else {
        Parsed::Done(m, p)
    }
}

/// input := ws? expr ws?, the whole input.
pub open spec fn g_input(s: Seq<u8>) -> Parsed {
    let p0 = run_end(s, 0, CharClass::Space);
    match g_expr(s, p0) {
        Parsed::Done(m, p) => if run_end(s, p, CharClass::Space) == s.len() {
            Parsed::Done(m, s.len() as int)
        } else {
            Parsed::NoParse
        },
        other => other,
    }
}

} // verus!
