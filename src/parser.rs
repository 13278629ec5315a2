use vstd::prelude::*;
use crate::expr::{Expression, BinaryOp, tree_ok, input_value, folds_to, node};
use crate::host::Host;
use crate::literal::{Literal, is_digit, is_eighths, eighths_of};
use crate::grammar::{
    Model,
    Parsed,
    run_end,
    strip,
    g_number,
    agrees,
    model_op,
    g_atom,
    g_imul,
    g_imul_rest,
    g_exp,
    g_unary,
    g_facterm_op,
    g_facterm,
    g_fac,
    g_fac_rest,
    g_expr,
    g_expr_rest,
    g_input,
    lemma_fold_agrees,
    lemma_negation_agrees,
};
use crate::uval::UnitValue;
use crate::value::{ArithmeticError, Value, lemma_literal_exactness};
use crate::rational::canonical;

verus! {

/// The classes of bytes that the grammar reads runs of.
#[derive(Clone, Copy, Debug, PartialEq, Eq, Structural)]
pub enum CharClass {
    /// Space, tab, carriage return, line feed.
    Space,
    /// ASCII letters.
    Alpha,
    /// ASCII letters and digits.
    Alnum,
    /// ASCII letters, digits and the underscore.
    Name,
    /// ASCII digits and the underscore.
    Decimal,
}

/// Whether `c` is an ASCII letter.
pub open spec fn is_alpha(c: u8) -> bool {
    (65 <= c <= 90) || (97 <= c <= 122)
}

/// The bytes an expression may hold: letters, digits, underscores,
/// whitespace, and `+ - * / ^ ( ) , .`.
pub open spec fn in_alphabet(c: u8) -> bool {
    in_class(c, CharClass::Name) || in_class(c, CharClass::Space) || c == 43 || c == 45 || c
        == 42 || c == 47 || c == 94 || c == 40 || c == 41 || c == 44 || c == 46
}

/// Every byte of `s[a..b]` is in the alphabet.
pub open spec fn alphabet_only(s: Seq<u8>, a: int, b: int) -> bool {
    forall|i: int| a <= i < b ==> in_alphabet(#[trigger] s[i])
}

/// Whether byte `c` belongs to `class`.
pub open spec fn in_class(c: u8, class: CharClass) -> bool {
    match class {
        CharClass::Space => c == 32 || c == 9 || c == 10 || c == 13,
        CharClass::Alpha => is_alpha(c),
        CharClass::Alnum => is_alpha(c) || is_digit(c),
        CharClass::Name => is_alpha(c) || is_digit(c) || c == 95,
        CharClass::Decimal => is_digit(c) || c == 95,
    }
}

fn belongs(c: u8, class: CharClass) -> (r: bool)
    ensures
        r == in_class(c, class),
{
    match class {
        CharClass::Space => c == 32 || c == 9 || c == 10 || c == 13,
        CharClass::Alpha => (65 <= c && c <= 90) || (97 <= c && c <= 122),
        CharClass::Alnum => (65 <= c && c <= 90) || (97 <= c && c <= 122) || (48 <= c && c <= 57),
        CharClass::Name => (65 <= c && c <= 90) || (97 <= c && c <= 122) || (48 <= c && c <= 57)
            || c == 95,
        CharClass::Decimal => (48 <= c && c <= 57) || c == 95,
    }
}

/// The end of the longest run of `class` bytes that starts at `pos`.
pub fn span(s: &[u8], pos: usize, class: CharClass) -> (r: usize)
    requires
        pos <= s@.len(),
    ensures
        pos <= r <= s@.len(),
        forall|i: int| pos <= i < r ==> in_class(#[trigger] s@[i], class),
        r == s@.len() || !in_class(s@[r as int], class),
        r == run_end(s@, pos as int, class),
{
    let mut p = pos;
    while p < s.len() && belongs(s[p], class)
        invariant
            pos <= p <= s@.len(),
            forall|i: int| pos <= i < p ==> in_class(#[trigger] s@[i], class),
            run_end(s@, p as int, class) == run_end(s@, pos as int, class),
        decreases s@.len() - p,
    {
        p = p + 1;
    }
    p
}

/// The bytes `s[a..b]`.
fn copy_range(s: &[u8], a: usize, b: usize) -> (r: Vec<u8>)
    requires
        a <= b <= s@.len(),
    ensures
        r@ == s@.subrange(a as int, b as int),
{
    let mut r: Vec<u8> = Vec::new();
    let mut i = a;
    while i < b
        invariant
            a <= i <= b <= s@.len(),
            r@ == s@.subrange(a as int, i as int),
        decreases b - i,
    {
        r.push(s[i]);
        i = i + 1;
    }
    r
}

/// Appends the digits of `s[a..b]`, a run of digits and underscores, to
/// `out`, leaving out the underscores.
fn push_digits(s: &[u8], a: usize, b: usize, out: &mut Vec<u8>)
    requires
        a <= b <= s@.len(),
        forall|i: int| a <= i < b ==> in_class(#[trigger] s@[i], CharClass::Decimal),
        forall|i: int| 0 <= i < old(out)@.len() ==> is_digit(#[trigger] old(out)@[i]),
    ensures
        final(out)@.len() >= old(out)@.len(),
        final(out)@.len() <= old(out)@.len() + (b - a),
        forall|i: int| 0 <= i < final(out)@.len() ==> is_digit(#[trigger] final(out)@[i]),
        (exists|i: int| a <= i < b && is_digit(s@[i])) ==> final(out)@.len() > old(out)@.len(),
        final(out)@ == old(out)@ + strip(s@.subrange(a as int, b as int)),
{
    let mut i = a;
    while i < b
        invariant
            a <= i <= b <= s@.len(),
            forall|k: int| a <= k < b ==> in_class(#[trigger] s@[k], CharClass::Decimal),
            out@.len() >= old(out)@.len(),
            out@.len() <= old(out)@.len() + (i - a),
            forall|k: int| 0 <= k < out@.len() ==> is_digit(#[trigger] out@[k]),
            (exists|k: int| a <= k < i && is_digit(s@[k])) ==> out@.len() > old(out)@.len(),
            out@ == old(out)@ + strip(s@.subrange(a as int, i as int)),
        decreases b - i,
    {
        proof {
            let next = s@.subrange(a as int, i + 1);
            assert(next.drop_last() =~= s@.subrange(a as int, i as int));
            assert(next.last() == s@[i as int]);
            assert(old(out)@ + strip(next.drop_last()).push(next.last()) =~= (old(out)@ + strip(
                next.drop_last(),
            )).push(next.last()));
        }
        if s[i] != 95u8 {
            out.push(s[i]);
        }
        i = i + 1;
    }
}

/// A decimal literal at `pos`: digits (with underscores) and an optional
/// fraction, or a point and digits; then an optional exponent marker `e` or
/// `E`, sign and digits (left unread where no digit follows). It must hold a
/// mantissa digit, and an exponent digit where an exponent was read.
pub fn number(s: &[u8], pos: usize) -> (r: Option<(Literal, usize)>)
    requires
        pos <= s@.len(),
    ensures
        r matches Some((lit, p)) ==> lit.wf() && pos < p <= s@.len() && alphabet_only(
            s@,
            pos as int,
            p as int,
        ),
        match g_number(s@, pos as int) {
            Some((d, f, he, neg, x, q)) => r matches Some((lit, p)) && p == q && lit.digits@ == d
                && lit.frac_len == f && lit.has_exp == he && lit.exp_negative == neg
                && lit.exp_digits@ == x,
            None => r is None,
        },
{
    let len = s.len();
    let mut digits: Vec<u8> = Vec::new();
    let mut frac_len: usize = 0;
    let mut p: usize;
    let int_end = span(s, pos, CharClass::Decimal);
    if int_end > pos {
        push_digits(s, pos, int_end, &mut digits);
        p = int_end;
        if p < len && s[p] == 46u8 {
            let frac_end = span(s, p + 1, CharClass::Decimal);
            let before = digits.len();
            push_digits(s, p + 1, frac_end, &mut digits);
            frac_len = digits.len() - before;
            p = frac_end;
        }
    } else if pos < len && s[pos] == 46u8 {
        let frac_end = span(s, pos + 1, CharClass::Decimal);
        if frac_end == pos + 1 {
            return None;
        }
        digits.push(48u8);
        push_digits(s, pos + 1, frac_end, &mut digits);
        frac_len = digits.len() - 1;
        p = frac_end;
    } else {
        return None;
    }
    let mut has_exp = false;
    let mut exp_negative = false;
    let mut exp_digits: Vec<u8> = Vec::new();
    if p < len && (s[p] == 101u8 || s[p] == 69u8) {
        let mut q = p + 1;
        let mut negative = false;
        if q < len && (s[q] == 43u8 || s[q] == 45u8) {
            negative = s[q] == 45u8;
            q = q + 1;
        }
        let exp_end = span(s, q, CharClass::Decimal);
        if exp_end > q {
            has_exp = true;
            exp_negative = negative;
            push_digits(s, q, exp_end, &mut exp_digits);
            p = exp_end;
        }
    }
    if digits.len() == 0 || (has_exp && exp_digits.len() == 0) {
        return None;
    }
    if !has_exp {
        exp_digits = Vec::new();
    }
    Some((Literal { digits, frac_len, has_exp, exp_negative, exp_digits }, p))
}

/// An outcome as a leaf.
fn leaf(r: Result<UnitValue, ArithmeticError>) -> (e: Expression)
    requires
        r is Ok ==> r->Ok_0.wf(),
    ensures
        tree_ok(e),
{
    match r {
        Ok(v) => Expression::Value(v),
        Err(k) => Expression::Error(k),
    }
}

/// A unit from the host as a leaf; a NaN in it is a `DomainError`.
fn unit_leaf(v: UnitValue) -> (e: Expression)
    ensures
        tree_ok(e),
{
    match v.value {
        Value::Inexact(f) => if f.is_nan() {
            Expression::Error(ArithmeticError::DomainError)
        } else {
            Expression::Value(v)
        },
        Value::Exact(_) => Expression::Value(v),
    }
}

/// Folds `a op b`.
fn combine<H: Host>(op: BinaryOp, a: Expression, b: Expression, host: &H) -> (r: Expression)
    requires
        tree_ok(a),
        tree_ok(b),
    ensures
        tree_ok(r),
        folds_to(node(op, a, b), r),
{
    let n = match op {
        BinaryOp::Exp => Expression::Exp(Box::new(a), Box::new(b)),
        BinaryOp::Mul => Expression::Mul(Box::new(a), Box::new(b)),
        BinaryOp::Div => Expression::Div(Box::new(a), Box::new(b)),
        BinaryOp::Add => Expression::Add(Box::new(a), Box::new(b)),
        BinaryOp::Sub => Expression::Sub(Box::new(a), Box::new(b)),
    };
    n.simplify1(host)
}

/// An atom at `pos`: a parenthesised expression, a function call, a number,
/// a numerical constant (letters only) or a unit. Names of functions and
/// units start with a letter; a function name holds letters and digits, a
/// unit name letters, digits and underscores.
fn atom<H: Host>(s: &[u8], pos: usize, host: &H) -> (r: Option<(Expression, usize)>)
    requires
        pos <= s@.len(),
    ensures
        r matches Some((e, p)) ==> pos < p <= s@.len() && tree_ok(e) && alphabet_only(s@, pos as int, p as int),
        match g_atom(s@, pos as int) {
            Parsed::Done(m, q) => r matches Some((e, p)) && p == q && agrees(m, e),
            Parsed::NoParse => r is None,
            Parsed::NeedsHost => true,
        },
    decreases s@.len() - pos, 1nat,
{
    let len = s.len();
    if pos < len && s[pos] == 40u8 {
        let p = span(s, pos + 1, CharClass::Space);
        if let Some((e, q)) = expr(s, p, host) {
            let q1 = span(s, q, CharClass::Space);
            if q1 < len && s[q1] == 41u8 {
                return Some((e, q1 + 1));
            }
        }
    }
    let starts_name = pos < len && belongs(s[pos], CharClass::Alpha);
    let name_end = span(s, pos, CharClass::Alnum);
    if starts_name && name_end < len && s[name_end] == 40u8 {
        if let Some(f) = host.function(&copy_range(s, pos, name_end)) {
            if let Some(r) = call_args(s, name_end + 1, f, host) {
                return Some(r);
            }
        }
    }
    if let Some((lit, p)) = number(s, pos) {
        let e = input_value(&lit, host);
        proof {
            let d = lit.digits@;
            let f = lit.frac_len as nat;
            let neg = lit.exp_negative;
            let x = lit.exp_digits@;
            let v = match e {
                Expression::Value(w) => Ok(w.value),
                Expression::Error(k) => Err(k),
                _ => Err(ArithmeticError::OverflowError),
            };
            if exists|n: int| 0 <= n <= i32::MAX && #[trigger] eighths_of(d, f, neg, x, n) {
                let n = choose|n: int| 0 <= n <= i32::MAX && #[trigger] eighths_of(d, f, neg, x, n);
                assert(is_eighths(&lit, n));
                lemma_literal_exactness(&lit, n, v);
                crate::rational::lemma_canonical_bounded(n, 8);
            } else {
                if let Ok(Value::Exact(q)) = v {
                    let n = choose|n: int|
                        0 <= n <= i32::MAX && is_eighths(&lit, n) && q@ == canonical(n, 8);
                    assert(eighths_of(d, f, neg, x, n));
                }
            }
        }
        return Some((e, p));
    }
    let alpha_end = span(s, pos, CharClass::Alpha);
    if alpha_end > pos {
        if let Some(f) = host.constant(&copy_range(s, pos, alpha_end)) {
            return Some((leaf(UnitValue::from_float(f)), alpha_end));
        }
    }
    let unit_end = span(s, pos, CharClass::Name);
    if starts_name {
        if let Some(v) = host.unit(&copy_range(s, pos, unit_end)) {
            return Some((unit_leaf(v), unit_end));
        }
    }
    None
}

/// The arguments of a call after its opening parenthesis at `pos - 1`: one
/// or more expressions separated by commas, then `)`.
fn call_args<H: Host>(s: &[u8], pos: usize, f: usize, host: &H) -> (r: Option<(Expression, usize)>)
    requires
        1 <= pos <= s@.len(),
    ensures
        r matches Some((e, p)) ==> pos < p <= s@.len() && tree_ok(e) && alphabet_only(s@, pos as int, p as int),
    decreases s@.len() - pos, 8nat,
{
    let len = s.len();
    let p0 = span(s, pos, CharClass::Space);
    let (first, mut p) = match expr(s, p0, host) {
        Some(x) => x,
        None => return None,
    };
    let mut args: Vec<Expression> = Vec::new();
    args.push(first);
    loop
        invariant
            pos < p <= s@.len(),
            len == s@.len(),
            forall|i: int| 0 <= i < args@.len() ==> tree_ok(#[trigger] args@[i]),
            alphabet_only(s@, pos as int, p as int),
        decreases s@.len() - p,
    {
        let q1 = span(s, p, CharClass::Space);
        if q1 < len && s[q1] == 44u8 {
            let q2 = span(s, q1 + 1, CharClass::Space);
            if let Some((e, q3)) = expr(s, q2, host) {
                args.push(e);
                p = q3;
                continue;
            }
        }
        break;
    }
    let q = span(s, p, CharClass::Space);
    if q < len && s[q] == 41u8 {
        Some((Expression::Call(f, args).simplify1(host), q + 1))
    } else {
        None
    }
}

/// Atoms written next to each other, multiplied.
fn imul<H: Host>(s: &[u8], pos: usize, host: &H) -> (r: Option<(Expression, usize)>)
    requires
        pos <= s@.len(),
    ensures
        r matches Some((e, p)) ==> pos < p <= s@.len() && tree_ok(e) && alphabet_only(s@, pos as int, p as int),
        match g_imul(s@, pos as int) {
            Parsed::Done(m, q) => r matches Some((e, p)) && p == q && agrees(m, e),
            Parsed::NoParse => r is None,
            Parsed::NeedsHost => true,
        },
    decreases s@.len() - pos, 2nat,
{
    let (mut e, mut p) = match atom(s, pos, host) {
        Some(x) => x,
        None => return None,
    };
    let ghost mut cur: Model = g_atom(s@, pos as int)->Done_0;
    loop
        invariant
            pos < p <= s@.len(),
            tree_ok(e),
            alphabet_only(s@, pos as int, p as int),
            g_imul(s@, pos as int) is NeedsHost || (g_imul(s@, pos as int) == g_imul_rest(
                s@,
                p as int,
                cur,
            ) && agrees(cur, e)),
        ensures
            pos < p <= s@.len(),
            tree_ok(e),
            alphabet_only(s@, pos as int, p as int),
            g_imul(s@, pos as int) is NeedsHost || (g_imul(s@, pos as int) == Parsed::Done(
                cur,
                p as int,
            ) && agrees(cur, e)),
        decreases s@.len() - p,
    {
        match atom(s, p, host) {
            Some((rhs, q)) => {
                let ghost mr = g_atom(s@, p as int)->Done_0;
                let ghost before = e;
                e = combine(BinaryOp::Mul, e, rhs, host);
                proof {
                    if g_atom(s@, p as int) is Done && !(g_imul(s@, pos as int) is NeedsHost) {
                        lemma_fold_agrees(BinaryOp::Mul, before, rhs, cur, mr, e);
                    }
                    cur = model_op(BinaryOp::Mul, cur, mr);
                }
                p = q;
            },
            None => break,
        }
    }
    Some((e, p))
}

/// An implicit product, raised (right-associatively) to a unary expression
/// after `^`.
fn exp<H: Host>(s: &[u8], pos: usize, host: &H) -> (r: Option<(Expression, usize)>)
    requires
        pos <= s@.len(),
    ensures
        r matches Some((e, p)) ==> pos < p <= s@.len() && tree_ok(e) && alphabet_only(s@, pos as int, p as int),
        match g_exp(s@, pos as int) {
            Parsed::Done(m, q) => r matches Some((e, p)) && p == q && agrees(m, e),
            Parsed::NoParse => r is None,
            Parsed::NeedsHost => true,
        },
    decreases s@.len() - pos, 3nat,
{
    let (lhs, p) = match imul(s, pos, host) {
        Some(x) => x,
        None => return None,
    };
    let p1 = span(s, p, CharClass::Space);
    if p1 < s.len() && s[p1] == 94u8 {
        let p2 = span(s, p1 + 1, CharClass::Space);
        if let Some((rhs, q)) = unary(s, p2, host) {
            let ghost ml = g_imul(s@, pos as int)->Done_0;
            let ghost mr = g_unary(s@, p2 as int)->Done_0;
            let ghost before = lhs;
            let r = combine(BinaryOp::Exp, lhs, rhs, host);
            proof {
                if g_imul(s@, pos as int) is Done && g_unary(s@, p2 as int) is Done {
                    lemma_fold_agrees(BinaryOp::Exp, before, rhs, ml, mr, r);
                }
            }
            return Some((r, q));
        }
    }
    Some((lhs, p))
}

/// A power, or `+` or `-` (then optional whitespace) before a unary expression.
fn unary<H: Host>(s: &[u8], pos: usize, host: &H) -> (r: Option<(Expression, usize)>)
    requires
        pos <= s@.len(),
    ensures
        r matches Some((e, p)) ==> pos < p <= s@.len() && tree_ok(e) && alphabet_only(s@, pos as int, p as int),
        match g_unary(s@, pos as int) {
            Parsed::Done(m, q) => r matches Some((e, p)) && p == q && agrees(m, e),
            Parsed::NoParse => r is None,
            Parsed::NeedsHost => true,
        },
    decreases s@.len() - pos, 4nat,
{
    if let Some(r) = exp(s, pos, host) {
        return Some(r);
    }
    if pos < s.len() && (s[pos] == 43u8 || s[pos] == 45u8) {
        let minus = s[pos] == 45u8;
        let p = span(s, pos + 1, CharClass::Space);
        if let Some((v, q)) = unary(s, p, host) {
            if minus {
                let ghost mv = g_unary(s@, p as int)->Done_0;
                let ghost before = v;
                let r = Expression::Neg(Box::new(v)).simplify1(host);
                proof {
                    if g_unary(s@, p as int) is Done {
                        lemma_negation_agrees(mv, before, r);
                    }
                }
                return Some((r, q));
            } else {
                return Some((v, q));
            }
        }
    }
    None
}

/// One factor after the first: `*` or `/` (after optional whitespace), or
/// whitespace not followed by `+` or `-` (a product), then a unary expression.
fn facterm<H: Host>(s: &[u8], pos: usize, host: &H) -> (r: Option<(BinaryOp, Expression, usize)>)
    requires
        pos <= s@.len(),
    ensures
        r matches Some((op, e, p)) ==> pos < p <= s@.len() && tree_ok(e) && (op == BinaryOp::Mul
            || op == BinaryOp::Div) && alphabet_only(s@, pos as int, p as int),
        match g_facterm(s@, pos as int) {
            Parsed::Done(m, q) => r matches Some((op, e, p)) && g_facterm_op(s@, pos as int) matches Some(
                (o, _),
            ) && op == o && p == q && agrees(m, e),
            Parsed::NoParse => r is None,
            Parsed::NeedsHost => true,
        },
    decreases s@.len() - pos, 5nat,
{
    let len = s.len();
    let p1 = span(s, pos, CharClass::Space);
    let (op, p) = if p1 < len && s[p1] == 42u8 {
        (BinaryOp::Mul, p1 + 1)
    } else if p1 < len && s[p1] == 47u8 {
        (BinaryOp::Div, p1 + 1)
    } else if p1 > pos && (p1 == len || (s[p1] != 43u8 && s[p1] != 45u8)) {
        (BinaryOp::Mul, p1)
    } else {
        return None;
    };
    let p2 = span(s, p, CharClass::Space);
    match unary(s, p2, host) {
        Some((e, q)) => Some((op, e, q)),
        None => None,
    }
}

/// Unary expressions joined by `*`, `/` or whitespace, left to right.
fn fac<H: Host>(s: &[u8], pos: usize, host: &H) -> (r: Option<(Expression, usize)>)
    requires
        pos <= s@.len(),
    ensures
        r matches Some((e, p)) ==> pos < p <= s@.len() && tree_ok(e) && alphabet_only(s@, pos as int, p as int),
        match g_fac(s@, pos as int) {
            Parsed::Done(m, q) => r matches Some((e, p)) && p == q && agrees(m, e),
            Parsed::NoParse => r is None,
            Parsed::NeedsHost => true,
        },
    decreases s@.len() - pos, 6nat,
{
    let (mut e, mut p) = match unary(s, pos, host) {
        Some(x) => x,
        None => return None,
    };
    let ghost mut cur: Model = g_unary(s@, pos as int)->Done_0;
    loop
        invariant
            pos < p <= s@.len(),
            tree_ok(e),
            alphabet_only(s@, pos as int, p as int),
            g_fac(s@, pos as int) is NeedsHost || (g_fac(s@, pos as int) == g_fac_rest(
                s@,
                p as int,
                cur,
            ) && agrees(cur, e)),
        ensures
            pos < p <= s@.len(),
            tree_ok(e),
            alphabet_only(s@, pos as int, p as int),
            g_fac(s@, pos as int) is NeedsHost || (g_fac(s@, pos as int) == Parsed::Done(
                cur,
                p as int,
            ) && agrees(cur, e)),
        decreases s@.len() - p,
    {
        match facterm(s, p, host) {
            Some((op, rhs, q)) => {
                let ghost mr = g_facterm(s@, p as int)->Done_0;
                let ghost before = e;
                e = combine(op, e, rhs, host);
                proof {
                    if g_facterm(s@, p as int) is Done && !(g_fac(s@, pos as int) is NeedsHost) {
                        lemma_fold_agrees(op, before, rhs, cur, mr, e);
                    }
                    cur = model_op(op, cur, mr);
                }
                p = q;
            },
            None => break,
        }
    }
    Some((e, p))
}

/// Factors joined by `+` or `-`, left to right.
fn expr<H: Host>(s: &[u8], pos: usize, host: &H) -> (r: Option<(Expression, usize)>)
    requires
        pos <= s@.len(),
    ensures
        r matches Some((e, p)) ==> pos < p <= s@.len() && tree_ok(e) && alphabet_only(s@, pos as int, p as int),
        match g_expr(s@, pos as int) {
            Parsed::Done(m, q) => r matches Some((e, p)) && p == q && agrees(m, e),
            Parsed::NoParse => r is None,
            Parsed::NeedsHost => true,
        },
    decreases s@.len() - pos, 7nat,
{
    let len = s.len();
    let (mut e, mut p) = match fac(s, pos, host) {
        Some(x) => x,
        None => return None,
    };
    let ghost mut cur: Model = g_fac(s@, pos as int)->Done_0;
    loop
        invariant
            pos < p <= s@.len(),
            len == s@.len(),
            tree_ok(e),
            alphabet_only(s@, pos as int, p as int),
            g_expr(s@, pos as int) is NeedsHost || (g_expr(s@, pos as int) == g_expr_rest(
                s@,
                p as int,
                cur,
            ) && agrees(cur, e)),
        ensures
            pos < p <= s@.len(),
            tree_ok(e),
            alphabet_only(s@, pos as int, p as int),
            g_expr(s@, pos as int) is NeedsHost || (g_expr(s@, pos as int) == Parsed::Done(
                cur,
                p as int,
            ) && agrees(cur, e)),
        decreases s@.len() - p,
    {
        let p1 = span(s, p, CharClass::Space);
        if p1 < len && (s[p1] == 43u8 || s[p1] == 45u8) {
            let op = if s[p1] == 43u8 {
                BinaryOp::Add
            } else {
                BinaryOp::Sub
            };
            let p2 = span(s, p1 + 1, CharClass::Space);
            if let Some((rhs, q)) = fac(s, p2, host) {
                let ghost mr = g_fac(s@, p2 as int)->Done_0;
                let ghost before = e;
                e = combine(op, e, rhs, host);
                proof {
                    if g_fac(s@, p2 as int) is Done && !(g_expr(s@, pos as int) is NeedsHost) {
                        lemma_fold_agrees(op, before, rhs, cur, mr, e);
                    }
                    cur = model_op(op, cur, mr);
                }
                p = q;
                continue;
            }
        }
        break;
    }
    Some((e, p))
}

/// Parses and folds a whole input: optional whitespace, an expression,
/// optional whitespace, and nothing after. `None` where the grammar does not
/// take the input in full.
pub fn parse<H: Host>(s: &[u8], host: &H) -> (r: Option<Expression>)
    ensures
        r matches Some(e) ==> tree_ok(e),
        s@.len() == 0 ==> r is None,
        r is Some ==> alphabet_only(s@, 0, s@.len() as int),
        match g_input(s@) {
            Parsed::Done(m, _) => r matches Some(e) && agrees(m, e),
            Parsed::NoParse => r is None,
            Parsed::NeedsHost => true,
        },
{
    let p0 = span(s, 0, CharClass::Space);
    match expr(s, p0, host) {
        Some((e, p)) => {
            let p1 = span(s, p, CharClass::Space);
            if p1 == s.len() {
                Some(e)
            } else {
                None
            }
        },
        None => None,
    }
}

} // verus!
