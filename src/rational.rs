use vstd::prelude::*;
use vstd::arithmetic::div_mod::{lemma_fundamental_div_mod, lemma_fundamental_div_mod_converse};
use vstd::arithmetic::power::{pow, lemma_pow_adds, lemma_pow_multiplies, lemma_square_is_pow2, lemma_pow1, lemma_pow0, lemma_pow_increases};

verus! {

/// Greatest common divisor of two naturals, by Euclid's recurrence.
pub open spec fn gcd_nat(a: nat, b: nat) -> nat
    decreases b,
{
    if b == 0 {
        a
    } else {
        gcd_nat(b, a % b)
    }
}

pub open spec fn abs(x: int) -> int {
    if x < 0 {
        -x
    } else {
        x
    }
}

proof fn lemma_gcd_pos(a: nat, b: nat)
    requires
        a > 0 || b > 0,
    ensures
        gcd_nat(a, b) > 0,
    decreases b,
{
    if b > 0 {
        lemma_gcd_pos(b, a % b);
    }
}

proof fn lemma_gcd_symmetric(a: nat, b: nat)
    ensures
        gcd_nat(a, b) == gcd_nat(b, a),
{
    if a == b {
    } else if a == 0 {
        assert(gcd_nat(b, 0) == b);
        vstd::arithmetic::div_mod::lemma_small_mod(0, b);
    } else if b == 0 {
        assert(gcd_nat(a, 0) == a);
        vstd::arithmetic::div_mod::lemma_small_mod(0, a);
    } else if a < b {
        vstd::arithmetic::div_mod::lemma_small_mod(a, b);
    } else {
        vstd::arithmetic::div_mod::lemma_small_mod(b, a);
    }
}

proof fn lemma_gcd_one(a: nat)
    ensures
        gcd_nat(a, 1) == 1,
{
    assert(a % 1 == 0);
    assert(gcd_nat(1, 0) == 1);
}

/// If `g` divides `x` and `y`, it divides `q * x + y`.
proof fn lemma_divides_combination(x: int, y: int, g: int, q: int)
    requires
        g > 0,
        x % g == 0,
        y % g == 0,
    ensures
        (q * x + y) % g == 0,
{
    lemma_fundamental_div_mod(x, g);
    lemma_fundamental_div_mod(y, g);
    let k = q * (x / g) + y / g;
    assert(q * x + y == k * g) by (nonlinear_arith)
        requires
            x == g * (x / g),
            y == g * (y / g),
            k == q * (x / g) + y / g,
    ;
    lemma_fundamental_div_mod_converse(q * x + y, g, k, 0);
}

proof fn lemma_gcd_divides(a: nat, b: nat)
    requires
        a > 0 || b > 0,
    ensures
        gcd_nat(a, b) > 0,
        a % gcd_nat(a, b) == 0,
        b % gcd_nat(a, b) == 0,
    decreases b,
{
    lemma_gcd_pos(a, b);
    let g = gcd_nat(a, b);
    if b == 0 {
        lemma_fundamental_div_mod_converse(a as int, a as int, 1, 0);
        lemma_fundamental_div_mod_converse(0, a as int, 0, 0);
    } else {
        lemma_gcd_divides(b, a % b);
        lemma_fundamental_div_mod(a as int, b as int);
        lemma_divides_combination(b as int, (a % b) as int, g as int, (a / b) as int);
        assert(a as int == (a / b) * b + a % b) by (nonlinear_arith)
            requires
                a as int == b * (a / b) + a % b,
        ;
    }
}

proof fn lemma_gcd_scale(a: nat, b: nat, k: nat)
    requires
        k > 0,
    ensures
        gcd_nat((a * k) as nat, (b * k) as nat) == gcd_nat(a, b) * k,
    decreases b,
{
    if b == 0 {
        assert(b * k == 0);
    } else {
        let r = a % b;
        lemma_fundamental_div_mod(a as int, b as int);
        assert(a * k == (a / b) * (b * k) + r * k && 0 <= r * k < b * k) by (nonlinear_arith)
            requires
                a as int == b * (a / b) + r,
                0 <= r < b,
                k > 0,
        ;
        lemma_fundamental_div_mod_converse((a * k) as int, (b * k) as int, (a / b) as int, (r * k) as int);
        lemma_gcd_scale(b, r, k);
        assert(b * k > 0) by (nonlinear_arith)
            requires
                b > 0,
                k > 0,
        ;
    }
}

/// Dividing both numbers by their greatest common divisor leaves no common factor.
proof fn lemma_gcd_reduce(a: nat, b: nat)
    requires
        a > 0 || b > 0,
    ensures
        gcd_nat(a, b) > 0,
        a == (a / gcd_nat(a, b)) * gcd_nat(a, b),
        b == (b / gcd_nat(a, b)) * gcd_nat(a, b),
        gcd_nat(a / gcd_nat(a, b), b / gcd_nat(a, b)) == 1,
{
    lemma_gcd_divides(a, b);
    let g = gcd_nat(a, b);
    lemma_fundamental_div_mod(a as int, g as int);
    lemma_fundamental_div_mod(b as int, g as int);
    let x = a / g;
    let y = b / g;
    assert(a == x * g && b == y * g) by (nonlinear_arith)
        requires
            a as int == g * (a as int / g as int) + 0,
            b as int == g * (b as int / g as int) + 0,
            x == a / g,
            y == b / g,
    ;
    lemma_gcd_scale(x, y, g);
    let h = gcd_nat(x, y);
    assert(h == 1) by (nonlinear_arith)
        requires
            g == h * g,
            g > 0,
    ;
}

/// Every common divisor of `a` and `b` divides their greatest common divisor.
proof fn lemma_common_divides_gcd(a: nat, b: nat, d: int)
    requires
        d > 0,
        a as int % d == 0,
        b as int % d == 0,
    ensures
        gcd_nat(a, b) as int % d == 0,
    decreases b,
{
    if b > 0 {
        let q = a as int / b as int;
        lemma_fundamental_div_mod(a as int, b as int);
        lemma_divides_combination(b as int, a as int, d, -q);
        assert((a % b) as int == -q * b + a) by (nonlinear_arith)
            requires
                a as int == b * q + (a as int % b as int),
        ;
        lemma_common_divides_gcd(b, a % b, d);
    }
}

/// Two positive numbers that divide each other are equal.
proof fn lemma_divides_antisymmetric(x: int, y: int)
    requires
        x > 0,
        y > 0,
        x % y == 0,
        y % x == 0,
    ensures
        x == y,
{
    lemma_fundamental_div_mod(x, y);
    lemma_fundamental_div_mod(y, x);
    assert(x == y) by (nonlinear_arith)
        requires
            x == y * (x / y),
            y == x * (y / x),
            x > 0,
            y > 0,
    ;
}

/// `d` divides both `a` and `b`.
spec fn common_divisor(d: int, a: nat, b: nat) -> bool {
    a as int % d == 0 && b as int % d == 0
}

/// Pairs with the same common divisors have the same greatest common divisor.
proof fn lemma_gcd_same_divisors(a: nat, b: nat, c: nat, e: nat)
    requires
        a > 0 || b > 0,
        c > 0 || e > 0,
        forall|d: int| d > 0 ==> (#[trigger] common_divisor(d, a, b) <==> common_divisor(d, c, e)),
    ensures
        gcd_nat(a, b) == gcd_nat(c, e),
{
    lemma_gcd_divides(a, b);
    lemma_gcd_divides(c, e);
    let g = gcd_nat(a, b) as int;
    let h = gcd_nat(c, e) as int;
    assert(common_divisor(g, a, b));
    assert(common_divisor(g, c, e));
    assert(common_divisor(h, c, e) ==> common_divisor(h, a, b));
    assert(common_divisor(h, a, b));
    lemma_common_divides_gcd(c, e, g);
    lemma_common_divides_gcd(a, b, h);
    lemma_divides_antisymmetric(g, h);
}

/// Subtracting the smaller number from the larger keeps the greatest common divisor.
proof fn lemma_gcd_subtract(a: nat, b: nat)
    requires
        0 < a <= b,
    ensures
        gcd_nat(a, b) == gcd_nat(a, (b - a) as nat),
{
    assert forall|d: int| d > 0 implies (#[trigger] common_divisor(d, a, b) <==> common_divisor(
        d,
        a,
        (b - a) as nat,
    )) by {
        if a as int % d == 0 && b as int % d == 0 {
            lemma_divides_combination(a as int, b as int, d, -1);
        }
        if a as int % d == 0 && (b - a) as int % d == 0 {
            lemma_divides_combination(a as int, (b - a) as int, d, 1);
        }
    }
    lemma_gcd_same_divisors(a, b, a, (b - a) as nat);
}

/// Halving an even number beside an odd one keeps the greatest common divisor.
proof fn lemma_gcd_halve(a: nat, b: nat)
    requires
        a % 2 == 0,
        b % 2 == 1,
    ensures
        gcd_nat(a, b) == gcd_nat(a / 2, b),
{
    assert forall|d: int| d > 0 implies (#[trigger] common_divisor(d, a, b) <==> common_divisor(
        d,
        (a / 2) as nat,
        b,
    )) by {
        lemma_fundamental_div_mod(a as int, 2);
        lemma_fundamental_div_mod(b as int, d);
        if b as int % d == 0 {
            // An odd number has only odd divisors.
            if d % 2 == 0 {
                lemma_fundamental_div_mod(d, 2);
                let w = (d / 2) * (b as int / d);
                assert(b as int == 2 * w) by (nonlinear_arith)
                    requires
                        b as int == d * (b as int / d) + 0,
                        d == 2 * (d / 2) + 0,
                        w == (d / 2) * (b as int / d),
                ;
                lemma_fundamental_div_mod_converse(b as int, 2, w, 0);
            }
            if a as int % d == 0 {
                lemma_fundamental_div_mod(a as int, d);
                let k = a as int / d;
                assert(a as int == d * k);
                if k % 2 == 1 {
                    lemma_fundamental_div_mod(k, 2);
                    lemma_fundamental_div_mod(d, 2);
                    let i = d / 2;
                    let j = k / 2;
                    assert(a as int == 2 * (2 * i * j + i + j) + 1) by (nonlinear_arith)
                        requires
                            a as int == d * k,
                            d == 2 * i + 1,
                            k == 2 * j + 1,
                    ;
                    lemma_fundamental_div_mod_converse(a as int, 2, 2 * i * j + i + j, 1);
                }
                lemma_fundamental_div_mod(k, 2);
                assert((a / 2) as int == (k / 2) * d) by (nonlinear_arith)
                    requires
                        a as int == d * k,
                        k == 2 * (k / 2) + k % 2,
                        k % 2 == 0,
                        a as int == 2 * (a as int / 2) + 0,
                ;
                lemma_fundamental_div_mod_converse((a / 2) as int, d, k / 2, 0);
            }
            if (a / 2) as int % d == 0 {
                lemma_divides_combination((a / 2) as int, 0, d, 2);
            }
        }
    }
    if a > 0 || b > 0 {
        lemma_gcd_same_divisors(a, b, (a / 2) as nat, b);
    }
}

/// Greatest common divisor by the binary method (Stein's algorithm): common
/// factors of two are taken out first, then the odd parts are reduced by
/// halving and subtraction.
fn gcd(m: u64, n: u64) -> (r: u64)
    ensures
        r == gcd_nat(m as nat, n as nat),
{
    if m == 0 || n == 0 {
        proof {
            lemma_gcd_symmetric(m as nat, n as nat);
            assert(gcd_nat(0, n as nat) == gcd_nat(n as nat, 0));
            assert((m == 0 ==> m | n == n) && (n == 0 ==> m | n == m)) by (bit_vector);
        }
        return m | n;
    }
    let mut a: u64 = m;
    let mut b: u64 = n;
    let mut shift: u64 = 1;
    while a % 2 == 0 && b % 2 == 0
        invariant
            a > 0,
            b > 0,
            shift >= 1,
            (a as int) * (shift as int) <= m,
            gcd_nat(a as nat, b as nat) * shift == gcd_nat(m as nat, n as nat),
        decreases a,
    {
        proof {
            lemma_gcd_scale((a / 2) as nat, (b / 2) as nat, 2);
            assert((a / 2) as nat * 2 == a && (b / 2) as nat * 2 == b);
            assert(2 * (shift as int) <= m && (a / 2) as int * (2 * shift as int) == (a as int)
                * (shift as int)) by (nonlinear_arith)
                requires
                    (a as int) * (shift as int) <= m,
                    a == 2 * (a / 2),
                    a > 0,
            ;
            assert(gcd_nat((a / 2) as nat, (b / 2) as nat) * (2 * shift) == gcd_nat(
                m as nat,
                n as nat,
            )) by (nonlinear_arith)
                requires
                    gcd_nat(((a / 2) as nat * 2) as nat, ((b / 2) as nat * 2) as nat) == gcd_nat(
                        (a / 2) as nat,
                        (b / 2) as nat,
                    ) * 2,
                    gcd_nat(a as nat, b as nat) * shift == gcd_nat(m as nat, n as nat),
                    (a / 2) as nat * 2 == a,
                    (b / 2) as nat * 2 == b,
            ;
        }
        a = a / 2;
        b = b / 2;
        shift = shift * 2;
    }
    // Make `a` the odd one.
    if a % 2 == 0 {
        proof {
            lemma_gcd_symmetric(a as nat, b as nat);
        }
        let t = a;
        a = b;
        b = t;
    }
    while b != 0
        invariant
            a % 2 == 1,
            gcd_nat(a as nat, b as nat) * shift == gcd_nat(m as nat, n as nat),
        decreases a + b,
    {
        let ghost b0 = b;
        while b % 2 == 0
            invariant
                a % 2 == 1,
                0 < b <= b0,
                gcd_nat(a as nat, b as nat) * shift == gcd_nat(m as nat, n as nat),
            decreases b,
        {
            proof {
                lemma_gcd_symmetric(a as nat, b as nat);
                lemma_gcd_halve(b as nat, a as nat);
                lemma_gcd_symmetric(a as nat, (b / 2) as nat);
            }
            b = b / 2;
        }
        if a > b {
            proof {
                lemma_gcd_symmetric(a as nat, b as nat);
            }
            let t = a;
            a = b;
            b = t;
        }
        proof {
            lemma_gcd_subtract(a as nat, b as nat);
        }
        b = b - a;
    }
    proof {
        assert(gcd_nat(a as nat, 0) == a);
        lemma_gcd_divides(m as nat, n as nat);
        let g = gcd_nat(m as nat, n as nat);
        lemma_fundamental_div_mod(m as int, g as int);
        assert(g <= m) by (nonlinear_arith)
            requires
                m as int == g * (m as int / g as int) + 0,
                m > 0,
                g > 0,
        ;
    }
    a * shift
}

/// The reduced form of `n / d` (for `d != 0`): the sign moves onto the
/// numerator and both parts are divided by their greatest common divisor.
pub open spec fn canonical(n: int, d: int) -> (int, int) {
    let g = gcd_nat(abs(n) as nat, abs(d) as nat) as int;
    if d < 0 {
        (-n / g, -d / g)
    } else {
        (n / g, d / g)
    }
}

/// The exact sum of two fractions, reduced.
pub open spec fn sum_of(p: (int, int), q: (int, int)) -> (int, int) {
    canonical(p.0 * q.1 + q.0 * p.1, p.1 * q.1)
}

/// The exact difference of two fractions, reduced.
pub open spec fn difference_of(p: (int, int), q: (int, int)) -> (int, int) {
    canonical(p.0 * q.1 - q.0 * p.1, p.1 * q.1)
}

/// The exact product of two fractions, reduced.
pub open spec fn product_of(p: (int, int), q: (int, int)) -> (int, int) {
    canonical(p.0 * q.0, p.1 * q.1)
}

/// The exact quotient of two fractions (`q` nonzero), reduced.
pub open spec fn quotient_of(p: (int, int), q: (int, int)) -> (int, int) {
    canonical(p.0 * q.1, p.1 * q.0)
}

/// A numerator and a denominator that a `Rational` can hold.
pub open spec fn representable(p: (int, int)) -> bool {
    i32::MIN < p.0 <= i32::MAX && 1 <= p.1 <= i32::MAX
}

/// The reduced form of a fraction whose parts are within `i32::MAX` fits.
pub proof fn lemma_canonical_bounded(n: int, d: int)
    requires
        abs(n) <= i32::MAX,
        1 <= abs(d) <= i32::MAX,
    ensures
        representable(canonical(n, d)),
{
    let un = abs(n) as nat;
    let ud = abs(d) as nat;
    lemma_gcd_reduce(un, ud);
    let g = gcd_nat(un, ud);
    let qn = un / g;
    let qd = ud / g;
    lemma_exact_div(n, g as int, qn as int);
    lemma_exact_div(d, g as int, qd as int);
    assert(qn <= un && 1 <= qd <= ud) by (nonlinear_arith)
        requires
            un == qn * g,
            ud == qd * g,
            g >= 1,
            ud >= 1,
    ;
}

/// A power of a fraction with a positive denominator, where it is defined,
/// fits.
pub proof fn lemma_power_representable(p: (int, int), e: int)
    requires
        p.1 >= 1,
        power_of(p, e) is Some,
    ensures
        representable(power_of(p, e)->Some_0),
{
    let k = abs(e) as nat;
    vstd::arithmetic::power::lemma_pow_positive(p.1, k);
    let n = pow(p.0, k);
    let d = pow(p.1, k);
    if e >= 0 {
        lemma_canonical_bounded(n, d);
    } else {
        lemma_pow_abs(p.0, k);
        vstd::arithmetic::power::lemma_pow_positive(abs(p.0), k);
        lemma_canonical_bounded(d, n);
    }
}

/// A representable pair in lowest terms.
pub open spec fn reduced(p: (int, int)) -> bool {
    representable(p) && gcd_nat(abs(p.0) as nat, p.1 as nat) == 1
}

/// An exact fraction with a 32-bit numerator and denominator, always in
/// lowest terms with a positive denominator.
#[derive(Clone, Copy, Debug, PartialEq, Eq, Structural, Hash)]
pub struct Rational {
    num: i32,
    den: u32,
}

/// An operation whose exact result does not fit in a `Rational`.
#[derive(Clone, Copy, Debug, PartialEq, Eq, Structural, Hash)]
pub struct OverflowError;

impl View for Rational {
    type V = (int, int);

    closed spec fn view(&self) -> (int, int) {
        (self.num as int, self.den as int)
    }
}

/// Bounds on a product of two 32-bit magnitudes.
proof fn lemma_product_bound(x: int, y: int)
    requires
        abs(x) <= i32::MAX,
        abs(y) <= i32::MAX,
    ensures
        abs(x * y) <= i32::MAX * i32::MAX,
        -0x3fff_ffff_0000_0001 <= x * y <= 0x3fff_ffff_0000_0001,
{
    assert(abs(x * y) <= i32::MAX * i32::MAX && -0x3fff_ffff_0000_0001 <= x * y
        <= 0x3fff_ffff_0000_0001) by (nonlinear_arith)
        requires
            -0x7fff_ffff <= x <= 0x7fff_ffff,
            -0x7fff_ffff <= y <= 0x7fff_ffff,
    ;
}

/// Exact division of an integer by a positive divisor of its magnitude.
proof fn lemma_exact_div(n: int, g: int, q: int)
    requires
        g > 0,
        abs(n) == q * g,
    ensures
        n >= 0 ==> n / g == q,
        n < 0 ==> n / g == -q,
        n >= 0 ==> -n / g == -q,
        n < 0 ==> -n / g == q,
{
    assert(-q * g == -(q * g)) by (nonlinear_arith);
    if n >= 0 {
        lemma_fundamental_div_mod_converse(n, g, q, 0);
        lemma_fundamental_div_mod_converse(-n, g, -q, 0);
    } else {
        lemma_fundamental_div_mod_converse(n, g, -q, 0);
        lemma_fundamental_div_mod_converse(-n, g, q, 0);
    }
}

/// `b` raised to `e` as a fraction: `None` where a part leaves the 32-bit
/// range or a zero would be inverted.
pub open spec fn power_of(p: (int, int), e: int) -> Option<(int, int)> {
    let k = abs(e) as nat;
    let n = pow(p.0, k);
    let d = pow(p.1, k);
    if abs(n) > i32::MAX || d > i32::MAX || (e < 0 && p.0 == 0) {
        None
    } else if e >= 0 {
        Some(canonical(n, d))
    } else {
        Some(canonical(d, n))
    }
}

proof fn lemma_canonical_one()
    ensures
        canonical(1, 1) == (1int, 1int),
{
    lemma_gcd_one(1);
    assert(abs(1) == 1);
    assert(gcd_nat(abs(1) as nat, abs(1) as nat) == 1);
}

proof fn lemma_pow_abs(b: int, k: nat)
    ensures
        abs(pow(b, k)) == pow(abs(b), k),
    decreases k,
{
    reveal(pow);
    if k > 0 {
        lemma_pow_abs(b, (k - 1) as nat);
        let x = pow(b, (k - 1) as nat);
        assert(abs(b * x) == abs(b) * abs(x)) by (nonlinear_arith);
    }
}

/// For a base of magnitude at least one, a larger exponent gives a larger magnitude.
proof fn lemma_pow_mono(b: int, j: nat, m: nat)
    requires
        abs(b) >= 1,
        j <= m,
    ensures
        abs(pow(b, j)) <= abs(pow(b, m)),
{
    lemma_pow_abs(b, j);
    lemma_pow_abs(b, m);
    lemma_pow_increases(abs(b) as nat, j, m);
}

proof fn lemma_pow_grows(b: int, k: nat)
    requires
        abs(b) >= 2,
    ensures
        abs(pow(b, k)) >= k + 1,
    decreases k,
{
    reveal(pow);
    if k > 0 {
        lemma_pow_grows(b, (k - 1) as nat);
        let x = pow(b, (k - 1) as nat);
        assert(abs(b * x) >= k + 1) by (nonlinear_arith)
            requires
                abs(b) >= 2,
                abs(x) >= k,
                k >= 1,
        ;
    }
}

proof fn lemma_pow_unit(b: int, m: nat)
    requires
        b == 1 || b == -1,
    ensures
        pow(b, 2 * m) == 1,
        pow(1, m) == 1,
    decreases m,
{
    reveal(pow);
    if m > 0 {
        lemma_pow_unit(b, (m - 1) as nat);
        assert(pow(b, 2 * m) == b * pow(b, (2 * m - 1) as nat));
        assert(pow(b, (2 * m - 1) as nat) == b * pow(b, (2 * m - 2) as nat));
        assert(2 * m - 2 == 2 * (m - 1));
        assert(b * b == 1);
    }
}

/// One squaring step: `b^e` is `b^(e % 2) * (b*b)^(e / 2)`.
proof fn lemma_pow_halve(b: int, e: nat)
    ensures
        e % 2 == 0 ==> pow(b, e) == pow(b * b, e / 2),
        e % 2 == 1 ==> pow(b, e) == b * pow(b * b, e / 2),
{
    lemma_square_is_pow2(b);
    lemma_pow_multiplies(b, 2, e / 2);
    lemma_pow_adds(b, 1, 2 * (e / 2));
    lemma_pow1(b);
}

/// `base` raised to `exp` by repeated squaring, failing once a product's
/// magnitude passes `i32::MAX`.
fn checked_pow(base: i32, exp: u32) -> (r: Result<i32, OverflowError>)
    requires
        base > i32::MIN,
    ensures
        match r {
            Ok(v) => v as int == pow(base as int, exp as nat) && abs(v as int) <= i32::MAX,
            Err(_) => abs(pow(base as int, exp as nat)) > i32::MAX,
        },
{
    let mut acc: i64 = 1;
    let mut b: i64 = base as i64;
    let mut e: u32 = exp;
    proof {
        lemma_pow0(b as int);
    }
    while e > 1
        invariant
            pow(base as int, exp as nat) == acc * pow(b as int, e as nat),
            abs(acc as int) <= i32::MAX,
            abs(b as int) <= i32::MAX,
            acc != 0 || b == 0,
        decreases e,
    {
        proof {
            lemma_pow_halve(b as int, e as nat);
            lemma_product_bound(acc as int, b as int);
            lemma_product_bound(b as int, b as int);
        }
        let ghost full = pow(base as int, exp as nat);
        let ghost old_acc = acc;
        if e % 2 == 1 {
            let t: i64 = acc * b;
            if t > 0x7fff_ffff || t < -0x7fff_ffff {
                proof {
                    assert(b != 0) by (nonlinear_arith)
                        requires
                            abs(acc * b) > i32::MAX,
                    ;
                    lemma_pow_mono(b as int, 1, e as nat);
                    lemma_pow1(b as int);
                    let p = pow(b as int, e as nat);
                    assert(abs(full) > i32::MAX) by (nonlinear_arith)
                        requires
                            full == acc * p,
                            abs(acc * b) > i32::MAX,
                            abs(b as int) <= abs(p),
                    ;
                }
                return Err(OverflowError);
            }
            acc = t;
        }
        proof {
            assert(full == acc * pow(b * b, (e / 2) as nat)) by (nonlinear_arith)
                requires
                    e % 2 == 0 ==> pow(b as int, e as nat) == pow(b * b, (e / 2) as nat),
                    e % 2 == 1 ==> pow(b as int, e as nat) == b * pow(b * b, (e / 2) as nat),
                    e % 2 == 1 ==> acc == old_acc * b,
                    e % 2 == 0 ==> acc == old_acc,
                    full == old_acc * pow(b as int, e as nat),
            ;
        }
        let s: i64 = b * b;
        if s > 0x7fff_ffff {
            proof {
                assert(acc != 0) by (nonlinear_arith)
                    requires
                        b * b > i32::MAX,
                        old_acc != 0 || b == 0,
                        acc == old_acc || acc == old_acc * b,
                ;
                lemma_pow_mono(b * b, 1, (e / 2) as nat);
                lemma_pow1(b * b);
                let p = pow(b * b, (e / 2) as nat);
                assert(abs(full) > i32::MAX) by (nonlinear_arith)
                    requires
                        full == acc * p,
                        acc != 0,
                        b * b > i32::MAX,
                        b * b <= abs(p),
                ;
            }
            return Err(OverflowError);
        }
        proof {
            assert(0 <= b * b && (acc != 0 || b * b == 0)) by (nonlinear_arith)
                requires
                    old_acc != 0 || b == 0,
                    acc == old_acc || acc == old_acc * b,
            ;
        }
        e = e / 2;
        b = s;
    }
    if e == 1 {
        proof {
            lemma_pow1(b as int);
            lemma_product_bound(acc as int, b as int);
        }
        let t: i64 = acc * b;
        if t > 0x7fff_ffff || t < -0x7fff_ffff {
            return Err(OverflowError);
        }
        acc = t;
    } else {
        proof {
            lemma_pow0(b as int);
        }
    }
    Ok(acc as i32)
}

impl Rational {
    #[verifier::type_invariant]
    spec fn inv(self) -> bool {
        reduced(self@)
    }

    /// The reduced form of `n / d`, or `OverflowError` where it does not fit.
    fn reduce(n: i64, d: i64) -> (r: Result<Rational, OverflowError>)
        requires
            d != 0,
            n > i64::MIN,
            d > i64::MIN,
        ensures
            match r {
                Ok(q) => q@ == canonical(n as int, d as int) && reduced(q@),
                Err(_) => !representable(canonical(n as int, d as int)),
            },
            abs(n as int) <= i32::MAX && 1 <= abs(d as int) <= i32::MAX ==> r is Ok,
    {
        let un: u64 = if n < 0 { (-n) as u64 } else { n as u64 };
        let ud: u64 = if d < 0 { (-d) as u64 } else { d as u64 };
        let g = gcd(un, ud);
        proof {
            lemma_gcd_reduce(un as nat, ud as nat);
        }
        let qn: u64 = un / g;
        let qd: u64 = ud / g;
        proof {
            lemma_exact_div(n as int, g as int, qn as int);
            lemma_exact_div(d as int, g as int, qd as int);
            assert(qn <= un && 1 <= qd <= ud) by (nonlinear_arith)
                requires
                    un == qn * g,
                    ud == qd * g,
                    g >= 1,
                    ud >= 1,
            ;
        }
        if qn > 0x7fff_ffff || qd > 0x7fff_ffff {
            return Err(OverflowError);
        }
        let num: i32 = if (n < 0) != (d < 0) {
            -(qn as i32)
        } else {
            qn as i32
        };
        Ok(Rational { num, den: qd as u32 })
    }

    /// The integer `i` as a fraction; `i32::MIN` is refused so that every
    /// numerator can be negated.
    pub fn from_integer(i: i32) -> (r: Result<Rational, OverflowError>)
        ensures
            match r {
                Ok(q) => i != i32::MIN && q@ == (i as int, 1int) && reduced(q@),
                Err(_) => i == i32::MIN,
            },
    {
        if i == i32::MIN {
            Err(OverflowError)
        } else {
            proof {
                lemma_gcd_one(abs(i as int) as nat);
            }
            Ok(Rational { num: i, den: 1 })
        }
    }

    /// The fraction `num / den` in lowest terms.
    pub fn new(num: i32, den: i32) -> (r: Result<Rational, OverflowError>)
        requires
            den != 0,
        ensures
            match r {
                Ok(q) => q@ == canonical(num as int, den as int) && reduced(q@),
                Err(_) => !representable(canonical(num as int, den as int)),
            },
            num != i32::MIN && den != i32::MIN ==> r is Ok,
    {
        Rational::reduce(num as i64, den as i64)
    }

    /// The numerator.
    pub fn numer(&self) -> (r: i32)
        ensures
            r == self@.0,
    {
        self.num
    }

    /// The denominator, always positive.
    pub fn denom(&self) -> (r: u32)
        ensures
            r == self@.1,
            r >= 1,
    {
        proof {
            use_type_invariant(self);
        }
        self.den
    }

    /// The reciprocal; zero has none.
    pub fn recip(&self) -> (r: Result<Rational, OverflowError>)
        ensures
            match r {
                Ok(q) => self@.0 != 0 && reduced(q@) && q@ == (if self@.0 > 0 {
                    (self@.1, self@.0)
                } else {
                    (-self@.1, -self@.0)
                }),
                Err(_) => self@.0 == 0,
            },
    {
        proof {
            use_type_invariant(self);
            lemma_gcd_symmetric(abs(self@.0) as nat, self@.1 as nat);
        }
        if self.num > 0 {
            Ok(Rational { num: self.den as i32, den: self.num as u32 })
        } else if self.num != 0 {
            Ok(Rational { num: -(self.den as i32), den: (-self.num) as u32 })
        } else {
            Err(OverflowError)
        }
    }

    /// Whether the denominator is one.
    pub fn is_integer(&self) -> (r: bool)
        ensures
            r == (self@.1 == 1),
    {
        self.den == 1
    }

    /// Whether the value is below zero.
    pub fn is_negative(&self) -> (r: bool)
        ensures
            r == (self@.0 < 0),
    {
        self.num < 0
    }

    /// The negation (every numerator has one).
    pub closed spec fn neg_spec(self) -> Rational {
        Rational {
            num: if self.num == i32::MIN {
                self.num
            } else {
                (-self.num) as i32
            },
            den: self.den,
        }
    }

    /// The negation's numerator and denominator, for a numerator that has a
    /// negation.
    pub proof fn lemma_neg_view(self)
        requires
            self@.0 > i32::MIN,
        ensures
            self.neg_spec()@ == (-self@.0, self@.1),
    {
    }

    /// Negating twice gives the fraction back.
    pub proof fn lemma_neg_neg(self)
        ensures
            self.neg_spec().neg_spec() == self,
    {
    }

    /// The negation, which always fits.
    pub fn neg(&self) -> (r: Rational)
        ensures
            r == self.neg_spec(),
            r@ == (-self@.0, self@.1),
            reduced(r@),
    {
        proof {
            use_type_invariant(self);
        }
        Rational { num: -self.num, den: self.den }
    }

    /// The product in lowest terms.
    pub fn mul(&self, other: &Rational) -> (r: Result<Rational, OverflowError>)
        ensures
            match r {
                Ok(q) => q@ == product_of(self@, other@) && reduced(q@),
                Err(_) => !representable(product_of(self@, other@)),
            },
    {
        proof {
            use_type_invariant(self);
            use_type_invariant(other);
            lemma_product_bound(self@.0, other@.0);
            lemma_product_bound(self@.1, other@.1);
            assert(self@.1 * other@.1 >= 1) by (nonlinear_arith)
                requires
                    self@.1 >= 1,
                    other@.1 >= 1,
            ;
        }
        let n: i64 = (self.num as i64) * (other.num as i64);
        let d: i64 = (self.den as i64) * (other.den as i64);
        Rational::reduce(n, d)
    }

    /// The quotient in lowest terms; dividing by zero is an `OverflowError`.
    pub fn div(&self, other: &Rational) -> (r: Result<Rational, OverflowError>)
        ensures
            match r {
                Ok(q) => other@.0 != 0 && q@ == quotient_of(self@, other@) && reduced(q@),
                Err(_) => other@.0 == 0 || !representable(quotient_of(self@, other@)),
            },
    {
        proof {
            use_type_invariant(self);
            use_type_invariant(other);
            lemma_product_bound(self@.0, other@.1);
            lemma_product_bound(self@.1, other@.0);
            if other@.0 != 0 {
                assert(self@.1 * other@.0 != 0) by (nonlinear_arith)
                    requires
                        self@.1 >= 1,
                        other@.0 != 0,
                ;
            }
        }
        if other.num == 0 {
            return Err(OverflowError);
        }
        let n: i64 = (self.num as i64) * (other.den as i64);
        let d: i64 = (self.den as i64) * (other.num as i64);
        Rational::reduce(n, d)
    }

    /// The sum in lowest terms.
    pub fn add(&self, other: &Rational) -> (r: Result<Rational, OverflowError>)
        ensures
            match r {
                Ok(q) => q@ == sum_of(self@, other@) && reduced(q@),
                Err(_) => !representable(sum_of(self@, other@)),
            },
    {
        proof {
            use_type_invariant(self);
            use_type_invariant(other);
            lemma_product_bound(self@.0, other@.1);
            lemma_product_bound(other@.0, self@.1);
            lemma_product_bound(self@.1, other@.1);
            assert(self@.1 * other@.1 >= 1) by (nonlinear_arith)
                requires
                    self@.1 >= 1,
                    other@.1 >= 1,
            ;
        }
        let n: i64 = (self.num as i64) * (other.den as i64) + (other.num as i64) * (
        self.den as i64);
        let d: i64 = (self.den as i64) * (other.den as i64);
        Rational::reduce(n, d)
    }

    /// The difference in lowest terms.
    pub fn sub(&self, other: &Rational) -> (r: Result<Rational, OverflowError>)
        ensures
            match r {
                Ok(q) => q@ == difference_of(self@, other@) && reduced(q@),
                Err(_) => !representable(difference_of(self@, other@)),
            },
    {
        proof {
            use_type_invariant(self);
            use_type_invariant(other);
            lemma_product_bound(self@.0, other@.1);
            lemma_product_bound(other@.0, self@.1);
            lemma_product_bound(self@.1, other@.1);
            assert(self@.1 * other@.1 >= 1) by (nonlinear_arith)
                requires
                    self@.1 >= 1,
                    other@.1 >= 1,
            ;
        }
        let n: i64 = (self.num as i64) * (other.den as i64) - (other.num as i64) * (
        self.den as i64);
        let d: i64 = (self.den as i64) * (other.den as i64);
        Rational::reduce(n, d)
    }

    /// The fraction raised to an integer power, by repeated squaring; a
    /// negative exponent inverts the result.
    pub fn pow(&self, exp: i32) -> (r: Result<Rational, OverflowError>)
        ensures
            match r {
                Ok(q) => power_of(self@, exp as int) == Some(q@) && reduced(q@),
                Err(_) => power_of(self@, exp as int) is None,
            },
    {
        proof {
            use_type_invariant(self);
            lemma_gcd_one(1);
        }
        if exp == 0 {
            proof {
                lemma_pow0(self@.0);
                lemma_pow0(self@.1);
                lemma_canonical_one();
                assert(power_of(self@, exp as int) == Some((1int, 1int)));
            }
            return Ok(Rational { num: 1, den: 1 });
        }
        if exp == i32::MIN {
            if (self.num == 1 || self.num == -1) && self.den == 1 {
                proof {
                    lemma_pow_unit(self@.0, 0x4000_0000);
                    lemma_pow_unit(1, 0x4000_0000);
                    lemma_canonical_one();
                    assert(power_of(self@, exp as int) == Some((1int, 1int)));
                }
                return Ok(Rational { num: 1, den: 1 });
            } else {
                proof {
                    if abs(self@.0) >= 2 {
                        lemma_pow_grows(self@.0, 0x8000_0000);
                    }
                    if self@.1 >= 2 {
                        lemma_pow_grows(self@.1, 0x8000_0000);
                        lemma_pow_abs(self@.1, 0x8000_0000);
                    }
                }
                return Err(OverflowError);
            }
        }
        let k: u32 = if exp > 0 {
            exp as u32
        } else {
            (-exp) as u32
        };
        let n = match checked_pow(self.num, k) {
            Ok(v) => v,
            Err(e) => return Err(e),
        };
        assert(k as int == abs(exp as int));
        proof {
            lemma_pow_abs(self@.1, k as nat);
        }
        let d = match checked_pow(self.den as i32, k) {
            Ok(v) => v,
            Err(e) => return Err(e),
        };
        proof {
            vstd::arithmetic::power::lemma_pow_positive(self@.1, k as nat);
        }
        assert(n as int == pow(self@.0, k as nat));
        assert(d as int == pow(self@.1, k as nat));
        if exp > 0 {
            let r = Rational::reduce(n as i64, d as i64);
            r
        } else if n == 0 {
            proof {
                if self@.0 != 0 {
                    lemma_pow_abs(self@.0, k as nat);
                    vstd::arithmetic::power::lemma_pow_positive(abs(self@.0), k as nat);
                }
            }
            Err(OverflowError)
        } else {
            proof {
                if self@.0 == 0 {
                    vstd::arithmetic::power::lemma0_pow(k as nat);
                }
            }
            let r = Rational::reduce(d as i64, n as i64);
            assert(power_of(self@, exp as int) == Some(canonical(d as int, n as int)));
            r
        }
    }

    /// Orders two fractions by cross-multiplication, exactly.
    pub fn cmp(&self, other: &Rational) -> (r: core::cmp::Ordering)
        ensures
            (r == core::cmp::Ordering::Less) == (self@.0 * other@.1 < other@.0 * self@.1),
            (r == core::cmp::Ordering::Equal) == (self@.0 * other@.1 == other@.0 * self@.1),
            (r == core::cmp::Ordering::Greater) == (self@.0 * other@.1 > other@.0 * self@.1),
    {
        proof {
            use_type_invariant(self);
            use_type_invariant(other);
            lemma_product_bound(self@.0, other@.1);
            lemma_product_bound(other@.0, self@.1);
        }
        let a: i64 = (self.num as i64) * (other.den as i64);
        let b: i64 = (other.num as i64) * (self.den as i64);
        if a < b {
            core::cmp::Ordering::Less
        } else if a == b {
            core::cmp::Ordering::Equal
        } else {
            core::cmp::Ordering::Greater
        }
    }
}

} // verus!
