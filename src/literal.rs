use vstd::prelude::*;

verus! {

/// A decimal literal as written, underscores removed: its digits (those
/// before the point, then those after), how many came after the point, and
/// its exponent.
pub struct Literal {
    pub digits: Vec<u8>,
    pub frac_len: usize,
    pub has_exp: bool,
    pub exp_negative: bool,
    pub exp_digits: Vec<u8>,
}

/// Whether `c` is an ASCII digit.
pub open spec fn is_digit(c: u8) -> bool {
    48 <= c <= 57
}

/// The number that a run of ASCII digits denotes.
pub open spec fn digits_value(s: Seq<u8>) -> nat
    decreases s.len(),
{
    if s.len() == 0 {
        0
    } else {
        digits_value(s.drop_last()) * 10 + (s.last() - 48) as nat
    }
}

/// Ten to the power `k`.
pub open spec fn pow10(k: nat) -> nat
    decreases k,
{
    if k == 0 {
        1
    } else {
        10 * pow10((k - 1) as nat)
    }
}

proof fn lemma_pow10_mono(j: nat, k: nat)
    requires
        j <= k,
    ensures
        1 <= pow10(j) <= pow10(k),
    decreases k,
{
    if k > j {
        lemma_pow10_mono(j, (k - 1) as nat);
    } else if k > 0 {
        lemma_pow10_mono(0, (k - 1) as nat);
    }
}

proof fn lemma_pow10_twelve()
    ensures
        pow10(12) == 1_000_000_000_000,
        pow10(11) == 100_000_000_000,
        pow10(9) == 1_000_000_000,
{
    reveal_with_fuel(pow10, 13);
}

proof fn lemma_pow10_ten()
    ensures
        pow10(10) == 10_000_000_000,
        pow10(4) == 10_000,
        pow10(3) == 1_000,
{
    reveal_with_fuel(pow10, 11);
}

proof fn lemma_pow10_add(a: nat, b: nat)
    ensures
        pow10(a + b) == pow10(a) * pow10(b),
    decreases a,
{
    if a > 0 {
        lemma_pow10_add((a - 1) as nat, b);
        assert((a + b - 1) as nat == ((a - 1) as nat + b) as nat);
        assert(pow10(a + b) == 10 * pow10(((a - 1) as nat + b) as nat));
        assert(pow10(a) == 10 * pow10((a - 1) as nat));
        assert(10 * (pow10((a - 1) as nat) * pow10(b)) == (10 * pow10((a - 1) as nat)) * pow10(b))
            by (nonlinear_arith);
    } else {
        assert(pow10(0) == 1);
        assert(a + b == b);
    }
}

/// A positive factor cancels from both sides of an equation.
proof fn lemma_cancel(x: int, y: int, c: int)
    requires
        c > 0,
    ensures
        (x * c == y * c) == (x == y),
{
    if x * c == y * c {
        assert(x == y) by (nonlinear_arith)
            requires
                x * c == y * c,
                c > 0,
        ;
    }
}

/// The value of a run of zeros is zero.
proof fn lemma_digits_zero(s: Seq<u8>)
    requires
        forall|i: int| 0 <= i < s.len() ==> #[trigger] s[i] == 48u8,
    ensures
        digits_value(s) == 0,
    decreases s.len(),
{
    if s.len() > 0 {
        lemma_digits_zero(s.drop_last());
    }
}

/// The value of a run of digits, split at `k`: the first part shifted by the
/// length of the second, plus the second.
proof fn lemma_digits_split(s: Seq<u8>, k: int)
    requires
        0 <= k <= s.len(),
        forall|i: int| 0 <= i < s.len() ==> is_digit(#[trigger] s[i]),
    ensures
        digits_value(s) == digits_value(s.subrange(0, k)) * pow10((s.len() - k) as nat)
            + digits_value(s.subrange(k, s.len() as int)),
    decreases s.len(),
{
    if k == s.len() {
        assert(s.subrange(0, k) =~= s);
        assert(s.subrange(k, s.len() as int) =~= Seq::<u8>::empty());
        assert(digits_value(Seq::<u8>::empty()) == 0);
        assert(pow10(0) == 1);
        assert((s.len() - k) as nat == 0);
        assert(digits_value(s) * pow10(0) == digits_value(s)) by (nonlinear_arith)
            requires
                pow10(0) == 1,
        ;
    } else {
        let d = s.drop_last();
        lemma_digits_split(d, k);
        assert(d.subrange(0, k) =~= s.subrange(0, k));
        let tail = s.subrange(k, s.len() as int);
        assert(tail.drop_last() =~= d.subrange(k, d.len() as int));
        assert(tail.last() == s.last());
        let p = pow10((d.len() - k) as nat);
        assert(pow10((s.len() - k) as nat) == 10 * p);
        let a = digits_value(s.subrange(0, k)) as int;
        let b = digits_value(d.subrange(k, d.len() as int)) as int;
        let c = (s.last() - 48) as int;
        assert(digits_value(s) == digits_value(d) * 10 + c);
        assert(digits_value(tail) == b * 10 + c);
        assert(digits_value(d) == a * p + b);
        assert((a * p + b) * 10 + c == a * (10 * p) + (b * 10 + c)) by (nonlinear_arith);
        assert(digits_value(s) == a * pow10((s.len() - k) as nat) + digits_value(tail));
    }
}

/// A run of digits that starts with a nonzero digit is at least ten to the
/// power of its length less one.
proof fn lemma_digits_lower(s: Seq<u8>)
    requires
        s.len() >= 1,
        forall|i: int| 0 <= i < s.len() ==> is_digit(#[trigger] s[i]),
        s[0] != 48u8,
    ensures
        digits_value(s) >= pow10((s.len() - 1) as nat),
{
    lemma_digits_split(s, 1);
    let first = s.subrange(0, 1);
    assert(first.drop_last() =~= Seq::<u8>::empty());
    assert(first.last() == s[0]);
    assert(digits_value(first) >= 1);
    let p = pow10((s.len() - 1) as nat);
    assert(digits_value(first) * p >= p) by (nonlinear_arith)
        requires
            digits_value(first) >= 1,
            p >= 0,
    ;
}

/// A run of digits that ends with a nonzero digit is not a multiple of ten.
proof fn lemma_digits_last(s: Seq<u8>)
    requires
        s.len() >= 1,
        forall|i: int| 0 <= i < s.len() ==> is_digit(#[trigger] s[i]),
        s[s.len() - 1] != 48u8,
    ensures
        digits_value(s) % 10 != 0,
{
    let c = (s.last() - 48) as int;
    assert(1 <= c <= 9);
    vstd::arithmetic::div_mod::lemma_fundamental_div_mod_converse(
        digits_value(s) as int,
        10,
        digits_value(s.drop_last()) as int,
        c,
    );
}

/// Where `n * 10^j` is eight times `m` and `j` is at least four, ten divides `m`.
proof fn lemma_ten_divides(n: int, m: int, j: nat)
    requires
        j >= 4,
        n * pow10(j) == 8 * m,
    ensures
        m % 10 == 0,
{
    lemma_pow10_add(4, (j - 4) as nat);
    lemma_pow10_ten();
    let q = pow10((j - 4) as nat) as int;
    assert(m == 10 * (125 * n * q)) by (nonlinear_arith)
        requires
            n * (10_000 * q) == 8 * m,
    ;
    vstd::arithmetic::div_mod::lemma_fundamental_div_mod_converse(m, 10, 125 * n * q, 0);
}

/// No eighths up to `i32::MAX` for a mantissa of thirteen or more
/// significant digits that is not a multiple of ten.
proof fn lemma_no_eighths_large(m: nat, sc: int, n: int)
    requires
        m >= 1_000_000_000_000,
        m % 10 != 0,
        0 <= n <= i32::MAX,
    ensures
        !(if sc >= 0 {
            n == 8 * m * pow10(sc as nat)
        } else {
            n * pow10((-sc) as nat) == 8 * m
        }),
{
    if sc >= 0 {
        lemma_pow10_mono(0, sc as nat);
        assert(8 * m * pow10(sc as nat) >= 8 * m) by (nonlinear_arith)
            requires
                pow10(sc as nat) >= 1,
        ;
    } else {
        let j = (-sc) as nat;
        if n * pow10(j) == 8 * m {
            if j >= 4 {
                lemma_ten_divides(n, m as int, j);
            } else {
                lemma_pow10_mono(j, 3);
                lemma_pow10_ten();
                assert(n * pow10(j) <= n * 1000) by (nonlinear_arith)
                    requires
                        pow10(j) <= 1000,
                        n >= 0,
                ;
            }
        }
    }
}

/// Eight times the literal's value is the integer `n`: with mantissa `m`,
/// `f` fraction digits and exponent `e`, `n * 10^f == 8 * m * 10^e`
/// (`n * 10^(f + e) == 8 * m` for a negative exponent).
pub open spec fn is_eighths(lit: &Literal, n: int) -> bool {
    eighths_of(lit.digits@, lit.frac_len as nat, lit.exp_negative, lit.exp_digits@, n)
}

/// Eight times the value of mantissa digits `d` (`f` of them after the
/// point) with exponent digits `x` (negative if `neg`) is the integer `n`.
pub open spec fn eighths_of(d: Seq<u8>, f: nat, neg: bool, x: Seq<u8>, n: int) -> bool {
    let m = digits_value(d) as int;
    let e = digits_value(x);
    if neg {
        n * pow10(f + e) == 8 * m
    } else {
        n * pow10(f) == 8 * m * pow10(e)
    }
}

/// Eight times a value is at most one integer.
pub proof fn lemma_eighths_unique(lit: &Literal, n1: int, n2: int)
    requires
        is_eighths(lit, n1),
        is_eighths(lit, n2),
    ensures
        n1 == n2,
{
    let e = digits_value(lit.exp_digits@);
    if lit.exp_negative {
        lemma_pow10_mono(0, (lit.frac_len + e) as nat);
        lemma_cancel(n1, n2, pow10((lit.frac_len + e) as nat) as int);
    } else {
        lemma_pow10_mono(0, lit.frac_len as nat);
        lemma_cancel(n1, n2, pow10(lit.frac_len as nat) as int);
    }
}

/// With the mantissa written as `m * 10^t`, whether `n` is eight times the
/// literal's value comes down to the scale `exp - frac_len + t`.
proof fn lemma_eighths_iff(lit: &Literal, m: nat, t: nat, n: int)
    requires
        digits_value(lit.digits@) == m * pow10(t),
    ensures
        is_eighths(lit, n) == (if lit.scale_with(t as int) >= 0 {
            n == 8 * m * pow10(lit.scale_with(t as int) as nat)
        } else {
            n * pow10((-lit.scale_with(t as int)) as nat) == 8 * m
        }),
{
    let e = digits_value(lit.exp_digits@);
    let f = lit.frac_len as nat;
    let sc = lit.scale_with(t as int);
    if !lit.exp_negative {
        lemma_pow10_add(t, e);
        if sc >= 0 {
            let s = sc as nat;
            lemma_pow10_add(s, f);
            lemma_pow10_mono(0, f);
            assert(t + e == s + f);
            assert(8 * (m * pow10(t)) * pow10(e) == (8 * m * pow10(s)) * pow10(f))
                by (nonlinear_arith)
                requires
                    pow10(t + e) == pow10(t) * pow10(e),
                    pow10(s + f) == pow10(s) * pow10(f),
                    t + e == s + f,
            ;
            lemma_cancel(n, (8 * m * pow10(s)) as int, pow10(f) as int);
        } else {
            let j = (-sc) as nat;
            assert(f == j + t + e);
            lemma_pow10_add(j, t + e);
            lemma_pow10_mono(0, t + e);
            assert(n * pow10(f) == (n * pow10(j)) * pow10(t + e)) by (nonlinear_arith)
                requires
                    pow10(f) == pow10(j) * pow10(t + e),
            ;
            assert(8 * (m * pow10(t)) * pow10(e) == (8 * m) * pow10(t + e)) by (nonlinear_arith)
                requires
                    pow10(t + e) == pow10(t) * pow10(e),
            ;
            lemma_cancel(n * pow10(j), (8 * m) as int, pow10(t + e) as int);
        }
    } else {
        if sc >= 0 {
            let s = sc as nat;
            assert(t == s + (f + e));
            lemma_pow10_add(s, f + e);
            lemma_pow10_mono(0, f + e);
            assert(8 * (m * pow10(t)) == (8 * m * pow10(s)) * pow10(f + e)) by (nonlinear_arith)
                requires
                    pow10(t) == pow10(s) * pow10(f + e),
            ;
            lemma_cancel(n, (8 * m * pow10(s)) as int, pow10(f + e) as int);
        } else {
            let j = (-sc) as nat;
            assert(f + e == j + t);
            lemma_pow10_add(j, t);
            lemma_pow10_mono(0, t);
            assert(n * pow10(f + e) == (n * pow10(j)) * pow10(t)) by (nonlinear_arith)
                requires
                    pow10(f + e) == pow10(j) * pow10(t),
            ;
            assert(8 * (m * pow10(t)) == (8 * m) * pow10(t)) by (nonlinear_arith);
            lemma_cancel(n * pow10(j), (8 * m) as int, pow10(t) as int);
        }
    }
}

/// Ten to the power `k`, for `k` up to twelve.
fn pow10_u64(k: usize) -> (r: u64)
    requires
        k <= 12,
    ensures
        r == pow10(k as nat),
{
    let mut r: u64 = 1;
    let mut i: usize = 0;
    while i < k
        invariant
            i <= k <= 12,
            r == pow10(i as nat),
        decreases k - i,
    {
        proof {
            lemma_pow10_mono(i as nat, 11);
            lemma_pow10_twelve();
        }
        r = r * 10;
        i = i + 1;
    }
    r
}

/// The largest exponent value kept exactly; larger ones are held at this.
pub const EXP_CAP: u128 = 0x10_0000_0000_0000_0000_0000_0000;

impl Literal {
    /// The exponent's value, with its sign.
    pub open spec fn exp_value(&self) -> int {
        if self.exp_negative {
            -(digits_value(self.exp_digits@) as int)
        } else {
            digits_value(self.exp_digits@) as int
        }
    }

    /// The power of ten that scales a mantissa stripped of `t` trailing zeros.
    pub open spec fn scale_with(&self, t: int) -> int {
        self.exp_value() - self.frac_len + t
    }

    /// All digits are ASCII digits, at least one in the mantissa, and at least
    /// one in an exponent that is there.
    pub open spec fn wf(&self) -> bool {
        &&& self.digits@.len() >= 1
        &&& self.frac_len <= self.digits@.len()
        &&& forall|i: int| 0 <= i < self.digits@.len() ==> is_digit(#[trigger] self.digits@[i])
        &&& forall|i: int| 0 <= i < self.exp_digits@.len() ==> is_digit(#[trigger] self.exp_digits@[i])
        &&& self.has_exp ==> self.exp_digits@.len() >= 1
        &&& !self.has_exp ==> self.exp_digits@.len() == 0
    }

    /// The literal's value times eight, where that is an integer of at most
    /// `i32::MAX`.
    pub fn exact_eighths(&self) -> (r: Option<i32>)
        requires
            self.wf(),
        ensures
            match r {
                Some(n) => is_eighths(self, n as int),
                None => forall|n: int| 0 <= n <= i32::MAX ==> !is_eighths(self, n),
            },
            r matches Some(n) ==> 0 <= n,
    {
        let len = self.digits.len();
        let ghost d = self.digits@;
        let mut a: usize = 0;
        while a < len && self.digits[a] == 48u8
            invariant
                a <= len,
                len == d.len(),
                d == self.digits@,
                forall|k: int| 0 <= k < a ==> #[trigger] d[k] == 48u8,
            decreases len - a,
        {
            a = a + 1;
        }
        proof {
            lemma_digits_zero(d.subrange(0, a as int));
            lemma_digits_split(d, a as int);
        }
        if a == len {
            proof {
                assert(d.subrange(a as int, len as int) =~= Seq::<u8>::empty());
                assert(digits_value(d) == 0) by (nonlinear_arith)
                    requires
                        digits_value(d) == digits_value(d.subrange(0, a as int)) * pow10(
                            (d.len() - a) as nat,
                        ) + digits_value(d.subrange(a as int, len as int)),
                        digits_value(d.subrange(0, a as int)) == 0,
                        digits_value(d.subrange(a as int, len as int)) == 0,
                ;
                lemma_pow10_mono(0, self.frac_len as nat);
                lemma_pow10_mono(0, (self.frac_len + digits_value(self.exp_digits@)) as nat);
                let pe = pow10(digits_value(self.exp_digits@));
                let pf = pow10(self.frac_len as nat);
                let pfe = pow10(self.frac_len as nat + digits_value(self.exp_digits@));
                assert(0 * pfe == 8 * 0 && 0 * pf == 8 * 0 * pe) by (nonlinear_arith);
                assert(eighths_of(
                    self.digits@,
                    self.frac_len as nat,
                    self.exp_negative,
                    self.exp_digits@,
                    0,
                ));
            }
            return Some(0);
        }
        let mut b: usize = len - 1;
        while b > a && self.digits[b] == 48u8
            invariant
                a <= b < len,
                len == d.len(),
                d == self.digits@,
                forall|k: int| b < k < len ==> #[trigger] d[k] == 48u8,
            decreases b,
        {
            b = b - 1;
        }
        let trailing: usize = len - 1 - b;
        let ghost core = d.subrange(a as int, b + 1);
        proof {
            let rest = d.subrange(a as int, len as int);
            let k = (b + 1 - a) as int;
            lemma_digits_split(rest, k);
            assert(rest.subrange(0, k) =~= core);
            lemma_digits_zero(rest.subrange(k, rest.len() as int));
            assert(digits_value(d) == digits_value(core) * pow10(trailing as nat))
                by (nonlinear_arith)
                requires
                    digits_value(d) == digits_value(d.subrange(0, a as int)) * pow10(
                        (d.len() - a) as nat,
                    ) + digits_value(rest),
                    digits_value(d.subrange(0, a as int)) == 0,
                    digits_value(rest) == digits_value(rest.subrange(0, k)) * pow10(
                        (rest.len() - k) as nat,
                    ) + digits_value(rest.subrange(k, rest.len() as int)),
                    rest.subrange(0, k) == core,
                    digits_value(rest.subrange(k, rest.len() as int)) == 0,
                    rest.len() - k == trailing,
            ;
            assert(core[0] == d[a as int]);
            assert(core[core.len() - 1] == d[b as int]);
            lemma_digits_lower(core);
            lemma_digits_last(core);
        }
        if b - a >= 12 {
            proof {
                lemma_pow10_mono(12, (core.len() - 1) as nat);
                lemma_pow10_twelve();
                assert forall|n: int| 0 <= n <= i32::MAX implies !is_eighths(self, n) by {
                    lemma_eighths_iff(self, digits_value(core), trailing as nat, n);
                    lemma_no_eighths_large(digits_value(core), self.scale_with(trailing as int), n);
                }
            }
            return None;
        }
        let mut m: u64 = 0;
        let mut i: usize = a;
        while i <= b
            invariant
                a <= i <= b + 1,
                b < len,
                b - a < 12,
                len == d.len(),
                d == self.digits@,
                m == digits_value(d.subrange(a as int, i as int)),
                m < pow10((i - a) as nat),
                forall|k: int| 0 <= k < len ==> is_digit(#[trigger] d[k]),
            decreases b + 1 - i,
        {
            proof {
                lemma_pow10_mono((i - a) as nat, 11);
                lemma_pow10_twelve();
                let next = d.subrange(a as int, i + 1);
                assert(next.drop_last() =~= d.subrange(a as int, i as int));
                assert(next.last() == d[i as int]);
            }
            m = m * 10 + (self.digits[i] - 48u8) as u64;
            i = i + 1;
        }
        proof {
            assert(d.subrange(a as int, i as int) == core);
            lemma_pow10_mono((i - a) as nat, 12);
            lemma_pow10_twelve();
        }
        let ghost x = self.exp_digits@;
        let mut e: u128 = 0;
        let mut k: usize = 0;
        while k < self.exp_digits.len()
            invariant
                e <= EXP_CAP,
                x == self.exp_digits@,
                k <= x.len(),
                e < EXP_CAP ==> e == digits_value(x.subrange(0, k as int)),
                e == EXP_CAP ==> digits_value(x.subrange(0, k as int)) >= EXP_CAP,
                forall|q: int| 0 <= q < x.len() ==> is_digit(#[trigger] x[q]),
            decreases x.len() - k,
        {
            proof {
                let next = x.subrange(0, k + 1);
                assert(next.drop_last() =~= x.subrange(0, k as int));
                assert(next.last() == x[k as int]);
            }
            if e < EXP_CAP {
                e = e * 10 + (self.exp_digits[k] - 48u8) as u128;
                if e > EXP_CAP {
                    e = EXP_CAP;
                }
            }
            k = k + 1;
        }
        proof {
            assert(x.subrange(0, k as int) =~= x);
        }
        let signed_exp: i128 = if self.exp_negative {
            -(e as i128)
        } else {
            e as i128
        };
        let scale: i128 = signed_exp - self.frac_len as i128 + trailing as i128;
        let ghost true_scale = self.scale_with(trailing as int);
        proof {
            if e < EXP_CAP {
                assert(true_scale == scale);
            } else if self.exp_negative {
                assert(true_scale <= scale);
            } else {
                assert(true_scale >= scale);
            }
        }
        if scale >= 0 {
            if scale > 9 {
                proof {
                    assert(true_scale > 9);
                    lemma_pow10_mono(10, true_scale as nat);
                    assert forall|n: int| 0 <= n <= i32::MAX implies !is_eighths(self, n) by {
                        lemma_eighths_iff(self, m as nat, trailing as nat, n);
                        assert(8 * m * pow10(true_scale as nat) >= 8 * pow10(10))
                            by (nonlinear_arith)
                            requires
                                m >= 1,
                                pow10(true_scale as nat) >= pow10(10),
                        ;
                        lemma_pow10_ten();
                    }
                }
                return None;
            }
            assert(true_scale == scale);
            let q: u64 = pow10_u64(scale as usize);
            proof {
                lemma_pow10_mono(scale as nat, 12);
                assert(8 * (m as int) * (q as int) <= 8 * 1_000_000_000_000 * 1_000_000_000_000)
                    by (nonlinear_arith)
                    requires
                        m < 1_000_000_000_000,
                        q <= 1_000_000_000_000,
                ;
            }
            let n: u128 = 8 * (m as u128) * (q as u128);
            if n > 0x7fff_ffff {
                proof {
                    assert forall|z: int| 0 <= z <= i32::MAX implies !is_eighths(self, z) by {
                        lemma_eighths_iff(self, m as nat, trailing as nat, z);
                    }
                }
                return None;
            }
            proof {
                lemma_eighths_iff(self, m as nat, trailing as nat, n as int);
            }
            Some(n as i32)
        } else {
            if scale < -3 {
                proof {
                    assert(true_scale < -3);
                    assert forall|n: int| 0 <= n <= i32::MAX implies !is_eighths(self, n) by {
                        lemma_eighths_iff(self, m as nat, trailing as nat, n);
                        if n * pow10((-true_scale) as nat) == 8 * m {
                            lemma_ten_divides(n, m as int, (-true_scale) as nat);
                        }
                    }
                }
                return None;
            }
            assert(true_scale == scale);
            let p: u64 = pow10_u64((-scale) as usize);
            proof {
                lemma_pow10_mono((-scale) as nat, 12);
            }
            if (8 * m) % p != 0 {
                proof {
                    assert forall|n: int| 0 <= n <= i32::MAX implies !is_eighths(self, n) by {
                        lemma_eighths_iff(self, m as nat, trailing as nat, n);
                        if n * p == 8 * m {
                            vstd::arithmetic::div_mod::lemma_fundamental_div_mod_converse(
                                (8 * m) as int,
                                p as int,
                                n,
                                0,
                            );
                        }
                    }
                }
                return None;
            }
            let n: u64 = (8 * m) / p;
            proof {
                vstd::arithmetic::div_mod::lemma_fundamental_div_mod((8 * m) as int, p as int);
                assert(n * p == 8 * m) by (nonlinear_arith)
                    requires
                        (8 * m) as int == p * ((8 * m) as int / p as int) + (8 * m) as int % p as int,
                        (8 * m) as int % p as int == 0,
                        n == (8 * m) as int / p as int,
                ;
            }
            if n > 0x7fff_ffff {
                proof {
                    assert forall|z: int| 0 <= z <= i32::MAX implies !is_eighths(self, z) by {
                        lemma_eighths_iff(self, m as nat, trailing as nat, z);
                        if z * p == 8 * m {
                            assert(z == n) by (nonlinear_arith)
                                requires
                                    z * p == n * p,
                                    p >= 1,
                            ;
                        }
                    }
                }
                return None;
            }
            proof {
                lemma_eighths_iff(self, m as nat, trailing as nat, n as int);
            }
            Some(n as i32)
        }
    }

    /// The literal as text for a decimal-to-double conversion:
    /// `<int>.<frac>e<exp>`, with a zero for an empty part.
    pub fn text(&self) -> (r: Vec<u8>)
        requires
            self.wf(),
        ensures
            r@ == literal_text(
                self.digits@,
                self.frac_len as nat,
                self.has_exp,
                self.exp_negative,
                self.exp_digits@,
            ),
    {
        let mut r: Vec<u8> = Vec::new();
        let int_len = self.digits.len() - self.frac_len;
        if int_len == 0 {
            r.push(48u8);
        }
        append(&mut r, &self.digits, 0, int_len);
        r.push(46u8);
        if self.frac_len == 0 {
            r.push(48u8);
        }
        append(&mut r, &self.digits, int_len, self.digits.len());
        if self.has_exp {
            r.push(101u8);
            if self.exp_negative {
                r.push(45u8);
            }
            append(&mut r, &self.exp_digits, 0, self.exp_digits.len());
        }
        proof {
            let d = self.digits@;
            assert(d.subrange(0, 0) =~= Seq::<u8>::empty());
            assert(self.exp_digits@.subrange(0, self.exp_digits@.len() as int) =~= self.exp_digits@);
            assert(r@ =~= literal_text(
                self.digits@,
                self.frac_len as nat,
                self.has_exp,
                self.exp_negative,
                self.exp_digits@,
            ));
        }
        r
    }
}

/// Appends `src[a..b]` to `out`.
fn append(out: &mut Vec<u8>, src: &Vec<u8>, a: usize, b: usize)
    requires
        a <= b <= src@.len(),
    ensures
        final(out)@ == old(out)@ + src@.subrange(a as int, b as int),
{
    let mut i = a;
    while i < b
        invariant
            a <= i <= b <= src@.len(),
            out@ == old(out)@ + src@.subrange(a as int, i as int),
        decreases b - i,
    {
        proof {
            assert(src@.subrange(a as int, i + 1) =~= src@.subrange(a as int, i as int).push(
                src@[i as int],
            ));
        }
        out.push(src[i]);
        i = i + 1;
    }
}

/// The text of a literal: the integer digits (or `0`), a point, the
/// fraction digits (or `0`), and `e`, the sign and the exponent digits where
/// there is an exponent.
pub open spec fn literal_text(d: Seq<u8>, f: nat, has_exp: bool, neg: bool, x: Seq<u8>) -> Seq<u8> {
    let il = d.len() - f;
    let int_part = if il == 0 {
        seq![48u8]
    } else {
        d.subrange(0, il)
    };
    let frac_part = if f == 0 {
        seq![48u8]
    } else {
        d.subrange(il, d.len() as int)
    };
    let exp_part = if has_exp {
        seq![101u8] + (if neg {
            seq![45u8]
        } else {
            Seq::<u8>::empty()
        }) + x
    } else {
        Seq::<u8>::empty()
    };
    int_part + seq![46u8] + frac_part + exp_part
}

} // verus!
