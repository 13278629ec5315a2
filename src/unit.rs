use vstd::prelude::*;

verus! {

/// The number of base dimensions.
pub const DIMENSIONS: usize = 7;

/// A physical dimension: the exponent of each base dimension (length, mass,
/// time, electric current, temperature, amount of substance, luminous
/// intensity). All zero is dimensionless.
#[derive(Clone, Copy, Debug, PartialEq, Eq, Structural, Hash)]
pub struct Unit {
    pub length: i32,
    pub mass: i32,
    pub time: i32,
    pub current: i32,
    pub temperature: i32,
    pub amount: i32,
    pub luminosity: i32,
}

impl View for Unit {
    type V = Seq<int>;

    open spec fn view(&self) -> Seq<int> {
        seq![
            self.length as int,
            self.mass as int,
            self.time as int,
            self.current as int,
            self.temperature as int,
            self.amount as int,
            self.luminosity as int,
        ]
    }
}

/// The dimensionless unit.
pub open spec fn dimensionless() -> Unit {
    Unit { length: 0, mass: 0, time: 0, current: 0, temperature: 0, amount: 0, luminosity: 0 }
}

/// Whether every exponent of `s` fits in an `i32`.
pub open spec fn exponents_fit(s: Seq<int>) -> bool {
    forall|i: int| 0 <= i < s.len() ==> i32::MIN <= #[trigger] s[i] <= i32::MAX
}

/// The exponents of `a` and `b` added component by component.
pub open spec fn unit_sum(a: Seq<int>, b: Seq<int>) -> Seq<int> {
    Seq::new(DIMENSIONS as nat, |i: int| a[i] + b[i])
}

/// The exponents of `b` subtracted from those of `a`, component by component.
pub open spec fn unit_difference(a: Seq<int>, b: Seq<int>) -> Seq<int> {
    Seq::new(DIMENSIONS as nat, |i: int| a[i] - b[i])
}

/// The exponents of `a` multiplied by `k`.
pub open spec fn unit_scaled(a: Seq<int>, k: int) -> Seq<int> {
    Seq::new(DIMENSIONS as nat, |i: int| a[i] * k)
}

/// The product of two 32-bit integers, widened.
fn wide_mul(a: i32, k: i32) -> (r: i64)
    ensures
        r as int == a as int * k as int,
{
    assert(-0x4000_0000_0000_0000 <= a as int * k as int <= 0x4000_0000_0000_0000)
        by (nonlinear_arith)
        requires
            -0x8000_0000 <= a <= 0x7fff_ffff,
            -0x8000_0000 <= k <= 0x7fff_ffff,
    ;
    a as i64 * k as i64
}

fn fit(x: i64) -> (r: Option<i32>)
    ensures
        match r {
            Some(v) => v as int == x as int,
            None => !(i32::MIN <= x <= i32::MAX),
        },
{
    if i32::MIN as i64 <= x && x <= i32::MAX as i64 {
        Some(x as i32)
    } else {
        None
    }
}

/// Builds a unit from seven exponents, where each fits.
fn unit_from(e: [i64; 7]) -> (r: Option<Unit>)
    ensures
        match r {
            Some(u) => u@ =~= Seq::new(DIMENSIONS as nat, |i: int| e@[i] as int),
            None => !exponents_fit(Seq::new(DIMENSIONS as nat, |i: int| e@[i] as int)),
        },
{
    let ghost s = Seq::new(DIMENSIONS as nat, |i: int| e@[i] as int);
    let length = match fit(e[0]) {
        Some(v) => v,
        None => {
            assert(!(i32::MIN <= s[0] <= i32::MAX));
            return None;
        },
    };
    let mass = match fit(e[1]) {
        Some(v) => v,
        None => {
            assert(!(i32::MIN <= s[1] <= i32::MAX));
            return None;
        },
    };
    let time = match fit(e[2]) {
        Some(v) => v,
        None => {
            assert(!(i32::MIN <= s[2] <= i32::MAX));
            return None;
        },
    };
    let current = match fit(e[3]) {
        Some(v) => v,
        None => {
            assert(!(i32::MIN <= s[3] <= i32::MAX));
            return None;
        },
    };
    let temperature = match fit(e[4]) {
        Some(v) => v,
        None => {
            assert(!(i32::MIN <= s[4] <= i32::MAX));
            return None;
        },
    };
    let amount = match fit(e[5]) {
        Some(v) => v,
        None => {
            assert(!(i32::MIN <= s[5] <= i32::MAX));
            return None;
        },
    };
    let luminosity = match fit(e[6]) {
        Some(v) => v,
        None => {
            assert(!(i32::MIN <= s[6] <= i32::MAX));
            return None;
        },
    };
    Some(Unit { length, mass, time, current, temperature, amount, luminosity })
}

impl Unit {
    /// The dimensionless unit.
    pub fn zero() -> (r: Unit)
        ensures
            r == dimensionless(),
    {
        Unit { length: 0, mass: 0, time: 0, current: 0, temperature: 0, amount: 0, luminosity: 0 }
    }

    /// The unit of a product: exponents added.
    pub fn add(&self, other: &Unit) -> (r: Option<Unit>)
        ensures
            match r {
                Some(u) => u@ == unit_sum(self@, other@),
                None => !exponents_fit(unit_sum(self@, other@)),
            },
    {
        let a = self;
        let b = other;
        let e = [
            a.length as i64 + b.length as i64,
            a.mass as i64 + b.mass as i64,
            a.time as i64 + b.time as i64,
            a.current as i64 + b.current as i64,
            a.temperature as i64 + b.temperature as i64,
            a.amount as i64 + b.amount as i64,
            a.luminosity as i64 + b.luminosity as i64,
        ];
        assert(Seq::new(DIMENSIONS as nat, |i: int| e@[i] as int) =~= unit_sum(self@, other@));
        unit_from(e)
    }

    /// The unit of a quotient: exponents subtracted.
    pub fn sub(&self, other: &Unit) -> (r: Option<Unit>)
        ensures
            match r {
                Some(u) => u@ == unit_difference(self@, other@),
                None => !exponents_fit(unit_difference(self@, other@)),
            },
    {
        let a = self;
        let b = other;
        let e = [
            a.length as i64 - b.length as i64,
            a.mass as i64 - b.mass as i64,
            a.time as i64 - b.time as i64,
            a.current as i64 - b.current as i64,
            a.temperature as i64 - b.temperature as i64,
            a.amount as i64 - b.amount as i64,
            a.luminosity as i64 - b.luminosity as i64,
        ];
        assert(Seq::new(DIMENSIONS as nat, |i: int| e@[i] as int) =~= unit_difference(
            self@,
            other@,
        ));
        unit_from(e)
    }

    /// The unit of a power: exponents multiplied by `k`.
    pub fn scale(&self, k: i32) -> (r: Option<Unit>)
        ensures
            match r {
                Some(u) => u@ == unit_scaled(self@, k as int),
                None => !exponents_fit(unit_scaled(self@, k as int)),
            },
    {
        let a = self;
        let e = [
            wide_mul(a.length, k),
            wide_mul(a.mass, k),
            wide_mul(a.time, k),
            wide_mul(a.current, k),
            wide_mul(a.temperature, k),
            wide_mul(a.amount, k),
            wide_mul(a.luminosity, k),
        ];
        assert(Seq::new(DIMENSIONS as nat, |i: int| e@[i] as int) =~= unit_scaled(self@, k as int));
        unit_from(e)
    }
}

} // verus!
