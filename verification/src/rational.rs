//! Exact rational numbers over `i128`, the numeric ground of the library.
//!
//! A `Ratio` stores a numerator and a positive denominator. Arithmetic is
//! exact: an operation either returns the mathematical result, reduced to
//! lowest terms, or reports that the result does not fit the machine
//! representation. Comparisons are total and never overflow.

use vstd::prelude::*;
use vstd::arithmetic::div_mod::{
    lemma_fundamental_div_mod, lemma_mod_multiples_basic, lemma_mod_self_0, lemma_small_mod,
};

verus! {

/// Largest magnitude a numerator or denominator may take. Keeping `i128::MIN`
/// out makes negation and absolute value total.
pub const MAG_LIMIT: i128 = i128::MAX;

/// Greatest common divisor, by Euclid's rule.
pub open spec fn gcd_spec(a: nat, b: nat) -> nat
    decreases b,
{
    if b == 0 {
        a
    } else {
        gcd_spec(b, a % b)
    }
}

/// The divisor returned by `gcd_spec` is positive and divides both arguments.
pub proof fn lemma_gcd_properties(a: nat, b: nat)
    ensures
        a + b > 0 ==> gcd_spec(a, b) > 0,
        gcd_spec(a, b) > 0 ==> a % gcd_spec(a, b) == 0,
        gcd_spec(a, b) > 0 ==> b % gcd_spec(a, b) == 0,
    decreases b,
{
    if b == 0 {
        if a > 0 {
            lemma_mod_self_0(a as int);
        }
        assert(gcd_spec(a, 0) == a);
        if gcd_spec(a, b) > 0 {
            lemma_small_mod(0, gcd_spec(a, b));
        }
    } else {
        let r = a % b;
        assert(0 <= r < b) by {
            lemma_fundamental_div_mod(a as int, b as int);
        }
        lemma_gcd_properties(b, r);
        let g = gcd_spec(b, r);
        assert(gcd_spec(a, b) == g);
        assert(g > 0);
        // g divides b and r, and a == b * (a / b) + r, so g divides a.
        let q = a as int / b as int;
        lemma_fundamental_div_mod(a as int, b as int);
        assert(a as int == b as int * q + r as int);
        lemma_divides_linear(g as int, b as int, r as int, q);
        assert(a as int % g as int == 0);
    }
}

/// If `g` divides `b` and `r`, it divides `b * q + r`.
proof fn lemma_divides_linear(g: int, b: int, r: int, q: int)
    requires
        g > 0,
        b % g == 0,
        r % g == 0,
    ensures
        (b * q + r) % g == 0,
{
    lemma_exact_div(b, g);
    lemma_exact_div(r, g);
    let kb = b / g;
    let kr = r / g;
    assert(b * q + r == (kb * q + kr) * g) by (nonlinear_arith)
        requires
            b == g * kb,
            r == g * kr;
    lemma_mod_multiples_basic(kb * q + kr, g);
}

/// Exact division cancels: if `g` divides `x`, then `x == g * (x / g)`.
proof fn lemma_exact_div(x: int, g: int)
    requires
        g > 0,
        x % g == 0,
    ensures
        x == g * (x / g),
{
    lemma_fundamental_div_mod(x, g);
}

/// Euclid's algorithm on machine words.
fn gcd_u128(a: u128, b: u128) -> (g: u128)
    ensures
        g == gcd_spec(a as nat, b as nat),
{
    let mut x: u128 = a;
    let mut y: u128 = b;
    while y != 0
        invariant
            gcd_spec(x as nat, y as nat) == gcd_spec(a as nat, b as nat),
        decreases y,
    {
        let r: u128 = x % y;
        proof {
            assert(gcd_spec(x as nat, y as nat) == gcd_spec(y as nat, r as nat));
        }
        x = y;
        y = r;
    }
    x
}

/// A mathematical fraction of unbounded integers: the value that a `Ratio`
/// stands for, and the language of every contract in this crate.
pub ghost struct Frac {
    /// Numerator.
    pub n: int,
    /// Denominator.
    pub d: int,
}

impl Frac {
    /// A meaningful fraction has a positive denominator.
    pub open spec fn wf(self) -> bool {
        self.d > 0
    }

    /// The whole number `i` as a fraction.
    pub open spec fn from_int(i: int) -> Frac {
        Frac { n: i, d: 1 }
    }

    /// Value equality by cross multiplication.
    pub open spec fn feq(self, o: Frac) -> bool {
        self.n * o.d == o.n * self.d
    }

    /// Strict order by cross multiplication; meaningful when both sides are
    /// well formed.
    pub open spec fn flt(self, o: Frac) -> bool {
        self.n * o.d < o.n * self.d
    }

    /// Non-strict order by cross multiplication.
    pub open spec fn fle(self, o: Frac) -> bool {
        self.n * o.d <= o.n * self.d
    }

    /// Exact sum.
    pub open spec fn fadd(self, o: Frac) -> Frac {
        Frac { n: self.n * o.d + o.n * self.d, d: self.d * o.d }
    }

    /// Exact difference.
    pub open spec fn fsub(self, o: Frac) -> Frac {
        Frac { n: self.n * o.d - o.n * self.d, d: self.d * o.d }
    }

    /// Exact product.
    pub open spec fn fmul(self, o: Frac) -> Frac {
        Frac { n: self.n * o.n, d: self.d * o.d }
    }

    /// Exact negation.
    pub open spec fn fneg(self) -> Frac {
        Frac { n: -self.n, d: self.d }
    }

    /// Exact quotient, sign-normalised so that the denominator stays
    /// positive; meaningful when the divisor is not zero.
    pub open spec fn fdiv(self, o: Frac) -> Frac {
        if o.n >= 0 {
            Frac { n: self.n * o.d, d: self.d * o.n }
        } else {
            Frac { n: -(self.n * o.d), d: -(self.d * o.n) }
        }
    }
}

/// An exact rational number: `num / den` with `den > 0`.
///
/// Operations keep results in lowest terms; inputs are only required to be
/// well formed, not reduced.
#[derive(Clone, Copy, Debug)]
pub struct Ratio {
    /// Signed numerator.
    pub num: i128,
    /// Positive denominator.
    pub den: i128,
}

impl View for Ratio {
    type V = Frac;

    open spec fn view(&self) -> Frac {
        Frac { n: self.num as int, d: self.den as int }
    }
}

/// Whether an unbounded integer fits the symmetric machine range.
pub open spec fn in_rng(x: int) -> bool {
    -(MAG_LIMIT as int) <= x <= MAG_LIMIT as int
}

/// The fraction `n / d` in lowest terms; meaningful when `d > 0`.
pub open spec fn reduced(n: int, d: int) -> Frac {
    let g = gcd_spec(vstd::math::abs(n), d as nat) as int;
    Frac { n: n / g, d: d / g }
}

/// The machine rational standing for `n / d`, in lowest terms, or `None`
/// where `n / d` lies outside the machine range.
pub open spec fn try_ratio(n: int, d: int) -> Option<Ratio> {
    if in_rng(n) && 0 < d && d <= MAG_LIMIT as int {
        Some(
            Ratio {
                num: reduced(n, d).n as i128,
                den: reduced(n, d).d as i128,
            },
        )
    } else {
        None
    }
}

impl Ratio {
    /// Well-formedness: the denominator is positive and the numerator stays
    /// clear of `i128::MIN` so that its magnitude is representable.
    pub open spec fn wf(self) -> bool {
        0 < self.den && -MAG_LIMIT <= self.num
    }
}

/// Reduction by the greatest common divisor preserves the value, keeps the
/// denominator positive, and never grows either component.
pub proof fn lemma_reduced_props(n: int, d: int)
    requires
        d > 0,
    ensures
        reduced(n, d).wf(),
        reduced(n, d).feq(Frac { n: n, d: d }),
        vstd::math::abs(reduced(n, d).n) <= vstd::math::abs(n),
        reduced(n, d).d <= d,
{
    let a = vstd::math::abs(n);
    lemma_gcd_properties(a, d as nat);
    let g = gcd_spec(a, d as nat) as int;
    assert(g > 0);
    assert(d % g == 0);
    assert(a as int % g == 0);
    // abs(n) divisible by g means n is divisible by g.
    assert(n % g == 0) by {
        if n < 0 {
            lemma_exact_div(a as int, g);
            let k = a as int / g;
            assert(n == g * (-k)) by (nonlinear_arith)
                requires
                    a as int == g * k,
                    n == -(a as int);
            lemma_mod_multiples_basic(-k, g);
            assert((-k * g) % g == 0);
            assert(-k * g == g * (-k)) by (nonlinear_arith);
        }
    }
    lemma_exact_div(n, g);
    lemma_exact_div(d, g);
    let nn = n / g;
    let dd = d / g;
    assert(dd > 0) by (nonlinear_arith)
        requires
            d == g * dd,
            d > 0,
            g > 0;
    assert(nn * d == n * dd) by (nonlinear_arith)
        requires
            n == g * nn,
            d == g * dd;
    assert(vstd::math::abs(nn) <= vstd::math::abs(n)) by (nonlinear_arith)
        requires
            n == g * nn,
            g >= 1;
    assert(dd <= d) by (nonlinear_arith)
        requires
            d == g * dd,
            g >= 1,
            dd > 0;
}

/// Where both components are in range, `try_ratio` succeeds with a well
/// formed rational equal in value to `n / d`.
pub proof fn lemma_try_ratio(n: int, d: int)
    requires
        in_rng(n),
        0 < d <= MAG_LIMIT as int,
    ensures
        try_ratio(n, d) is Some,
        try_ratio(n, d).unwrap().wf(),
        try_ratio(n, d).unwrap()@ == reduced(n, d),
        try_ratio(n, d).unwrap()@.feq(Frac { n: n, d: d }),
{
    lemma_reduced_props(n, d);
}

/// Build the reduced machine rational for `n / d`.
fn ratio_of(n: i128, d: i128) -> (r: Ratio)
    requires
        n > i128::MIN,
        0 < d,
    ensures
        Some(r) == try_ratio(n as int, d as int),
        r.wf(),
        r@.feq(Frac { n: n as int, d: d as int }),
{
    proof {
        lemma_try_ratio(n as int, d as int);
    }
    let a: u128 = if n < 0 {
        (-n) as u128
    } else {
        n as u128
    };
    proof {
        assert(a == vstd::math::abs(n as int));
    }
    let g: u128 = gcd_u128(a, d as u128);
    proof {
        lemma_gcd_properties(a as nat, d as nat);
        assert(g > 0);
        lemma_exact_div(a as int, g as int);
        lemma_exact_div(d as int, g as int);
        assert(a / g == (a as int / g as int)) by (nonlinear_arith)
            requires
                g > 0,
        ;
        assert((d as u128) / g == (d as int / g as int)) by (nonlinear_arith)
            requires
                g > 0,
                d > 0,
        ;
        assert(a as int / g as int <= a as int) by (nonlinear_arith)
            requires
                a as int == g as int * (a as int / g as int),
                g >= 1,
                a >= 0,
                a as int / g as int >= 0,
        ;
        assert(d as int / g as int <= d as int && d as int / g as int > 0) by (nonlinear_arith)
            requires
                d as int == g as int * (d as int / g as int),
                g >= 1,
                d > 0,
        ;
    }
    let qn: u128 = a / g;
    let qd: u128 = (d as u128) / g;
    let num: i128 = if n < 0 {
        proof {
            // n == -(a) and a == g * qn, so n / g == -qn.
            assert(n as int == (g as int) * (-(qn as int))) by (nonlinear_arith)
                requires
                    a as int == (g as int) * (qn as int),
                    n as int == -(a as int);
            vstd::arithmetic::div_mod::lemma_div_multiples_vanish(-(qn as int), g as int);
        }
        -(qn as i128)
    } else {
        proof {
            assert(n as int == (g as int) * (qn as int)) by (nonlinear_arith)
                requires
                    a as int == (g as int) * (qn as int),
                    n as int == a as int;
            vstd::arithmetic::div_mod::lemma_div_multiples_vanish(qn as int, g as int);
        }
        qn as i128
    };
    let den: i128 = qd as i128;
    proof {
        vstd::arithmetic::div_mod::lemma_div_multiples_vanish(qd as int, g as int);
        assert(num as int == reduced(n as int, d as int).n);
        assert(den as int == reduced(n as int, d as int).d);
    }
    Ratio { num, den }
}

/// The reduced sum of two machine rationals, over the least common
/// denominator, or `None` where an intermediate or the result leaves the
/// machine range.
pub open spec fn try_add(a: Ratio, b: Ratio) -> Option<Ratio> {
    let g = gcd_spec(a.den as nat, b.den as nat) as int;
    let ag = a.den as int / g;
    let bg = b.den as int / g;
    let p = a.num * bg;
    let q = b.num * ag;
    if in_rng(p) && in_rng(q) && in_rng(p + q) {
        try_ratio(p + q, a.den * bg)
    } else {
        None
    }
}

/// The reduced difference of two machine rationals, over the least common
/// denominator, or `None` out of the machine range.
pub open spec fn try_sub(a: Ratio, b: Ratio) -> Option<Ratio> {
    let g = gcd_spec(a.den as nat, b.den as nat) as int;
    let ag = a.den as int / g;
    let bg = b.den as int / g;
    let p = a.num * bg;
    let q = b.num * ag;
    if in_rng(p) && in_rng(q) && in_rng(p - q) {
        try_ratio(p - q, a.den * bg)
    } else {
        None
    }
}

/// The co-factors of two positive denominators against their greatest common
/// divisor: each is positive, and scaling either denominator by the other's
/// co-factor gives the least common denominator.
fn den_cofactors(ad: i128, bd: i128) -> (r: (i128, i128))
    requires
        0 < ad,
        0 < bd,
    ensures
        r.0 == ad as int / (gcd_spec(ad as nat, bd as nat) as int),
        r.1 == bd as int / (gcd_spec(ad as nat, bd as nat) as int),
        0 < r.0 <= ad,
        0 < r.1 <= bd,
        ad as int * r.1 == bd as int * r.0,
{
    let g = gcd_u128(ad as u128, bd as u128);
    proof {
        lemma_gcd_properties(ad as nat, bd as nat);
        assert(g > 0);
        lemma_exact_div(ad as int, g as int);
        lemma_exact_div(bd as int, g as int);
        assert((ad as u128) / g == (ad as int / g as int)) by (nonlinear_arith)
            requires
                g > 0,
                ad > 0,
        ;
        assert((bd as u128) / g == (bd as int / g as int)) by (nonlinear_arith)
            requires
                g > 0,
                bd > 0,
        ;
        let ag = ad as int / g as int;
        let bg = bd as int / g as int;
        assert(0 < ag <= ad && 0 < bg <= bd) by (nonlinear_arith)
            requires
                ad as int == (g as int) * ag,
                bd as int == (g as int) * bg,
                ad > 0,
                bd > 0,
                g >= 1,
        ;
        assert(ad as int * bg == bd as int * ag) by (nonlinear_arith)
            requires
                ad as int == (g as int) * ag,
                bd as int == (g as int) * bg,
        ;
    }
    let ag: i128 = ((ad as u128) / g) as i128;
    let bg: i128 = ((bd as u128) / g) as i128;
    (ag, bg)
}

/// The reduced product of two machine rationals, or `None` out of range.
pub open spec fn try_mul(a: Ratio, b: Ratio) -> Option<Ratio> {
    try_ratio(a.num * b.num, a.den * b.den)
}

/// The reduced quotient of two machine rationals; `None` for a zero divisor
/// or out of the machine range.
pub open spec fn try_div(a: Ratio, b: Ratio) -> Option<Ratio> {
    if b.num == 0 {
        None
    } else if b.num > 0 {
        try_ratio(a.num * b.den, a.den * b.num)
    } else {
        try_ratio(-(a.num * b.den), -(a.den * b.num))
    }
}

impl Ratio {
    /// The whole number `i` as a rational.
    pub fn from_int(i: i64) -> (r: Ratio)
        ensures
            r.wf(),
            r@ == Frac::from_int(i as int),
    {
        Ratio { num: i as i128, den: 1 }
    }

    /// The rational `num / den` in lowest terms, or `None` where the
    /// denominator is not positive or the numerator is `i128::MIN`.
    pub fn new(num: i128, den: i128) -> (r: Option<Ratio>)
        ensures
            r == try_ratio(num as int, den as int),
            r is Some ==> r.unwrap().wf() && r.unwrap()@.feq(Frac { n: num as int, d: den as int }),
    {
        if den <= 0 || num == i128::MIN {
            None
        } else {
            Some(ratio_of(num, den))
        }
    }

    /// Exact negation; always representable.
    pub fn negated(&self) -> (r: Ratio)
        requires
            self.wf(),
        ensures
            r.wf(),
            r@ == self@.fneg(),
    {
        Ratio { num: -self.num, den: self.den }
    }

    /// Exact sum, reduced, or `None` out of the machine range.
    pub fn add_exact(&self, other: &Ratio) -> (r: Option<Ratio>)
        requires
            self.wf(),
            other.wf(),
        ensures
            r == try_add(*self, *other),
            r is Some ==> r.unwrap().wf(),
    {
        let (ag, bg) = den_cofactors(self.den, other.den);
        let p: i128 = match self.num.checked_mul(bg) {
            Some(v) => v,
            None => {
                return None;
            },
        };
        let q: i128 = match other.num.checked_mul(ag) {
            Some(v) => v,
            None => {
                return None;
            },
        };
        if p == i128::MIN || q == i128::MIN {
            return None;
        }
        let s: i128 = match p.checked_add(q) {
            Some(v) => v,
            None => {
                return None;
            },
        };
        let d: i128 = match self.den.checked_mul(bg) {
            Some(v) => v,
            None => {
                return None;
            },
        };
        if s == i128::MIN {
            return None;
        }
        proof {
            lemma_pos_mul(self.den as int, bg as int);
        }
        Some(ratio_of(s, d))
    }

    /// Exact difference, reduced, or `None` out of the machine range.
    pub fn sub_exact(&self, other: &Ratio) -> (r: Option<Ratio>)
        requires
            self.wf(),
            other.wf(),
        ensures
            r == try_sub(*self, *other),
            r is Some ==> r.unwrap().wf(),
    {
        let (ag, bg) = den_cofactors(self.den, other.den);
        let p: i128 = match self.num.checked_mul(bg) {
            Some(v) => v,
            None => {
                return None;
            },
        };
        let q: i128 = match other.num.checked_mul(ag) {
            Some(v) => v,
            None => {
                return None;
            },
        };
        if p == i128::MIN || q == i128::MIN {
            return None;
        }
        let s: i128 = match p.checked_sub(q) {
            Some(v) => v,
            None => {
                return None;
            },
        };
        let d: i128 = match self.den.checked_mul(bg) {
            Some(v) => v,
            None => {
                return None;
            },
        };
        if s == i128::MIN {
            return None;
        }
        proof {
            lemma_pos_mul(self.den as int, bg as int);
        }
        Some(ratio_of(s, d))
    }

    /// Exact product, reduced, or `None` out of the machine range.
    pub fn mul_exact(&self, other: &Ratio) -> (r: Option<Ratio>)
        requires
            self.wf(),
            other.wf(),
        ensures
            r == try_mul(*self, *other),
            r is Some ==> r.unwrap().wf(),
    {
        let n: i128 = match self.num.checked_mul(other.num) {
            Some(v) => v,
            None => {
                return None;
            },
        };
        let d: i128 = match self.den.checked_mul(other.den) {
            Some(v) => v,
            None => {
                return None;
            },
        };
        if n == i128::MIN {
            return None;
        }
        proof {
            lemma_pos_mul(self.den as int, other.den as int);
        }
        Some(ratio_of(n, d))
    }

    /// Exact quotient, reduced; `None` for a zero divisor or out of the
    /// machine range.
    pub fn div_exact(&self, other: &Ratio) -> (r: Option<Ratio>)
        requires
            self.wf(),
            other.wf(),
        ensures
            r == try_div(*self, *other),
            r is Some ==> r.unwrap().wf(),
    {
        if other.num == 0 {
            return None;
        }
        let n: i128 = match self.num.checked_mul(other.den) {
            Some(v) => v,
            None => {
                return None;
            },
        };
        let d: i128 = match self.den.checked_mul(other.num) {
            Some(v) => v,
            None => {
                return None;
            },
        };
        if n == i128::MIN || d == i128::MIN {
            return None;
        }
        if other.num > 0 {
            proof {
                lemma_pos_mul(self.den as int, other.num as int);
            }
            Some(ratio_of(n, d))
        } else {
            proof {
                lemma_pos_mul(self.den as int, -(other.num as int));
                assert((self.den as int) * -(other.num as int) == -((self.den as int) * (
                other.num as int))) by (nonlinear_arith);
            }
            Some(ratio_of(-n, -d))
        }
    }
}

/// The shared shape of sum and difference over the least common
/// denominator: the combination `(a.num·bg ± b.num·ag) / (a.den·bg)` has the
/// value of the exact sum or difference.
proof fn lemma_lcd_combination(a: Ratio, b: Ratio, sign: int)
    requires
        a.wf(),
        b.wf(),
        sign == 1 || sign == -1,
    ensures
        ({
            let g = gcd_spec(a.den as nat, b.den as nat) as int;
            let ag = a.den as int / g;
            let bg = b.den as int / g;
            &&& 0 < ag
            &&& 0 < bg
            &&& 0 < a.den as int * bg
            &&& (a.num * bg + sign * (b.num * ag)) * ((a.den as int) * (b.den as int)) == (
            a.num * (b.den as int) + sign * (b.num * (a.den as int))) * ((a.den as int) * bg)
        }),
{
    let g = gcd_spec(a.den as nat, b.den as nat) as int;
    lemma_gcd_properties(a.den as nat, b.den as nat);
    lemma_exact_div(a.den as int, g);
    lemma_exact_div(b.den as int, g);
    let ag = a.den as int / g;
    let bg = b.den as int / g;
    let ad = a.den as int;
    let bd = b.den as int;
    assert(0 < ag && 0 < bg && 0 < ad * bg) by (nonlinear_arith)
        requires
            ad == g * ag,
            bd == g * bg,
            ad > 0,
            bd > 0,
            g >= 1,
    ;
    assert(ag * bd == ad * bg) by (nonlinear_arith)
        requires
            ad == g * ag,
            bd == g * bg,
    ;
    let na = a.num as int;
    let nb = b.num as int;
    assert((na * bg) * (ad * bd) == (na * bd) * (ad * bg)) by (nonlinear_arith);
    assert((nb * ag) * (ad * bd) == (nb * ad) * (ad * bg)) by (nonlinear_arith)
        requires
            ag * bd == ad * bg,
    ;
    assert((na * bg + sign * (nb * ag)) * (ad * bd) == (na * bg) * (ad * bd) + sign * ((nb * ag)
        * (ad * bd))) by (nonlinear_arith);
    assert((na * bd + sign * (nb * ad)) * (ad * bg) == (na * bd) * (ad * bg) + sign * ((nb * ad)
        * (ad * bg))) by (nonlinear_arith);
}

/// A successful sum is well formed and equal in value to the exact sum.
pub proof fn lemma_add_value(a: Ratio, b: Ratio)
    requires
        a.wf(),
        b.wf(),
        try_add(a, b) is Some,
    ensures
        try_add(a, b).unwrap().wf(),
        try_add(a, b).unwrap()@.feq(a@.fadd(b@)),
{
    let g = gcd_spec(a.den as nat, b.den as nat) as int;
    let ag = a.den as int / g;
    let bg = b.den as int / g;
    let p = a.num * bg;
    let q = b.num * ag;
    let d = a.den as int * bg;
    lemma_lcd_combination(a, b, 1);
    assert(p + 1 * q == p + q);
    lemma_try_ratio(p + q, d);
    let r = try_add(a, b).unwrap();
    assert(r@.feq(Frac { n: p + q, d: d }));
    assert((Frac { n: p + q, d: d }).feq(a@.fadd(b@))) by (nonlinear_arith)
        requires
            (p + 1 * (b.num * ag)) * ((a.den as int) * (b.den as int)) == (a.num * (
            b.den as int) + 1 * (b.num * (a.den as int))) * ((a.den as int) * bg),
            p == a.num * bg,
            q == b.num * ag,
            d == a.den as int * bg,
            a@.fadd(b@) == (Frac {
                n: a.num * (b.den as int) + b.num * (a.den as int),
                d: (a.den as int) * (b.den as int),
            }),
    ;
    assert(a@.fadd(b@).wf()) by (nonlinear_arith)
        requires
            a.den > 0,
            b.den > 0,
    ;
    lemma_feq_trans(r@, Frac { n: p + q, d: d }, a@.fadd(b@));
}

/// A successful difference is well formed and equal in value to the exact
/// difference.
pub proof fn lemma_sub_value(a: Ratio, b: Ratio)
    requires
        a.wf(),
        b.wf(),
        try_sub(a, b) is Some,
    ensures
        try_sub(a, b).unwrap().wf(),
        try_sub(a, b).unwrap()@.feq(a@.fsub(b@)),
{
    let g = gcd_spec(a.den as nat, b.den as nat) as int;
    let ag = a.den as int / g;
    let bg = b.den as int / g;
    let p = a.num * bg;
    let q = b.num * ag;
    let d = a.den as int * bg;
    lemma_lcd_combination(a, b, -1);
    assert(p + (-1) * q == p - q);
    lemma_try_ratio(p - q, d);
    let r = try_sub(a, b).unwrap();
    assert(r@.feq(Frac { n: p - q, d: d }));
    assert((Frac { n: p - q, d: d }).feq(a@.fsub(b@))) by (nonlinear_arith)
        requires
            (p + (-1) * (b.num * ag)) * ((a.den as int) * (b.den as int)) == (a.num * (
            b.den as int) + (-1) * (b.num * (a.den as int))) * ((a.den as int) * bg),
            p == a.num * bg,
            q == b.num * ag,
            d == a.den as int * bg,
            a@.fsub(b@) == (Frac {
                n: a.num * (b.den as int) - b.num * (a.den as int),
                d: (a.den as int) * (b.den as int),
            }),
    ;
    assert(a@.fsub(b@).wf()) by (nonlinear_arith)
        requires
            a.den > 0,
            b.den > 0,
    ;
    lemma_feq_trans(r@, Frac { n: p - q, d: d }, a@.fsub(b@));
}

/// A successful product is well formed and equal in value to the exact
/// product.
pub proof fn lemma_mul_value(a: Ratio, b: Ratio)
    requires
        a.wf(),
        b.wf(),
        try_mul(a, b) is Some,
    ensures
        try_mul(a, b).unwrap().wf(),
        try_mul(a, b).unwrap()@.feq(a@.fmul(b@)),
{
    lemma_try_ratio(a.num * b.num, a.den * b.den);
}

/// A successful quotient is well formed and equal in value to the exact
/// quotient.
pub proof fn lemma_div_value(a: Ratio, b: Ratio)
    requires
        a.wf(),
        b.wf(),
        try_div(a, b) is Some,
    ensures
        try_div(a, b).unwrap().wf(),
        try_div(a, b).unwrap()@.feq(a@.fdiv(b@)),
{
    if b.num > 0 {
        lemma_try_ratio(a.num * b.den, a.den * b.num);
    } else {
        lemma_try_ratio(-(a.num * b.den), -(a.den * b.num));
    }
}

/// The product of two positives is positive.
proof fn lemma_pos_mul(a: int, b: int) by (nonlinear_arith)
    requires
        a > 0,
        b > 0,
    ensures
        a * b > 0,
{
}

/// One comparison step: with both sides split into whole part and remainder,
/// the order of the fractions follows from the whole parts, or reduces to the
/// order of the remainders.
proof fn lemma_cmp_step(
    an: int,
    ad: int,
    bn: int,
    bd: int,
    ta: int,
    ra: int,
    tb: int,
    rb: int,
) by (nonlinear_arith)
    requires
        an == ta * ad + ra,
        bn == tb * bd + rb,
        0 <= ra < ad,
        0 <= rb < bd,
    ensures
        ta < tb ==> an * bd < bn * ad,
        ta > tb ==> an * bd > bn * ad,
        ta == tb ==> ((an * bd < bn * ad) <==> (ra * bd < rb * ad)),
{
}

/// Strict order of two non-negative fractions, by the continued-fraction
/// walk; exact and free of overflow.
fn lt_nonneg(an: u128, ad: u128, bn: u128, bd: u128) -> (r: bool)
    requires
        ad > 0,
        bd > 0,
    ensures
        r == ((an as int) * (bd as int) < (bn as int) * (ad as int)),
{
    let mut xn: u128 = an;
    let mut xd: u128 = ad;
    let mut yn: u128 = bn;
    let mut yd: u128 = bd;
    loop
        invariant
            xd > 0,
            yd > 0,
            ((xn as int) * (yd as int) < (yn as int) * (xd as int)) == ((an as int) * (bd as int)
                < (bn as int) * (ad as int)),
        decreases xd + yd,
    {
        let tx: u128 = xn / xd;
        let ty: u128 = yn / yd;
        let rx: u128 = xn % xd;
        let ry: u128 = yn % yd;
        proof {
            lemma_fundamental_div_mod(xn as int, xd as int);
            lemma_fundamental_div_mod(yn as int, yd as int);
            lemma_cmp_step(
                xn as int,
                xd as int,
                yn as int,
                yd as int,
                tx as int,
                rx as int,
                ty as int,
                ry as int,
            );
        }
        if tx != ty {
            return tx < ty;
        }
        if rx == 0 || ry == 0 {
            proof {
                assert(0 * (yd as int) < (ry as int) * (xd as int) <==> ry > 0)
                    by (nonlinear_arith)
                    requires
                        xd > 0,
                        yd > 0,
                        ry < yd,
                ;
                assert(!((rx as int) * (yd as int) < 0 * (xd as int))) by (nonlinear_arith)
                    requires
                        xd > 0,
                        yd > 0,
                        rx >= 0,
                ;
            }
            return rx == 0 && ry != 0;
        }
        proof {
            // Both remainders are proper positive fractions; compare their
            // reciprocals with the sides exchanged.
            assert(((rx as int) * (yd as int) < (ry as int) * (xd as int)) == (((yd as int) * (rx
                as int)) < ((xd as int) * (ry as int)))) by (nonlinear_arith);
        }
        let nxn: u128 = yd;
        let nxd: u128 = ry;
        let nyn: u128 = xd;
        let nyd: u128 = rx;
        xn = nxn;
        xd = nxd;
        yn = nyn;
        yd = nyd;
    }
}

impl Ratio {
    /// Total strict order; never overflows.
    pub fn lt(&self, other: &Ratio) -> (r: bool)
        requires
            self.wf(),
            other.wf(),
        ensures
            r == self@.flt(other@),
    {
        let sn: i128 = self.num;
        let on: i128 = other.num;
        if sn < 0 && on >= 0 {
            proof {
                assert((sn as int) * (other.den as int) < (on as int) * (self.den as int))
                    by (nonlinear_arith)
                    requires
                        sn < 0,
                        on >= 0,
                        self.den > 0,
                        other.den > 0,
                ;
            }
            true
        } else if sn >= 0 && on < 0 {
            proof {
                assert(!((sn as int) * (other.den as int) < (on as int) * (self.den as int)))
                    by (nonlinear_arith)
                    requires
                        sn >= 0,
                        on < 0,
                        self.den > 0,
                        other.den > 0,
                ;
            }
            false
        } else if sn >= 0 {
            lt_nonneg(sn as u128, self.den as u128, on as u128, other.den as u128)
        } else {
            proof {
                assert(((-on as int) * (self.den as int) < (-sn as int) * (other.den as int))
                    == ((sn as int) * (other.den as int) < (on as int) * (self.den as int)))
                    by (nonlinear_arith);
            }
            lt_nonneg((-on) as u128, other.den as u128, (-sn) as u128, self.den as u128)
        }
    }

    /// Total non-strict order.
    pub fn le(&self, other: &Ratio) -> (r: bool)
        requires
            self.wf(),
            other.wf(),
        ensures
            r == self@.fle(other@),
    {
        !other.lt(self)
    }

    /// Value equality, blind to the representation.
    pub fn eq_value(&self, other: &Ratio) -> (r: bool)
        requires
            self.wf(),
            other.wf(),
        ensures
            r == self@.feq(other@),
    {
        !self.lt(other) && !other.lt(self)
    }
}

/// Equal fractions have numerators of the same sign.
pub proof fn lemma_feq_sign(x: Frac, y: Frac) by (nonlinear_arith)
    requires
        x.wf(),
        y.wf(),
        x.feq(y),
    ensures
        x.n > 0 <==> y.n > 0,
        x.n == 0 <==> y.n == 0,
        x.n < 0 <==> y.n < 0,
{
}

/// Value equality is transitive.
pub proof fn lemma_feq_trans(a: Frac, b: Frac, c: Frac) by (nonlinear_arith)
    requires
        a.wf(),
        b.wf(),
        c.wf(),
        a.feq(b),
        b.feq(c),
    ensures
        a.feq(c),
{
}

/// Anything equal in value to a quotient multiplies back to the dividend.
pub proof fn lemma_div_mul_cancel(x: Frac, a: Frac, b: Frac) by (nonlinear_arith)
    requires
        x.wf(),
        a.wf(),
        b.wf(),
        b.n != 0,
        x.feq(a.fdiv(b)),
    ensures
        x.fmul(b).wf(),
        x.fmul(b).feq(a),
{
}


/// Order is stable under value equality.
pub proof fn lemma_fle_congruence(a: Frac, b: Frac, a2: Frac, b2: Frac) by (nonlinear_arith)
    requires
        a.wf(),
        b.wf(),
        a2.wf(),
        b2.wf(),
        a.feq(a2),
        b.feq(b2),
    ensures
        a.fle(b) <==> a2.fle(b2),
        a.flt(b) <==> a2.flt(b2),
{
}

/// Non-strict order is transitive.
pub proof fn lemma_fle_trans(a: Frac, b: Frac, c: Frac) by (nonlinear_arith)
    requires
        a.wf(),
        b.wf(),
        c.wf(),
        a.fle(b),
        b.fle(c),
    ensures
        a.fle(c),
{
}

/// Multiplying both sides by a positive fraction keeps the order.
pub proof fn lemma_fle_mul_pos(a: Frac, b: Frac, k: Frac) by (nonlinear_arith)
    requires
        a.wf(),
        b.wf(),
        k.wf(),
        k.n > 0,
    ensures
        a.fle(b) <==> a.fmul(k).fle(b.fmul(k)),
        a.flt(b) <==> a.fmul(k).flt(b.fmul(k)),
{
}

/// The whole-number square root, by counting up.
pub open spec fn sqrt_nat(v: nat) -> nat
    decreases v,
{
    if v == 0 {
        0
    } else {
        let p = sqrt_nat((v - 1) as nat);
        if (p + 1) * (p + 1) <= v {
            p + 1
        } else {
            p
        }
    }
}

/// `sqrt_nat` is the floor of the square root.
pub proof fn lemma_sqrt_nat_bounds(v: nat)
    ensures
        sqrt_nat(v) * sqrt_nat(v) <= v,
        v < (sqrt_nat(v) + 1) * (sqrt_nat(v) + 1),
    decreases v,
{
    if v == 0 {
        assert(sqrt_nat(0) == 0);
        assert(0 < (0 + 1) * (0 + 1)) by (nonlinear_arith);
    } else {
        let w = (v - 1) as nat;
        lemma_sqrt_nat_bounds(w);
        let p = sqrt_nat(w);
        assert(p * p <= w);
        assert(w < (p + 1) * (p + 1));
        if (p + 1) * (p + 1) <= v {
            assert(sqrt_nat(v) == p + 1);
            assert(sqrt_nat(v) * sqrt_nat(v) <= v) by (nonlinear_arith)
                requires
                    sqrt_nat(v) == p + 1,
                    (p + 1) * (p + 1) <= v,
            ;
            assert(v < (sqrt_nat(v) + 1) * (sqrt_nat(v) + 1)) by (nonlinear_arith)
                requires
                    sqrt_nat(v) == p + 1,
                    w < (p + 1) * (p + 1),
                    v == w + 1,
            ;
        } else {
            assert(sqrt_nat(v) == p);
            assert(sqrt_nat(v) * sqrt_nat(v) <= v) by (nonlinear_arith)
                requires
                    sqrt_nat(v) == p,
                    p * p <= w,
                    w <= v,
            ;
            assert(v < (sqrt_nat(v) + 1) * (sqrt_nat(v) + 1)) by (nonlinear_arith)
                requires
                    sqrt_nat(v) == p,
                    !((p + 1) * (p + 1) <= v),
            ;
        }
    }
}

/// Two whole numbers whose squares bracket `v` the same way are equal.
pub proof fn lemma_sqrt_unique(v: nat, a: nat, b: nat) by (nonlinear_arith)
    requires
        a * a <= v,
        v < (a + 1) * (a + 1),
        b * b <= v,
        v < (b + 1) * (b + 1),
    ensures
        a == b,
{
}

/// The whole-number square root of a machine word.
pub fn isqrt_u128(v: u128) -> (r: u128)
    ensures
        r == sqrt_nat(v as nat),
{
    proof {
        lemma_sqrt_nat_bounds(v as nat);
    }
    let mut lo: u128 = 0;
    let mut hi: u128 = 0x1_0000_0000_0000_0000;
    proof {
        assert((v as int) < (hi as int) * (hi as int)) by (nonlinear_arith)
            requires
                hi == 0x1_0000_0000_0000_0000u128,
                v <= u128::MAX,
        ;
    }
    while lo + 1 < hi
        invariant
            lo < hi,
            hi <= 0x1_0000_0000_0000_0000,
            (lo as int) * (lo as int) <= v as int,
            (v as int) < (hi as int) * (hi as int),
        decreases hi - lo,
    {
        let mid: u128 = lo + (hi - lo) / 2;
        proof {
            assert(mid < hi);
            assert((mid as int) * (mid as int) <= (u128::MAX) as int) by (nonlinear_arith)
                requires
                    mid < 0x1_0000_0000_0000_0000u128,
            ;
        }
        if mid * mid <= v {
            lo = mid;
        } else {
            hi = mid;
        }
    }
    proof {
        lemma_sqrt_unique(v as nat, lo as nat, sqrt_nat(v as nat));
    }
    lo
}

/// An integer as an unreduced machine rational.
pub open spec fn int_ratio(i: int) -> Ratio {
    Ratio { num: i as i128, den: 1 }
}

/// Swapping the sides of a sum keeps the value.
pub proof fn lemma_fadd_comm(a: Frac, b: Frac) by (nonlinear_arith)
    requires
        a.wf(),
        b.wf(),
    ensures
        a.fadd(b).wf(),
        b.fadd(a).wf(),
        a.fadd(b).feq(b.fadd(a)),
{
}

/// Replacing the left side of a sum by an equal value keeps the value.
pub proof fn lemma_fadd_cong_l(a: Frac, a2: Frac, b: Frac)
    requires
        a.wf(),
        a2.wf(),
        b.wf(),
        a.feq(a2),
    ensures
        a.fadd(b).wf(),
        a2.fadd(b).wf(),
        a.fadd(b).feq(a2.fadd(b)),
{
    let p1 = a.n * b.d;
    let p2 = b.n * a.d;
    let q1 = a2.n * b.d;
    let q2 = b.n * a2.d;
    let dd1 = a2.d * b.d;
    let dd2 = a.d * b.d;
    let k = b.d * b.d;
    assert((p1 + p2) * dd1 == p1 * dd1 + p2 * dd1) by (nonlinear_arith);
    assert((q1 + q2) * dd2 == q1 * dd2 + q2 * dd2) by (nonlinear_arith);
    assert(p1 * dd1 == (a.n * a2.d) * k) by (nonlinear_arith)
        requires
            p1 == a.n * b.d,
            dd1 == a2.d * b.d,
            k == b.d * b.d,
    ;
    assert(q1 * dd2 == (a2.n * a.d) * k) by (nonlinear_arith)
        requires
            q1 == a2.n * b.d,
            dd2 == a.d * b.d,
            k == b.d * b.d,
    ;
    assert((a.n * a2.d) * k == (a2.n * a.d) * k);
    assert(p2 * dd1 == q2 * dd2) by (nonlinear_arith)
        requires
            p2 == b.n * a.d,
            dd1 == a2.d * b.d,
            q2 == b.n * a2.d,
            dd2 == a.d * b.d,
    ;
    assert(a.fadd(b).wf() && a2.fadd(b).wf()) by (nonlinear_arith)
        requires
            a.d > 0,
            a2.d > 0,
            b.d > 0,
    ;
}

/// Sums of equal values are equal.
pub proof fn lemma_fadd_cong(a: Frac, b: Frac, a2: Frac, b2: Frac)
    requires
        a.wf(),
        b.wf(),
        a2.wf(),
        b2.wf(),
        a.feq(a2),
        b.feq(b2),
    ensures
        a.fadd(b).wf(),
        a2.fadd(b2).wf(),
        a.fadd(b).feq(a2.fadd(b2)),
{
    lemma_fadd_cong_l(a, a2, b);
    lemma_fadd_comm(a2, b);
    lemma_fadd_cong_l(b, b2, a2);
    lemma_fadd_comm(b2, a2);
    lemma_feq_trans(a.fadd(b), a2.fadd(b), b.fadd(a2));
    lemma_feq_trans(a.fadd(b), b.fadd(a2), b2.fadd(a2));
    lemma_feq_trans(a.fadd(b), b2.fadd(a2), a2.fadd(b2));
}

/// Differences of equal values are equal.
pub proof fn lemma_fsub_cong(a: Frac, b: Frac, a2: Frac, b2: Frac)
    requires
        a.wf(),
        b.wf(),
        a2.wf(),
        b2.wf(),
        a.feq(a2),
        b.feq(b2),
    ensures
        a.fsub(b).wf(),
        a2.fsub(b2).wf(),
        a.fsub(b).feq(a2.fsub(b2)),
{
    assert(a.fsub(b).n == a.fadd(b.fneg()).n && a.fsub(b).d == a.fadd(b.fneg()).d)
        by (nonlinear_arith);
    assert(a.fsub(b) == a.fadd(b.fneg()));
    assert(a2.fsub(b2).n == a2.fadd(b2.fneg()).n && a2.fsub(b2).d == a2.fadd(b2.fneg()).d)
        by (nonlinear_arith);
    assert(a2.fsub(b2) == a2.fadd(b2.fneg()));
    assert(b.fneg().feq(b2.fneg())) by (nonlinear_arith)
        requires
            b.n * b2.d == b2.n * b.d,
    ;
    lemma_fadd_cong(a, b.fneg(), a2, b2.fneg());
}

/// Replacing the left side of a product by an equal value keeps the value.
pub proof fn lemma_fmul_cong_l(a: Frac, a2: Frac, b: Frac)
    requires
        a.wf(),
        a2.wf(),
        b.wf(),
        a.feq(a2),
    ensures
        a.fmul(b).wf(),
        a2.fmul(b).wf(),
        a.fmul(b).feq(a2.fmul(b)),
{
    let h = b.n * b.d;
    assert((a.n * a2.d) * h == (a2.n * a.d) * h);
    assert((a.n * b.n) * (a2.d * b.d) == (a.n * a2.d) * h) by (nonlinear_arith)
        requires
            h == b.n * b.d,
    ;
    assert((a2.n * b.n) * (a.d * b.d) == (a2.n * a.d) * h) by (nonlinear_arith)
        requires
            h == b.n * b.d,
    ;
    assert(a.fmul(b).wf() && a2.fmul(b).wf()) by (nonlinear_arith)
        requires
            a.d > 0,
            a2.d > 0,
            b.d > 0,
    ;
}

/// Swapping the sides of a product keeps the value.
pub proof fn lemma_fmul_comm(a: Frac, b: Frac) by (nonlinear_arith)
    requires
        a.wf(),
        b.wf(),
    ensures
        a.fmul(b).wf(),
        b.fmul(a).wf(),
        a.fmul(b).feq(b.fmul(a)),
{
}

/// Products of equal values are equal.
pub proof fn lemma_fmul_cong(a: Frac, b: Frac, a2: Frac, b2: Frac)
    requires
        a.wf(),
        b.wf(),
        a2.wf(),
        b2.wf(),
        a.feq(a2),
        b.feq(b2),
    ensures
        a.fmul(b).wf(),
        a2.fmul(b2).wf(),
        a.fmul(b).feq(a2.fmul(b2)),
{
    lemma_fmul_cong_l(a, a2, b);
    lemma_fmul_comm(a2, b);
    lemma_fmul_cong_l(b, b2, a2);
    lemma_fmul_comm(b2, a2);
    lemma_feq_trans(a.fmul(b), a2.fmul(b), b.fmul(a2));
    lemma_feq_trans(a.fmul(b), b.fmul(a2), b2.fmul(a2));
    lemma_feq_trans(a.fmul(b), b2.fmul(a2), a2.fmul(b2));
}

/// A difference is zero in value exactly when the sides are equal in value.
pub proof fn lemma_fsub_zero(a: Frac, b: Frac) by (nonlinear_arith)
    requires
        a.wf(),
        b.wf(),
    ensures
        a.fsub(b).n == 0 <==> a.feq(b),
{
}


/// Denominator of every grid square root: results carry nine decimal places.
pub const SQRT_GRID: i128 = 1_000_000_000;

/// The square root of a non-negative rational, rounded down to the grid of
/// `1 / SQRT_GRID`, or `None` where the scaling leaves the machine range.
pub open spec fn try_sqrt_grid(d: Ratio) -> Option<Ratio> {
    if d.num < 0 {
        None
    } else {
        let h1 = d.num * (SQRT_GRID as int);
        if !in_rng(h1) {
            None
        } else {
            let t1 = h1 / (d.den as int);
            let r1 = h1 % (d.den as int);
            let h2 = r1 * (SQRT_GRID as int);
            if !in_rng(h2) {
                None
            } else {
                let t2 = h2 / (d.den as int);
                let t1g = t1 * (SQRT_GRID as int);
                if !in_rng(t1g) || !in_rng(t1g + t2) {
                    None
                } else {
                    Some(Ratio { num: sqrt_nat((t1g + t2) as nat) as i128, den: SQRT_GRID })
                }
            }
        }
    }
}

impl Ratio {
    /// Grid square root: the greatest multiple of `1 / SQRT_GRID` whose
    /// square does not exceed `self`.
    pub fn sqrt_grid(&self) -> (r: Option<Ratio>)
        requires
            self.wf(),
        ensures
            r == try_sqrt_grid(*self),
            r is Some ==> ({
                let s = r.unwrap();
                &&& s.wf()
                &&& s.num >= 0
                &&& s.den == SQRT_GRID
                &&& s.num * s.num * self.den <= self.num * (SQRT_GRID as int) * (SQRT_GRID as int)
                &&& self.num * (SQRT_GRID as int) * (SQRT_GRID as int) < (s.num + 1) * (s.num + 1)
                    * self.den
            }),
    {
        if self.num < 0 {
            return None;
        }
        let nu: u128 = self.num as u128;
        let de: u128 = self.den as u128;
        let g: u128 = SQRT_GRID as u128;
        let cap: u128 = i128::MAX as u128;
        let h1: u128 = match nu.checked_mul(g) {
            Some(v) => v,
            None => {
                return None;
            },
        };
        if h1 > cap {
            return None;
        }
        let t1: u128 = h1 / de;
        let r1: u128 = h1 % de;
        let h2: u128 = match r1.checked_mul(g) {
            Some(v) => v,
            None => {
                return None;
            },
        };
        if h2 > cap {
            return None;
        }
        let t2: u128 = h2 / de;
        let t1g: u128 = match t1.checked_mul(g) {
            Some(v) => v,
            None => {
                return None;
            },
        };
        if t1g > cap {
            return None;
        }
        let w: u128 = match t1g.checked_add(t2) {
            Some(v) => v,
            None => {
                return None;
            },
        };
        if w > cap {
            return None;
        }
        let s: u128 = isqrt_u128(w);
        proof {
            lemma_sqrt_nat_bounds(w as nat);
            let nn = self.num as int;
            let dd = self.den as int;
            let gg = SQRT_GRID as int;
            let r2 = (h2 as int) % dd;
            lemma_fundamental_div_mod(h1 as int, dd);
            lemma_fundamental_div_mod(h2 as int, dd);
            assert(nn * gg * gg == dd * (w as int) + r2) by (nonlinear_arith)
                requires
                    h1 as int == nn * gg,
                    h1 as int == dd * (t1 as int) + (r1 as int),
                    h2 as int == (r1 as int) * gg,
                    h2 as int == dd * (t2 as int) + r2,
                    t1g as int == (t1 as int) * gg,
                    w as int == (t1g as int) + (t2 as int),
            ;
            assert(0 <= r2 < dd);
            assert((s as int) * (s as int) * dd <= nn * gg * gg) by (nonlinear_arith)
                requires
                    (s as int) * (s as int) <= w as int,
                    nn * gg * gg == dd * (w as int) + r2,
                    r2 >= 0,
                    dd > 0,
            ;
            assert(nn * gg * gg < ((s as int) + 1) * ((s as int) + 1) * dd) by (nonlinear_arith)
                requires
                    (w as int) < ((s as int) + 1) * ((s as int) + 1),
                    nn * gg * gg == dd * (w as int) + r2,
                    r2 < dd,
                    dd > 0,
            ;
            assert(s * s <= w) by {
                lemma_sqrt_nat_bounds(w as nat);
            }
            assert(s <= w) by (nonlinear_arith)
                requires
                    (s as int) * (s as int) <= w as int,
            ;
        }
        Some(Ratio { num: s as i128, den: SQRT_GRID })
    }
}


/// Regrouping a product of three fractions does not change it.
pub proof fn lemma_fmul_assoc_shuffle(x: Frac, p: Frac, q: Frac)
    ensures
        x.fmul(p.fmul(q)) == x.fmul(p).fmul(q),
{
    assert(x.n * (p.n * q.n) == (x.n * p.n) * q.n) by (nonlinear_arith);
    assert(x.d * (p.d * q.d) == (x.d * p.d) * q.d) by (nonlinear_arith);
}

/// Swapping the sides of a product does not change it.
pub proof fn lemma_fmul_comm_struct(a: Frac, b: Frac)
    ensures
        a.fmul(b) == b.fmul(a),
{
    assert(a.n * b.n == b.n * a.n) by (nonlinear_arith);
    assert(a.d * b.d == b.d * a.d) by (nonlinear_arith);
}


/// Multiplication distributes over subtraction of fractions, in value.
pub proof fn lemma_fmul_distrib_sub(p: Frac, q: Frac, r: Frac)
    requires
        p.wf(),
        q.wf(),
        r.wf(),
    ensures
        p.fsub(q).fmul(r).wf(),
        p.fmul(r).fsub(q.fmul(r)).wf(),
        p.fsub(q).fmul(r).feq(p.fmul(r).fsub(q.fmul(r))),
{
    let lhs = p.fsub(q).fmul(r);
    let rhs = p.fmul(r).fsub(q.fmul(r));
    assert(lhs.wf() && rhs.wf()) by (nonlinear_arith)
        requires
            p.d > 0,
            q.d > 0,
            r.d > 0,
            lhs == p.fsub(q).fmul(r),
            rhs == p.fmul(r).fsub(q.fmul(r)),
    ;
    let m2 = (p.d * r.d) * (q.d * r.d);
    let big = r.n * m2;
    assert(lhs.n * rhs.d == (p.n * q.d) * big - (q.n * p.d) * big) by (nonlinear_arith)
        requires
            lhs.n == (p.n * q.d - q.n * p.d) * r.n,
            rhs.d == m2,
            big == r.n * m2,
    ;
    // first monomial, regrouped in steps of four atoms at a time
    assert((p.n * q.d) * big == (p.n * r.n) * (q.d * m2)) by (nonlinear_arith)
        requires
            big == r.n * m2,
    ;
    assert(q.d * m2 == (q.d * r.d) * ((p.d * q.d) * r.d)) by (nonlinear_arith)
        requires
            m2 == (p.d * r.d) * (q.d * r.d),
    ;
    assert((p.n * r.n) * ((q.d * r.d) * ((p.d * q.d) * r.d)) == ((p.n * r.n) * (q.d * r.d)) * ((
    p.d * q.d) * r.d)) by (nonlinear_arith);
    // second monomial, the same way
    assert((q.n * p.d) * big == (q.n * r.n) * (p.d * m2)) by (nonlinear_arith)
        requires
            big == r.n * m2,
    ;
    assert(p.d * m2 == (p.d * r.d) * ((p.d * q.d) * r.d)) by (nonlinear_arith)
        requires
            m2 == (p.d * r.d) * (q.d * r.d),
    ;
    assert((q.n * r.n) * ((p.d * r.d) * ((p.d * q.d) * r.d)) == ((q.n * r.n) * (p.d * r.d)) * ((
    p.d * q.d) * r.d)) by (nonlinear_arith);
    assert(rhs.n * lhs.d == ((p.n * r.n) * (q.d * r.d)) * ((p.d * q.d) * r.d) - ((q.n * r.n) * (
    p.d * r.d)) * ((p.d * q.d) * r.d)) by (nonlinear_arith)
        requires
            rhs.n == (p.n * r.n) * (q.d * r.d) - (q.n * r.n) * (p.d * r.d),
            lhs.d == (p.d * q.d) * r.d,
    ;
}

/// A common non-zero factor cancels from a value equality.
pub proof fn lemma_fmul_cancel(x: Frac, y: Frac, k: Frac)
    requires
        x.wf(),
        y.wf(),
        k.wf(),
        k.n != 0,
        x.fmul(k).feq(y.fmul(k)),
    ensures
        x.feq(y),
{
    let c = k.n * k.d;
    assert(c != 0) by (nonlinear_arith)
        requires
            c == k.n * k.d,
            k.n != 0,
            k.d > 0,
    ;
    assert((x.n * y.d) * c == (y.n * x.d) * c) by (nonlinear_arith)
        requires
            (x.n * k.n) * (y.d * k.d) == (y.n * k.n) * (x.d * k.d),
            c == k.n * k.d,
    ;
    assert(x.n * y.d == y.n * x.d) by (nonlinear_arith)
        requires
            (x.n * y.d) * c == (y.n * x.d) * c,
            c != 0,
    ;
}

} // verus!
