//! Exact rational arithmetic: machine fractions with checked, reduced
//! operations, and their unbounded mathematical model.

use vstd::arithmetic::div_mod::{
    lemma_fundamental_div_mod, lemma_mod_multiples_basic, lemma_mod_self_0, lemma_small_mod,
};
use vstd::prelude::*;

verus! {

/// Mathematical value of a `Rat`: a fraction of two unbounded integers,
/// with a positive denominator when well formed.
pub ghost struct SRat {
    pub n: int,
    pub d: int,
}

/// A well-formed fraction has a positive denominator.
pub open spec fn s_wf(a: SRat) -> bool {
    a.d > 0
}

pub open spec fn s_zero() -> SRat {
    SRat { n: 0, d: 1 }
}

pub open spec fn s_int(n: int) -> SRat {
    SRat { n, d: 1 }
}

pub open spec fn s_add(a: SRat, b: SRat) -> SRat {
    SRat { n: a.n * b.d + b.n * a.d, d: a.d * b.d }
}

pub open spec fn s_sub(a: SRat, b: SRat) -> SRat {
    SRat { n: a.n * b.d - b.n * a.d, d: a.d * b.d }
}

pub open spec fn s_mul(a: SRat, b: SRat) -> SRat {
    SRat { n: a.n * b.n, d: a.d * b.d }
}

/// Reciprocal, with the sign moved into the numerator so that the
/// denominator stays positive; well formed only when `b.n != 0`.
pub open spec fn s_inv(b: SRat) -> SRat {
    if b.n >= 0 {
        SRat { n: b.d, d: b.n }
    } else {
        SRat { n: -b.d, d: -b.n }
    }
}

pub open spec fn s_div(a: SRat, b: SRat) -> SRat {
    s_mul(a, s_inv(b))
}

pub open spec fn s_sq(a: SRat) -> SRat {
    s_mul(a, a)
}

/// Equality of the represented rational numbers: cross multiplication.
pub open spec fn eqv(a: SRat, b: SRat) -> bool {
    a.n * b.d == b.n * a.d
}

pub proof fn lemma_eqv_refl(a: SRat)
    ensures
        eqv(a, a),
{
}

pub proof fn lemma_eqv_sym(a: SRat, b: SRat)
    requires
        eqv(a, b),
    ensures
        eqv(b, a),
{
}

pub proof fn lemma_eqv_trans(a: SRat, b: SRat, c: SRat) by (nonlinear_arith)
    requires
        s_wf(a),
        s_wf(b),
        s_wf(c),
        eqv(a, b),
        eqv(b, c),
    ensures
        eqv(a, c),
{
}

pub proof fn lemma_add_wf(a: SRat, b: SRat) by (nonlinear_arith)
    requires
        s_wf(a),
        s_wf(b),
    ensures
        s_wf(s_add(a, b)),
        s_wf(s_sub(a, b)),
        s_wf(s_mul(a, b)),
{
}

pub proof fn lemma_inv_wf(b: SRat) by (nonlinear_arith)
    requires
        s_wf(b),
        b.n != 0,
    ensures
        s_wf(s_inv(b)),
        s_inv(b).n != 0,
{
}

pub proof fn lemma_div_wf(a: SRat, b: SRat) by (nonlinear_arith)
    requires
        s_wf(a),
        s_wf(b),
        b.n != 0,
    ensures
        s_wf(s_div(a, b)),
{
}

proof fn lemma_comm(x: int, y: int) by (nonlinear_arith)
    ensures
        x * y == y * x,
{
}

proof fn lemma_distrib(x: int, y: int, z: int) by (nonlinear_arith)
    ensures
        (x + y) * z == x * z + y * z,
        (x - y) * z == x * z - y * z,
{
}

proof fn lemma_swap4(p: int, q: int, r: int, s: int) by (nonlinear_arith)
    ensures
        (p * q) * (r * s) == (p * r) * (q * s),
{
}

pub proof fn lemma_add_congr(a1: SRat, b1: SRat, a2: SRat, b2: SRat)
    requires
        s_wf(a1),
        s_wf(b1),
        s_wf(a2),
        s_wf(b2),
        eqv(a1, a2),
        eqv(b1, b2),
    ensures
        eqv(s_add(a1, b1), s_add(a2, b2)),
{
    lemma_distrib(a1.n * b1.d, b1.n * a1.d, a2.d * b2.d);
    lemma_swap4(a1.n, b1.d, a2.d, b2.d);
    lemma_swap4(b1.n, a1.d, b2.d, a2.d);
    lemma_comm(b2.d, a2.d);
    lemma_comm(a1.d, a2.d);
    lemma_distrib(a2.n * b2.d, b2.n * a2.d, a1.d * b1.d);
    lemma_swap4(a2.n, b2.d, a1.d, b1.d);
    lemma_swap4(b2.n, a2.d, b1.d, a1.d);
    lemma_comm(b1.d, a1.d);
    lemma_comm(b2.d, b1.d);
    lemma_comm(a2.d, a1.d);
}

pub proof fn lemma_sub_congr(a1: SRat, b1: SRat, a2: SRat, b2: SRat)
    requires
        s_wf(a1),
        s_wf(b1),
        s_wf(a2),
        s_wf(b2),
        eqv(a1, a2),
        eqv(b1, b2),
    ensures
        eqv(s_sub(a1, b1), s_sub(a2, b2)),
{
    lemma_distrib(a1.n * b1.d, b1.n * a1.d, a2.d * b2.d);
    lemma_swap4(a1.n, b1.d, a2.d, b2.d);
    lemma_swap4(b1.n, a1.d, b2.d, a2.d);
    lemma_comm(b2.d, a2.d);
    lemma_comm(a1.d, a2.d);
    lemma_distrib(a2.n * b2.d, b2.n * a2.d, a1.d * b1.d);
    lemma_swap4(a2.n, b2.d, a1.d, b1.d);
    lemma_swap4(b2.n, a2.d, b1.d, a1.d);
    lemma_comm(b1.d, a1.d);
    lemma_comm(b2.d, b1.d);
    lemma_comm(a2.d, a1.d);
}

pub proof fn lemma_mul_congr(a1: SRat, b1: SRat, a2: SRat, b2: SRat) by (nonlinear_arith)
    requires
        s_wf(a1),
        s_wf(b1),
        s_wf(a2),
        s_wf(b2),
        eqv(a1, a2),
        eqv(b1, b2),
    ensures
        eqv(s_mul(a1, b1), s_mul(a2, b2)),
{
}

/// Two equivalent well-formed fractions carry numerators of the same sign.
pub proof fn lemma_eqv_sign(a: SRat, b: SRat) by (nonlinear_arith)
    requires
        s_wf(a),
        s_wf(b),
        eqv(a, b),
    ensures
        a.n == 0 <==> b.n == 0,
        a.n < 0 <==> b.n < 0,
        a.n > 0 <==> b.n > 0,
{
}

pub proof fn lemma_inv_congr(b1: SRat, b2: SRat) by (nonlinear_arith)
    requires
        s_wf(b1),
        s_wf(b2),
        b1.n != 0,
        b2.n != 0,
        eqv(b1, b2),
    ensures
        eqv(s_inv(b1), s_inv(b2)),
{
}

pub proof fn lemma_div_congr(a1: SRat, b1: SRat, a2: SRat, b2: SRat)
    requires
        s_wf(a1),
        s_wf(b1),
        s_wf(a2),
        s_wf(b2),
        b1.n != 0,
        b2.n != 0,
        eqv(a1, a2),
        eqv(b1, b2),
    ensures
        eqv(s_div(a1, b1), s_div(a2, b2)),
{
    lemma_inv_congr(b1, b2);
    lemma_inv_wf(b1);
    lemma_inv_wf(b2);
    lemma_mul_congr(a1, s_inv(b1), a2, s_inv(b2));
}

/// A fraction equals zero exactly when its numerator is zero.
pub proof fn lemma_zero_eqv(a: SRat) by (nonlinear_arith)
    ensures
        eqv(a, s_zero()) <==> a.n == 0,
{
}

/// Dividing by a positive integer keeps the numerator.
pub proof fn lemma_div_by_pos_int_numerator(a: SRat, k: int)
    requires
        k > 0,
    ensures
        s_div(a, s_int(k)).n == a.n,
        s_div(a, s_int(k)).d == a.d * k,
{
    assert(s_inv(s_int(k)) == (SRat { n: 1, d: k }));
    assert(a.n * 1 == a.n) by (nonlinear_arith);
}

/// Subtracting twice is subtracting the sum.
pub proof fn lemma_sub_sub(t: SRat, p: SRat, o: SRat)
    ensures
        eqv(s_sub(s_sub(t, p), o), s_sub(t, s_add(p, o))),
{
    lemma_distrib(t.n * p.d, p.n * t.d, o.d);
    lemma_rot3(t.n, p.d, o.d);
    lemma_rot3(p.n, t.d, o.d);
    lemma_rot3(o.n, t.d, p.d);
    lemma_distrib(p.n * o.d, o.n * p.d, t.d);
    lemma_rot3(p.n, o.d, t.d);
    lemma_rot3(o.n, p.d, t.d);
    assert((t.d * p.d) * o.d == t.d * (p.d * o.d)) by (nonlinear_arith);
}

pub proof fn lemma_add_comm(a: SRat, b: SRat)
    ensures
        eqv(s_add(a, b), s_add(b, a)),
{
    assert(a.d * b.d == b.d * a.d) by (nonlinear_arith);
}

/// Adding zero changes nothing.
pub proof fn lemma_add_zero(a: SRat) by (nonlinear_arith)
    ensures
        eqv(s_add(a, s_zero()), a),
{
}

/// Integer fractions add like integers.
pub proof fn lemma_int_add(a: int, b: int) by (nonlinear_arith)
    ensures
        eqv(s_add(s_int(a), s_int(b)), s_int(a + b)),
{
}

/// Integer fractions are equivalent exactly when the integers are equal.
pub proof fn lemma_int_eqv(a: int, b: int) by (nonlinear_arith)
    ensures
        eqv(s_int(a), s_int(b)) <==> a == b,
{
}

/// The order of the two latest summands does not matter.
pub proof fn lemma_add_right_swap(x: SRat, a: SRat, b: SRat)
    requires
        s_wf(x),
        s_wf(a),
        s_wf(b),
    ensures
        eqv(s_add(s_add(x, a), b), s_add(s_add(x, b), a)),
{
    lemma_add_assoc(x, a, b);
    lemma_add_comm(a, b);
    lemma_eqv_refl(x);
    lemma_add_wf(a, b);
    lemma_add_wf(b, a);
    lemma_add_wf(x, a);
    lemma_add_wf(x, b);
    lemma_add_congr(x, s_add(a, b), x, s_add(b, a));
    lemma_add_assoc(x, b, a);
    lemma_add_wf(s_add(x, a), b);
    lemma_add_wf(x, s_add(a, b));
    lemma_add_wf(x, s_add(b, a));
    lemma_add_wf(s_add(x, b), a);
    lemma_eqv_trans(s_add(s_add(x, a), b), s_add(x, s_add(a, b)), s_add(x, s_add(b, a)));
    lemma_eqv_sym(s_add(s_add(x, b), a), s_add(x, s_add(b, a)));
    lemma_eqv_trans(s_add(s_add(x, a), b), s_add(x, s_add(b, a)), s_add(s_add(x, b), a));
}

pub proof fn lemma_add_assoc(a: SRat, b: SRat, c: SRat)
    ensures
        eqv(s_add(s_add(a, b), c), s_add(a, s_add(b, c))),
{
    lemma_distrib(a.n * b.d, b.n * a.d, c.d);
    lemma_distrib(b.n * c.d, c.n * b.d, a.d);
    lemma_rot3(a.n, b.d, c.d);
    lemma_rot3(b.n, a.d, c.d);
    lemma_rot3(b.n, c.d, a.d);
    lemma_rot3(c.n, a.d, b.d);
    lemma_rot3(c.n, b.d, a.d);
    assert((a.d * b.d) * c.d == a.d * (b.d * c.d)) by (nonlinear_arith);
}

proof fn lemma_rot3(x: int, y: int, z: int) by (nonlinear_arith)
    ensures
        (x * y) * z == x * (y * z),
        (x * y) * z == (x * z) * y,
        x * (y * z) == (x * z) * y,
        x * (y * z) == x * (z * y),
{
}

/// Adding a value back after subtracting it restores the original.
pub proof fn lemma_sub_add_cancel(t: SRat, u: SRat)
    ensures
        eqv(s_add(s_sub(t, u), u), t),
{
    let x = s_add(s_sub(t, u), u);
    assert(x.n == t.n * (u.d * u.d)) by (nonlinear_arith)
        requires
            x.n == (t.n * u.d - u.n * t.d) * u.d + u.n * (t.d * u.d),
    {
    }
    assert((t.n * (u.d * u.d)) * t.d == t.n * ((t.d * u.d) * u.d)) by (nonlinear_arith);
}

/// Greatest common divisor of two nonnegative integers, by Euclid's recursion.
pub open spec fn spec_gcd(a: int, b: int) -> int
    recommends
        a >= 0,
        b >= 0,
    decreases b,
        when b >= 0
{
    if b <= 0 {
        a
    } else {
        spec_gcd(b, a % b)
    }
}

/// The absolute value.
pub open spec fn s_abs(x: int) -> int {
    if x >= 0 {
        x
    } else {
        -x
    }
}

/// Whether the fraction, brought to reduced form, fits the machine range.
pub open spec fn fits_reduced(x: SRat) -> bool {
    let g = spec_gcd(s_abs(x.n), x.d);
    s_abs(x.n) / g <= i64::MAX && x.d / g <= i64::MAX
}

/// The form with numerator and denominator divided by their greatest
/// common divisor.
pub open spec fn canon(x: SRat) -> SRat {
    let g = spec_gcd(s_abs(x.n), x.d);
    if x.n >= 0 {
        SRat { n: x.n / g, d: x.d / g }
    } else {
        SRat { n: -((-x.n) / g), d: x.d / g }
    }
}

/// One checked step of exact arithmetic: the reduced form of `e` when it
/// fits the machine range, else nothing.  The executable operations below
/// return exactly this, so a whole computation's success and result are a
/// function of its inputs.
pub open spec fn c_step(e: SRat) -> Option<SRat> {
    if fits_reduced(e) {
        Some(canon(e))
    } else {
        None
    }
}

/// The views of a possible result.
pub open spec fn opt_view(r: Option<Rat>) -> Option<SRat> {
    match r {
        None => None,
        Some(x) => Some(x@),
    }
}

/// Checked addition of a value to a previous checked result.
pub open spec fn c_add(a: Option<SRat>, b: SRat) -> Option<SRat> {
    match a {
        None => None,
        Some(x) => c_step(s_add(x, b)),
    }
}

/// Checked addition of two checked results.
pub open spec fn c_add2(a: Option<SRat>, b: Option<SRat>) -> Option<SRat> {
    match (a, b) {
        (Some(x), Some(y)) => c_step(s_add(x, y)),
        _ => None,
    }
}

/// Checked subtraction of a value from a previous checked result.
pub open spec fn c_sub(a: Option<SRat>, b: SRat) -> Option<SRat> {
    match a {
        None => None,
        Some(x) => c_step(s_sub(x, b)),
    }
}

/// Checked subtraction of two checked results.
pub open spec fn c_sub2(a: Option<SRat>, b: Option<SRat>) -> Option<SRat> {
    match (a, b) {
        (Some(x), Some(y)) => c_step(s_sub(x, y)),
        _ => None,
    }
}

/// Checked square of a checked result.
pub open spec fn c_sq(a: Option<SRat>) -> Option<SRat> {
    match a {
        None => None,
        Some(x) => c_step(s_mul(x, x)),
    }
}

/// Checked product of an integer and a checked result.
pub open spec fn c_mul_int(k: int, a: Option<SRat>) -> Option<SRat> {
    match a {
        None => None,
        Some(x) => c_step(s_mul(s_int(k), x)),
    }
}

/// Checked quotient of a checked result by a nonzero integer.
pub open spec fn c_div_int(a: Option<SRat>, k: int) -> Option<SRat> {
    match a {
        None => None,
        Some(x) => c_step(s_div(x, s_int(k))),
    }
}

/// Checked quotient of two checked results.
pub open spec fn c_div2(a: Option<SRat>, b: Option<SRat>) -> Option<SRat> {
    match (a, b) {
        (Some(x), Some(y)) => c_step(s_div(x, y)),
        _ => None,
    }
}

/// The gcd of two nonnegative integers, not both zero, is positive and
/// divides both.
pub proof fn lemma_gcd_divides(a: int, b: int)
    requires
        a >= 0,
        b >= 0,
        a > 0 || b > 0,
    ensures
        spec_gcd(a, b) > 0,
        a % spec_gcd(a, b) == 0,
        b % spec_gcd(a, b) == 0,
    decreases b,
{
    if b == 0 {
        lemma_mod_self_0(a);
        lemma_small_mod(0nat, a as nat);
    } else {
        let r = a % b;
        let g = spec_gcd(b, r);
        lemma_gcd_divides(b, r);
        lemma_fundamental_div_mod(a, b);
        lemma_fundamental_div_mod(b, g);
        lemma_fundamental_div_mod(r, g);
        let k = (a / b) * (b / g) + r / g;
        assert(a == k * g) by (nonlinear_arith)
            requires
                g > 0,
                b % g == 0,
                r % g == 0,
                a == b * (a / b) + r,
                b == g * (b / g) + b % g,
                r == g * (r / g) + r % g,
                k == (a / b) * (b / g) + r / g,
        {
        }
        lemma_mod_multiples_basic(k, g);
    }
}

/// A measurement value held exactly: a fraction of two machine integers,
/// kept in reduced form with a positive denominator.
#[derive(Clone, Copy, Debug)]
pub struct Rat {
    num: i64,
    den: i64,
}

impl View for Rat {
    type V = SRat;

    closed spec fn view(&self) -> SRat {
        SRat { n: self.num as int, d: self.den as int }
    }
}

proof fn lemma_prod_bound(x: i64, y: i64) by (nonlinear_arith)
    requires
        y >= 1,
    ensures
        (x as int) * (y as int) <= 0x8000_0000_0000_0000 * 0x7fff_ffff_ffff_ffff,
        -(0x8000_0000_0000_0000 * 0x7fff_ffff_ffff_ffff) <= (x as int) * (y as int),
{
}

proof fn lemma_prod_bound_full(x: i64, y: i64) by (nonlinear_arith)
    ensures
        (x as int) * (y as int) <= 0x8000_0000_0000_0000 * 0x8000_0000_0000_0000,
        -(0x8000_0000_0000_0000 * 0x8000_0000_0000_0000) <= (x as int) * (y as int),
{
}

proof fn lemma_prod_pos(x: i64, y: i64) by (nonlinear_arith)
    requires
        x >= 1,
        y >= 1,
    ensures
        1 <= (x as int) * (y as int),
        (x as int) * (y as int) <= 0x7fff_ffff_ffff_ffff * 0x7fff_ffff_ffff_ffff,
{
}

fn gcd_u128(a: u128, b: u128) -> (r: u128)
    ensures
        r as int == spec_gcd(a as int, b as int),
    decreases b,
{
    let mut x: u128 = a;
    let mut y: u128 = b;
    while y != 0
        invariant
            spec_gcd(x as int, y as int) == spec_gcd(a as int, b as int),
        decreases y,
    {
        let t: u128 = x % y;
        x = y;
        y = t;
    }
    x
}

impl Rat {
    /// True when the representation is well formed: a positive denominator.
    pub open spec fn wf(self) -> bool {
        s_wf(self@)
    }

    pub fn new(num: i64, den: i64) -> (r: Rat)
        requires
            den > 0,
        ensures
            r.wf(),
            r@ == (SRat { n: num as int, d: den as int }),
    {
        Rat { num, den }
    }

    pub fn from_int(n: i64) -> (r: Rat)
        ensures
            r.wf(),
            r@ == s_int(n as int),
    {
        Rat { num: n, den: 1 }
    }

    pub fn zero() -> (r: Rat)
        ensures
            r.wf(),
            r@ == s_zero(),
    {
        Rat { num: 0, den: 1 }
    }

    pub fn num(&self) -> (r: i64)
        ensures
            r as int == self@.n,
    {
        self.num
    }

    pub fn den(&self) -> (r: i64)
        ensures
            r as int == self@.d,
    {
        self.den
    }

    pub fn is_zero(&self) -> (r: bool)
        ensures
            r == (self@.n == 0),
    {
        self.num == 0
    }

    pub fn is_negative(&self) -> (r: bool)
        ensures
            r == (self@.n < 0),
    {
        self.num < 0
    }

    /// Equality of the represented rational numbers.
    pub fn eq_rat(&self, other: &Rat) -> (r: bool)
        requires
            self.wf(),
            other.wf(),
        ensures
            r == eqv(self@, other@),
    {
        proof {
            lemma_prod_bound(self.num, other.den);
            lemma_prod_bound(other.num, self.den);
        }
        (self.num as i128) * (other.den as i128) == (other.num as i128) * (self.den as i128)
    }

    /// Brings `n / d` into reduced form, or `None` when the reduced
    /// numerator or denominator does not fit the machine range.
    fn reduce(n: i128, d: i128) -> (r: Option<Rat>)
        requires
            d > 0,
            n > i128::MIN,
        ensures
            r matches Some(x) ==> x.wf() && eqv(x@, SRat { n: n as int, d: d as int }),
            opt_view(r) == c_step(SRat { n: n as int, d: d as int }),
    {
        let m: i128 = if n < 0 {
            -n
        } else {
            n
        };
        let mu: u128 = m as u128;
        let du: u128 = d as u128;
        let g: u128 = gcd_u128(mu, du);
        proof {
            lemma_gcd_divides(mu as int, du as int);
        }
        let na: u128 = mu / g;
        let da: u128 = du / g;
        if na <= i64::MAX as u128 && da <= i64::MAX as u128 {
            let num: i64 = if n < 0 {
                -(na as i64)
            } else {
                na as i64
            };
            let den: i64 = da as i64;
            proof {
                let gi = g as int;
                let mi = mu as int;
                let di = du as int;
                lemma_fundamental_div_mod(mi, gi);
                lemma_fundamental_div_mod(di, gi);
                assert(da as int > 0 && (na as int) * di == mi * (da as int)) by (nonlinear_arith)
                    requires
                        gi > 0,
                        di > 0,
                        mi >= 0,
                        mi == gi * (na as int),
                        di == gi * (da as int),
                {
                }
                if n < 0 {
                    assert(num as int == -(na as int));
                    assert(mi == -(n as int));
                    assert((num as int) * di == (n as int) * (da as int)) by (nonlinear_arith)
                        requires
                            (na as int) * di == mi * (da as int),
                            num as int == -(na as int),
                            mi == -(n as int),
                    {
                    }
                } else {
                    assert(num as int == na as int);
                    assert(mi == n as int);
                }
            }
            Some(Rat { num, den })
        } else {
            None
        }
    }

    /// Exact sum; `None` when the reduced result leaves the machine range.
    pub fn add(&self, other: &Rat) -> (r: Option<Rat>)
        requires
            self.wf(),
            other.wf(),
        ensures
            r matches Some(x) ==> x.wf() && eqv(x@, s_add(self@, other@)),
            opt_view(r) == c_step(s_add(self@, other@)),
    {
        proof {
            lemma_prod_bound(self.num, other.den);
            lemma_prod_bound(other.num, self.den);
            lemma_prod_pos(self.den, other.den);
        }
        let n: i128 = (self.num as i128) * (other.den as i128) + (other.num as i128) * (self.den
            as i128);
        let d: i128 = (self.den as i128) * (other.den as i128);
        Self::reduce(n, d)
    }

    /// Exact difference; `None` when the reduced result leaves the machine range.
    pub fn sub(&self, other: &Rat) -> (r: Option<Rat>)
        requires
            self.wf(),
            other.wf(),
        ensures
            r matches Some(x) ==> x.wf() && eqv(x@, s_sub(self@, other@)),
            opt_view(r) == c_step(s_sub(self@, other@)),
    {
        proof {
            lemma_prod_bound(self.num, other.den);
            lemma_prod_bound(other.num, self.den);
            lemma_prod_pos(self.den, other.den);
        }
        let n: i128 = (self.num as i128) * (other.den as i128) - (other.num as i128) * (self.den
            as i128);
        let d: i128 = (self.den as i128) * (other.den as i128);
        Self::reduce(n, d)
    }

    /// Exact product; `None` when the reduced result leaves the machine range.
    pub fn mul(&self, other: &Rat) -> (r: Option<Rat>)
        requires
            self.wf(),
            other.wf(),
        ensures
            r matches Some(x) ==> x.wf() && eqv(x@, s_mul(self@, other@)),
            opt_view(r) == c_step(s_mul(self@, other@)),
    {
        proof {
            lemma_prod_bound_full(self.num, other.num);
            lemma_prod_pos(self.den, other.den);
        }
        let n: i128 = (self.num as i128) * (other.num as i128);
        let d: i128 = (self.den as i128) * (other.den as i128);
        Self::reduce(n, d)
    }

    /// Exact quotient by a nonzero value; `None` when the reduced result
    /// leaves the machine range.
    pub fn div(&self, other: &Rat) -> (r: Option<Rat>)
        requires
            self.wf(),
            other.wf(),
            other@.n != 0,
        ensures
            r matches Some(x) ==> x.wf() && eqv(x@, s_div(self@, other@)),
            opt_view(r) == c_step(s_div(self@, other@)),
    {
        proof {
            lemma_prod_bound(self.num, other.den);
            lemma_prod_bound_full(self.den, other.num);
            assert((self.den as int) * (other.num as int) != 0 && ((other.num as int) > 0
                ==> (self.den as int) * (other.num as int) > 0) && ((other.num as int) < 0
                ==> (self.den as int) * (other.num as int) < 0)) by (nonlinear_arith)
                requires
                    self.den as int > 0,
                    other.num as int != 0,
            {
            }
        }
        let n0: i128 = (self.num as i128) * (other.den as i128);
        let d0: i128 = (self.den as i128) * (other.num as i128);
        let (n, d): (i128, i128) = if d0 < 0 {
            (-n0, -d0)
        } else {
            (n0, d0)
        };
        proof {
            let a = self@;
            let b = other@;
            if b.n >= 0 {
                assert(s_div(a, b) == (SRat { n: n as int, d: d as int }));
            } else {
                assert(a.n * -b.d == -(a.n * b.d) && a.d * -b.n == -(a.d * b.n))
                    by (nonlinear_arith);
                assert(s_div(a, b) == (SRat { n: n as int, d: d as int }));
            }
        }
        Self::reduce(n, d)
    }
}

} // verus!
