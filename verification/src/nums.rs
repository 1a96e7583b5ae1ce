//! Exact rational coordinates and per-type rounding operations.
//!
//! The rasterizer aligns continuous coordinates to discrete scan rows and
//! columns, so every coordinate type must offer `round`/`ceil`/`floor`
//! operations.  Integer types treat all three as the identity; the `Rat`
//! type carries a fraction of two `i64`s and rounds exactly, with no
//! floating-point error.  `round` rounds halves away from zero.

use vstd::prelude::*;

verus! {

/// A rational number `num / den` with `den >= 1`.
///
/// This is the coordinate type the rasterizer computes with: it represents
/// fractional vertex positions exactly, so every rounding and comparison in
/// the scan-line sweep is decidable and provable.  Fractions are not
/// reduced; equality of two `Rat` values is field equality, while the spec
/// predicate `rat_eqv` compares them as mathematical values.
#[derive(Debug, Clone, Copy, PartialEq, Eq, Structural)]
pub struct Rat {
    pub num: i64,
    pub den: i64,
}

impl View for Rat {
    type V = (int, int);

    open spec fn view(&self) -> (int, int) {
        (self.num as int, self.den as int)
    }
}

/// Validity of a spec-level rational: the denominator is positive.
pub open spec fn rat_wf(u: (int, int)) -> bool {
    u.1 >= 1
}

/// `u <= v` as mathematical values; meaningful when both denominators are positive.
pub open spec fn rat_le(u: (int, int), v: (int, int)) -> bool {
    u.0 * v.1 <= v.0 * u.1
}

/// `u < v` as mathematical values; meaningful when both denominators are positive.
pub open spec fn rat_lt(u: (int, int), v: (int, int)) -> bool {
    u.0 * v.1 < v.0 * u.1
}

/// `u == v` as mathematical values (cross multiplication, sign-safe for any
/// nonzero denominators).
pub open spec fn rat_eqv(u: (int, int), v: (int, int)) -> bool {
    u.0 * v.1 == v.0 * u.1
}

pub open spec fn rat_add(u: (int, int), v: (int, int)) -> (int, int) {
    (u.0 * v.1 + v.0 * u.1, u.1 * v.1)
}

pub open spec fn rat_sub(u: (int, int), v: (int, int)) -> (int, int) {
    (u.0 * v.1 - v.0 * u.1, u.1 * v.1)
}

pub open spec fn rat_mul(u: (int, int), v: (int, int)) -> (int, int) {
    (u.0 * v.0, u.1 * v.1)
}

pub open spec fn rat_div(u: (int, int), v: (int, int)) -> (int, int) {
    (u.0 * v.1, u.1 * v.0)
}

pub open spec fn rat_of_int(k: int) -> (int, int) {
    (k, 1)
}

/// Largest integer `<= u`; meaningful when `rat_wf(u)`.  Spec division is
/// Euclidean, so `u.0 / u.1` is already the floor for a positive denominator.
pub open spec fn rat_floor(u: (int, int)) -> int {
    u.0 / u.1
}

/// Smallest integer `>= u`; meaningful when `rat_wf(u)`.
pub open spec fn rat_ceil(u: (int, int)) -> int {
    rat_floor(u) + if u.0 % u.1 == 0 { 0int } else { 1int }
}

/// Nearest integer to `u`, halves rounded away from zero; meaningful when `rat_wf(u)`.
pub open spec fn rat_round(u: (int, int)) -> int {
    if u.0 >= 0 {
        let f = u.0 / u.1;
        if 2 * (u.0 % u.1) >= u.1 {
            f + 1
        } else {
            f
        }
    } else {
        let m = -u.0;
        let fm = m / u.1;
        -(if 2 * (m % u.1) >= u.1 {
            fm + 1
        } else {
            fm
        })
    }
}

/// Clamps an integer into `usize` range: negative values saturate to zero.
/// (No coordinate representable here exceeds `usize::MAX`.)
pub open spec fn sat_usize(k: int) -> int {
    if k < 0 {
        0
    } else if k > usize::MAX {
        usize::MAX as int
    } else {
        k
    }
}

impl Rat {
    /// The value is valid and its numerator is not `i64::MIN`, so it can be
    /// negated without overflow.
    pub open spec fn wf(self) -> bool {
        self.den >= 1 && self.num > i64::MIN
    }

    pub fn new(num: i64, den: i64) -> (r: Rat)
        requires
            den >= 1,
            num > i64::MIN,
        ensures
            r.num == num,
            r.den == den,
            r.wf(),
    {
        Rat { num, den }
    }

    /// The rational `n / 1`.
    pub fn from_int(num: i64) -> (r: Rat)
        requires
            num > i64::MIN,
        ensures
            r.num == num,
            r.den == 1,
            r.wf(),
    {
        Rat { num, den: 1 }
    }
}

/// Floor of `n / d` in exec code, computed through unsigned division.
pub fn floor_div_i64(n: i64, d: i64) -> (q: i64)
    requires
        d >= 1,
        n > i64::MIN,
    ensures
        q == rat_floor((n as int, d as int)),
        n >= 0 ==> 0 <= q <= n,
        n < 0 ==> n <= q <= 0,
{
    let du: u64 = d as u64;
    if n >= 0 {
        let nu: u64 = n as u64;
        let qu: u64 = nu / du;
        proof {
            lemma_div_facts(nu as int, d as int);
        }
        qu as i64
    } else {
        let m: u64 = (-n) as u64;
        // ceil(m / d), then negate: floor rounds negative values downward.
        let qu: u64 = (m + (du - 1)) / du;
        proof {
            lemma_neg_floor(m as int, d as int);
        }
        -(qu as i64)
    }
}

/// Ceiling of `n / d` in exec code.
pub fn ceil_div_i64(n: i64, d: i64) -> (q: i64)
    requires
        d >= 1,
        n > i64::MIN,
    ensures
        q == rat_ceil((n as int, d as int)),
        n >= 0 ==> 0 <= q <= n,
        n < 0 ==> n <= q <= 0,
{
    let du: u64 = d as u64;
    if n > 0 {
        let nu: u64 = n as u64;
        let qu: u64 = (nu + (du - 1)) / du;
        proof {
            lemma_pos_ceil(nu as int, d as int);
        }
        qu as i64
    } else {
        let m: u64 = (-n) as u64;
        let qu: u64 = m / du;
        proof {
            lemma_neg_ceil(m as int, d as int);
            lemma_div_facts(m as int, d as int);
        }
        -(qu as i64)
    }
}

/// Nearest integer to `n / d` in exec code, halves rounded away from zero.
pub fn round_div_i64(n: i64, d: i64) -> (q: i64)
    requires
        d >= 1,
        n > i64::MIN,
    ensures
        q == rat_round((n as int, d as int)),
        n >= 0 ==> 0 <= q <= n,
        n < 0 ==> n <= q <= 0,
{
    let du: u64 = d as u64;
    if n >= 0 {
        let nu: u64 = n as u64;
        let f: u64 = nu / du;
        let rem: u64 = nu % du;
        proof {
            lemma_div_facts(nu as int, d as int);
            if rem as int >= 1 {
                assert(f + 1 <= nu) by (nonlinear_arith)
                    requires
                        nu == du * f + rem,
                        f >= 0,
                        du >= 1,
                        rem >= 1,
                ;
            }
        }
        if 2 * rem >= du {
            (f + 1) as i64
        } else {
            f as i64
        }
    } else {
        let m: u64 = (-n) as u64;
        let f: u64 = m / du;
        let rem: u64 = m % du;
        proof {
            lemma_div_facts(m as int, d as int);
            if rem as int >= 1 {
                assert(f + 1 <= m) by (nonlinear_arith)
                    requires
                        m == du * f + rem,
                        f >= 0,
                        du >= 1,
                        rem >= 1,
                ;
            }
        }
        if 2 * rem >= du {
            -((f + 1) as i64)
        } else {
            -(f as i64)
        }
    }
}

/// The rational's numerator and denominator are within `b` in magnitude
/// (with the denominator positive), so products of a few such values stay
/// representable in machine integers.
pub open spec fn rat_bounded(u: (int, int), b: int) -> bool {
    -b <= u.0 <= b && 1 <= u.1 <= b
}

/// `|a * b| <= ba * bb` whenever `|a| <= ba` and `|b| <= bb`.
pub proof fn lemma_mul_bound(a: int, b: int, ba: int, bb: int)
    requires
        -ba <= a <= ba,
        -bb <= b <= bb,
        0 <= ba,
        0 <= bb,
    ensures
        -(ba * bb) <= a * b <= ba * bb,
{
    assert(-(ba * bb) <= a * b <= ba * bb) by (nonlinear_arith)
        requires
            -ba <= a <= ba,
            -bb <= b <= bb,
            0 <= ba,
            0 <= bb,
    ;
}

/// Exec comparison `a <= b` of two rationals, by cross multiplication in `i128`.
pub fn rat_le_exec(a: &Rat, b: &Rat) -> (r: bool)
    ensures
        r == rat_le(a@, b@),
{
    proof {
        lemma_mul_bound(a.num as int, b.den as int, 0x8000_0000_0000_0000, 0x8000_0000_0000_0000);
        lemma_mul_bound(b.num as int, a.den as int, 0x8000_0000_0000_0000, 0x8000_0000_0000_0000);
    }
    (a.num as i128) * (b.den as i128) <= (b.num as i128) * (a.den as i128)
}

/// Exec comparison `a < b` of two rationals, by cross multiplication in `i128`.
pub fn rat_lt_exec(a: &Rat, b: &Rat) -> (r: bool)
    ensures
        r == rat_lt(a@, b@),
{
    proof {
        lemma_mul_bound(a.num as int, b.den as int, 0x8000_0000_0000_0000, 0x8000_0000_0000_0000);
        lemma_mul_bound(b.num as int, a.den as int, 0x8000_0000_0000_0000, 0x8000_0000_0000_0000);
    }
    (a.num as i128) * (b.den as i128) < (b.num as i128) * (a.den as i128)
}

/// Exec value equality `a == b` of two rationals, by cross multiplication in `i128`.
pub fn rat_eqv_exec(a: &Rat, b: &Rat) -> (r: bool)
    ensures
        r == rat_eqv(a@, b@),
{
    proof {
        lemma_mul_bound(a.num as int, b.den as int, 0x8000_0000_0000_0000, 0x8000_0000_0000_0000);
        lemma_mul_bound(b.num as int, a.den as int, 0x8000_0000_0000_0000, 0x8000_0000_0000_0000);
    }
    (a.num as i128) * (b.den as i128) == (b.num as i128) * (a.den as i128)
}

/// Per-type rounding to the same numeric type.
///
/// `rep` gives the value as a spec-level fraction and `rok` says when the
/// value is valid for rounding; integer types are always valid and round to
/// themselves.
pub trait Round: Sized {
    /// The mathematical value, as numerator and positive denominator.
    spec fn rep(&self) -> (int, int);

    /// When the rounding operations below may be called.
    spec fn rok(&self) -> bool;

    fn round_to_self(&self) -> (r: Self)
        requires
            self.rok(),
        ensures
            r.rok(),
            r.rep() == rat_of_int(rat_round(self.rep())),
    ;

    fn ceil_to_self(&self) -> (r: Self)
        requires
            self.rok(),
        ensures
            r.rok(),
            r.rep() == rat_of_int(rat_ceil(self.rep())),
    ;

    fn floor_to_self(&self) -> (r: Self)
        requires
            self.rok(),
        ensures
            r.rok(),
            r.rep() == rat_of_int(rat_floor(self.rep())),
    ;
}

/// Rounding straight to a pixel index.  Negative values saturate to zero,
/// as a raster row or column index cannot be negative.
pub trait RoundToUsize: Round {
    fn round_to_usize(&self) -> (r: usize)
        requires
            self.rok(),
        ensures
            r == sat_usize(rat_round(self.rep())),
    ;

    fn ceil_to_usize(&self) -> (r: usize)
        requires
            self.rok(),
        ensures
            r == sat_usize(rat_ceil(self.rep())),
    ;

    fn floor_to_usize(&self) -> (r: usize)
        requires
            self.rok(),
        ensures
            r == sat_usize(rat_floor(self.rep())),
    ;
}

impl Round for Rat {
    open spec fn rep(&self) -> (int, int) {
        self@
    }

    open spec fn rok(&self) -> bool {
        self.wf()
    }

    fn round_to_self(&self) -> (r: Rat) {
        Rat { num: round_div_i64(self.num, self.den), den: 1 }
    }

    fn ceil_to_self(&self) -> (r: Rat) {
        Rat { num: ceil_div_i64(self.num, self.den), den: 1 }
    }

    fn floor_to_self(&self) -> (r: Rat) {
        Rat { num: floor_div_i64(self.num, self.den), den: 1 }
    }
}

/// Saturating conversion of an already-integral value to `usize`.
fn i64_to_usize_sat(v: i64) -> (r: usize)
    ensures
        r == sat_usize(v as int),
{
    if v < 0 {
        0
    } else if (v as u64) > (usize::MAX as u64) {
        usize::MAX
    } else {
        v as usize
    }
}

impl RoundToUsize for Rat {
    fn round_to_usize(&self) -> (r: usize) {
        i64_to_usize_sat(round_div_i64(self.num, self.den))
    }

    fn ceil_to_usize(&self) -> (r: usize) {
        i64_to_usize_sat(ceil_div_i64(self.num, self.den))
    }

    fn floor_to_usize(&self) -> (r: usize) {
        i64_to_usize_sat(floor_div_i64(self.num, self.den))
    }
}

impl Round for i64 {
    open spec fn rep(&self) -> (int, int) {
        (*self as int, 1)
    }

    open spec fn rok(&self) -> bool {
        true
    }

    fn round_to_self(&self) -> (r: i64) {
        *self
    }

    fn ceil_to_self(&self) -> (r: i64) {
        *self
    }

    fn floor_to_self(&self) -> (r: i64) {
        *self
    }
}

impl RoundToUsize for i64 {
    fn round_to_usize(&self) -> (r: usize) {
        i64_to_usize_sat(*self)
    }

    fn ceil_to_usize(&self) -> (r: usize) {
        i64_to_usize_sat(*self)
    }

    fn floor_to_usize(&self) -> (r: usize) {
        i64_to_usize_sat(*self)
    }
}

impl Round for i32 {
    open spec fn rep(&self) -> (int, int) {
        (*self as int, 1)
    }

    open spec fn rok(&self) -> bool {
        true
    }

    fn round_to_self(&self) -> (r: i32) {
        *self
    }

    fn ceil_to_self(&self) -> (r: i32) {
        *self
    }

    fn floor_to_self(&self) -> (r: i32) {
        *self
    }
}

impl RoundToUsize for i32 {
    fn round_to_usize(&self) -> (r: usize) {
        i64_to_usize_sat(*self as i64)
    }

    fn ceil_to_usize(&self) -> (r: usize) {
        i64_to_usize_sat(*self as i64)
    }

    fn floor_to_usize(&self) -> (r: usize) {
        i64_to_usize_sat(*self as i64)
    }
}

impl Round for u64 {
    open spec fn rep(&self) -> (int, int) {
        (*self as int, 1)
    }

    open spec fn rok(&self) -> bool {
        true
    }

    fn round_to_self(&self) -> (r: u64) {
        *self
    }

    fn ceil_to_self(&self) -> (r: u64) {
        *self
    }

    fn floor_to_self(&self) -> (r: u64) {
        *self
    }
}

/// Saturating conversion of a `u64` to `usize`.
fn u64_to_usize_sat(v: u64) -> (r: usize)
    ensures
        r == sat_usize(v as int),
{
    if v > (usize::MAX as u64) {
        usize::MAX
    } else {
        v as usize
    }
}

impl RoundToUsize for u64 {
    fn round_to_usize(&self) -> (r: usize) {
        u64_to_usize_sat(*self)
    }

    fn ceil_to_usize(&self) -> (r: usize) {
        u64_to_usize_sat(*self)
    }

    fn floor_to_usize(&self) -> (r: usize) {
        u64_to_usize_sat(*self)
    }
}

impl Round for u32 {
    open spec fn rep(&self) -> (int, int) {
        (*self as int, 1)
    }

    open spec fn rok(&self) -> bool {
        true
    }

    fn round_to_self(&self) -> (r: u32) {
        *self
    }

    fn ceil_to_self(&self) -> (r: u32) {
        *self
    }

    fn floor_to_self(&self) -> (r: u32) {
        *self
    }
}

impl RoundToUsize for u32 {
    fn round_to_usize(&self) -> (r: usize) {
        u64_to_usize_sat(*self as u64)
    }

    fn ceil_to_usize(&self) -> (r: usize) {
        u64_to_usize_sat(*self as u64)
    }

    fn floor_to_usize(&self) -> (r: usize) {
        u64_to_usize_sat(*self as u64)
    }
}

/// Basic facts about Euclidean division by a positive divisor: the
/// quotient/remainder identity, remainder bounds, and that a nonnegative
/// numerator keeps the quotient between `0` and the numerator.
proof fn lemma_div_facts(m: int, d: int)
    requires
        m >= 0,
        d >= 1,
    ensures
        m == d * (m / d) + (m % d),
        0 <= m % d < d,
        0 <= m / d <= m,
{
    vstd::arithmetic::div_mod::lemma_fundamental_div_mod(m, d);
    vstd::arithmetic::div_mod::lemma_mod_bound(m, d);
    vstd::arithmetic::div_mod::lemma_div_pos_is_pos(m, d);
    assert(m / d <= m) by (nonlinear_arith)
        requires
            d >= 1,
            m == d * (m / d) + (m % d),
            m % d >= 0,
            m / d >= 0,
    ;
}

/// `ceil(m/d) == (m + d - 1) / d` for `m >= 0, d >= 1`.
proof fn lemma_pos_ceil(m: int, d: int)
    requires
        m >= 0,
        d >= 1,
    ensures
        (m + d - 1) / d == rat_ceil((m, d)),
        0 <= rat_ceil((m, d)) <= m,
{
    let q = m / d;
    let r = m % d;
    lemma_div_facts(m, d);
    if r == 0 {
        assert(m + d - 1 == q * d + (d - 1)) by (nonlinear_arith)
            requires
                m == d * q + r,
                r == 0,
        ;
        vstd::arithmetic::div_mod::lemma_fundamental_div_mod_converse(m + d - 1, d, q, d - 1);
    } else {
        assert(m + d - 1 == (q + 1) * d + (r - 1)) by (nonlinear_arith)
            requires
                m == d * q + r,
        ;
        vstd::arithmetic::div_mod::lemma_fundamental_div_mod_converse(m + d - 1, d, q + 1, r - 1);
        assert(q + 1 <= m) by (nonlinear_arith)
            requires
                m == d * q + r,
                q >= 0,
                d >= 1,
                r >= 1,
        ;
    }
}

/// `floor(-m/d) == -ceil(m/d)` for `m >= 0, d >= 1`.
proof fn lemma_neg_floor(m: int, d: int)
    requires
        m >= 0,
        d >= 1,
    ensures
        rat_floor((-m, d)) == -((m + d - 1) / d),
        0 <= (m + d - 1) / d <= m,
{
    lemma_pos_ceil(m, d);
    let q = m / d;
    let r = m % d;
    lemma_div_facts(m, d);
    if r == 0 {
        assert((-q) * d + 0 == -m) by (nonlinear_arith)
            requires
                m == d * q + r,
                r == 0,
        ;
        vstd::arithmetic::div_mod::lemma_fundamental_div_mod_converse(-m, d, -q, 0);
    } else {
        assert((-q - 1) * d + (d - r) == -m) by (nonlinear_arith)
            requires
                m == d * q + r,
        ;
        vstd::arithmetic::div_mod::lemma_fundamental_div_mod_converse(-m, d, -q - 1, d - r);
    }
}

/// `ceil(-m/d) == -floor(m/d)` for `m >= 0, d >= 1`.
proof fn lemma_neg_ceil(m: int, d: int)
    requires
        m >= 0,
        d >= 1,
    ensures
        rat_ceil((-m, d)) == -(m / d),
{
    let q = m / d;
    let r = m % d;
    lemma_div_facts(m, d);
    if r == 0 {
        assert((-q) * d + 0 == -m) by (nonlinear_arith)
            requires
                m == d * q + r,
                r == 0,
        ;
        vstd::arithmetic::div_mod::lemma_fundamental_div_mod_converse(-m, d, -q, 0);
    } else {
        assert((-q - 1) * d + (d - r) == -m) by (nonlinear_arith)
            requires
                m == d * q + r,
        ;
        vstd::arithmetic::div_mod::lemma_fundamental_div_mod_converse(-m, d, -q - 1, d - r);
    }
}

} // verus!
