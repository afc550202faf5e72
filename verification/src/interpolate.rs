//! Interpolation strategies: which order statistics a quantile needs and how
//! they combine.

use vstd::arithmetic::div_mod::*;
use vstd::arithmetic::mul::*;
use vstd::prelude::*;

verus! {

/// A quantile level as the exact fraction `num / den`.
#[derive(Clone, Copy, Debug, PartialEq, Eq, Structural)]
pub struct QuantileLevel {
    pub num: i64,
    pub den: i64,
}

impl QuantileLevel {
    /// The level lies in the closed interval from 0 to 1.
    pub open spec fn is_valid(self) -> bool {
        self.den > 0 && 0 <= self.num <= self.den
    }

    /// The level is below `other`.
    #[verifier::opaque]
    pub open spec fn below(self, other: QuantileLevel) -> bool {
        self.num * other.den < other.num * self.den
    }

    /// The level and `other` are the same number.
    #[verifier::opaque]
    pub open spec fn same(self, other: QuantileLevel) -> bool {
        self.num * other.den == other.num * self.den
    }

    /// The level `num / den`, whether or not it lies between 0 and 1.
    pub fn new(num: i64, den: i64) -> (q: QuantileLevel)
        ensures
            q.num == num,
            q.den == den,
    {
        QuantileLevel { num, den }
    }

    /// Whether the level lies between 0 and 1, bounds included.
    pub fn in_unit_interval(&self) -> (r: bool)
        ensures
            r == self.is_valid(),
    {
        self.den > 0 && 0 <= self.num && self.num <= self.den
    }

    /// Whether the level is below `other`.
    pub fn is_below(&self, other: &QuantileLevel) -> (r: bool)
        requires
            self.is_valid(),
            other.is_valid(),
        ensures
            r == self.below(*other),
    {
        proof {
            reveal(QuantileLevel::below);
            lemma_product_bound(self.num as int, other.den as int);
            lemma_product_bound(other.num as int, self.den as int);
        }
        (self.num as i128) * (other.den as i128) < (other.num as i128) * (self.den as i128)
    }
}

/// Of two levels one is below the other, or they are the same number.
pub proof fn lemma_level_trichotomy(a: QuantileLevel, b: QuantileLevel)
    ensures
        a.below(b) || b.below(a) || a.same(b),
        a.same(a),
        a.same(b) == b.same(a),
        !(a.below(b) && b.below(a)),
        !(a.below(b) && a.same(b)),
{
    reveal(QuantileLevel::below);
    reveal(QuantileLevel::same);
}

/// The order of levels carries over a level in between.
pub proof fn lemma_below_transitive(a: QuantileLevel, b: QuantileLevel, c: QuantileLevel)
    requires
        a.is_valid(),
        b.is_valid(),
        c.is_valid(),
        a.below(b) || a.same(b),
        b.below(c),
    ensures
        a.below(c),
{
    reveal(QuantileLevel::below);
    reveal(QuantileLevel::same);
    let (an, ad) = (a.num as int, a.den as int);
    let (bn, bd) = (b.num as int, b.den as int);
    let (cn, cd) = (c.num as int, c.den as int);
    assert(an * bd * cd <= bn * ad * cd) by (nonlinear_arith)
        requires
            an * bd <= bn * ad,
            cd > 0,
    ;
    assert(bn * cd * ad < cn * bd * ad) by (nonlinear_arith)
        requires
            bn * cd < cn * bd,
            ad > 0,
    ;
    assert(an * cd < cn * ad) by (nonlinear_arith)
        requires
            an * bd * cd <= bn * ad * cd,
            bn * cd * ad < cn * bd * ad,
            bd > 0,
    ;
}

/// The product of two non-negative 64-bit numbers fits in 128 bits.
pub proof fn lemma_product_bound(a: int, b: int)
    requires
        0 <= a <= 0x7fff_ffff_ffff_ffff,
        0 <= b <= 0xffff_ffff_ffff_ffff,
    ensures
        0 <= a * b <= 0x7fff_ffff_ffff_ffff * 0xffff_ffff_ffff_ffff,
        a * b < 0x7fff_ffff_ffff_ffff_ffff_ffff_ffff_ffff,
{
    assert(0 <= a * b <= 0x7fff_ffff_ffff_ffff * 0xffff_ffff_ffff_ffff) by (nonlinear_arith)
        requires
            0 <= a <= 0x7fff_ffff_ffff_ffff,
            0 <= b <= 0xffff_ffff_ffff_ffff,
    ;
}

/// The fractional index `q * (len - 1)`, times `q.den`.
pub open spec fn scaled_index(q: QuantileLevel, len: usize) -> int {
    q.num * (len - 1)
}

/// The floor of the fractional index.
pub open spec fn lower_index_of(q: QuantileLevel, len: usize) -> int {
    scaled_index(q, len) / (q.den as int)
}

/// The fractional part of the fractional index, times `q.den`.
pub open spec fn fraction_of(q: QuantileLevel, len: usize) -> int {
    scaled_index(q, len) % (q.den as int)
}

/// The ceiling of the fractional index.
pub open spec fn higher_index_of(q: QuantileLevel, len: usize) -> int {
    if fraction_of(q, len) == 0 {
        lower_index_of(q, len)
    } else {
        lower_index_of(q, len) + 1
    }
}

/// Both indexes of a valid level are positions of the lane.
pub proof fn lemma_index_bounds(q: QuantileLevel, len: usize)
    requires
        q.is_valid(),
        len > 0,
    ensures
        0 <= scaled_index(q, len) < 0x7fff_ffff_ffff_ffff_ffff_ffff_ffff_ffff,
        0 <= lower_index_of(q, len) <= higher_index_of(q, len) <= len - 1,
        0 <= fraction_of(q, len) < q.den,
{
    let n = (len - 1) as int;
    let d = q.den as int;
    let s = scaled_index(q, len);
    lemma_product_bound(q.num as int, n);
    assert(s <= d * n) by (nonlinear_arith)
        requires
            s == q.num * n,
            0 <= q.num <= d,
            0 <= n,
    ;
    lemma_fundamental_div_mod(s, d);
    lemma_mod_bound(s, d);
    lemma_div_pos_is_pos(s, d);
    let k = s / d;
    if k >= n && !(k == n && s % d == 0) {
        assert(d * k + s % d > d * n) by (nonlinear_arith)
            requires
                k >= n,
                d > 0,
                s % d >= 0,
                !(k == n && s % d == 0),
        ;
    }
}

/// At level 0 both indexes are the first position, with no fractional part.
pub proof fn lemma_index_at_zero(q: QuantileLevel, len: usize)
    requires
        q.num == 0,
        q.den > 0,
        len > 0,
    ensures
        lower_index_of(q, len) == 0,
        higher_index_of(q, len) == 0,
        fraction_of(q, len) == 0,
{
    assert(q.num * (len - 1) == 0) by (nonlinear_arith)
        requires
            q.num == 0,
    ;
    lemma_basic_div(0, q.den as int);
    lemma_small_mod(0, q.den as nat);
}

/// At level 1 both indexes are the last position, with no fractional part.
pub proof fn lemma_index_at_one(q: QuantileLevel, len: usize)
    requires
        q.num == q.den,
        q.den > 0,
        len > 0,
    ensures
        lower_index_of(q, len) == len - 1,
        higher_index_of(q, len) == len - 1,
        fraction_of(q, len) == 0,
{
    let d = q.den as int;
    let m = (len - 1) as int;
    lemma_div_multiples_vanish(m, d);
    lemma_mod_multiples_basic(m, d);
    lemma_mul_is_commutative(d, m);
}

/// Two fractions that are the same number have the same floor, and their
/// remainders are the same part of their denominators.
pub proof fn lemma_equal_fractions(x: int, b: int, y: int, d: int)
    requires
        b > 0,
        d > 0,
        x >= 0,
        y >= 0,
        x * d == y * b,
    ensures
        x / b == y / d,
        (x % b) * d == (y % d) * b,
{
    let k = x / b;
    let r = x % b;
    let k2 = y / d;
    let r2 = y % d;
    lemma_fundamental_div_mod(x, b);
    lemma_fundamental_div_mod(y, d);
    lemma_mod_bound(x, b);
    lemma_mod_bound(y, d);
    assert(b * d * k + r * d == b * d * k2 + r2 * b) by (nonlinear_arith)
        requires
            x == b * k + r,
            y == d * k2 + r2,
            x * d == y * b,
    ;
    assert(0 <= r * d < b * d && 0 <= r2 * b < b * d) by (nonlinear_arith)
        requires
            0 <= r < b,
            0 <= r2 < d,
    ;
    assert(k == k2) by (nonlinear_arith)
        requires
            b * d * k + r * d == b * d * k2 + r2 * b,
            0 <= r * d < b * d,
            0 <= r2 * b < b * d,
            b > 0,
            d > 0,
    ;
}

/// Two levels that are the same number have the same indexes, and fractional
/// parts that are the same number.
pub proof fn lemma_same_level_same_index(a: QuantileLevel, b: QuantileLevel, len: usize)
    requires
        a.is_valid(),
        b.is_valid(),
        a.same(b),
        len > 0,
    ensures
        lower_index_of(a, len) == lower_index_of(b, len),
        higher_index_of(a, len) == higher_index_of(b, len),
        fraction_of(a, len) * b.den == fraction_of(b, len) * a.den,
        (2 * fraction_of(a, len) < a.den) == (2 * fraction_of(b, len) < b.den),
{
    reveal(QuantileLevel::same);
    let m = (len - 1) as int;
    let x = scaled_index(a, len);
    let y = scaled_index(b, len);
    let (ad, bd) = (a.den as int, b.den as int);
    assert(x * bd == y * ad && x >= 0 && y >= 0) by (nonlinear_arith)
        requires
            x == a.num * m,
            y == b.num * m,
            a.num * bd == b.num * ad,
            m >= 0,
            a.num >= 0,
            b.num >= 0,
    ;
    lemma_equal_fractions(x, ad, y, bd);
    let fa = fraction_of(a, len);
    let fb = fraction_of(b, len);
    lemma_mod_bound(x, ad);
    lemma_mod_bound(y, bd);
    assert((fa == 0) == (fb == 0)) by (nonlinear_arith)
        requires
            fa * bd == fb * ad,
            ad > 0,
            bd > 0,
    ;
    assert((2 * fa < ad) == (2 * fb < bd)) by (nonlinear_arith)
        requires
            fa * bd == fb * ad,
            ad > 0,
            bd > 0,
            fa >= 0,
            fb >= 0,
    ;
}

/// The floor of the fractional index does not fall as the level rises.
pub proof fn lemma_lower_index_monotone(a: QuantileLevel, b: QuantileLevel, len: usize)
    requires
        a.is_valid(),
        b.is_valid(),
        a.below(b) || a.same(b),
        len > 0,
    ensures
        lower_index_of(a, len) <= lower_index_of(b, len),
{
    reveal(QuantileLevel::below);
    reveal(QuantileLevel::same);
    let m = (len - 1) as int;
    let x = scaled_index(a, len);
    let y = scaled_index(b, len);
    let (ad, bd) = (a.den as int, b.den as int);
    assert(x * bd <= y * ad && x >= 0 && y >= 0) by (nonlinear_arith)
        requires
            x == a.num * m,
            y == b.num * m,
            a.num * bd <= b.num * ad,
            m >= 0,
            a.num >= 0,
            b.num >= 0,
    ;
    let k = x / ad;
    lemma_fundamental_div_mod(x, ad);
    lemma_mod_bound(x, ad);
    assert(bd * k <= y) by (nonlinear_arith)
        requires
            x == ad * k + x % ad,
            x % ad >= 0,
            x * bd <= y * ad,
            ad > 0,
            bd > 0,
    ;
    lemma_div_is_ordered(bd * k, y, bd);
    lemma_div_multiples_vanish(k, bd);
}

/// Two levels that are the same number make the same quantile of the same two
/// order statistics, the lower of which is not the larger.
pub proof fn lemma_same_level_same_interpolated(
    strategy: Strategy,
    lower: i64,
    higher: i64,
    a: QuantileLevel,
    b: QuantileLevel,
    len: usize,
)
    requires
        a.is_valid(),
        b.is_valid(),
        a.same(b),
        len > 0,
        lower <= higher,
    ensures
        interpolated(strategy, Some(lower), Some(higher), a, len) == interpolated(
            strategy,
            Some(lower),
            Some(higher),
            b,
            len,
        ),
{
    lemma_same_level_same_index(a, b, len);
    let fa = fraction_of(a, len);
    let fb = fraction_of(b, len);
    let diff = higher - lower;
    let (ad, bd) = (a.den as int, b.den as int);
    lemma_mod_bound(scaled_index(a, len), ad);
    lemma_mod_bound(scaled_index(b, len), bd);
    assert((fa * diff) * bd == (fb * diff) * ad && fa * diff >= 0 && fb * diff >= 0)
        by (nonlinear_arith)
        requires
            fa * bd == fb * ad,
            diff >= 0,
            fa >= 0,
            fb >= 0,
    ;
    lemma_equal_fractions(fa * diff, ad, fb * diff, bd);
}

/// The floor and the fractional part of the fractional index.
pub fn split_index(q: QuantileLevel, len: usize) -> (r: (usize, i64))
    requires
        q.is_valid(),
        len > 0,
    ensures
        r.0 == lower_index_of(q, len),
        r.1 == fraction_of(q, len),
{
    proof {
        lemma_index_bounds(q, len);
    }
    let s: i128 = (q.num as i128) * ((len - 1) as i128);
    let d: i128 = q.den as i128;
    ((s / d) as usize, (s % d) as i64)
}

/// Division that rounds toward zero.
pub open spec fn toward_zero(a: int, b: int) -> int {
    if a >= 0 {
        a / b
    } else {
        -((-a) / b)
    }
}

/// The closed set of interpolation strategies.
#[derive(Clone, Copy, Debug, PartialEq, Eq, Structural)]
pub enum Strategy {
    Higher,
    Lower,
    Nearest,
    Midpoint,
    Linear,
}

/// Whether the strategy reads the order statistic at the lower index.
pub open spec fn needs_lower_of(strategy: Strategy, q: QuantileLevel, len: usize) -> bool {
    match strategy {
        Strategy::Higher => false,
        Strategy::Nearest => 2 * fraction_of(q, len) < q.den,
        _ => true,
    }
}

/// Whether the strategy reads the order statistic at the higher index.
pub open spec fn needs_higher_of(strategy: Strategy, q: QuantileLevel, len: usize) -> bool {
    match strategy {
        Strategy::Lower => false,
        Strategy::Nearest => !(2 * fraction_of(q, len) < q.den),
        _ => true,
    }
}

/// The quantile that the strategy makes of the two order statistics.
pub open spec fn interpolated(
    strategy: Strategy,
    lower: Option<i64>,
    higher: Option<i64>,
    q: QuantileLevel,
    len: usize,
) -> int {
    match strategy {
        Strategy::Higher => higher.unwrap() as int,
        Strategy::Lower => lower.unwrap() as int,
        Strategy::Nearest => if 2 * fraction_of(q, len) < q.den {
            lower.unwrap() as int
        } else {
            higher.unwrap() as int
        },
        Strategy::Midpoint => toward_zero(lower.unwrap() + higher.unwrap(), 2),
        Strategy::Linear => lower.unwrap() + toward_zero(
            fraction_of(q, len) * (higher.unwrap() - lower.unwrap()),
            q.den as int,
        ),
    }
}

/// What `interpolate` asks of its arguments: a valid level, a lane that is not
/// empty, and each order statistic that the strategy reads.
pub open spec fn interpolate_ready(
    strategy: Strategy,
    lower: Option<i64>,
    higher: Option<i64>,
    q: QuantileLevel,
    len: usize,
) -> bool {
    &&& q.is_valid()
    &&& len > 0
    &&& needs_lower_of(strategy, q, len) ==> lower.is_some()
    &&& needs_higher_of(strategy, q, len) ==> higher.is_some()
}

/// The part `frac / den` of a difference lies between 0 and the difference.
pub proof fn lemma_part_bounds(frac: int, den: int, diff: int)
    requires
        0 <= frac < den,
        0 <= diff,
    ensures
        0 <= frac * diff,
        0 <= (frac * diff) / den <= diff,
{
    assert(0 <= frac * diff <= den * diff) by (nonlinear_arith)
        requires
            0 <= frac < den,
            0 <= diff,
    ;
    lemma_div_pos_is_pos(frac * diff, den);
    lemma_div_is_ordered(frac * diff, den * diff, den);
    lemma_div_multiples_vanish(diff, den);
    assert(den * diff == diff * den) by (nonlinear_arith);
}

/// The midpoint of two values, rounded toward zero.
pub fn midpoint(a: i64, b: i64) -> (r: i64)
    ensures
        r == toward_zero(a + b, 2),
{
    let s: i128 = (a as i128) + (b as i128);
    if s >= 0 {
        (s / 2) as i64
    } else {
        (-((-s) / 2)) as i64
    }
}

/// The value at the part `frac / den` of the way from `a` to `b`, the step
/// rounded toward zero.
pub fn linear(a: i64, b: i64, frac: i64, den: i64) -> (r: i64)
    requires
        0 <= frac < den,
    ensures
        r == a + toward_zero(frac * (b - a), den as int),
{
    let diff: i128 = (b as i128) - (a as i128);
    if diff >= 0 {
        proof {
            lemma_part_bounds(frac as int, den as int, diff as int);
            lemma_product_bound(frac as int, diff as int);
        }
        let step: i128 = ((frac as i128) * diff) / (den as i128);
        ((a as i128) + step) as i64
    } else {
        proof {
            lemma_part_bounds(frac as int, den as int, -diff as int);
            lemma_product_bound(frac as int, -diff as int);
            assert(-(frac * (b - a)) == frac * (-diff)) by (nonlinear_arith)
                requires
                    diff == b - a,
            ;
            assert(frac * (b - a) <= 0) by (nonlinear_arith)
                requires
                    b - a < 0,
                    0 <= frac,
            ;
        }
        let step: i128 = ((frac as i128) * (-diff)) / (den as i128);
        ((a as i128) - step) as i64
    }
}

/// A value as the exact fraction `num / den`.
#[derive(Clone, Copy, Debug, PartialEq, Eq, Structural)]
pub struct Fraction {
    pub num: i128,
    pub den: i64,
}

/// The value at the part `frac / den` of the way from `a` to `b`, times `den`.
pub open spec fn weighted(a: int, b: int, frac: int, den: int) -> int {
    a * (den - frac) + b * frac
}

/// The value at the part `frac / den` of the way from `a` to `b`, without
/// rounding: as a fraction over `den`.
pub fn linear_exact(a: i64, b: i64, frac: i64, den: i64) -> (r: Fraction)
    requires
        0 <= frac < den,
    ensures
        r.num == weighted(a as int, b as int, frac as int, den as int),
        r.den == den,
{
    let rest: i64 = den - frac;
    proof {
        let bound: int = 0x8000_0000_0000_0000;
        assert(-bound * rest <= a * rest <= bound * rest) by (nonlinear_arith)
            requires
                -bound <= a <= bound,
                0 <= rest,
        ;
        assert(-bound * frac <= b * frac <= bound * frac) by (nonlinear_arith)
            requires
                -bound <= b <= bound,
                0 <= frac,
        ;
        assert(bound * rest + bound * frac == bound * den) by (nonlinear_arith)
            requires
                rest + frac == den,
        ;
        assert(bound * den <= bound * 0x7fff_ffff_ffff_ffff) by (nonlinear_arith)
            requires
                0 <= den <= 0x7fff_ffff_ffff_ffff,
                bound > 0,
        ;
        assert(bound * rest >= 0 && bound * frac >= 0) by (nonlinear_arith)
            requires
                bound > 0,
                rest >= 0,
                frac >= 0,
        ;
    }
    let low: i128 = (a as i128) * (rest as i128);
    let high: i128 = (b as i128) * (frac as i128);
    Fraction { num: low + high, den }
}

/// An interpolation strategy: says which of the two order statistics around
/// the fractional index a quantile needs, and combines them.
pub trait Interpolate {
    /// The strategy that the type stands for.
    spec fn strategy() -> Strategy;

    /// The numerator, over `q.den`, of the fractional part of the fractional index.
    fn float_quantile_index_fraction(q: QuantileLevel, len: usize) -> (r: i64)
        requires
            q.is_valid(),
            len > 0,
        ensures
            r == fraction_of(q, len),
    {
        split_index(q, len).1
    }

    /// The floor of the fractional index.
    fn lower_index(q: QuantileLevel, len: usize) -> (r: usize)
        requires
            q.is_valid(),
            len > 0,
        ensures
            r == lower_index_of(q, len),
            r < len,
    {
        proof {
            lemma_index_bounds(q, len);
        }
        split_index(q, len).0
    }

    /// The ceiling of the fractional index.
    fn higher_index(q: QuantileLevel, len: usize) -> (r: usize)
        requires
            q.is_valid(),
            len > 0,
        ensures
            r == higher_index_of(q, len),
            r < len,
    {
        proof {
            lemma_index_bounds(q, len);
        }
        let (floor, frac) = split_index(q, len);
        if frac == 0 {
            floor
        } else {
            floor + 1
        }
    }

    /// Whether the quantile reads the order statistic at the lower index.
    fn needs_lower(q: QuantileLevel, len: usize) -> (r: bool)
        requires
            q.is_valid(),
            len > 0,
        ensures
            r == needs_lower_of(Self::strategy(), q, len),
    ;

    /// Whether the quantile reads the order statistic at the higher index.
    fn needs_higher(q: QuantileLevel, len: usize) -> (r: bool)
        requires
            q.is_valid(),
            len > 0,
        ensures
            r == needs_higher_of(Self::strategy(), q, len),
    ;

    /// The quantile made of the order statistics at the lower and the higher
    /// index; the one that the strategy does not read may be absent.
    fn interpolate(lower: Option<i64>, higher: Option<i64>, q: QuantileLevel, len: usize) -> (r:
        i64)
        requires
            interpolate_ready(Self::strategy(), lower, higher, q, len),
        ensures
            r == interpolated(Self::strategy(), lower, higher, q, len),
    ;
}

/// Whether the fractional part of the fractional index is under one half.
pub fn under_half(q: QuantileLevel, len: usize) -> (r: bool)
    requires
        q.is_valid(),
        len > 0,
    ensures
        r == (2 * fraction_of(q, len) < q.den),
{
    proof {
        lemma_index_bounds(q, len);
    }
    let frac: i64 = split_index(q, len).1;
    frac < q.den - frac
}

/// Select the higher value.
pub struct Higher;

/// Select the lower value.
pub struct Lower;

/// Select the nearest value.
pub struct Nearest;

/// Select the midpoint of the two values (`(lower + higher) / 2`).
pub struct Midpoint;

/// Linearly interpolate between the two values
/// (`lower + (higher - lower) * fraction`, where `fraction` is the
/// fractional part of the index surrounded by `lower` and `higher`).
pub struct Linear;

impl Interpolate for Higher {
    open spec fn strategy() -> Strategy {
        Strategy::Higher
    }

    fn needs_lower(_q: QuantileLevel, _len: usize) -> (r: bool) {
        false
    }

    fn needs_higher(_q: QuantileLevel, _len: usize) -> (r: bool) {
        true
    }

    fn interpolate(_lower: Option<i64>, higher: Option<i64>, _q: QuantileLevel, _len: usize) -> (r:
        i64) {
        higher.unwrap()
    }
}

impl Interpolate for Lower {
    open spec fn strategy() -> Strategy {
        Strategy::Lower
    }

    fn needs_lower(_q: QuantileLevel, _len: usize) -> (r: bool) {
        true
    }

    fn needs_higher(_q: QuantileLevel, _len: usize) -> (r: bool) {
        false
    }

    fn interpolate(lower: Option<i64>, _higher: Option<i64>, _q: QuantileLevel, _len: usize) -> (r:
        i64) {
        lower.unwrap()
    }
}

impl Interpolate for Nearest {
    open spec fn strategy() -> Strategy {
        Strategy::Nearest
    }

    fn needs_lower(q: QuantileLevel, len: usize) -> (r: bool) {
        under_half(q, len)
    }

    fn needs_higher(q: QuantileLevel, len: usize) -> (r: bool) {
        !under_half(q, len)
    }

    fn interpolate(lower: Option<i64>, higher: Option<i64>, q: QuantileLevel, len: usize) -> (r:
        i64) {
        if under_half(q, len) {
            lower.unwrap()
        } else {
            higher.unwrap()
        }
    }
}

impl Interpolate for Midpoint {
    open spec fn strategy() -> Strategy {
        Strategy::Midpoint
    }

    fn needs_lower(_q: QuantileLevel, _len: usize) -> (r: bool) {
        true
    }

    fn needs_higher(_q: QuantileLevel, _len: usize) -> (r: bool) {
        true
    }

    fn interpolate(lower: Option<i64>, higher: Option<i64>, _q: QuantileLevel, _len: usize) -> (r:
        i64) {
        midpoint(lower.unwrap(), higher.unwrap())
    }
}

impl Interpolate for Linear {
    open spec fn strategy() -> Strategy {
        Strategy::Linear
    }

    fn needs_lower(_q: QuantileLevel, _len: usize) -> (r: bool) {
        true
    }

    fn needs_higher(_q: QuantileLevel, _len: usize) -> (r: bool) {
        true
    }

    fn interpolate(lower: Option<i64>, higher: Option<i64>, q: QuantileLevel, len: usize) -> (r:
        i64) {
        proof {
            lemma_index_bounds(q, len);
        }
        let frac: i64 = split_index(q, len).1;
        linear(lower.unwrap(), higher.unwrap(), frac, q.den)
    }
}

} // verus!
