//! The factors of the composite score: a recency preference keyed on the
//! time of creation, and a bonus for memories that are recalled often.

use vstd::prelude::*;
use crate::fixed::SCALE;
use crate::memory::{MemoryRecord, MemoryView};
use crate::strength::{elapsed_seconds, seconds_between};

verus! {

/// The age at which the recency preference has fallen to one half: 168 hours.
pub const RECENCY_HALF_LIFE_SECONDS: u64 = 604_800;

/// The least recency multiplier, 0.3.
pub const RECENCY_FLOOR: u64 = 300_000_000;

/// From this age on the recency multiplier is at its floor.
pub const RECENCY_HORIZON_SECONDS: u64 = 1_814_400;

/// The unit in which the recency exponent is computed: one millionth.
pub const MICRO: u64 = 1_000_000;

pub open spec fn fourth_power(u: int) -> int {
    u * u * u * u
}

pub open spec fn fifth_power(y: int) -> int {
    y * y * y * y * y
}

/// `y` is the fifth root of `n`, rounded down.
pub open spec fn is_fifth_root(n: int, y: int) -> bool {
    0 <= y && fifth_power(y) <= n < fifth_power(y + 1)
}

/// The fifth root of `n`, rounded down.
pub open spec fn fifth_root(n: int) -> int {
    choose|y: int| is_fifth_root(n, y)
}

/// The age of a memory as a multiple of the recency half-life, in millionths.
pub open spec fn age_ratio(age_secs: int) -> int {
    age_secs * MICRO / (RECENCY_HALF_LIFE_SECONDS as int)
}

/// `(age / half-life)^0.8` in millionths: the fifth root of the fourth power.
pub open spec fn recency_exponent(age_secs: int) -> int {
    fifth_root(fourth_power(age_ratio(age_secs)) * MICRO)
}

/// The recency multiplier of a memory created `age_secs` seconds ago:
/// `max(0.3, 1 / (1 + (age / 168 h)^0.8))`.
pub open spec fn recency_weight(age_secs: int) -> int {
    let raw = (SCALE as int) * MICRO / (MICRO + recency_exponent(age_secs));
    if raw < RECENCY_FLOOR {
        RECENCY_FLOOR as int
    } else {
        raw
    }
}

/// The recency multiplier of a memory at `now`.
pub open spec fn recency_boost_at(m: MemoryView, now: int) -> int {
    recency_weight(elapsed_seconds(now, m.created_at))
}

/// Fifth powers grow with their base.
pub proof fn lemma_fifth_power_ordered(a: int, b: int)
    requires
        0 <= a <= b,
    ensures
        0 <= fifth_power(a) <= fifth_power(b),
        a < b ==> fifth_power(a) < fifth_power(b),
{
    assert(0 <= a * a <= b * b) by (nonlinear_arith)
        requires
            0 <= a <= b,
    ;
    assert(0 <= a * a * a <= b * b * b) by (nonlinear_arith)
        requires
            0 <= a <= b,
            0 <= a * a <= b * b,
    ;
    assert(0 <= a * a * a * a <= b * b * b * b) by (nonlinear_arith)
        requires
            0 <= a <= b,
            0 <= a * a * a <= b * b * b,
    ;
    assert(0 <= a * a * a * a * a <= b * b * b * b * b) by (nonlinear_arith)
        requires
            0 <= a <= b,
            0 <= a * a * a * a <= b * b * b * b,
    ;
    if a < b {
        assert(b * b * b * b > 0) by (nonlinear_arith)
            requires
                b >= 1,
        ;
        assert(a * a * a * a * a < b * b * b * b * b) by (nonlinear_arith)
            requires
                0 <= a < b,
                0 <= a * a * a * a <= b * b * b * b,
                b * b * b * b > 0,
        ;
    }
}

/// Fourth powers grow with their base.
pub proof fn lemma_fourth_power_ordered(a: int, b: int)
    requires
        0 <= a <= b,
    ensures
        0 <= fourth_power(a) <= fourth_power(b),
{
    assert(0 <= a * a <= b * b) by (nonlinear_arith)
        requires
            0 <= a <= b,
    ;
    assert(0 <= a * a * a <= b * b * b) by (nonlinear_arith)
        requires
            0 <= a <= b,
            0 <= a * a <= b * b,
    ;
    assert(0 <= a * a * a * a <= b * b * b * b) by (nonlinear_arith)
        requires
            0 <= a <= b,
            0 <= a * a * a <= b * b * b,
    ;
}

/// A number has at most one rounded-down fifth root.
pub proof fn lemma_fifth_root_unique(n: int, y: int)
    requires
        is_fifth_root(n, y),
    ensures
        fifth_root(n) == y,
{
    let z = fifth_root(n);
    assert(is_fifth_root(n, z));
    if z < y {
        lemma_fifth_power_ordered(z + 1, y);
    }
    if y < z {
        lemma_fifth_power_ordered(y + 1, z);
    }
}

/// Every number that is not negative has a rounded-down fifth root below any
/// bound whose fifth power exceeds it.
pub proof fn lemma_fifth_root_exists(n: int, bound: int)
    requires
        0 <= n < fifth_power(bound),
        0 <= bound,
    ensures
        is_fifth_root(n, fifth_root(n)),
        fifth_root(n) < bound,
    decreases bound,
{
    assert(fifth_power(0) == 0) by (nonlinear_arith);
    if bound > 0 {
        if fifth_power(bound - 1) <= n {
            assert(is_fifth_root(n, bound - 1));
            lemma_fifth_root_unique(n, bound - 1);
        } else {
            lemma_fifth_root_exists(n, bound - 1);
        }
    }
}

/// The recency multiplier lies between its floor and one.
pub proof fn lemma_recency_weight_bounds(age_secs: int)
    requires
        0 <= age_secs,
    ensures
        RECENCY_FLOOR <= recency_weight(age_secs) <= SCALE,
{
    let u = age_ratio(age_secs);
    assert(0 <= u) by (nonlinear_arith)
        requires
            0 <= age_secs,
            u == age_secs * 1_000_000 / 604_800,
    ;
    lemma_fourth_power_ordered(0, u);
    let n = fourth_power(u) * MICRO;
    assert(0 <= n) by (nonlinear_arith)
        requires
            0 <= fourth_power(u),
            n == fourth_power(u) * 1_000_000,
    ;
    assert(n < fifth_power(n + 1)) by {
        lemma_fifth_power_ordered(1, n + 1);
        assert(fifth_power(1) == 1) by (nonlinear_arith);
        let m = n + 1;
        assert(m * m * m * m * m >= m) by (nonlinear_arith)
            requires
                m >= 1,
        ;
    }
    lemma_fifth_root_exists(n, n + 1);
    let y = recency_exponent(age_secs);
    let d = MICRO + y;
    assert((SCALE as int) * MICRO / d <= SCALE) by (nonlinear_arith)
        requires
            d >= 1_000_000,
            MICRO == 1_000_000,
            SCALE == 1_000_000_000,
    ;
}

/// Every number that is not negative has a fifth root, and a larger number
/// has no smaller root.
pub proof fn lemma_fifth_root_ordered(n1: int, n2: int)
    requires
        0 <= n1 <= n2,
    ensures
        is_fifth_root(n1, fifth_root(n1)),
        is_fifth_root(n2, fifth_root(n2)),
        fifth_root(n1) <= fifth_root(n2),
{
    assert(fifth_power(1) == 1) by (nonlinear_arith);
    assert(n1 < fifth_power(n1 + 1)) by {
        lemma_fifth_power_ordered(1, n1 + 1);
        let m = n1 + 1;
        assert(m * m * m * m * m >= m) by (nonlinear_arith)
            requires
                m >= 1,
        ;
    }
    assert(n2 < fifth_power(n2 + 1)) by {
        lemma_fifth_power_ordered(1, n2 + 1);
        let m = n2 + 1;
        assert(m * m * m * m * m >= m) by (nonlinear_arith)
            requires
                m >= 1,
        ;
    }
    lemma_fifth_root_exists(n1, n1 + 1);
    lemma_fifth_root_exists(n2, n2 + 1);
    let y1 = fifth_root(n1);
    let y2 = fifth_root(n2);
    if y1 > y2 {
        lemma_fifth_power_ordered(y2 + 1, y1);
    }
}

/// The recency multiplier never grows with age: of two memories, the one
/// created earlier has no larger multiplier.
pub proof fn lemma_recency_fades(age1: int, age2: int)
    requires
        0 <= age1 <= age2,
    ensures
        recency_weight(age1) >= recency_weight(age2),
{
    let u1 = age_ratio(age1);
    let u2 = age_ratio(age2);
    assert(0 <= u1 <= u2) by (nonlinear_arith)
        requires
            0 <= age1 <= age2,
            u1 == age1 * 1_000_000 / 604_800,
            u2 == age2 * 1_000_000 / 604_800,
    ;
    lemma_fourth_power_ordered(u1, u2);
    let n1 = fourth_power(u1) * MICRO;
    let n2 = fourth_power(u2) * MICRO;
    assert(0 <= n1 <= n2) by (nonlinear_arith)
        requires
            0 <= fourth_power(u1) <= fourth_power(u2),
            n1 == fourth_power(u1) * 1_000_000,
            n2 == fourth_power(u2) * 1_000_000,
    ;
    lemma_fifth_root_ordered(n1, n2);
    let d1 = MICRO + fifth_root(n1);
    let d2 = MICRO + fifth_root(n2);
    let top = (SCALE as int) * MICRO;
    vstd::arithmetic::div_mod::lemma_div_is_ordered_by_denominator(top, d1, d2);
}

/// From the horizon on, the recency multiplier is exactly its floor.
pub proof fn lemma_recency_weight_floor(age_secs: int)
    requires
        age_secs >= RECENCY_HORIZON_SECONDS,
    ensures
        recency_weight(age_secs) == RECENCY_FLOOR,
{
    let u = age_ratio(age_secs);
    assert(u >= 3_000_000) by (nonlinear_arith)
        requires
            age_secs >= 1_814_400,
            u == age_secs * 1_000_000 / 604_800,
    ;
    lemma_fourth_power_ordered(3_000_000, u);
    assert(fourth_power(3_000_000) == 81_000_000_000_000_000_000_000_000) by (nonlinear_arith);
    let n = fourth_power(u) * MICRO;
    assert(n >= 81_000_000_000_000_000_000_000_000_000_000) by (nonlinear_arith)
        requires
            fourth_power(u) >= 81_000_000_000_000_000_000_000_000,
            n == fourth_power(u) * 1_000_000,
    ;
    assert(n < fifth_power(n + 1)) by {
        lemma_fifth_power_ordered(1, n + 1);
        assert(fifth_power(1) == 1) by (nonlinear_arith);
        let m = n + 1;
        assert(m * m * m * m * m >= m) by (nonlinear_arith)
            requires
                m >= 1,
        ;
    }
    lemma_fifth_root_exists(n, n + 1);
    let y = fifth_root(n);
    assert(fifth_power(2_333_334) <= 81_000_000_000_000_000_000_000_000_000_000)
        by (nonlinear_arith);
    if y + 1 <= 2_333_334 {
        lemma_fifth_power_ordered(y + 1, 2_333_334);
    }
    let d = MICRO + y;
    assert((SCALE as int) * MICRO / d < RECENCY_FLOOR) by (nonlinear_arith)
        requires
            d >= 3_333_334,
            MICRO == 1_000_000,
            SCALE == 1_000_000_000,
            RECENCY_FLOOR == 300_000_000,
    ;
}

fn fifth_power_value(y: u64) -> (p: u128)
    requires
        y <= 0x40_0000,
    ensures
        p == fifth_power(y as int),
{
    proof {
        lemma_fifth_power_ordered(y as int, 0x40_0000);
        assert(fifth_power(0x40_0000) == 0x4000_0000_0000_0000_0000_0000_0000) by (nonlinear_arith);
        assert(0 <= y * y <= 0x40_0000 * 0x40_0000) by (nonlinear_arith)
            requires
                0 <= y <= 0x40_0000,
        ;
        assert(0 <= y * y * y <= y * y * y * y <= y * y * y * y * y || y == 0) by (nonlinear_arith)
            requires
                0 <= y,
        ;
    }
    let y: u128 = y as u128;
    y * y * y * y * y
}

/// Computes the fifth root of `n`, rounded down.
pub fn fifth_root_value(n: u128) -> (y: u64)
    requires
        n < 0x4000_0000_0000_0000_0000_0000_0000,
    ensures
        y == fifth_root(n as int),
        is_fifth_root(n as int, y as int),
{
    let mut lo: u64 = 0;
    let mut hi: u64 = 0x40_0000;
    proof {
        assert(fifth_power(0) == 0) by (nonlinear_arith);
        assert(fifth_power(0x40_0000) == 0x4000_0000_0000_0000_0000_0000_0000) by (nonlinear_arith);
    }
    while hi - lo > 1
        invariant
            lo < hi <= 0x40_0000,
            fifth_power(lo as int) <= n < fifth_power(hi as int),
        decreases hi - lo,
    {
        let mid = lo + (hi - lo) / 2;
        if fifth_power_value(mid) <= n {
            lo = mid;
        } else {
            hi = mid;
        }
    }
    proof {
        lemma_fifth_root_unique(n as int, lo as int);
    }
    lo
}

/// The recency multiplier for an age in seconds.
pub fn recency_weight_value(age_secs: u64) -> (w: u64)
    ensures
        w == recency_weight(age_secs as int),
        RECENCY_FLOOR <= w <= SCALE,
{
    proof {
        lemma_recency_weight_bounds(age_secs as int);
    }
    if age_secs >= RECENCY_HORIZON_SECONDS {
        proof {
            lemma_recency_weight_floor(age_secs as int);
        }
        return RECENCY_FLOOR;
    }
    let u: u128 = (age_secs as u128) * (MICRO as u128) / (RECENCY_HALF_LIFE_SECONDS as u128);
    proof {
        assert(u < 3_000_000) by (nonlinear_arith)
            requires
                age_secs < 1_814_400,
                u == age_secs * 1_000_000 / 604_800,
        ;
        lemma_fourth_power_ordered(u as int, 3_000_000);
        assert(fourth_power(3_000_000) == 81_000_000_000_000_000_000_000_000) by (nonlinear_arith);
        assert(u * u <= 3_000_000 * 3_000_000) by (nonlinear_arith)
            requires
                0 <= u < 3_000_000,
        ;
        assert(u * u * u <= 3_000_000 * 3_000_000 * 3_000_000) by (nonlinear_arith)
            requires
                0 <= u < 3_000_000,
                u * u <= 3_000_000 * 3_000_000,
        ;
        assert(fourth_power(u as int) * MICRO <= 81_000_000_000_000_000_000_000_000_000_000)
            by (nonlinear_arith)
            requires
                fourth_power(u as int) <= 81_000_000_000_000_000_000_000_000,
                MICRO == 1_000_000,
        ;
    }
    let n: u128 = u * u * u * u * (MICRO as u128);
    let y = fifth_root_value(n);
    let raw: u64 = ((SCALE as u128) * (MICRO as u128) / ((MICRO as u128) + (y as u128))) as u64;
    if raw < RECENCY_FLOOR {
        RECENCY_FLOOR
    } else {
        raw
    }
}

/// Recency boost: a gentle preference for newer memories, keyed on the time
/// of creation and independent of decay.
pub fn recency_boost(mem: &MemoryRecord, now: i64) -> (w: u64)
    ensures
        w == recency_boost_at(mem@, now as int),
        RECENCY_FLOOR <= w <= SCALE,
{
    recency_weight_value(seconds_between(now, mem.created_at))
}

/// One, in the unit in which binary logarithms are computed: `2^30`.
pub const LOG_UNIT: u64 = 0x4000_0000;

/// `2^63`: mantissas are scaled to lie in `[TOP, 2 * TOP)`.
pub const TOP: u64 = 0x8000_0000_0000_0000;

/// The distance from `n` up to `2^63`; zero from there on.
pub open spec fn headroom(n: int) -> int {
    if n < TOP {
        TOP - n
    } else {
        0
    }
}

/// How often `n` must be doubled to reach `[2^63, 2^64)`.
pub open spec fn leading_shift(n: int) -> int
    decreases headroom(n),
{
    if n <= 0 || n >= TOP {
        0
    } else {
        1 + leading_shift(2 * n)
    }
}

/// `n` doubled until it lies in `[2^63, 2^64)`.
pub open spec fn mantissa(n: int) -> int
    decreases headroom(n),
{
    if n <= 0 || n >= TOP {
        n
    } else {
        mantissa(2 * n)
    }
}

/// The fractional bits of the binary logarithm of `z / 2^63`, for a mantissa
/// `z` in `[2^63, 2^64)`: squaring the mantissa doubles its logarithm, and
/// each overflow past two yields one bit, of weight `weight`, then half that,
/// and so on.
pub open spec fn log2_fraction(z: int, weight: int) -> int
    decreases weight,
{
    if weight <= 0 {
        0
    } else {
        let square = z * z / (TOP as int);
        if square >= 2 * TOP {
            weight + log2_fraction(square / 2, weight / 2)
        } else {
            log2_fraction(square, weight / 2)
        }
    }
}

/// The binary logarithm of `n >= 1` in units of `1 / LOG_UNIT`, to thirty
/// fractional bits.
pub open spec fn log2_fixed(n: int) -> int {
    (63 - leading_shift(n)) * LOG_UNIT + log2_fraction(mantissa(n), LOG_UNIT as int / 2)
}

/// The access bonus of a memory recalled `count` times in a corpus whose most
/// recalled memory was recalled `max_access` times:
/// `1 + log2(count + 1) / log2(max_access + 1)`, or one if nothing was ever recalled.
pub open spec fn access_weight_of(count: int, max_access: int) -> int {
    if max_access <= 0 {
        SCALE as int
    } else {
        let c = if count < 0 {
            0
        } else {
            count
        };
        SCALE + SCALE * log2_fixed(c + 1) / log2_fixed(max_access + 1)
    }
}

/// A number of at least `2^j` needs at most `63 - j` doublings.
pub proof fn lemma_leading_shift_bound(n: int, j: nat)
    requires
        j <= 63,
        n >= vstd::arithmetic::power2::pow2(j),
    ensures
        0 <= leading_shift(n) <= 63 - j,
    decreases headroom(n),
{
    vstd::arithmetic::power2::lemma2_to64();
    vstd::arithmetic::power2::lemma2_to64_rest();
    vstd::arithmetic::power2::lemma_pow2_pos(j);
    if n < TOP {
        assert(j < 63);
        vstd::arithmetic::power2::lemma_pow2_unfold(j + 1);
        lemma_leading_shift_bound(2 * n, j + 1);
    }
}

/// The mantissa of a positive number lies in `[2^63, 2^64)`.
pub proof fn lemma_mantissa_bounds(n: int)
    requires
        1 <= n < 2 * TOP,
    ensures
        TOP <= mantissa(n) < 2 * TOP,
        0 <= leading_shift(n) <= 63,
    decreases headroom(n),
{
    vstd::arithmetic::power2::lemma2_to64();
    lemma_leading_shift_bound(n, 0);
    if n < TOP {
        lemma_mantissa_bounds(2 * n);
    }
}

/// A larger number needs no more doublings, and with equally many its
/// mantissa is no smaller.
pub proof fn lemma_mantissa_ordered(n1: int, n2: int)
    requires
        1 <= n1 <= n2 < 2 * TOP,
    ensures
        leading_shift(n1) >= leading_shift(n2),
        leading_shift(n1) == leading_shift(n2) ==> mantissa(n1) <= mantissa(n2),
    decreases headroom(n1),
{
    lemma_mantissa_bounds(n1);
    lemma_mantissa_bounds(n2);
    if n2 < TOP {
        lemma_mantissa_ordered(2 * n1, 2 * n2);
    } else if n1 < TOP {
        lemma_mantissa_bounds(2 * n1);
    }
}

/// The square of a mantissa, rescaled, lies in `[2^63, 2^65)`.
pub proof fn lemma_square_bounds(z1: int, z2: int)
    requires
        TOP <= z1 <= z2 < 2 * TOP,
    ensures
        TOP <= z1 * z1 / (TOP as int) <= z2 * z2 / (TOP as int) < 4 * TOP,
{
    let t = TOP as int;
    assert(t * t <= z1 * z1 <= z2 * z2 < 4 * t * t) by (nonlinear_arith)
        requires
            t <= z1 <= z2 < 2 * t,
            t > 0,
    ;
    assert(t * t / t == t && (4 * t * t - 1) / t < 4 * t) by (nonlinear_arith)
        requires
            t > 1,
    ;
    vstd::arithmetic::div_mod::lemma_div_is_ordered(t * t, z1 * z1, t);
    vstd::arithmetic::div_mod::lemma_div_is_ordered(z1 * z1, z2 * z2, t);
    vstd::arithmetic::div_mod::lemma_div_is_ordered(z2 * z2, 4 * t * t - 1, t);
}

/// The fractional bits amount to less than twice the weight of the first.
pub proof fn lemma_log2_fraction_bounds(z: int, weight: int)
    requires
        TOP <= z < 2 * TOP,
    ensures
        0 <= log2_fraction(z, weight),
        weight >= 1 ==> log2_fraction(z, weight) <= 2 * weight - 1,
        weight <= 0 ==> log2_fraction(z, weight) == 0,
    decreases weight,
{
    if weight > 0 {
        lemma_square_bounds(z, z);
        let square = z * z / (TOP as int);
        if square >= 2 * TOP {
            lemma_log2_fraction_bounds(square / 2, weight / 2);
        } else {
            lemma_log2_fraction_bounds(square, weight / 2);
        }
    }
}

/// A larger mantissa has no smaller fractional bits.
pub proof fn lemma_log2_fraction_ordered(z1: int, z2: int, weight: int)
    requires
        TOP <= z1 <= z2 < 2 * TOP,
    ensures
        log2_fraction(z1, weight) <= log2_fraction(z2, weight),
    decreases weight,
{
    if weight > 0 {
        lemma_square_bounds(z1, z2);
        let s1 = z1 * z1 / (TOP as int);
        let s2 = z2 * z2 / (TOP as int);
        if s1 >= 2 * TOP {
            lemma_log2_fraction_ordered(s1 / 2, s2 / 2, weight / 2);
        } else if s2 >= 2 * TOP {
            lemma_log2_fraction_bounds(s1, weight / 2);
            lemma_log2_fraction_bounds(s2 / 2, weight / 2);
        } else {
            lemma_log2_fraction_ordered(s1, s2, weight / 2);
        }
    }
}

/// The logarithm never decreases as its argument grows, and stays below 64.
pub proof fn lemma_log2_fixed_ordered(n1: int, n2: int)
    requires
        1 <= n1 <= n2 < 2 * TOP,
    ensures
        0 <= log2_fixed(n1) <= log2_fixed(n2) < 64 * LOG_UNIT,
        n2 >= 2 ==> log2_fixed(n2) >= LOG_UNIT,
{
    lemma_mantissa_bounds(n1);
    lemma_mantissa_bounds(n2);
    lemma_mantissa_ordered(n1, n2);
    let w = LOG_UNIT as int / 2;
    lemma_log2_fraction_bounds(mantissa(n1), w);
    lemma_log2_fraction_bounds(mantissa(n2), w);
    if leading_shift(n1) == leading_shift(n2) {
        lemma_log2_fraction_ordered(mantissa(n1), mantissa(n2), w);
    }
    if n2 >= 2 {
        vstd::arithmetic::power2::lemma2_to64();
        lemma_leading_shift_bound(n2, 1);
    }
}

/// A power of two needs exactly the doublings that bring it to `2^63`.
pub proof fn lemma_power_of_two_shift(j: nat)
    requires
        j <= 63,
    ensures
        leading_shift(vstd::arithmetic::power2::pow2(j) as int) == 63 - j,
        mantissa(vstd::arithmetic::power2::pow2(j) as int) == TOP,
    decreases 63 - j,
{
    vstd::arithmetic::power2::lemma2_to64_rest();
    if j < 63 {
        vstd::arithmetic::power2::lemma_pow2_unfold(j + 1);
        vstd::arithmetic::power2::lemma_pow2_strictly_increases(j, 63);
        vstd::arithmetic::power2::lemma_pow2_pos(j);
        lemma_power_of_two_shift(j + 1);
    }
}

/// The mantissa of a power of two has no fractional bits.
pub proof fn lemma_log2_fraction_of_top(weight: int)
    ensures
        log2_fraction(TOP as int, weight) == 0,
    decreases weight,
{
    if weight > 0 {
        let t = TOP as int;
        assert(t * t / t == t) by (nonlinear_arith)
            requires
                t > 0,
        ;
        lemma_log2_fraction_of_top(weight / 2);
    }
}

/// The logarithm of one is zero.
pub proof fn lemma_log2_fixed_of_one()
    ensures
        log2_fixed(1) == 0,
{
    vstd::arithmetic::power2::lemma2_to64();
    lemma_power_of_two_shift(0);
    lemma_log2_fraction_of_top(LOG_UNIT as int / 2);
}

/// The access bonus lies in [1, 2] for every memory of the corpus: it is one
/// for a memory never recalled and two for the most recalled one.
pub proof fn lemma_access_weight_bounds(count: int, max_access: int)
    requires
        count <= max_access < TOP,
    ensures
        SCALE <= access_weight_of(count, max_access) <= 2 * SCALE,
        count <= 0 ==> access_weight_of(count, max_access) == SCALE,
        max_access > 0 && count == max_access ==> access_weight_of(count, max_access) == 2
            * SCALE,
{
    if max_access > 0 {
        let c = if count < 0 {
            0
        } else {
            count
        };
        lemma_log2_fixed_ordered(c + 1, max_access + 1);
        lemma_log2_fixed_of_one();
        let a = log2_fixed(c + 1);
        let b = log2_fixed(max_access + 1);
        let s = SCALE as int;
        assert(0 <= s * a / b <= s) by (nonlinear_arith)
            requires
                0 <= a <= b,
                b > 0,
                s > 0,
        ;
        if count <= 0 {
            assert(s * 0 / b == 0) by (nonlinear_arith)
                requires
                    b > 0,
            ;
        }
        if count == max_access {
            assert(s * b / b == s) by (nonlinear_arith)
                requires
                    b > 0,
            ;
        }
    }
}

/// Computes the binary logarithm of `n` in units of `1 / LOG_UNIT`.
pub fn log2_fixed_value(n: u64) -> (l: u64)
    requires
        n >= 1,
    ensures
        l == log2_fixed(n as int),
        l < 64 * LOG_UNIT,
        n >= 2 ==> l >= LOG_UNIT,
{
    proof {
        lemma_log2_fixed_ordered(n as int, n as int);
        lemma_mantissa_bounds(n as int);
    }
    let mut z: u64 = n;
    let mut shift: u64 = 0;
    while z < TOP
        invariant
            z >= 1,
            shift + leading_shift(z as int) == leading_shift(n as int),
            mantissa(z as int) == mantissa(n as int),
            0 <= leading_shift(n as int) <= 63,
        decreases headroom(z as int),
    {
        proof {
            lemma_mantissa_bounds(2 * z);
        }
        z = z * 2;
        shift = shift + 1;
    }
    let mut acc: u64 = 0;
    let mut weight: u64 = LOG_UNIT / 2;
    let mut m: u64 = z;
    while weight > 0
        invariant
            TOP <= m,
            acc + log2_fraction(m as int, weight as int) == log2_fraction(
                z as int,
                LOG_UNIT as int / 2,
            ),
            acc + 2 * weight <= LOG_UNIT,
        decreases weight,
    {
        proof {
            lemma_square_bounds(m as int, m as int);
            assert(m * m <= 0xffff_ffff_ffff_ffff * 0xffff_ffff_ffff_ffff) by (nonlinear_arith)
                requires
                    0 <= m <= 0xffff_ffff_ffff_ffff,
            ;
        }
        let square: u128 = (m as u128) * (m as u128) / (TOP as u128);
        if square >= 2 * (TOP as u128) {
            acc = acc + weight;
            m = (square / 2) as u64;
        } else {
            m = square as u64;
        }
        weight = weight / 2;
    }
    (63 - shift) * LOG_UNIT + acc
}

/// Access pattern weight: memories recalled more often are more
/// consolidated. The bonus is relative to the most recalled memory of the corpus.
pub fn access_weight(mem: &MemoryRecord, max_access: i64) -> (w: u64)
    ensures
        w == access_weight_of(mem@.access_count, max_access as int),
        SCALE <= w <= 65 * SCALE,
{
    if max_access <= 0 {
        return SCALE;
    }
    let count: u64 = if mem.access_count < 0 {
        0
    } else {
        mem.access_count as u64
    };
    let top = log2_fixed_value(count + 1);
    let bottom = log2_fixed_value(max_access as u64 + 1);
    proof {
        assert(0 <= SCALE * top / (bottom as int) <= 64 * SCALE) by (nonlinear_arith)
            requires
                0 <= top < 64 * 0x4000_0000,
                bottom >= 0x4000_0000,
                SCALE == 1_000_000_000,
        ;
        assert(SCALE * top <= 1_000_000_000 * (64 * 0x4000_0000)) by (nonlinear_arith)
            requires
                0 <= top < 64 * 0x4000_0000,
                SCALE == 1_000_000_000,
        ;
    }
    let ratio: u128 = (SCALE as u128) * (top as u128) / (bottom as u128);
    SCALE + ratio as u64
}

/// The composite score of a candidate: its fused rank score weighted by its
/// decayed strength, its recency and its access bonus, each product rounded
/// down to a whole unit.
pub open spec fn composite_score(fused: int, strength: int, recency: int, access: int) -> int {
    fused * strength / (SCALE as int) * recency / (SCALE as int) * access / (SCALE as int)
}

/// A composite score is at most 65 times the fused score it starts from.
pub proof fn lemma_composite_score_bounds(fused: int, strength: int, recency: int, access: int)
    requires
        0 <= fused,
        0 <= strength <= SCALE,
        0 <= recency <= SCALE,
        0 <= access <= 65 * SCALE,
    ensures
        0 <= fused * strength / (SCALE as int) <= fused,
        0 <= fused * strength / (SCALE as int) * recency / (SCALE as int) <= fused,
        0 <= composite_score(fused, strength, recency, access) <= 65 * fused,
        access <= 2 * SCALE ==> composite_score(fused, strength, recency, access) <= 2 * fused,
{
    let s = SCALE as int;
    let a = fused * strength / s;
    assert(0 <= a <= fused) by (nonlinear_arith)
        requires
            a == fused * strength / s,
            0 <= fused,
            0 <= strength <= s,
            s > 0,
    ;
    let b = a * recency / s;
    assert(0 <= b <= a) by (nonlinear_arith)
        requires
            b == a * recency / s,
            0 <= a,
            0 <= recency <= s,
            s > 0,
    ;
    let c = b * access / s;
    assert(0 <= c <= 65 * b) by (nonlinear_arith)
        requires
            c == b * access / s,
            0 <= b,
            0 <= access <= 65 * s,
            s > 0,
    ;
    if access <= 2 * SCALE {
        assert(c <= 2 * b) by (nonlinear_arith)
            requires
                c == b * access / s,
                0 <= b,
                0 <= access <= 2 * s,
                s > 0,
        ;
    }
}

/// Computes the composite score of a candidate.
pub fn composite_score_value(fused: u128, strength: u64, recency: u64, access: u64) -> (score:
    u128)
    requires
        fused <= u64::MAX,
        strength <= SCALE,
        recency <= SCALE,
        access <= 65 * SCALE,
    ensures
        score == composite_score(fused as int, strength as int, recency as int, access as int),
        score <= 65 * fused,
{
    proof {
        lemma_composite_score_bounds(fused as int, strength as int, recency as int, access as int);
        assert(fused * strength <= 0xffff_ffff_ffff_ffff * 1_000_000_000) by (nonlinear_arith)
            requires
                0 <= fused <= 0xffff_ffff_ffff_ffff,
                0 <= strength <= 1_000_000_000,
        ;
    }
    let a: u128 = fused * (strength as u128) / (SCALE as u128);
    proof {
        assert(a * recency <= 0xffff_ffff_ffff_ffff * 1_000_000_000) by (nonlinear_arith)
            requires
                0 <= a <= 0xffff_ffff_ffff_ffff,
                0 <= recency <= 1_000_000_000,
        ;
    }
    let b: u128 = a * (recency as u128) / (SCALE as u128);
    proof {
        assert(b * access <= 0xffff_ffff_ffff_ffff * 65_000_000_000) by (nonlinear_arith)
            requires
                0 <= b <= 0xffff_ffff_ffff_ffff,
                0 <= access <= 65_000_000_000,
        ;
    }
    b * (access as u128) / (SCALE as u128)
}

} // verus!
