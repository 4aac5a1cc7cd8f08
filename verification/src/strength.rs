//! The shared strength model: exponential decay since the last access, and
//! the reinforcement applied when a memory is recalled.
//!
//! Decay is evaluated as a power of two. The exponent, counted in half-lives,
//! is `lambda * days * log2(e)`; whole half-lives halve the factor, and the
//! fractional part is read off a table of `2^(-j/100)` with linear
//! interpolation between neighbouring entries.

use vstd::prelude::*;
use vstd::arithmetic::power2::pow2;
use crate::fixed::SCALE;
use crate::memory::{MemoryKind, MemoryKindView, MemoryRecord, MemoryView};
use crate::policy::{Policy, EPISODE_DECAY_LAMBDA_PER_DAY, FACT_DECAY_LAMBDA_PER_DAY};

verus! {

/// The binary logarithm of e, in units of `1 / SCALE`.
pub const LOG2_E: u64 = 1_442_695_041;

pub const SECONDS_PER_DAY: u64 = 86_400;

/// The width of one table segment, in units of `1 / SCALE` of a half-life.
pub const SEGMENT: u64 = 10_000_000;

/// After this many half-lives nothing is left.
pub const MAX_HALVINGS: u64 = 30;

/// Entry `j` of the table: `2^(-j/100)` in units of `1 / SCALE`, to the nearest unit.
#[verifier::opaque]
pub open spec fn knot(j: int) -> int {
    if j <= 0 { 1_000_000_000
    } else if j <= 1 { 993_092_495
    } else if j <= 2 { 986_232_704
    } else if j <= 3 { 979_420_298
    } else if j <= 4 { 972_654_947
    } else if j <= 5 { 965_936_329
    } else if j <= 6 { 959_264_119
    } else if j <= 7 { 952_637_998
    } else if j <= 8 { 946_057_647
    } else if j <= 9 { 939_522_749
    } else if j <= 10 { 933_032_992
    } else if j <= 11 { 926_588_062
    } else if j <= 12 { 920_187_651
    } else if j <= 13 { 913_831_450
    } else if j <= 14 { 907_519_155
    } else if j <= 15 { 901_250_463
    } else if j <= 16 { 895_025_071
    } else if j <= 17 { 888_842_681
    } else if j <= 18 { 882_702_996
    } else if j <= 19 { 876_605_721
    } else if j <= 20 { 870_550_563
    } else if j <= 21 { 864_537_231
    } else if j <= 22 { 858_565_436
    } else if j <= 23 { 852_634_892
    } else if j <= 24 { 846_745_312
    } else if j <= 25 { 840_896_415
    } else if j <= 26 { 835_087_919
    } else if j <= 27 { 829_319_546
    } else if j <= 28 { 823_591_017
    } else if j <= 29 { 817_902_059
    } else if j <= 30 { 812_252_396
    } else if j <= 31 { 806_641_759
    } else if j <= 32 { 801_069_878
    } else if j <= 33 { 795_536_484
    } else if j <= 34 { 790_041_312
    } else if j <= 35 { 784_584_098
    } else if j <= 36 { 779_164_580
    } else if j <= 37 { 773_782_497
    } else if j <= 38 { 768_437_591
    } else if j <= 39 { 763_129_604
    } else if j <= 40 { 757_858_283
    } else if j <= 41 { 752_623_374
    } else if j <= 42 { 747_424_624
    } else if j <= 43 { 742_261_785
    } else if j <= 44 { 737_134_609
    } else if j <= 45 { 732_042_848
    } else if j <= 46 { 726_986_259
    } else if j <= 47 { 721_964_598
    } else if j <= 48 { 716_977_624
    } else if j <= 49 { 712_025_098
    } else if j <= 50 { 707_106_781
    } else if j <= 51 { 702_222_438
    } else if j <= 52 { 697_371_833
    } else if j <= 53 { 692_554_734
    } else if j <= 54 { 687_770_909
    } else if j <= 55 { 683_020_128
    } else if j <= 56 { 678_302_164
    } else if j <= 57 { 673_616_788
    } else if j <= 58 { 668_963_777
    } else if j <= 59 { 664_342_907
    } else if j <= 60 { 659_753_955
    } else if j <= 61 { 655_196_702
    } else if j <= 62 { 650_670_928
    } else if j <= 63 { 646_176_415
    } else if j <= 64 { 641_712_949
    } else if j <= 65 { 637_280_314
    } else if j <= 66 { 632_878_297
    } else if j <= 67 { 628_506_687
    } else if j <= 68 { 624_165_274
    } else if j <= 69 { 619_853_850
    } else if j <= 70 { 615_572_207
    } else if j <= 71 { 611_320_139
    } else if j <= 72 { 607_097_442
    } else if j <= 73 { 602_903_914
    } else if j <= 74 { 598_739_352
    } else if j <= 75 { 594_603_558
    } else if j <= 76 { 590_496_331
    } else if j <= 77 { 586_417_475
    } else if j <= 78 { 582_366_793
    } else if j <= 79 { 578_344_092
    } else if j <= 80 { 574_349_177
    } else if j <= 81 { 570_381_858
    } else if j <= 82 { 566_441_943
    } else if j <= 83 { 562_529_242
    } else if j <= 84 { 558_643_569
    } else if j <= 85 { 554_784_736
    } else if j <= 86 { 550_952_558
    } else if j <= 87 { 547_146_851
    } else if j <= 88 { 543_367_431
    } else if j <= 89 { 539_614_118
    } else if j <= 90 { 535_886_731
    } else if j <= 91 { 532_185_091
    } else if j <= 92 { 528_509_020
    } else if j <= 93 { 524_858_342
    } else if j <= 94 { 521_232_880
    } else if j <= 95 { 517_632_462
    } else if j <= 96 { 514_056_913
    } else if j <= 97 { 510_506_063
    } else if j <= 98 { 506_979_740
    } else if j <= 99 { 503_477_775
    } else { 500_000_000 }
}

/// Looks up entry `j` of the table.
pub fn knot_value(j: u64) -> (k: u64)
    requires
        j <= 100,
    ensures
        k == knot(j as int),
{
    reveal(knot);
    if j <= 0 { 1_000_000_000
    } else if j <= 1 { 993_092_495
    } else if j <= 2 { 986_232_704
    } else if j <= 3 { 979_420_298
    } else if j <= 4 { 972_654_947
    } else if j <= 5 { 965_936_329
    } else if j <= 6 { 959_264_119
    } else if j <= 7 { 952_637_998
    } else if j <= 8 { 946_057_647
    } else if j <= 9 { 939_522_749
    } else if j <= 10 { 933_032_992
    } else if j <= 11 { 926_588_062
    } else if j <= 12 { 920_187_651
    } else if j <= 13 { 913_831_450
    } else if j <= 14 { 907_519_155
    } else if j <= 15 { 901_250_463
    } else if j <= 16 { 895_025_071
    } else if j <= 17 { 888_842_681
    } else if j <= 18 { 882_702_996
    } else if j <= 19 { 876_605_721
    } else if j <= 20 { 870_550_563
    } else if j <= 21 { 864_537_231
    } else if j <= 22 { 858_565_436
    } else if j <= 23 { 852_634_892
    } else if j <= 24 { 846_745_312
    } else if j <= 25 { 840_896_415
    } else if j <= 26 { 835_087_919
    } else if j <= 27 { 829_319_546
    } else if j <= 28 { 823_591_017
    } else if j <= 29 { 817_902_059
    } else if j <= 30 { 812_252_396
    } else if j <= 31 { 806_641_759
    } else if j <= 32 { 801_069_878
    } else if j <= 33 { 795_536_484
    } else if j <= 34 { 790_041_312
    } else if j <= 35 { 784_584_098
    } else if j <= 36 { 779_164_580
    } else if j <= 37 { 773_782_497
    } else if j <= 38 { 768_437_591
    } else if j <= 39 { 763_129_604
    } else if j <= 40 { 757_858_283
    } else if j <= 41 { 752_623_374
    } else if j <= 42 { 747_424_624
    } else if j <= 43 { 742_261_785
    } else if j <= 44 { 737_134_609
    } else if j <= 45 { 732_042_848
    } else if j <= 46 { 726_986_259
    } else if j <= 47 { 721_964_598
    } else if j <= 48 { 716_977_624
    } else if j <= 49 { 712_025_098
    } else if j <= 50 { 707_106_781
    } else if j <= 51 { 702_222_438
    } else if j <= 52 { 697_371_833
    } else if j <= 53 { 692_554_734
    } else if j <= 54 { 687_770_909
    } else if j <= 55 { 683_020_128
    } else if j <= 56 { 678_302_164
    } else if j <= 57 { 673_616_788
    } else if j <= 58 { 668_963_777
    } else if j <= 59 { 664_342_907
    } else if j <= 60 { 659_753_955
    } else if j <= 61 { 655_196_702
    } else if j <= 62 { 650_670_928
    } else if j <= 63 { 646_176_415
    } else if j <= 64 { 641_712_949
    } else if j <= 65 { 637_280_314
    } else if j <= 66 { 632_878_297
    } else if j <= 67 { 628_506_687
    } else if j <= 68 { 624_165_274
    } else if j <= 69 { 619_853_850
    } else if j <= 70 { 615_572_207
    } else if j <= 71 { 611_320_139
    } else if j <= 72 { 607_097_442
    } else if j <= 73 { 602_903_914
    } else if j <= 74 { 598_739_352
    } else if j <= 75 { 594_603_558
    } else if j <= 76 { 590_496_331
    } else if j <= 77 { 586_417_475
    } else if j <= 78 { 582_366_793
    } else if j <= 79 { 578_344_092
    } else if j <= 80 { 574_349_177
    } else if j <= 81 { 570_381_858
    } else if j <= 82 { 566_441_943
    } else if j <= 83 { 562_529_242
    } else if j <= 84 { 558_643_569
    } else if j <= 85 { 554_784_736
    } else if j <= 86 { 550_952_558
    } else if j <= 87 { 547_146_851
    } else if j <= 88 { 543_367_431
    } else if j <= 89 { 539_614_118
    } else if j <= 90 { 535_886_731
    } else if j <= 91 { 532_185_091
    } else if j <= 92 { 528_509_020
    } else if j <= 93 { 524_858_342
    } else if j <= 94 { 521_232_880
    } else if j <= 95 { 517_632_462
    } else if j <= 96 { 514_056_913
    } else if j <= 97 { 510_506_063
    } else if j <= 98 { 506_979_740
    } else if j <= 99 { 503_477_775
    } else { 500_000_000 }
}

/// The table starts at one and ends at one half.
pub proof fn lemma_knot_ends()
    ensures
        knot(0) == SCALE,
        knot(100) == SCALE / 2,
{
    reveal(knot);
}

/// Each table entry is smaller than the one before it, by between 3,477,775
/// and 6,907,505 units.
pub proof fn lemma_knot_step(j: int)
    requires
        0 <= j < 100,
    ensures
        3_477_775 <= knot(j) - knot(j + 1) <= 6_907_505,
        SCALE / 2 <= knot(j + 1),
        knot(j) <= SCALE,
{
    reveal(knot);
}

/// The table is decreasing.
pub proof fn lemma_knot_ordered(a: int, b: int)
    requires
        0 <= a <= b <= 100,
    ensures
        knot(a) >= knot(b),
    decreases b - a,
{
    if a < b {
        lemma_knot_step(a);
        lemma_knot_ordered(a + 1, b);
    }
}

/// `2^(-r / SCALE)` for a fraction `0 <= r < SCALE` of a half-life, by linear
/// interpolation between the two table entries around it.
pub open spec fn fraction_factor(r: int) -> int {
    let j = r / (SEGMENT as int);
    let offset = r % (SEGMENT as int);
    knot(j) - (knot(j) - knot(j + 1)) * offset / (SEGMENT as int)
}

/// The decay factor after `h / SCALE` half-lives.
pub open spec fn decay_curve(h: int) -> int {
    if h <= 0 {
        SCALE as int
    } else if h / (SCALE as int) >= MAX_HALVINGS {
        0
    } else {
        fraction_factor(h % (SCALE as int)) / (pow2((h / (SCALE as int)) as nat) as int)
    }
}

/// The number of half-lives that pass in `secs` seconds at decay constant
/// `lambda`, in units of `1 / SCALE`: `lambda * days * log2(e)`, rounded down.
pub open spec fn half_lives(lambda: int, secs: int) -> int {
    lambda * secs * LOG2_E / (SECONDS_PER_DAY * SCALE)
}

/// The decay constant of a kind of memory.
pub open spec fn decay_lambda(policy: Policy, kind: MemoryKindView) -> int {
    match kind {
        MemoryKindView::Fact(_) => policy.fact_decay_lambda_per_day as int,
        MemoryKindView::Episode(_) => policy.episode_decay_lambda_per_day as int,
    }
}

/// The reinforcement a kind of memory receives when it is recalled.
pub open spec fn touch_boost_of(policy: Policy, kind: MemoryKindView) -> int {
    match kind {
        MemoryKindView::Fact(_) => policy.fact_touch_boost as int,
        MemoryKindView::Episode(_) => policy.episode_touch_boost as int,
    }
}

/// Whole seconds from `then` to `now`; zero if `then` is not in the past.
pub open spec fn elapsed_seconds(now: int, then: int) -> int {
    if now > then {
        now - then
    } else {
        0
    }
}

/// The fraction of its strength that a memory of this kind keeps over `secs` seconds.
pub open spec fn decay_factor(policy: Policy, kind: MemoryKindView, secs: int) -> int {
    decay_curve(half_lives(decay_lambda(policy, kind), secs))
}

/// A stored strength after `secs` seconds of disuse, clamped to [0, 1].
pub open spec fn decayed(policy: Policy, strength: int, kind: MemoryKindView, secs: int) -> int {
    let s = strength * decay_factor(policy, kind, secs) / (SCALE as int);
    if s > SCALE {
        SCALE as int
    } else {
        s
    }
}

/// The strength of a memory at `now`: its stored strength decayed over the
/// time since it was last accessed.
pub open spec fn effective_strength_at(policy: Policy, m: MemoryView, now: int) -> int {
    decayed(policy, m.strength as int, m.kind, elapsed_seconds(now, m.last_accessed_at))
}

/// The strength a memory is given when it is recalled at `now`: decay first,
/// then the boost of its kind, never more than one.
pub open spec fn touched_strength_at(policy: Policy, m: MemoryView, now: int) -> int {
    let s = effective_strength_at(policy, m, now) + touch_boost_of(policy, m.kind);
    if s > SCALE {
        SCALE as int
    } else {
        s
    }
}

/// Within one half-life the factor stays above one half, and it is exactly
/// one when no time has passed.
pub proof fn lemma_fraction_factor_bounds(r: int)
    requires
        0 <= r < SCALE,
    ensures
        SCALE / 2 < fraction_factor(r) <= SCALE,
        knot(r / (SEGMENT as int) + 1) < fraction_factor(r) <= knot(r / (SEGMENT as int)),
        r == 0 ==> fraction_factor(r) == SCALE,
{
    let w = SEGMENT as int;
    let j = r / w;
    let offset = r % w;
    assert(0 <= j < 100 && 0 <= offset < w && r == j * w + offset) by (nonlinear_arith)
        requires
            0 <= r < 1_000_000_000,
            w == 10_000_000,
            j == r / w,
            offset == r % w,
    ;
    lemma_knot_step(j);
    lemma_knot_ends();
    lemma_knot_ordered(0, j);
    let drop = knot(j) - knot(j + 1);
    assert(0 <= drop * offset / w < drop) by (nonlinear_arith)
        requires
            0 <= offset < w,
            drop > 0,
            w > 0,
    ;
    if r == 0 {
        assert(drop * 0 / w == 0) by (nonlinear_arith)
            requires
                w > 0,
        ;
    }
}

/// Within one half-life the factor does not grow with the elapsed fraction.
pub proof fn lemma_fraction_factor_ordered(r1: int, r2: int)
    requires
        0 <= r1 <= r2 < SCALE,
    ensures
        fraction_factor(r1) >= fraction_factor(r2),
{
    let w = SEGMENT as int;
    let j1 = r1 / w;
    let j2 = r2 / w;
    lemma_fraction_factor_bounds(r1);
    lemma_fraction_factor_bounds(r2);
    assert(0 <= j1 <= j2 < 100) by (nonlinear_arith)
        requires
            0 <= r1 <= r2 < 1_000_000_000,
            w == 10_000_000,
            j1 == r1 / w,
            j2 == r2 / w,
    ;
    if j1 == j2 {
        let drop = knot(j1) - knot(j1 + 1);
        let o1 = r1 % w;
        let o2 = r2 % w;
        lemma_knot_step(j1);
        assert(o1 <= o2) by (nonlinear_arith)
            requires
                r1 <= r2,
                r1 / w == r2 / w,
                o1 == r1 % w,
                o2 == r2 % w,
                w > 0,
        ;
        assert(drop * o1 / w <= drop * o2 / w) by (nonlinear_arith)
            requires
                0 <= o1 <= o2,
                drop > 0,
                w > 0,
        ;
    } else {
        lemma_knot_ordered(j1 + 1, j2);
    }
}

/// The decay factor lies in [0, 1] and is exactly one when no time has passed.
pub proof fn lemma_decay_curve_bounds(h: int)
    ensures
        0 <= decay_curve(h) <= SCALE,
        h <= 0 ==> decay_curve(h) == SCALE,
{
    let s = SCALE as int;
    if h > 0 && h / s < MAX_HALVINGS {
        let q = h / s;
        let r = h % s;
        assert(0 <= q && 0 <= r < s) by (nonlinear_arith)
            requires
                h > 0,
                s == 1_000_000_000,
                q == h / s,
                r == h % s,
        ;
        lemma_fraction_factor_bounds(r);
        vstd::arithmetic::power2::lemma_pow2_pos(q as nat);
        let p = pow2(q as nat) as int;
        let f = fraction_factor(r);
        assert(0 <= f / p <= f) by (nonlinear_arith)
            requires
                f >= 0,
                p >= 1,
        ;
    }
}

/// The decay factor never grows with the number of half-lives.
pub proof fn lemma_decay_curve_ordered(h1: int, h2: int)
    requires
        h1 <= h2,
    ensures
        decay_curve(h1) >= decay_curve(h2),
{
    let s = SCALE as int;
    lemma_decay_curve_bounds(h1);
    lemma_decay_curve_bounds(h2);
    if h1 > 0 && h2 / s < MAX_HALVINGS {
        let q1 = h1 / s;
        let q2 = h2 / s;
        let r1 = h1 % s;
        let r2 = h2 % s;
        assert(0 <= q1 <= q2 && 0 <= r1 < s && 0 <= r2 < s && (q1 == q2 ==> r1 <= r2))
            by (nonlinear_arith)
            requires
                0 < h1 <= h2,
                s == 1_000_000_000,
                q1 == h1 / s,
                q2 == h2 / s,
                r1 == h1 % s,
                r2 == h2 % s,
        ;
        let f1 = fraction_factor(r1);
        let f2 = fraction_factor(r2);
        lemma_fraction_factor_bounds(r1);
        lemma_fraction_factor_bounds(r2);
        vstd::arithmetic::power2::lemma_pow2_pos(q1 as nat);
        vstd::arithmetic::power2::lemma_pow2_pos(q2 as nat);
        let low = pow2(q1 as nat) as int;
        let high = pow2(q2 as nat) as int;
        if q1 == q2 {
            lemma_fraction_factor_ordered(r1, r2);
            vstd::arithmetic::div_mod::lemma_div_is_ordered(f2, f1, low);
        } else {
            // One more halving costs at least as much as the rest of a half-life.
            vstd::arithmetic::power2::lemma_pow2_unfold((q1 + 1) as nat);
            if q1 + 1 < q2 {
                vstd::arithmetic::power2::lemma_pow2_strictly_increases(
                    (q1 + 1) as nat,
                    q2 as nat,
                );
            }
            assert(2 * low <= high);
            assert(f1 / low >= f2 / high) by (nonlinear_arith)
                requires
                    f2 <= 2 * f1,
                    0 <= f2,
                    0 < low,
                    2 * low <= high,
            ;
        }
    }
}

/// Each further half-life halves what is left.
pub proof fn lemma_half_life_halves(h: int)
    requires
        0 <= h,
    ensures
        decay_curve(h + SCALE) == decay_curve(h) / 2,
{
    let s = SCALE as int;
    let q = h / s;
    let r = h % s;
    assert(0 <= q && 0 <= r < s && (h + s) / s == q + 1 && (h + s) % s == r) by (nonlinear_arith)
        requires
            0 <= h,
            s == 1_000_000_000,
            q == h / s,
            r == h % s,
    ;
    lemma_fraction_factor_bounds(r);
    lemma_decay_curve_bounds(h);
    vstd::arithmetic::power2::lemma2_to64();
    let f = fraction_factor(r);
    if q + 1 < MAX_HALVINGS {
        vstd::arithmetic::power2::lemma_pow2_pos(q as nat);
        vstd::arithmetic::power2::lemma_pow2_unfold((q + 1) as nat);
        vstd::arithmetic::div_mod::lemma_div_denominator(f, pow2(q as nat) as int, 2);
        assert(decay_curve(h) == f / (pow2(q as nat) as int));
    } else if q < MAX_HALVINGS {
        // In the last octave at most one unit is left.
        assert(q == 29);
        assert(f / 536_870_912 <= 1) by (nonlinear_arith)
            requires
                0 <= f <= 1_000_000_000,
        ;
        assert(decay_curve(h) == f / (pow2(29) as int));
    }
}

/// More elapsed time, or a larger decay constant, never means fewer half-lives.
pub proof fn lemma_half_lives_ordered(lambda1: int, secs1: int, lambda2: int, secs2: int)
    requires
        0 <= lambda1 <= lambda2,
        0 <= secs1 <= secs2,
    ensures
        0 <= half_lives(lambda1, secs1) <= half_lives(lambda2, secs2),
        secs1 == 0 ==> half_lives(lambda1, secs1) == 0,
{
    let d = SECONDS_PER_DAY * SCALE;
    let a = lambda1 * secs1 * LOG2_E;
    let b = lambda2 * secs2 * LOG2_E;
    assert(0 <= a <= b) by (nonlinear_arith)
        requires
            0 <= lambda1 <= lambda2,
            0 <= secs1 <= secs2,
            a == lambda1 * secs1 * LOG2_E,
            b == lambda2 * secs2 * LOG2_E,
    ;
    vstd::arithmetic::div_mod::lemma_div_is_ordered(a, b, d as int);
    vstd::arithmetic::div_mod::lemma_div_pos_is_pos(a, d as int);
    if secs1 == 0 {
        assert(lambda1 * 0 * LOG2_E == 0) by (nonlinear_arith);
    }
}

/// Evaluates the decay factor after `h / SCALE` half-lives.
pub fn decay_curve_value(h: u128) -> (f: u64)
    ensures
        f == decay_curve(h as int),
        f <= SCALE,
{
    proof {
        lemma_decay_curve_bounds(h as int);
    }
    if h == 0 {
        return SCALE;
    }
    let q: u128 = h / (SCALE as u128);
    if q >= MAX_HALVINGS as u128 {
        return 0;
    }
    let r: u64 = (h % (SCALE as u128)) as u64;
    let j: u64 = r / SEGMENT;
    let offset: u64 = r % SEGMENT;
    proof {
        assert(j < 100) by (nonlinear_arith)
            requires
                r < 1_000_000_000,
                j == r / 10_000_000,
        ;
        lemma_knot_step(j as int);
        lemma_fraction_factor_bounds(r as int);
    }
    let high = knot_value(j);
    let low = knot_value(j + 1);
    proof {
        assert((high - low) * offset <= 6_907_505 * 10_000_000) by (nonlinear_arith)
            requires
                0 <= high - low <= 6_907_505,
                0 <= offset < 10_000_000,
        ;
    }
    let mut f: u64 = high - (high - low) * offset / SEGMENT;
    let ghost start = f;
    let mut k: u64 = 0;
    proof {
        vstd::arithmetic::power2::lemma2_to64();
    }
    while (k as u128) < q
        invariant
            k <= q < MAX_HALVINGS,
            f == start as int / (pow2(k as nat) as int),
        decreases q - k,
    {
        proof {
            vstd::arithmetic::power2::lemma_pow2_pos(k as nat);
            vstd::arithmetic::power2::lemma_pow2_unfold((k + 1) as nat);
            vstd::arithmetic::div_mod::lemma_div_denominator(
                start as int,
                pow2(k as nat) as int,
                2,
            );
        }
        f = f / 2;
        k = k + 1;
    }
    f
}

/// Counts the half-lives that pass in `secs` seconds at decay constant `lambda`.
pub fn half_lives_value(lambda: u64, secs: u64) -> (h: u128)
    requires
        lambda <= SCALE,
    ensures
        h == half_lives(lambda as int, secs as int),
{
    proof {
        assert(lambda * secs * LOG2_E <= 1_000_000_000 * 0xffff_ffff_ffff_ffff * 1_442_695_041)
            by (nonlinear_arith)
            requires
                0 <= lambda <= 1_000_000_000,
                0 <= secs <= 0xffff_ffff_ffff_ffff,
                LOG2_E == 1_442_695_041,
        ;
        assert(lambda * secs <= 1_000_000_000 * 0xffff_ffff_ffff_ffff) by (nonlinear_arith)
            requires
                0 <= lambda <= 1_000_000_000,
                0 <= secs <= 0xffff_ffff_ffff_ffff,
        ;
    }
    let divisor: u128 = 86_400_000_000_000;
    assert(divisor == SECONDS_PER_DAY * SCALE);
    (lambda as u128) * (secs as u128) * (LOG2_E as u128) / divisor
}

/// The decay constant of a memory, by kind.
pub fn kind_decay_lambda_per_day(policy: &Policy, mem: &MemoryRecord) -> (lambda: u64)
    ensures
        lambda == decay_lambda(*policy, mem@.kind),
{
    match &mem.kind {
        MemoryKind::Fact(_) => policy.fact_decay_lambda_per_day,
        MemoryKind::Episode(_) => policy.episode_decay_lambda_per_day,
    }
}

/// The reinforcement a memory receives when it is recalled, by kind.
pub fn touch_boost(policy: &Policy, mem: &MemoryRecord) -> (boost: u64)
    ensures
        boost == touch_boost_of(*policy, mem@.kind),
{
    match &mem.kind {
        MemoryKind::Fact(_) => policy.fact_touch_boost,
        MemoryKind::Episode(_) => policy.episode_touch_boost,
    }
}

/// Whole seconds from `then` to `now`; zero if `then` is not in the past.
pub fn seconds_between(now: i64, then: i64) -> (secs: u64)
    ensures
        secs == elapsed_seconds(now as int, then as int),
{
    if now > then {
        (now as i128 - then as i128) as u64
    } else {
        0
    }
}

/// The strength of a memory at `now`: its stored strength decayed over the
/// time since it was last accessed, clamped to [0, 1].
pub fn effective_strength(policy: &Policy, mem: &MemoryRecord, now: i64) -> (strength: u64)
    requires
        policy.wf(),
    ensures
        strength == effective_strength_at(*policy, mem@, now as int),
        strength <= SCALE,
{
    let secs = seconds_between(now, mem.last_accessed_at);
    let lambda = kind_decay_lambda_per_day(policy, mem);
    let factor = decay_curve_value(half_lives_value(lambda, secs));
    proof {
        assert(mem.strength * factor <= 0xffff_ffff_ffff_ffff * 1_000_000_000)
            by (nonlinear_arith)
            requires
                0 <= mem.strength <= 0xffff_ffff_ffff_ffff,
                0 <= factor <= 1_000_000_000,
        ;
    }
    let s: u128 = (mem.strength as u128) * (factor as u128) / (SCALE as u128);
    if s > SCALE as u128 {
        SCALE
    } else {
        s as u64
    }
}

/// The strength to store when a memory is recalled at `now`: decay is applied
/// first, then the boost of its kind is added, and the sum is capped at one.
pub fn touched_strength(policy: &Policy, mem: &MemoryRecord, now: i64) -> (strength: u64)
    requires
        policy.wf(),
    ensures
        strength == touched_strength_at(*policy, mem@, now as int),
        strength <= SCALE,
{
    let s = effective_strength(policy, mem, now) + touch_boost(policy, mem);
    if s > SCALE {
        SCALE
    } else {
        s
    }
}

/// A memory keeps a fraction between zero and one of its strength, and all of
/// it when no time has passed.
pub proof fn lemma_decay_factor_bounds(policy: Policy, kind: MemoryKindView, secs: int)
    ensures
        0 <= decay_factor(policy, kind, secs) <= SCALE,
        secs <= 0 ==> decay_factor(policy, kind, secs) == SCALE,
{
    lemma_decay_curve_bounds(half_lives(decay_lambda(policy, kind), secs));
    if secs <= 0 {
        let a = decay_lambda(policy, kind) * secs * LOG2_E;
        assert(a <= 0) by (nonlinear_arith)
            requires
                decay_lambda(policy, kind) >= 0,
                secs <= 0,
                a == decay_lambda(policy, kind) * secs * LOG2_E,
        ;
        let d = (SECONDS_PER_DAY * SCALE) as int;
        assert(a / d <= 0) by (nonlinear_arith)
            requires
                a <= 0,
                d > 0,
        ;
    }
}

/// Effective strength never increases with elapsed time: for any stored
/// strength and either kind, waiting longer leaves no more than waiting less.
pub proof fn lemma_strength_fades(
    policy: Policy,
    strength: int,
    kind: MemoryKindView,
    secs1: int,
    secs2: int,
)
    requires
        0 <= strength,
        0 <= secs1 <= secs2,
    ensures
        decayed(policy, strength, kind, secs1) >= decayed(policy, strength, kind, secs2),
        decayed(policy, strength, kind, 0) == if strength > SCALE {
            SCALE as int
        } else {
            strength
        },
{
    let lambda = decay_lambda(policy, kind);
    lemma_half_lives_ordered(lambda, secs1, lambda, secs2);
    lemma_decay_curve_ordered(half_lives(lambda, secs1), half_lives(lambda, secs2));
    lemma_decay_factor_bounds(policy, kind, secs1);
    lemma_decay_factor_bounds(policy, kind, secs2);
    lemma_decay_factor_bounds(policy, kind, 0);
    let f1 = decay_factor(policy, kind, secs1);
    let f2 = decay_factor(policy, kind, secs2);
    let s = SCALE as int;
    assert(strength * f2 / s <= strength * f1 / s) by (nonlinear_arith)
        requires
            0 <= strength,
            0 <= f2 <= f1,
            s > 0,
    ;
    assert(strength * s / s == strength) by (nonlinear_arith)
        requires
            s > 0,
    ;
}

/// The effective strength of a memory never increases as the clock advances.
pub proof fn lemma_effective_strength_fades(policy: Policy, m: MemoryView, now1: int, now2: int)
    requires
        now1 <= now2,
    ensures
        effective_strength_at(policy, m, now1) >= effective_strength_at(policy, m, now2),
{
    lemma_strength_fades(
        policy,
        m.strength as int,
        m.kind,
        elapsed_seconds(now1, m.last_accessed_at),
        elapsed_seconds(now2, m.last_accessed_at),
    );
}

/// With equal stored strength and equal elapsed time, a fact is never weaker
/// than an episode, under any policy that lets facts decay no faster.
pub proof fn lemma_fact_outlasts_episode(
    policy: Policy,
    strength: int,
    fact: MemoryKindView,
    episode: MemoryKindView,
    secs: int,
)
    requires
        policy.fact_decay_lambda_per_day <= policy.episode_decay_lambda_per_day,
        fact is Fact,
        episode is Episode,
        0 <= strength,
        0 <= secs,
    ensures
        decay_factor(policy, fact, secs) >= decay_factor(policy, episode, secs),
        decayed(policy, strength, fact, secs) >= decayed(policy, strength, episode, secs),
{
    lemma_half_lives_ordered(decay_lambda(policy, fact), secs, decay_lambda(policy, episode), secs);
    lemma_decay_curve_ordered(
        half_lives(decay_lambda(policy, fact), secs),
        half_lives(decay_lambda(policy, episode), secs),
    );
    lemma_decay_factor_bounds(policy, fact, secs);
    lemma_decay_factor_bounds(policy, episode, secs);
    let f1 = decay_factor(policy, fact, secs);
    let f2 = decay_factor(policy, episode, secs);
    let s = SCALE as int;
    assert(strength * f2 / s <= strength * f1 / s) by (nonlinear_arith)
        requires
            0 <= strength,
            0 <= f2 <= f1,
            s > 0,
    ;
}

/// The least difference between neighbouring table entries.
pub const MIN_DROP: u64 = 3_477_775;

/// The interpolated factor before rounding, multiplied by `SEGMENT`; it is
/// defined up to and including the end of the half-life.
pub open spec fn fraction_line(r: int) -> int {
    let j = r / (SEGMENT as int);
    let offset = r % (SEGMENT as int);
    knot(j) * SEGMENT - (knot(j) - knot(j + 1)) * offset
}

/// The decay curve before rounding, multiplied by `SEGMENT * 2^29`.
pub open spec fn curve_line(h: int) -> int {
    fraction_line(h % (SCALE as int)) * pow2((29 - h / (SCALE as int)) as nat)
}

/// The rounded factor is the line rounded up to a whole unit.
pub proof fn lemma_fraction_line_rounding(r: int)
    requires
        0 <= r < SCALE,
    ensures
        fraction_line(r) <= fraction_factor(r) * SEGMENT < fraction_line(r) + SEGMENT,
{
    let w = SEGMENT as int;
    let j = r / w;
    let offset = r % w;
    assert(0 <= j < 100 && 0 <= offset < w) by (nonlinear_arith)
        requires
            0 <= r < 1_000_000_000,
            w == 10_000_000,
            j == r / w,
            offset == r % w,
    ;
    lemma_knot_step(j);
    let x = (knot(j) - knot(j + 1)) * offset;
    assert(x - w < (x / w) * w <= x) by (nonlinear_arith)
        requires
            w > 0,
    ;
    assert((knot(j) - x / w) * w == knot(j) * w - (x / w) * w) by (nonlinear_arith);
}

/// The line falls by at least `MIN_DROP` for every unit of the exponent.
pub proof fn lemma_fraction_line_slope(r1: int, r2: int)
    requires
        0 <= r1 <= r2 <= SCALE,
    ensures
        fraction_line(r1) - fraction_line(r2) >= MIN_DROP * (r2 - r1),
    decreases r2 / (SEGMENT as int) - r1 / (SEGMENT as int),
{
    let w = SEGMENT as int;
    let j1 = r1 / w;
    let j2 = r2 / w;
    let o1 = r1 % w;
    let o2 = r2 % w;
    assert(0 <= j1 <= j2 <= 100 && 0 <= o1 < w && 0 <= o2 < w && r1 == j1 * w + o1 && r2 == j2
        * w + o2 && (j2 == 100 ==> o2 == 0)) by (nonlinear_arith)
        requires
            0 <= r1 <= r2 <= 1_000_000_000,
            w == 10_000_000,
            j1 == r1 / w,
            j2 == r2 / w,
            o1 == r1 % w,
            o2 == r2 % w,
    ;
    if j1 == j2 {
        if j1 < 100 {
            lemma_knot_step(j1);
            let d = knot(j1) - knot(j1 + 1);
            assert(d * o2 - d * o1 >= MIN_DROP * (o2 - o1)) by (nonlinear_arith)
                requires
                    d >= MIN_DROP,
                    o1 <= o2,
            ;
        } else {
            assert(MIN_DROP * (r2 - r1) == 0) by (nonlinear_arith)
                requires
                    r2 == r1,
            ;
        }
    } else {
        lemma_knot_step(j1);
        let d = knot(j1) - knot(j1 + 1);
        let mid = (j1 + 1) * w;
        assert(mid / w == j1 + 1 && mid % w == 0 && r1 < mid <= r2) by (nonlinear_arith)
            requires
                mid == (j1 + 1) * w,
                w == 10_000_000,
                r1 == j1 * w + o1,
                r2 == j2 * w + o2,
                0 <= o1 < w,
                0 <= o2,
                j1 < j2,
        ;
        assert(fraction_line(mid) == knot(j1 + 1) * w) by {
            assert((knot(j1 + 1) - knot(j1 + 2)) * 0 == 0) by (nonlinear_arith);
        }
        assert(fraction_line(r1) - fraction_line(mid) >= MIN_DROP * (mid - r1)) by (nonlinear_arith)
            requires
                fraction_line(r1) == knot(j1) * w - d * o1,
                fraction_line(mid) == knot(j1 + 1) * w,
                d == knot(j1) - knot(j1 + 1),
                d >= MIN_DROP,
                mid - r1 == w - o1,
                0 <= o1 < w,
        ;
        lemma_fraction_line_slope(mid, r2);
        assert(MIN_DROP * (mid - r1) + MIN_DROP * (r2 - mid) == MIN_DROP * (r2 - r1))
            by (nonlinear_arith);
    }
}

/// The line of the whole curve falls, in octave `q`, by at least
/// `MIN_DROP * 2^(29 - q)` for every unit of the exponent.
pub proof fn lemma_curve_line_slope(a: int, b: int)
    requires
        0 <= a <= b,
        b / (SCALE as int) <= 29,
    ensures
        curve_line(a) - curve_line(b) >= MIN_DROP * pow2((29 - b / (SCALE as int)) as nat) * (b
            - a),
    decreases b / (SCALE as int) - a / (SCALE as int),
{
    let s = SCALE as int;
    let qa = a / s;
    let qb = b / s;
    let ra = a % s;
    let rb = b % s;
    assert(0 <= qa <= qb && 0 <= ra < s && 0 <= rb < s && a == qa * s + ra && b == qb * s + rb)
        by (nonlinear_arith)
        requires
            0 <= a <= b,
            s == 1_000_000_000,
            qa == a / s,
            qb == b / s,
            ra == a % s,
            rb == b % s,
    ;
    let pb = pow2((29 - qb) as nat) as int;
    vstd::arithmetic::power2::lemma_pow2_pos((29 - qb) as nat);
    if qa == qb {
        lemma_fraction_line_slope(ra, rb);
        let x = fraction_line(ra) - fraction_line(rb);
        let y = MIN_DROP * (rb - ra);
        assert(x * pb >= y * pb) by (nonlinear_arith)
            requires
                x >= y,
                pb > 0,
        ;
        assert(x * pb == fraction_line(ra) * pb - fraction_line(rb) * pb) by (nonlinear_arith)
            requires
                x == fraction_line(ra) - fraction_line(rb),
        ;
        assert(y * pb == MIN_DROP * pb * (b - a)) by (nonlinear_arith)
            requires
                y == MIN_DROP * (rb - ra),
                rb - ra == b - a,
        ;
    } else {
        let pa = pow2((29 - qa) as nat) as int;
        let pn = pow2((28 - qa) as nat) as int;
        vstd::arithmetic::power2::lemma_pow2_pos((28 - qa) as nat);
        vstd::arithmetic::power2::lemma_pow2_unfold((29 - qa) as nat);
        if 28 - qa > 29 - qb {
            vstd::arithmetic::power2::lemma_pow2_strictly_increases(
                (29 - qb) as nat,
                (28 - qa) as nat,
            );
        }
        assert(pa == 2 * pn && pn >= pb);
        let mid = (qa + 1) * s;
        assert(mid / s == qa + 1 && mid % s == 0 && a < mid <= b) by (nonlinear_arith)
            requires
                mid == (qa + 1) * s,
                s == 1_000_000_000,
                a == qa * s + ra,
                b == qb * s + rb,
                0 <= ra < s,
                0 <= rb,
                qa < qb,
        ;
        // The end of one octave is the start of the next.
        lemma_fraction_line_slope(ra, s);
        lemma_knot_ends();
        assert(fraction_line(s) == knot(100) * SEGMENT) by {
            assert(s / (SEGMENT as int) == 100 && s % (SEGMENT as int) == 0);
            assert((knot(100) - knot(101)) * 0 == 0) by (nonlinear_arith);
        }
        assert(fraction_line(0) == knot(0) * SEGMENT) by {
            assert((knot(0) - knot(1)) * 0 == 0) by (nonlinear_arith);
        }
        assert(curve_line(mid) == fraction_line(s) * pa) by (nonlinear_arith)
            requires
                curve_line(mid) == fraction_line(0) * pn,
                fraction_line(0) == 1_000_000_000 * SEGMENT,
                fraction_line(s) == 500_000_000 * SEGMENT,
                pa == 2 * pn,
        ;
        let x = fraction_line(ra) - fraction_line(s);
        let y = MIN_DROP * (s - ra);
        assert(x * pa >= y * pb) by (nonlinear_arith)
            requires
                x >= y,
                y >= 0,
                pa >= pb,
                pb > 0,
        ;
        assert(y >= 0) by (nonlinear_arith)
            requires
                y == MIN_DROP * (s - ra),
                ra < s,
        ;
        assert(curve_line(a) - curve_line(mid) == x * pa) by (nonlinear_arith)
            requires
                curve_line(a) == fraction_line(ra) * pa,
                curve_line(mid) == fraction_line(s) * pa,
                x == fraction_line(ra) - fraction_line(s),
        ;
        lemma_curve_line_slope(mid, b);
        assert(y * pb + MIN_DROP * pb * (b - mid) == MIN_DROP * pb * (b - a)) by (nonlinear_arith)
            requires
                y == MIN_DROP * (s - ra),
                mid - a == s - ra,
        ;
    }
}

/// The rounded curve is within one unit of its line.
pub proof fn lemma_curve_line_rounding(h: int)
    requires
        0 <= h,
        h / (SCALE as int) <= 29,
    ensures
        curve_line(h) - SEGMENT * pow2(29) < decay_curve(h) * (SEGMENT * pow2(29)) < curve_line(h)
            + SEGMENT * pow2(29),
{
    let s = SCALE as int;
    let w = SEGMENT as int;
    let q = h / s;
    let r = h % s;
    assert(0 <= q && 0 <= r < s) by (nonlinear_arith)
        requires
            0 <= h,
            s == 1_000_000_000,
            q == h / s,
            r == h % s,
    ;
    let p = pow2(q as nat) as int;
    let pc = pow2((29 - q) as nat) as int;
    let big = pow2(29) as int;
    vstd::arithmetic::power2::lemma_pow2_pos(q as nat);
    vstd::arithmetic::power2::lemma_pow2_pos((29 - q) as nat);
    vstd::arithmetic::power2::lemma_pow2_adds(q as nat, (29 - q) as nat);
    assert(p * pc == big);
    let t = fraction_factor(r);
    let line = fraction_line(r);
    lemma_fraction_line_rounding(r);
    lemma_fraction_factor_bounds(r);
    let c = decay_curve(h);
    assert(c == t / p) by {
        if h == 0 {
            vstd::arithmetic::power2::lemma2_to64();
        }
    }
    assert(t - p < c * p <= t) by (nonlinear_arith)
        requires
            c == t / p,
            p > 0,
            t >= 0,
    ;
    // From above: c * p <= t and t * w < line + w.
    assert(c * (w * big) < line * pc + w * big) by (nonlinear_arith)
        requires
            c * p <= t,
            t * w < line + w,
            p * pc == big,
            p >= 1,
            pc >= 1,
            w > 0,
            c >= 0,
    ;
    // From below: c * p >= t - p + 1 and t * w >= line.
    assert(c * (w * big) > line * pc - w * big) by (nonlinear_arith)
        requires
            c * p >= t - p + 1,
            t * w >= line,
            p * pc == big,
            p >= 1,
            pc >= 1,
            w > 0,
    ;
    assert(c >= 0) by (nonlinear_arith)
        requires
            c == t / p,
            t >= 0,
            p > 0,
    ;
}

/// Two exponents far enough apart give different factors: the larger
/// exponent gives the strictly smaller factor when the gap, measured
/// against the slope, makes up for the rounding in its octave.
pub proof fn lemma_decay_curve_strict(a: int, b: int)
    requires
        0 <= a <= b,
        b / (SCALE as int) <= 29,
        MIN_DROP * (b - a) >= 2 * SEGMENT * pow2((b / (SCALE as int)) as nat),
    ensures
        decay_curve(a) > decay_curve(b),
{
    let s = SCALE as int;
    let w = SEGMENT as int;
    let qb = b / s;
    assert(0 <= a / s <= qb) by (nonlinear_arith)
        requires
            0 <= a <= b,
            s == 1_000_000_000,
            qb == b / s,
    ;
    lemma_curve_line_slope(a, b);
    lemma_curve_line_rounding(a);
    lemma_curve_line_rounding(b);
    let pq = pow2(qb as nat) as int;
    let pc = pow2((29 - qb) as nat) as int;
    let big = pow2(29) as int;
    vstd::arithmetic::power2::lemma_pow2_pos(qb as nat);
    vstd::arithmetic::power2::lemma_pow2_pos((29 - qb) as nat);
    vstd::arithmetic::power2::lemma_pow2_pos(29);
    vstd::arithmetic::power2::lemma_pow2_adds(qb as nat, (29 - qb) as nat);
    let k = w * big;
    let gap = MIN_DROP * pc * (b - a);
    assert(gap >= 2 * k) by (nonlinear_arith)
        requires
            gap == MIN_DROP * pc * (b - a),
            MIN_DROP * (b - a) >= 2 * w * pq,
            pq * pc == big,
            k == w * big,
            pc >= 1,
    ;
    let ca = decay_curve(a);
    let cb = decay_curve(b);
    assert(ca * k > cb * k);
    assert(ca > cb) by (nonlinear_arith)
        requires
            ca * k > cb * k,
            k > 0,
    ;
}

/// Facts decay strictly slower than episodes: with the documented decay
/// constants, after any elapsed time of at least one second, and as long as
/// a fact keeps anything at all, a fact keeps a strictly larger fraction of
/// its strength than an episode does.
pub proof fn lemma_fact_decays_strictly_slower(
    policy: Policy,
    fact: MemoryKindView,
    episode: MemoryKindView,
    secs: int,
)
    requires
        policy.fact_decay_lambda_per_day == FACT_DECAY_LAMBDA_PER_DAY,
        policy.episode_decay_lambda_per_day == EPISODE_DECAY_LAMBDA_PER_DAY,
        fact is Fact,
        episode is Episode,
        secs >= 1,
        decay_factor(policy, fact, secs) >= 1,
    ensures
        decay_factor(policy, fact, secs) > decay_factor(policy, episode, secs),
        decayed(policy, SCALE as int, fact, secs) > decayed(policy, SCALE as int, episode, secs),
{
    let s = SCALE as int;
    let d = (SECONDS_PER_DAY * SCALE) as int;
    let x = FACT_DECAY_LAMBDA_PER_DAY * secs * LOG2_E;
    let a = half_lives(decay_lambda(policy, fact), secs);
    let b = half_lives(decay_lambda(policy, episode), secs);
    assert(EPISODE_DECAY_LAMBDA_PER_DAY * secs * LOG2_E == 3 * x) by (nonlinear_arith)
        requires
            x == FACT_DECAY_LAMBDA_PER_DAY * secs * LOG2_E,
            EPISODE_DECAY_LAMBDA_PER_DAY == 3 * FACT_DECAY_LAMBDA_PER_DAY,
    ;
    assert(x >= 28_853_900_820_000_000) by (nonlinear_arith)
        requires
            x == 20_000_000 * secs * 1_442_695_041,
            secs >= 1,
    ;
    assert(a >= 333 && b >= 3 * a) by (nonlinear_arith)
        requires
            a == x / d,
            b == (3 * x) / d,
            d == 86_400_000_000_000,
            x >= 28_853_900_820_000_000,
    ;
    lemma_decay_curve_bounds(a);
    lemma_decay_curve_bounds(b);
    let qb = b / s;
    assert(0 <= qb && b >= qb * s) by (nonlinear_arith)
        requires
            qb == b / s,
            b >= 999,
            s == 1_000_000_000,
    ;
    if qb <= 29 {
        let pq = pow2(qb as nat) as int;
        vstd::arithmetic::power2::lemma2_to64();
        if qb <= 4 {
            if qb < 4 {
                vstd::arithmetic::power2::lemma_pow2_strictly_increases(qb as nat, 4);
            }
            assert(pq <= 16);
        } else {
            if qb < 29 {
                vstd::arithmetic::power2::lemma_pow2_strictly_increases(qb as nat, 29);
            }
            assert(pq <= 536_870_912);
            assert(b >= 5_000_000_000) by (nonlinear_arith)
                requires
                    b >= qb * s,
                    qb >= 5,
                    s == 1_000_000_000,
            ;
        }
        assert(MIN_DROP * (b - a) >= 2 * SEGMENT * pq) by (nonlinear_arith)
            requires
                MIN_DROP == 3_477_775,
                SEGMENT == 10_000_000,
                b >= 3 * a,
                a >= 333,
                (pq <= 16) || (pq <= 536_870_912 && b >= 5_000_000_000),
                pq >= 0,
        ;
        lemma_decay_curve_strict(a, b);
    }
    lemma_decay_factor_bounds(policy, fact, secs);
    lemma_decay_factor_bounds(policy, episode, secs);
    let ff = decay_factor(policy, fact, secs);
    let fe = decay_factor(policy, episode, secs);
    assert(s * ff / s == ff && s * fe / s == fe) by (nonlinear_arith)
        requires
            s > 0,
    ;
}

/// With equal stored strength, a fact is strictly stronger than an episode
/// after equal elapsed time whenever the strength is large enough for the
/// difference between the two factors to show.
pub proof fn lemma_fact_strictly_stronger(
    policy: Policy,
    strength: int,
    fact: MemoryKindView,
    episode: MemoryKindView,
    secs: int,
)
    requires
        fact is Fact,
        episode is Episode,
        0 <= strength <= SCALE,
        secs >= 1,
        strength * (decay_factor(policy, fact, secs) - decay_factor(policy, episode, secs))
            >= SCALE,
    ensures
        decayed(policy, strength, fact, secs) > decayed(policy, strength, episode, secs),
{
    lemma_decay_factor_bounds(policy, fact, secs);
    lemma_decay_factor_bounds(policy, episode, secs);
    let ff = decay_factor(policy, fact, secs);
    let fe = decay_factor(policy, episode, secs);
    let s = SCALE as int;
    assert(strength * ff / s > strength * fe / s && strength * ff / s <= s) by (nonlinear_arith)
        requires
            strength * (ff - fe) >= s,
            0 <= strength <= s,
            0 <= fe,
            ff <= s,
            s > 0,
    ;
}

/// Touch is decay, then reinforcement: the strength after a touch is at
/// least the boost and at least what decay left, it is never more than one,
/// and it is below one exactly when what decay left and the boost together
/// are. The boost is added to what is left; it never resets the strength.
pub proof fn lemma_touch_adds_to_decayed(policy: Policy, m: MemoryView, now: int)
    requires
        policy.wf(),
    ensures
        touch_boost_of(policy, m.kind) <= touched_strength_at(policy, m, now) <= SCALE,
        effective_strength_at(policy, m, now) <= touched_strength_at(policy, m, now),
        touched_strength_at(policy, m, now) < SCALE <==> effective_strength_at(policy, m, now)
            + touch_boost_of(policy, m.kind) < SCALE,
        touched_strength_at(policy, m, now) > touch_boost_of(policy, m.kind)
            <==> effective_strength_at(policy, m, now) >= 1 && touch_boost_of(policy, m.kind)
            < SCALE,
{
    let secs = elapsed_seconds(now, m.last_accessed_at);
    lemma_decay_factor_bounds(policy, m.kind, secs);
    let f = decay_factor(policy, m.kind, secs);
    let s = SCALE as int;
    assert(0 <= m.strength * f / s) by (nonlinear_arith)
        requires
            0 <= m.strength,
            0 <= f,
            s > 0,
    ;
}

/// Long neglect shows through reinforcement: under the documented policy an
/// episode that has not been accessed for thirty days or more, whatever its
/// stored strength, is left with less than 0.366 after being recalled.
pub proof fn lemma_dormant_episode_stays_weak(policy: Policy, m: MemoryView, now: int)
    requires
        policy.episode_decay_lambda_per_day == EPISODE_DECAY_LAMBDA_PER_DAY,
        policy.episode_touch_boost == crate::policy::EPISODE_TOUCH_BOOST,
        m.kind is Episode,
        m.strength <= SCALE,
        now - m.last_accessed_at >= 30 * SECONDS_PER_DAY,
    ensures
        200_000_000 <= touched_strength_at(policy, m, now) <= 365_299_745,
{
    let secs = elapsed_seconds(now, m.last_accessed_at);
    let month = 30 * SECONDS_PER_DAY as int;
    let lambda = EPISODE_DECAY_LAMBDA_PER_DAY as int;
    lemma_half_lives_ordered(lambda, month, lambda, secs);
    lemma_decay_curve_ordered(half_lives(lambda, month), half_lives(lambda, secs));
    lemma_decay_factor_bounds(policy, m.kind, secs);
    assert(half_lives(lambda, month) == 2_596_851_073) by (nonlinear_arith)
        requires
            lambda == 60_000_000,
            month == 2_592_000,
            LOG2_E == 1_442_695_041,
            SECONDS_PER_DAY == 86_400,
            SCALE == 1_000_000_000,
    ;
    assert(decay_curve(2_596_851_073) == 165_299_745) by {
        reveal(knot);
        vstd::arithmetic::power2::lemma2_to64();
        assert(2_596_851_073int / 1_000_000_000 == 2);
        assert(2_596_851_073int % 1_000_000_000 == 596_851_073);
        assert(596_851_073int / 10_000_000 == 59);
        assert(596_851_073int % 10_000_000 == 6_851_073);
        assert(knot(59) == 664_342_907 && knot(60) == 659_753_955);
        assert((664_342_907int - 659_753_955) * 6_851_073 / 10_000_000 == 3_143_924);
        assert(fraction_factor(596_851_073) == 661_198_983);
        assert(pow2(2) == 4);
        assert(661_198_983int / 4 == 165_299_745);
        assert(decay_curve(2_596_851_073) == fraction_factor(596_851_073) / (pow2(2) as int));
    }
    let f = decay_factor(policy, m.kind, secs);
    let s = SCALE as int;
    assert(0 <= m.strength * f / s <= 165_299_745) by (nonlinear_arith)
        requires
            0 <= m.strength <= s,
            0 <= f <= 165_299_745,
            s == 1_000_000_000,
    ;
}

/// How far apart two factors are: when the gap between two exponents,
/// measured against the slope, makes up for the rounding in the octave of
/// the larger and for `g` units more, the factors differ by more than `g`.
pub proof fn lemma_decay_curve_gap(a: int, b: int, g: int)
    requires
        0 <= a <= b,
        b / (SCALE as int) <= 29,
        0 <= g,
        MIN_DROP * (b - a) >= (g + 2) * SEGMENT * pow2((b / (SCALE as int)) as nat),
    ensures
        decay_curve(a) > decay_curve(b) + g,
{
    let s = SCALE as int;
    let w = SEGMENT as int;
    let qb = b / s;
    assert(0 <= a / s <= qb) by (nonlinear_arith)
        requires
            0 <= a <= b,
            s == 1_000_000_000,
            qb == b / s,
    ;
    lemma_curve_line_slope(a, b);
    lemma_curve_line_rounding(a);
    lemma_curve_line_rounding(b);
    let pq = pow2(qb as nat) as int;
    let pc = pow2((29 - qb) as nat) as int;
    let big = pow2(29) as int;
    vstd::arithmetic::power2::lemma_pow2_pos(qb as nat);
    vstd::arithmetic::power2::lemma_pow2_pos((29 - qb) as nat);
    vstd::arithmetic::power2::lemma_pow2_pos(29);
    vstd::arithmetic::power2::lemma_pow2_adds(qb as nat, (29 - qb) as nat);
    let k = w * big;
    let gap = MIN_DROP * pc * (b - a);
    assert(gap >= (g + 2) * k) by (nonlinear_arith)
        requires
            gap == MIN_DROP * pc * (b - a),
            MIN_DROP * (b - a) >= (g + 2) * w * pq,
            pq * pc == big,
            k == w * big,
            pc >= 1,
    ;
    let ca = decay_curve(a);
    let cb = decay_curve(b);
    assert(ca * k > cb * k + g * k) by (nonlinear_arith)
        requires
            curve_line(a) - k < ca * k,
            cb * k < curve_line(b) + k,
            curve_line(a) - curve_line(b) >= gap,
            gap >= (g + 2) * k,
    ;
    assert(ca > cb + g) by (nonlinear_arith)
        requires
            ca * k > cb * k + g * k,
            k > 0,
    ;
}

/// Facts decay strictly slower than episodes at every strength that a sweep
/// would keep: with the documented decay constants, for equal stored
/// strength of at least 0.01 and equal elapsed time of at least one second,
/// a fact is strictly stronger than an episode, as long as the fact keeps
/// at least 115 billionths of its strength (some 23 of its half-lives).
pub proof fn lemma_fact_stronger_above_floor(
    policy: Policy,
    strength: int,
    fact: MemoryKindView,
    episode: MemoryKindView,
    secs: int,
)
    requires
        policy.fact_decay_lambda_per_day == FACT_DECAY_LAMBDA_PER_DAY,
        policy.episode_decay_lambda_per_day == EPISODE_DECAY_LAMBDA_PER_DAY,
        fact is Fact,
        episode is Episode,
        crate::policy::DEFAULT_PRUNE_FLOOR <= strength <= SCALE,
        secs >= 1,
        decay_factor(policy, fact, secs) >= 115,
    ensures
        decay_factor(policy, fact, secs) > decay_factor(policy, episode, secs) + 100,
        decayed(policy, strength, fact, secs) > decayed(policy, strength, episode, secs),
{
    let s = SCALE as int;
    let d = (SECONDS_PER_DAY * SCALE) as int;
    let x = FACT_DECAY_LAMBDA_PER_DAY * secs * LOG2_E;
    let a = half_lives(decay_lambda(policy, fact), secs);
    let b = half_lives(decay_lambda(policy, episode), secs);
    assert(EPISODE_DECAY_LAMBDA_PER_DAY * secs * LOG2_E == 3 * x) by (nonlinear_arith)
        requires
            x == FACT_DECAY_LAMBDA_PER_DAY * secs * LOG2_E,
            EPISODE_DECAY_LAMBDA_PER_DAY == 3 * FACT_DECAY_LAMBDA_PER_DAY,
    ;
    assert(x >= 28_853_900_820_000_000) by (nonlinear_arith)
        requires
            x == 20_000_000 * secs * 1_442_695_041,
            secs >= 1,
    ;
    assert(a >= 333 && b >= 3 * a) by (nonlinear_arith)
        requires
            a == x / d,
            b == (3 * x) / d,
            d == 86_400_000_000_000,
            x >= 28_853_900_820_000_000,
    ;
    lemma_decay_curve_bounds(a);
    lemma_decay_curve_bounds(b);
    let ff = decay_curve(a);
    let fe = decay_curve(b);
    let qb = b / s;
    let rb = b % s;
    assert(0 <= qb && b >= qb * s && 0 <= rb < s) by (nonlinear_arith)
        requires
            qb == b / s,
            rb == b % s,
            b >= 999,
            s == 1_000_000_000,
    ;
    vstd::arithmetic::power2::lemma2_to64();
    if qb <= 25 {
        let pq = pow2(qb as nat) as int;
        if qb == 0 {
            assert(pq == 1);
        } else if qb <= 20 {
            if qb < 20 {
                vstd::arithmetic::power2::lemma_pow2_strictly_increases(qb as nat, 20);
            }
            assert(pq <= 1_048_576);
            assert(b >= 1_000_000_000);
        } else {
            if qb < 25 {
                vstd::arithmetic::power2::lemma_pow2_strictly_increases(qb as nat, 25);
            }
            assert(pq <= 33_554_432);
            assert(b >= 21_000_000_000) by (nonlinear_arith)
                requires
                    b >= qb * s,
                    qb >= 21,
                    s == 1_000_000_000,
            ;
        }
        assert(MIN_DROP * (b - a) >= (100 + 2) * SEGMENT * pq) by (nonlinear_arith)
            requires
                MIN_DROP == 3_477_775,
                SEGMENT == 10_000_000,
                b >= 3 * a,
                a >= 333,
                (pq == 1) || (pq <= 1_048_576 && b >= 1_000_000_000) || (pq <= 33_554_432 && b
                    >= 21_000_000_000),
                pq >= 1,
        ;
        lemma_decay_curve_gap(a, b, 100);
    } else if qb < MAX_HALVINGS {
        // So late an episode keeps at most fourteen units.
        lemma_fraction_factor_bounds(rb);
        let pq = pow2(qb as nat) as int;
        if qb > 26 {
            vstd::arithmetic::power2::lemma_pow2_strictly_increases(26, qb as nat);
        }
        assert(pq >= 67_108_864);
        let f = fraction_factor(rb);
        assert(f / pq <= 14) by (nonlinear_arith)
            requires
                0 <= f <= 1_000_000_000,
                pq >= 67_108_864,
        ;
        assert(fe == f / pq);
    }
    assert(ff > fe + 100);
    assert(strength * (ff - fe) >= s) by (nonlinear_arith)
        requires
            strength >= 10_000_000,
            ff - fe >= 101,
            s == 1_000_000_000,
    ;
    lemma_fact_strictly_stronger(policy, strength, fact, episode, secs);
}

} // verus!
