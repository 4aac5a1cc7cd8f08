//! Unsigned integers of 256 bits, as far as the similarity of long vectors
//! needs them: exact products and comparisons.

use vstd::prelude::*;

verus! {

/// `2^64`: numbers are multiplied in halves of this size.
pub const LIMB: u128 = 0x1_0000_0000_0000_0000;

/// A number below `2^256`, in two halves.
#[derive(Clone, Copy, Debug, PartialEq, Eq, Structural)]
pub struct Wide {
    pub hi: u128,
    pub lo: u128,
}

/// `2^128`.
pub open spec fn two_to_128() -> int {
    u128::MAX as int + 1
}

/// `2^128` is the square of `2^64`.
pub proof fn lemma_limb_squared()
    ensures
        LIMB * LIMB == two_to_128(),
{
    assert(0x1_0000_0000_0000_0000int * 0x1_0000_0000_0000_0000int
        == 0xffff_ffff_ffff_ffff_ffff_ffff_ffff_ffffint + 1) by (nonlinear_arith);
}

impl Wide {
    /// The number held: `hi * 2^128 + lo`.
    pub open spec fn value(self) -> int {
        self.hi * two_to_128() + self.lo
    }
}

/// Adds two numbers below `2^128` and reports whether the sum reached `2^128`.
fn add_with_carry(a: u128, b: u128) -> (r: (u128, u128))
    ensures
        r.1 <= 1,
        r.1 * two_to_128() + r.0 == a + b,
{
    if a > u128::MAX - b {
        (a - (u128::MAX - b) - 1, 1)
    } else {
        (a + b, 0)
    }
}

/// The product of a number below `2^128` and a number below `2^64`.
pub fn times_limb(x: u128, y: u64) -> (w: Wide)
    ensures
        w.value() == x * y,
        w.hi < LIMB,
{
    let x0: u128 = x % LIMB;
    let x1: u128 = x / LIMB;
    proof {
        assert(x0 * y <= 0xffff_ffff_ffff_ffff * 0xffff_ffff_ffff_ffff) by (nonlinear_arith)
            requires
                0 <= x0 <= 0xffff_ffff_ffff_ffff,
                0 <= y <= 0xffff_ffff_ffff_ffff,
        ;
        assert(x1 * y <= 0xffff_ffff_ffff_ffff * 0xffff_ffff_ffff_ffff) by (nonlinear_arith)
            requires
                0 <= x1 <= 0xffff_ffff_ffff_ffff,
                0 <= y <= 0xffff_ffff_ffff_ffff,
        ;
    }
    let lower: u128 = x0 * (y as u128);
    let upper: u128 = x1 * (y as u128);
    let c1: u128 = upper / LIMB;
    let d1: u128 = upper % LIMB;
    let (lo, carry) = add_with_carry(d1 * LIMB, lower);
    proof {
        lemma_limb_squared();
        assert(x * y == upper * LIMB + lower) by (nonlinear_arith)
            requires
                x == x1 * LIMB + x0,
                lower == x0 * y,
                upper == x1 * y,
        ;
        assert(upper * LIMB == c1 * two_to_128() + d1 * LIMB) by (nonlinear_arith)
            requires
                upper == c1 * LIMB + d1,
                LIMB * LIMB == two_to_128(),
        ;
    }
    Wide { hi: c1 + carry, lo }
}

/// The product of two numbers below `2^96`.
pub fn product(x: u128, y: u128) -> (w: Wide)
    requires
        x < 0x1_0000_0000_0000_0000_0000_0000,
        y < 0x1_0000_0000_0000_0000_0000_0000,
    ensures
        w.value() == x * y,
        w.hi < LIMB,
{
    let y0: u64 = (y % LIMB) as u64;
    let y1: u128 = y / LIMB;
    let low = times_limb(x, y0);
    proof {
        assert(x * y1 < 0x1_0000_0000_0000_0000_0000_0000 * 0x1_0000_0000) by (nonlinear_arith)
            requires
                0 <= x < 0x1_0000_0000_0000_0000_0000_0000,
                0 <= y1 < 0x1_0000_0000,
        ;
    }
    let m: u128 = x * y1;
    let mh: u128 = m / LIMB;
    let ml: u128 = m % LIMB;
    let (lo, carry) = add_with_carry(ml * LIMB, low.lo);
    proof {
        lemma_limb_squared();
        assert(x * y == m * LIMB + x * y0) by (nonlinear_arith)
            requires
                y == y1 * LIMB + y0,
                m == x * y1,
        ;
        assert(m * LIMB == mh * two_to_128() + ml * LIMB) by (nonlinear_arith)
            requires
                m == mh * LIMB + ml,
                LIMB * LIMB == two_to_128(),
        ;
        let t = two_to_128();
        let hi = mh + low.hi + carry;
        assert(hi * t + lo == x * y) by (nonlinear_arith)
            requires
                hi == mh + low.hi + carry,
                x * y == m * LIMB + x * y0,
                m * LIMB == mh * t + ml * LIMB,
                low.hi * t + low.lo == x * y0,
                carry * t + lo == ml * LIMB + low.lo,
        ;
        assert(x * y < LIMB * t) by (nonlinear_arith)
            requires
                0 <= x < 0x1_0000_0000_0000_0000_0000_0000,
                0 <= y < 0x1_0000_0000_0000_0000_0000_0000,
                LIMB == 0x1_0000_0000_0000_0000,
                t == 0xffff_ffff_ffff_ffff_ffff_ffff_ffff_ffff + 1,
        ;
        assert(hi < LIMB) by (nonlinear_arith)
            requires
                hi * t + lo == x * y,
                x * y < LIMB * t,
                lo >= 0,
                t > 0,
        ;
    }
    Wide { hi: mh + low.hi + carry, lo }
}

/// A wide number times a number below `2^64`.
pub fn scaled(w: Wide, c: u64) -> (r: Wide)
    requires
        w.hi < LIMB,
    ensures
        r.value() == w.value() * c,
{
    let low = times_limb(w.lo, c);
    proof {
        assert(w.hi * c <= 0xffff_ffff_ffff_ffff * 0xffff_ffff_ffff_ffff) by (nonlinear_arith)
            requires
                0 <= w.hi <= 0xffff_ffff_ffff_ffff,
                0 <= c <= 0xffff_ffff_ffff_ffff,
        ;
        let t = two_to_128();
        assert((w.hi * t + w.lo) * c == (w.hi * c) * t + w.lo * c) by (nonlinear_arith);
    }
    let high: u128 = w.hi * (c as u128);
    Wide { hi: high + low.hi, lo: low.lo }
}

/// Whether the first number is the greater.
pub fn exceeds(a: Wide, b: Wide) -> (r: bool)
    ensures
        r == (a.value() > b.value()),
{
    proof {
        let t = two_to_128();
        if a.hi > b.hi {
            assert(a.hi * t >= b.hi * t + t) by (nonlinear_arith)
                requires
                    a.hi >= b.hi + 1,
                    t > 0,
            ;
        }
        if a.hi < b.hi {
            assert(b.hi * t >= a.hi * t + t) by (nonlinear_arith)
                requires
                    b.hi >= a.hi + 1,
                    t > 0,
            ;
        }
    }
    a.hi > b.hi || (a.hi == b.hi && a.lo > b.lo)
}

} // verus!
