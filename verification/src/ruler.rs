//! The spacing of the gridlines on the time ruler.
//!
//! The time that the wanted distance between two gridlines stands for is
//! `span * target / width`. The step is the largest of 1, 2 and 5 times a
//! power of ten that this "raw" step reaches: with `base` the largest power of
//! ten not above it, the step is `base` while the raw step is below
//! `2 * base`, `2 * base` while it is below `5 * base`, and `5 * base` from
//! there on. No step is shorter than a nanosecond.

use crate::arith::{floor_div, lemma_pow10_18, lemma_pow10_grows, pow10};
use vstd::prelude::*;

verus! {

/// The largest exponent of a base: ten to the 18th, times five, still fits
/// in an `i64`.
pub const MAX_EXPONENT: u32 = 18;

/// A step of the ruler and the power of ten that it is a multiple of.
#[derive(Clone, Copy, Debug, PartialEq, Eq, Structural)]
pub struct TickStep {
    /// The exponent of `base`.
    pub exponent: u32,
    /// A power of ten.
    pub base: i64,
    /// `base`, twice `base` or five times `base`.
    pub step: i64,
}

/// The step that belongs to a base: `raw = product / width` is compared with
/// twice and five times the base without dividing.
pub open spec fn step_for(base: int, product: int, width: int) -> int {
    if product < 2 * base * width {
        base
    } else if product < 5 * base * width {
        2 * base
    } else {
        5 * base
    }
}

/// The step of the ruler for a view that shows `span` nanoseconds on
/// `width` screen units, with gridlines about `target` units apart.
///
/// `base` is the largest power of ten, up to the 18th, that the raw step
/// `span * target / width` reaches, and one where it reaches none.
pub fn tick_step(span: u64, target: i32, width: i32) -> (t: TickStep)
    requires
        target > 0,
        width > 0,
    ensures
        t.exponent <= MAX_EXPONENT,
        t.base == pow10(t.exponent as nat),
        t.exponent > 0 ==> t.base * width <= span * target,
        t.exponent < MAX_EXPONENT ==> span * target < 10 * t.base * width,
        t.step == step_for(t.base as int, span * target, width as int),
{
    assert(0 <= span * target < 0x8000_0000_0000_0000_0000_0000) by (nonlinear_arith)
        requires
            0 <= span < 0x1_0000_0000_0000_0000,
            0 < target < 0x8000_0000,
    ;
    let product: i128 = (span as i128) * (target as i128);
    let w: i128 = width as i128;
    let mut base: i64 = 1;
    let mut exponent: u32 = 0;
    // `reach` is `base * width`: the product that a raw step of `base` gives.
    let mut reach: i128 = w;
    proof {
        lemma_pow10_18();
    }
    while exponent < MAX_EXPONENT && reach * 10 <= product
        invariant
            exponent <= MAX_EXPONENT,
            base == pow10(exponent as nat),
            1 <= base <= pow10(18),
            pow10(18) == 1_000_000_000_000_000_000,
            0 < w < 0x8000_0000,
            reach == base * w,
            0 < reach <= product || exponent == 0,
            0 < reach <= 0x8000_0000_0000_0000_0000_0000,
            0 <= product < 0x8000_0000_0000_0000_0000_0000,
            exponent > 0 ==> base * w <= product,
        decreases MAX_EXPONENT - exponent,
    {
        proof {
            lemma_pow10_grows((exponent + 1) as nat, 18);
            assert((base * 10) * w == (base * w) * 10) by (nonlinear_arith);
            assert((base * 10) * w <= 0x8000_0000_0000_0000_0000_0000) by (nonlinear_arith)
                requires
                    1 <= base * 10 <= 1_000_000_000_000_000_000,
                    0 < w < 0x8000_0000,
            ;
        }
        base = base * 10;
        reach = reach * 10;
        exponent = exponent + 1;
    }
    proof {
        assert(2 * base * width == 2 * reach && 5 * base * width == 5 * reach && 10 * base * width
            == 10 * reach) by (nonlinear_arith)
            requires
                reach == base * w,
                w == width,
        ;
    }
    let step: i64 = if product < 2 * reach {
        base
    } else if product < 5 * reach {
        2 * base
    } else {
        5 * base
    };
    TickStep { exponent, base, step }
}

/// The smallest multiple of `step` that is not before `start`, if it is
/// still an instant that an `i64` can hold.
pub open spec fn first_tick_of(start: int, step: int) -> int {
    -((-start) / step) * step
}

/// The first gridline of a view that begins at `start`.
pub fn first_tick(start: i64, step: i64) -> (tick: Option<i64>)
    requires
        step > 0,
    ensures
        match tick {
            Some(t) => t == first_tick_of(start as int, step as int),
            None => first_tick_of(start as int, step as int) > i64::MAX,
        },
        start <= first_tick_of(start as int, step as int) < start + step,
        first_tick_of(start as int, step as int) % (step as int) == 0,
{
    let q: i128 = floor_div(-(start as i128), step as i128);
    proof {
        let a = -(start as int);
        let d = step as int;
        assert(a == d * (a / d) + a % d && 0 <= a % d < d) by {
            vstd::arithmetic::div_mod::lemma_fundamental_div_mod(a, d);
        }
        assert(q * step == a - a % d) by (nonlinear_arith)
            requires
                a == d * q + a % d,
                d == step,
        ;
        assert(first_tick_of(start as int, d) == -(q * d)) by (nonlinear_arith)
            requires
                first_tick_of(start as int, d) == -q * d,
        ;
        assert((-(q * d)) % d == 0) by {
            vstd::arithmetic::div_mod::lemma_mod_multiples_basic(-q, d);
            assert((-q) * d == -(q * d)) by (nonlinear_arith);
        }
    }
    let t: i128 = -(q * (step as i128));
    if t <= i64::MAX as i128 {
        Some(t as i64)
    } else {
        None
    }
}

} // verus!
