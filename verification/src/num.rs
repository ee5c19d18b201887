//! Decimal numbers for the script format, and the fixed-point conversions
//! between script values and wire values.
//!
//! A script number is carried exactly as a sign, a decimal mantissa and a
//! fractional scale (at most [`MAX_SCALE`] digits; further digits are
//! truncated toward zero when parsed). Angles quantize through the scaled
//! constant [`PI_SCALED`], which holds pi to fifteen decimal digits: a wire
//! angle unit is pi/32768 radians.

use vstd::prelude::*;

verus! {

/// Greatest fractional scale a parsed number keeps.
pub const MAX_SCALE: u8 = 15;

/// pi scaled by ten to the fifteenth, rounded down.
pub const PI_SCALED: u64 = 3141592653589793;

/// A decimal number: `(if neg { -1 } else { 1 }) * mant / 10^scale`.
#[derive(Debug, Clone, Copy, PartialEq)]
pub struct Num {
    pub neg: bool,
    pub mant: u64,
    pub scale: u8,
}

/// Ten to the `e`.
pub open spec fn pow10(e: nat) -> nat
    decreases e,
{
    if e == 0 {
        1
    } else {
        10 * pow10((e - 1) as nat)
    }
}

impl Num {
    /// Shape bound kept by the parser: the scale stays at or below
    /// [`MAX_SCALE`].
    pub open spec fn wf(self) -> bool {
        self.scale <= 15
    }
}

/// Ten to the `e`, executable for small exponents.
pub fn pow10_u64(e: u8) -> (r: u64)
    requires
        e <= 15,
    ensures
        r == pow10(e as nat),
        r >= 1,
{
    let mut r: u64 = 1;
    let mut i: u8 = 0;
    while i < e
        invariant
            i <= e <= 15,
            r == pow10(i as nat),
            r <= 1000000000000000,
        decreases e - i,
    {
        proof {
            lemma_pow10_bound(i as nat);
            lemma_pow10_bound((i + 1) as nat);
        }
        r = r * 10;
        i = i + 1;
    }
    proof {
        lemma_pow10_bound(e as nat);
    }
    r
}

/// The values of `pow10` up to the fifteenth power.
pub proof fn lemma_pow10_values()
    ensures
        pow10(0) == 1,
        pow10(1) == 10,
        pow10(2) == 100,
        pow10(3) == 1000,
        pow10(4) == 10000,
        pow10(5) == 100000,
        pow10(6) == 1000000,
        pow10(7) == 10000000,
        pow10(8) == 100000000,
        pow10(9) == 1000000000,
        pow10(10) == 10000000000,
        pow10(11) == 100000000000,
        pow10(12) == 1000000000000,
        pow10(13) == 10000000000000,
        pow10(14) == 100000000000000,
        pow10(15) == 1000000000000000,
{
    assert(pow10(0) == 1);
    assert(pow10(1) == 10);
    assert(pow10(2) == 100);
    assert(pow10(3) == 1000);
    assert(pow10(4) == 10000);
    assert(pow10(5) == 100000);
    assert(pow10(6) == 1000000);
    assert(pow10(7) == 10000000);
    assert(pow10(8) == 100000000);
    assert(pow10(9) == 1000000000);
    assert(pow10(10) == 10000000000);
    assert(pow10(11) == 100000000000);
    assert(pow10(12) == 1000000000000);
    assert(pow10(13) == 10000000000000);
    assert(pow10(14) == 100000000000000);
    assert(pow10(15) == 1000000000000000);
}

/// Powers of ten multiply by adding exponents.
pub proof fn lemma_pow10_adds(a: nat, b: nat)
    ensures
        pow10(a) * pow10(b) == pow10(a + b),
    decreases a,
{
    if a > 0 {
        lemma_pow10_adds((a - 1) as nat, b);
        let x = pow10((a - 1) as nat);
        let y = pow10(b);
        assert(pow10(a) == 10 * x);
        assert((10 * x) * y == 10 * (x * y)) by (nonlinear_arith);
        assert(pow10(a + b) == 10 * pow10((a + b - 1) as nat));
        assert(x * y == pow10((a - 1 + b) as nat));
    } else {
        let y = pow10(b);
        assert(pow10(0) == 1);
        assert(1 * y == y) by (nonlinear_arith);
    }
}

/// `pow10` stays below ten to the sixteenth for exponents up to fifteen.
pub proof fn lemma_pow10_bound(e: nat)
    requires
        e <= 15,
    ensures
        pow10(e) <= 1000000000000000,
        pow10(e) >= 1,
{
    lemma_pow10_values();
    lemma_pow10_bound_upto(e, 15);
}

/// `pow10` grows with its exponent.
pub proof fn lemma_pow10_bound_upto(a: nat, b: nat)
    requires
        a <= b,
    ensures
        pow10(a) <= pow10(b),
        pow10(a) >= 1,
    decreases b,
{
    if a < b {
        lemma_pow10_bound_upto(a, (b - 1) as nat);
    } else if a > 0 {
        lemma_pow10_bound_upto((a - 1) as nat, (b - 1) as nat);
    }
}

/// Truncation of a number toward zero into a 16-bit count, saturating at
/// the type's bounds; negative values give zero.
pub open spec fn spec_num_u16(n: Num) -> u16 {
    if n.neg {
        0u16
    } else {
        let q = (n.mant as int) / (pow10(n.scale as nat) as int);
        if q > 65535 {
            65535u16
        } else {
            q as u16
        }
    }
}

/// Truncation of a number toward zero into an unsigned count; negative
/// values give zero.
pub open spec fn spec_num_u64(n: Num) -> u64 {
    if n.neg {
        0u64
    } else {
        ((n.mant as int) / (pow10(n.scale as nat) as int)) as u64
    }
}

/// The raw 6-bit wire value of a movement axis: the axis value `v` maps
/// through `floor((v + 1) * 16)`, clamped into the 6-bit range.
pub open spec fn spec_axis_raw(n: Num) -> u8 {
    let p = pow10(n.scale as nat) as int;
    if n.neg {
        if n.mant >= p {
            0u8
        } else {
            ((16 * p - 16 * n.mant) / p) as u8
        }
    } else {
        let q = (16 * n.mant + 16 * p) / p;
        if q > 63 {
            63u8
        } else {
            q as u8
        }
    }
}

/// The raw 16-bit wire value of an angle in radians: negative angles wrap
/// up by two pi, then the value maps through `floor(v * 32768 / pi)` with
/// pi read from [`PI_SCALED`], clamped into the 16-bit range.
pub open spec fn spec_angle_raw(n: Num) -> u16 {
    let units = (n.mant * 32768 * pow10((15 - n.scale) as nat)) as int;
    if !n.neg || n.mant == 0 {
        let q = units / (PI_SCALED as int);
        if q > 65535 {
            65535u16
        } else {
            q as u16
        }
    } else {
        let c = (units + (PI_SCALED - 1)) / (PI_SCALED as int);
        if c >= 65536 {
            0u16
        } else {
            (65536 - c) as u16
        }
    }
}

/// Truncates a number toward zero into a 16-bit count, saturating.
pub fn num_u16(n: Num) -> (r: u16)
    requires
        n.wf(),
    ensures
        r == spec_num_u16(n),
{
    if n.neg {
        0
    } else {
        let q = n.mant / pow10_u64(n.scale);
        if q > 65535 {
            65535
        } else {
            q as u16
        }
    }
}

/// Truncates a number toward zero into an unsigned count.
pub fn num_u64(n: Num) -> (r: u64)
    requires
        n.wf(),
    ensures
        r == spec_num_u64(n),
{
    if n.neg {
        0
    } else {
        n.mant / pow10_u64(n.scale)
    }
}

/// Maps a movement axis value to its raw 6-bit wire value, clamping values
/// outside [-1.0, 0.9375].
pub fn axis_raw(n: Num) -> (r: u8)
    requires
        n.wf(),
    ensures
        r == spec_axis_raw(n),
        r < 64,
{
    let p = pow10_u64(n.scale);
    proof {
        lemma_pow10_bound(n.scale as nat);
    }
    if n.neg {
        if n.mant >= p {
            0
        } else {
            let q = (16 * (p as u128) - 16 * (n.mant as u128)) / (p as u128);
            proof {
                vstd::arithmetic::div_mod::lemma_div_is_ordered(
                    (16 * (p as int) - 16 * (n.mant as int)),
                    16 * (p as int),
                    p as int,
                );
                assert(16 * (p as int) / (p as int) == 16) by (nonlinear_arith)
                    requires
                        p >= 1,
                ;
            }
            q as u8
        }
    } else {
        if n.mant >= 4 * p {
            // the axis value is at least 3, far past the wire range
            proof {
                assert((16 * (n.mant as int) + 16 * (p as int)) / (p as int) >= 80)
                    by (nonlinear_arith)
                    requires
                        p >= 1,
                        n.mant >= 4 * p,
                ;
            }
            63
        } else {
            let q = (16 * (n.mant as u128) + 16 * (p as u128)) / (p as u128);
            proof {
                assert((16 * (n.mant as int) + 16 * (p as int)) / (p as int) < 81)
                    by (nonlinear_arith)
                    requires
                        p >= 1,
                        n.mant < 4 * p,
                ;
                assert((16 * (n.mant as int) + 16 * (p as int)) / (p as int) >= 0)
                    by (nonlinear_arith)
                    requires
                        p >= 1,
                ;
            }
            if q > 63 {
                63
            } else {
                q as u8
            }
        }
    }
}

/// Maps an angle in radians to its raw 16-bit wire value.
pub fn angle_raw(n: Num) -> (r: u16)
    requires
        n.wf(),
    ensures
        r == spec_angle_raw(n),
{
    let p = pow10_u64(n.scale);
    let phi = pow10_u64(15 - n.scale);
    proof {
        lemma_pow10_bound(n.scale as nat);
        lemma_pow10_bound((15 - n.scale) as nat);
        lemma_pow10_adds(n.scale as nat, (15 - n.scale) as nat);
        lemma_pow10_values();
    }
    let ghost u = (n.mant * 32768 * pow10((15 - n.scale) as nat)) as int;
    if n.mant as u128 >= 7 * (p as u128) {
        // seven radians is past two pi: the quantized value saturates
        proof {
            assert(u >= 7 * (p as int) * 32768 * (phi as int)) by (nonlinear_arith)
                requires
                    n.mant >= 7 * p,
                    phi >= 1,
                    u == (n.mant as int) * 32768 * (phi as int),
            ;
            assert(7 * (p as int) * 32768 * (phi as int) == 7 * 32768 * ((p as int) * (
            phi as int))) by (nonlinear_arith);
            assert(u >= 229376 * 1000000000000000);
            lemma_div_ge_65536(u);
        }
        if !n.neg {
            return 65535;
        } else {
            return 0;
        }
    }
    proof {
        assert((n.mant as int) * 32768 * (phi as int) < 7 * (p as int) * 32768 * (phi as int)
            && 7 * (p as int) * 32768 * (phi as int) == 7 * 32768 * ((p as int) * (phi as int)))
            by (nonlinear_arith)
            requires
                n.mant < 7 * p,
                phi >= 1,
                p >= 1,
        ;
        assert(u < 229376 * 1000000000000000);
        assert(u >= 0) by (nonlinear_arith)
            requires
                u == (n.mant as int) * 32768 * (phi as int),
                phi >= 1,
        ;
    }
    let units: u128 = (n.mant as u128) * 32768 * (phi as u128);
    if !n.neg || n.mant == 0 {
        let q = units / (PI_SCALED as u128);
        proof {
            vstd::arithmetic::div_mod::lemma_div_is_ordered(0, u, PI_SCALED as int);
        }
        if q > 65535 {
            65535
        } else {
            q as u16
        }
    } else {
        let c = (units + (PI_SCALED - 1) as u128) / (PI_SCALED as u128);
        proof {
            vstd::arithmetic::div_mod::lemma_div_is_ordered(0, u + (PI_SCALED - 1), PI_SCALED as int);
        }
        if c >= 65536 {
            0
        } else {
            (65536 - c as u32) as u16
        }
    }
}

/// Quantizing any value of seven radians or more lands past the 16-bit
/// range.
proof fn lemma_div_ge_65536(u: int)
    requires
        u >= 229376000000000000000,
    ensures
        u / (PI_SCALED as int) >= 65536,
        (u + (PI_SCALED - 1)) / (PI_SCALED as int) >= 65536,
{
    vstd::arithmetic::div_mod::lemma_div_is_ordered(
        65536 * (PI_SCALED as int),
        u,
        PI_SCALED as int,
    );
    assert(65536 * (PI_SCALED as int) / (PI_SCALED as int) == 65536) by (nonlinear_arith);
    vstd::arithmetic::div_mod::lemma_div_is_ordered(u, u + (PI_SCALED - 1), PI_SCALED as int);
}

} // verus!
