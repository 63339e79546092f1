//! Reading single-precision numbers, given by their bits, onto the grid.
//!
//! A finite number is a whole significand times a power of two. Its grid
//! coordinate is the number times `GRID_PER_UNIT`, rounded to the nearest
//! whole, a half rounded away from zero.

use vstd::prelude::*;
use vstd::arithmetic::power2::{
    lemma2_to64, lemma2_to64_rest, lemma_pow2_pos, lemma_pow2_strictly_increases,
    lemma_pow2_unfold, pow2,
};
use vstd::arithmetic::div_mod::lemma_basic_div;
use crate::arith::round_div;
use crate::grid::{GridPoint, COORD_LIMIT, GRID_PER_UNIT};

verus! {

/// The exponent field of the number with these bits.
pub open spec fn float_exponent(bits: u32) -> int {
    (bits as int / 0x80_0000) % 0x100
}

/// The fraction field of the number with these bits.
pub open spec fn float_fraction(bits: u32) -> int {
    bits as int % 0x80_0000
}

/// The sign bit is set.
pub open spec fn float_negative(bits: u32) -> bool {
    bits >= 0x8000_0000
}

/// The bits stand for a number, not for an infinity or for no number at all.
pub open spec fn float_finite(bits: u32) -> bool {
    float_exponent(bits) != 0xff
}

/// The whole number that, times two to the power `float_power`, is the
/// magnitude of a finite number.
pub open spec fn float_significand(bits: u32) -> int {
    if float_exponent(bits) == 0 {
        float_fraction(bits)
    } else {
        float_fraction(bits) + 0x80_0000
    }
}

/// The power of two by which the significand is multiplied.
pub open spec fn float_power(bits: u32) -> int {
    if float_exponent(bits) == 0 {
        -149
    } else {
        float_exponent(bits) - 150
    }
}

/// The magnitude of a finite number in grid steps, rounded to the nearest
/// whole.
pub open spec fn grid_magnitude(bits: u32) -> int {
    let n = float_significand(bits) * GRID_PER_UNIT;
    let power = float_power(bits);
    if power >= 0 {
        n * pow2(power as nat)
    } else {
        round_div(n, pow2((-power) as nat) as int)
    }
}

/// The grid coordinate of the number with these bits, or `None` if the bits
/// stand for no finite number or the coordinate is beyond `COORD_LIMIT`.
pub open spec fn quantize_spec(bits: u32) -> Option<i64> {
    if !float_finite(bits) || grid_magnitude(bits) > COORD_LIMIT {
        None
    } else if float_negative(bits) {
        Some((-grid_magnitude(bits)) as i64)
    } else {
        Some(grid_magnitude(bits) as i64)
    }
}

/// Two to the power `e`, for powers that fit.
fn power_of_two(e: u32) -> (p: u64)
    requires
        e <= 62,
    ensures
        p == pow2(e as nat),
{
    let mut p: u64 = 1;
    let mut i: u32 = 0;
    proof {
        lemma2_to64();
        lemma2_to64_rest();
    }
    while i < e
        invariant
            i <= e <= 62,
            p == pow2(i as nat),
            p <= pow2(62),
            pow2(62) == 0x4000_0000_0000_0000,
        decreases e - i,
    {
        proof {
            lemma_pow2_unfold((i + 1) as nat);
            if i + 1 < 62 {
                lemma_pow2_strictly_increases((i + 1) as nat, 62);
            }
        }
        p = p * 2;
        i += 1;
    }
    p
}

/// Reads a single-precision number onto the grid.
pub fn quantize(bits: u32) -> (coord: Option<i64>)
    ensures
        coord == quantize_spec(bits),
        coord matches Some(c) ==> -COORD_LIMIT <= c <= COORD_LIMIT,
{
    let exponent = (bits / 0x80_0000) % 0x100;
    let fraction = bits % 0x80_0000;
    let negative = bits >= 0x8000_0000;
    if exponent == 0xff {
        return None;
    }
    if exponent >= 150 {
        proof {
            let n = float_significand(bits) * GRID_PER_UNIT;
            let p = pow2(float_power(bits) as nat);
            lemma_pow2_pos(float_power(bits) as nat);
            assert(n * p >= n) by (nonlinear_arith)
                requires
                    n >= 0,
                    p >= 1,
            ;
        }
        return None;
    }
    let significand: u64 = if exponent == 0 {
        fraction as u64
    } else {
        fraction as u64 + 0x80_0000
    };
    let shift: u32 = if exponent == 0 {
        149
    } else {
        150 - exponent
    };
    let n: u64 = significand * (GRID_PER_UNIT as u64);
    let magnitude: u64 = if shift > 45 {
        proof {
            lemma2_to64_rest();
            if shift > 46 {
                lemma_pow2_strictly_increases(46, shift as nat);
            }
            let d = pow2(shift as nat) as int;
            lemma_basic_div(2 * n + d, 2 * d);
        }
        0
    } else {
        let d = power_of_two(shift);
        proof {
            lemma2_to64_rest();
            lemma_pow2_pos(shift as nat);
            if shift < 45 {
                lemma_pow2_strictly_increases(shift as nat, 45);
            }
        }
        (2 * n + d) / (2 * d)
    };
    if magnitude > COORD_LIMIT as u64 {
        None
    } else if negative {
        Some(-(magnitude as i64))
    } else {
        Some(magnitude as i64)
    }
}

/// The whole part of the number with these bits as a count: zero for a
/// negative number and for what is no number, and the greatest count for a
/// number beyond all counts.
pub open spec fn float_count_spec(bits: u32) -> usize {
    if float_negative(bits) {
        0
    } else if !float_finite(bits) {
        if float_fraction(bits) == 0 {
            usize::MAX
        } else {
            0
        }
    } else {
        let whole = if float_power(bits) >= 0 {
            float_significand(bits) * pow2(float_power(bits) as nat)
        } else {
            float_significand(bits) / (pow2((-float_power(bits)) as nat) as int)
        };
        if whole > usize::MAX {
            usize::MAX
        } else {
            whole as usize
        }
    }
}

/// Reads a single-precision number as a count.
pub fn float_count(bits: u32) -> (count: usize)
    ensures
        count == float_count_spec(bits),
{
    let exponent = (bits / 0x80_0000) % 0x100;
    let fraction = bits % 0x80_0000;
    if bits >= 0x8000_0000 {
        return 0;
    }
    if exponent == 0xff {
        return if fraction == 0 {
            usize::MAX
        } else {
            0
        };
    }
    let significand: u64 = if exponent == 0 {
        fraction as u64
    } else {
        fraction as u64 + 0x80_0000
    };
    if exponent >= 191 {
        proof {
            lemma2_to64_rest();
            let power = (exponent - 150) as nat;
            if power > 41 {
                lemma_pow2_strictly_increases(41, power);
            }
            assert(significand * pow2(power) >= 0x80_0000 * pow2(41)) by (nonlinear_arith)
                requires
                    significand >= 0x80_0000,
                    pow2(power) >= pow2(41),
            ;
        }
        return usize::MAX;
    }
    let whole: u64 = if exponent >= 150 {
        let factor = power_of_two(exponent - 150);
        proof {
            lemma2_to64_rest();
            if exponent - 150 < 40 {
                lemma_pow2_strictly_increases((exponent - 150) as nat, 40);
            }
            assert(significand * factor <= 0xff_ffff * 0x100_0000_0000) by (nonlinear_arith)
                requires
                    significand <= 0xff_ffff,
                    factor <= 0x100_0000_0000,
            ;
        }
        significand * factor
    } else {
        let shift: u32 = if exponent == 0 {
            149
        } else {
            150 - exponent
        };
        if shift >= 24 {
            proof {
                lemma2_to64();
                if shift > 24 {
                    lemma_pow2_strictly_increases(24, shift as nat);
                }
                lemma_basic_div(significand as int, pow2(shift as nat) as int);
            }
            0
        } else {
            let divisor = power_of_two(shift);
            proof {
                lemma_pow2_pos(shift as nat);
            }
            significand / divisor
        }
    };
    if whole > usize::MAX as u64 {
        usize::MAX
    } else {
        whole as usize
    }
}

/// Reads a position, given by the bits of its three coordinates, onto the
/// grid.
pub open spec fn quantize_point_spec(position: [u32; 3]) -> Option<GridPoint> {
    match (quantize_spec(position[0]), quantize_spec(position[1]), quantize_spec(position[2])) {
        (Some(x), Some(y), Some(z)) => Some(GridPoint { x, y, z }),
        _ => None,
    }
}

/// Reads a position onto the grid.
pub fn quantize_point(position: &[u32; 3]) -> (point: Option<GridPoint>)
    ensures
        point == quantize_point_spec(*position),
        point matches Some(p) ==> p.in_range(),
{
    let x = quantize(position[0]);
    let y = quantize(position[1]);
    let z = quantize(position[2]);
    match (x, y, z) {
        (Some(x), Some(y), Some(z)) => Some(GridPoint { x, y, z }),
        _ => None,
    }
}

} // verus!
