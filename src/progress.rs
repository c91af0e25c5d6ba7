//! Race progress: laps completed plus the fraction of the current lap, in
//! fixed point with `PROGRESS_FRAC_BITS` fractional bits, computed exactly
//! from the bit patterns of the game's 32-bit floats.
use crate::ps2_types::{f32_exponent, f32_fraction, F32Bits};
use vstd::arithmetic::div_mod::{
    lemma_div_is_ordered, lemma_div_by_multiple, lemma_fundamental_div_mod,
    lemma_fundamental_div_mod_converse, lemma_basic_div, lemma_small_mod,
};
use vstd::arithmetic::mul::{lemma_mul_inequality, lemma_mul_strict_inequality};
use vstd::arithmetic::power2::{
    lemma2_to64, lemma_pow2_adds, lemma_pow2_pos, lemma_pow2_strictly_increases,
    lemma_pow2_unfold, pow2,
};
use vstd::prelude::*;

verus! {

/// Number of fractional bits of a progress value.
pub const PROGRESS_FRAC_BITS: u32 = 20;

/// One lap, as a progress value.
pub const PROGRESS_ONE: i64 = 0x10_0000;

/// Whether a bit pattern is a finite number (neither infinite nor NaN).
pub open spec fn f32_finite(bits: u32) -> bool {
    f32_exponent(bits) != 0xFF
}

/// Whether the sign bit is set.
pub open spec fn f32_negative(bits: u32) -> bool {
    bits >= 0x8000_0000
}

/// The significand of a finite number, as an integer.
pub open spec fn f32_significand(bits: u32) -> int {
    if f32_exponent(bits) == 0 {
        f32_fraction(bits)
    } else {
        f32_fraction(bits) + 0x80_0000
    }
}

/// The power of two that scales the significand of a finite number: its
/// magnitude is `f32_significand(bits) * 2^f32_scale(bits)`.
pub open spec fn f32_scale(bits: u32) -> int {
    if f32_exponent(bits) == 0 {
        -149
    } else {
        f32_exponent(bits) - 150
    }
}

/// `floor(m * 2^PROGRESS_FRAC_BITS / t)` for finite `m` and finite
/// positive `t`, computed on their exact values.
pub open spec fn scaled_ratio(m: u32, t: u32) -> int {
    let d = f32_scale(m) - f32_scale(t) + PROGRESS_FRAC_BITS;
    let num = if d >= 0 {
        f32_significand(m) * pow2(d as nat)
    } else {
        f32_significand(m)
    };
    let den = if d >= 0 {
        f32_significand(t)
    } else {
        f32_significand(t) * pow2((-d) as nat)
    };
    (if f32_negative(m) {
        -num
    } else {
        num
    }) / den
}

/// The progress of a car on lap `lap` that has driven `meters` of a track
/// of `track_length`: `lap + meters / track_length`, in units of
/// `2^-PROGRESS_FRAC_BITS` lap and rounded down. It is undefined unless
/// both numbers are finite and the track length is positive.
pub open spec fn progress_of(lap: i16, meters: u32, track_length: u32) -> Option<int> {
    if f32_finite(meters) && f32_finite(track_length) && !f32_negative(track_length)
        && f32_significand(track_length) > 0 {
        Some(lap * PROGRESS_ONE + scaled_ratio(meters, track_length))
    } else {
        None
    }
}

/// `progress_of`, where it is defined and fits an `i64`.
pub open spec fn progress_value(lap: i16, meters: u32, track_length: u32) -> Option<i64> {
    match progress_of(lap, meters, track_length) {
        Some(p) => if i64::MIN <= p <= i64::MAX {
            Some(p as i64)
        } else {
            None
        },
        None => None,
    }
}

/// 2 to the power `k`.
fn pow2_u128(k: u32) -> (r: u128)
    requires
        k <= 127,
    ensures
        r == pow2(k as nat),
{
    proof {
        lemma2_to64();
        lemma_pow2_adds(64, 64);
    }
    let mut r: u128 = 1;
    let mut i: u32 = 0;
    while i < k
        invariant
            i <= k <= 127,
            r == pow2(i as nat),
            pow2(128) == 0x1_0000_0000_0000_0000 * 0x1_0000_0000_0000_0000,
        decreases k - i,
    {
        proof {
            lemma_pow2_unfold((i + 1) as nat);
            lemma_pow2_strictly_increases((i + 1) as nat, 128);
        }
        r = r * 2;
        i = i + 1;
    }
    proof {
        assert(pow2(0) == 1) by {
            lemma2_to64();
        }
    }
    r
}

/// Rounding a negated quotient down.
proof fn lemma_neg_div(num: int, den: int)
    requires
        num >= 0,
        den > 0,
    ensures
        (-num) / den == if num % den == 0 {
            -(num / den)
        } else {
            -(num / den) - 1
        },
{
    lemma_fundamental_div_mod(num, den);
    let q = num / den;
    let r = num % den;
    if r == 0 {
        assert(-num == (-q) * den + 0) by (nonlinear_arith)
            requires
                num == den * q + r,
                r == 0,
        ;
        lemma_fundamental_div_mod_converse(-num, den, -q, 0);
    } else {
        assert(-num == (-q - 1) * den + (den - r)) by (nonlinear_arith)
            requires
                num == den * q + r,
        ;
        lemma_fundamental_div_mod_converse(-num, den, -q - 1, den - r);
    }
}

/// The progress of a car, from its lap index and the bit patterns of its
/// distance into the lap and of the track length.
pub fn progress(lap: i16, meters: F32Bits, track_length: F32Bits) -> (r: Option<i64>)
    ensures
        r == progress_value(lap, meters.bits, track_length.bits),
{
    let m = meters.bits;
    let t = track_length.bits;
    let me = (m / 0x80_0000) % 0x100;
    let te = (t / 0x80_0000) % 0x100;
    if me == 0xFF || te == 0xFF || t >= 0x8000_0000 {
        return None;
    }
    let sig_m: u128 = if me == 0 {
        (m % 0x80_0000) as u128
    } else {
        (m % 0x80_0000) as u128 + 0x80_0000
    };
    let sig_t: u128 = if te == 0 {
        (t % 0x80_0000) as u128
    } else {
        (t % 0x80_0000) as u128 + 0x80_0000
    };
    if sig_t == 0 {
        return None;
    }
    let scale_m: i32 = if me == 0 {
        -149
    } else {
        me as i32 - 150
    };
    let scale_t: i32 = if te == 0 {
        -149
    } else {
        te as i32 - 150
    };
    let d: i32 = scale_m - scale_t + PROGRESS_FRAC_BITS as i32;
    let negative = m >= 0x8000_0000;
    let ghost spec_num: int = if d >= 0 {
        sig_m * pow2(d as nat)
    } else {
        sig_m as int
    };
    let ghost spec_den: int = if d >= 0 {
        sig_t as int
    } else {
        sig_t * pow2((-d) as nat)
    };
    let ghost ratio = scaled_ratio(m, t);
    assert(ratio == (if negative {
        -spec_num
    } else {
        spec_num
    }) / spec_den);
    proof {
        lemma2_to64();
        let e: nat = if d >= 0 { d as nat } else { (-d) as nat };
        lemma_pow2_pos(e);
        if d < 0 {
            assert(sig_t * pow2(e) > 0) by (nonlinear_arith)
                requires
                    sig_t > 0,
                    pow2(e) > 0,
            ;
        }
        assert(spec_den > 0);
    }
    // magnitude of the quotient, and whether it was exact
    let (q, exact): (u128, bool) = if sig_m == 0 {
        proof {
            if d < 0 {
                lemma_mul_inequality(1, pow2((-d) as nat) as int, sig_t as int);
            }
            lemma_basic_div(0, spec_den);
            assert(0int % spec_den == 0) by {
                lemma_small_mod(0, spec_den as nat);
            }
        }
        (0, true)
    } else if d >= 0 {
        if d > 103 {
            proof {
                let pd = pow2(d as nat);
                lemma_pow2_adds(80, 24);
                lemma_pow2_pos(80);
                assert(pow2(24) == 0x100_0000);
                assert(pow2(104) == pow2(80) * 0x100_0000);
                assert(spec_den < 0x100_0000);
                lemma_pow2_adds(104, (d - 104) as nat);
                lemma_pow2_pos((d - 104) as nat);
                let p104 = pow2(104);
                let pr = pow2((d - 104) as nat);
                assert(pd == p104 * pr);
                assert(spec_num >= p104) by (nonlinear_arith)
                    requires
                        spec_num == sig_m * pd,
                        pd == p104 * pr,
                        pr >= 1,
                        sig_m >= 1,
                        p104 > 0,
                ;
                assert(pow2(104) >= pow2(80) * spec_den) by (nonlinear_arith)
                    requires
                        pow2(104) == pow2(80) * 0x100_0000,
                        spec_den < 0x100_0000,
                        spec_den > 0,
                        pow2(80) > 0,
                ;
                lemma_div_by_multiple(pow2(80) as int, spec_den);
                lemma_div_is_ordered(pow2(80) * spec_den, spec_num, spec_den);
                lemma_pow2_adds(16, 64);
                lemma_neg_div(spec_num, spec_den);
            }
            return None;
        }
        let p = pow2_u128(d as u32);
        proof {
            lemma_pow2_adds(24, d as nat);
            lemma_pow2_strictly_increases((24 + d) as nat, 128);
            lemma_pow2_adds(64, 64);
            lemma_mul_strict_inequality(sig_m as int, 0x100_0000, p as int);
            assert(pow2(24) == 0x100_0000);
        }
        let num = sig_m * p;
        (num / sig_t, num % sig_t == 0)
    } else {
        let k: u32 = (-d) as u32;
        if k >= 24 {
            proof {
                if k > 24 {
                    lemma_pow2_strictly_increases(24, k as nat);
                }
                lemma_mul_inequality(1, sig_t as int, pow2(k as nat) as int);
                lemma_basic_div(sig_m as int, spec_den);
                lemma_small_mod(sig_m as nat, spec_den as nat);
            }
            (0, false)
        } else {
            let p = pow2_u128(k);
            proof {
                lemma_pow2_strictly_increases(k as nat, 24);
                lemma_mul_strict_inequality(sig_t as int, 0x100_0000, p as int);
                lemma_mul_inequality(p as int, 0x100_0000, 0x100_0000);
                assert(sig_t * p > 0) by (nonlinear_arith)
                    requires
                        sig_t > 0,
                        p > 0,
                ;
            }
            let den = sig_t * p;
            (sig_m / den, sig_m % den == 0)
        }
    };
    proof {
        assert(q == spec_num / spec_den);
        assert(exact == (spec_num % spec_den == 0));
        lemma_neg_div(spec_num, spec_den);
    }
    if q > 0x1_0000_0000_0000_0000_0000_0000 {
        return None;
    }
    let magnitude = q as i128;
    let ratio_exec: i128 = if !negative {
        magnitude
    } else if exact {
        -magnitude
    } else {
        -magnitude - 1
    };
    let value: i128 = lap as i128 * PROGRESS_ONE as i128 + ratio_exec;
    if value < i64::MIN as i128 || value > i64::MAX as i128 {
        None
    } else {
        Some(value as i64)
    }
}

/// Progress is undefined, and so never recorded, where the distance or
/// the track length is NaN.
pub proof fn lemma_nan_has_no_progress(lap: i16, meters: u32, track_length: u32)
    requires
        crate::ps2_types::f32_is_nan(meters) || crate::ps2_types::f32_is_nan(track_length),
    ensures
        progress_of(lap, meters, track_length) is None,
        progress_value(lap, meters, track_length) is None,
{
}

} // verus!
