//! Fixed-point encoding of scaled waveform samples.
//!
//! The encoded file holds 16-bit signed linear PCM.  A waveform sample in
//! [-1, 1] is scaled by the largest positive 16-bit value (32767) and the
//! scaled single-precision product is then truncated toward zero.  The
//! truncation is done here, on the IEEE-754 bit pattern of the scaled
//! product, so its result is pinned exactly: sign, biased exponent and
//! significand are unpacked as integers and the magnitude `sig / 2^shift` is
//! rounded toward zero, which is precisely what an integer cast of the same
//! finite value does.
use vstd::prelude::*;
use vstd::arithmetic::div_mod::lemma_div_is_ordered_by_denominator;
use vstd::arithmetic::div_mod::lemma_multiply_divide_lt;
use vstd::arithmetic::power2::lemma2_to64;
use vstd::arithmetic::power2::lemma_pow2_adds;
use vstd::arithmetic::power2::lemma_pow2_pos;
use vstd::arithmetic::power2::lemma_pow2_strictly_increases;
use vstd::arithmetic::power2::pow2;
use vstd::bits::lemma_u32_shr_is_div;

verus! {

/// The sign bit of an IEEE-754 single-precision bit pattern.
pub open spec fn f32_sign(bits: u32) -> bool {
    bits >> 31 == 1
}

/// The biased exponent field of an IEEE-754 single-precision bit pattern.
pub open spec fn f32_exp(bits: u32) -> u32 {
    (bits >> 23) & 0xFF
}

/// The fraction field of an IEEE-754 single-precision bit pattern.
pub open spec fn f32_frac(bits: u32) -> u32 {
    bits & 0x7F_FFFF
}

/// The integral significand: the fraction field, with the implicit leading
/// bit added for normal numbers (biased exponent non-zero).
pub open spec fn f32_sig(bits: u32) -> nat {
    if f32_exp(bits) == 0 {
        f32_frac(bits) as nat
    } else {
        (0x80_0000 + f32_frac(bits)) as nat
    }
}

/// The binary point position: the encoded magnitude is `f32_sig(bits)`
/// divided by `2^f32_down_shift(bits)`, exactly.
pub open spec fn f32_down_shift(bits: u32) -> nat
    recommends
        f32_exp(bits) <= 150,
{
    if f32_exp(bits) == 0 {
        149nat
    } else {
        (150 - f32_exp(bits)) as nat
    }
}

/// The magnitude of the encoded value, rounded toward zero.
pub open spec fn f32_trunc_magnitude(bits: u32) -> nat {
    f32_sig(bits) / pow2(f32_down_shift(bits))
}

/// The finite value encoded by `bits`, rounded toward zero: what casting
/// that value to a wide enough signed integer type yields.
pub open spec fn f32_trunc(bits: u32) -> int {
    if f32_sign(bits) {
        -(f32_trunc_magnitude(bits) as int)
    } else {
        f32_trunc_magnitude(bits) as int
    }
}

/// Truncates toward zero the finite single-precision value whose bit pattern
/// is `bits`.  The biased exponent may be at most 141, i.e. the magnitude is
/// below 2^15 = 32768, so the result always fits a 16-bit sample; a waveform
/// sample scaled by 32767 satisfies this.
pub fn pcm16_from_f32_bits(bits: u32) -> (s: i16)
    requires
        f32_exp(bits) <= 141,
    ensures
        s as int == f32_trunc(bits),
{
    let sign: bool = (bits >> 31) == 1;
    let e: u32 = (bits >> 23) & 0xFF;
    let frac: u32 = bits & 0x7F_FFFF;
    proof {
        assert(bits & 0x7F_FFFF <= 0x7F_FFFF) by (bit_vector);
    }
    let sig: u32 = if e == 0 {
        frac
    } else {
        0x80_0000 + frac
    };
    let shift: u32 = if e == 0 {
        149
    } else {
        150 - e
    };
    let mag: u32 = if shift >= 24 {
        0
    } else {
        sig >> shift
    };
    proof {
        lemma2_to64();
        if shift >= 24 {
            if shift > 24 {
                lemma_pow2_strictly_increases(24, shift as nat);
            }
            assert(f32_sig(bits) / pow2(shift as nat) == 0) by {
                vstd::arithmetic::div_mod::lemma_basic_div(
                    f32_sig(bits) as int,
                    pow2(shift as nat) as int,
                );
            }
        } else {
            lemma_u32_shr_is_div(sig, shift);
            lemma_pow2_adds(9, 15);
            lemma_multiply_divide_lt(sig as int, pow2(9) as int, pow2(15) as int);
            lemma_pow2_pos(shift as nat);
            if shift > 9 {
                lemma_pow2_strictly_increases(9, shift as nat);
            }
            lemma_div_is_ordered_by_denominator(sig as int, pow2(9) as int, pow2(shift as nat) as int);
        }
    }
    if sign {
        -(mag as i16)
    } else {
        mag as i16
    }
}

/// Quantizes a whole burst of scaled samples: entry `i` of the result is the
/// truncation toward zero of the value encoded by entry `i` of the input.
pub fn quantize_burst(bits: &Vec<u32>) -> (out: Vec<i16>)
    requires
        forall|i: int| 0 <= i < bits@.len() ==> f32_exp(bits@[i]) <= 141,
    ensures
        out@.len() == bits@.len(),
        forall|i: int| 0 <= i < bits@.len() ==> out@[i] as int == f32_trunc(bits@[i]),
{
    let mut out: Vec<i16> = Vec::new();
    let mut k: usize = 0;
    while k < bits.len()
        invariant
            k <= bits@.len(),
            out@.len() == k,
            forall|i: int| 0 <= i < bits@.len() ==> f32_exp(bits@[i]) <= 141,
            forall|i: int| 0 <= i < k ==> out@[i] as int == f32_trunc(bits@[i]),
        decreases bits@.len() - k,
    {
        let s: i16 = pcm16_from_f32_bits(bits[k]);
        out.push(s);
        k += 1;
    }
    out
}

/// Round-trip scaling at full scale: the scaled bit pattern of a sample of
/// exactly 1.0 — the single-precision value 32767.0 — truncates to the
/// 16-bit maximum 32767, and that of a sample of exactly -1.0 truncates to
/// -32767, one away from the 16-bit minimum: truncation toward zero is
/// asymmetric there, and that asymmetry is asserted, not smoothed over.
pub proof fn lemma_full_scale()
    ensures
        f32_trunc(0x46FF_FE00u32) == 32767,
        f32_trunc(0xC6FF_FE00u32) == -32767,
{
    lemma2_to64();
    assert(0x46FF_FE00u32 >> 31 == 0 && (0x46FF_FE00u32 >> 23) & 0xFF == 141 && 0x46FF_FE00u32
        & 0x7F_FFFF == 0x7F_FE00) by (bit_vector);
    assert(0xC6FF_FE00u32 >> 31 == 1 && (0xC6FF_FE00u32 >> 23) & 0xFF == 141 && 0xC6FF_FE00u32
        & 0x7F_FFFF == 0x7F_FE00) by (bit_vector);
    assert(f32_sig(0x46FF_FE00u32) == 0xFF_FE00nat);
    assert(0xFF_FE00nat / 512 == 32767nat);
}

} // verus!
