//! The integer side of quantisation: which levels a band type has, which scalefactors a band
//! without samples of its own takes over, and which band type a span of levels needs.

use crate::cns::SAMPLES_PER_BAND;
use crate::error::{Error, Result};
use crate::sv8_dscf_loop::SCF_GRANULES_PER_BAND;
use vstd::arithmetic::power2::*;
use vstd::prelude::*;

verus! {

/// Samples of a third of a band.
pub const SAMPLES_PER_GRANULE: usize = SAMPLES_PER_BAND / SCF_GRANULES_PER_BAND;

/// The lowest scalefactor.
pub const SV8_SCF_MIN: i32 = -6;

/// The highest scalefactor.
pub const SV8_SCF_MAX: i32 = 121;

/// A quantised band.
#[derive(Debug, Clone, Copy, PartialEq, Eq)]
pub struct QuantizedBand {
    /// Scalefactors, for each third of the band.
    pub scf: [i32; SCF_GRANULES_PER_BAND],
    /// Levels.
    pub levels: [i32; SAMPLES_PER_BAND],
}

/// The largest level of a band type.
pub open spec fn largest_level(band_type: int) -> int {
    if band_type <= 4 {
        band_type
    } else {
        pow2((band_type - 2) as nat) - 1
    }
}

/// The largest level of a band type, where it has levels.
pub fn quantizer_offset(band_type: i8) -> (r: Result<i32>)
    ensures
        match r {
            Ok(d) => 1 <= band_type <= 17 && d == largest_level(band_type as int) && 1 <= d
                <= 32767,
            Err(e) => !(1 <= band_type <= 17) && e == Error::UnsupportedBandType(band_type),
        },
{
    if band_type < 1 || band_type > 17 {
        return Err(Error::UnsupportedBandType(band_type));
    }
    if band_type <= 4 {
        return Ok(band_type as i32);
    }
    proof {
        lemma2_to64();
    }
    let mut p: i32 = 8;
    let mut k: i8 = 5;
    while k < band_type
        invariant
            5 <= k <= band_type <= 17,
            p == pow2((k - 2) as nat),
            8 <= p <= 32768,
        decreases band_type - k,
    {
        proof {
            lemma2_to64();
            lemma_pow2_unfold((k - 1) as nat);
            if k < 16 {
                lemma_pow2_strictly_increases((k - 1) as nat, 15);
            }
        }
        p = p * 2;
        k = k + 1;
    }
    Ok(p - 1)
}

/// A value kept within bounds.
pub open spec fn clamped(v: int, lo: int, hi: int) -> int {
    if v < lo {
        lo
    } else if v > hi {
        hi
    } else {
        v
    }
}

/// Keeps a scalefactor in the range that can be coded.
#[must_use]
pub fn clamp_scf(scf: i32) -> (s: i32)
    ensures
        s == clamped(scf as int, SV8_SCF_MIN as int, SV8_SCF_MAX as int),
{
    if scf < SV8_SCF_MIN {
        SV8_SCF_MIN
    } else if scf > SV8_SCF_MAX {
        SV8_SCF_MAX
    } else {
        scf
    }
}

/// Keeps the levels of a band in the range of its band type. A band type without levels is
/// refused.
pub fn clamp_levels(band_type: i8, levels: &[i32; SAMPLES_PER_BAND]) -> (r: Result<
    [i32; SAMPLES_PER_BAND],
>)
    ensures
        match r {
            Ok(out) => 1 <= band_type <= 17 && forall|k: int|
                0 <= k < 36 ==> #[trigger] out[k] == clamped(
                    levels[k] as int,
                    -largest_level(band_type as int),
                    largest_level(band_type as int),
                ),
            Err(e) => !(1 <= band_type <= 17) && e == Error::UnsupportedBandType(band_type),
        },
{
    let d: i32 = quantizer_offset(band_type)?;
    let mut out: [i32; SAMPLES_PER_BAND] = [0;36];
    let mut k: usize = 0;
    while k < SAMPLES_PER_BAND
        invariant
            k <= 36,
            1 <= d <= 32767,
            forall|j: int| 0 <= j < k ==> #[trigger] out[j] == clamped(levels[j] as int, -d, d as int),
        decreases 36 - k,
    {
        let v: i32 = levels[k];
        out[k] = if v < -d {
            -d
        } else if v > d {
            d
        } else {
            v
        };
        k = k + 1;
    }
    Ok(out)
}

/// The scalefactor that third `g` of a band takes: its own, else that of the nearest third
/// before it that has one, else that of the nearest behind it, else the highest.
pub open spec fn shared_scf(own: [Option<i32>; 3], g: int) -> i32 {
    if own[g] is Some {
        own[g]->0
    } else if g >= 1 && own[g - 1] is Some {
        own[g - 1]->0
    } else if g >= 2 && own[g - 2] is Some {
        own[g - 2]->0
    } else if g <= 1 && own[g + 1] is Some {
        own[g + 1]->0
    } else if g <= 0 && own[g + 2] is Some {
        own[g + 2]->0
    } else {
        SV8_SCF_MAX
    }
}

/// The scalefactors of a band, from those that its thirds have of their own.
#[must_use]
pub fn share_granule_scf(own: &[Option<i32>; SCF_GRANULES_PER_BAND]) -> (scf: [i32;
    SCF_GRANULES_PER_BAND])
    ensures
        forall|g: int| 0 <= g < 3 ==> #[trigger] scf[g] == shared_scf(*own, g),
{
    let first: Option<i32> = own[0];
    let second: Option<i32> = match own[1] {
        Some(s) => Some(s),
        None => first,
    };
    let third: Option<i32> = match own[2] {
        Some(s) => Some(s),
        None => second,
    };
    let s2: i32 = match third {
        Some(s) => s,
        None => SV8_SCF_MAX,
    };
    let s1: i32 = match second {
        Some(s) => s,
        None => s2,
    };
    let s0: i32 = match first {
        Some(s) => s,
        None => s1,
    };
    [s0, s1, s2]
}

/// The smallest band type whose levels span `needed`, or the largest of all.
#[must_use]
pub fn band_type_for_span(needed: u32) -> (t: i8)
    ensures
        1 <= t <= 17,
        forall|k: int| 1 <= k < t ==> #[trigger] largest_level(k) < needed,
        largest_level(t as int) >= needed || t == 17,
{
    let mut t: i8 = 1;
    while t < 17
        invariant
            1 <= t <= 17,
            forall|k: int| 1 <= k < t ==> #[trigger] largest_level(k) < needed,
        decreases 17 - t,
    {
        match quantizer_offset(t) {
            Ok(d) => {
                if d as u32 >= needed {
                    return t;
                }
            },
            Err(_) => {},
        }
        t = t + 1;
    }
    t
}

/// A larger band type has more levels.
pub proof fn law_more_levels(a: int, b: int)
    requires
        1 <= a < b <= 17,
    ensures
        largest_level(a) < largest_level(b),
{
    lemma2_to64();
    if b > 4 {
        if a > 4 {
            lemma_pow2_strictly_increases((a - 2) as nat, (b - 2) as nat);
        } else if b > 5 {
            lemma_pow2_strictly_increases(3, (b - 2) as nat);
        }
    }
}

} // verus!
