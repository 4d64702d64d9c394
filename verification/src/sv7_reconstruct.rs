//! From a decoded SV7 frame to scaled subband samples.
//!
//! The large band types carry their levels as unsigned numbers, which are centred here; the
//! rest is as in [`crate::sv8_reconstruct`].

use crate::cns::SAMPLES_PER_BAND;
use crate::error::Result;
use crate::sv7_stereo_frame::Sv7StereoFrame;
use crate::sv8_quantize;
use crate::sv8_quantize::quantizer_offset;
use crate::sv8_reconstruct;
use crate::sv8_reconstruct::{scale_band, silent_matrix, ScaledBand, UNIT_GAIN_SCF};
use vstd::prelude::*;

verus! {

/// What the levels of a band type are counted from: the large ones from their largest level.
pub open spec fn centre(band_type: int) -> int {
    if 8 <= band_type <= 17 {
        sv8_quantize::largest_level(band_type)
    } else {
        0
    }
}

/// Levels, counted from zero.
pub open spec fn centred(band_type: int, levels: Seq<i32>) -> Seq<i32> {
    levels.map_values(|l: i32| (l - centre(band_type)) as i32)
}

/// The levels can be centred, whatever their band type.
pub open spec fn can_centre(levels: Seq<i32>) -> bool {
    forall|k: int| 0 <= k < levels.len() ==> #[trigger] levels[k] >= i32::MIN + 32767
}

/// Counts the levels of a band from zero.
#[must_use]
pub fn centre_pcm_band(band_type: i8, levels: &[i32; SAMPLES_PER_BAND]) -> (c: [i32;
    SAMPLES_PER_BAND])
    requires
        can_centre(levels@),
    ensures
        c@ == centred(band_type as int, levels@),
{
    let d: i32 = if band_type < 8 {
        0
    } else {
        match quantizer_offset(band_type) {
            Ok(d) => d,
            Err(_) => 0,
        }
    };
    let mut c: [i32; SAMPLES_PER_BAND] = *levels;
    let mut k: usize = 0;
    while k < SAMPLES_PER_BAND
        invariant
            k <= 36,
            d == centre(band_type as int),
            0 <= d <= 32767,
            can_centre(levels@),
            forall|j: int| 0 <= j < k ==> #[trigger] c@[j] == levels@[j] - d,
            forall|j: int| k <= j < 36 ==> #[trigger] c@[j] == levels@[j],
        decreases 36 - k,
    {
        let l: i32 = levels[k];
        assert(levels@[k as int] >= i32::MIN + 32767);
        c[k] = l - d;
        k = k + 1;
    }
    assert(c@ =~= centred(band_type as int, levels@));
    c
}

/// The rows are those of a channel of a frame; bands from the `n`-th row on are silent.
pub open spec fn is_channel(
    rows: Seq<ScaledBand>,
    frame: Sv7StereoFrame,
    ch: int,
    n: int,
) -> bool {
    &&& rows.len() == 32
    &&& forall|b: int|
        0 <= b < 32 ==> if 2 * b + ch < n {
            sv8_reconstruct::is_scaled(
                #[trigger] rows[b],
                frame.res@[b][ch],
                centred(frame.res@[b][ch] as int, frame.levels@[2 * b + ch]@),
                frame.granule_scf@[2 * b + ch]@,
                UNIT_GAIN_SCF,
            )
        } else {
            sv8_reconstruct::is_silent(rows[b])
        }
}

/// The rows of both channels of a decoded frame, in absolute gain; bands that the frame does
/// not have are silent. A band type outside `-1..=17` is refused.
pub fn reconstruct_sv7_stereo_frame(frame: &Sv7StereoFrame) -> (r: Result<
    (Vec<ScaledBand>, Vec<ScaledBand>),
>)
    requires
        frame.res@.len() <= 32,
        frame.levels@.len() == 2 * frame.res@.len(),
        frame.granule_scf@.len() == 2 * frame.res@.len(),
        forall|i: int|
            0 <= i < frame.levels@.len() ==> can_centre(#[trigger] frame.levels@[i]@),
    ensures
        match r {
            Ok((left, right)) => {
                &&& sv8_reconstruct::type_fault(frame.res@, 0, 2 * frame.res.len()) is None
                &&& is_channel(left@, *frame, 0, 2 * frame.res.len())
                &&& is_channel(right@, *frame, 1, 2 * frame.res.len())
            },
            Err(e) => sv8_reconstruct::type_fault(frame.res@, 0, 2 * frame.res.len()) == Some(e),
        },
{
    let mut left: Vec<ScaledBand> = silent_matrix();
    let mut right: Vec<ScaledBand> = silent_matrix();
    let n: usize = 2 * frame.res.len();
    let mut i: usize = 0;
    while i < n
        invariant
            i <= n == 2 * frame.res@.len(),
            frame.res@.len() <= 32,
            frame.levels@.len() == n,
            frame.granule_scf@.len() == n,
            forall|i: int|
                0 <= i < frame.levels@.len() ==> can_centre(#[trigger] frame.levels@[i]@),
            sv8_reconstruct::type_fault(frame.res@, 0, n as int) == sv8_reconstruct::type_fault(
                frame.res@,
                i as int,
                n as int,
            ),
            is_channel(left@, *frame, 0, i as int),
            is_channel(right@, *frame, 1, i as int),
        decreases n - i,
    {
        let b: usize = i / 2;
        let ch: usize = i % 2;
        let band_type: i8 = frame.res[b][ch];
        let levels: [i32; SAMPLES_PER_BAND] = centre_pcm_band(band_type, &frame.levels[i]);
        let row: ScaledBand = scale_band(band_type, &levels, &frame.granule_scf[i], UNIT_GAIN_SCF)?;
        if ch == 0 {
            left.set(b, row);
        } else {
            right.set(b, row);
        }
        i = i + 1;
    }
    Ok((left, right))
}

} // verus!
