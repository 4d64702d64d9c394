//! From decoded bands to scaled subband samples.
//!
//! A subband sample is a level, times the coefficient of the band type, times the gain of its
//! scalefactor; a gain is a power of the step between two scalefactors. Which coefficient and
//! which powers these are is settled here; the product itself is left to the signal path.

use crate::bit_reader::Sv7BitReader;
use crate::cns::{CnsPrng, SAMPLES_PER_BAND};
use crate::error::{Error, Result};
use crate::sv8_dscf_loop::SCF_GRANULES_PER_BAND;
use crate::sv8_frame_decode;
use crate::sv8_frame_decode::{
    decode_sv8_frame_channel, BandRecord, Sv8BandDecode, SV7_SUBBAND_COUNT,
};
use crate::sv8_huffman::Sv8TableSet;
use crate::sv8_stereo_frame::Sv8StereoFrameDecode;
use vstd::prelude::*;

verus! {

/// The scalefactor whose gain is one.
pub const UNIT_GAIN_SCF: i32 = 1;

/// The subband samples of a band: sample `k` is level `k`, times the coefficient of the
/// given number, times the scalefactor step to the power that its third of the band has.
#[derive(Debug, Clone, Copy, PartialEq, Eq)]
pub struct ScaledBand {
    /// Number of the coefficient: one more than the band type.
    pub coefficient: u8,
    /// Levels.
    pub levels: [i32; SAMPLES_PER_BAND],
    /// Powers of the scalefactor step, for each third of the band.
    pub steps: [i64; SCF_GRANULES_PER_BAND],
}

/// Every level is zero.
pub open spec fn is_silent(row: ScaledBand) -> bool {
    forall|k: int| 0 <= k < 36 ==> #[trigger] row.levels[k] == 0
}

/// A row is what a band type, levels and scalefactors come to, relative to the scalefactor
/// `anchor`. A band of type 0 is silent, whatever its levels.
pub open spec fn is_scaled(
    row: ScaledBand,
    band_type: i8,
    levels: Seq<i32>,
    scf: Seq<i32>,
    anchor: i32,
) -> bool {
    if band_type == 0 {
        is_silent(row)
    } else {
        &&& row.coefficient == band_type + 1
        &&& row.levels@ == levels
        &&& forall|g: int| 0 <= g < 3 ==> #[trigger] row.steps[g] == scf[g] - anchor
    }
}

/// A silent row.
#[must_use]
pub fn silent_band() -> (row: ScaledBand)
    ensures
        is_silent(row),
        row.coefficient == 1,
        forall|g: int| 0 <= g < 3 ==> #[trigger] row.steps[g] == 0,
{
    ScaledBand { coefficient: 1, levels: [0;36], steps: [0;3] }
}

/// The row of a band type with levels and scalefactors. A band type outside `-1..=17` is
/// refused.
pub(crate) fn scale_band(
    band_type: i8,
    levels: &[i32; SAMPLES_PER_BAND],
    scf: &[i32; SCF_GRANULES_PER_BAND],
    anchor: i32,
) -> (r: Result<ScaledBand>)
    ensures
        match r {
            Ok(row) => -1 <= band_type <= 17 && is_scaled(
                row,
                band_type,
                levels@,
                scf@,
                anchor,
            ),
            Err(e) => !(-1 <= band_type <= 17) && e == Error::UnsupportedBandType(band_type),
        },
{
    if band_type < -1 || band_type > 17 {
        return Err(Error::UnsupportedBandType(band_type));
    }
    if band_type == 0 {
        return Ok(silent_band());
    }
    let base: i64 = anchor as i64;
    let steps: [i64; SCF_GRANULES_PER_BAND] = [
        scf[0] as i64 - base,
        scf[1] as i64 - base,
        scf[2] as i64 - base,
    ];
    Ok(ScaledBand { coefficient: (band_type + 1) as u8, levels: *levels, steps })
}

/// The row of a decoded band, relative to the scalefactor `anchor`. A band type outside
/// `-1..=17` is refused.
pub fn reconstruct_sv8_band(band: &Sv8BandDecode, anchor: i32) -> (r: Result<ScaledBand>)
    ensures
        match r {
            Ok(row) => -1 <= band.band_type <= 17 && is_scaled(
                row,
                band.band_type,
                band.levels@,
                band.granule_scf@,
                anchor,
            ),
            Err(e) => !(-1 <= band.band_type <= 17) && e == Error::UnsupportedBandType(
                band.band_type,
            ),
        },
{
    scale_band(band.band_type, &band.levels, &band.granule_scf, anchor)
}

/// Why a band cannot be placed.
pub open spec fn fault_of(band: BandRecord) -> Option<Error> {
    if band.subband >= 32 {
        Some(Error::MaxBandOutOfRange((band.subband % 256) as u8))
    } else if !(-1 <= band.band_type <= 17) {
        Some(Error::UnsupportedBandType(band.band_type))
    } else {
        None
    }
}

/// The first fault among the bands, from band `from` on.
pub open spec fn first_fault(bands: Seq<BandRecord>, from: int) -> Option<Error>
    decreases bands.len() - from,
{
    if from < 0 || from >= bands.len() {
        None
    } else if fault_of(bands[from]) is Some {
        fault_of(bands[from])
    } else {
        first_fault(bands, from + 1)
    }
}

/// The last of the first `n` bands that names the subband `s`.
pub open spec fn last_for(bands: Seq<BandRecord>, n: int, s: int) -> Option<int>
    decreases n,
{
    if n <= 0 {
        None
    } else if bands[n - 1].subband == s {
        Some(n - 1)
    } else {
        last_for(bands, n - 1, s)
    }
}

/// Every subband has the row of the last of the first `n` bands that names it, or is silent.
pub open spec fn is_matrix(
    rows: Seq<ScaledBand>,
    bands: Seq<BandRecord>,
    n: int,
    anchor: i32,
) -> bool {
    &&& rows.len() == 32
    &&& forall|s: int|
        0 <= s < 32 ==> match last_for(bands, n, s) {
            Some(i) => is_scaled(
                #[trigger] rows[s],
                bands[i].band_type,
                bands[i].levels,
                bands[i].granule_scf,
                anchor,
            ),
            None => is_silent(rows[s]),
        }
}

/// Decoded bands, as the contracts speak of them.
pub open spec fn records(bands: Seq<Sv8BandDecode>) -> Seq<BandRecord> {
    bands.map_values(|b: Sv8BandDecode| b@)
}

/// As many silent rows as there are subbands.
pub(crate) fn silent_matrix() -> (rows: Vec<ScaledBand>)
    ensures
        rows@.len() == 32,
        forall|s: int| 0 <= s < 32 ==> is_silent(#[trigger] rows@[s]),
{
    let mut rows: Vec<ScaledBand> = Vec::new();
    while rows.len() < SV7_SUBBAND_COUNT
        invariant
            rows@.len() <= 32,
            forall|s: int| 0 <= s < rows@.len() ==> is_silent(#[trigger] rows@[s]),
        decreases 32 - rows@.len(),
    {
        rows.push(silent_band());
    }
    rows
}

/// The rows of a channel's decoded bands, relative to the scalefactor `anchor`; subbands that
/// no band names are silent. A band past the 32nd, and a band type outside `-1..=17`, are
/// refused.
pub fn reconstruct_sv8_frame_channel(bands: &[Sv8BandDecode], anchor: i32) -> (r: Result<
    Vec<ScaledBand>,
>)
    ensures
        match r {
            Ok(rows) => first_fault(records(bands@), 0) is None && is_matrix(
                rows@,
                records(bands@),
                bands@.len() as int,
                anchor,
            ),
            Err(e) => first_fault(records(bands@), 0) == Some(e),
        },
{
    let ghost all = records(bands@);
    let mut rows: Vec<ScaledBand> = silent_matrix();
    let mut i: usize = 0;
    while i < bands.len()
        invariant
            i <= bands@.len(),
            all == records(bands@),
            first_fault(all, 0) == first_fault(all, i as int),
            is_matrix(rows@, all, i as int, anchor),
        decreases bands@.len() - i,
    {
        let band: &Sv8BandDecode = &bands[i];
        assert(all[i as int] == band@);
        if band.subband >= SV7_SUBBAND_COUNT {
            return Err(Error::MaxBandOutOfRange((band.subband % 256) as u8));
        }
        let ghost before = rows@;
        let row: ScaledBand = reconstruct_sv8_band(band, anchor)?;
        rows.set(band.subband, row);
        proof {
            assert forall|s: int| 0 <= s < 32 implies match last_for(all, i + 1, s) {
                Some(k) => is_scaled(
                    #[trigger] rows@[s],
                    all[k].band_type,
                    all[k].levels,
                    all[k].granule_scf,
                    anchor,
                ),
                None => is_silent(rows@[s]),
            } by {
                if s != band.subband {
                    assert(rows@[s] == before[s]);
                }
            }
        }
        i = i + 1;
    }
    Ok(rows)
}

/// Decodes a channel's frame body and scales its bands, relative to the scalefactor `anchor`.
pub fn decode_and_reconstruct_sv8_channel(
    tables: &Sv8TableSet,
    reader: &mut Sv7BitReader<'_>,
    nbands: u8,
    new_block: bool,
    cns: &mut CnsPrng,
    anchor: i32,
) -> (r: Result<Vec<ScaledBand>>)
    ensures
        final(reader)@.bits == old(reader)@.bits,
        ({
            let read = sv8_frame_decode::channel_read(
                *tables,
                old(reader)@.bits,
                old(reader)@.pos,
                nbands,
                new_block,
                *old(cns),
            );
            &&& final(reader)@.pos == read.pos
            &&& *final(cns) == sv8_frame_decode::noise_after(*old(cns), read.done)
            &&& match (read.result, r) {
                (Err(e), Err(f)) => e == f,
                (Err(_), Ok(_)) => false,
                (Ok(_), Err(f)) => first_fault(read.done, 0) == Some(f),
                (Ok(_), Ok(rows)) => first_fault(read.done, 0) is None && is_matrix(
                    rows@,
                    read.done,
                    nbands as int,
                    anchor,
                ),
            }
        }),
{
    let bands: Vec<Sv8BandDecode> = decode_sv8_frame_channel(
        tables,
        reader,
        nbands,
        new_block,
        cns,
    )?;
    reconstruct_sv8_frame_channel(&bands, anchor)
}

/// The first band type of a frame that has no coefficient, from row `i` on: left and right of
/// the lowest band, then of the next.
pub open spec fn type_fault(res: Seq<[i8; 2]>, i: int, n: int) -> Option<Error>
    decreases n - i,
{
    if i < 0 || i >= n {
        None
    } else if !(-1 <= res[i / 2][i % 2] <= 17) {
        Some(Error::UnsupportedBandType(res[i / 2][i % 2]))
    } else {
        type_fault(res, i + 1, n)
    }
}

/// The rows are those of a channel of a frame; bands from the `n`-th row on are silent.
pub open spec fn is_channel(
    rows: Seq<ScaledBand>,
    frame: Sv8StereoFrameDecode,
    ch: int,
    n: int,
) -> bool {
    &&& rows.len() == 32
    &&& forall|b: int|
        0 <= b < 32 ==> if 2 * b + ch < n {
            is_scaled(
                #[trigger] rows[b],
                frame.res@[b][ch],
                frame.levels@[b][ch]@,
                frame.granule_scf@[b][ch]@,
                UNIT_GAIN_SCF,
            )
        } else {
            is_silent(rows[b])
        }
}

/// The rows of both channels of a decoded frame, in absolute gain; bands past the used ones
/// are silent. A band type outside `-1..=17` is refused.
pub fn reconstruct_sv8_stereo_frame(frame: &Sv8StereoFrameDecode) -> (r: Result<
    (Vec<ScaledBand>, Vec<ScaledBand>),
>)
    requires
        frame.nbands <= 32,
        frame.nbands <= frame.res@.len(),
        frame.nbands <= frame.levels@.len(),
        frame.nbands <= frame.granule_scf@.len(),
    ensures
        match r {
            Ok((left, right)) => {
                &&& type_fault(frame.res@, 0, 2 * frame.nbands) is None
                &&& is_channel(left@, *frame, 0, 2 * frame.nbands)
                &&& is_channel(right@, *frame, 1, 2 * frame.nbands)
            },
            Err(e) => type_fault(frame.res@, 0, 2 * frame.nbands) == Some(e),
        },
{
    let mut left: Vec<ScaledBand> = silent_matrix();
    let mut right: Vec<ScaledBand> = silent_matrix();
    let n: usize = 2 * frame.nbands as usize;
    let mut i: usize = 0;
    while i < n
        invariant
            i <= n == 2 * frame.nbands,
            frame.nbands <= 32,
            frame.nbands <= frame.res@.len(),
            frame.nbands <= frame.levels@.len(),
            frame.nbands <= frame.granule_scf@.len(),
            type_fault(frame.res@, 0, n as int) == type_fault(frame.res@, i as int, n as int),
            is_channel(left@, *frame, 0, i as int),
            is_channel(right@, *frame, 1, i as int),
        decreases n - i,
    {
        let b: usize = i / 2;
        let ch: usize = i % 2;
        let row: ScaledBand = scale_band(
            frame.res[b][ch],
            &frame.levels[b][ch],
            &frame.granule_scf[b][ch],
            UNIT_GAIN_SCF,
        )?;
        if ch == 0 {
            left.set(b, row);
        } else {
            right.set(b, row);
        }
        i = i + 1;
    }
    Ok((left, right))
}

} // verus!
