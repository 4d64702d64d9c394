//! What becomes of levels and scalefactors: how frames are built from bands, and what scales
//! the levels of a frame.

use crate::error::Error;
use crate::sv7_reconstruct;
use crate::sv7_stereo_frame::Sv7StereoFrame;
use crate::sv8_frame_build;
use crate::sv8_frame_build::ElectedBand;
use crate::sv8_frame_decode::BandRecord;
use crate::sv8_quantize;
use crate::sv8_reconstruct;
use crate::sv8_reconstruct::ScaledBand;
use crate::sv8_stereo_frame::Sv8StereoFrameDecode;
use vstd::arithmetic::power2::*;
use vstd::prelude::*;

verus! {

// ---------------------------------------------------------------------------
// Quantisation
// ---------------------------------------------------------------------------

/// The largest levels: types up to 4 have their own number, and each type from 5 up has half
/// of what `type - 1` bits hold, without the lowest.
pub proof fn law_largest_level(band_type: int)
    requires
        1 <= band_type <= 17,
    ensures
        band_type <= 4 ==> sv8_quantize::largest_level(band_type) == band_type,
        band_type == 5 ==> sv8_quantize::largest_level(band_type) == 7,
        band_type > 5 ==> sv8_quantize::largest_level(band_type) == 2 * sv8_quantize::largest_level(
            band_type - 1,
        ) + 1,
        band_type >= 5 ==> 2 * sv8_quantize::largest_level(band_type) + 2 == pow2(
            (band_type - 1) as nat,
        ),
{
    lemma2_to64();
    if band_type >= 5 {
        lemma_pow2_unfold((band_type - 1) as nat);
        lemma_pow2_unfold((band_type - 2) as nat);
    }
}

/// A value that is kept within bounds lies there, and is the nearest that does.
pub proof fn law_clamped(v: int, lo: int, hi: int, other: int)
    requires
        lo <= hi,
        lo <= other <= hi,
    ensures
        lo <= sv8_quantize::clamped(v, lo, hi) <= hi,
        v <= other ==> v <= sv8_quantize::clamped(v, lo, hi) <= other,
        v >= other ==> other <= sv8_quantize::clamped(v, lo, hi) <= v,
{
}

/// A third of a band has its own scalefactor, else that of the nearest third before it that
/// has one, else that of the nearest behind it, else the highest.
pub proof fn law_shared_scf(own: [Option<i32>; 3], g: int, near: int)
    requires
        0 <= g < 3,
        0 <= near < 3,
    ensures
        own[g] is Some ==> sv8_quantize::shared_scf(own, g) == own[g]->0,
        near < g && own[near] is Some && (forall|j: int| near < j <= g ==> own[j] is None)
            ==> sv8_quantize::shared_scf(own, g) == own[near]->0,
        near > g && own[near] is Some && (forall|j: int| 0 <= j < near ==> own[j] is None)
            ==> sv8_quantize::shared_scf(own, g) == own[near]->0,
        (forall|j: int| 0 <= j < 3 ==> own[j] is None) ==> sv8_quantize::shared_scf(own, g) == 121,
{
    assert(own[0] is None || own[0] is Some);
    assert(own[1] is None || own[1] is Some);
    assert(own[2] is None || own[2] is Some);
}

// ---------------------------------------------------------------------------
// Frames from bands
// ---------------------------------------------------------------------------

/// The scalefactor method has two bits: the higher is set where the second scalefactor equals
/// the first, the lower where the third equals the second.
pub proof fn law_sharing_bits(scf: [i32; 3])
    ensures
        0 <= sv8_frame_build::sharing_method(scf) < 4,
        sv8_frame_build::sharing_method(scf) / 2 == 1 <==> scf[1] == scf[0],
        sv8_frame_build::sharing_method(scf) % 2 == 1 <==> scf[2] == scf[1],
{
}

/// A frame goes up to the highest of the bands looked at that codes something, and no bands
/// above the highest band or beyond those given are looked at.
pub proof fn law_used_bands(bands: Seq<ElectedBand>, max_band: u8)
    ensures
        ({
            let most = sv8_frame_build::considered(bands.len(), max_band);
            let n = sv8_frame_build::used_bands(bands, most);
            &&& most <= bands.len() && most <= max_band + 1
            &&& most == bands.len() || most == max_band + 1
            &&& 0 <= n <= most
            &&& n > 0 ==> bands[n - 1].channels[0].bt != 0 || bands[n - 1].channels[1].bt != 0
            &&& forall|b: int|
                n <= b < most ==> (#[trigger] bands[b]).channels[0].bt == 0
                    && bands[b].channels[1].bt == 0
        }),
{
    lemma_used(bands, sv8_frame_build::considered(bands.len(), max_band));
}

proof fn lemma_used(bands: Seq<ElectedBand>, m: int)
    requires
        0 <= m,
    ensures
        ({
            let n = sv8_frame_build::used_bands(bands, m);
            &&& 0 <= n <= m
            &&& n > 0 ==> bands[n - 1].channels[0].bt != 0 || bands[n - 1].channels[1].bt != 0
            &&& forall|b: int|
                n <= b < m ==> (#[trigger] bands[b]).channels[0].bt == 0 && bands[b].channels[1].bt
                    == 0
        }),
    decreases m,
{
    if m > 0 && !sv8_frame_build::is_coded(bands[m - 1]) {
        lemma_used(bands, m - 1);
    }
}

/// A built frame has the types, scalefactors and levels of its bands, left and right of the
/// lowest band, then of the next; a channel that codes nothing has zeros. A band has a
/// mid/side flag where it is mid and side and codes something.
pub proof fn law_built_frame(bands: Seq<ElectedBand>, n: nat, b: int, ch: int)
    requires
        n <= 32,
        0 <= b < n <= bands.len(),
        0 <= ch < 2,
    ensures
        ({
            let f = sv8_frame_build::frame_of(bands, n);
            let c = bands[b].channels[ch];
            let i = 2 * b + ch;
            &&& f.nbands == n
            &&& f.res.len() == n && f.ms_flags.len() == n && f.scfi.len() == n
            &&& f.scf.len() == 2 * n && f.levels.len() == 2 * n
            &&& f.res[b][ch] == c.bt
            &&& f.ms_flags[b] <==> bands[b].ms && (f.res[b][0] != 0 || f.res[b][1] != 0)
            &&& c.bt != 0 ==> f.scf[i] == c.q.scf && f.levels[i] == c.q.levels@
            &&& c.bt != 0 ==> (f.scfi[b][ch] >= 2 <==> c.q.scf[1] == c.q.scf[0])
            &&& c.bt != 0 ==> (f.scfi[b][ch] as int % 2 == 1 <==> c.q.scf[2] == c.q.scf[1])
            &&& c.bt == 0 ==> f.scf[i] == [0i32, 0i32, 0i32] && f.scfi[b][ch] == 0
            &&& c.bt == 0 ==> f.levels[i].len() == 36 && forall|k: int|
                0 <= k < 36 ==> #[trigger] f.levels[i][k] == 0
        }),
{
    assert((2 * b + ch) / 2 == b && (2 * b + ch) % 2 == ch);
    assert(ch == 0 || ch == 1);
}

// ---------------------------------------------------------------------------
// Scaling
// ---------------------------------------------------------------------------

/// A band's levels are scaled by the coefficient of its type, of which noise has the first,
/// and by the steps of its scalefactors from that of unit gain. A band that codes nothing, and
/// one that the frame does not have, is silent.
pub proof fn law_scaled_channel(
    rows: Seq<ScaledBand>,
    frame: Sv8StereoFrameDecode,
    ch: int,
    n: int,
    b: int,
)
    requires
        sv8_reconstruct::is_channel(rows, frame, ch, n),
        0 <= b < 32,
    ensures
        rows.len() == 32,
        2 * b + ch < n && frame.res@[b][ch] != 0 ==> {
            &&& rows[b].coefficient == frame.res@[b][ch] + 1
            &&& rows[b].levels@ == frame.levels@[b][ch]@
            &&& rows[b].steps[0] == frame.granule_scf@[b][ch][0] - 1
            &&& rows[b].steps[1] == frame.granule_scf@[b][ch][1] - 1
            &&& rows[b].steps[2] == frame.granule_scf@[b][ch][2] - 1
        },
        2 * b + ch >= n || frame.res@[b][ch] == 0 ==> forall|k: int|
            0 <= k < 36 ==> #[trigger] rows[b].levels[k] == 0,
{
    assert(rows[b] == rows[b]);
}

/// The same of a frame of the older format, whose levels of type 8 and above lie around
/// `2^(type - 2) - 1`, and are scaled around zero.
pub proof fn law_scaled_older_channel(
    rows: Seq<ScaledBand>,
    frame: Sv7StereoFrame,
    ch: int,
    n: int,
    b: int,
    k: int,
)
    requires
        sv7_reconstruct::is_channel(rows, frame, ch, n),
        0 <= b < 32,
        0 <= k < 36,
        sv7_reconstruct::can_centre(frame.levels@[2 * b + ch]@),
        -1 <= frame.res@[b][ch] <= 17,
    ensures
        rows.len() == 32,
        2 * b + ch < n && frame.res@[b][ch] != 0 ==> {
            let t = frame.res@[b][ch];
            let l = frame.levels@[2 * b + ch][k];
            &&& rows[b].coefficient == t + 1
            &&& t < 8 ==> rows[b].levels[k] == l
            &&& t >= 8 ==> rows[b].levels[k] == l - (pow2((t - 2) as nat) - 1)
            &&& rows[b].steps[0] == frame.granule_scf@[2 * b + ch][0] - 1
            &&& rows[b].steps[1] == frame.granule_scf@[2 * b + ch][1] - 1
            &&& rows[b].steps[2] == frame.granule_scf@[2 * b + ch][2] - 1
        },
        2 * b + ch >= n || frame.res@[b][ch] == 0 ==> rows[b].levels[k] == 0,
{
    let row = rows[b];
    let t = frame.res@[b][ch] as int;
    let levels = frame.levels@[2 * b + ch]@;
    if 2 * b + ch < n && t != 0 {
        assert(row.levels@ == sv7_reconstruct::centred(t, levels));
        assert(row.levels@[k] == (levels[k] - sv7_reconstruct::centre(t)) as i32);
        assert(levels[k] >= i32::MIN + 32767);
        lemma2_to64();
        if t >= 8 && t < 17 {
            lemma_pow2_strictly_increases((t - 2) as nat, 15);
        }
        if t >= 8 {
            lemma_pow2_pos((t - 2) as nat);
        }
        assert(row.steps[0] == row.steps[0] && row.steps[1] == row.steps[1] && row.steps[2]
            == row.steps[2]);
    } else {
        assert(row.levels[k] == row.levels[k]);
    }
}

/// Bands that are given one by one: the last one for a place is what is there, scaled by its
/// own type and scalefactors, and a place without one is silent.
pub proof fn law_scaled_matrix(
    rows: Seq<ScaledBand>,
    bands: Seq<BandRecord>,
    anchor: i32,
    s: int,
    i: int,
)
    requires
        sv8_reconstruct::is_matrix(rows, bands, bands.len() as int, anchor),
        0 <= s < 32,
        0 <= i < bands.len(),
        bands[i].subband == s,
        forall|j: int| i < j < bands.len() ==> (#[trigger] bands[j]).subband != s,
    ensures
        rows.len() == 32,
        bands[i].band_type != 0 ==> {
            &&& rows[s].coefficient == bands[i].band_type + 1
            &&& rows[s].levels@ == bands[i].levels
            &&& rows[s].steps[0] == bands[i].granule_scf[0] - anchor
            &&& rows[s].steps[1] == bands[i].granule_scf[1] - anchor
            &&& rows[s].steps[2] == bands[i].granule_scf[2] - anchor
        },
        bands[i].band_type == 0 ==> forall|k: int|
            0 <= k < 36 ==> #[trigger] rows[s].levels[k] == 0,
{
    lemma_last_for(bands, bands.len() as int, s, i);
    assert(rows[s] == rows[s]);
    let row = rows[s];
    assert(row.steps[0] == row.steps[0] && row.steps[1] == row.steps[1] && row.steps[2]
        == row.steps[2]);
}

proof fn lemma_last_for(bands: Seq<BandRecord>, n: int, s: int, i: int)
    requires
        0 <= i < n <= bands.len(),
        bands[i].subband == s,
        forall|j: int| i < j < n ==> (#[trigger] bands[j]).subband != s,
    ensures
        sv8_reconstruct::last_for(bands, n, s) == Some(i),
    decreases n,
{
    if i < n - 1 {
        assert(bands[n - 1].subband != s);
        lemma_last_for(bands, n - 1, s, i);
    }
}

/// A band is refused where it has no place, or its type has no coefficient.
pub proof fn law_refused_band(band: BandRecord)
    ensures
        sv8_reconstruct::fault_of(band) is None <==> band.subband < 32 && -1 <= band.band_type
            <= 17,
        band.subband < 32 && !(-1 <= band.band_type <= 17) ==> sv8_reconstruct::fault_of(band)
            == Some(Error::UnsupportedBandType(band.band_type)),
{
}

} // verus!
