//! Quantisation of subband samples.

#![allow(dead_code)]

use oxideav_musepack::cns::SAMPLES_PER_BAND;
use oxideav_musepack::error::{Error, Result};
use oxideav_musepack::sv8_dscf_loop::SCF_GRANULES_PER_BAND;
use oxideav_musepack::sv8_frame_decode::Sv8BandDecode;
use oxideav_musepack::sv8_quantize::{
    QuantizedBand, SAMPLES_PER_GRANULE, SV8_SCF_MAX, SV8_SCF_MIN, band_type_for_span, clamp_levels,
    clamp_scf, quantizer_offset, share_granule_scf,
};
use oxideav_musepack::sv8_reconstruct::{ScaledBand, UNIT_GAIN_SCF, reconstruct_sv8_band};

/// Subbands of a channel.
const SUBBANDS: usize = 32;

/// The subband samples of a frame of a channel.
type SubbandMatrix = [[f64; SAMPLES_PER_BAND]; SUBBANDS];

/// The ratio of the gains of two neighbouring scalefactors.
const SCF_STEP_RATIO: f64 = 0.832_980_664_765_826_7;

/// The coefficient of a noise level.
const NOISE_COEFFICIENT: f64 = 111.285_962_475_327;

/// What a sample of relative gain is divided by.
const DEQUANT_DIVISOR: f64 = 65536.0;

/// A silent matrix.
fn zero_subband_matrix() -> SubbandMatrix {
    [[0.0; SAMPLES_PER_BAND]; SUBBANDS]
}

/// The coefficient of a band type with levels.
fn level_coefficient(band_type: i8) -> Result<f64> {
    let d = quantizer_offset(band_type)?;
    Ok(DEQUANT_DIVISOR / f64::from(2 * d + 1))
}

/// The coefficient of the given number, one more than its band type.
fn coefficient(number: u8) -> Result<f64> {
    match number {
        0 => Ok(NOISE_COEFFICIENT),
        1 => Ok(DEQUANT_DIVISOR),
        2..=18 => level_coefficient(number as i8 - 1),
        _ => Err(Error::UnsupportedBandType(i8::MAX)),
    }
}

/// The gain of a scalefactor.
fn absolute_scf_gain(scf: i32) -> f64 {
    SCF_STEP_RATIO.powf(f64::from(scf) - f64::from(UNIT_GAIN_SCF))
}

/// The samples of a row.
fn row_samples(row: &ScaledBand) -> Result<[f64; SAMPLES_PER_BAND]> {
    let c = coefficient(row.coefficient)?;
    let mut out = [0.0; SAMPLES_PER_BAND];
    for (k, (slot, &level)) in out.iter_mut().zip(&row.levels).enumerate() {
        let gain = SCF_STEP_RATIO.powf(row.steps[k / SAMPLES_PER_GRANULE] as f64);
        *slot = f64::from(level) * c * gain;
    }
    Ok(out)
}

/// The samples of a channel.
fn channel_samples(rows: &[ScaledBand]) -> Result<SubbandMatrix> {
    let mut out = zero_subband_matrix();
    for (slot, row) in out.iter_mut().zip(rows) {
        *slot = row_samples(row)?;
    }
    Ok(out)
}

/// Turns mid and side back into left and right, where the flags ask for it.
fn undo_ms_stereo(left: &mut SubbandMatrix, right: &mut SubbandMatrix, flags: &[bool]) {
    for (b, _) in flags.iter().enumerate().take(SUBBANDS).filter(|&(_, &f)| f) {
        for (l, r) in left[b].iter_mut().zip(right[b].iter_mut()) {
            let (mid, side) = (*l, *r);
            *l = mid + side;
            *r = mid - side;
        }
    }
}

/// The difference of two neighbouring levels at a scalefactor.
fn quant_step(band_type: i8, scf: i32) -> Result<f64> {
    Ok(level_coefficient(band_type)? * absolute_scf_gain(scf))
}

/// The largest scalefactor with which the levels of a band type still reach `peak`. It is found
/// by a logarithm in floating point.
fn choose_granule_scf(band_type: i8, peak: f64) -> Result<i32> {
    let span = level_coefficient(band_type)? * f64::from(quantizer_offset(band_type)?);
    if peak <= 0.0 {
        return Ok(SV8_SCF_MAX);
    }
    let fitting = ((peak / span).ln() / SCF_STEP_RATIO.ln()).floor() as i32;
    let mut scf = clamp_scf(fitting.saturating_add(1));
    while scf > SV8_SCF_MIN && span * absolute_scf_gain(scf) < peak {
        scf -= 1;
    }
    Ok(scf)
}

/// The largest magnitude.
fn peak(samples: &[f64]) -> f64 {
    samples.iter().fold(0.0, |a, &x| a.max(x.abs()))
}

/// The nearest levels of the samples of a third of a band, kept to those of the band type. The
/// quotients are in floating point.
fn quantize_granule(band_type: i8, scf: i32, samples: &[f64], out: &mut [i32]) -> Result<()> {
    let step = quant_step(band_type, scf)?;
    let mut nearest = [0_i32; SAMPLES_PER_BAND];
    for (slot, &x) in nearest.iter_mut().zip(samples) {
        *slot = (x / step).round() as i32;
    }
    let levels = clamp_levels(band_type, &nearest)?;
    for (slot, &level) in out.iter_mut().zip(&levels) {
        *slot = level;
    }
    Ok(())
}

/// Quantises a band: a scalefactor for each third of it, and the nearest levels. The quotients
/// are in floating point.
fn quantize_band(band_type: i8, samples: &[f64; SAMPLES_PER_BAND]) -> Result<QuantizedBand> {
    let mut own = [None; SCF_GRANULES_PER_BAND];
    for (slot, granule) in own.iter_mut().zip(samples.chunks_exact(SAMPLES_PER_GRANULE)) {
        let p = peak(granule);
        if p > 0.0 {
            *slot = Some(choose_granule_scf(band_type, p)?);
        }
    }
    let scf = share_granule_scf(&own);
    let mut levels = [0_i32; SAMPLES_PER_BAND];
    let parts = levels.chunks_exact_mut(SAMPLES_PER_GRANULE);
    for ((out, granule), &own) in parts.zip(samples.chunks_exact(SAMPLES_PER_GRANULE)).zip(&scf) {
        quantize_granule(band_type, own, granule, out)?;
    }
    Ok(QuantizedBand { scf, levels })
}

/// The smallest band type that reaches `peak` with steps of `step_target`; none where the peak
/// is under half a step.
fn band_type_for_peak(peak: f64, step_target: f64) -> i8 {
    if peak < 0.5 * step_target {
        return 0;
    }
    band_type_for_span((peak / step_target).ceil() as u32)
}

struct Rng(u64);

impl Rng {
    fn next(&mut self) -> f64 {
        let mut x = self.0;
        x ^= x >> 12;
        x ^= x << 25;
        x ^= x >> 27;
        self.0 = x;
        let v = x.wrapping_mul(0x2545_F491_4F6C_DD1D);
        ((v >> 11) as f64) / ((1u64 << 53) as f64) * 2.0 - 1.0
    }
}

/// The samples of quantised levels.
fn absolute(bt: i8, q: &QuantizedBand) -> [f64; SAMPLES_PER_BAND] {
    let band = Sv8BandDecode { subband: 0, band_type: bt, granule_scf: q.scf, levels: q.levels };
    row_samples(&reconstruct_sv8_band(&band, UNIT_GAIN_SCF).unwrap()).unwrap()
}

#[test]
fn granule_scf_is_maximal_fitting_index() {
    for bt in 1..=17_i8 {
        let span = level_coefficient(bt).unwrap() * f64::from(quantizer_offset(bt).unwrap());
        for &peak in &[0.5, 3.0, 100.0, 5_000.0, 32_767.0, 40_000.0] {
            let scf = choose_granule_scf(bt, peak).unwrap();
            assert!((SV8_SCF_MIN..=SV8_SCF_MAX).contains(&scf), "bt {bt} peak {peak}");
            if scf > SV8_SCF_MIN {
                assert!(
                    span * absolute_scf_gain(scf) >= peak,
                    "bt {bt} peak {peak}: chosen scf {scf} must span the peak"
                );
            }
            if scf < SV8_SCF_MAX {
                assert!(
                    span * absolute_scf_gain(scf + 1) < peak || scf == SV8_SCF_MIN,
                    "bt {bt} peak {peak}: scf {scf} must be maximal"
                );
            }
        }
    }
}

#[test]
fn zero_peak_takes_quietest_index() {
    assert_eq!(choose_granule_scf(5, 0.0).unwrap(), SV8_SCF_MAX);
    assert_eq!(choose_granule_scf(17, -1.0).unwrap(), SV8_SCF_MAX);
}

#[test]
fn rejects_non_sample_band_types() {
    for bt in [-1, 0, 18, i8::MAX] {
        assert!(matches!(choose_granule_scf(bt, 1.0), Err(Error::UnsupportedBandType(_))));
        assert!(matches!(quant_step(bt, 1), Err(Error::UnsupportedBandType(_))));
        assert_eq!(clamp_levels(bt, &[0; SAMPLES_PER_BAND]), Err(Error::UnsupportedBandType(bt)));
    }
}

#[test]
fn round_trip_error_within_half_step() {
    let mut rng = Rng(0x5EED_CAFE_0123_4567);
    for bt in 1..=17_i8 {
        for &peak in &[2.0, 57.0, 1_000.0, 30_000.0] {
            let mut samples = [0.0_f64; SAMPLES_PER_BAND];
            for s in samples.iter_mut() {
                *s = rng.next() * peak;
            }
            let q = quantize_band(bt, &samples).unwrap();
            let recon = absolute(bt, &q);
            for g in 0..SCF_GRANULES_PER_BAND {
                let step = quant_step(bt, q.scf[g]).unwrap();
                for k in g * SAMPLES_PER_GRANULE..(g + 1) * SAMPLES_PER_GRANULE {
                    let err = (recon[k] - samples[k]).abs();
                    assert!(
                        err <= 0.5 * step * (1.0 + 1e-9),
                        "bt {bt} peak {peak} sample {k}: err {err} > step/2 {}",
                        0.5 * step
                    );
                }
            }
        }
    }
}

#[test]
fn levels_fit_alphabet_even_past_headroom() {
    let mut rng = Rng(99);
    for bt in 1..=17_i8 {
        let d = quantizer_offset(bt).unwrap();
        let mut samples = [0.0_f64; SAMPLES_PER_BAND];
        for s in samples.iter_mut() {
            *s = rng.next() * 500_000.0;
        }
        let q = quantize_band(bt, &samples).unwrap();
        assert!(q.levels.iter().all(|&l| l.abs() <= d), "bt {bt}");
        assert!(q.scf.iter().all(|&s| s == SV8_SCF_MIN), "bt {bt}: saturated");
    }
}

#[test]
fn zero_granules_share_neighbour_scf() {
    let mut samples = [0.0_f64; SAMPLES_PER_BAND];
    for s in samples[SAMPLES_PER_GRANULE..2 * SAMPLES_PER_GRANULE].iter_mut() {
        *s = 500.0;
    }
    let q = quantize_band(5, &samples).unwrap();
    assert_eq!(q.scf[0], q.scf[1], "leading zero granule shares");
    assert_eq!(q.scf[2], q.scf[1], "trailing zero granule shares");
    assert!(q.levels[..SAMPLES_PER_GRANULE].iter().all(|&l| l == 0));

    let silent = quantize_band(5, &[0.0; SAMPLES_PER_BAND]).unwrap();
    assert_eq!(silent.scf, [SV8_SCF_MAX; 3]);
    assert!(silent.levels.iter().all(|&l| l == 0));
}

#[test]
fn band_type_policy_thresholds() {
    let t = 2.0;
    assert_eq!(band_type_for_peak(0.0, t), 0);
    assert_eq!(band_type_for_peak(0.9, t), 0);
    assert_eq!(band_type_for_peak(1.5, t), 1);
    assert_eq!(band_type_for_peak(4.0, t), 2);
    assert_eq!(band_type_for_peak(8.0, t), 4);
    assert_eq!(band_type_for_peak(14.0, t), 5);
    assert_eq!(band_type_for_peak(32_767.0, 1.0), 17);
    assert_eq!(band_type_for_peak(1.0e9, 1.0), 17, "saturates at 17");
    let mut prev = 0;
    for p in 0..2_000 {
        let bt = band_type_for_peak(f64::from(p), t);
        assert!(bt >= prev, "policy must be monotone");
        prev = bt;
    }
}

#[test]
fn full_scale_finest_quantiser_is_lsb_accurate() {
    let mut rng = Rng(3);
    let mut samples = [0.0_f64; SAMPLES_PER_BAND];
    for s in samples.iter_mut() {
        *s = rng.next() * 32_000.0;
    }
    let q = quantize_band(17, &samples).unwrap();
    let recon = absolute(17, &q);
    for (k, (&r, &x)) in recon.iter().zip(samples.iter()).enumerate() {
        assert!((r - x).abs() <= 0.7, "sample {k}: {r} vs {x}");
    }
}

#[test]
fn largest_levels_of_the_band_types() {
    let all: Vec<i32> = (1..=17).map(|bt| quantizer_offset(bt).unwrap()).collect();
    let want =
        [1, 2, 3, 4, 7, 15, 31, 63, 127, 255, 511, 1023, 2047, 4095, 8191, 16383, 32767];
    assert_eq!(all, want);
}

#[test]
fn silent_thirds_take_the_scalefactor_before_them_first() {
    assert_eq!(share_granule_scf(&[Some(4), None, Some(9)]), [4, 4, 9]);
    assert_eq!(share_granule_scf(&[None, Some(4), None]), [4, 4, 4]);
    assert_eq!(share_granule_scf(&[None, None, Some(-6)]), [-6, -6, -6]);
    assert_eq!(share_granule_scf(&[None, None, None]), [121, 121, 121]);
    assert_eq!(share_granule_scf(&[Some(1), Some(2), Some(3)]), [1, 2, 3]);
}

#[test]
fn scalefactors_and_levels_are_clamped() {
    assert_eq!(clamp_scf(-7), -6);
    assert_eq!(clamp_scf(122), 121);
    assert_eq!(clamp_scf(50), 50);
    let mut levels = [0; SAMPLES_PER_BAND];
    levels[0] = i32::MIN;
    levels[1] = i32::MAX;
    levels[2] = -7;
    let c = clamp_levels(5, &levels).unwrap();
    assert_eq!(&c[..4], &[-7, 7, -7, 0]);
}

#[test]
fn more_span_asks_for_no_smaller_band_type() {
    let mut prev = 0;
    for span in 0..70_000 {
        let bt = band_type_for_span(span);
        assert!(bt >= prev);
        prev = bt;
    }
    assert_eq!(band_type_for_span(32_768), 17);
}
