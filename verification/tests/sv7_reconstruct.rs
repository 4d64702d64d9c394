//! SV7 frames as scaled samples.

#![allow(dead_code)]

use oxideav_musepack::cns::SAMPLES_PER_BAND;
use oxideav_musepack::error::Error;
use oxideav_musepack::sv7_reconstruct::{centre_pcm_band, reconstruct_sv7_stereo_frame};
use oxideav_musepack::sv7_stereo_frame::Sv7StereoFrame;
use oxideav_musepack::sv8_reconstruct::silent_band;

fn frame(res: [i8; 2], levels: [[i32; SAMPLES_PER_BAND]; 2]) -> Sv7StereoFrame {
    Sv7StereoFrame {
        res: vec![res],
        ms_flags: vec![false],
        granule_scf: vec![[1, 2, 3], [4, 4, 4]],
        levels: levels.to_vec(),
    }
}

#[test]
fn large_levels_are_centred() {
    let (left, right) =
        reconstruct_sv7_stereo_frame(&frame([8, 17], [[0; 36], [65534; 36]])).unwrap();
    assert_eq!((left.len(), right.len()), (32, 32));
    assert_eq!(left[0].coefficient, 9);
    assert_eq!(left[0].levels, [-63; 36]);
    assert_eq!(left[0].steps, [0, 1, 2]);
    assert_eq!(right[0].coefficient, 18);
    assert_eq!(right[0].levels, [32767; 36]);
    assert_eq!(right[0].steps, [3, 3, 3]);
    assert!(left[1..].iter().chain(&right[1..]).all(|r| *r == silent_band()));
}

#[test]
fn small_levels_and_noise_stay_as_they_are() {
    let (left, right) = reconstruct_sv7_stereo_frame(&frame([7, -1], [[-31; 36], [5; 36]])).unwrap();
    assert_eq!(left[0].levels, [-31; 36]);
    assert_eq!(right[0].coefficient, 0);
    assert_eq!(right[0].levels, [5; 36]);
    assert_eq!(centre_pcm_band(12, &[0; 36]), [-1023; 36]);
    assert_eq!(centre_pcm_band(18, &[3; 36]), [3; 36]);
}

#[test]
fn empty_bands_and_strange_types() {
    let (left, _) = reconstruct_sv7_stereo_frame(&frame([0, 1], [[9; 36], [1; 36]])).unwrap();
    assert_eq!(left[0], silent_band());
    assert_eq!(
        reconstruct_sv7_stereo_frame(&frame([1, 18], [[0; 36]; 2])),
        Err(Error::UnsupportedBandType(18))
    );
}
