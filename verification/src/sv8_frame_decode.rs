//! The frame body of a single channel: band types first, then every band's
//! scalefactors and samples, from the lowest band up.

use crate::bit_reader::Sv7BitReader;
use crate::cns::{CnsPrng, SAMPLES_PER_BAND};
use crate::coding;
use crate::coding::{Parsed, Swept};
use crate::error::{Error, Result};
use crate::sv8_band_decode;
use crate::sv8_band_decode::{decode_sv8_band_grounded, sv8_band_type_case, Sv8BandDecodeCase};
use crate::sv8_band_header;
use crate::sv8_band_header::decode_band_resolutions_grounded;
use crate::sv8_dscf_loop;
use crate::sv8_dscf_loop::{decode_sv8_band_scf, SCF_GRANULES_PER_BAND};
use crate::sv8_huffman::Sv8TableSet;
use crate::sv8_scf_header;
use crate::sv8_scf_header::{decode_sv8_scfi, Sv8BandScfi};
use vstd::prelude::*;

verus! {

/// Bands per channel.
pub const SV7_SUBBAND_COUNT: usize = 32;

/// One decoded band of a channel.
#[derive(Debug, Clone, PartialEq, Eq)]
pub struct Sv8BandDecode {
    /// Number of the band.
    pub subband: usize,
    /// Band type.
    pub band_type: i8,
    /// Scalefactors; zero where the band type has none.
    pub granule_scf: [i32; SCF_GRANULES_PER_BAND],
    /// Levels.
    pub levels: [i32; SAMPLES_PER_BAND],
}

/// A decoded band, as the contracts speak of it.
#[verifier::ext_equal]
pub struct BandRecord {
    pub subband: int,
    pub band_type: i8,
    pub granule_scf: Seq<i32>,
    pub levels: Seq<i32>,
}

impl View for Sv8BandDecode {
    type V = BandRecord;

    open spec fn view(&self) -> BandRecord {
        BandRecord {
            subband: self.subband as int,
            band_type: self.band_type,
            granule_scf: self.granule_scf@,
            levels: self.levels@,
        }
    }
}

/// The band type has scalefactors and coded samples.
pub open spec fn has_scalefactors(band_type: int) -> bool {
    band_type > 0
}

/// The last scalefactor coded before the next band, `0` before the first.
pub open spec fn last_scalefactor(done: Seq<BandRecord>) -> int
    decreases done.len(),
{
    if done.len() == 0 {
        0
    } else if has_scalefactors(done.last().band_type as int) {
        done.last().granule_scf[2] as int
    } else {
        last_scalefactor(done.drop_last())
    }
}

/// The noise generator behind the bands `done`.
pub open spec fn noise_after(noise: CnsPrng, done: Seq<BandRecord>) -> CnsPrng
    decreases done.len(),
{
    if done.len() == 0 {
        noise
    } else if done.last().band_type == -1 {
        noise_after(noise, done.drop_last()).steps(36)
    } else {
        noise_after(noise, done.drop_last())
    }
}

/// Outcome of decoding the scalefactors of a band of a single channel.
pub open spec fn parse_scalefactors(
    tables: Sv8TableSet,
    bits: Seq<bool>,
    pos: nat,
    new_block: bool,
    prev: int,
) -> Parsed<[i32; 3]> {
    match sv8_scf_header::parse_methods(tables, bits, pos, 1) {
        (Ok(m), p) => sv8_dscf_loop::parse_band_scf(tables, bits, p, m.left, new_block, prev),
        (Err(e), p) => (Err(e), p),
    }
}

/// Outcome of decoding band `b` of a single channel.
pub open spec fn parse_band(
    tables: Sv8TableSet,
    bits: Seq<bool>,
    pos: nat,
    b: int,
    band_type: i8,
    new_block: bool,
    prev: int,
    noise: CnsPrng,
) -> Parsed<BandRecord> {
    if has_scalefactors(band_type as int) {
        match parse_scalefactors(tables, bits, pos, new_block, prev) {
            (Ok(scf), p) => {
                let read = sv8_band_decode::band_read(
                    tables,
                    bits,
                    p,
                    band_type as int,
                    noise,
                    sv8_band_decode::silence(),
                );
                match read.result {
                    Ok(_) => (
                        Ok(
                            BandRecord {
                                subband: b,
                                band_type,
                                granule_scf: scf@,
                                levels: read.levels,
                            },
                        ),
                        read.pos,
                    ),
                    Err(e) => (Err(e), read.pos),
                }
            },
            (Err(e), p) => (Err(e), p),
        }
    } else if band_type < -1 {
        (Err(Error::UnsupportedBandType(band_type)), pos)
    } else {
        let levels = if band_type == 0 {
            sv8_band_decode::silence()
        } else {
            noise.noise()
        };
        (
            Ok(
                BandRecord { subband: b, band_type, granule_scf: seq![0i32, 0i32, 0i32], levels },
            ),
            pos,
        )
    }
}

/// The steps that decode the bands of a single channel.
pub open spec fn band_step(
    tables: Sv8TableSet,
    bits: Seq<bool>,
    types: Seq<i8>,
    new_block: bool,
    noise: CnsPrng,
) -> spec_fn(Seq<BandRecord>, nat) -> Parsed<BandRecord> {
    |done: Seq<BandRecord>, pos: nat|
        parse_band(
            tables,
            bits,
            pos,
            done.len() as int,
            types[done.len() as int],
            new_block,
            last_scalefactor(done),
            noise_after(noise, done),
        )
}

/// Decoding the bands of a single channel, up to the first that fails.
pub open spec fn channel_read(
    tables: Sv8TableSet,
    bits: Seq<bool>,
    pos: nat,
    nbands: u8,
    new_block: bool,
    noise: CnsPrng,
) -> Swept<BandRecord> {
    if nbands > SV7_SUBBAND_COUNT {
        Swept { done: Seq::empty(), result: Err(Error::MaxBandOutOfRange(nbands)), pos }
    } else {
        match sv8_band_header::parse_types(tables, bits, pos, nbands as nat) {
            (Ok(types), p) => coding::sweep(
                band_step(tables, bits, types, new_block, noise),
                nbands as nat,
                Seq::empty(),
                p,
            ),
            (Err(e), p) => Swept { done: Seq::empty(), result: Err(e), pos: p },
        }
    }
}

/// Decodes the frame body of a single channel. `new_block` tells whether first
/// scalefactors are coded outright; else each is a difference to the last one of the
/// coded band below. Noise bands advance the generator, also before a failure.
pub fn decode_sv8_frame_channel(
    tables: &Sv8TableSet,
    reader: &mut Sv7BitReader<'_>,
    nbands: u8,
    new_block: bool,
    cns: &mut CnsPrng,
) -> (r: Result<Vec<Sv8BandDecode>>)
    ensures
        final(reader)@.bits == old(reader)@.bits,
        ({
            let read = channel_read(
                *tables,
                old(reader)@.bits,
                old(reader)@.pos,
                nbands,
                new_block,
                *old(cns),
            );
            &&& final(reader)@.pos == read.pos
            &&& *final(cns) == noise_after(*old(cns), read.done)
            &&& match (r, read.result) {
                (Ok(v), Ok(_)) => v@.len() == nbands && read.done == v@.map_values(
                    |b: Sv8BandDecode| b@,
                ),
                (Err(e), Err(f)) => e == f,
                _ => false,
            }
        }),
{
    if nbands as usize > SV7_SUBBAND_COUNT {
        return Err(Error::MaxBandOutOfRange(nbands));
    }
    let ghost bits = reader@.bits;
    let ghost start = reader@.pos;
    let types: Vec<i8> = decode_band_resolutions_grounded(tables, reader, nbands)?;
    let ghost noise = *cns;
    let ghost step = band_step(*tables, bits, types@, new_block, noise);
    let ghost whole = channel_read(*tables, bits, start, nbands, new_block, noise);
    let mut out: Vec<Sv8BandDecode> = Vec::new();
    let ghost mut done: Seq<BandRecord> = Seq::empty();
    let mut prev_scf2: i32 = 0;
    let mut b: usize = 0;
    while b < types.len()
        invariant
            b <= types@.len(),
            types@.len() == nbands,
            reader@.bits == bits,
            bits == old(reader)@.bits,
            noise == *old(cns),
            step == band_step(*tables, bits, types@, new_block, noise),
            whole == channel_read(
                *tables,
                old(reader)@.bits,
                old(reader)@.pos,
                nbands,
                new_block,
                *old(cns),
            ),
            whole == coding::sweep(step, nbands as nat, done, reader@.pos),
            done.len() == b,
            out@.len() == b,
            forall|i: int| 0 <= i < b ==> #[trigger] out@[i]@ == done[i],
            prev_scf2 == last_scalefactor(done),
            *cns == noise_after(noise, done),
        decreases types@.len() - b,
    {
        let band_type: i8 = types[b];
        let ghost here = reader@.pos;
        let mut levels: [i32; SAMPLES_PER_BAND] = [0;36];
        let mut granule_scf: [i32; SCF_GRANULES_PER_BAND] = [0;3];
        assert(levels@ =~= sv8_band_decode::silence());
        assert(granule_scf@ =~= seq![0i32, 0i32, 0i32]);
        match sv8_band_type_case(band_type) {
            Sv8BandDecodeCase::Empty => {},
            Sv8BandDecodeCase::Cns => {
                cns.fill_samples(&mut levels);
            },
            Sv8BandDecodeCase::OutOfRange => {
                return Err(Error::UnsupportedBandType(band_type));
            },
            _ => {
                let methods: Sv8BandScfi = decode_sv8_scfi(tables, reader, 1)?;
                granule_scf = decode_sv8_band_scf(
                    tables,
                    reader,
                    methods.left,
                    new_block,
                    prev_scf2,
                )?;
                prev_scf2 = granule_scf[2];
                decode_sv8_band_grounded(tables, reader, band_type, cns, &mut levels)?;
            },
        }
        let record: Sv8BandDecode = Sv8BandDecode { subband: b, band_type, granule_scf, levels };
        out.push(record);
        proof {
            assert(step(done, here) == (Ok::<BandRecord, Error>(record@), reader@.pos));
            let next = done.push(record@);
            assert(next.drop_last() =~= done);
            done = next;
        }
        b = b + 1;
    }
    assert(done =~= out@.map_values(|b: Sv8BandDecode| b@));
    Ok(out)
}

} // verus!
