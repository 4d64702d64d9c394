//! Dispatch of a band's samples by band type.

use crate::bit_reader::Sv7BitReader;
use crate::cns::{CnsPrng, SAMPLES_PER_BAND};
use crate::coding;
use crate::error::{Error, Result};
use crate::sv8_huffman::{Sv8TableRole, Sv8TableSet};
use crate::sv8_sample_decode;
use crate::sv8_sample_decode::{
    decode_sv8_context_band, decode_sv8_context_band_grounded, decode_sv8_escape_band,
    decode_sv8_grouped2_band, decode_sv8_grouped3_band, decode_sv8_grouped3_band_grounded,
    decode_sv8_sparse_band,
};
use vstd::prelude::*;

verus! {

/// How a band type codes its samples.
#[derive(Debug, Clone, Copy, PartialEq, Eq, Structural)]
pub enum Sv8BandDecodeCase {
    /// Noise: nothing is coded.
    Cns,
    /// Silence: nothing is coded.
    Empty,
    /// Two halves of samples, most of them zero.
    SparseBand,
    /// Three samples per code word.
    Grouped3,
    /// Two samples per code word.
    Grouped2,
    /// One sample per code word, in a context.
    ContextHuffmanPerSample,
    /// A code word and raw bits per sample.
    LargeCoeffEscape,
    /// No band type.
    OutOfRange,
}

/// The way in which `band_type` codes its samples.
pub open spec fn case_of(band_type: int) -> Sv8BandDecodeCase {
    if band_type < -1 {
        Sv8BandDecodeCase::OutOfRange
    } else if band_type == -1 {
        Sv8BandDecodeCase::Cns
    } else if band_type == 0 {
        Sv8BandDecodeCase::Empty
    } else if band_type == 1 {
        Sv8BandDecodeCase::SparseBand
    } else if band_type == 2 {
        Sv8BandDecodeCase::Grouped3
    } else if band_type <= 4 {
        Sv8BandDecodeCase::Grouped2
    } else if band_type <= 8 {
        Sv8BandDecodeCase::ContextHuffmanPerSample
    } else {
        Sv8BandDecodeCase::LargeCoeffEscape
    }
}

/// How a band is coded tells its type apart from all types that are coded otherwise.
pub proof fn law_cases(band_type: int)
    ensures
        case_of(band_type) is OutOfRange <==> band_type < -1,
        case_of(band_type) is Cns <==> band_type == -1,
        case_of(band_type) is Empty <==> band_type == 0,
        case_of(band_type) is SparseBand <==> band_type == 1,
        case_of(band_type) is Grouped3 <==> band_type == 2,
        case_of(band_type) is Grouped2 <==> band_type == 3 || band_type == 4,
        case_of(band_type) is ContextHuffmanPerSample <==> 5 <= band_type <= 8,
        case_of(band_type) is LargeCoeffEscape <==> band_type >= 9,
{
}

/// Tells how `band_type` codes its samples.
pub fn sv8_band_type_case(band_type: i8) -> (c: Sv8BandDecodeCase)
    ensures
        c == case_of(band_type as int),
{
    match band_type {
        -1 => Sv8BandDecodeCase::Cns,
        0 => Sv8BandDecodeCase::Empty,
        1 => Sv8BandDecodeCase::SparseBand,
        2 => Sv8BandDecodeCase::Grouped3,
        3 | 4 => Sv8BandDecodeCase::Grouped2,
        5 | 6 | 7 | 8 => Sv8BandDecodeCase::ContextHuffmanPerSample,
        _ => if band_type >= 9 {
            Sv8BandDecodeCase::LargeCoeffEscape
        } else {
            Sv8BandDecodeCase::OutOfRange
        },
    }
}

/// True unless the band is silent or has no band type.
pub fn case_emits_samples(case: Sv8BandDecodeCase) -> (b: bool)
    ensures
        b == !(case is Empty || case is OutOfRange),
{
    match case {
        Sv8BandDecodeCase::Empty | Sv8BandDecodeCase::OutOfRange => false,
        _ => true,
    }
}

/// True for the band types that code every sample in a context.
pub fn case_uses_first_order_context(case: Sv8BandDecodeCase) -> (b: bool)
    ensures
        b == (case is ContextHuffmanPerSample),
{
    match case {
        Sv8BandDecodeCase::ContextHuffmanPerSample => true,
        _ => false,
    }
}

/// What decoding a band's samples comes to.
#[verifier::ext_equal]
pub struct BandRead {
    /// The 36 levels in the caller's buffer.
    pub levels: Seq<i32>,
    pub result: Result<()>,
    pub pos: nat,
    pub noise: CnsPrng,
}

/// Small levels as levels.
pub open spec fn widened(levels: Seq<i8>) -> Seq<i32> {
    Seq::new(levels.len(), |i: int| levels[i] as i32)
}

/// A silent band.
pub open spec fn silence() -> Seq<i32> {
    Seq::new(SAMPLES_PER_BAND as nat, |i: int| 0i32)
}

/// `after` where the band was decoded, else what the buffer held.
pub open spec fn replaced(result: Result<()>, before: Seq<i32>, after: Seq<i32>) -> Seq<i32> {
    if result is Ok {
        after
    } else {
        before
    }
}

/// Decoding the samples of a band, in the running context where the band type has
/// one, into a buffer that holds `before`.
pub open spec fn band_read(
    tables: Sv8TableSet,
    bits: Seq<bool>,
    pos: nat,
    band_type: int,
    noise: CnsPrng,
    before: Seq<i32>,
) -> BandRead {
    match case_of(band_type) {
        Sv8BandDecodeCase::Cns => BandRead {
            levels: noise.noise(),
            result: Ok(()),
            pos,
            noise: noise.steps(36),
        },
        Sv8BandDecodeCase::Empty => BandRead { levels: silence(), result: Ok(()), pos, noise },
        Sv8BandDecodeCase::SparseBand => {
            let band = sv8_sample_decode::sparse_band(tables, bits, pos);
            let levels = widened(sv8_sample_decode::by_position(band.done));
            BandRead {
                levels: replaced(band.result, before, levels),
                result: band.result,
                pos: band.pos,
                noise,
            }
        },
        Sv8BandDecodeCase::Grouped3 => {
            let band = sv8_sample_decode::triple_context_band(tables, bits, pos);
            let levels = widened(sv8_sample_decode::spread3(band.done));
            BandRead {
                levels: replaced(band.result, before, levels),
                result: band.result,
                pos: band.pos,
                noise,
            }
        },
        Sv8BandDecodeCase::Grouped2 => {
            let band = sv8_sample_decode::pair_band(tables, bits, pos, band_type);
            let levels = widened(sv8_sample_decode::spread2(band.done));
            BandRead {
                levels: replaced(band.result, before, levels),
                result: band.result,
                pos: band.pos,
                noise,
            }
        },
        Sv8BandDecodeCase::ContextHuffmanPerSample => {
            let band = sv8_sample_decode::sample_band(tables, bits, pos, band_type);
            BandRead {
                levels: replaced(band.result, before, widened(band.done)),
                result: band.result,
                pos: band.pos,
                noise,
            }
        },
        Sv8BandDecodeCase::LargeCoeffEscape => if band_type <= 17 {
            let band = sv8_sample_decode::escape_band(tables, bits, pos, band_type);
            BandRead {
                levels: coding::overwritten(before, band.done),
                result: band.result,
                pos: band.pos,
                noise,
            }
        } else {
            BandRead {
                levels: before,
                result: Err(Error::UnsupportedBandType(band_type as i8)),
                pos,
                noise,
            }
        },
        Sv8BandDecodeCase::OutOfRange => BandRead {
            levels: before,
            result: Err(Error::UnsupportedBandType(band_type as i8)),
            pos,
            noise,
        },
    }
}

/// Fills a band with silence.
pub fn fill_zero_band(out: &mut [i32; SAMPLES_PER_BAND])
    ensures
        final(out)@ == silence(),
{
    let mut i: usize = 0;
    while i < 36
        invariant
            i <= 36,
            forall|j: int| 0 <= j < i ==> out@[j] == 0,
        decreases 36 - i,
    {
        out[i] = 0;
        i = i + 1;
    }
    assert(out@ =~= silence());
}

/// Takes small levels over as levels.
fn widen_into(src: &[i8; SAMPLES_PER_BAND], dst: &mut [i32; SAMPLES_PER_BAND])
    ensures
        final(dst)@ == widened(src@),
{
    let mut i: usize = 0;
    while i < 36
        invariant
            i <= 36,
            forall|j: int| 0 <= j < i ==> dst@[j] == src@[j] as i32,
        decreases 36 - i,
    {
        dst[i] = src[i] as i32;
        i = i + 1;
    }
    assert(dst@ =~= widened(src@));
}

/// A buffer that is overwritten whole holds the new values.
proof fn lemma_overwritten_whole<A>(old: Seq<A>, values: Seq<A>)
    requires
        old.len() == values.len(),
    ensures
        coding::overwritten(old, values) == values,
{
    assert(coding::overwritten(old, values) =~= values);
}

/// Decodes the samples of a band in the running context. Noise advances the
/// generator; a band type outside `-1..=17` is refused.
pub fn decode_sv8_band_grounded(
    tables: &Sv8TableSet,
    reader: &mut Sv7BitReader<'_>,
    band_type: i8,
    cns: &mut CnsPrng,
    out: &mut [i32; SAMPLES_PER_BAND],
) -> (r: Result<()>)
    ensures
        final(reader)@.bits == old(reader)@.bits,
        band_read(
            *tables,
            old(reader)@.bits,
            old(reader)@.pos,
            band_type as int,
            *old(cns),
            old(out)@,
        ) == (BandRead {
            levels: final(out)@,
            result: r,
            pos: final(reader)@.pos,
            noise: *final(cns),
        }),
{
    let ghost bits = reader@.bits;
    let ghost pos = reader@.pos;
    match sv8_band_type_case(band_type) {
        Sv8BandDecodeCase::Cns => {
            cns.fill_samples(out);
            Ok(())
        },
        Sv8BandDecodeCase::Empty => {
            fill_zero_band(out);
            Ok(())
        },
        Sv8BandDecodeCase::SparseBand => {
            let mut tmp: [i8; SAMPLES_PER_BAND] = [0;36];
            let ghost zero = tmp@;
            let ghost band = sv8_sample_decode::sparse_band(*tables, bits, pos);
            decode_sv8_sparse_band(tables, reader, &mut tmp)?;
            proof {
                coding::lemma_sweep_extends(
                    sv8_sample_decode::group_step(tables.q1, bits),
                    2,
                    Seq::<Seq<i8>>::empty(),
                    pos,
                );
                lemma_overwritten_whole(zero, sv8_sample_decode::by_position(band.done));
            }
            widen_into(&tmp, out);
            Ok(())
        },
        Sv8BandDecodeCase::Grouped3 => {
            let mut tmp: [i8; SAMPLES_PER_BAND] = [0;36];
            let ghost zero = tmp@;
            let ghost band = sv8_sample_decode::triple_context_band(*tables, bits, pos);
            decode_sv8_grouped3_band_grounded(tables, reader, &mut tmp)?;
            proof {
                coding::lemma_sweep_extends(
                    sv8_sample_decode::triple_context_step(*tables, bits),
                    12,
                    Seq::<i8>::empty(),
                    pos,
                );
                lemma_overwritten_whole(zero, sv8_sample_decode::spread3(band.done));
            }
            widen_into(&tmp, out);
            Ok(())
        },
        Sv8BandDecodeCase::Grouped2 => {
            let mut tmp: [i8; SAMPLES_PER_BAND] = [0;36];
            let ghost zero = tmp@;
            let ghost band = sv8_sample_decode::pair_band(*tables, bits, pos, band_type as int);
            decode_sv8_grouped2_band(tables, reader, band_type, &mut tmp)?;
            proof {
                coding::lemma_sweep_extends(
                    sv8_sample_decode::pair_step(*tables, bits, band_type as int),
                    18,
                    Seq::<i8>::empty(),
                    pos,
                );
                lemma_overwritten_whole(zero, sv8_sample_decode::spread2(band.done));
            }
            widen_into(&tmp, out);
            Ok(())
        },
        Sv8BandDecodeCase::ContextHuffmanPerSample => {
            let mut tmp: [i8; SAMPLES_PER_BAND] = [0;36];
            let ghost zero = tmp@;
            let ghost band = sv8_sample_decode::sample_band(*tables, bits, pos, band_type as int);
            decode_sv8_context_band_grounded(tables, reader, band_type, &mut tmp)?;
            proof {
                coding::lemma_sweep_extends(
                    sv8_sample_decode::sample_context_step(*tables, bits, band_type as int),
                    36,
                    Seq::<i8>::empty(),
                    pos,
                );
                lemma_overwritten_whole(zero, band.done);
            }
            widen_into(&tmp, out);
            Ok(())
        },
        Sv8BandDecodeCase::LargeCoeffEscape => decode_sv8_escape_band(
            tables,
            reader,
            band_type,
            out,
        ),
        Sv8BandDecodeCase::OutOfRange => Err(Error::UnsupportedBandType(band_type)),
    }
}

/// Decoding the samples of a band in contexts that the caller picks: `grouped_ctx` for
/// packed triples, `initial_ctx` and a rule for samples coded on their own. Sparse
/// bands are not taken.
pub open spec fn ruled_band_read<F: Fn(i8) -> u8>(
    tables: Sv8TableSet,
    bits: Seq<bool>,
    pos: nat,
    band_type: int,
    noise: CnsPrng,
    grouped_ctx: u8,
    initial_ctx: u8,
    rule: F,
    before: Seq<i32>,
    read: BandRead,
) -> bool {
    match case_of(band_type) {
        Sv8BandDecodeCase::SparseBand => read == (BandRead {
            levels: before,
            result: Err(Error::UnsupportedBandType(band_type as i8)),
            pos,
            noise,
        }),
        Sv8BandDecodeCase::Grouped3 => if grouped_ctx < 2 {
            let band = sv8_sample_decode::triple_band(
                tables.table(Sv8TableRole::Q2, grouped_ctx as int),
                bits,
                pos,
            );
            let levels = widened(sv8_sample_decode::spread3(band.done));
            read == (BandRead {
                levels: replaced(band.result, before, levels),
                result: band.result,
                pos: band.pos,
                noise,
            })
        } else {
            read == (BandRead {
                levels: before,
                result: Err(Error::UnsupportedBandType(2)),
                pos,
                noise,
            })
        },
        Sv8BandDecodeCase::ContextHuffmanPerSample => exists|
            samples: Seq<i8>,
            ctxs: Seq<u8>,
            stops: Seq<nat>,
        |
            #[trigger] sv8_sample_decode::ruled_band(
                tables,
                bits,
                pos,
                band_type,
                rule,
                initial_ctx,
                samples,
                ctxs,
                stops,
                (read.result, read.pos),
            ) && read.noise == noise && read.levels == replaced(
                read.result,
                before,
                widened(samples),
            ),
        _ => read == band_read(tables, bits, pos, band_type, noise, before),
    }
}

/// Decodes the samples of a band in contexts that the caller picks. Sparse bands and
/// band types outside `-1..=17` are refused.
pub fn decode_sv8_band<F: Fn(i8) -> u8>(
    tables: &Sv8TableSet,
    reader: &mut Sv7BitReader<'_>,
    band_type: i8,
    cns: &mut CnsPrng,
    grouped_ctx: u8,
    initial_ctx: u8,
    ctx_for_prev: F,
    out: &mut [i32; SAMPLES_PER_BAND],
) -> (r: Result<()>)
    requires
        forall|q: i8| call_requires(ctx_for_prev, (q,)),
    ensures
        final(reader)@.bits == old(reader)@.bits,
        ruled_band_read(
            *tables,
            old(reader)@.bits,
            old(reader)@.pos,
            band_type as int,
            *old(cns),
            grouped_ctx,
            initial_ctx,
            ctx_for_prev,
            old(out)@,
            BandRead {
                levels: final(out)@,
                result: r,
                pos: final(reader)@.pos,
                noise: *final(cns),
            },
        ),
{
    let ghost bits = reader@.bits;
    let ghost pos = reader@.pos;
    match sv8_band_type_case(band_type) {
        Sv8BandDecodeCase::SparseBand => Err(Error::UnsupportedBandType(band_type)),
        Sv8BandDecodeCase::Grouped3 => {
            let mut tmp: [i8; SAMPLES_PER_BAND] = [0;36];
            let ghost zero = tmp@;
            decode_sv8_grouped3_band(tables, reader, grouped_ctx, &mut tmp)?;
            proof {
                let t = tables.table(Sv8TableRole::Q2, grouped_ctx as int);
                let band = sv8_sample_decode::triple_band(t, bits, pos);
                coding::lemma_sweep_extends(
                    sv8_sample_decode::triple_step(t, bits),
                    12,
                    Seq::<i8>::empty(),
                    pos,
                );
                lemma_overwritten_whole(zero, sv8_sample_decode::spread3(band.done));
            }
            widen_into(&tmp, out);
            Ok(())
        },
        Sv8BandDecodeCase::ContextHuffmanPerSample => {
            let mut tmp: [i8; SAMPLES_PER_BAND] = [0;36];
            let ghost zero = tmp@;
            let decoded: Result<()> = decode_sv8_context_band(
                tables,
                reader,
                band_type,
                initial_ctx,
                ctx_for_prev,
                &mut tmp,
            );
            let ghost (samples, ctxs, stops) = choose|
                samples: Seq<i8>,
                ctxs: Seq<u8>,
                stops: Seq<nat>,
            |
                {
                    &&& #[trigger] sv8_sample_decode::ruled_band(
                        *tables,
                        bits,
                        pos,
                        band_type as int,
                        ctx_for_prev,
                        initial_ctx,
                        samples,
                        ctxs,
                        stops,
                        (decoded, reader@.pos),
                    )
                    &&& tmp@ == coding::overwritten(zero, samples)
                };
            match decoded {
                Ok(_) => {
                    proof {
                        if samples.len() < 36 {
                            assert(false);
                        }
                        lemma_overwritten_whole(zero, samples);
                    }
                    widen_into(&tmp, out);
                    assert(sv8_sample_decode::ruled_band(
                        *tables,
                        bits,
                        pos,
                        band_type as int,
                        ctx_for_prev,
                        initial_ctx,
                        samples,
                        ctxs,
                        stops,
                        (Ok(()), reader@.pos),
                    ));
                    Ok(())
                },
                Err(e) => {
                    assert(sv8_sample_decode::ruled_band(
                        *tables,
                        bits,
                        pos,
                        band_type as int,
                        ctx_for_prev,
                        initial_ctx,
                        samples,
                        ctxs,
                        stops,
                        (Err(e), reader@.pos),
                    ));
                    Err(e)
                },
            }
        },
        _ => decode_sv8_band_grounded(tables, reader, band_type, cns, out),
    }
}

} // verus!
