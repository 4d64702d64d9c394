//! What is read in contexts that a caller picks: each symbol stands in the code of its context,
//! and the contexts are those that the caller's rule returns for the symbols.

use crate::cns::CnsPrng;
use crate::coding;
use crate::coding::Parsed;
use crate::error::Error;
use crate::sv8_band_decode;
use crate::sv8_band_decode::BandRead;
use crate::sv8_band_header;
use crate::sv8_band_header::RawResVlc;
use crate::sv8_dscf_loop;
use crate::sv8_dscf_loop::RawDscfVlc;
use crate::sv8_huffman::{Sv8CanonicalTable, Sv8TableSet};
use crate::sv8_level_laws;
use crate::sv8_sample_decode;
use crate::sv8_scf_header;
use crate::sv8_scf_header::RawScfiVlc;
use vstd::prelude::*;

verus! {

/// The symbols of band types in the contexts of a rule.
pub proof fn law_ruled_types<F: Fn(RawResVlc) -> u8>(
    tables: Sv8TableSet,
    bits: Seq<bool>,
    pos: nat,
    n: nat,
    rule: F,
    initial: u8,
    values: Seq<RawResVlc>,
    ctxs: Seq<u8>,
    stops: Seq<nat>,
    end: Parsed<()>,
)
    requires
        sv8_band_header::ruled_symbols(
            tables,
            bits,
            pos,
            n,
            rule,
            initial,
            values,
            ctxs,
            stops,
            end,
        ),
    ensures
        values.len() <= n,
        ctxs.len() == values.len() + 1,
        stops.len() == values.len() + 1,
        ctxs[0] == initial,
        stops[0] == pos,
        forall|k: int|
            0 <= k < values.len() ==> {
                &&& tables.res[ctxs[k] as int].parse(bits, stops[k]) == (
                    Ok::<i8, Error>((#[trigger] values[k]).0),
                    stops[k + 1],
                )
                &&& ctxs[k] <= 1
            },
        forall|k: int|
            0 <= k < values.len() ==> call_ensures(rule, (#[trigger] values[k],), ctxs[k + 1]),
        values.len() == n ==> end == (Ok::<(), Error>(()), stops[n as int]),
        values.len() < n ==> ({
            let (c, p) = (ctxs[values.len() as int], stops[values.len() as int]);
            let (word, q) = tables.res[c as int].parse(bits, p);
            &&& end.0 is Err
            &&& c > 1 ==> end.1 == p && end.0->Err_0 == Error::UnsupportedBandType(-128i8)
            &&& c <= 1 ==> word is Err && end.1 == q && end.0->Err_0 == word->Err_0
        }),
{
    assert forall|k: int| 0 <= k < values.len() implies {
        &&& tables.res[ctxs[k] as int].parse(bits, stops[k]) == (
            Ok::<i8, Error>((#[trigger] values[k]).0),
            stops[k + 1],
        )
        &&& ctxs[k] <= 1
    } by {
        let step = sv8_band_header::symbol_step(tables, bits);
        assert(step(ctxs[k], stops[k]) == (Ok::<RawResVlc, Error>(values[k]), stops[k + 1]));
    }
}

/// The symbols of sharing methods in the contexts of a rule.
pub proof fn law_ruled_selectors<F: Fn(RawScfiVlc) -> u8>(
    tables: Sv8TableSet,
    bits: Seq<bool>,
    pos: nat,
    n: nat,
    rule: F,
    initial: u8,
    values: Seq<RawScfiVlc>,
    ctxs: Seq<u8>,
    stops: Seq<nat>,
    end: Parsed<()>,
)
    requires
        sv8_scf_header::ruled_selectors(
            tables,
            bits,
            pos,
            n,
            rule,
            initial,
            values,
            ctxs,
            stops,
            end,
        ),
    ensures
        values.len() <= n,
        ctxs.len() == values.len() + 1,
        stops.len() == values.len() + 1,
        ctxs[0] == initial,
        stops[0] == pos,
        forall|k: int|
            0 <= k < values.len() ==> {
                &&& tables.scfi[ctxs[k] as int].parse(bits, stops[k]) == (
                    Ok::<i8, Error>((#[trigger] values[k]).0),
                    stops[k + 1],
                )
                &&& ctxs[k] <= 1
            },
        forall|k: int|
            0 <= k < values.len() ==> call_ensures(rule, (#[trigger] values[k],), ctxs[k + 1]),
        values.len() == n ==> end == (Ok::<(), Error>(()), stops[n as int]),
        values.len() < n ==> ({
            let (c, p) = (ctxs[values.len() as int], stops[values.len() as int]);
            let (word, q) = tables.scfi[c as int].parse(bits, p);
            &&& end.0 is Err
            &&& c > 1 ==> end.1 == p && end.0->Err_0 == Error::UnsupportedBandType(-128i8)
            &&& c <= 1 ==> word is Err && end.1 == q && end.0->Err_0 == word->Err_0
        }),
{
    assert forall|k: int| 0 <= k < values.len() implies {
        &&& tables.scfi[ctxs[k] as int].parse(bits, stops[k]) == (
            Ok::<i8, Error>((#[trigger] values[k]).0),
            stops[k + 1],
        )
        &&& ctxs[k] <= 1
    } by {
        let step = sv8_scf_header::selector_step(tables, bits);
        assert(step(ctxs[k], stops[k]) == (Ok::<RawScfiVlc, Error>(values[k]), stops[k + 1]));
    }
}

/// The symbols of scalefactor differences in the contexts of a rule.
pub proof fn law_ruled_deltas<F: Fn(RawDscfVlc) -> u8>(
    tables: Sv8TableSet,
    bits: Seq<bool>,
    pos: nat,
    n: nat,
    rule: F,
    initial: u8,
    values: Seq<RawDscfVlc>,
    ctxs: Seq<u8>,
    stops: Seq<nat>,
    end: Parsed<()>,
)
    requires
        sv8_dscf_loop::ruled_deltas(
            tables,
            bits,
            pos,
            n,
            rule,
            initial,
            values,
            ctxs,
            stops,
            end,
        ),
    ensures
        values.len() <= n,
        ctxs.len() == values.len() + 1,
        stops.len() == values.len() + 1,
        ctxs[0] == initial,
        stops[0] == pos,
        forall|k: int|
            0 <= k < values.len() ==> {
                &&& tables.dscf[ctxs[k] as int].parse(bits, stops[k]) == (
                    Ok::<i8, Error>((#[trigger] values[k]).0),
                    stops[k + 1],
                )
                &&& ctxs[k] <= 1
            },
        forall|k: int|
            0 <= k < values.len() ==> call_ensures(rule, (#[trigger] values[k],), ctxs[k + 1]),
        values.len() == n ==> end == (Ok::<(), Error>(()), stops[n as int]),
        values.len() < n ==> ({
            let (c, p) = (ctxs[values.len() as int], stops[values.len() as int]);
            let (word, q) = tables.dscf[c as int].parse(bits, p);
            &&& end.0 is Err
            &&& c > 1 ==> end.1 == p && end.0->Err_0 == Error::UnsupportedBandType(-128i8)
            &&& c <= 1 ==> word is Err && end.1 == q && end.0->Err_0 == word->Err_0
        }),
{
    assert forall|k: int| 0 <= k < values.len() implies {
        &&& tables.dscf[ctxs[k] as int].parse(bits, stops[k]) == (
            Ok::<i8, Error>((#[trigger] values[k]).0),
            stops[k + 1],
        )
        &&& ctxs[k] <= 1
    } by {
        let step = sv8_dscf_loop::delta_step(tables, bits);
        assert(step(ctxs[k], stops[k]) == (Ok::<RawDscfVlc, Error>(values[k]), stops[k + 1]));
    }
}

/// The code of the types 5 to 8 in a context.
pub open spec fn level_code(tables: Sv8TableSet, band_type: int, ctx: int) -> Sv8CanonicalTable {
    if band_type == 5 {
        tables.q5[ctx]
    } else if band_type == 6 {
        tables.q6[ctx]
    } else if band_type == 7 {
        tables.q7[ctx]
    } else {
        tables.q8[ctx]
    }
}

/// The samples of a band of the types 5 to 8 in the contexts of a rule.
pub proof fn law_ruled_samples<F: Fn(i8) -> u8>(
    tables: Sv8TableSet,
    bits: Seq<bool>,
    pos: nat,
    band_type: int,
    rule: F,
    initial: u8,
    samples: Seq<i8>,
    ctxs: Seq<u8>,
    stops: Seq<nat>,
    end: Parsed<()>,
)
    requires
        5 <= band_type <= 8,
        sv8_sample_decode::ruled_band(
            tables,
            bits,
            pos,
            band_type,
            rule,
            initial,
            samples,
            ctxs,
            stops,
            end,
        ),
    ensures
        samples.len() <= 36,
        ctxs.len() == samples.len() + 1,
        stops.len() == samples.len() + 1,
        ctxs[0] == initial,
        stops[0] == pos,
        forall|k: int|
            0 <= k < samples.len() ==> {
                &&& level_code(tables, band_type, ctxs[k] as int).parse(bits, stops[k]) == (
                    Ok::<i8, Error>(#[trigger] samples[k]),
                    stops[k + 1],
                )
                &&& ctxs[k] <= 1
            },
        forall|k: int|
            0 <= k < samples.len() ==> call_ensures(rule, (#[trigger] samples[k],), ctxs[k + 1]),
        samples.len() == 36 ==> end == (Ok::<(), Error>(()), stops[36]),
        samples.len() < 36 ==> ({
            let (c, p) = (ctxs[samples.len() as int], stops[samples.len() as int]);
            let (word, q) = level_code(tables, band_type, c as int).parse(bits, p);
            &&& end.0 is Err
            &&& c > 1 ==> end.1 == p && end.0->Err_0 == Error::UnsupportedBandType(band_type as i8)
            &&& c <= 1 ==> word is Err && end.1 == q && end.0->Err_0 == word->Err_0
        }),
{
    assert forall|k: int| 0 <= k < samples.len() implies {
        &&& level_code(tables, band_type, ctxs[k] as int).parse(bits, stops[k]) == (
            Ok::<i8, Error>(#[trigger] samples[k]),
            stops[k + 1],
        )
        &&& ctxs[k] <= 1
    } by {
        let step = sv8_sample_decode::sample_step(tables, bits, band_type);
        assert(step(ctxs[k], stops[k]) == (Ok::<i8, Error>(samples[k]), stops[k + 1]));
    }
}

/// A band in contexts that the caller picks: type 1 is refused, a band of type 2 is twelve code
/// words of three levels each in the one picked code, and a band of the types 5 to 8 is 36 code
/// words in the contexts of the rule. The other types have no contexts. A refused band leaves
/// the levels and the noise as they were. The symbols, the positions and the contexts are
/// returned.
pub proof fn law_ruled_band<F: Fn(i8) -> u8>(
    tables: Sv8TableSet,
    bits: Seq<bool>,
    pos: nat,
    band_type: int,
    noise: CnsPrng,
    grouped_ctx: u8,
    initial: u8,
    rule: F,
    before: Seq<i32>,
    read: BandRead,
) -> (walk: (Seq<i8>, Seq<nat>, Seq<u8>))
    requires
        sv8_band_decode::ruled_band_read(
            tables,
            bits,
            pos,
            band_type,
            noise,
            grouped_ctx,
            initial,
            rule,
            before,
            read,
        ),
    ensures
        band_type == 1 ==> read.result == Err::<(), Error>(Error::UnsupportedBandType(1))
            && read.pos == pos,
        band_type == 2 && grouped_ctx > 1 ==> read.result == Err::<(), Error>(
            Error::UnsupportedBandType(2),
        ) && read.pos == pos,
        band_type != 1 && band_type != 2 && !(5 <= band_type <= 8) ==> read
            == sv8_band_decode::band_read(tables, bits, pos, band_type, noise, before),
        read.result is Err && (1 <= band_type <= 2 || 5 <= band_type <= 8) ==> read.levels == before,
        band_type >= 1 ==> read.noise == noise,
        band_type == 2 && read.result is Ok ==> ({
            let (words, stops, _) = walk;
            &&& grouped_ctx <= 1
            &&& read.levels.len() == 36
            &&& words.len() == 12
            &&& stops.len() == 13
            &&& stops[0] == pos
            &&& stops[12] == read.pos
            &&& forall|k: int| 0 <= k < 36 ==> -2 <= #[trigger] read.levels[k] <= 2
            &&& forall|g: int|
                0 <= g < 12 ==> {
                    &&& tables.q2[grouped_ctx as int].parse(bits, stops[g]) == (
                        Ok::<i8, Error>(#[trigger] words[g]),
                        stops[g + 1],
                    )
                    &&& words[g] == (read.levels[3 * g] + 2) + 5 * (read.levels[3 * g + 1] + 2)
                        + 25 * (read.levels[3 * g + 2] + 2)
                }
        }),
        5 <= band_type <= 8 && read.result is Ok ==> ({
            let (words, stops, ctxs) = walk;
            &&& read.levels.len() == 36
            &&& words.len() == 36
            &&& stops.len() == 37
            &&& ctxs.len() == 37
            &&& ctxs[0] == initial
            &&& stops[0] == pos
            &&& stops[36] == read.pos
            &&& forall|k: int|
                0 <= k < 36 ==> {
                    &&& level_code(tables, band_type, ctxs[k] as int).parse(bits, stops[k]) == (
                        Ok::<i8, Error>(#[trigger] words[k]),
                        stops[k + 1],
                    )
                    &&& ctxs[k] <= 1
                    &&& read.levels[k] == words[k]
                }
            &&& forall|k: int|
                0 <= k < 36 ==> call_ensures(rule, (#[trigger] words[k],), ctxs[k + 1])
        }),
{
    if band_type == 2 && read.result is Ok {
        let code = tables.q2[grouped_ctx as int];
        let step = sv8_sample_decode::triple_step(code, bits);
        let band = sv8_sample_decode::triple_band(code, bits, pos);
        let stops = coding::lemma_sweep_stops(step, 12, pos);
        let words = band.done;
        assert forall|g: int| 0 <= g < 12 implies {
            &&& 0 <= #[trigger] words[g] <= 124
            &&& code.parse(bits, stops[g]) == (Ok::<i8, Error>(words[g]), stops[g + 1])
        } by {
            assert(step(words.take(g), stops[g]) == (Ok::<i8, Error>(words[g]), stops[g + 1]));
        }
        sv8_level_laws::lemma_spread3(words, read.levels);
        (words, stops, Seq::empty())
    } else if 5 <= band_type <= 8 {
        let (samples, ctxs, stops) = choose|samples: Seq<i8>, ctxs: Seq<u8>, stops: Seq<nat>|
            #[trigger] sv8_sample_decode::ruled_band(
                tables,
                bits,
                pos,
                band_type,
                rule,
                initial,
                samples,
                ctxs,
                stops,
                (read.result, read.pos),
            ) && read.noise == noise && read.levels == sv8_band_decode::replaced(
                read.result,
                before,
                sv8_band_decode::widened(samples),
            );
        law_ruled_samples(
            tables,
            bits,
            pos,
            band_type,
            rule,
            initial,
            samples,
            ctxs,
            stops,
            (read.result, read.pos),
        );
        if read.result is Ok {
            assert(samples.len() == 36);
            assert(read.levels == sv8_band_decode::widened(samples));
            assert forall|k: int| 0 <= k < 36 implies {
                &&& level_code(tables, band_type, ctxs[k] as int).parse(bits, stops[k]) == (
                    Ok::<i8, Error>(#[trigger] samples[k]),
                    stops[k + 1],
                )
                &&& ctxs[k] <= 1
                &&& read.levels[k] == samples[k]
            } by {
                assert(read.levels[k] == samples[k] as i32);
            }
        }
        (samples, stops, ctxs)
    } else {
        (Seq::empty(), Seq::empty(), Seq::empty())
    }
}

} // verus!
