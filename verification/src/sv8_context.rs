//! The first-order context of the context-coded bands: a running magnitude that
//! picks one of two codes for the next code word.

use vstd::prelude::*;

verus! {

/// Band types that carry a context.
pub const CONTEXT_BAND_TYPES: usize = 5;

/// A context: its running index, and the threshold of its band type.
pub struct ContextModel {
    pub idx: nat,
    pub thres: nat,
}

/// The running first-order context.
#[derive(Debug, Clone, Copy)]
pub struct Sv8Context {
    idx: u32,
    thres: u32,
}

impl View for Sv8Context {
    type V = ContextModel;

    closed spec fn view(&self) -> ContextModel {
        ContextModel { idx: self.idx as nat, thres: self.thres as nat }
    }
}

/// The threshold of a band type that carries a context.
pub open spec fn threshold(band_type: int) -> Option<u32> {
    if band_type == 2 || band_type == 6 {
        Some(3u32)
    } else if band_type == 5 {
        Some(1u32)
    } else if band_type == 7 {
        Some(4u32)
    } else if band_type == 8 {
        Some(8u32)
    } else {
        None
    }
}

/// Magnitude of an integer.
pub open spec fn magnitude(v: int) -> nat {
    if v < 0 {
        (-v) as nat
    } else {
        v as nat
    }
}

/// Digit `d` of a packed triple of samples, as a sample.
pub open spec fn triple_digit(symbol: int, d: int) -> int {
    if d == 0 {
        symbol % 5 - 2
    } else if d == 1 {
        symbol / 5 % 5 - 2
    } else {
        symbol / 25 - 2
    }
}

/// Summed magnitude of a packed triple; `0` outside the triples.
pub open spec fn triple_magnitude(symbol: int) -> nat {
    if 0 <= symbol <= 124 {
        magnitude(triple_digit(symbol, 0)) + magnitude(triple_digit(symbol, 1)) + magnitude(
            triple_digit(symbol, 2),
        )
    } else {
        0
    }
}

impl ContextModel {
    /// The code that the next code word is read from.
    pub open spec fn table(self) -> int {
        if self.idx > self.thres {
            1
        } else {
            0
        }
    }

    /// The context behind a code word of magnitude `m`.
    pub open spec fn fold(self, m: nat) -> ContextModel {
        ContextModel { idx: self.idx / 2 + m, thres: self.thres }
    }

    /// The context at the start of a band with threshold `t`.
    pub open spec fn start(t: nat) -> ContextModel {
        ContextModel { idx: 2 * t, thres: t }
    }
}

/// The context behind the samples `q`, each coded on its own.
pub open spec fn after_samples(t: nat, q: Seq<i8>) -> ContextModel
    decreases q.len(),
{
    if q.len() == 0 {
        ContextModel::start(t)
    } else {
        after_samples(t, q.drop_last()).fold(magnitude(q.last() as int))
    }
}

/// The context behind the packed triples `q`.
pub open spec fn after_triples(t: nat, q: Seq<i8>) -> ContextModel
    decreases q.len(),
{
    if q.len() == 0 {
        ContextModel::start(t)
    } else {
        after_triples(t, q.drop_last()).fold(triple_magnitude(q.last() as int))
    }
}

/// The threshold of `band_type`; `None` where the band type carries no context.
#[must_use]
pub fn context_threshold(band_type: i8) -> (t: Option<u32>)
    ensures
        t == threshold(band_type as int),
{
    match band_type {
        2 => Some(3),
        5 => Some(1),
        6 => Some(3),
        7 => Some(4),
        8 => Some(8),
        _ => None,
    }
}

/// Summed magnitude of the three samples that `tmp` packs; `0` outside `0..=124`.
#[must_use]
pub fn case2_magnitude(tmp: i32) -> (m: u32)
    ensures
        m == triple_magnitude(tmp as int),
        m <= 6,
{
    if tmp < 0 || tmp > 124 {
        return 0;
    }
    let s: u32 = tmp as u32;
    let d0: u32 = s % 5;
    let d1: u32 = s / 5 % 5;
    let d2: u32 = s / 25;
    centred(d0) + centred(d1) + centred(d2)
}

/// Distance of a base-5 digit from the middle digit.
fn centred(digit: u32) -> (m: u32)
    requires
        digit <= 4,
    ensures
        m == magnitude(digit - 2),
        m <= 2,
{
    if digit < 2 {
        2 - digit
    } else {
        digit - 2
    }
}

/// The types whose codes depend on what came before have a threshold, and no other type has.
pub proof fn law_thresholds(band_type: int)
    ensures
        threshold(band_type) is Some <==> band_type == 2 || 5 <= band_type <= 8,
        band_type == 2 || band_type == 6 ==> threshold(band_type)->0 == 3,
        band_type == 5 ==> threshold(band_type)->0 == 1,
        band_type == 7 ==> threshold(band_type)->0 == 4,
        band_type == 8 ==> threshold(band_type)->0 == 8,
{
}

impl Sv8Context {
    /// The context at the start of a band; `None` where the band type carries none.
    #[must_use]
    pub fn new(band_type: i8) -> (c: Option<Self>)
        ensures
            match (threshold(band_type as int), c) {
                (Some(t), Some(c)) => c@ == ContextModel::start(t as nat),
                (None, None) => true,
                _ => false,
            },
    {
        match context_threshold(band_type) {
            Some(thres) => Some(Sv8Context { idx: 2 * thres, thres }),
            None => None,
        }
    }

    /// The code for the next code word: `1` above the threshold, else `0`.
    #[must_use]
    pub fn table_ctx(&self) -> (t: u8)
        ensures
            t == self@.table(),
    {
        if self.idx > self.thres {
            1
        } else {
            0
        }
    }

    /// Takes a decoded sample into the context.
    pub fn update_sample(&mut self, q: i8)
        ensures
            final(self)@ == old(self)@.fold(magnitude(q as int)),
    {
        let m: u32 = if q < 0 { (-(q as i32)) as u32 } else { q as u32 };
        self.idx = self.idx / 2 + m;
    }

    /// Takes a decoded packed triple into the context.
    pub fn update_group(&mut self, tmp: i32)
        ensures
            final(self)@ == old(self)@.fold(triple_magnitude(tmp as int)),
    {
        self.idx = self.idx / 2 + case2_magnitude(tmp);
    }

    /// The running index.
    #[must_use]
    pub fn idx(&self) -> (i: u32)
        ensures
            i == self@.idx,
    {
        self.idx
    }
}

} // verus!
