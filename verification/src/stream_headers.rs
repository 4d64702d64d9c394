//! The header packets of a stream: the stream header, the replay gain and the encoder
//! information.

use crate::error::{Error, Result};
use crate::framing;
use crate::framing::parse_varint;
use vstd::arithmetic::div_mod::*;
use vstd::prelude::*;

verus! {

/// The version that a stream header names.
pub const SV8_STREAM_VERSION: u8 = 8;

/// The sample rates that a stream header names by number.
pub const SV8_SAMPLE_RATES: [u32; 4] = [44_100, 48_000, 37_800, 32_000];

/// The `n` bytes of `v`, the highest first.
pub open spec fn big_endian(v: nat, n: nat) -> Seq<u8>
    decreases n,
{
    if n == 0 {
        Seq::empty()
    } else {
        big_endian(v / 256, (n - 1) as nat).push((v % 256) as u8)
    }
}

/// The number that bytes spell, the highest first.
pub open spec fn big_value(s: Seq<u8>) -> nat
    decreases s.len(),
{
    if s.len() == 0 {
        0
    } else {
        256 * big_value(s.drop_last()) + s.last() as nat
    }
}

pub proof fn lemma_two_bytes(s: Seq<u8>)
    requires
        s.len() == 2,
    ensures
        big_value(s) == 256 * s[0] + s[1],
{
    reveal_with_fuel(big_value, 3);
}

pub proof fn lemma_four_bytes(s: Seq<u8>)
    requires
        s.len() == 4,
    ensures
        big_value(s) == 0x100_0000 * s[0] + 0x1_0000 * s[1] + 256 * s[2] + s[3],
{
    let a = s.drop_last();
    let b = a.drop_last();
    lemma_two_bytes(b);
    assert(big_value(a) == 256 * big_value(b) + a.last());
    assert(big_value(s) == 256 * big_value(a) + s.last());
}

/// Two and four bytes spell what they were made from.
pub proof fn lemma_big_endian(v: nat)
    ensures
        big_endian(v, 2).len() == 2,
        big_endian(v, 4).len() == 4,
        v < 0x1_0000 ==> big_value(big_endian(v, 2)) == v,
        v < 0x1_0000_0000 ==> big_value(big_endian(v, 4)) == v,
{
    reveal_with_fuel(big_endian, 5);
    let t = big_endian(v, 2);
    assert(t =~= seq![(v / 256 % 256) as u8, (v % 256) as u8]);
    lemma_two_bytes(t);
    let f = big_endian(v, 4);
    let a = v / 256;
    let b = a / 256;
    let c = b / 256;
    assert(f =~= seq![(c % 256) as u8, (b % 256) as u8, (a % 256) as u8, (v % 256) as u8]);
    lemma_four_bytes(f);
}

// ---------------------------------------------------------------------------
// The stream header
// ---------------------------------------------------------------------------

/// The fields of a stream header.
#[derive(Debug, Clone, Copy, PartialEq, Eq)]
pub struct StreamHeaderFields {
    /// The stored checksum; it is not checked.
    pub crc: u32,
    /// The stream version; it is not checked.
    pub stream_version: u8,
    /// Samples per channel.
    pub sample_count: u64,
    /// Samples per channel that come before the first one to be heard.
    pub beginning_silence: u64,
    /// Number of the sample rate.
    pub sample_freq_index: u8,
    /// Highest band.
    pub max_band: u8,
    /// Channels.
    pub channels: u8,
    /// The stream may code bands as mid and side.
    pub mid_side: bool,
    /// Half the binary logarithm of the frames per audio packet.
    pub block_power: u8,
}

/// The fields behind the counts, as one number: three bits, five bits, four bits, a flag
/// and three bits.
pub open spec fn packed(freq: int, max_band: int, channels: int, mid_side: bool, power: int) -> int {
    freq * 0x2000 + (max_band - 1) * 0x100 + (channels - 1) * 0x10 + (if mid_side {
        8int
    } else {
        0int
    }) + power
}

/// The packed number comes apart into its fields.
pub proof fn lemma_unpacked(freq: int, max_band: int, channels: int, mid_side: bool, power: int)
    requires
        0 <= freq < 8,
        1 <= max_band <= 32,
        1 <= channels <= 16,
        0 <= power < 8,
    ensures
        ({
            let v = packed(freq, max_band, channels, mid_side, power);
            &&& 0 <= v < 0x1_0000
            &&& v / 0x2000 == freq
            &&& v / 0x100 % 32 + 1 == max_band
            &&& v / 0x10 % 16 + 1 == channels
            &&& (v / 8 % 2 == 1) == mid_side
            &&& v % 8 == power
        }),
{
    let v = packed(freq, max_band, channels, mid_side, power);
    let flag = if mid_side {
        1int
    } else {
        0int
    };
    let b = max_band - 1;
    let c = channels - 1;
    lemma_fundamental_div_mod_converse(v, 8, 1024 * freq + 32 * b + 2 * c + flag, power);
    lemma_fundamental_div_mod_converse(v, 16, 512 * freq + 16 * b + c, 8 * flag + power);
    lemma_fundamental_div_mod_converse(v, 256, 32 * freq + b, 16 * c + 8 * flag + power);
    lemma_fundamental_div_mod_converse(v, 8192, freq, 256 * b + 16 * c + 8 * flag + power);
    lemma_fundamental_div_mod_converse(
        1024 * freq + 32 * b + 2 * c + flag,
        2,
        512 * freq + 16 * b + c,
        flag,
    );
    lemma_fundamental_div_mod_converse(512 * freq + 16 * b + c, 16, 32 * freq + b, c);
    lemma_fundamental_div_mod_converse(32 * freq + b, 32, freq, b);
}

/// Outcome of reading the payload of a stream header.
#[verifier::opaque]
pub open spec fn header_of(payload: Seq<u8>) -> Result<StreamHeaderFields> {
    if payload.len() < 5 {
        Err(Error::UnexpectedEof)
    } else {
        match framing::varint_at(payload.skip(5)) {
            Err(e) => Err(e),
            Ok((count, n)) => match framing::varint_at(payload.skip(5 + n)) {
                Err(e) => Err(e),
                Ok((silence, m)) => if payload.len() < 7 + n + m {
                    Err(Error::UnexpectedEof)
                } else {
                    let v = big_value(payload.subrange(5 + n + m, 7 + n + m)) as int;
                    Ok(
                        StreamHeaderFields {
                            crc: big_value(payload.take(4)) as u32,
                            stream_version: payload[4],
                            sample_count: count,
                            beginning_silence: silence,
                            sample_freq_index: (v / 0x2000) as u8,
                            max_band: (v / 0x100 % 32 + 1) as u8,
                            channels: (v / 0x10 % 16 + 1) as u8,
                            mid_side: v / 8 % 2 == 1,
                            block_power: (v % 8) as u8,
                        },
                    )
                },
            },
        }
    }
}

impl StreamHeaderFields {
    /// A header as parsing yields one.
    pub open spec fn wf(self) -> bool {
        &&& self.sample_count < 0x8000_0000_0000_0000
        &&& self.beginning_silence < 0x8000_0000_0000_0000
        &&& self.sample_freq_index < 8
        &&& 1 <= self.max_band <= 32
        &&& 1 <= self.channels <= 16
        &&& self.block_power < 8
    }

    /// Reads the payload of a stream header.
    pub fn parse(payload: &[u8]) -> (r: Result<StreamHeaderFields>)
        ensures
            r == header_of(payload@),
            r is Ok ==> r->Ok_0.wf(),
    {
        proof {
            reveal(header_of);
        }
        let len: usize = payload.len();
        if len < 5 {
            return Err(Error::UnexpectedEof);
        }
        let first: &[u8] = vstd::slice::slice_subrange(payload, 5, len);
        assert(first@ =~= payload@.skip(5));
        let (sample_count, n): (u64, usize) = parse_varint(first)?;
        let second: &[u8] = vstd::slice::slice_subrange(payload, 5 + n, len);
        assert(second@ =~= payload@.skip(5 + n));
        let (beginning_silence, m): (u64, usize) = parse_varint(second)?;
        if len - 5 - n - m < 2 {
            return Err(Error::UnexpectedEof);
        }
        let at: usize = 5 + n + m;
        let v: u32 = payload[at] as u32 * 256 + payload[at + 1] as u32;
        let crc: u32 = payload[0] as u32 * 0x100_0000 + payload[1] as u32 * 0x1_0000
            + payload[2] as u32 * 256 + payload[3] as u32;
        proof {
            lemma_two_bytes(payload@.subrange(5 + n + m, 7 + n + m));
            lemma_four_bytes(payload@.take(4));
        }
        Ok(
            StreamHeaderFields {
                crc,
                stream_version: payload[4],
                sample_count,
                beginning_silence,
                sample_freq_index: (v / 0x2000) as u8,
                max_band: (v / 0x100 % 32 + 1) as u8,
                channels: (v / 0x10 % 16 + 1) as u8,
                mid_side: v / 8 % 2 == 1,
                block_power: (v % 8) as u8,
            },
        )
    }

    /// Most frames in an audio packet.
    pub open spec fn packet_frames(self) -> nat {
        frames_of_power(self.block_power as nat)
    }

    /// Most frames in an audio packet: four to the block power.
    #[must_use]
    pub fn frames_per_audio_packet(&self) -> (n: u64)
        requires
            self.block_power < 8,
        ensures
            n == self.packet_frames(),
            1 <= n <= 0x4000,
    {
        frames_per_packet(self.block_power)
    }

    /// The sample rate, where the number names one.
    #[must_use]
    pub fn sample_rate_hz(&self) -> (r: Option<u32>)
        ensures
            r == if self.sample_freq_index < 4 {
                Some(SV8_SAMPLE_RATES[self.sample_freq_index as int])
            } else {
                None
            },
    {
        let rates: [u32; 4] = SV8_SAMPLE_RATES;
        if self.sample_freq_index < 4 {
            Some(rates[self.sample_freq_index as usize])
        } else {
            None
        }
    }
}

/// Most frames in an audio packet, by the block power.
pub open spec fn frames_of_power(power: nat) -> nat
    decreases power,
{
    if power == 0 {
        1
    } else {
        4 * frames_of_power((power - 1) as nat)
    }
}

pub proof fn lemma_frames_positive(power: nat)
    ensures
        frames_of_power(power) >= 1,
    decreases power,
{
    if power > 0 {
        lemma_frames_positive((power - 1) as nat);
    }
}

/// Most frames in an audio packet, by the block power.
pub fn frames_per_packet(power: u8) -> (n: u64)
    requires
        power < 8,
    ensures
        n == frames_of_power(power as nat),
        1 <= n <= 0x4000,
{
    let mut n: u64 = 1;
    let mut i: u8 = 0;
    while i < power
        invariant
            i <= power < 8,
            n == frames_of_power(i as nat),
            i == 0 ==> n == 1,
            i == 1 ==> n == 4,
            i == 2 ==> n == 16,
            i == 3 ==> n == 64,
            i == 4 ==> n == 256,
            i == 5 ==> n == 1024,
            i == 6 ==> n == 4096,
            i == 7 ==> n == 0x4000,
        decreases power - i,
    {
        n = 4 * n;
        i = i + 1;
    }
    n
}

// ---------------------------------------------------------------------------
// Replay gain
// ---------------------------------------------------------------------------

/// The fields of a replay-gain packet.
#[derive(Debug, Clone, Copy, PartialEq, Eq)]
pub struct ReplayGainFields {
    /// The version of the packet; it is not checked.
    pub version: u8,
    pub title_gain: u16,
    pub title_peak: u16,
    pub album_gain: u16,
    pub album_peak: u16,
}

/// Outcome of reading the payload of a replay-gain packet.
pub open spec fn gain_of(payload: Seq<u8>) -> Result<ReplayGainFields> {
    if payload.len() < 9 {
        Err(Error::UnexpectedEof)
    } else {
        Ok(
            ReplayGainFields {
                version: payload[0],
                title_gain: big_value(payload.subrange(1, 3)) as u16,
                title_peak: big_value(payload.subrange(3, 5)) as u16,
                album_gain: big_value(payload.subrange(5, 7)) as u16,
                album_peak: big_value(payload.subrange(7, 9)) as u16,
            },
        )
    }
}

impl ReplayGainFields {
    /// Reads the payload of a replay-gain packet.
    pub fn parse(payload: &[u8]) -> (r: Result<ReplayGainFields>)
        ensures
            r == gain_of(payload@),
    {
        if payload.len() < 9 {
            return Err(Error::UnexpectedEof);
        }
        proof {
            lemma_two_bytes(payload@.subrange(1, 3));
            lemma_two_bytes(payload@.subrange(3, 5));
            lemma_two_bytes(payload@.subrange(5, 7));
            lemma_two_bytes(payload@.subrange(7, 9));
        }
        Ok(
            ReplayGainFields {
                version: payload[0],
                title_gain: payload[1] as u16 * 256 + payload[2] as u16,
                title_peak: payload[3] as u16 * 256 + payload[4] as u16,
                album_gain: payload[5] as u16 * 256 + payload[6] as u16,
                album_peak: payload[7] as u16 * 256 + payload[8] as u16,
            },
        )
    }
}

// ---------------------------------------------------------------------------
// Encoder information
// ---------------------------------------------------------------------------

/// The fields of an encoder-information packet.
#[derive(Debug, Clone, Copy, PartialEq, Eq)]
pub struct EncoderInfoFields {
    /// The quality profile, in eighths.
    pub profile: u8,
    /// The encoder substituted noise.
    pub pns: bool,
    pub major: u8,
    pub minor: u8,
    pub build: u8,
}

/// Outcome of reading the payload of an encoder-information packet.
pub open spec fn info_of(payload: Seq<u8>) -> Result<EncoderInfoFields> {
    if payload.len() < 4 {
        Err(Error::UnexpectedEof)
    } else {
        Ok(
            EncoderInfoFields {
                profile: (payload[0] / 2) as u8,
                pns: payload[0] % 2 == 1,
                major: payload[1],
                minor: payload[2],
                build: payload[3],
            },
        )
    }
}

impl EncoderInfoFields {
    /// Reads the payload of an encoder-information packet.
    pub fn parse(payload: &[u8]) -> (r: Result<EncoderInfoFields>)
        ensures
            r == info_of(payload@),
    {
        if payload.len() < 4 {
            return Err(Error::UnexpectedEof);
        }
        Ok(
            EncoderInfoFields {
                profile: payload[0] / 2,
                pns: payload[0] % 2 == 1,
                major: payload[1],
                minor: payload[2],
                build: payload[3],
            },
        )
    }

    /// The whole part of the quality profile.
    pub fn profile_int(&self) -> (p: u8)
        ensures
            p == self.profile / 8,
    {
        self.profile / 8
    }
}

} // verus!
