//! Decoding single audio packets.

#![allow(dead_code)]

use oxideav_musepack::error::{Error, Result};
use oxideav_musepack::packet_bits::PacketReader;
use oxideav_musepack::sv8::{StreamHeaderSv8, Sv8Decoder, Sv8SubFrame, Sv8Vlcs, VlcRow, VlcTable};

/// Bits, most significant first.
struct Bits {
    bytes: Vec<u8>,
    count: usize,
}

impl Bits {
    fn new() -> Self {
        Bits { bytes: Vec::new(), count: 0 }
    }

    fn put(&mut self, value: u32, n: u32) -> &mut Self {
        for i in (0..n).rev() {
            if self.count % 8 == 0 {
                self.bytes.push(0);
            }
            let last = self.bytes.len() - 1;
            self.bytes[last] |= (((value >> i) & 1) as u8) << (7 - self.count % 8);
            self.count += 1;
        }
        self
    }
}

/// A code in which each symbol is its own word of `length` bits.
fn plain(count: u16, length: u8) -> VlcTable {
    let rows = (0..count).map(|i| VlcRow { code: i, length, symbol: i as i16 }).collect();
    VlcTable { rows }
}

fn vlcs() -> Sv8Vlcs {
    Sv8Vlcs {
        band: plain(33, 6),
        scfi: plain(4, 2),
        dscf: plain(64, 6),
        res_low: plain(17, 5),
        res_high: plain(17, 5),
        q9up: plain(256, 8),
    }
}

fn decoder(channels: u8, maxbands: u8, mid_side: bool, block_power: u8) -> Sv8Decoder {
    Sv8Decoder::new(StreamHeaderSv8 { channels, maxbands, mid_side, block_power }, vlcs())
}

/// The sub-frames of a packet.
fn decode(d: &mut Sv8Decoder, payload: &[u8]) -> Result<Vec<Sv8SubFrame>> {
    let mut frames = Vec::new();
    d.decode_packet(payload, &mut frames)?;
    Ok(frames)
}

#[test]
fn fields_cross_byte_boundaries() {
    let data = [0xA5, 0x3C, 0xFF, 0x01, 0x80];
    let mut br = PacketReader::new(&data);
    assert_eq!(br.read_bits(3), Ok(0b101));
    assert_eq!(br.read_bits(7), Ok(0b0010_100));
    assert_eq!(br.read_bits(0), Ok(0));
    assert_eq!(br.read_bits(29), Ok(0b11_1100_1111_1111_0000_0001_1000_000));
    assert_eq!(br.read_bits(2), Err(Error::UnexpectedEof));
    assert_eq!(br.read_bits(1), Ok(0));
    assert_eq!(br.read_bits(1), Err(Error::UnexpectedEof));
    let mut whole = PacketReader::new(&data);
    assert_eq!(whole.read_bits(32), Ok(0xA53C_FF01));
}

#[test]
fn small_levels_of_one_channel() {
    let mut b = Bits::new();
    b.put(1, 1).put(12, 5).put(0, 2).put(0x25, 7);
    for k in 0..36 {
        b.put(k % 15, 4);
    }
    let frames = decode(&mut decoder(1, 1, false, 0), &b.bytes).unwrap();
    assert_eq!(frames.len(), 1);
    assert_eq!(frames[0].res, [[5, 0]]);
    assert_eq!(frames[0].ms_flags, [false]);
    assert_eq!(frames[0].scf[0], [0x25; 3]);
    for k in 0..36 {
        assert_eq!(frames[0].levels[0][k], k as i32 % 15 - 7);
        assert_eq!(frames[0].levels[1][k], 0);
    }
}

#[test]
fn truncated_packets_are_refused() {
    let mut b = Bits::new();
    b.put(1, 1).put(12, 5).put(0, 2).put(0x25, 7).put(0, 32);
    let mut d = decoder(1, 1, false, 0);
    assert_eq!(decode(&mut d, &b.bytes), Err(Error::UnexpectedEof));
    assert_eq!(d.last_max_band, 1);
    assert_eq!(decode(&mut d, &[]), Err(Error::UnexpectedEof));
}

#[test]
fn sub_frames_before_a_fault_are_kept() {
    let mut d = decoder(2, 1, true, 1);
    let mut whole = Bits::new();
    whole.put(0, 1).put(14, 6).put(7, 5).put(7, 5).put(12, 6).put(12, 6);
    whole.put(7, 5).put(7, 5);
    let mut frames = Vec::new();
    assert_eq!(d.decode_packet(&whole.bytes, &mut frames), Ok(()));
    assert_eq!(frames.len(), 4);
    let mut cut = Bits::new();
    cut.put(0, 1).put(14, 6).put(7, 5).put(7, 5).put(50, 6).put(0, 8);
    assert_eq!(d.decode_packet(&cut.bytes, &mut frames), Err(Error::HuffmanNoMatch));
    let counts: Vec<usize> = frames.iter().map(|f| f.res.len()).collect();
    assert_eq!(counts, [0, 1, 0, 1, 0, 1]);
    assert_eq!(d.last_max_band, 1);
    assert_eq!(d.decode_packet(&[0x1C], &mut frames), Err(Error::UnexpectedEof));
    assert_eq!(frames.len(), 7);
    assert!(frames[6].res.is_empty());
    assert_eq!(d.decode_packet(&[], &mut frames), Err(Error::UnexpectedEof));
    assert_eq!(frames.len(), 7);
}

#[test]
fn packets_of_many_sub_frames() {
    let mut d = decoder(1, 0, false, 8);
    let mut frames = Vec::new();
    assert_eq!(d.decode_packet(&[0x34, 0xD3, 0x4D], &mut frames), Err(Error::UnexpectedEof));
    assert_eq!(frames.len(), 5);
}

#[test]
fn mid_side_flags_of_two_channels() {
    let mut b = Bits::new();
    b.put(1, 1).put(6, 5).put(7, 5);
    b.put(1, 1);
    b.put(0, 2).put(9, 7);
    let frames = decode(&mut decoder(2, 1, true, 0), &b.bytes).unwrap();
    assert_eq!(frames[0].res, [[-1, 0]]);
    assert_eq!(frames[0].ms_flags, [true]);
    let mut seed = 0_u32;
    for k in 0..36 {
        seed = seed.wrapping_mul(1_103_515_245).wrapping_add(12345);
        assert_eq!(frames[0].levels[0][k], ((seed >> 16) & 0x3FF) as i32 - 510);
    }
}

#[test]
fn later_sub_frames_code_the_change() {
    let mut b = Bits::new();
    b.put(13, 6).put(13, 6).put(13, 6);
    let mut d = decoder(2, 0, true, 1);
    let frames = decode(&mut d, &b.bytes).unwrap();
    assert_eq!(frames.len(), 4);
    assert!(frames.iter().all(|f| f.res.is_empty()));
    let mut up = Bits::new();
    up.put(0, 1).put(14, 6).put(7, 5).put(7, 5).put(12, 6).put(12, 6);
    up.put(7, 5).put(7, 5);
    let mut e = decoder(2, 1, true, 1);
    let frames = decode(&mut e, &up.bytes).unwrap();
    let counts: Vec<usize> = frames.iter().map(|f| f.res.len()).collect();
    assert_eq!(counts, [0, 1, 0, 1]);
    assert_eq!(e.last_max_band, 1);
}

#[test]
fn escaped_scalefactor_differences() {
    let mut b = Bits::new();
    b.put(1, 1).put(6, 5).put(3, 2).put(10, 7).put(31, 6).put(5, 6).put(20, 6);
    let frames = decode(&mut decoder(1, 1, false, 0), &b.bytes).unwrap();
    assert_eq!(frames[0].scf[0], [10, 54, 49]);
    for (method, want) in [(1, [10, 5, 5]), (2, [10, 10, 5])] {
        let mut b = Bits::new();
        b.put(1, 1).put(6, 5).put(method, 2).put(10, 7).put(20, 6);
        let frames = decode(&mut decoder(1, 1, false, 0), &b.bytes).unwrap();
        assert_eq!(frames[0].scf[0], want);
    }
}

#[test]
fn large_levels() {
    let mut b = Bits::new();
    b.put(3, 2).put(16, 5).put(8, 5);
    for _ in 0..2 {
        b.put(0, 2).put(1, 7);
    }
    for k in 0..36 {
        b.put(5 + k, 8).put(1, 1);
    }
    for k in 0..36 {
        b.put(k, 8);
    }
    let frames = decode(&mut decoder(1, 2, false, 0), &b.bytes).unwrap();
    assert_eq!(frames[0].res, [[10, 0], [9, 0]]);
    for k in 0..36 {
        assert_eq!(frames[0].levels[0][k as usize], (2 * (5 + k) + 1) - 255);
        assert_eq!(frames[0].levels[2][k as usize], k - 127);
    }
}

#[test]
fn band_types_without_a_code_are_refused() {
    let mut b = Bits::new();
    b.put(1, 1).put(0, 5).put(0, 2).put(1, 7).put(0, 32);
    assert!(matches!(
        decode(&mut decoder(1, 1, false, 0), &b.bytes),
        Err(Error::SampleOutOfRange(_))
    ));
    let mut d = decoder(1, 1, false, 0);
    d.vlcs.res_low = VlcTable { rows: Vec::new() };
    assert_eq!(decode(&mut d, &[0x80, 0, 0, 0]), Err(Error::HuffmanNoMatch));
}

#[test]
fn subsets_and_bounded_values() {
    let data = [0b1011_0000];
    let mut br = PacketReader::new(&data);
    assert_eq!(br.read_phased(2), Ok(1));
    assert_eq!(br.read_phased(2), Ok(0));
    assert_eq!(br.read_phased(2), Ok(2));
}
