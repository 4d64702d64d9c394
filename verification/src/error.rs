//! The error type shared by every layer.

use vstd::prelude::*;

verus! {

/// Why a stream could not be decoded, or a value could not be encoded.
#[derive(Debug, Clone, Copy, PartialEq, Eq)]
pub enum Error {
    /// The input ended inside a field.
    UnexpectedEof,
    /// No row of a code table matches the next bits.
    HuffmanNoMatch,
    /// A scalefactor coding method outside `0..=3`.
    InvalidScfCodingMethod(i8),
    /// A value outside the alphabet of the code that has to carry it.
    SampleOutOfRange(i32),
    /// A symbol that the code table holds no codeword for.
    SymbolNotEncodable(i32),
    /// A band count or band number past the coded range.
    MaxBandOutOfRange(u8),
    /// A band type that the layer does not code.
    UnsupportedBandType(i8),
    /// A grouped symbol whose digits leave the level range.
    GroupedSymbolOutOfRange(i8),
    /// A channel count that the layer does not take.
    ChannelCountInvalid(u8),
    /// A variable-length integer with too many bytes.
    VarintTooLong,
    /// A header field outside its width; the text names the field.
    HeaderFieldOutOfRange(&'static str),
    /// A seek layer that contradicts itself; the text says how.
    SeekTableCorrupt(&'static str),
    /// The buffer does not start with the stream magic.
    InvalidMagic,
    /// A stream shape without the header that decoding needs.
    NotImplemented,
}

/// `Result` with the library's own [`Error`].
pub type Result<T> = std::result::Result<T, Error>;

} // verus!
