//! Decoding of WAV files.

use hound::WavReader;
use vstd::arithmetic::power2::{lemma2_to64, pow2};
use vstd::prelude::*;

verus! {

/// How the samples of a file are written.
#[derive(Clone, Copy, Debug, PartialEq, Eq, Structural)]
pub enum SampleFormat {
    /// As floats.
    Float,
    /// As signed integers.
    Int,
}

/// What the header of a file says of its samples.
#[derive(Clone, Copy, Debug, PartialEq, Eq, Structural)]
pub struct WavSpec {
    /// The number of channels.
    pub channels: u16,
    /// The number of frames in a second.
    pub sample_rate: u32,
    /// The number of bits in a sample.
    pub bits_per_sample: u16,
    /// How the samples are written.
    pub sample_format: SampleFormat,
}

/// The error of the WAV reader.
#[verifier::external_type_specification]
#[verifier::external_body]
pub struct ExHoundError(hound::Error);

/// What the WAV reader finds in the header of a file: the number of channels, the sample rate, the
/// bits of a sample, and whether samples are floats; nothing where it cannot read the file.
pub uninterp spec fn wav_header(bytes: Seq<u8>) -> Option<(u16, u32, u16, bool)>;

/// The samples that the WAV reader finds in a file when asked for 8-bit integers; nothing where one
/// of them cannot be read.
pub uninterp spec fn wav_i8(bytes: Seq<u8>) -> Option<Seq<i8>>;

/// The samples that the WAV reader finds in a file when asked for 16-bit integers.
pub uninterp spec fn wav_i16(bytes: Seq<u8>) -> Option<Seq<i16>>;

/// The samples that the WAV reader finds in a file when asked for 32-bit integers.
pub uninterp spec fn wav_i32(bytes: Seq<u8>) -> Option<Seq<i32>>;

/// `hound::WavReader::new` on the bytes of a file, followed by `hound::WavReader::spec`.
///
/// Trusted: what comes back depends on the bytes alone, and a file without channels is refused.
#[verifier::external_body]
pub(crate) fn read_header(bytes: &[u8]) -> (header: Result<(u16, u32, u16, bool), hound::Error>)
    ensures
        header is Ok <==> wav_header(bytes@) is Some,
        header matches Ok(h) ==> Some(h) == wav_header(bytes@) && h.0 > 0,
{
    let spec = WavReader::new(bytes)?.spec();
    let float = match spec.sample_format {
        hound::SampleFormat::Float => true,
        hound::SampleFormat::Int => false,
    };
    Ok((spec.channels, spec.sample_rate, spec.bits_per_sample, float))
}

/// `hound::WavReader::samples` for 8-bit integers, over the bytes of a file.
///
/// Trusted: what comes back depends on the bytes alone, and the last frame is complete.
#[verifier::external_body]
pub(crate) fn read_i8(bytes: &[u8]) -> (samples: Result<Vec<i8>, hound::Error>)
    ensures
        samples is Ok <==> wav_i8(bytes@) is Some,
        samples matches Ok(s) ==> Some(s@) == wav_i8(bytes@),
        samples matches Ok(s) ==> (wav_header(bytes@) matches Some(h) ==> s@.len() as int
            % h.0 as int == 0),
{
    WavReader::new(bytes)?.samples::<i8>().collect()
}

/// `hound::WavReader::samples` for 16-bit integers, over the bytes of a file.
///
/// Trusted: what comes back depends on the bytes alone, and the last frame is complete.
#[verifier::external_body]
pub(crate) fn read_i16(bytes: &[u8]) -> (samples: Result<Vec<i16>, hound::Error>)
    ensures
        samples is Ok <==> wav_i16(bytes@) is Some,
        samples matches Ok(s) ==> Some(s@) == wav_i16(bytes@),
        samples matches Ok(s) ==> (wav_header(bytes@) matches Some(h) ==> s@.len() as int
            % h.0 as int == 0),
{
    WavReader::new(bytes)?.samples::<i16>().collect()
}

/// `hound::WavReader::samples` for 32-bit integers, over the bytes of a file.
///
/// Trusted: what comes back depends on the bytes alone, the last frame is complete, and samples of
/// 24 bits lie in the range of 24-bit integers.
#[verifier::external_body]
pub(crate) fn read_i32(bytes: &[u8]) -> (samples: Result<Vec<i32>, hound::Error>)
    ensures
        samples is Ok <==> wav_i32(bytes@) is Some,
        samples matches Ok(s) ==> Some(s@) == wav_i32(bytes@),
        samples matches Ok(s) ==> (wav_header(bytes@) matches Some(h) ==> s@.len() as int
            % h.0 as int == 0),
        samples matches Ok(s) ==> (wav_header(bytes@) matches Some(h) ==> (h.2 == 24 ==> forall|
            i: int,
        |
            0 <= i < s@.len() ==> -0x80_0000 <= #[trigger] s@[i] < 0x80_0000)),
{
    WavReader::new(bytes)?.samples::<i32>().collect()
}

/// The ways in which the samples of a file can be written for the engine to play it.
#[derive(Clone, Copy, Debug, PartialEq, Eq, Structural)]
pub enum Encoding {
    /// Integers of 8 bits.
    Pcm8,
    /// Integers of 16 bits.
    Pcm16,
    /// Integers of 24 bits.
    Pcm24,
    /// Integers of 32 bits.
    Pcm32,
    /// Floats of 32 bits.
    Float32,
}

/// The encoding of a format and a number of bits, where the engine can play it.
pub open spec fn encoding(format: SampleFormat, bits: u16) -> Option<Encoding> {
    match format {
        SampleFormat::Int => if bits == 8 {
            Some(Encoding::Pcm8)
        } else if bits == 16 {
            Some(Encoding::Pcm16)
        } else if bits == 24 {
            Some(Encoding::Pcm24)
        } else if bits == 32 {
            Some(Encoding::Pcm32)
        } else {
            None
        },
        SampleFormat::Float => if bits == 32 {
            Some(Encoding::Float32)
        } else {
            None
        },
    }
}

/// The encoding of a format and a number of bits, where the engine can play it.
pub fn encoding_of(format: SampleFormat, bits: u16) -> (found: Option<Encoding>)
    ensures
        found == encoding(format, bits),
        found is Some <==> bits == 32 || format == SampleFormat::Int && (bits == 8 || bits == 16
            || bits == 24),
{
    match (format, bits) {
        (SampleFormat::Int, 8) => Some(Encoding::Pcm8),
        (SampleFormat::Int, 16) => Some(Encoding::Pcm16),
        (SampleFormat::Int, 24) => Some(Encoding::Pcm24),
        (SampleFormat::Int, 32) => Some(Encoding::Pcm32),
        (SampleFormat::Float, 32) => Some(Encoding::Float32),
        _ => None,
    }
}

/// The integer that stands for full scale in an encoding: half the number of values that its bits
/// can tell apart.
pub open spec fn full_scale(encoding: Encoding) -> u32 {
    match encoding {
        Encoding::Pcm8 => 0x80,
        Encoding::Pcm16 => 0x8000,
        Encoding::Pcm24 => 0x80_0000,
        Encoding::Pcm32 => 0x8000_0000,
        Encoding::Float32 => 1,
    }
}

/// The integer that stands for full scale in an encoding.
pub fn scale_of(encoding: Encoding) -> (scale: u32)
    ensures
        scale == full_scale(encoding),
        encoding == Encoding::Pcm8 ==> scale == 128,
        encoding == Encoding::Pcm16 ==> scale == 32768,
        encoding == Encoding::Pcm24 ==> scale == 8_388_608,
        encoding == Encoding::Pcm32 ==> scale == 2_147_483_648,
        encoding == Encoding::Float32 ==> scale == 1,
{
    match encoding {
        Encoding::Pcm8 => 0x80,
        Encoding::Pcm16 => 0x8000,
        Encoding::Pcm24 => 0x80_0000,
        Encoding::Pcm32 => 0x8000_0000,
        Encoding::Float32 => 1,
    }
}

/// Full scale of integers is half of what their bits can count.
pub proof fn lemma_full_scale(bits: u16)
    requires
        encoding(SampleFormat::Int, bits) is Some,
    ensures
        bits == 8 || bits == 16 || bits == 24 || bits == 32,
        2 * full_scale(encoding(SampleFormat::Int, bits)->0) == pow2(bits as nat),
{
    lemma2_to64();
}

/// The samples of a file, before they become floats.
pub enum WavSamples {
    /// Integers, of which `scale` stands for the float one.
    Pcm {
        /// The integers.
        values: Vec<i32>,
        /// The integer that stands for the float one.
        scale: u32,
    },
    /// Floats already, to be read as they are.
    Float,
}

/// Why a file cannot be decoded.
pub enum DecodeError {
    /// The file is no WAV file that the reader knows.
    Malformed(hound::Error),
    /// The engine does not play samples of this format and size.
    Unsupported(SampleFormat, u16),
    /// A sample could not be read.
    BadSample(hound::Error),
}

/// The description that a header gives.
pub open spec fn described(header: (u16, u32, u16, bool)) -> WavSpec {
    WavSpec {
        channels: header.0,
        sample_rate: header.1,
        bits_per_sample: header.2,
        sample_format: if header.3 {
            SampleFormat::Float
        } else {
            SampleFormat::Int
        },
    }
}

/// The description that a header gives.
pub fn describe(header: (u16, u32, u16, bool)) -> (spec: WavSpec)
    ensures
        spec == described(header),
        spec.channels == header.0,
        spec.sample_rate == header.1,
        spec.bits_per_sample == header.2,
        spec.sample_format == SampleFormat::Float <==> header.3,
{
    WavSpec {
        channels: header.0,
        sample_rate: header.1,
        bits_per_sample: header.2,
        sample_format: if header.3 {
            SampleFormat::Float
        } else {
            SampleFormat::Int
        },
    }
}

/// Integers of 8 bits as wider ones.
pub open spec fn widened_i8(samples: Seq<i8>) -> Seq<i32> {
    Seq::new(samples.len(), |i: int| samples[i] as i32)
}

/// Integers of 16 bits as wider ones.
pub open spec fn widened_i16(samples: Seq<i16>) -> Seq<i32> {
    Seq::new(samples.len(), |i: int| samples[i] as i32)
}

/// The integers that a file holds in an encoding, given what the reader found for each width;
/// nothing where one of them could not be read.
pub open spec fn integers(
    encoding: Encoding,
    as_i8: Option<Seq<i8>>,
    as_i16: Option<Seq<i16>>,
    as_i32: Option<Seq<i32>>,
) -> Option<Seq<i32>> {
    match encoding {
        Encoding::Pcm8 => match as_i8 {
            Some(s) => Some(widened_i8(s)),
            None => None,
        },
        Encoding::Pcm16 => match as_i16 {
            Some(s) => Some(widened_i16(s)),
            None => None,
        },
        Encoding::Pcm24 => as_i32,
        Encoding::Pcm32 => as_i32,
        Encoding::Float32 => None,
    }
}

/// What is said of a file is what the reader found in its header, field by field.
pub proof fn lemma_described(channels: u16, rate: u32, bits: u16, float: bool)
    ensures
        described((channels, rate, bits, float)).channels == channels,
        described((channels, rate, bits, float)).sample_rate == rate,
        described((channels, rate, bits, float)).bits_per_sample == bits,
        described((channels, rate, bits, float)).sample_format == SampleFormat::Float <==> float,
{
}

/// Widening an integer does not change its value, and keeps it in its place.
pub proof fn lemma_widening_keeps_values(bytes: Seq<i8>, words: Seq<i16>)
    ensures
        widened_i8(bytes).len() == bytes.len(),
        widened_i16(words).len() == words.len(),
        forall|i: int|
            0 <= i < bytes.len() ==> #[trigger] widened_i8(bytes)[i] as int == bytes[i] as int,
        forall|i: int|
            0 <= i < words.len() ==> #[trigger] widened_i16(words)[i] as int == words[i] as int,
{
}

/// The engine plays integers of 8, 16, 24 and 32 bits and floats of 32 bits, each an encoding of its
/// own, and nothing else.
pub proof fn lemma_encodings(bits: u16)
    ensures
        encoding(SampleFormat::Int, bits) == Some(Encoding::Pcm8) <==> bits == 8,
        encoding(SampleFormat::Int, bits) == Some(Encoding::Pcm16) <==> bits == 16,
        encoding(SampleFormat::Int, bits) == Some(Encoding::Pcm24) <==> bits == 24,
        encoding(SampleFormat::Int, bits) == Some(Encoding::Pcm32) <==> bits == 32,
        encoding(SampleFormat::Int, bits) != Some(Encoding::Float32),
        encoding(SampleFormat::Float, bits) == Some(Encoding::Float32) <==> bits == 32,
        encoding(SampleFormat::Float, bits) is None <==> bits != 32,
{
}

/// The integers of a file are, place by place, the numbers that the reader found at the width of the
/// encoding; what it found at another width does not count. There are none only where the reader
/// found none.
pub proof fn lemma_integers(
    as_i8: Option<Seq<i8>>,
    as_i16: Option<Seq<i16>>,
    as_i32: Option<Seq<i32>>,
)
    ensures
        integers(Encoding::Pcm8, as_i8, as_i16, as_i32) is Some <==> as_i8 is Some,
        integers(Encoding::Pcm16, as_i8, as_i16, as_i32) is Some <==> as_i16 is Some,
        integers(Encoding::Pcm24, as_i8, as_i16, as_i32) == as_i32,
        integers(Encoding::Pcm32, as_i8, as_i16, as_i32) == as_i32,
        as_i8 matches Some(s) ==> {
            let found = integers(Encoding::Pcm8, as_i8, as_i16, as_i32)->0;
            &&& found.len() == s.len()
            &&& forall|i: int| 0 <= i < s.len() ==> #[trigger] found[i] as int == s[i] as int
        },
        as_i16 matches Some(s) ==> {
            let found = integers(Encoding::Pcm16, as_i8, as_i16, as_i32)->0;
            &&& found.len() == s.len()
            &&& forall|i: int| 0 <= i < s.len() ==> #[trigger] found[i] as int == s[i] as int
        },
{
}

/// Integers of 8 bits as wider ones.
pub fn widen_i8(samples: &Vec<i8>) -> (wide: Vec<i32>)
    ensures
        wide@ == widened_i8(samples@),
        wide@.len() == samples@.len(),
        forall|i: int| 0 <= i < samples@.len() ==> #[trigger] wide@[i] as int == samples@[i] as int,
{
    let mut wide: Vec<i32> = Vec::new();
    let mut i: usize = 0;
    while i < samples.len()
        invariant
            0 <= i <= samples@.len(),
            wide@ == widened_i8(samples@).take(i as int),
        decreases samples@.len() - i,
    {
        wide.push(samples[i] as i32);
        i = i + 1;
    }
    assert(wide@ =~= widened_i8(samples@));
    wide
}

/// Integers of 16 bits as wider ones.
pub fn widen_i16(samples: &Vec<i16>) -> (wide: Vec<i32>)
    ensures
        wide@ == widened_i16(samples@),
        wide@.len() == samples@.len(),
        forall|i: int| 0 <= i < samples@.len() ==> #[trigger] wide@[i] as int == samples@[i] as int,
{
    let mut wide: Vec<i32> = Vec::new();
    let mut i: usize = 0;
    while i < samples.len()
        invariant
            0 <= i <= samples@.len(),
            wide@ == widened_i16(samples@).take(i as int),
        decreases samples@.len() - i,
    {
        wide.push(samples[i] as i32);
        i = i + 1;
    }
    assert(wide@ =~= widened_i16(samples@));
    wide
}

/// The integers of a file in one of the integer encodings.
fn read_integers(bytes: &[u8], encoding: Encoding) -> (values: Result<Vec<i32>, hound::Error>)
    requires
        encoding != Encoding::Float32,
    ensures
        values is Ok <==> integers(
            encoding,
            wav_i8(bytes@),
            wav_i16(bytes@),
            wav_i32(bytes@),
        ) is Some,
        values matches Ok(v) ==> Some(v@) == integers(
            encoding,
            wav_i8(bytes@),
            wav_i16(bytes@),
            wav_i32(bytes@),
        ),
        values matches Ok(v) ==> (wav_header(bytes@) matches Some(h) ==> v@.len() as int
            % h.0 as int == 0),
        values matches Ok(v) ==> (wav_header(bytes@) matches Some(h) ==> (encoding
            == Encoding::Pcm24 ==> h.2 == 24) ==> forall|i: int|
            0 <= i < v@.len() ==> -full_scale(encoding) <= #[trigger] v@[i] < full_scale(encoding)),
{
    match encoding {
        Encoding::Pcm8 => match read_i8(bytes) {
            Ok(samples) => Ok(widen_i8(&samples)),
            Err(error) => Err(error),
        },
        Encoding::Pcm16 => match read_i16(bytes) {
            Ok(samples) => Ok(widen_i16(&samples)),
            Err(error) => Err(error),
        },
        _ => read_i32(bytes),
    }
}

/// Decodes a file: what its header says, and its samples.
///
/// Integers lie within full scale on both sides, and there is a whole number of frames.
pub fn decode(bytes: &[u8]) -> (decoded: Result<(WavSpec, WavSamples), DecodeError>)
    ensures
        match wav_header(bytes@) {
            None => decoded matches Err(DecodeError::Malformed(_)),
            Some(header) => {
                let spec = described(header);
                match encoding(spec.sample_format, spec.bits_per_sample) {
                    None => decoded == Err::<(WavSpec, WavSamples), DecodeError>(
                        DecodeError::Unsupported(spec.sample_format, spec.bits_per_sample),
                    ),
                    Some(Encoding::Float32) => decoded == Ok::<(WavSpec, WavSamples), DecodeError>(
                        (spec, WavSamples::Float),
                    ),
                    Some(way) => match integers(
                        way,
                        wav_i8(bytes@),
                        wav_i16(bytes@),
                        wav_i32(bytes@),
                    ) {
                        None => decoded matches Err(DecodeError::BadSample(_)),
                        Some(found) => {
                            &&& decoded matches Ok((said, WavSamples::Pcm { values, scale }))
                            &&& said == spec
                            &&& values@ == found
                            &&& scale == full_scale(way)
                        },
                    },
                }
            },
        },
        match wav_header(bytes@) {
            None => decoded matches Err(DecodeError::Malformed(_)),
            Some((channels, rate, bits, float)) => {
                &&& (decoded matches Ok((spec, _)) ==> {
                    &&& spec.channels == channels
                    &&& spec.sample_rate == rate
                    &&& spec.bits_per_sample == bits
                    &&& spec.sample_format == SampleFormat::Float <==> float
                })
                &&& !float && bits == 8 ==> match wav_i8(bytes@) {
                    None => decoded matches Err(DecodeError::BadSample(_)),
                    Some(s) => {
                        &&& decoded matches Ok((_, WavSamples::Pcm { values, scale }))
                        &&& scale == 128
                        &&& values@.len() == s.len()
                        &&& forall|i: int|
                            0 <= i < s.len() ==> #[trigger] values@[i] as int == s[i] as int
                    },
                }
                &&& !float && bits == 16 ==> match wav_i16(bytes@) {
                    None => decoded matches Err(DecodeError::BadSample(_)),
                    Some(s) => {
                        &&& decoded matches Ok((_, WavSamples::Pcm { values, scale }))
                        &&& scale == 32768
                        &&& values@.len() == s.len()
                        &&& forall|i: int|
                            0 <= i < s.len() ==> #[trigger] values@[i] as int == s[i] as int
                    },
                }
                &&& !float && (bits == 24 || bits == 32) ==> match wav_i32(bytes@) {
                    None => decoded matches Err(DecodeError::BadSample(_)),
                    Some(s) => {
                        &&& decoded matches Ok((_, WavSamples::Pcm { values, scale }))
                        &&& bits == 24 ==> scale == 8_388_608
                        &&& bits == 32 ==> scale == 2_147_483_648
                        &&& values@ == s
                    },
                }
                &&& float && bits == 32 ==> (decoded matches Ok((_, WavSamples::Float)))
                &&& bits != 32 && (float || bits != 8 && bits != 16 && bits != 24) ==> {
                    &&& decoded matches Err(DecodeError::Unsupported(format, size))
                    &&& size == bits
                    &&& format == SampleFormat::Float <==> float
                }
            },
        },
        decoded matches Ok((spec, _)) ==> spec.channels > 0,
        decoded matches Ok((spec, WavSamples::Pcm { values, scale })) ==> {
            &&& values@.len() as int % spec.channels as int == 0
            &&& forall|i: int| 0 <= i < values@.len() ==> -scale <= #[trigger] values@[i] < scale
        },
{
    let header = match read_header(bytes) {
        Ok(header) => header,
        Err(error) => {
            return Err(DecodeError::Malformed(error));
        },
    };
    let spec = describe(header);
    match encoding_of(spec.sample_format, spec.bits_per_sample) {
        None => Err(DecodeError::Unsupported(spec.sample_format, spec.bits_per_sample)),
        Some(Encoding::Float32) => Ok((spec, WavSamples::Float)),
        Some(way) => match read_integers(bytes, way) {
            Ok(values) => Ok((spec, WavSamples::Pcm { values, scale: scale_of(way) })),
            Err(error) => Err(DecodeError::BadSample(error)),
        },
    }
}

} // verus!
