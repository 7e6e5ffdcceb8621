use audio_scripting::wav::{
    decode, describe, encoding_of, scale_of, widen_i16, widen_i8, DecodeError, Encoding,
    SampleFormat, WavSamples, WavSpec,
};
use hound::{Sample, WavWriter};
use std::io::Cursor;

fn wav<S: Sample + Copy>(
    channels: u16,
    bits: u16,
    sample_format: hound::SampleFormat,
    samples: &[S],
) -> Vec<u8> {
    let spec = hound::WavSpec { channels, sample_rate: 44100, bits_per_sample: bits, sample_format };
    let mut file = Cursor::new(Vec::new());
    let mut writer = WavWriter::new(&mut file, spec).unwrap();
    for sample in samples {
        writer.write_sample(*sample).unwrap();
    }
    writer.finalize().unwrap();
    file.into_inner()
}

fn pcm(bytes: &[u8]) -> (WavSpec, Vec<i32>, u32) {
    match decode(bytes) {
        Ok((spec, WavSamples::Pcm { values, scale })) => (spec, values, scale),
        _ => panic!("no integers were decoded"),
    }
}

#[test]
fn eight_bit_integers_are_decoded() {
    let (spec, values, scale) = pcm(&wav(1, 8, hound::SampleFormat::Int, &[-128i8, 0, 127]));
    assert_eq!(spec.channels, 1);
    assert_eq!(spec.sample_rate, 44100);
    assert_eq!(spec.bits_per_sample, 8);
    assert_eq!(spec.sample_format, SampleFormat::Int);
    assert_eq!(values, vec![-128, 0, 127]);
    assert_eq!(scale, 128);
}

#[test]
fn sixteen_bit_integers_are_decoded() {
    let (spec, values, scale) =
        pcm(&wav(2, 16, hound::SampleFormat::Int, &[-32768i16, 32767, 1, -1]));
    assert_eq!((spec.channels, spec.bits_per_sample), (2, 16));
    assert_eq!(values, vec![-32768, 32767, 1, -1]);
    assert_eq!(scale, 32768);
}

#[test]
fn twenty_four_bit_integers_are_decoded() {
    let (spec, values, scale) =
        pcm(&wav(1, 24, hound::SampleFormat::Int, &[-8_388_608i32, 8_388_607, -2]));
    assert_eq!(spec.bits_per_sample, 24);
    assert_eq!(values, vec![-8_388_608, 8_388_607, -2]);
    assert_eq!(scale, 8_388_608);
}

#[test]
fn thirty_two_bit_integers_are_decoded() {
    let (spec, values, scale) = pcm(&wav(1, 32, hound::SampleFormat::Int, &[i32::MIN, i32::MAX]));
    assert_eq!(spec.bits_per_sample, 32);
    assert_eq!(values, vec![i32::MIN, i32::MAX]);
    assert_eq!(scale, 2_147_483_648);
}

#[test]
fn floats_are_left_to_be_read() {
    let bytes = wav(2, 32, hound::SampleFormat::Float, &[0.5f32, -0.5]);
    match decode(&bytes) {
        Ok((spec, WavSamples::Float)) => {
            assert_eq!((spec.channels, spec.bits_per_sample), (2, 32));
            assert_eq!(spec.sample_format, SampleFormat::Float);
        }
        _ => panic!("no floats were found"),
    }
}

#[test]
fn integers_lie_within_full_scale() {
    for bytes in [
        wav(1, 8, hound::SampleFormat::Int, &[-128i8, 127]),
        wav(1, 16, hound::SampleFormat::Int, &[i16::MIN, i16::MAX]),
        wav(1, 24, hound::SampleFormat::Int, &[-8_388_608i32, 8_388_607]),
    ] {
        let (_, values, scale) = pcm(&bytes);
        for value in values {
            let float = value as f32 / scale as f32;
            assert!((-1.0..1.0).contains(&float));
        }
    }
}

#[test]
fn no_wav_file_is_malformed() {
    assert!(matches!(decode(&[]), Err(DecodeError::Malformed(_))));
    assert!(matches!(decode(b"no wave"), Err(DecodeError::Malformed(_))));
}

#[test]
fn file_without_channels_is_malformed() {
    let mut bytes = wav(1, 16, hound::SampleFormat::Int, &[1i16]);
    bytes[22] = 0;
    assert!(matches!(decode(&bytes), Err(DecodeError::Malformed(_))));
}

#[test]
fn sample_that_is_cut_off_is_bad() {
    let mut bytes = wav(1, 16, hound::SampleFormat::Int, &[1i16, 2]);
    bytes.pop();
    assert!(matches!(decode(&bytes), Err(DecodeError::BadSample(_))));
}

#[test]
fn other_sizes_are_unsupported() {
    let mut bytes = wav(1, 24, hound::SampleFormat::Int, &[1i32]);
    // The number of valid bits in the extended header.
    bytes[38] = 20;
    assert!(matches!(
        decode(&bytes),
        Err(DecodeError::Unsupported(SampleFormat::Int, 20))
    ));
}

#[test]
fn header_is_described() {
    assert_eq!(
        describe((2, 48000, 16, false)),
        WavSpec {
            channels: 2,
            sample_rate: 48000,
            bits_per_sample: 16,
            sample_format: SampleFormat::Int,
        }
    );
    assert_eq!(describe((1, 8000, 32, true)).sample_format, SampleFormat::Float);
}

#[test]
fn encodings_are_told_by_format_and_size() {
    assert_eq!(encoding_of(SampleFormat::Int, 8), Some(Encoding::Pcm8));
    assert_eq!(encoding_of(SampleFormat::Int, 16), Some(Encoding::Pcm16));
    assert_eq!(encoding_of(SampleFormat::Int, 24), Some(Encoding::Pcm24));
    assert_eq!(encoding_of(SampleFormat::Int, 32), Some(Encoding::Pcm32));
    assert_eq!(encoding_of(SampleFormat::Float, 32), Some(Encoding::Float32));
    assert_eq!(encoding_of(SampleFormat::Float, 16), None);
    assert_eq!(encoding_of(SampleFormat::Float, 64), None);
    assert_eq!(encoding_of(SampleFormat::Int, 12), None);
    assert_eq!(encoding_of(SampleFormat::Int, 0), None);
}

#[test]
fn full_scale_is_half_the_range() {
    assert_eq!(scale_of(Encoding::Pcm8), 1 << 7);
    assert_eq!(scale_of(Encoding::Pcm16), 1 << 15);
    assert_eq!(scale_of(Encoding::Pcm24), 1 << 23);
    assert_eq!(scale_of(Encoding::Pcm32), 1 << 31);
}

#[test]
fn widening_keeps_values() {
    assert_eq!(widen_i8(&vec![-128, -1, 0, 127]), vec![-128, -1, 0, 127]);
    assert_eq!(widen_i16(&vec![-32768, -1, 32767]), vec![-32768, -1, 32767]);
}
