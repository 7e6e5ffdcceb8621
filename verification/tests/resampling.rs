use audio_scripting::resample::{can_resample, resample_to_device_rate, CHUNK_FRAMES};
use rubato::{FftFixedIn, Resampler};

#[test]
fn same_rate_needs_no_work() {
    assert!(can_resample(3, 48000, 2, 48000));
    assert!(resample_to_device_rate(&vec![1.0f32, 2.0, 3.0], 48000, 2, 48000).is_none());
    assert!(can_resample(1, 48000, 0, 48000));
    assert!(resample_to_device_rate(&vec![1.0f32], 48000, 0, 48000).is_none());
}

#[test]
fn only_whole_chunks_of_complete_frames_are_resampled() {
    assert_eq!(CHUNK_FRAMES, 1024);
    assert!(can_resample(2048, 44100, 2, 48000));
    assert!(can_resample(0, 44100, 2, 48000));
    assert!(can_resample(4096, 44100, 1, 48000));
    assert!(!can_resample(2047, 44100, 2, 48000));
    assert!(!can_resample(2046, 44100, 2, 48000));
    assert!(!can_resample(2050, 44100, 2, 48000));
    assert!(!can_resample(2048, 44100, 0, 48000));
    assert!(!can_resample(2048, 0, 2, 48000));
    assert!(!can_resample(2048, 44100, 2, 0));
}

#[test]
fn resampler_refuses_what_cannot_be_resampled() {
    assert!(FftFixedIn::<f32>::new(0, 48000, CHUNK_FRAMES, 1, 1).is_err());
    assert!(FftFixedIn::<f32>::new(44100, 0, CHUNK_FRAMES, 1, 1).is_err());
    let mut resampler = FftFixedIn::<f32>::new(44100, 48000, CHUNK_FRAMES, 1, 1).unwrap();
    assert_eq!(resampler.input_frames_next(), CHUNK_FRAMES);
    assert!(resampler.process(&[vec![0.0f32; CHUNK_FRAMES - 1]], None).is_err());
    assert!(resampler.process(&[vec![0.0f32; CHUNK_FRAMES]], None).is_ok());
    assert_eq!(resampler.input_frames_next(), CHUNK_FRAMES);
}

#[test]
fn source_is_cut_into_chunks_of_channels() {
    let frames = 3 * CHUNK_FRAMES;
    let samples: Vec<usize> = (0..2 * frames).collect();
    let mut work = resample_to_device_rate(&samples, 44100, 2, 48000).unwrap();
    for from in [0, CHUNK_FRAMES, 2 * CHUNK_FRAMES] {
        let left: Vec<usize> = (from..from + CHUNK_FRAMES).map(|f| 2 * f).collect();
        let right: Vec<usize> = (from..from + CHUNK_FRAMES).map(|f| 2 * f + 1).collect();
        assert_eq!(work.next_chunk(), Some(vec![left, right]));
    }
    assert_eq!(work.next_chunk(), None);
    assert_eq!(work.next_chunk(), None);
}

#[test]
fn converted_chunks_are_collected_and_interleaved() {
    let mut work = resample_to_device_rate(&Vec::new(), 44100, 2, 48000).unwrap();
    work.accept(vec![vec![1, 2], vec![10, 20]]);
    work.accept(vec![vec![], vec![]]);
    work.accept(vec![vec![3], vec![30]]);
    assert_eq!(work.finish(), vec![1, 10, 2, 20, 3, 30]);
}

#[test]
fn first_channel_decides_how_many_frames_come_out() {
    let mut work = resample_to_device_rate(&Vec::new(), 44100, 2, 48000).unwrap();
    work.accept(vec![vec![1], vec![10, 20]]);
    assert_eq!(work.finish(), vec![1, 10]);
}

#[test]
fn nothing_comes_of_nothing() {
    let mut work = resample_to_device_rate(&Vec::<u32>::new(), 44100, 3, 48000).unwrap();
    assert_eq!(work.next_chunk(), None);
    assert_eq!(work.finish(), Vec::<u32>::new());
}

#[test]
fn unconverted_chunks_give_the_samples_back() {
    let samples: Vec<usize> = (0..3 * 5 * CHUNK_FRAMES).collect();
    let mut work = resample_to_device_rate(&samples, 44100, 3, 48000).unwrap();
    while let Some(chunk) = work.next_chunk() {
        work.accept(chunk);
    }
    assert_eq!(work.finish(), samples);
}

fn converted(samples: &Vec<f32>, channels: usize) -> Vec<f32> {
    let mut resampler = FftFixedIn::<f32>::new(44100, 48000, CHUNK_FRAMES, 1, channels).unwrap();
    let mut work = resample_to_device_rate(samples, 44100, channels, 48000).unwrap();
    while let Some(chunk) = work.next_chunk() {
        work.accept(resampler.process(&chunk, None).unwrap());
    }
    work.finish()
}

#[test]
fn conversion_keeps_channels_apart() {
    let frames = 20 * CHUNK_FRAMES;
    let samples: Vec<f32> = (0..2 * frames).map(|k| if k % 2 == 0 { 0.5 } else { 0.0 }).collect();
    let out = converted(&samples, 2);
    let got = out.len() / 2;
    assert!(got > frames);
    assert_eq!(out.len(), 2 * got);
    assert!(out.iter().skip(1).step_by(2).all(|s| s.abs() < 1e-3));
    let middle = out[got - got % 2];
    assert!((middle - 0.5).abs() < 0.05, "{}", middle);
}

#[test]
fn channels_do_not_influence_each_other() {
    let samples: Vec<f32> =
        (0..2 * 10 * CHUNK_FRAMES).map(|k| ((k * k % 101) as f32 - 50.0) / 60.0).collect();
    let both = converted(&samples, 2);
    assert_eq!(both.len() % 2, 0);
    for c in 0..2 {
        let alone: Vec<f32> = samples.iter().skip(c).step_by(2).copied().collect();
        let channel: Vec<f32> = both.iter().skip(c).step_by(2).copied().collect();
        assert_eq!(channel, converted(&alone, 1));
    }
}

#[test]
fn chunks_of_a_channel_are_those_it_gets_alone() {
    let samples: Vec<usize> = (0..3 * 4 * CHUNK_FRAMES).collect();
    let mut all = resample_to_device_rate(&samples, 1, 3, 2).unwrap();
    let second: Vec<usize> = samples.iter().skip(1).step_by(3).copied().collect();
    let mut alone = resample_to_device_rate(&second, 1, 1, 2).unwrap();
    while let Some(chunk) = all.next_chunk() {
        let mono = alone.next_chunk().unwrap();
        assert_eq!(mono, vec![chunk[1].clone()]);
        // What comes back for a piece is made of that channel's piece alone.
        let double = |part: &Vec<usize>| part.iter().flat_map(|s| [*s, 100 + *s]).collect();
        all.accept(chunk.iter().map(double).collect());
        alone.accept(mono.iter().map(double).collect());
    }
    assert_eq!(alone.next_chunk(), None);
    let out = all.finish();
    let channel: Vec<usize> = out.iter().skip(1).step_by(3).copied().collect();
    assert_eq!(out.len() % 3, 0);
    assert_eq!(channel, alone.finish());
}
