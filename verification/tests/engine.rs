use audio_scripting::buffer::{mix_block, UNIT_GAIN};
use audio_scripting::engine::{Job, Launch};
use audio_scripting::playback::{Feed, Playback};
use audio_scripting::ring::{new_ring, RING_CAPACITY};
use audio_scripting::track::collect_tracks;
use audio_scripting::wav::{SampleFormat, WavSpec};
use audio_scripting::{Buffer, Engine, Track};
use std::collections::VecDeque;
use std::sync::Arc;

fn blend(value: f32, sample: u32, gain: u32) -> f32 {
    value + f32::from_bits(sample) * f32::from_bits(gain)
}

fn bits(samples: &[f32]) -> Vec<u32> {
    samples.iter().map(|s| s.to_bits()).collect()
}

fn spec(channels: u16) -> WavSpec {
    WavSpec {
        channels,
        sample_rate: 48000,
        bits_per_sample: 32,
        sample_format: SampleFormat::Float,
    }
}

fn track(path: &str, channels: u16, samples: &[f32]) -> Track {
    Track::new(&path.to_string(), spec(channels), bits(samples))
}

fn engine(tracks: Vec<Track>) -> Engine {
    Engine::new(2, collect_tracks(tracks))
}

fn started(launch: Launch<'_>) -> Job<'_> {
    match launch {
        Launch::Started(job) => job,
        _ => panic!("no playback was started"),
    }
}

fn play(job: Job<'_>) -> Playback {
    match Engine::Play(job.track, job.args, job.prod) {
        Ok(playback) => playback,
        Err(error) => panic!("{:?}", error),
    }
}

#[test]
fn unit_gain_is_one() {
    assert_eq!(f32::from_bits(UNIT_GAIN), 1.0);
}

#[test]
fn track_counts_its_frames() {
    let t = track("a", 2, &[0.0, 0.1, 0.2, 0.3, 0.4]);
    assert_eq!(t.path, "a");
    assert_eq!(t.channels, 2);
    assert_eq!(t.total_frames, 2);
    assert_eq!(t.sample_rate, 48000);
    assert_eq!(t.samples.len(), 5);
    let copy = t.clone();
    assert_eq!(copy.path, t.path);
    assert_eq!(copy.samples, t.samples);
    assert_eq!((copy.channels, copy.total_frames, copy.sample_rate), (2, 2, 48000));
}

#[test]
fn later_track_takes_the_path() {
    let table = collect_tracks(vec![
        track("a", 1, &[0.1]),
        track("b", 1, &[0.2]),
        track("a", 1, &[0.3]),
    ]);
    assert_eq!(table.len(), 2);
    assert_eq!(table.get("a").unwrap().samples, bits(&[0.3]));
    assert_eq!(table.get("b").unwrap().samples, bits(&[0.2]));
    assert!(table.get("c").is_none());
}

#[test]
fn new_engine_mixes_nothing() {
    let mut e = engine(vec![]);
    assert!(e.buffers.is_empty());
    assert_eq!(e.channels, 2);
    let mut out = [0.5f32, 0.25];
    e.process(&mut out, &blend);
    assert_eq!(out, [0.5, 0.25]);
}

#[test]
fn engine_without_channels_passes_over_idle_buffers() {
    let mut e = Engine::new(0, collect_tracks(vec![track("a", 1, &[0.5])]));
    e.spawn_worker("play a");
    e.buffers[0].buffer.active = false;
    let mut out = [1.0f32];
    e.process(&mut out, &blend);
    assert_eq!(out, [1.0]);
}

#[test]
fn unknown_command_changes_nothing() {
    let mut e = engine(vec![track("a", 1, &[0.5])]);
    assert!(matches!(e.spawn_worker("stop a"), Launch::Ignored));
    assert!(matches!(e.spawn_worker(""), Launch::Ignored));
    assert!(e.buffers.is_empty());
}

#[test]
fn unknown_track_changes_nothing() {
    let mut e = engine(vec![track("a", 1, &[0.5])]);
    assert!(matches!(e.spawn_worker("play b as lead 3"), Launch::UnknownTrack("b")));
    assert!(matches!(e.spawn_worker("play"), Launch::UnknownTrack("")));
    assert!(e.buffers.is_empty());
}

#[test]
fn playback_gets_a_buffer_of_its_name() {
    let mut e = engine(vec![track("a", 1, &[0.5]), track("b", 1, &[0.25])]);
    let job = started(e.spawn_worker("play a 0 1"));
    assert_eq!(job.track.path, "a");
    assert_eq!(job.args, VecDeque::from(vec!["0", "1"]));
    started(e.spawn_worker("play b as lead"));
    assert_eq!(e.buffers.len(), 2);
    assert_eq!(e.buffers[0].name, "a");
    assert_eq!(e.buffers[1].name, "lead");
    assert!(e.buffers[0].buffer.active && e.buffers[1].buffer.active);
    assert_eq!(e.buffers[0].buffer.gain, UNIT_GAIN);
}

#[test]
fn playback_replaces_the_buffer_of_its_name() {
    let mut e = engine(vec![track("a", 1, &[0.5, 0.5]), track("b", 1, &[0.25, 0.25])]);
    let mut first = play(started(e.spawn_worker("play a as x")));
    started(e.spawn_worker("play a as y"));
    let mut second = play(started(e.spawn_worker("play b as x")));
    assert_eq!(e.buffers.len(), 2);
    assert_eq!(e.buffers[0].name, "x");
    assert_eq!(e.buffers[1].name, "y");
    assert_eq!(first.feed(), Feed::Done);
    assert_eq!(second.feed(), Feed::Done);
    let mut out = [0.0f32, 0.0];
    e.process(&mut out, &blend);
    assert_eq!(out, [0.25, 0.25]);
}

#[test]
fn one_sample_goes_to_every_channel_of_its_frame() {
    let mut e = engine(vec![track("a", 1, &[0.5, 0.25, 0.125])]);
    let mut p = play(started(e.spawn_worker("play a")));
    assert_eq!(p.feed(), Feed::Done);
    let mut out = [1.0f32; 5];
    e.process(&mut out, &blend);
    assert_eq!(out, [1.5, 1.5, 1.25, 1.25, 1.0]);
}

#[test]
fn round_ends_every_buffers_part() {
    let mut e = engine(vec![track("a", 1, &[0.5, 0.25])]);
    let mut p = play(started(e.spawn_worker("play a")));
    p.feed();
    let mut out = [0.0f32; 2];
    e.process(&mut out, &blend);
    assert_eq!(out, [0.5, 0.5]);
    assert!(!e.buffers[0].buffer.active);
    e.process(&mut out, &blend);
    assert_eq!(out, [0.5, 0.5]);
}

#[test]
fn active_buffers_are_summed() {
    let mut e = engine(vec![track("a", 1, &[0.5]), track("b", 1, &[0.25])]);
    for line in ["play a", "play b", "play a as again"] {
        assert_eq!(play(started(e.spawn_worker(line))).feed(), Feed::Done);
    }
    let mut out = [0.0f32; 2];
    e.process(&mut out, &blend);
    assert_eq!(out, [1.25, 1.25]);
}

#[test]
fn block_of_output_gets_its_first_frame() {
    let mut e = engine(vec![track("a", 1, &[0.5, 0.25, 0.125])]);
    let mut p = play(started(e.spawn_worker("play a")));
    p.feed();
    let mut data = [1.0f32; 7];
    e.render(&mut data, 2, &blend);
    assert_eq!(data, [1.5, 1.5, 1.0, 1.0, 1.0, 1.0, 1.0]);
    let mut none: [f32; 0] = [];
    e.render(&mut none, 2, &blend);
}

#[test]
fn empty_block_leaves_buffers_active() {
    let mut e = engine(vec![track("a", 1, &[0.5])]);
    play(started(e.spawn_worker("play a"))).feed();
    let mut none: [f32; 0] = [];
    e.render(&mut none, 2, &blend);
    assert!(e.buffers[0].buffer.active);
    let mut short = [0.0f32; 2];
    e.render(&mut short, 4, &blend);
    assert_eq!(short, [0.5, 0.5]);
}

#[test]
fn buffer_takes_samples_in_order() {
    let samples: Vec<f32> = (0..10).map(|i| i as f32).collect();
    let mut e = engine(vec![track("a", 1, &samples)]);
    play(started(e.spawn_worker("play a"))).feed();
    let buffer = &mut e.buffers[0].buffer;
    let mut got: Vec<f32> = Vec::new();
    for _ in 0..5 {
        let mut out = [0.0f32; 3];
        let before = buffer.active;
        buffer.mix_into(&mut out, 1, &blend);
        assert!(before);
        got.extend(out);
    }
    assert_eq!(&got[..10], &samples[..]);
    assert_eq!(&got[10..], &[0.0; 5]);
    assert!(!buffer.active);
}

#[test]
fn gain_scales_samples() {
    let mut e = engine(vec![track("a", 1, &[0.5])]);
    play(started(e.spawn_worker("play a"))).feed();
    e.buffers[0].buffer.gain = 0.5f32.to_bits();
    let mut out = [1.0f32; 2];
    e.process(&mut out, &blend);
    assert_eq!(out, [1.25, 1.25]);
}

#[test]
fn empty_ring_ends_a_buffers_part() {
    let (_prod, cons) = new_ring();
    let mut buffer = Buffer::new(cons);
    assert!(buffer.active);
    let mut out = [1.0f32; 4];
    buffer.mix_into(&mut out, 2, &blend);
    assert_eq!(out, [1.0; 4]);
    assert!(!buffer.active);
}

#[test]
fn output_shorter_than_a_frame_takes_nothing() {
    let mut e = engine(vec![track("a", 1, &[0.5])]);
    play(started(e.spawn_worker("play a"))).feed();
    let mut out = [1.0f32; 1];
    e.buffers[0].buffer.mix_into(&mut out, 2, &blend);
    assert_eq!(out, [1.0]);
    assert!(!e.buffers[0].buffer.active);
}

#[test]
fn block_is_mixed_frame_by_frame() {
    let mut out = [10u32, 20, 30, 40, 50, 60, 70];
    mix_block(&mut out, &[1, 2], 3, 3, &|value: u32, sample: u32, gain: u32| {
        value + sample * gain
    });
    assert_eq!(out, [13, 23, 33, 46, 56, 66, 70]);
}

fn selected(args: &[&str]) -> Result<Vec<f32>, usize> {
    let samples: Vec<f32> = (0..12).map(|i| i as f32).collect();
    let t = Arc::new(track("a", 2, &samples));
    let args: VecDeque<&str> = args.iter().copied().collect();
    assert!(Engine::can_play(&t, &args));
    let (prod, cons) = new_ring();
    let mut playback = match Engine::Play(t, args, prod) {
        Ok(playback) => playback,
        Err(error) => return Err(error.start_frame),
    };
    assert_eq!(playback.feed(), Feed::Done);
    let mut out = [-1.0f32; 14];
    Buffer::new(cons).mix_into(&mut out, 1, &|_: f32, sample: u32, _: u32| f32::from_bits(sample));
    Ok(out.iter().copied().take_while(|s| *s >= 0.0).collect())
}

fn frames(from: usize, to: usize) -> Result<Vec<f32>, usize> {
    Ok((2 * from..2 * to).map(|i| i as f32).collect())
}

#[test]
fn arguments_select_frames() {
    assert_eq!(selected(&[]), frames(0, 6));
    assert_eq!(selected(&["2"]), frames(2, 6));
    assert_eq!(selected(&["2", "3"]), frames(2, 5));
    assert_eq!(selected(&["2", "0"]), frames(2, 2));
    assert_eq!(selected(&["5", "1"]), frames(5, 6));
    assert_eq!(selected(&["+1", "2", "rest"]), frames(1, 3));
}

#[test]
fn selection_ends_with_the_track() {
    assert_eq!(selected(&["2", "100"]), frames(2, 6));
    assert_eq!(selected(&["0", "18446744073709551615"]), frames(0, 6));
}

#[test]
fn arguments_that_are_no_numbers_give_the_defaults() {
    assert_eq!(selected(&["x"]), frames(0, 6));
    assert_eq!(selected(&["x", "2"]), frames(0, 2));
    assert_eq!(selected(&["4", "x"]), frames(4, 6));
}

#[test]
fn start_past_the_end_is_out_of_range() {
    assert_eq!(selected(&["6"]), Err(6));
    assert_eq!(selected(&["7", "1"]), Err(7));
    assert_eq!(selected(&["7", "x"]), Err(7));
    assert_eq!(selected(&["18446744073709551615", "18446744073709551615"]), Err(usize::MAX));
}

#[test]
fn empty_track_is_always_out_of_range() {
    let t = Arc::new(track("a", 2, &[]));
    let (prod, _cons) = new_ring();
    assert!(matches!(Engine::Play(t, VecDeque::new(), prod), Err(e) if e.start_frame == 0));
}

#[test]
fn start_and_count_that_do_not_add_cannot_be_played() {
    let t = track("a", 1, &[0.0; 8]);
    let can = |args: &[&str]| Engine::can_play(&t, &args.iter().copied().collect());
    assert!(!can(&["5", "18446744073709551615"]));
    assert!(can(&["5", "18446744073709551610"]));
    assert!(can(&["8", "18446744073709551615"]));
    let mut short = t.clone();
    short.total_frames = 9;
    assert!(!Engine::can_play(&short, &VecDeque::new()));
    assert!(Engine::can_play(&short, &VecDeque::from(vec!["1", "7"])));
    let mut wide = t.clone();
    wide.channels = usize::MAX;
    assert!(!Engine::can_play(&wide, &VecDeque::new()));
}

#[test]
fn full_ring_holds_playback_back() {
    let count = RING_CAPACITY + 100;
    let samples: Vec<f32> = (0..count).map(|i| i as f32).collect();
    let mut e = engine(vec![track("a", 1, &samples)]);
    let mut p = play(started(e.spawn_worker("play a")));
    assert_eq!(p.feed(), Feed::Full);
    assert_eq!(p.feed(), Feed::Full);
    let set = |_: f32, sample: u32, _: u32| f32::from_bits(sample);
    let mut first = vec![-1.0f32; 60];
    e.buffers[0].buffer.mix_into(&mut first, 1, &set);
    assert_eq!(&first[..], &samples[..60]);
    assert_eq!(p.feed(), Feed::Full);
    let mut second = vec![-1.0f32; 5000];
    e.buffers[0].buffer.mix_into(&mut second, 1, &set);
    assert_eq!(&second[..RING_CAPACITY], &samples[60..60 + RING_CAPACITY]);
    assert!(second[RING_CAPACITY..].iter().all(|s| *s == -1.0));
    assert_eq!(p.feed(), Feed::Done);
    assert_eq!(p.feed(), Feed::Done);
    let mut third = vec![-1.0f32; 50];
    e.buffers[0].buffer.mix_into(&mut third, 1, &set);
    assert_eq!(&third[..40], &samples[60 + RING_CAPACITY..]);
    assert!(third[40..].iter().all(|s| *s == -1.0));
}

#[test]
fn playback_that_fits_is_done_at_once() {
    let mut e = engine(vec![track("a", 1, &vec![0.5; RING_CAPACITY])]);
    assert_eq!(play(started(e.spawn_worker("play a"))).feed(), Feed::Done);
}

#[test]
fn refused_start_puts_nothing_into_the_ring() {
    for args in [vec!["3"], vec!["3", "1"], vec!["4", "1"], vec!["4", "x"]] {
        let t = Arc::new(track("a", 2, &[0.1, 0.2, 0.3, 0.4, 0.5, 0.6]));
        let (prod, cons) = new_ring();
        assert!(Engine::Play(t, VecDeque::from(args), prod).is_err());
        let mut buffer = Buffer::new(cons);
        let mut out = [1.0f32; 4];
        buffer.mix_into(&mut out, 1, &blend);
        assert_eq!(out, [1.0; 4]);
        assert!(!buffer.active);
    }
}

#[test]
fn ended_playback_leaves_its_samples_and_no_others() {
    let samples: Vec<f32> = (0..10).map(|i| i as f32).collect();
    let mut e = engine(vec![track("a", 1, &samples)]);
    let mut p = play(started(e.spawn_worker("play a 2 5")));
    assert_eq!(p.feed(), Feed::Done);
    p.end();
    let mut out = [-1.0f32; 8];
    let set = |_: f32, sample: u32, _: u32| f32::from_bits(sample);
    e.buffers[0].buffer.mix_into(&mut out, 1, &set);
    assert_eq!(out, [2.0, 3.0, 4.0, 5.0, 6.0, -1.0, -1.0, -1.0]);
    e.buffers[0].buffer.mix_into(&mut out, 1, &set);
    assert!(!e.buffers[0].buffer.active);
}

#[test]
fn playback_ended_early_leaves_what_went_in() {
    let samples: Vec<f32> = (0..RING_CAPACITY + 1).map(|i| i as f32).collect();
    let mut e = engine(vec![track("a", 1, &samples)]);
    let mut p = play(started(e.spawn_worker("play a")));
    assert_eq!(p.feed(), Feed::Full);
    p.end();
    let mut out = vec![-1.0f32; RING_CAPACITY + 1];
    let set = |_: f32, sample: u32, _: u32| f32::from_bits(sample);
    e.buffers[0].buffer.mix_into(&mut out, 1, &set);
    assert_eq!(&out[..RING_CAPACITY], &samples[..RING_CAPACITY]);
    assert_eq!(out[RING_CAPACITY], -1.0);
}

#[test]
fn mixing_in_two_parts_is_mixing_in_one() {
    let samples: Vec<f32> = (1..6).map(|i| i as f32 / 8.0).collect();
    for frames in 0..8 {
        for k in 0..frames + 1 {
            let mut e = engine(vec![track("a", 1, &samples)]);
            for line in ["play a as parts", "play a as whole"] {
                let mut p = play(started(e.spawn_worker(line)));
                assert_eq!(p.feed(), Feed::Done);
                p.end();
            }
            let mut parts: Vec<f32> = (0..2 * frames + 1).map(|i| i as f32).collect();
            let mut whole = parts.clone();
            e.buffers[0].buffer.mix_into(&mut parts[..2 * k], 2, &blend);
            e.buffers[0].buffer.mix_into(&mut parts[2 * k..], 2, &blend);
            e.buffers[1].buffer.mix_into(&mut whole, 2, &blend);
            assert_eq!(parts, whole);
            let mut rest = [[0.0f32; 6], [0.0f32; 6]];
            e.buffers[0].buffer.mix_into(&mut rest[0], 1, &blend);
            e.buffers[1].buffer.mix_into(&mut rest[1], 1, &blend);
            assert_eq!(rest[0], rest[1]);
            assert_eq!(rest[0].iter().filter(|s| **s > 0.0).count(), 5 - frames.min(5));
        }
    }
}

#[test]
fn later_mix_finds_what_an_earlier_one_left() {
    let mut e = engine(vec![track("a", 1, &[0.5, 0.25, 0.125])]);
    let mut p = play(started(e.spawn_worker("play a")));
    assert_eq!(p.feed(), Feed::Done);
    let mut out = [0.0f32; 2];
    e.buffers[0].buffer.mix_into(&mut out, 2, &blend);
    assert_eq!(out, [0.5, 0.5]);
    let mut rest = [0.0f32; 6];
    e.buffers[0].buffer.mix_into(&mut rest, 2, &blend);
    assert_eq!(rest, [0.25, 0.25, 0.125, 0.125, 0.0, 0.0]);
}

#[test]
fn room_that_was_made_stays() {
    let samples: Vec<f32> = (0..RING_CAPACITY + 10).map(|i| i as f32).collect();
    let mut e = engine(vec![track("a", 1, &samples)]);
    let mut p = play(started(e.spawn_worker("play a")));
    assert_eq!(p.feed(), Feed::Full);
    let set = |_: f32, sample: u32, _: u32| f32::from_bits(sample);
    for from in [0, 4, 8] {
        let mut out = [-1.0f32; 4];
        e.buffers[0].buffer.mix_into(&mut out, 1, &set);
        assert_eq!(&out[..], &samples[from..from + 4]);
    }
    assert_eq!(p.feed(), Feed::Done);
    let mut out = vec![-1.0f32; RING_CAPACITY];
    e.buffers[0].buffer.mix_into(&mut out, 1, &set);
    assert_eq!(&out[..RING_CAPACITY - 2], &samples[12..]);
    assert_eq!(&out[RING_CAPACITY - 2..], &[-1.0, -1.0]);
}
