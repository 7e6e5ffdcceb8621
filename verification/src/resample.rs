//! Bringing the samples of a track to the rate of the output device.
//!
//! The rate conversion itself works on one chunk of frames at a time, channel by channel. Here is
//! what surrounds it: taking interleaved samples apart into channels, cutting the channels into
//! chunks, collecting the converted chunks and interleaving them again.

use crate::frames::lemma_frame;
use vstd::prelude::*;

verus! {

/// The number of frames that the rate conversion takes at a time.
pub const CHUNK_FRAMES: usize = 1024;

/// Whether `total` frames can be handed out in chunks of `frames` frames, none of them shorter.
pub open spec fn whole_chunks(total: int, frames: int) -> bool {
    &&& frames > 0
    &&& total % frames == 0
}

/// Whether `len` interleaved samples can be brought from one rate to another: where the rates are not
/// the same, there are rates and channels, the last frame is complete, and the frames make whole
/// chunks. The conversion takes no shorter chunk.
pub open spec fn resamplable(len: int, sample_rate: int, channels: int, out_rate: int) -> bool {
    sample_rate != out_rate ==> {
        &&& sample_rate > 0
        &&& out_rate > 0
        &&& channels > 0
        &&& len % channels == 0
        &&& whole_chunks(len / channels, CHUNK_FRAMES as int)
    }
}

/// The samples of channel `ch` out of `channels` interleaved ones.
pub open spec fn channel<T>(samples: Seq<T>, ch: int, channels: int) -> Seq<T> {
    Seq::new((samples.len() as int / channels) as nat, |f: int| samples[f * channels + ch])
}

/// The channels of interleaved samples.
pub open spec fn deinterleaved<T>(samples: Seq<T>, channels: int) -> Seq<Seq<T>> {
    Seq::new(channels as nat, |ch: int| channel(samples, ch, channels))
}

/// The samples of some channels, one of each channel in turn, for as long as the first one lasts.
pub open spec fn interleaved<T>(channels: Seq<Seq<T>>) -> Seq<T> {
    Seq::new(
        channels[0].len() * channels.len(),
        |k: int| channels[k % channels.len() as int][k / channels.len() as int],
    )
}

/// The contents of some vectors.
pub open spec fn rows<T>(vectors: Seq<Vec<T>>) -> Seq<Seq<T>> {
    Seq::new(vectors.len(), |i: int| vectors[i]@)
}

/// The same part of each channel.
pub open spec fn cut<T>(channels: Seq<Seq<T>>, from: int, to: int) -> Seq<Seq<T>> {
    Seq::new(channels.len(), |ch: int| channels[ch].subrange(from, to))
}

/// Each channel with what `more` has for it at its end.
pub open spec fn extended<T>(channels: Seq<Seq<T>>, more: Seq<Seq<T>>) -> Seq<Seq<T>> {
    Seq::new(
        channels.len(),
        |ch: int|
            if ch < more.len() {
                channels[ch] + more[ch]
            } else {
                channels[ch]
            },
    )
}

/// Where a chunk of `frames` frames from `pos` ends among `total` frames.
pub open spec fn chunk_end(pos: int, frames: int, total: int) -> int {
    if pos + frames <= total {
        pos + frames
    } else {
        total
    }
}

/// Where the frames make whole chunks and whole chunks have been handed out, the next chunk has
/// exactly `frames` frames, and whole chunks have been handed out after it.
pub proof fn lemma_chunk_is_whole(pos: int, frames: int, total: int)
    requires
        whole_chunks(total, frames),
        whole_chunks(pos, frames),
        0 <= pos < total,
    ensures
        chunk_end(pos, frames, total) == pos + frames,
        whole_chunks(pos + frames, frames),
{
    let done = pos / frames;
    let all = total / frames;
    vstd::arithmetic::div_mod::lemma_fundamental_div_mod(pos, frames);
    vstd::arithmetic::div_mod::lemma_fundamental_div_mod(total, frames);
    assert(pos + frames <= total && pos + frames == (done + 1) * frames) by (nonlinear_arith)
        requires
            pos == frames * done,
            total == frames * all,
            pos < total,
            frames > 0,
    ;
    vstd::arithmetic::div_mod::lemma_mod_multiples_basic(done + 1, frames);
}

/// Taking samples apart into channels and interleaving the channels gives the samples back, where
/// the last frame is complete.
pub proof fn lemma_interleave_undoes_deinterleave<T>(samples: Seq<T>, channels: int)
    requires
        channels > 0,
        samples.len() as int % channels == 0,
    ensures
        interleaved(deinterleaved(samples, channels)) == samples,
{
    let parts = deinterleaved(samples, channels);
    let frames = samples.len() as int / channels;
    vstd::arithmetic::div_mod::lemma_fundamental_div_mod(samples.len() as int, channels);
    assert(channels * frames == frames * channels) by (nonlinear_arith);
    assert(interleaved(parts).len() == samples.len());
    assert forall|k: int| 0 <= k < samples.len() implies interleaved(parts)[k] == samples[k] by {
        let f = k / channels;
        let ch = k % channels;
        vstd::arithmetic::div_mod::lemma_fundamental_div_mod(k, channels);
        assert(channels * f == f * channels) by (nonlinear_arith);
        assert(0 <= f < frames) by (nonlinear_arith)
            requires
                k == f * channels + ch,
                0 <= k < frames * channels,
                0 <= ch < channels,
        ;
    }
    assert(interleaved(parts) =~= samples);
}

/// The sample of a channel in a frame is that channel's place in that frame of the interleaved
/// samples, when they are taken apart.
pub proof fn lemma_deinterleaved<T>(samples: Seq<T>, channels: int)
    requires
        channels > 0,
    ensures
        deinterleaved(samples, channels).len() == channels,
        forall|ch: int|
            0 <= ch < channels ==> (#[trigger] deinterleaved(samples, channels)[ch]).len()
                == samples.len() as int / channels,
        forall|ch: int, f: int|
            0 <= ch < channels && 0 <= f < samples.len() as int / channels
                ==> #[trigger] deinterleaved(samples, channels)[ch][f] == samples[f * channels + ch],
{
    assert forall|ch: int| 0 <= ch < channels implies (#[trigger] deinterleaved(
        samples,
        channels,
    )[ch]).len() == samples.len() as int / channels by {
        assert(samples.len() as int / channels >= 0) by (nonlinear_arith)
            requires
                channels > 0,
        ;
    }
}

/// The sample of a channel in a frame stands at that channel's place in that frame, when channels are
/// interleaved.
pub proof fn lemma_interleaved<T>(channels: Seq<Seq<T>>)
    requires
        channels.len() > 0,
    ensures
        interleaved(channels).len() == channels[0].len() * channels.len(),
        forall|f: int, ch: int|
            0 <= f < channels[0].len() && 0 <= ch < channels.len() ==> interleaved(channels)[f
                * channels.len() + ch] == #[trigger] channels[ch][f],
{
    assert forall|f: int, ch: int|
        0 <= f < channels[0].len() && 0 <= ch < channels.len() implies interleaved(channels)[f
        * channels.len() + ch] == #[trigger] channels[ch][f] by {
        lemma_frame(f, ch, channels[0].len() as int, channels.len() as int);
    }
}

/// A part of each channel has the channel's samples from its beginning to its end; more put at the
/// ends of channels comes after what they have, channel by channel.
pub proof fn lemma_cut_and_extended<T>(
    channels: Seq<Seq<T>>,
    more: Seq<Seq<T>>,
    from: int,
    to: int,
    ch: int,
)
    requires
        0 <= ch < channels.len(),
        0 <= from <= to <= channels[ch].len(),
    ensures
        cut(channels, from, to).len() == channels.len(),
        cut(channels, from, to)[ch] == channels[ch].subrange(from, to),
        extended(channels, more).len() == channels.len(),
        ch < more.len() ==> extended(channels, more)[ch] == channels[ch] + more[ch],
        ch >= more.len() ==> extended(channels, more)[ch] == channels[ch],
{
}

/// A chunk ends after its frames, or where there are no more.
pub proof fn lemma_chunk_end(pos: int, frames: int, total: int)
    ensures
        chunk_end(pos, frames, total) <= pos + frames,
        chunk_end(pos, frames, total) <= total,
        chunk_end(pos, frames, total) == pos + frames || chunk_end(pos, frames, total) == total,
{
}

/// Samples can be brought to another rate exactly where both rates are positive and the samples are
/// those of a whole number of chunks of 1024 frames on at least one channel; at the same rate there is
/// nothing to be done.
pub proof fn lemma_resamplable(len: nat, sample_rate: int, channels: int, out_rate: int)
    ensures
        sample_rate == out_rate ==> resamplable(len as int, sample_rate, channels, out_rate),
        resamplable(len as int, sample_rate, channels, out_rate) && sample_rate != out_rate ==> {
            &&& sample_rate > 0 && out_rate > 0 && channels > 0
            &&& len == len as int / channels / 1024 * 1024 * channels
        },
        forall|chunks: nat|
            sample_rate > 0 && out_rate > 0 && channels > 0 && len == #[trigger] (chunks * 1024)
                * channels ==> resamplable(len as int, sample_rate, channels, out_rate),
{
    if resamplable(len as int, sample_rate, channels, out_rate) && sample_rate != out_rate {
        let frames = len as int / channels;
        vstd::arithmetic::div_mod::lemma_fundamental_div_mod(len as int, channels);
        assert(frames / 1024 * 1024 == frames);
        assert(channels * frames == frames * channels) by (nonlinear_arith);
    }
    assert forall|chunks: nat|
        sample_rate > 0 && out_rate > 0 && channels > 0 && len == #[trigger] (chunks * 1024)
            * channels implies resamplable(len as int, sample_rate, channels, out_rate) by {
        vstd::arithmetic::div_mod::lemma_mod_multiples_basic((chunks * 1024) as int, channels);
        vstd::arithmetic::div_mod::lemma_div_by_multiple((chunks * 1024) as int, channels);
    }
}

/// Interleaving channels of one length and taking the samples apart again gives the channels back.
pub proof fn lemma_deinterleave_undoes_interleave<T>(channels: Seq<Seq<T>>)
    requires
        channels.len() > 0,
        forall|ch: int|
            0 <= ch < channels.len() ==> (#[trigger] channels[ch]).len() == channels[0].len(),
    ensures
        deinterleaved(interleaved(channels), channels.len() as int) == channels,
{
    let n = channels.len() as int;
    let frames = channels[0].len() as int;
    let samples = interleaved(channels);
    vstd::arithmetic::div_mod::lemma_div_by_multiple(frames, n);
    assert forall|ch: int| 0 <= ch < n implies #[trigger] channel(samples, ch, n)
        == channels[ch] by {
        assert forall|f: int| 0 <= f < frames implies channel(samples, ch, n)[f]
            == channels[ch][f] by {
            lemma_frame(f, ch, frames, n);
        }
        assert(channel(samples, ch, n) =~= channels[ch]);
    }
    assert(deinterleaved(samples, n) =~= channels);
}

/// Two chunks that follow each other join to one: nothing is left out between them and nothing
/// comes twice.
pub proof fn lemma_chunks_join<T>(channels: Seq<Seq<T>>, from: int, mid: int, to: int)
    requires
        0 <= from <= mid <= to,
        forall|ch: int| 0 <= ch < channels.len() ==> to <= (#[trigger] channels[ch]).len(),
    ensures
        extended(cut(channels, from, mid), cut(channels, mid, to)) == cut(channels, from, to),
{
    let joined = extended(cut(channels, from, mid), cut(channels, mid, to));
    assert forall|ch: int| 0 <= ch < channels.len() implies joined[ch] == cut(
        channels,
        from,
        to,
    )[ch] by {
        assert(to <= channels[ch].len());
        assert(joined[ch] =~= channels[ch].subrange(from, to));
    }
    assert(joined =~= cut(channels, from, to));
}

/// Collecting every chunk as it was cut gives the samples back at the end: the cutting, the
/// collecting and the interleaving around the rate conversion change nothing of their own.
pub proof fn lemma_unconverted_chunks_give_samples_back<T>(samples: Seq<T>, channels: int)
    requires
        channels > 0,
        samples.len() as int % channels == 0,
    ensures
        interleaved(
            cut(deinterleaved(samples, channels), 0, samples.len() as int / channels),
        ) == samples,
{
    let parts = deinterleaved(samples, channels);
    let total = samples.len() as int / channels;
    assert forall|ch: int| 0 <= ch < channels implies cut(parts, 0, total)[ch] == parts[ch] by {
        assert(parts[ch].subrange(0, total) =~= parts[ch]);
    }
    assert(cut(parts, 0, total) =~= parts);
    lemma_interleave_undoes_deinterleave(samples, channels);
}

/// The pieces of a channel that end at `ends`, the first one from the channel's beginning and each
/// other one from where the one before it ends.
pub open spec fn pieces<T>(source: Seq<T>, ends: Seq<int>) -> Seq<Seq<T>> {
    Seq::new(
        ends.len(),
        |i: int|
            source.subrange(
                if i == 0 {
                    0
                } else {
                    ends[i - 1]
                },
                ends[i],
            ),
    )
}

/// Whether chunks can end at `ends` in a source of `total` frames: one after another, none past the
/// source's end.
pub open spec fn ends_in_order(ends: Seq<int>, total: int) -> bool {
    forall|i: int|
        0 <= i < ends.len() ==> {
            &&& 0 <= #[trigger] ends[i] <= total
            &&& i > 0 ==> ends[i - 1] <= ends[i]
        }
}

/// Where the chunks end that have been handed out of a source when `pos` of its frames have been.
pub open spec fn chunk_ends(pos: int) -> Seq<int> {
    Seq::new((pos / CHUNK_FRAMES as int) as nat, |i: int| (i + 1) * CHUNK_FRAMES)
}

/// What comes of a channel that is given piece by piece to a conversion that takes each channel on
/// its own: `convert` tells what comes back for the last of the pieces given so far.
pub open spec fn converted<T>(
    convert: spec_fn(Seq<Seq<T>>) -> Seq<T>,
    given: Seq<Seq<T>>,
) -> Seq<T>
    decreases given.len(),
{
    if given.len() == 0 {
        Seq::empty()
    } else {
        converted(convert, given.drop_last()) + convert(given)
    }
}

/// What comes of each channel.
pub open spec fn collected<T>(
    convert: spec_fn(Seq<Seq<T>>) -> Seq<T>,
    channels: Seq<Seq<T>>,
    ends: Seq<int>,
) -> Seq<Seq<T>> {
    Seq::new(channels.len(), |ch: int| converted(convert, pieces(channels[ch], ends)))
}

/// What comes of interleaved samples.
pub open spec fn resampled<T>(
    convert: spec_fn(Seq<Seq<T>>) -> Seq<T>,
    samples: Seq<T>,
    channels: int,
) -> Seq<T> {
    let frames = samples.len() as int / channels;
    interleaved(collected(convert, deinterleaved(samples, channels), chunk_ends(frames)))
}

/// How much comes back depends on how much was given alone.
pub open spec fn keeps_pace<T>(convert: spec_fn(Seq<Seq<T>>) -> Seq<T>) -> bool {
    forall|p: Seq<Seq<T>>, q: Seq<Seq<T>>|
        same_lengths(p, q) ==> (#[trigger] convert(p)).len() == (#[trigger] convert(q)).len()
}

/// Whether two rows of pieces have pieces of the same lengths.
pub open spec fn same_lengths<T>(p: Seq<Seq<T>>, q: Seq<Seq<T>>) -> bool {
    &&& p.len() == q.len()
    &&& forall|i: int| 0 <= i < p.len() ==> (#[trigger] p[i]).len() == q[i].len()
}

/// Before the first chunk nothing has come back. Handing out one more chunk, as
/// [`Resampling::next_chunk`] does, and taking in what the conversion makes of it, channel by channel,
/// gives what comes of the source up to that chunk's end.
pub proof fn lemma_collect_chunk<T>(
    convert: spec_fn(Seq<Seq<T>>) -> Seq<T>,
    channels: Seq<Seq<T>>,
    pos: int,
)
    requires
        0 <= pos,
        whole_chunks(pos, CHUNK_FRAMES as int),
    ensures
        collected(convert, channels, chunk_ends(0)) == Seq::new(
            channels.len(),
            |ch: int| Seq::<T>::empty(),
        ),
        extended(
            collected(convert, channels, chunk_ends(pos)),
            Seq::new(
                channels.len(),
                |ch: int|
                    convert(
                        pieces(channels[ch], chunk_ends(pos)).push(
                            cut(channels, pos, pos + CHUNK_FRAMES)[ch],
                        ),
                    ),
            ),
        ) == collected(convert, channels, chunk_ends(pos + CHUNK_FRAMES)),
{
    let ends = chunk_ends(pos);
    let to = pos + CHUNK_FRAMES;
    let more = Seq::new(
        channels.len(),
        |ch: int| convert(pieces(channels[ch], ends).push(cut(channels, pos, to)[ch])),
    );
    assert(chunk_ends(to) =~= ends.push(to));
    assert forall|ch: int| 0 <= ch < channels.len() implies extended(
        collected(convert, channels, ends),
        more,
    )[ch] == collected(convert, channels, ends.push(to))[ch] by {
        let given = pieces(channels[ch], ends.push(to));
        assert(given =~= pieces(channels[ch], ends).push(channels[ch].subrange(pos, to)));
        assert(given.drop_last() =~= pieces(channels[ch], ends));
    }
    assert(extended(collected(convert, channels, ends), more) =~= collected(
        convert,
        channels,
        ends.push(to),
    ));
    assert forall|ch: int| 0 <= ch < channels.len() implies collected(
        convert,
        channels,
        chunk_ends(0),
    )[ch] == Seq::<T>::empty() by {
        assert(pieces(channels[ch], chunk_ends(0)).len() == 0);
    }
    assert(collected(convert, channels, chunk_ends(0)) =~= Seq::new(
        channels.len(),
        |ch: int| Seq::<T>::empty(),
    ));
}

/// Where all of the source has been handed out, and what has come back is what comes of its chunks,
/// interleaving it gives what comes of the samples.
pub proof fn lemma_collected_chunks_are_resampled<T: Copy>(
    convert: spec_fn(Seq<Seq<T>>) -> Seq<T>,
    work: Resampling<T>,
    samples: Seq<T>,
    channels: int,
)
    requires
        channels > 0,
        work.input() == deinterleaved(samples, channels),
        work.position() == work.total(),
        work.output() == collected(convert, work.input(), chunk_ends(work.position())),
    ensures
        interleaved(work.output()) == resampled(convert, samples, channels),
{
    assert(work.total() == samples.len() as int / channels);
}

/// As much comes of one channel as of another that is given in pieces of the same lengths.
proof fn lemma_same_pace<T>(
    convert: spec_fn(Seq<Seq<T>>) -> Seq<T>,
    p: Seq<Seq<T>>,
    q: Seq<Seq<T>>,
)
    requires
        keeps_pace(convert),
        same_lengths(p, q),
    ensures
        converted(convert, p).len() == converted(convert, q).len(),
    decreases p.len(),
{
    if p.len() > 0 {
        assert forall|i: int| 0 <= i < p.drop_last().len() implies (
        #[trigger] p.drop_last()[i]).len() == q.drop_last()[i].len() by {
            assert(p[i].len() == q[i].len());
        }
        lemma_same_pace(convert, p.drop_last(), q.drop_last());
        assert(convert(p).len() == convert(q).len());
    }
}

/// One channel alone is its own interleaving.
proof fn lemma_one_channel<T>(samples: Seq<T>)
    ensures
        deinterleaved(samples, 1) == seq![samples],
        interleaved(seq![samples]) == samples,
{
    assert(channel(samples, 0, 1) =~= samples);
    assert(deinterleaved(samples, 1) =~= seq![samples]);
    assert(interleaved(seq![samples]) =~= samples);
}

/// Channels do not influence each other: with a conversion that takes each channel on its own, the
/// result has complete frames, and each of its channels is what comes of the samples of that channel
/// alone.
pub proof fn lemma_channels_do_not_mix<T>(
    convert: spec_fn(Seq<Seq<T>>) -> Seq<T>,
    samples: Seq<T>,
    channels: int,
    ch: int,
)
    requires
        channels > 0,
        samples.len() as int % channels == 0,
        whole_chunks(samples.len() as int / channels, CHUNK_FRAMES as int),
        keeps_pace(convert),
        0 <= ch < channels,
    ensures
        resampled(convert, samples, channels).len() as int % channels == 0,
        channel(resampled(convert, samples, channels), ch, channels) == resampled(
            convert,
            channel(samples, ch, channels),
            1,
        ),
{
    let parts = deinterleaved(samples, channels);
    let total = samples.len() as int / channels;
    let ends = chunk_ends(total);
    let outs = collected(convert, parts, ends);
    assert(ends_in_order(ends, total));
    assert forall|c: int| 0 <= c < outs.len() implies (#[trigger] outs[c]).len()
        == outs[0].len() by {
        let p = pieces(parts[c], ends);
        let q = pieces(parts[0], ends);
        assert forall|i: int| 0 <= i < p.len() implies (#[trigger] p[i]).len() == q[i].len() by {
            assert(0 <= ends[i] <= total);
            assert(i > 0 ==> 0 <= ends[i - 1] <= ends[i]);
        }
        lemma_same_pace(convert, p, q);
    }
    lemma_deinterleave_undoes_interleave(outs);
    vstd::arithmetic::div_mod::lemma_mod_multiples_basic(outs[0].len() as int, channels);
    assert(deinterleaved(interleaved(outs), channels)[ch] == outs[ch]);
    let alone = channel(samples, ch, channels);
    lemma_one_channel(alone);
    lemma_one_channel(outs[ch]);
    assert(collected(convert, seq![alone], ends) =~= seq![outs[ch]]);
}

/// A conversion in progress: the channels of the source, how far they have been handed out, and
/// what has come back so far.
pub struct Resampling<T> {
    input: Vec<Vec<T>>,
    pos: usize,
    output: Vec<Vec<T>>,
}

/// Takes interleaved samples apart into channels.
fn deinterleave<T: Copy>(samples: &Vec<T>, channels: usize) -> (parts: Vec<Vec<T>>)
    requires
        channels > 0,
    ensures
        rows(parts@) == deinterleaved(samples@, channels as int),
{
    let frames: usize = samples.len() / channels;
    let mut parts: Vec<Vec<T>> = Vec::new();
    let mut ch: usize = 0;
    while ch < channels
        invariant
            0 <= ch <= channels,
            channels > 0,
            frames == samples@.len() as int / channels as int,
            parts@.len() == ch,
            forall|c: int|
                0 <= c < ch ==> (#[trigger] parts@[c])@ == channel(samples@, c, channels as int),
        decreases channels - ch,
    {
        let mut part: Vec<T> = Vec::new();
        let mut f: usize = 0;
        while f < frames
            invariant
                0 <= f <= frames,
                0 <= ch < channels,
                frames == samples@.len() as int / channels as int,
                part@ == channel(samples@, ch as int, channels as int).take(f as int),
            decreases frames - f,
        {
            proof {
                lemma_frame(f as int, ch as int, frames as int, channels as int);
                vstd::arithmetic::div_mod::lemma_fundamental_div_mod(
                    samples@.len() as int,
                    channels as int,
                );
                assert(channels * frames == frames * channels) by (nonlinear_arith);
                assert(samples@.len() == samples.len());
            }
            part.push(samples[f * channels + ch]);
            f = f + 1;
        }
        assert(part@ =~= channel(samples@, ch as int, channels as int));
        parts.push(part);
        ch = ch + 1;
    }
    assert(rows(parts@) =~= deinterleaved(samples@, channels as int));
    parts
}

/// Interleaves channels.
fn interleave<T: Copy>(channels: &Vec<Vec<T>>) -> (samples: Vec<T>)
    requires
        channels@.len() > 0,
        forall|c: int|
            0 <= c < channels@.len() ==> (#[trigger] channels@[c])@.len() >= channels@[0]@.len(),
    ensures
        samples@ == interleaved(rows(channels@)),
{
    let n: usize = channels.len();
    let frames: usize = channels[0].len();
    let ghost whole = interleaved(rows(channels@));
    let mut samples: Vec<T> = Vec::new();
    let mut f: usize = 0;
    assert(0 * n == 0);
    while f < frames
        invariant
            0 <= f <= frames,
            n == channels@.len() > 0,
            frames == channels@[0]@.len(),
            whole == interleaved(rows(channels@)),
            forall|c: int| 0 <= c < n ==> (#[trigger] channels@[c])@.len() >= frames,
            samples@.len() == f * n,
            samples@ =~= whole.take(f * n),
        decreases frames - f,
    {
        let mut c: usize = 0;
        while c < n
            invariant
                0 <= f < frames,
                0 <= c <= n,
                n == channels@.len() > 0,
                frames == channels@[0]@.len(),
                whole == interleaved(rows(channels@)),
                forall|c: int| 0 <= c < n ==> (#[trigger] channels@[c])@.len() >= frames,
                samples@.len() == f * n + c,
                samples@ =~= whole.take(f * n + c),
            decreases n - c,
        {
            proof {
                lemma_frame(f as int, c as int, frames as int, n as int);
                assert(channels@[c as int]@.len() >= frames);
            }
            samples.push(channels[c][f]);
            c = c + 1;
        }
        assert((f + 1) * n == f * n + n) by (nonlinear_arith);
        f = f + 1;
    }
    assert(samples@ =~= whole);
    samples
}

/// Whether [`resample_to_device_rate`] can be asked to bring `len` samples from `sample_rate` to
/// `out_rate`.
pub fn can_resample(len: usize, sample_rate: usize, channels: usize, out_rate: usize) -> (can: bool)
    ensures
        can == resamplable(len as int, sample_rate as int, channels as int, out_rate as int),
        can <==> sample_rate == out_rate || sample_rate > 0 && out_rate > 0 && channels > 0 && len as int
            % channels as int == 0 && len as int / channels as int % 1024 == 0,
{
    sample_rate == out_rate || sample_rate > 0 && out_rate > 0 && channels > 0 && len % channels == 0
        && len / channels % CHUNK_FRAMES == 0
}

/// What is to be done to bring samples from `sample_rate` to `out_rate`: nothing where the rates
/// are the same, else a conversion that has not started yet.
pub fn resample_to_device_rate<T: Copy>(
    samples: &Vec<T>,
    sample_rate: usize,
    channels: usize,
    out_rate: usize,
) -> (work: Option<Resampling<T>>)
    requires
        resamplable(
            samples@.len() as int,
            sample_rate as int,
            channels as int,
            out_rate as int,
        ),
    ensures
        work is None <==> sample_rate == out_rate,
        work matches Some(r) ==> {
            &&& r.wf()
            &&& r.input() == deinterleaved(samples@, channels as int)
            &&& r.position() == 0
            &&& r.output() == Seq::new(channels as nat, |ch: int| Seq::<T>::empty())
            &&& r.input().len() == channels
            &&& r.output().len() == channels
            &&& forall|ch: int| 0 <= ch < channels ==> (#[trigger] r.output()[ch]).len() == 0
            &&& forall|ch: int|
                0 <= ch < channels ==> (#[trigger] r.input()[ch]).len() == samples@.len() as int
                    / channels as int
            &&& forall|ch: int, f: int|
                0 <= ch < channels && 0 <= f < samples@.len() as int / channels as int
                    ==> #[trigger] r.input()[ch][f] == samples@[f * channels + ch]
        },
{
    if sample_rate == out_rate {
        return None;
    }
    let input = deinterleave(samples, channels);
    let mut output: Vec<Vec<T>> = Vec::new();
    let mut ch: usize = 0;
    while ch < channels
        invariant
            0 <= ch <= channels,
            output@.len() == ch,
            forall|c: int| 0 <= c < ch ==> (#[trigger] output@[c])@ == Seq::<T>::empty(),
        decreases channels - ch,
    {
        output.push(Vec::new());
        ch = ch + 1;
    }
    let work = Resampling { input, pos: 0, output };
    proof {
        assert(work.output() =~= Seq::new(channels as nat, |ch: int| Seq::<T>::empty()));
        assert(work.input().len() == channels);
    }
    Some(work)
}

impl<T: Copy> Resampling<T> {
    /// The channels of the source.
    pub closed spec fn input(self) -> Seq<Seq<T>> {
        rows(self.input@)
    }

    /// How many frames of the source have been handed out.
    pub closed spec fn position(self) -> int {
        self.pos as int
    }

    /// What has come back for each channel.
    pub closed spec fn output(self) -> Seq<Seq<T>> {
        rows(self.output@)
    }

    /// The number of frames of the source.
    pub open spec fn total(self) -> int {
        self.input()[0].len() as int
    }

    /// There is a channel, all channels of the source have one length, which makes whole chunks, whole
    /// chunks and no more frames have been handed out than there are, and there is a place for what
    /// comes back of each channel.
    pub open spec fn wf(self) -> bool {
        &&& self.input().len() > 0
        &&& forall|ch: int|
            0 <= ch < self.input().len() ==> (#[trigger] self.input()[ch]).len() == self.total()
        &&& whole_chunks(self.total(), CHUNK_FRAMES as int)
        &&& whole_chunks(self.position(), CHUNK_FRAMES as int)
        &&& 0 <= self.position() <= self.total()
        &&& self.output().len() == self.input().len()
    }

    /// The next chunk of the source, of [`CHUNK_FRAMES`] frames; nothing where all of it has been
    /// handed out.
    pub fn next_chunk(&mut self) -> (chunk: Option<Vec<Vec<T>>>)
        requires
            old(self).wf(),
        ensures
            final(self).wf(),
            final(self).input() == old(self).input(),
            final(self).output() == old(self).output(),
            chunk is None <==> old(self).position() == old(self).total(),
            chunk is None <==> old(self).position() == old(self).input()[0].len(),
            chunk is None ==> final(self).position() == old(self).position(),
            final(self).position() == chunk_end(
                old(self).position(),
                CHUNK_FRAMES as int,
                old(self).total(),
            ),
            chunk matches Some(c) ==> {
                &&& rows(c@) == cut(
                    old(self).input(),
                    old(self).position(),
                    final(self).position(),
                )
                &&& final(self).position() == old(self).position() + CHUNK_FRAMES
                &&& c@.len() == old(self).input().len()
                &&& forall|ch: int| 0 <= ch < c@.len() ==> (#[trigger] c@[ch])@.len() == CHUNK_FRAMES
                &&& forall|ch: int, f: int|
                    0 <= ch < c@.len() && 0 <= f < 1024 ==> #[trigger] c@[ch]@[f]
                        == old(self).input()[ch][old(self).position() + f]
            },
    {
        let ghost parts = self.input();
        let ghost from = self.position();
        assert(parts[0] == self.input@[0]@);
        let total: usize = self.input[0].len();
        if self.pos >= total {
            return None;
        }
        proof {
            lemma_chunk_is_whole(from, CHUNK_FRAMES as int, total as int);
        }
        let end: usize = self.pos + CHUNK_FRAMES;
        let mut chunk: Vec<Vec<T>> = Vec::new();
        let mut ch: usize = 0;
        while ch < self.input.len()
            invariant
                0 <= ch <= self.input@.len(),
                self.wf(),
                self.input() == parts,
                self.output() == old(self).output(),
                self.position() == from <= end <= total == self.total(),
                chunk@.len() == ch,
                forall|c: int|
                    0 <= c < ch ==> (#[trigger] chunk@[c])@ == parts[c].subrange(from, end as int),
            decreases self.input@.len() - ch,
        {
            assert(parts[ch as int] == self.input@[ch as int]@);
            chunk.push(vstd::slice::slice_to_vec(&self.input[ch][self.pos..end]));
            ch = ch + 1;
        }
        self.pos = end;
        assert(rows(chunk@) =~= cut(parts, from, end as int));
        Some(chunk)
    }

    /// Takes in what the conversion made of a chunk.
    pub fn accept(&mut self, converted: Vec<Vec<T>>)
        requires
            old(self).wf(),
            converted@.len() <= old(self).input().len(),
        ensures
            final(self).wf(),
            final(self).input() == old(self).input(),
            final(self).position() == old(self).position(),
            final(self).output() == extended(old(self).output(), rows(converted@)),
            final(self).output().len() == old(self).output().len(),
            forall|ch: int|
                0 <= ch < converted@.len() ==> #[trigger] final(self).output()[ch]
                    == old(self).output()[ch] + converted@[ch]@,
            forall|ch: int|
                converted@.len() <= ch < old(self).output().len() ==> #[trigger] final(self).output()[ch]
                    == old(self).output()[ch],
    {
        let ghost parts = self.output();
        let mut ch: usize = 0;
        while ch < converted.len()
            invariant
                0 <= ch <= converted@.len() <= self.output@.len(),
                self.input() == old(self).input(),
                self.position() == old(self).position(),
                self.output@.len() == parts.len(),
                forall|c: int|
                    0 <= c < parts.len() ==> (#[trigger] self.output@[c])@ == if c < ch {
                        parts[c] + converted@[c]@
                    } else {
                        parts[c]
                    },
            decreases converted@.len() - ch,
        {
            let mut f: usize = 0;
            let ghost held = self.output@;
            while f < converted[ch].len()
                invariant
                    0 <= ch < converted@.len() <= self.output@.len(),
                    0 <= f <= converted@[ch as int]@.len(),
                    self.input() == old(self).input(),
                    self.position() == old(self).position(),
                    self.output@.len() == held.len(),
                    forall|c: int|
                        0 <= c < held.len() && c != ch ==> #[trigger] self.output@[c] == held[c],
                    self.output@[ch as int]@ =~= held[ch as int]@ + converted@[ch as int]@.take(
                        f as int,
                    ),
                decreases converted@[ch as int]@.len() - f,
            {
                self.output[ch].push(converted[ch][f]);
                f = f + 1;
            }
            assert(converted@[ch as int]@.take(f as int) =~= converted@[ch as int]@);
            ch = ch + 1;
        }
        assert(self.output() =~= extended(parts, rows(converted@)));
    }

    /// What has come back, interleaved.
    pub fn finish(self) -> (samples: Vec<T>)
        requires
            self.wf(),
            forall|ch: int|
                0 <= ch < self.output().len() ==> (#[trigger] self.output()[ch]).len()
                    >= self.output()[0].len(),
        ensures
            samples@ == interleaved(self.output()),
            samples@.len() == self.output()[0].len() * self.output().len(),
            forall|f: int, ch: int|
                0 <= f < self.output()[0].len() && 0 <= ch < self.output().len()
                    ==> samples@[f * self.output().len() + ch] == #[trigger] self.output()[ch][f],
    {
        proof {
            lemma_interleaved(self.output());
            assert forall|c: int| 0 <= c < self.output@.len() implies (
            #[trigger] self.output@[c])@.len() >= self.output@[0]@.len() by {
                assert(self.output()[c].len() >= self.output()[0].len());
            }
        }
        interleave(&self.output)
    }
}

} // verus!
