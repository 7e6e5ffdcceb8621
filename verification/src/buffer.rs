//! A playing buffer: the consuming half of a ring, and how it is mixed into the output.

use crate::frames::{lemma_frame, lemma_frame_of, lemma_frames_in_order};
use crate::ring::{holds, lesser, load_seen, pop_slice, popped, remaining, stream_out, Consumer};
use vstd::prelude::*;

verus! {

/// The bit pattern of the float one.
pub const UNIT_GAIN: u32 = 0x3f80_0000;

/// A source of samples that the engine mixes into the output.
pub struct Buffer {
    /// Where the samples come from.
    pub ring: Consumer,
    /// Whether the buffer still takes part in the mix.
    pub active: bool,
    /// The bit pattern of the float by which each sample is scaled.
    pub gain: u32,
}

/// The samples that left the ring between two states of its consuming half.
pub open spec fn taken(before: Consumer, after: Consumer) -> Seq<u32> {
    popped(after).skip(popped(before).len() as int)
}

/// `after` is `before` with one sample of `block` added to each frame: every one of the `channels`
/// values of frame `i` has been combined with `block[i]` under `gain`, and what lies past the
/// last frame of the block is as it was.
pub open spec fn mixed<T, F: Fn(T, u32, u32) -> T>(
    blend: F,
    before: Seq<T>,
    after: Seq<T>,
    block: Seq<u32>,
    gain: u32,
    channels: int,
) -> bool {
    &&& after.len() == before.len()
    &&& forall|k: int|
        0 <= k < before.len() ==> if k < block.len() * channels {
            call_ensures(blend, (before[k], block[k / channels], gain), #[trigger] after[k])
        } else {
            after[k] == before[k]
        }
}

/// `old_buffer` became `new_buffer` by one round of mixing into `before`, which left `after`: as
/// many samples left the ring as there are frames in the output and samples in the ring, and they
/// were mixed in. The ring held at least what the round before had left in it.
pub open spec fn mix_step<T, F: Fn(T, u32, u32) -> T>(
    blend: F,
    old_buffer: Buffer,
    new_buffer: Buffer,
    before: Seq<T>,
    after: Seq<T>,
    channels: int,
) -> bool {
    let block = taken(old_buffer.ring, new_buffer.ring);
    &&& popped(new_buffer.ring) == popped(old_buffer.ring) + block
    &&& stream_out(new_buffer.ring) == stream_out(old_buffer.ring)
    &&& popped(new_buffer.ring).is_prefix_of(stream_out(new_buffer.ring))
    &&& load_seen(new_buffer.ring).len() == load_seen(old_buffer.ring).len() + 1
    &&& load_seen(new_buffer.ring).drop_last() == load_seen(old_buffer.ring)
    &&& load_seen(new_buffer.ring).last() <= holds(old_buffer.ring)
    &&& popped(old_buffer.ring).len() + load_seen(new_buffer.ring).last() <= stream_out(
        old_buffer.ring,
    ).len()
    &&& load_seen(new_buffer.ring).last() >= remaining(old_buffer.ring)
    &&& remaining(new_buffer.ring) == load_seen(new_buffer.ring).last() - block.len()
    &&& holds(new_buffer.ring) == holds(old_buffer.ring)
    &&& block.len() == lesser(
        (before.len() as int / channels) as nat,
        load_seen(new_buffer.ring).last(),
    )
    &&& mixed(blend, before, after, block, old_buffer.gain, channels)
    &&& new_buffer.gain == old_buffer.gain
}

/// A round of mixing takes one sample for each frame of the output, as long as the ring has any, and
/// combines it with every value of its frame under the buffer's gain; the values past those frames
/// stay. The samples taken are the next ones that go through the ring.
pub proof fn lemma_mix_step<T, F: Fn(T, u32, u32) -> T>(
    blend: F,
    old_buffer: Buffer,
    new_buffer: Buffer,
    before: Seq<T>,
    after: Seq<T>,
    channels: int,
)
    requires
        mix_step(blend, old_buffer, new_buffer, before, after, channels),
        channels > 0,
    ensures
        ({
            let at = popped(old_buffer.ring).len() as int;
            let n = popped(new_buffer.ring).len() - at;
            let frames = before.len() as int / channels;
            let load = load_seen(new_buffer.ring).last();
            &&& load_seen(new_buffer.ring) == load_seen(old_buffer.ring).push(load)
            &&& n == if frames <= load {
                frames
            } else {
                load as int
            }
            &&& 0 <= n * channels <= before.len()
            &&& forall|k: int|
                0 <= k < n * channels ==> call_ensures(
                    blend,
                    (before[k], popped(new_buffer.ring)[at + k / channels], old_buffer.gain),
                    #[trigger] after[k],
                )
            &&& forall|k: int|
                n * channels <= k < before.len() ==> #[trigger] after[k] == before[k]
        }),
        after.len() == before.len(),
        new_buffer.gain == old_buffer.gain,
        popped(old_buffer.ring).is_prefix_of(popped(new_buffer.ring)),
        stream_out(new_buffer.ring) == stream_out(old_buffer.ring),
        popped(new_buffer.ring).is_prefix_of(stream_out(old_buffer.ring)),
{
    let at = popped(old_buffer.ring).len() as int;
    let block = taken(old_buffer.ring, new_buffer.ring);
    let n = popped(new_buffer.ring).len() - at;
    assert(n == block.len());
    assert(0 <= n * channels <= before.len()) by (nonlinear_arith)
        requires
            0 <= n <= before.len() as int / channels,
            channels > 0,
    ;
    assert(load_seen(new_buffer.ring) =~= load_seen(old_buffer.ring).push(
        load_seen(new_buffer.ring).last(),
    ));
    assert forall|k: int| 0 <= k < n * channels implies call_ensures(
        blend,
        (before[k], popped(new_buffer.ring)[at + k / channels], old_buffer.gain),
        #[trigger] after[k],
    ) by {
        lemma_frame_of(k, n, channels);
        assert(block[k / channels] == popped(new_buffer.ring)[at + k / channels]);
    }
}

/// The samples in a ring that is found to hold `load` of them, next one first.
pub open spec fn content(ring: Consumer, load: nat) -> Seq<u32> {
    stream_out(ring).subrange(popped(ring).len() as int, (popped(ring).len() + load) as int)
}

/// `blend` gives one value for the same arguments, however often it is called.
pub open spec fn deterministic<T, F: Fn(T, u32, u32) -> T>(blend: F) -> bool {
    forall|value: T, sample: u32, gain: u32, a: T, b: T| #[trigger]
        call_ensures(blend, (value, sample, gain), a) && #[trigger] call_ensures(
            blend,
            (value, sample, gain),
            b,
        ) ==> a == b
}

/// What a round of mixing finds in the ring and leaves there, the next round finds; and no more than
/// that where the first one found all that was still to come.
pub proof fn lemma_mix_finds_what_was_left<T, F: Fn(T, u32, u32) -> T>(
    blend: F,
    first: Buffer,
    between: Buffer,
    last: Buffer,
    before: Seq<T>,
    after: Seq<T>,
    later_before: Seq<T>,
    later_after: Seq<T>,
    channels: int,
    later_channels: int,
)
    requires
        mix_step(blend, first, between, before, after, channels),
        mix_step(blend, between, last, later_before, later_after, later_channels),
    ensures
        load_seen(last.ring).last() >= load_seen(between.ring).last() - taken(
            first.ring,
            between.ring,
        ).len(),
        popped(first.ring).len() + load_seen(between.ring).last() == stream_out(first.ring).len()
            ==> load_seen(last.ring).last() == remaining(between.ring),
{
}

/// A round of mixing takes the beginning of what is in the ring, and leaves the rest.
proof fn lemma_takes_content<T, F: Fn(T, u32, u32) -> T>(
    blend: F,
    old_buffer: Buffer,
    new_buffer: Buffer,
    before: Seq<T>,
    after: Seq<T>,
    channels: int,
)
    requires
        mix_step(blend, old_buffer, new_buffer, before, after, channels),
    ensures
        ({
            let block = taken(old_buffer.ring, new_buffer.ring);
            let found = content(old_buffer.ring, load_seen(new_buffer.ring).last());
            &&& found.len() == load_seen(new_buffer.ring).last()
            &&& block.len() <= found.len()
            &&& block == found.take(block.len() as int)
            &&& content(new_buffer.ring, remaining(new_buffer.ring)) == found.skip(
                block.len() as int,
            )
        }),
{
    let block = taken(old_buffer.ring, new_buffer.ring);
    let found = content(old_buffer.ring, load_seen(new_buffer.ring).last());
    let at = popped(old_buffer.ring).len() as int;
    assert forall|i: int| 0 <= i < block.len() implies block[i] == found[i] by {
        assert(popped(new_buffer.ring)[at + i] == stream_out(new_buffer.ring)[at + i]);
    }
    assert(block =~= found.take(block.len() as int));
    assert(content(new_buffer.ring, remaining(new_buffer.ring)) =~= found.skip(
        block.len() as int,
    ));
}

/// Mixing an output in two parts, the first one of `k` frames, is mixing it in one: where nothing is
/// put into the ring between the two, and another buffer of the same gain with the same samples in
/// its ring is mixed into the whole output, the two parts together become what the whole becomes, the
/// same samples are taken, and the same samples stay in the ring.
pub proof fn lemma_mix_in_two_parts<T, F: Fn(T, u32, u32) -> T>(
    blend: F,
    first: Buffer,
    between: Buffer,
    last: Buffer,
    other: Buffer,
    other_last: Buffer,
    before: Seq<T>,
    head: Seq<T>,
    tail: Seq<T>,
    after: Seq<T>,
    channels: int,
    k: int,
)
    requires
        channels >= 1,
        0 <= k,
        k * channels <= before.len(),
        deterministic(blend),
        mix_step(blend, first, between, before.take(k * channels), head, channels),
        mix_step(blend, between, last, before.skip(k * channels), tail, channels),
        mix_step(blend, other, other_last, before, after, channels),
        other.gain == first.gain,
        content(other.ring, load_seen(other_last.ring).last()) == content(
            first.ring,
            load_seen(between.ring).last(),
        ),
        load_seen(last.ring).last() == remaining(between.ring),
    ensures
        head + tail == after,
        taken(first.ring, between.ring) + taken(between.ring, last.ring) == taken(
            other.ring,
            other_last.ring,
        ),
        content(last.ring, remaining(last.ring)) == content(
            other_last.ring,
            remaining(other_last.ring),
        ),
        last.gain == other_last.gain,
{
    let cut = k * channels;
    let frames = before.len() as int / channels;
    let found = content(first.ring, load_seen(between.ring).last());
    let block = taken(other.ring, other_last.ring);
    let block_head = taken(first.ring, between.ring);
    let block_tail = taken(between.ring, last.ring);
    lemma_takes_content(blend, first, between, before.take(cut), head, channels);
    lemma_takes_content(blend, between, last, before.skip(cut), tail, channels);
    lemma_takes_content(blend, other, other_last, before, after, channels);
    lemma_frames_in_order(0, k, channels);
    lemma_frame_of(0, k, channels);
    lemma_frame_of(before.len() - cut, k, channels);
    assert(before.take(cut).len() as int / channels == k);
    assert(before.skip(cut).len() as int / channels == frames - k);
    assert(block_head + block_tail =~= found.take(block.len() as int));
    assert(found.skip(block_head.len() as int).skip(block_tail.len() as int) =~= found.skip(
        block.len() as int,
    ));
    assert forall|i: int| 0 <= i < before.len() implies (head + tail)[i] == after[i] by {
        lemma_frame_of(i, block.len() as int, channels);
        lemma_frame_of(i, k, channels);
        let f = i / channels;
        if i < cut {
            lemma_frame_of(i, block_head.len() as int, channels);
            assert(head[i] == (head + tail)[i]);
            assert(before.take(cut)[i] == before[i]);
            if f < block.len() {
                assert(block_head[f] == block[f]);
            }
        } else {
            lemma_frame_of(i - cut, block_tail.len() as int, channels);
            lemma_frame_of(i - cut, k, channels);
            assert(tail[i - cut] == (head + tail)[i]);
            assert(before.skip(cut)[i - cut] == before[i]);
            if f < block.len() {
                assert(block_tail[f - k] == block[f]);
            }
        }
    }
    assert(head + tail =~= after);
}

/// The first `done` values of `before` have been combined as [`mixed`] says, the others not yet.
spec fn mixed_upto<T, F: Fn(T, u32, u32) -> T>(
    blend: F,
    before: Seq<T>,
    after: Seq<T>,
    block: Seq<u32>,
    gain: u32,
    channels: int,
    done: int,
) -> bool {
    &&& after.len() == before.len()
    &&& forall|k: int|
        0 <= k < before.len() ==> if k < done {
            call_ensures(blend, (before[k], block[k / channels], gain), #[trigger] after[k])
        } else {
            after[k] == before[k]
        }
}

/// Combines `block[i]`, with `blend`, with each of the `channels` values of frame `i` of `output`.
pub fn mix_block<T: Copy, F: Fn(T, u32, u32) -> T>(
    output: &mut [T],
    block: &[u32],
    gain: u32,
    channels: usize,
    blend: &F,
)
    requires
        block@.len() * channels <= old(output)@.len(),
        forall|value: T, sample: u32, by: u32| call_requires(*blend, (value, sample, by)),
    ensures
        mixed(*blend, old(output)@, final(output)@, block@, gain, channels as int),
        final(output)@.len() == old(output)@.len(),
        forall|k: int|
            0 <= k < block@.len() * channels ==> call_ensures(
                *blend,
                (old(output)@[k], block@[k / channels as int], gain),
                #[trigger] final(output)@[k],
            ),
        forall|k: int|
            block@.len() * channels <= k < old(output)@.len() ==> #[trigger] final(output)@[k]
                == old(output)@[k],
{
    let ghost before = output@;
    let ghost size: usize = output.len();
    let mut i: usize = 0;
    while i < block.len()
        invariant
            0 <= i <= block@.len(),
            block@.len() * channels <= before.len() == size,
            output@.len() == before.len(),
            forall|value: T, sample: u32, by: u32| call_requires(*blend, (value, sample, by)),
            mixed_upto(*blend, before, output@, block@, gain, channels as int, i * channels),
        decreases block@.len() - i,
    {
        let mut ch: usize = 0;
        while ch < channels
            invariant
                0 <= i < block@.len(),
                0 <= ch <= channels,
                block@.len() * channels <= before.len() == size,
                output@.len() == before.len(),
                forall|value: T, sample: u32, by: u32| call_requires(*blend, (value, sample, by)),
                mixed_upto(
                    *blend,
                    before,
                    output@,
                    block@,
                    gain,
                    channels as int,
                    i * channels + ch,
                ),
            decreases channels - ch,
        {
            proof {
                lemma_frame(i as int, ch as int, block@.len() as int, channels as int);
            }
            let at: usize = i * channels + ch;
            output[at] = blend(output[at], block[i], gain);
            ch = ch + 1;
        }
        proof {
            assert((i + 1) * channels == i * channels + channels) by (nonlinear_arith);
        }
        i = i + 1;
    }
}

impl Buffer {
    /// A buffer that takes part in the mix, at unit gain.
    pub fn new(ring: Consumer) -> (buffer: Self)
        ensures
            buffer.ring == ring,
            buffer.active,
            buffer.gain == UNIT_GAIN,
            buffer.gain == 0x3f80_0000,
    {
        Buffer { ring, active: true, gain: UNIT_GAIN }
    }

    /// Takes at most one sample for each frame of `output` out of the ring and combines it, with
    /// `blend`, with every channel of its frame. A ring with nothing in it ends the buffer's part in
    /// the mix.
    pub fn mix_into<T: Copy, F: Fn(T, u32, u32) -> T>(
        &mut self,
        output: &mut [T],
        channels: usize,
        blend: &F,
    )
        requires
            channels > 0,
            forall|value: T, sample: u32, gain: u32|
                call_requires(*blend, (value, sample, gain)),
        ensures
            mix_step(
                *blend,
                *old(self),
                *final(self),
                old(output)@,
                final(output)@,
                channels as int,
            ),
            final(self).active == (old(self).active && taken(
                old(self).ring,
                final(self).ring,
            ).len() > 0),
            final(self).active == (old(self).active && popped(final(self).ring).len() > popped(
                old(self).ring,
            ).len()),
            final(self).gain == old(self).gain,
            final(output)@.len() == old(output)@.len(),
            popped(old(self).ring).is_prefix_of(popped(final(self).ring)),
            ({
                let at = popped(old(self).ring).len() as int;
                let n = popped(final(self).ring).len() - at;
                let frames = old(output)@.len() as int / channels as int;
                let load = load_seen(final(self).ring).last();
                &&& load_seen(final(self).ring) == load_seen(old(self).ring).push(load)
                &&& n == if frames <= load {
                    frames
                } else {
                    load as int
                }
                &&& forall|k: int|
                    0 <= k < n * channels ==> call_ensures(
                        *blend,
                        (
                            old(output)@[k],
                            popped(final(self).ring)[at + k / channels as int],
                            old(self).gain,
                        ),
                        #[trigger] final(output)@[k],
                    )
                &&& forall|k: int|
                    n * channels <= k < old(output)@.len() ==> #[trigger] final(output)@[k]
                        == old(output)@[k]
            }),
    {
        let ghost before = output@;
        let ghost was = *self;
        let frames: usize = output.len() / channels;
        let mut tmp: Vec<u32> = vec![0u32; frames];
        let n: usize = pop_slice(&mut self.ring, tmp.as_mut_slice());
        proof {
            assert(taken(old(self).ring, self.ring) =~= tmp@.take(n as int));
            assert(n * channels <= output@.len()) by (nonlinear_arith)
                requires
                    n <= frames,
                    frames == output@.len() as int / channels as int,
                    channels > 0,
            ;
        }
        mix_block(output, &tmp[0..n], self.gain, channels, blend);
        if n == 0 {
            self.active = false;
        }
        proof {
            lemma_mix_step(*blend, was, *self, before, output@, channels as int);
        }
    }
}

} // verus!
