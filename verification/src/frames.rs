//! Where the values of a frame lie among interleaved values.

use vstd::prelude::*;

verus! {

/// The value of channel `ch` in frame `f` lies inside `frames` frames of `channels` values, and
/// its place tells the frame and the channel.
pub proof fn lemma_frame(f: int, ch: int, frames: int, channels: int)
    requires
        0 <= f < frames,
        0 <= ch < channels,
    ensures
        0 <= f * channels,
        f * channels + ch < frames * channels,
        (f + 1) * channels == f * channels + channels,
        (f * channels + ch) / channels == f,
        (f * channels + ch) % channels == ch,
{
    assert(0 <= f * channels && f * channels + channels <= frames * channels && (f + 1) * channels
        == f * channels + channels) by (nonlinear_arith)
        requires
            0 <= f < frames,
            0 <= ch < channels,
    ;
    vstd::arithmetic::div_mod::lemma_fundamental_div_mod_converse(
        f * channels + ch,
        channels,
        f,
        ch,
    );
}

/// A place lies in the first `n` frames where its frame is one of them, and `n` frames further on it
/// lies in the frame that is `n` further on.
pub proof fn lemma_frame_of(k: int, n: int, channels: int)
    requires
        0 <= k,
        0 <= n,
        0 < channels,
    ensures
        0 <= k / channels,
        k < n * channels <==> k / channels < n,
        (k + n * channels) / channels == k / channels + n,
{
    let f = k / channels;
    let ch = k % channels;
    vstd::arithmetic::div_mod::lemma_fundamental_div_mod(k, channels);
    assert(channels * f == f * channels) by (nonlinear_arith);
    assert(0 <= f && (f * channels + ch < n * channels <==> f < n) && f * channels + ch + n * channels
        == (f + n) * channels + ch) by (nonlinear_arith)
        requires
            0 <= f * channels + ch,
            0 <= ch < channels,
            0 <= n,
    ;
    vstd::arithmetic::div_mod::lemma_fundamental_div_mod_converse(
        k + n * channels,
        channels,
        f + n,
        ch,
    );
}

/// A frame before another one starts no later.
pub proof fn lemma_frames_in_order(a: int, b: int, channels: int)
    requires
        0 <= a <= b,
        0 <= channels,
    ensures
        0 <= a * channels <= b * channels,
{
    assert(0 <= a * channels <= b * channels) by (nonlinear_arith)
        requires
            0 <= a <= b,
            0 <= channels,
    ;
}

} // verus!
