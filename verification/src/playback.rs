//! A playback: a part of a track on its way into a ring.

use crate::buffer::{mix_step, taken, Buffer};
use crate::frames::lemma_frames_in_order;
use crate::ring::{
    capacity, close, lemma_first_in_first_out, lemma_nothing_else_comes_out, lesser, popped,
    push_slice, pushed, room_seen, spare, stream_in, stream_out, Consumer, Producer,
};
use crate::text::number;
use crate::track::{Track, TrackView};
use std::sync::Arc;
use vstd::prelude::*;

verus! {

/// The number that a word writes, or another one where it writes none.
pub open spec fn number_or(word: Seq<char>, other: int) -> int {
    match number(word) {
        Some(value) => value as int,
        None => other,
    }
}

/// The first frame to play: the first argument, and the beginning of the track where it is missing
/// or no number.
pub open spec fn start_frame(args: Seq<Seq<char>>) -> int {
    if args.len() > 0 {
        number_or(args[0], 0)
    } else {
        0
    }
}

/// The number of frames to play: the second argument; all that are left of the track where it is no
/// number, and as many as the track has where it is missing.
pub open spec fn frame_count(total: int, args: Seq<Seq<char>>) -> int {
    if args.len() > 1 {
        number_or(args[1], total - start_frame(args))
    } else {
        total
    }
}

/// The frame before which to stop: the track's end at the latest.
pub open spec fn end_frame(total: int, args: Seq<Seq<char>>) -> int {
    if start_frame(args) + frame_count(total, args) <= total {
        start_frame(args) + frame_count(total, args)
    } else {
        total
    }
}

/// The samples that the arguments select of a track.
pub open spec fn selection(track: TrackView, args: Seq<Seq<char>>) -> Seq<u32> {
    track.samples.subrange(
        start_frame(args) * track.channels,
        end_frame(track.total_frames as int, args) * track.channels,
    )
}

/// The arguments start inside the track.
pub open spec fn in_range(track: TrackView, args: Seq<Seq<char>>) -> bool {
    start_frame(args) < track.total_frames
}

/// Where the arguments start inside the track, the frame before which to stop can be computed and
/// the samples up to it are there.
pub open spec fn playable(track: TrackView, args: Seq<Seq<char>>) -> bool {
    in_range(track, args) ==> {
        &&& start_frame(args) + frame_count(track.total_frames as int, args) <= usize::MAX
        &&& end_frame(track.total_frames as int, args) * track.channels <= track.samples.len()
    }
}

/// How many of `waiting` samples go into a ring that, asked again and again, has these rooms.
pub open spec fn going_in(waiting: nat, rooms: Seq<nat>) -> nat
    decreases rooms.len(),
{
    if rooms.len() == 0 {
        0
    } else {
        let gone = going_in(waiting, rooms.drop_last());
        gone + lesser((waiting - gone) as nat, rooms.last())
    }
}

/// How much room is left in a ring in which there were `room` places left before, after as many of
/// `waiting` samples have gone in as do when it, asked again and again, has these rooms.
pub open spec fn room_left(room: nat, waiting: nat, rooms: Seq<nat>) -> nat {
    if rooms.len() == 0 {
        room
    } else {
        let gone = going_in(waiting, rooms.drop_last());
        (rooms.last() - lesser((waiting - gone) as nat, rooms.last())) as nat
    }
}

/// Whether a ring in which there were `room` places left before can have these rooms: each time at
/// least what was left the time before.
pub open spec fn rooms_kept(room: nat, waiting: nat, rooms: Seq<nat>) -> bool
    decreases rooms.len(),
{
    rooms.len() > 0 ==> {
        &&& rooms_kept(room, waiting, rooms.drop_last())
        &&& rooms.last() >= room_left(room, waiting, rooms.drop_last())
    }
}

/// The rooms that a half was found to have between two of its states.
pub open spec fn rooms_between(before: Producer, after: Producer) -> Seq<nat> {
    room_seen(after).skip(room_seen(before).len() as int)
}

/// What came of an attempt to move samples into the ring.
#[derive(Clone, Copy, Debug, PartialEq, Eq, Structural)]
pub enum Feed {
    /// All of the playback has gone into the ring.
    Done,
    /// The ring is full; the rest has to wait for the mixer.
    Full,
}

/// A part of a track on its way into a ring.
pub struct Playback {
    track: Arc<Track>,
    from: usize,
    to: usize,
    written: usize,
    prod: Producer,
}

impl Playback {
    /// The samples to play.
    pub closed spec fn chunk(self) -> Seq<u32> {
        self.track.samples@.subrange(self.from as int, self.to as int)
    }

    /// How many of them have gone into the ring.
    pub closed spec fn written(self) -> int {
        self.written as int
    }

    /// The half of the ring that they go through.
    pub closed spec fn half(self) -> Producer {
        self.prod
    }

    /// The samples are part of the track, and no more have gone into the ring than there are.
    pub closed spec fn wf(self) -> bool {
        &&& self.from <= self.to <= self.track.samples@.len()
        &&& self.written <= self.to - self.from
    }

    /// A playback of the samples of `track` from `from` to `to`, none of which has gone into the
    /// ring yet.
    pub(crate) fn new(track: Arc<Track>, from: usize, to: usize, prod: Producer) -> (playback: Self)
        requires
            from <= to <= track.samples@.len(),
        ensures
            playback.wf(),
            playback.chunk() == track.samples@.subrange(from as int, to as int),
            playback.written() == 0,
            playback.half() == prod,
    {
        Playback { track, from, to, written: 0, prod }
    }

    /// Moves samples into the ring until all are there or the ring takes no more.
    ///
    /// What room the ring has is up to the mixer, which takes samples out, but it is never less than
    /// was left the time before; a playback that fits into that, or into what has never been used of
    /// the ring, is done at once.
    pub fn feed(&mut self) -> (outcome: Feed)
        requires
            old(self).wf(),
        ensures
            final(self).wf(),
            final(self).chunk() == old(self).chunk(),
            old(self).written() <= final(self).written() <= old(self).chunk().len(),
            pushed(final(self).half()) == pushed(old(self).half()) + old(self).chunk().subrange(
                old(self).written(),
                final(self).written(),
            ),
            outcome == Feed::Done <==> final(self).written() == final(self).chunk().len(),
            room_seen(final(self).half()) == room_seen(old(self).half()) + rooms_between(
                old(self).half(),
                final(self).half(),
            ),
            final(self).written() - old(self).written() == going_in(
                (old(self).chunk().len() - old(self).written()) as nat,
                rooms_between(old(self).half(), final(self).half()),
            ),
            rooms_kept(
                spare(old(self).half()),
                (old(self).chunk().len() - old(self).written()) as nat,
                rooms_between(old(self).half(), final(self).half()),
            ),
            spare(final(self).half()) == room_left(
                spare(old(self).half()),
                (old(self).chunk().len() - old(self).written()) as nat,
                rooms_between(old(self).half(), final(self).half()),
            ),
            outcome == Feed::Full ==> {
                &&& room_seen(final(self).half()).len() > room_seen(old(self).half()).len()
                &&& room_seen(final(self).half()).last() == 0
            },
            outcome == Feed::Full ==> {
                &&& rooms_between(old(self).half(), final(self).half()).len() > 0
                &&& rooms_between(old(self).half(), final(self).half()).last() == 0
            },
            pushed(old(self).half()).len() + old(self).chunk().len() - old(self).written()
                <= capacity(old(self).half()) ==> outcome == Feed::Done,
            old(self).chunk().len() - old(self).written() <= spare(old(self).half()) ==> outcome
                == Feed::Done,
            pushed(old(self).half()) == old(self).chunk().take(old(self).written()) ==> pushed(
                final(self).half(),
            ) == final(self).chunk().take(final(self).written()),
            capacity(final(self).half()) == capacity(old(self).half()),
            stream_in(final(self).half()) == stream_in(old(self).half()),
            pushed(old(self).half()).is_prefix_of(stream_in(old(self).half())) ==> pushed(
                final(self).half(),
            ).is_prefix_of(stream_in(final(self).half())),
    {
        let ghost chunk = self.chunk();
        let ghost start = self.written();
        let len: usize = self.to - self.from;
        let ghost mut rooms: Seq<nat> = Seq::empty();
        assert(pushed(self.prod) + chunk.subrange(start, start) =~= pushed(self.prod));
        assert(room_seen(self.prod) + rooms =~= room_seen(self.prod));
        while self.written < len
            invariant
                self.wf(),
                self.chunk() == chunk,
                chunk == old(self).chunk(),
                len == chunk.len() == self.to - self.from,
                start <= self.written() <= len,
                start == old(self).written(),
                pushed(self.prod) == pushed(old(self).prod) + chunk.subrange(start, self.written()),
                room_seen(self.prod) == room_seen(old(self).prod) + rooms,
                self.written() - start == going_in((len - start) as nat, rooms),
                rooms_kept(spare(old(self).prod), (len - start) as nat, rooms),
                spare(self.prod) == room_left(
                    spare(old(self).prod),
                    (len - start) as nat,
                    rooms,
                ),
                len - start <= spare(old(self).prod) && rooms.len() > 0 ==> self.written() == len,
                capacity(self.prod) == capacity(old(self).prod),
                stream_in(self.prod) == stream_in(old(self).prod),
                pushed(old(self).prod).is_prefix_of(stream_in(old(self).prod)) ==> pushed(
                    self.prod,
                ).is_prefix_of(stream_in(self.prod)),
            decreases len - self.written,
        {
            let ghost at = self.written();
            let ghost had = self.prod;
            let rest: &[u32] = &self.track.samples[self.from + self.written..self.to];
            assert(rest@ =~= chunk.skip(at));
            let n: usize = push_slice(&mut self.prod, rest);
            self.written = self.written + n;
            proof {
                let room = room_seen(self.prod).last();
                assert(room_seen(self.prod) =~= room_seen(had).push(room));
                assert(room_seen(had).push(room) =~= room_seen(old(self).prod) + rooms.push(room));
                assert(rooms.push(room).drop_last() =~= rooms);
                rooms = rooms.push(room);
                assert(rooms_between(old(self).prod, self.prod) =~= rooms);
                assert(rest@.take(n as int) =~= chunk.subrange(at, at + n));
                assert(pushed(old(self).prod) + chunk.subrange(start, at) + chunk.subrange(
                    at,
                    at + n,
                ) =~= pushed(old(self).prod) + chunk.subrange(start, at + n));
            }
            if n == 0 {
                assert(chunk.take(start) + chunk.subrange(start, self.written()) =~= chunk.take(
                    self.written(),
                ));
                return Feed::Full;
            }
        }
        proof {
            assert(rooms_between(old(self).prod, self.prod) =~= rooms);
            assert(chunk.take(start) + chunk.subrange(start, self.written()) =~= chunk.take(
                self.written(),
            ));
        }
        Feed::Done
    }

    /// Ends the playback: what has gone into its ring is all that ever does.
    pub fn end(self)
        ensures
            stream_in(self.half()) == pushed(self.half()),
    {
        close(self.prod);
    }
}

/// As many of the waiting samples go in at each asking as there is room for, and no more than are
/// waiting; none go in where the ring is not asked.
pub proof fn lemma_going_in(waiting: nat, rooms: Seq<nat>, room: nat)
    ensures
        going_in(waiting, Seq::empty()) == 0,
        going_in(waiting, rooms) <= waiting,
        going_in(waiting, rooms) + room <= waiting ==> going_in(waiting, rooms.push(room))
            == going_in(waiting, rooms) + room,
        going_in(waiting, rooms) + room > waiting ==> going_in(waiting, rooms.push(room)) == waiting,
    decreases rooms.len(),
{
    assert(rooms.push(room).drop_last() =~= rooms);
    if rooms.len() > 0 {
        lemma_going_in(waiting, rooms.drop_last(), rooms.last());
        assert(rooms.drop_last().push(rooms.last()) =~= rooms);
    }
}

/// Room in the ring does not go but to samples that go in: asked again, a ring has at least the room
/// that it had the time before, less what went in then.
pub proof fn lemma_room_is_kept(room: nat, waiting: nat, rooms: Seq<nat>, i: int)
    requires
        rooms_kept(room, waiting, rooms),
        0 <= i < rooms.len(),
    ensures
        i == 0 ==> rooms[i] >= room,
        i > 0 ==> rooms[i] >= rooms[i - 1] - (going_in(waiting, rooms.take(i)) - going_in(
            waiting,
            rooms.take(i - 1),
        )),
    decreases rooms.len(),
{
    let before = rooms.drop_last();
    if i < before.len() {
        lemma_room_is_kept(room, waiting, before, i);
        assert(before.take(i) =~= rooms.take(i));
        if i > 0 {
            assert(before.take(i - 1) =~= rooms.take(i - 1));
        }
    } else {
        assert(rooms.take(i) =~= before);
        if i > 0 {
            assert(rooms.take(i - 1) =~= before.drop_last());
        }
    }
}

/// Without arguments, all frames of a track are selected.
pub proof fn lemma_selection_of_no_arguments(track: TrackView)
    requires
        track.wf(),
        track.total_frames > 0,
    ensures
        in_range(track, Seq::empty()),
        selection(track, Seq::empty()) == track.samples.take(track.total_frames * track.channels),
{
    let total = track.total_frames as int;
    assert(0 * track.channels == 0);
    assert(end_frame(total, Seq::empty()) == total);
    assert(selection(track, Seq::empty()) =~= track.samples.take(total * track.channels));
}

/// With one argument that is a number, the frames from there to the track's end are selected.
pub proof fn lemma_selection_of_start(track: TrackView, start: Seq<char>)
    requires
        track.wf(),
        number(start) is Some,
        number(start)->0 < track.total_frames,
    ensures
        in_range(track, seq![start]),
        selection(track, seq![start]) == track.samples.subrange(
            number(start)->0 * track.channels,
            track.total_frames * track.channels,
        ),
{
}

/// With two arguments that are numbers, as many frames as the second one says are selected from
/// where the first one says, but none past the track's end.
pub proof fn lemma_selection_of_start_and_count(
    track: TrackView,
    start: Seq<char>,
    count: Seq<char>,
)
    requires
        track.wf(),
        number(start) is Some,
        number(count) is Some,
        number(start)->0 < track.total_frames,
    ensures
        in_range(track, seq![start, count]),
        number(start)->0 + number(count)->0 <= track.total_frames ==> selection(
            track,
            seq![start, count],
        ).len() == number(count)->0 * track.channels,
        number(start)->0 + number(count)->0 > track.total_frames ==> selection(
            track,
            seq![start, count],
        ).len() == (track.total_frames - number(start)->0) * track.channels,
{
    let total = track.total_frames as int;
    let from = number(start)->0 as int;
    let args = seq![start, count];
    let end = end_frame(total, args);
    lemma_frames_in_order(from, end, track.channels as int);
    lemma_frames_in_order(end, total, track.channels as int);
    lemma_frames_fit(track);
    assert(end * track.channels - from * track.channels == (end - from) * track.channels)
        by (nonlinear_arith);
}

/// What the arguments select of a track, sample by sample: with a first argument that is a number the
/// frames from there on, else from the first one; with a second one that is a number that many, where
/// it is no number all that are left, else as many as the track has; and none past the track's end.
pub proof fn lemma_selection(track: TrackView, args: Seq<Seq<char>>)
    ensures
        ({
            let total = track.total_frames as int;
            let start = if args.len() > 0 && number(args[0]) is Some {
                number(args[0])->0 as int
            } else {
                0
            };
            let wanted = if args.len() <= 1 {
                start + total
            } else if number(args[1]) is Some {
                start + number(args[1])->0
            } else {
                total
            };
            let end = if wanted <= total {
                wanted
            } else {
                total
            };
            &&& in_range(track, args) <==> start < total
            &&& playable(track, args) <==> start >= total || wanted <= usize::MAX && end
                * track.channels <= track.samples.len()
            &&& start < total && playable(track, args) ==> {
                &&& selection(track, args).len() == (end - start) * track.channels
                &&& 0 <= start * track.channels <= end * track.channels
                &&& forall|k: int|
                    0 <= k < (end - start) * track.channels ==> #[trigger] selection(track, args)[k]
                        == track.samples[start * track.channels + k]
            }
        }),
{
    let total = track.total_frames as int;
    let start = start_frame(args);
    let end = end_frame(total, args);
    if start < total {
        lemma_frames_in_order(start, end, track.channels as int);
        assert(end * track.channels - start * track.channels == (end - start) * track.channels)
            by (nonlinear_arith);
    }
}

/// A word that writes a number stands for it, any other one for the number given in its place.
pub proof fn lemma_number_or(word: Seq<char>, other: int)
    ensures
        number(word) matches Some(value) ==> number_or(word, other) == value,
        number(word) is None ==> number_or(word, other) == other,
{
}

/// The frames that a track says it has are there.
proof fn lemma_frames_fit(track: TrackView)
    requires
        track.wf(),
    ensures
        track.total_frames * track.channels <= track.samples.len(),
{
    vstd::arithmetic::div_mod::lemma_fundamental_div_mod(
        track.samples.len() as int,
        track.channels as int,
    );
    assert(track.channels * track.total_frames == track.total_frames * track.channels)
        by (nonlinear_arith);
}

/// A track that has all its frames can be played with any arguments but a start and a count that
/// no `usize` can add.
pub proof fn lemma_playable(track: TrackView, args: Seq<Seq<char>>)
    requires
        track.wf(),
        start_frame(args) + frame_count(track.total_frames as int, args) <= usize::MAX,
    ensures
        playable(track, args),
{
    if in_range(track, args) {
        let total = track.total_frames as int;
        let end = end_frame(total, args);
        lemma_frames_fit(track);
        assert(0 <= end <= total);
        lemma_frames_in_order(end, total, track.channels as int);
    }
}

/// What has been played is what was to be played: where the buffer of a playback has taken a sample
/// out of the ring at some place, it is the sample of the playback at that place.
pub proof fn lemma_buffer_gets_playback(playback: Playback, buffer: Consumer, k: int)
    requires
        stream_in(playback.half()) == stream_out(buffer),
        pushed(playback.half()) == playback.chunk().take(playback.written()),
        pushed(playback.half()).is_prefix_of(stream_in(playback.half())),
        popped(buffer).is_prefix_of(stream_out(buffer)),
        playback.wf(),
        0 <= k < popped(buffer).len(),
        k < playback.written(),
    ensures
        popped(buffer)[k] == playback.chunk()[k],
{
    lemma_first_in_first_out(playback.half(), buffer, k);
}

/// A buffer gets nothing but its playback: once the playback has ended, what the buffer has taken
/// out of the ring, at any time, is a beginning of what was to be played.
pub proof fn lemma_buffer_gets_only_playback(playback: Playback, buffer: Consumer)
    requires
        stream_in(playback.half()) == stream_out(buffer),
        pushed(playback.half()) == playback.chunk().take(playback.written()),
        stream_in(playback.half()) == pushed(playback.half()),
        popped(buffer).is_prefix_of(stream_out(buffer)),
        playback.wf(),
    ensures
        popped(buffer).is_prefix_of(playback.chunk()),
        popped(buffer).len() <= playback.written(),
{
    lemma_nothing_else_comes_out(playback.half(), buffer);
    assert forall|k: int| 0 <= k < popped(buffer).len() implies popped(buffer)[k]
        == playback.chunk()[k] by {
        assert(popped(buffer)[k] == pushed(playback.half())[k]);
    }
}

/// A buffer whose playback is refused never gets a sample.
pub proof fn lemma_refused_playback_is_silent(prod: Producer, buffer: Consumer)
    requires
        stream_in(prod) == stream_out(buffer),
        pushed(prod) == Seq::<u32>::empty(),
        stream_in(prod) == pushed(prod),
        popped(buffer).is_prefix_of(stream_out(buffer)),
    ensures
        popped(buffer) == Seq::<u32>::empty(),
{
    lemma_nothing_else_comes_out(prod, buffer);
}

/// Mixing a buffer plays its playback: each value of the output is combined with the sample of the
/// playback that is next for its frame, after those that were taken out before.
pub proof fn lemma_mix_plays_playback<T, F: Fn(T, u32, u32) -> T>(
    playback: Playback,
    blend: F,
    old_buffer: Buffer,
    new_buffer: Buffer,
    before: Seq<T>,
    after: Seq<T>,
    channels: int,
    k: int,
)
    requires
        mix_step(blend, old_buffer, new_buffer, before, after, channels),
        channels > 0,
        stream_in(playback.half()) == stream_out(new_buffer.ring),
        pushed(playback.half()) == playback.chunk().take(playback.written()),
        pushed(playback.half()).is_prefix_of(stream_in(playback.half())),
        playback.wf(),
        0 <= k < taken(old_buffer.ring, new_buffer.ring).len() * channels,
        popped(old_buffer.ring).len() + k / channels < playback.written(),
    ensures
        call_ensures(
            blend,
            (
                before[k],
                playback.chunk()[popped(old_buffer.ring).len() + k / channels],
                old_buffer.gain,
            ),
            after[k],
        ),
{
    let block = taken(old_buffer.ring, new_buffer.ring);
    let i = k / channels;
    assert(0 <= i < block.len() && k < before.len()) by (nonlinear_arith)
        requires
            0 <= k < block.len() * channels,
            block.len() <= before.len() as int / channels,
            channels > 0,
            i == k / channels,
    ;
    lemma_buffer_gets_playback(playback, new_buffer.ring, popped(old_buffer.ring).len() + i);
    assert(block[i] == popped(new_buffer.ring)[popped(old_buffer.ring).len() + i]);
}

} // verus!
