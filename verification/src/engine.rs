//! The engine.

use crate::buffer::{lemma_mix_step, mix_step, Buffer, UNIT_GAIN};
use crate::command::{
    asked_args, asked_buffer, asked_track, command_named, line_args, line_name, read_request,
    Command,
};
use crate::frames::lemma_frames_in_order;
use crate::playback::{
    end_frame, frame_count, in_range, lemma_selection, number_or, playable, selection, start_frame,
    Playback,
};
use crate::ring::{
    capacity, close, holds, load_seen, new_ring, popped, pushed, remaining, room_seen, spare,
    stream_in, stream_out, Producer, RING_CAPACITY,
};
use crate::text::{number, parse_usize, same_text, texts, words};
use crate::track::{Track, TrackTable};
use std::collections::VecDeque;
use std::sync::Arc;
use vstd::prelude::*;

verus! {

/// A buffer under its name.
pub struct Slot {
    /// The name.
    pub name: String,
    /// The buffer.
    pub buffer: Buffer,
}

/// The engine: the tracks it can play, and the buffers it mixes.
pub struct Engine {
    /// The buffers, each under a name of its own.
    pub buffers: Vec<Slot>,
    /// The tracks, each under its path.
    pub tracks: TrackTable,
    /// The number of values in a frame of the mix.
    pub channels: usize,
}

/// Where a name stands among named buffers; their number where it does not.
pub open spec fn place(slots: Seq<(Seq<char>, Buffer)>, name: Seq<char>) -> int
    decreases slots.len(),
{
    if slots.len() == 0 || slots[0].0 == name {
        0
    } else {
        1 + place(slots.skip(1), name)
    }
}

/// Named buffers with a buffer put under a name: in the place of the one that had the name, else at
/// the end.
pub open spec fn put(slots: Seq<(Seq<char>, Buffer)>, name: Seq<char>, buffer: Buffer) -> Seq<
    (Seq<char>, Buffer),
> {
    if place(slots, name) < slots.len() {
        slots.update(place(slots, name), (name, buffer))
    } else {
        slots.push((name, buffer))
    }
}

/// No two buffers have one name.
pub open spec fn distinct(slots: Seq<(Seq<char>, Buffer)>) -> bool {
    forall|i: int, j: int|
        0 <= i < j < slots.len() ==> (#[trigger] slots[i]).0 != (#[trigger] slots[j]).0
}

/// A name stands where its place says, and nowhere before it.
pub proof fn lemma_place(slots: Seq<(Seq<char>, Buffer)>, name: Seq<char>)
    ensures
        0 <= place(slots, name) <= slots.len(),
        place(slots, name) < slots.len() ==> slots[place(slots, name)].0 == name,
        forall|i: int| 0 <= i < place(slots, name) ==> (#[trigger] slots[i]).0 != name,
    decreases slots.len(),
{
    if slots.len() > 0 && slots[0].0 != name {
        let rest = slots.skip(1);
        lemma_place(rest, name);
        assert forall|i: int| 0 <= i < place(slots, name) implies (#[trigger] slots[i]).0
            != name by {
            if i > 0 {
                assert(rest[i - 1] == slots[i]);
            }
        }
    }
}

/// The place of a name is the only one at which it stands and before which it does not.
proof fn lemma_place_is(slots: Seq<(Seq<char>, Buffer)>, name: Seq<char>, at: int)
    requires
        0 <= at <= slots.len(),
        at < slots.len() ==> slots[at].0 == name,
        forall|i: int| 0 <= i < at ==> (#[trigger] slots[i]).0 != name,
    ensures
        place(slots, name) == at,
{
    lemma_place(slots, name);
    if place(slots, name) < at {
        assert(slots[place(slots, name)].0 != name);
    }
    if at < place(slots, name) {
        assert(slots[at].0 != name);
    }
}

/// What is put under a name is found under it, what stands under another name stays, and no name
/// comes to stand twice.
pub proof fn lemma_put(
    slots: Seq<(Seq<char>, Buffer)>,
    name: Seq<char>,
    buffer: Buffer,
    other: Seq<char>,
)
    ensures
        place(put(slots, name, buffer), name) == place(slots, name),
        place(slots, name) < put(slots, name, buffer).len(),
        put(slots, name, buffer)[place(slots, name)] == (name, buffer),
        other != name && place(slots, other) < slots.len() ==> {
            &&& place(put(slots, name, buffer), other) == place(slots, other)
            &&& put(slots, name, buffer)[place(slots, other)] == slots[place(slots, other)]
        },
        other != name && place(slots, other) == slots.len() ==> place(
            put(slots, name, buffer),
            other,
        ) == put(slots, name, buffer).len(),
        distinct(slots) ==> distinct(put(slots, name, buffer)),
{
    let changed = put(slots, name, buffer);
    lemma_place(slots, name);
    lemma_place(slots, other);
    let at = place(slots, name);
    assert forall|i: int| 0 <= i < slots.len() && i != at implies #[trigger] changed[i]
        == slots[i] by {}
    assert(changed[at] == (name, buffer));
    lemma_place_is(changed, name, at);
    if other != name {
        if place(slots, other) < slots.len() {
            assert forall|i: int| 0 <= i < place(slots, other) implies (#[trigger] changed[i]).0
                != other by {
                assert(slots[i].0 != other);
            }
            lemma_place_is(changed, other, place(slots, other));
        } else {
            assert forall|i: int| 0 <= i < changed.len() implies (#[trigger] changed[i]).0
                != other by {
                if i < slots.len() {
                    assert(slots[i].0 != other);
                }
            }
            lemma_place_is(changed, other, changed.len() as int);
        }
    }
    if distinct(slots) {
        assert forall|i: int, j: int| 0 <= i < j < changed.len() implies (#[trigger] changed[i]).0
            != (#[trigger] changed[j]).0 by {
            if j < slots.len() {
                assert(slots[i].0 != slots[j].0);
            } else {
                assert(slots[i].0 != name);
            }
        }
    }
}

/// Putting a buffer under a name changes the first buffer of that name and no other, or, where there
/// is none, comes after all of them.
pub proof fn lemma_put_in_place(
    slots: Seq<(Seq<char>, Buffer)>,
    name: Seq<char>,
    buffer: Buffer,
    at: int,
)
    requires
        0 <= at <= slots.len(),
        forall|i: int| 0 <= i < at ==> (#[trigger] slots[i]).0 != name,
    ensures
        at == slots.len() ==> put(slots, name, buffer) == slots.push((name, buffer)),
        at < slots.len() && slots[at].0 == name ==> put(slots, name, buffer) == slots.update(
            at,
            (name, buffer),
        ),
{
    if at == slots.len() || slots[at].0 == name {
        lemma_place_is(slots, name, at);
    }
}

/// A new buffer of which `prod` is the other half: nothing has gone into its ring, which holds
/// [`RING_CAPACITY`] samples.
pub open spec fn fresh(buffer: Buffer, prod: Producer) -> bool {
    &&& buffer.active
    &&& buffer.gain == UNIT_GAIN
    &&& popped(buffer.ring) == Seq::<u32>::empty()
    &&& pushed(prod) == Seq::<u32>::empty()
    &&& room_seen(prod) == Seq::<nat>::empty()
    &&& load_seen(buffer.ring) == Seq::<nat>::empty()
    &&& capacity(prod) == RING_CAPACITY
    &&& holds(buffer.ring) == RING_CAPACITY
    &&& spare(prod) == RING_CAPACITY
    &&& remaining(buffer.ring) == 0
    &&& stream_out(buffer.ring) == stream_in(prod)
}

/// A new buffer takes part in the mix at the gain one, its ring has room for 4096 samples and nothing
/// in it, nothing has gone in or come out, and what goes in at `prod` comes out at the buffer.
pub proof fn lemma_fresh(buffer: Buffer, prod: Producer)
    requires
        fresh(buffer, prod),
    ensures
        buffer.active,
        buffer.gain == 0x3f80_0000,
        stream_out(buffer.ring) == stream_in(prod),
        pushed(prod).len() == 0,
        popped(buffer.ring).len() == 0,
        capacity(prod) == 4096,
        holds(buffer.ring) == 4096,
        spare(prod) == 4096,
        remaining(buffer.ring) == 0,
        room_seen(prod).len() == 0,
        load_seen(buffer.ring).len() == 0,
{
}

/// One buffer's part in a round of the mix: an active one is mixed into the output and is not
/// active afterwards, any other one is passed over.
pub open spec fn slot_step<T, F: Fn(T, u32, u32) -> T>(
    blend: F,
    old_slot: (Seq<char>, Buffer),
    new_slot: (Seq<char>, Buffer),
    before: Seq<T>,
    after: Seq<T>,
    channels: int,
) -> bool {
    &&& new_slot.0 == old_slot.0
    &&& if old_slot.1.active {
        &&& mix_step(blend, old_slot.1, new_slot.1, before, after, channels)
        &&& !new_slot.1.active
    } else {
        &&& new_slot.1 == old_slot.1
        &&& after == before
    }
}

/// The output before the first buffer's part, after it, after the second one's, and so on, in a
/// round of the mix in which each buffer of `old_slots` became that of `new_slots`.
pub open spec fn mix_chain<T, F: Fn(T, u32, u32) -> T>(
    blend: F,
    old_slots: Seq<(Seq<char>, Buffer)>,
    new_slots: Seq<(Seq<char>, Buffer)>,
    outputs: Seq<Seq<T>>,
    channels: int,
) -> bool {
    &&& new_slots.len() == old_slots.len()
    &&& outputs.len() == old_slots.len() + 1
    &&& forall|i: int|
        0 <= i < old_slots.len() ==> slot_step(
            blend,
            #[trigger] old_slots[i],
            new_slots[i],
            outputs[i],
            outputs[i + 1],
            channels,
        )
}

/// A round of the mix turned `before` into `after`: the buffers had their parts one after another.
pub open spec fn mix_round<T, F: Fn(T, u32, u32) -> T>(
    blend: F,
    old_slots: Seq<(Seq<char>, Buffer)>,
    new_slots: Seq<(Seq<char>, Buffer)>,
    before: Seq<T>,
    after: Seq<T>,
    channels: int,
) -> bool {
    exists|outputs: Seq<Seq<T>>|
        {
            &&& #[trigger] mix_chain(blend, old_slots, new_slots, outputs, channels)
            &&& outputs[0] == before
            &&& outputs.last() == after
        }
}

/// Whether a buffer is active.
pub open spec fn some_active(slots: Seq<(Seq<char>, Buffer)>) -> bool {
    exists|i: int| 0 <= i < slots.len() && (#[trigger] slots[i]).1.active
}

/// Some buffer is active exactly where not all of them are at rest.
pub proof fn lemma_some_active(slots: Seq<(Seq<char>, Buffer)>)
    ensures
        !some_active(slots) <==> forall|i: int| 0 <= i < slots.len() ==> !(#[trigger] slots[i]).1.active,
{
}

/// A round without buffers changes nothing.
pub proof fn lemma_round_of_no_buffers<T, F: Fn(T, u32, u32) -> T>(
    blend: F,
    old_slots: Seq<(Seq<char>, Buffer)>,
    new_slots: Seq<(Seq<char>, Buffer)>,
    before: Seq<T>,
    after: Seq<T>,
    channels: int,
)
    requires
        mix_round(blend, old_slots, new_slots, before, after, channels),
        old_slots.len() == 0,
    ensures
        new_slots.len() == 0,
        after == before,
{
    lemma_idle_round(blend, old_slots, new_slots, before, after, channels);
}

/// One more buffer at the end of a round adds its own part to what the others leave: where it is
/// active it is mixed in, whatever its name and however many others there are, and is not active
/// afterwards; where it is not, nothing is added.
pub proof fn lemma_round_adds_last_buffer<T, F: Fn(T, u32, u32) -> T>(
    blend: F,
    old_slots: Seq<(Seq<char>, Buffer)>,
    new_slots: Seq<(Seq<char>, Buffer)>,
    before: Seq<T>,
    after: Seq<T>,
    channels: int,
)
    requires
        mix_round(blend, old_slots, new_slots, before, after, channels),
        old_slots.len() > 0,
    ensures
        new_slots.len() == old_slots.len(),
        new_slots.last().0 == old_slots.last().0,
        !new_slots.last().1.active,
        exists|mid: Seq<T>|
            {
                &&& #[trigger] mix_round(
                    blend,
                    old_slots.drop_last(),
                    new_slots.drop_last(),
                    before,
                    mid,
                    channels,
                )
                &&& old_slots.last().1.active ==> mix_step(
                    blend,
                    old_slots.last().1,
                    new_slots.last().1,
                    mid,
                    after,
                    channels,
                )
                &&& !old_slots.last().1.active ==> new_slots.last().1 == old_slots.last().1 && after
                    == mid
            },
{
    let outputs = choose|outputs: Seq<Seq<T>>|
        {
            &&& #[trigger] mix_chain(blend, old_slots, new_slots, outputs, channels)
            &&& outputs[0] == before
            &&& outputs.last() == after
        };
    let n = old_slots.len() - 1;
    let front = outputs.drop_last();
    assert(slot_step(blend, old_slots[n], new_slots[n], outputs[n], outputs[n + 1], channels));
    assert forall|i: int| 0 <= i < n implies slot_step(
        blend,
        #[trigger] old_slots.drop_last()[i],
        new_slots.drop_last()[i],
        front[i],
        front[i + 1],
        channels,
    ) by {
        assert(slot_step(
            blend,
            old_slots[i],
            new_slots[i],
            outputs[i],
            outputs[i + 1],
            channels,
        ));
    }
    assert(mix_chain(blend, old_slots.drop_last(), new_slots.drop_last(), front, channels));
    assert(mix_round(
        blend,
        old_slots.drop_last(),
        new_slots.drop_last(),
        before,
        outputs[n],
        channels,
    ));
}

/// Every buffer has its part in a round, whatever its name, its place among the buffers and their
/// number: an active one takes one sample for each frame of the output, as long as its ring has any,
/// which are the next ones that go through the ring, and combines each, under its gain, with every
/// value of its frame in what the buffers before it left, and is not active afterwards; any other one
/// stays as it is and leaves what it gets.
#[verifier::spinoff_prover]
pub proof fn lemma_every_buffer_has_its_part<T, F: Fn(T, u32, u32) -> T>(
    blend: F,
    old_slots: Seq<(Seq<char>, Buffer)>,
    new_slots: Seq<(Seq<char>, Buffer)>,
    before: Seq<T>,
    after: Seq<T>,
    channels: int,
)
    requires
        mix_round(blend, old_slots, new_slots, before, after, channels),
        channels > 0,
    ensures
        new_slots.len() == old_slots.len(),
        after.len() == before.len(),
        exists|outputs: Seq<Seq<T>>|
            {
                &&& outputs.len() == old_slots.len() + 1
                &&& outputs[0] == before
                &&& #[trigger] outputs.last() == after
                &&& forall|i: int|
                    #![trigger old_slots[i]]
                    0 <= i < old_slots.len() ==> {
                        let was = old_slots[i].1;
                        let now = new_slots[i].1;
                        let at = popped(was.ring).len() as int;
                        let n = popped(now.ring).len() - at;
                        let frames = before.len() as int / channels;
                        let load = load_seen(now.ring).last();
                        &&& new_slots[i].0 == old_slots[i].0
                        &&& outputs[i].len() == before.len()
                        &&& !now.active
                        &&& now.gain == was.gain
                        &&& !was.active ==> now == was && outputs[i + 1] == outputs[i]
                        &&& was.active ==> {
                            &&& stream_out(now.ring) == stream_out(was.ring)
                            &&& popped(was.ring).is_prefix_of(popped(now.ring))
                            &&& popped(now.ring).is_prefix_of(stream_out(was.ring))
                            &&& load_seen(now.ring) == load_seen(was.ring).push(load)
                            &&& n == if frames <= load {
                                frames
                            } else {
                                load as int
                            }
                            &&& forall|k: int|
                                0 <= k < n * channels ==> call_ensures(
                                    blend,
                                    (
                                        outputs[i][k],
                                        popped(now.ring)[at + k / channels],
                                        was.gain,
                                    ),
                                    #[trigger] outputs[i + 1][k],
                                )
                            &&& forall|k: int|
                                n * channels <= k < before.len() ==> #[trigger] outputs[i + 1][k]
                                    == outputs[i][k]
                        }
                    }
            },
{
    let outputs = choose|outputs: Seq<Seq<T>>|
        {
            &&& #[trigger] mix_chain(blend, old_slots, new_slots, outputs, channels)
            &&& outputs[0] == before
            &&& outputs.last() == after
        };
    lemma_chain_keeps_length(
        blend,
        old_slots,
        new_slots,
        outputs,
        channels,
        old_slots.len() as int,
    );
    assert forall|i: int| #![trigger old_slots[i]] 0 <= i < old_slots.len() implies {
        let was = old_slots[i].1;
        let now = new_slots[i].1;
        let at = popped(was.ring).len() as int;
        let n = popped(now.ring).len() - at;
        let frames = before.len() as int / channels;
        let load = load_seen(now.ring).last();
        &&& new_slots[i].0 == old_slots[i].0
        &&& outputs[i].len() == before.len()
        &&& !now.active
        &&& now.gain == was.gain
        &&& !was.active ==> now == was && outputs[i + 1] == outputs[i]
        &&& was.active ==> {
            &&& stream_out(now.ring) == stream_out(was.ring)
            &&& popped(was.ring).is_prefix_of(popped(now.ring))
            &&& popped(now.ring).is_prefix_of(stream_out(was.ring))
            &&& load_seen(now.ring) == load_seen(was.ring).push(load)
            &&& n == if frames <= load {
                frames
            } else {
                load as int
            }
            &&& forall|k: int|
                0 <= k < n * channels ==> call_ensures(
                    blend,
                    (outputs[i][k], popped(now.ring)[at + k / channels], was.gain),
                    #[trigger] outputs[i + 1][k],
                )
            &&& forall|k: int|
                n * channels <= k < before.len() ==> #[trigger] outputs[i + 1][k] == outputs[i][k]
        }
    } by {
        assert(slot_step(
            blend,
            old_slots[i],
            new_slots[i],
            outputs[i],
            outputs[i + 1],
            channels,
        ));
        assert(outputs[i].len() == before.len());
        if old_slots[i].1.active {
            lemma_mix_step(
                blend,
                old_slots[i].1,
                new_slots[i].1,
                outputs[i],
                outputs[i + 1],
                channels,
            );
        }
    }
    assert(outputs.last() == after);
}

/// Up to any buffer, a chain keeps the length of the output.
proof fn lemma_chain_keeps_length<T, F: Fn(T, u32, u32) -> T>(
    blend: F,
    old_slots: Seq<(Seq<char>, Buffer)>,
    new_slots: Seq<(Seq<char>, Buffer)>,
    outputs: Seq<Seq<T>>,
    channels: int,
    n: int,
)
    requires
        mix_chain(blend, old_slots, new_slots, outputs, channels),
        0 <= n <= old_slots.len(),
    ensures
        forall|i: int| 0 <= i <= n ==> (#[trigger] outputs[i]).len() == outputs[0].len(),
    decreases n,
{
    if n > 0 {
        lemma_chain_keeps_length(blend, old_slots, new_slots, outputs, channels, n - 1);
        assert(slot_step(
            blend,
            old_slots[n - 1],
            new_slots[n - 1],
            outputs[n - 1],
            outputs[n - 1 + 1],
            channels,
        ));
    }
}

/// Between two places of a chain, no buffer from the one to the other being active, nothing changes.
proof fn lemma_idle_part<T, F: Fn(T, u32, u32) -> T>(
    blend: F,
    old_slots: Seq<(Seq<char>, Buffer)>,
    new_slots: Seq<(Seq<char>, Buffer)>,
    outputs: Seq<Seq<T>>,
    channels: int,
    from: int,
    to: int,
)
    requires
        mix_chain(blend, old_slots, new_slots, outputs, channels),
        0 <= from <= to <= old_slots.len(),
        forall|i: int| from <= i < to ==> !(#[trigger] old_slots[i]).1.active,
    ensures
        outputs[to] == outputs[from],
    decreases to,
{
    if from < to {
        lemma_idle_part(blend, old_slots, new_slots, outputs, channels, from, to - 1);
        assert(slot_step(
            blend,
            old_slots[to - 1],
            new_slots[to - 1],
            outputs[to - 1],
            outputs[to - 1 + 1],
            channels,
        ));
    }
}

/// Where one buffer alone is active, the round is its mix, whatever its name and its place: each frame
/// of the output, as long as the ring has samples, is combined on every channel with the next sample
/// of the ring under the buffer's gain, and the rest of the output stays.
pub proof fn lemma_lone_buffer_is_heard<T, F: Fn(T, u32, u32) -> T>(
    blend: F,
    old_slots: Seq<(Seq<char>, Buffer)>,
    new_slots: Seq<(Seq<char>, Buffer)>,
    before: Seq<T>,
    after: Seq<T>,
    channels: int,
    i: int,
)
    requires
        mix_round(blend, old_slots, new_slots, before, after, channels),
        channels > 0,
        0 <= i < old_slots.len(),
        old_slots[i].1.active,
        forall|j: int|
            0 <= j < old_slots.len() && j != i ==> !(#[trigger] old_slots[j]).1.active,
    ensures
        new_slots.len() == old_slots.len(),
        mix_step(blend, old_slots[i].1, new_slots[i].1, before, after, channels),
        ({
            let ring = new_slots[i].1.ring;
            let at = popped(old_slots[i].1.ring).len() as int;
            let n = popped(ring).len() - at;
            let frames = before.len() as int / channels;
            let load = load_seen(ring).last();
            &&& load_seen(ring) == load_seen(old_slots[i].1.ring).push(load)
            &&& n == if frames <= load {
                frames
            } else {
                load as int
            }
            &&& after.len() == before.len()
            &&& forall|k: int|
                0 <= k < n * channels ==> call_ensures(
                    blend,
                    (before[k], popped(ring)[at + k / channels], old_slots[i].1.gain),
                    #[trigger] after[k],
                )
            &&& forall|k: int|
                n * channels <= k < before.len() ==> #[trigger] after[k] == before[k]
        }),
{
    let outputs = choose|outputs: Seq<Seq<T>>|
        {
            &&& #[trigger] mix_chain(blend, old_slots, new_slots, outputs, channels)
            &&& outputs[0] == before
            &&& outputs.last() == after
        };
    lemma_idle_part(blend, old_slots, new_slots, outputs, channels, 0, i);
    lemma_idle_part(
        blend,
        old_slots,
        new_slots,
        outputs,
        channels,
        i + 1,
        old_slots.len() as int,
    );
    assert(slot_step(blend, old_slots[i], new_slots[i], outputs[i], outputs[i + 1], channels));
    lemma_mix_step(blend, old_slots[i].1, new_slots[i].1, before, after, channels);
}

/// A round in which no buffer is active changes neither the buffers nor the output.
pub proof fn lemma_idle_round<T, F: Fn(T, u32, u32) -> T>(
    blend: F,
    old_slots: Seq<(Seq<char>, Buffer)>,
    new_slots: Seq<(Seq<char>, Buffer)>,
    before: Seq<T>,
    after: Seq<T>,
    channels: int,
)
    requires
        mix_round(blend, old_slots, new_slots, before, after, channels),
        !some_active(old_slots),
    ensures
        new_slots == old_slots,
        after == before,
{
    let outputs = choose|outputs: Seq<Seq<T>>|
        {
            &&& #[trigger] mix_chain(blend, old_slots, new_slots, outputs, channels)
            &&& outputs[0] == before
            &&& outputs.last() == after
        };
    lemma_idle_chain(blend, old_slots, new_slots, outputs, channels, old_slots.len() as int);
    assert(new_slots =~= old_slots);
}

/// Up to any buffer, a chain in which no buffer is active changes nothing.
proof fn lemma_idle_chain<T, F: Fn(T, u32, u32) -> T>(
    blend: F,
    old_slots: Seq<(Seq<char>, Buffer)>,
    new_slots: Seq<(Seq<char>, Buffer)>,
    outputs: Seq<Seq<T>>,
    channels: int,
    n: int,
)
    requires
        mix_chain(blend, old_slots, new_slots, outputs, channels),
        !some_active(old_slots),
        0 <= n <= old_slots.len(),
    ensures
        outputs[n] == outputs[0],
        forall|i: int| 0 <= i < n ==> #[trigger] new_slots[i] == old_slots[i],
    decreases n,
{
    if n > 0 {
        lemma_idle_chain(blend, old_slots, new_slots, outputs, channels, n - 1);
        assert(!old_slots[n - 1].1.active);
        assert(slot_step(
            blend,
            old_slots[n - 1],
            new_slots[n - 1],
            outputs[n - 1],
            outputs[n - 1 + 1],
            channels,
        ));
    }
}

/// A playback that is to be started.
pub struct Job<'a> {
    /// The command that asked for it.
    pub command: Command,
    /// The track.
    pub track: Arc<Track>,
    /// The arguments of the command.
    pub args: VecDeque<&'a str>,
    /// The half of the ring that the samples go through.
    pub prod: Producer,
}

/// What came of a command line.
pub enum Launch<'a> {
    /// The line names no command.
    Ignored,
    /// The line names a track that is not loaded.
    UnknownTrack(&'a str),
    /// A buffer waits for the samples of a playback.
    Started(Job<'a>),
}

/// A playback was asked to start past the end of its track.
#[derive(Clone, Copy, Debug, PartialEq, Eq, Structural)]
pub struct OutOfRange {
    /// The frame that was asked for.
    pub start_frame: usize,
}

/// The buffers of an engine and their names are all that it holds, in their order, and an engine is
/// well formed exactly where no two of them have one name.
pub proof fn lemma_slots(engine: Engine)
    ensures
        engine.slots().len() == engine.buffers@.len(),
        forall|i: int|
            0 <= i < engine.buffers@.len() ==> (#[trigger] engine.slots()[i]).0
                == engine.buffers@[i].name@ && engine.slots()[i].1 == engine.buffers@[i].buffer,
        engine.wf() <==> forall|i: int, j: int|
            0 <= i < j < engine.buffers@.len() ==> (#[trigger] engine.buffers@[i]).name@ != (
            #[trigger] engine.buffers@[j]).name@,
{
    if engine.wf() {
        assert forall|i: int, j: int| 0 <= i < j < engine.buffers@.len() implies (
        #[trigger] engine.buffers@[i]).name@ != (#[trigger] engine.buffers@[j]).name@ by {
            assert(engine.slots()[i].0 != engine.slots()[j].0);
        }
    }
}

impl Engine {
    /// The buffers and their names.
    pub open spec fn slots(self) -> Seq<(Seq<char>, Buffer)> {
        Seq::new(self.buffers@.len(), |i: int| (self.buffers@[i].name@, self.buffers@[i].buffer))
    }

    /// No two buffers have one name.
    pub open spec fn wf(self) -> bool {
        distinct(self.slots())
    }

    /// An engine that has tracks and mixes nothing yet.
    pub fn new(channels: usize, tracks: TrackTable) -> (engine: Self)
        ensures
            engine.wf(),
            engine.slots() == Seq::<(Seq<char>, Buffer)>::empty(),
            engine.buffers@.len() == 0,
            engine.tracks == tracks,
            engine.channels == channels,
    {
        let engine = Engine { buffers: Vec::new(), tracks, channels };
        assert(engine.slots() =~= Seq::empty());
        engine
    }

    /// Mixes one round: every active buffer gives at most one sample to each frame of `output`,
    /// combined with it by `blend`, and is not active any more.
    pub fn process<T: Copy, F: Fn(T, u32, u32) -> T>(&mut self, output: &mut [T], blend: &F)
        requires
            old(self).channels > 0 || !some_active(old(self).slots()),
            forall|value: T, sample: u32, gain: u32| call_requires(*blend, (value, sample, gain)),
        ensures
            mix_round(
                *blend,
                old(self).slots(),
                final(self).slots(),
                old(output)@,
                final(output)@,
                old(self).channels as int,
            ),
            final(output)@.len() == old(output)@.len(),
            final(self).buffers@.len() == old(self).buffers@.len(),
            forall|i: int|
                #![trigger final(self).buffers@[i]]
                0 <= i < old(self).buffers@.len() ==> {
                    let was = old(self).buffers@[i];
                    let now = final(self).buffers@[i];
                    let n = popped(now.buffer.ring).len() - popped(was.buffer.ring).len();
                    let frames = old(output)@.len() as int / old(self).channels as int;
                    let load = load_seen(now.buffer.ring).last();
                    &&& now.name@ == was.name@
                    &&& now.buffer.gain == was.buffer.gain
                    &&& !now.buffer.active
                    &&& !was.buffer.active ==> now.buffer == was.buffer
                    &&& was.buffer.active ==> {
                        &&& popped(was.buffer.ring).is_prefix_of(popped(now.buffer.ring))
                        &&& load_seen(now.buffer.ring) == load_seen(was.buffer.ring).push(load)
                        &&& n == if frames <= load {
                            frames
                        } else {
                            load as int
                        }
                    }
                },
            !some_active(final(self).slots()),
            final(self).tracks == old(self).tracks,
            final(self).channels == old(self).channels,
            old(self).wf() ==> final(self).wf(),
    {
        let ghost old_slots = self.slots();
        let ghost mut outputs: Seq<Seq<T>> = seq![output@];
        let mut i: usize = 0;
        while i < self.buffers.len()
            invariant
                0 <= i <= self.buffers@.len(),
                self.buffers@.len() == old_slots.len(),
                old_slots == old(self).slots(),
                self.channels == old(self).channels,
                self.tracks == old(self).tracks,
                self.channels > 0 || !some_active(old_slots),
                forall|value: T, sample: u32, gain: u32|
                    call_requires(*blend, (value, sample, gain)),
                outputs.len() == i + 1,
                outputs[0] == old(output)@,
                outputs[i as int] == output@,
                output@.len() == old(output)@.len(),
                forall|k: int|
                    0 <= k < i ==> slot_step(
                        *blend,
                        #[trigger] old_slots[k],
                        self.slots()[k],
                        outputs[k],
                        outputs[k + 1],
                        self.channels as int,
                    ),
                forall|k: int| 0 <= k < i ==> !(#[trigger] self.slots()[k]).1.active,
                forall|k: int| i <= k < old_slots.len() ==> #[trigger] self.slots()[k]
                    == old_slots[k],
            decreases self.buffers@.len() - i,
        {
            let ghost before = self.slots();
            assert(before[i as int] == old_slots[i as int]);
            if self.buffers[i].buffer.active {
                assert(old_slots[i as int].1.active);
                let channels: usize = self.channels;
                self.buffers[i].buffer.mix_into(output, channels, blend);
                self.buffers[i].buffer.active = false;
            }
            proof {
                outputs = outputs.push(output@);
                let after = self.slots();
                assert forall|k: int| 0 <= k < old_slots.len() && k != i implies #[trigger] after[k]
                    == before[k] by {}
            }
            i = i + 1;
        }
        proof {
            let round = self.slots();
            assert(mix_chain(*blend, old_slots, round, outputs, self.channels as int));
            lemma_chain_keeps_length(
                *blend,
                old_slots,
                round,
                outputs,
                self.channels as int,
                old_slots.len() as int,
            );
            assert forall|k: int| 0 <= k < old_slots.len() implies {
                let was = old(self).buffers@[k];
                let now = #[trigger] self.buffers@[k];
                let n = popped(now.buffer.ring).len() - popped(was.buffer.ring).len();
                let frames = old(output)@.len() as int / old(self).channels as int;
                let load = load_seen(now.buffer.ring).last();
                &&& now.name@ == was.name@
                &&& now.buffer.gain == was.buffer.gain
                &&& !now.buffer.active
                &&& !was.buffer.active ==> now.buffer == was.buffer
                &&& was.buffer.active ==> {
                    &&& popped(was.buffer.ring).is_prefix_of(popped(now.buffer.ring))
                    &&& load_seen(now.buffer.ring) == load_seen(was.buffer.ring).push(load)
                    &&& n == if frames <= load {
                        frames
                    } else {
                        load as int
                    }
                }
            } by {
                assert(old_slots[k].1 == old(self).buffers@[k].buffer);
                assert(round[k].1 == self.buffers@[k].buffer);
                assert(outputs[k].len() == outputs[0].len());
                if old_slots[k].1.active {
                    lemma_mix_step(
                        *blend,
                        old_slots[k].1,
                        round[k].1,
                        outputs[k],
                        outputs[k + 1],
                        self.channels as int,
                    );
                }
            }
            assert forall|a: int, b: int|
                old(self).wf() && 0 <= a < b < self.slots().len() implies (
            #[trigger] self.slots()[a]).0 != (#[trigger] self.slots()[b]).0 by {
                assert(old_slots[a].0 != old_slots[b].0);
            }
        }
    }

    /// Fills a block of output: mixes one round into each of its frames of `width` values, first to
    /// last; the last one may be shorter. As a round leaves no buffer active, what the later frames
    /// get is what they had.
    pub fn render<T: Copy, F: Fn(T, u32, u32) -> T>(
        &mut self,
        data: &mut [T],
        width: usize,
        blend: &F,
    )
        requires
            width > 0,
            old(self).channels > 0 || !some_active(old(self).slots()),
            forall|value: T, sample: u32, gain: u32| call_requires(*blend, (value, sample, gain)),
        ensures
            ({
                let first = if old(data)@.len() < width {
                    old(data)@.len() as int
                } else {
                    width as int
                };
                &&& final(data)@.len() == old(data)@.len()
                &&& final(data)@.skip(first) == old(data)@.skip(first)
                &&& if old(data)@.len() == 0 {
                    final(self).slots() == old(self).slots()
                } else {
                    &&& mix_round(
                        *blend,
                        old(self).slots(),
                        final(self).slots(),
                        old(data)@.take(first),
                        final(data)@.take(first),
                        old(self).channels as int,
                    )
                    &&& !some_active(final(self).slots())
                }
            }),
            final(self).tracks == old(self).tracks,
            final(self).channels == old(self).channels,
            old(self).wf() ==> final(self).wf(),
    {
        let ghost whole = data@;
        let ghost first = if whole.len() < width {
            whole.len() as int
        } else {
            width as int
        };
        let ghost mut done: Seq<T> = Seq::empty();
        let mut rest: &mut [T] = data;
        while rest.len() > 0
            invariant
                width > 0,
                self.channels == old(self).channels,
                self.tracks == old(self).tracks,
                self.channels > 0 || !some_active(self.slots()),
                old(self).wf() ==> self.wf(),
                forall|value: T, sample: u32, gain: u32|
                    call_requires(*blend, (value, sample, gain)),
                whole == old(data)@,
                first == if whole.len() < width {
                    whole.len() as int
                } else {
                    width as int
                },
                after_borrow(data)@ == done + final(rest)@,
                done.len() + rest@.len() == whole.len(),
                rest@ == whole.skip(done.len() as int),
                done.len() == 0 ==> self.slots() == old(self).slots(),
                done.len() > 0 ==> {
                    &&& first <= done.len()
                    &&& done.skip(first) == whole.subrange(first, done.len() as int)
                    &&& mix_round(
                        *blend,
                        old(self).slots(),
                        self.slots(),
                        whole.take(first),
                        done.take(first),
                        self.channels as int,
                    )
                    &&& !some_active(self.slots())
                },
            decreases rest@.len(),
        {
            let size: usize = rest.len();
            let step: usize = if size < width {
                size
            } else {
                width
            };
            let ghost slots = self.slots();
            let ghost had = rest@.take(step as int);
            let current: &mut [T] = rest;
            let (frame, tail) = current.split_at_mut(step);
            self.process(frame, blend);
            proof {
                let got = frame@;
                let next = done + got;
                if done.len() == 0 {
                    assert(next.take(first) =~= got);
                    assert(had =~= whole.take(first));
                    assert(next.skip(first) =~= whole.subrange(first, next.len() as int));
                } else {
                    lemma_idle_round(
                        *blend,
                        slots,
                        self.slots(),
                        had,
                        got,
                        self.channels as int,
                    );
                    assert(next.take(first) =~= done.take(first));
                    assert(next.skip(first) =~= whole.subrange(first, next.len() as int));
                }
                done = next;
            }
            rest = tail;
        }
        proof {
            assert(data@ =~= done);
        }
    }

    /// Puts a buffer under a name; the one that had the name before is gone.
    fn put_buffer(&mut self, name: String, buffer: Buffer)
        ensures
            final(self).slots() == put(old(self).slots(), name@, buffer),
            final(self).tracks == old(self).tracks,
            final(self).channels == old(self).channels,
    {
        let ghost slots = self.slots();
        let mut i: usize = 0;
        while i < self.buffers.len() && !same_text(self.buffers[i].name.as_str(), name.as_str())
            invariant
                0 <= i <= self.buffers@.len(),
                *self == *old(self),
                slots == self.slots(),
                forall|k: int| 0 <= k < i ==> (#[trigger] slots[k]).0 != name@,
            decreases self.buffers@.len() - i,
        {
            assert(slots[i as int].0 == self.buffers@[i as int].name@);
            i = i + 1;
        }
        proof {
            if i < self.buffers@.len() {
                assert(slots[i as int].0 == self.buffers@[i as int].name@);
            }
            lemma_place_is(slots, name@, i as int);
        }
        if i < self.buffers.len() {
            self.buffers[i].buffer = buffer;
        } else {
            self.buffers.push(Slot { name, buffer });
        }
        assert(self.slots() =~= put(slots, name@, buffer));
    }

    /// Prepares the playback that a command line asks for: a new ring of which the buffer that the
    /// line names mixes one half, and the playback is to feed the other.
    pub fn spawn_worker<'a>(&mut self, cmd: &'a str) -> (launch: Launch<'a>)
        ensures
            ({
                let known = command_named(line_name(cmd@));
                let asked = words(line_args(cmd@));
                match launch {
                    Launch::Ignored => known is None && *final(self) == *old(self),
                    Launch::UnknownTrack(name) => {
                        &&& known is Some
                        &&& name@ == asked_track(asked)
                        &&& !old(self).tracks@.contains_key(asked_track(asked))
                        &&& *final(self) == *old(self)
                    },
                    Launch::Started(job) => {
                        let at = place(old(self).slots(), asked_buffer(asked));
                        let buffer = final(self).slots()[at].1;
                        &&& known == Some(job.command)
                        &&& old(self).tracks@.contains_key(asked_track(asked))
                        &&& job.track@ == old(self).tracks@[asked_track(asked)]@
                        &&& job.track.samples@ == old(self).tracks@[asked_track(asked)].samples@
                        &&& buffer.active
                        &&& buffer.gain == 0x3f80_0000
                        &&& stream_out(buffer.ring) == stream_in(job.prod)
                        &&& pushed(job.prod).len() == 0
                        &&& popped(buffer.ring).len() == 0
                        &&& texts(job.args@) == asked_args(asked)
                        &&& final(self).slots() == put(
                            old(self).slots(),
                            asked_buffer(asked),
                            buffer,
                        )
                        &&& fresh(buffer, job.prod)
                        &&& final(self).tracks == old(self).tracks
                        &&& final(self).channels == old(self).channels
                    },
                }
            }),
            old(self).wf() ==> final(self).wf(),
    {
        let request = match read_request(cmd) {
            Some(request) => request,
            None => {
                return Launch::Ignored;
            },
        };
        let track: Arc<Track> = match self.tracks.get(request.track) {
            Some(track) => Arc::new(track.clone()),
            None => {
                return Launch::UnknownTrack(request.track);
            },
        };
        let (prod, cons) = new_ring();
        let buffer = Buffer::new(cons);
        proof {
            let name = request.buffer@;
            lemma_place(self.slots(), name);
            lemma_put(self.slots(), name, buffer, name);
        }
        self.put_buffer(request.buffer.to_owned(), buffer);
        Launch::Started(Job { command: request.command, track, args: request.args, prod })
    }

    /// Takes the first argument and reads it as a number; `or_val` where there is none or it is no
    /// number.
    pub fn args_pop_front(args: &mut VecDeque<&str>, or_val: usize) -> (value: usize)
        ensures
            old(args)@.len() == 0 ==> value == or_val && final(args)@ == old(args)@,
            old(args)@.len() > 0 ==> value == number_or(old(args)@[0]@, or_val as int)
                && final(args)@ == old(args)@.skip(1),
            old(args)@.len() > 0 ==> match number(old(args)@[0]@) {
                Some(written) => value == written,
                None => value == or_val,
            },
    {
        match args.pop_front() {
            Some(word) => {
                assert(args@ =~= old(args)@.skip(1));
                match parse_usize(word) {
                    Some(value) => value,
                    None => or_val,
                }
            },
            None => or_val,
        }
    }

    /// Whether [`Engine::Play`] can be asked to play these arguments of this track.
    pub fn can_play(track: &Track, args: &VecDeque<&str>) -> (can: bool)
        ensures
            can == playable(track@, texts(args@)),
            ({
                let total = track.total_frames as int;
                let start = if args@.len() > 0 && number(args@[0]@) is Some {
                    number(args@[0]@)->0 as int
                } else {
                    0
                };
                let wanted = if args@.len() <= 1 {
                    start + total
                } else if number(args@[1]@) is Some {
                    start + number(args@[1]@)->0
                } else {
                    total
                };
                let end = if wanted <= total {
                    wanted
                } else {
                    total
                };
                can <==> start >= total || wanted <= usize::MAX && end * track.channels
                    <= track.samples@.len()
            }),
    {
        proof {
            lemma_selection(track@, texts(args@));
        }
        let total: usize = track.total_frames;
        let mut start: usize = 0;
        if args.len() > 0 {
            match parse_usize(args[0]) {
                Some(value) => {
                    start = value;
                },
                None => {},
            }
        }
        assert(start == start_frame(texts(args@)));
        if start >= total {
            return true;
        }
        let mut count: usize = total;
        if args.len() > 1 {
            count =
            match parse_usize(args[1]) {
                Some(value) => value,
                None => total - start,
            };
        }
        assert(count == frame_count(total as int, texts(args@)));
        if count > usize::MAX - start {
            return false;
        }
        let end: usize = if start + count <= total {
            start + count
        } else {
            total
        };
        assert(track.samples@.len() == track.samples.len());
        match end.checked_mul(track.channels) {
            Some(last) => last <= track.samples.len(),
            None => false,
        }
    }

    /// Starts to play a track: picks the samples that the arguments select and puts them in front
    /// of the ring. The first argument is the frame to start at, by default the track's first one;
    /// the second is the number of frames, by default as many as there are. Where the start lies past
    /// the track's end, the ring ends with nothing more put into it.
    #[allow(non_snake_case)]
    pub fn Play(track: Arc<Track>, args: VecDeque<&str>, prod: Producer) -> (playback: Result<
        Playback,
        OutOfRange,
    >)
        requires
            playable(track@, texts(args@)),
        ensures
            playback is Ok <==> in_range(track@, texts(args@)),
            playback matches Ok(p) ==> {
                &&& p.wf()
                &&& p.chunk() == selection(track@, texts(args@))
                &&& p.written() == 0
                &&& p.half() == prod
            },
            playback matches Err(e) ==> {
                &&& e.start_frame == start_frame(texts(args@))
                &&& stream_in(prod) == pushed(prod)
            },
            ({
                let total = track.total_frames as int;
                let start = if args@.len() > 0 && number(args@[0]@) is Some {
                    number(args@[0]@)->0 as int
                } else {
                    0
                };
                let wanted = if args@.len() <= 1 {
                    start + total
                } else if number(args@[1]@) is Some {
                    start + number(args@[1]@)->0
                } else {
                    total
                };
                let end = if wanted <= total {
                    wanted
                } else {
                    total
                };
                match playback {
                    Ok(p) => {
                        &&& start < total
                        &&& p.chunk().len() == (end - start) * track.channels
                        &&& forall|k: int|
                            0 <= k < (end - start) * track.channels ==> #[trigger] p.chunk()[k]
                                == track.samples@[start * track.channels + k]
                    },
                    Err(e) => start >= total && e.start_frame == start,
                }
            }),
    {
        proof {
            lemma_selection(track@, texts(args@));
        }
        let ghost words = texts(args@);
        let ghost given = args@;
        let mut args = args;
        let mut start: usize = 0;
        let mut count: usize = track.total_frames;
        if args.len() > 0 {
            start = Engine::args_pop_front(&mut args, 0);
        }
        assert(start == start_frame(words));
        if args.len() > 0 {
            let rest: usize = if start <= track.total_frames {
                track.total_frames - start
            } else {
                0
            };
            assert(args@[0] == given[1]);
            count = Engine::args_pop_front(&mut args, rest);
        }
        if start >= track.total_frames {
            close(prod);
            return Err(OutOfRange { start_frame: start });
        }
        assert(count == frame_count(track.total_frames as int, words));
        let end: usize = if start + count <= track.total_frames {
            start + count
        } else {
            track.total_frames
        };
        proof {
            assert(end == end_frame(track.total_frames as int, words));
            lemma_frames_in_order(start as int, end as int, track.channels as int);
            assert(track.samples@.len() == track.samples.len());
        }
        let from: usize = start * track.channels;
        let to: usize = end * track.channels;
        Ok(Playback::new(track, from, to, prod))
    }
}

} // verus!
