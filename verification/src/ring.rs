//! The ring of samples between a playback, which puts samples in, and the mixer, which takes them
//! out. The two halves live in different threads.

use ringbuf::storage::Heap;
use ringbuf::traits::{Consumer as _, Observer as _, Producer as _, Split};
use ringbuf::{HeapCons, HeapProd, SharedRb};
use vstd::prelude::*;

verus! {

/// The number of samples that the ring of a playback holds.
pub const RING_CAPACITY: usize = 4096;

/// The half of a ring through which samples are put in.
#[verifier::external_body]
pub struct Producer {
    inner: HeapProd<u32>,
}

/// The half of a ring through which samples are taken out.
#[verifier::external_body]
pub struct Consumer {
    inner: HeapCons<u32>,
}

/// The samples that this half has put into its ring so far, first to last.
pub uninterp spec fn pushed(prod: Producer) -> Seq<u32>;

/// The samples that this half has taken out of its ring so far, first to last.
pub uninterp spec fn popped(cons: Consumer) -> Seq<u32>;

/// The number of samples that the ring of this half was made to hold.
pub uninterp spec fn capacity(prod: Producer) -> nat;

/// The number of samples that the ring of this half was made to hold, as the consuming half knows
/// it.
pub uninterp spec fn holds(cons: Consumer) -> nat;

/// For each time that this half was asked to put samples in: how many more the ring was found to
/// have room for.
pub uninterp spec fn room_seen(prod: Producer) -> Seq<nat>;

/// For each time that this half was asked to take samples out: how many the ring was found to hold.
pub uninterp spec fn load_seen(cons: Consumer) -> Seq<nat>;

/// How much room there was in the ring after this half last put samples in; all of the ring before
/// it ever did.
pub uninterp spec fn spare(prod: Producer) -> nat;

/// How many samples there were in the ring after this half last took samples out; none before it
/// ever did.
pub uninterp spec fn remaining(cons: Consumer) -> nat;

/// The samples that go into the ring of this half over the ring's whole life, first to last: those
/// of the past and those still to come. It never changes; what was put in so far is its beginning.
pub uninterp spec fn stream_in(prod: Producer) -> Seq<u32>;

/// The samples that go into the ring of this half over the ring's whole life, as the consuming half
/// knows it: what was taken out so far is its beginning.
pub uninterp spec fn stream_out(cons: Consumer) -> Seq<u32>;

/// The lesser of two numbers.
pub open spec fn lesser(a: nat, b: nat) -> nat {
    if a <= b {
        a
    } else {
        b
    }
}

/// `ringbuf::SharedRb::new` followed by `ringbuf::traits::Split::split`: an empty ring for
/// `capacity` samples, as its two halves. `new` panics where the capacity is zero or cannot be
/// allocated.
///
/// Trusted: nothing has gone in or come out, the ring holds as many samples as asked for, and the
/// two halves are of one ring, so one stream passes through both.
#[verifier::external_body]
pub(crate) fn shared_ring(size: usize) -> (halves: (Producer, Consumer))
    requires
        0 < size <= 0x100_0000,
    ensures
        pushed(halves.0) == Seq::<u32>::empty(),
        popped(halves.1) == Seq::<u32>::empty(),
        room_seen(halves.0) == Seq::<nat>::empty(),
        load_seen(halves.1) == Seq::<nat>::empty(),
        capacity(halves.0) == size,
        holds(halves.1) == size,
        spare(halves.0) == size,
        remaining(halves.1) == 0,
        stream_in(halves.0) == stream_out(halves.1),
{
    let (prod, cons) = SharedRb::<Heap<u32>>::new(size).split();
    (Producer { inner: prod }, Consumer { inner: cons })
}

/// `ringbuf::traits::Producer::push_slice`: puts samples into the ring until the slice or the room
/// in the ring ends, and returns how many went in.
///
/// Trusted: as much of the beginning of the slice goes in, in order, as the ring is found to have
/// room for. There is never more room than the capacity, nor less than what of it has not been
/// used yet, nor less than was left the last time: only this half takes room away. How much of what
/// was put in the other half has taken out by then is up to the other half, and so is the room that
/// is found.
#[verifier::external_body]
pub(crate) fn push_slice(prod: &mut Producer, samples: &[u32]) -> (n: usize)
    ensures
        room_seen(*final(prod)).len() == room_seen(*old(prod)).len() + 1,
        room_seen(*final(prod)).drop_last() == room_seen(*old(prod)),
        room_seen(*final(prod)).last() <= capacity(*old(prod)),
        room_seen(*final(prod)).last() + pushed(*old(prod)).len() >= capacity(*old(prod)),
        room_seen(*final(prod)).last() >= spare(*old(prod)),
        n == lesser(samples@.len(), room_seen(*final(prod)).last()),
        spare(*final(prod)) == room_seen(*final(prod)).last() - n,
        pushed(*final(prod)) == pushed(*old(prod)) + samples@.take(n as int),
        capacity(*final(prod)) == capacity(*old(prod)),
        stream_in(*final(prod)) == stream_in(*old(prod)),
        pushed(*final(prod)).is_prefix_of(stream_in(*final(prod))),
{
    prod.inner.push_slice(samples)
}

/// `ringbuf::traits::Consumer::pop_slice`: takes samples out of the ring, writes them to the
/// beginning of `out`, and returns how many there were.
///
/// Trusted: as many samples come out as `out` has places and the ring is found to hold; they go to
/// the beginning of `out`, and the rest of `out` stays. Samples come out in the order in which the
/// other half put them in, none left out and none twice. The ring is never found to hold more than
/// its capacity, nor more than goes into it, nor less than was left the last time: only this half
/// takes samples out. How many the other half has put in by then is up to the other half, and so is
/// what the ring is found to hold.
#[verifier::external_body]
pub(crate) fn pop_slice(cons: &mut Consumer, out: &mut [u32]) -> (n: usize)
    ensures
        load_seen(*final(cons)).len() == load_seen(*old(cons)).len() + 1,
        load_seen(*final(cons)).drop_last() == load_seen(*old(cons)),
        load_seen(*final(cons)).last() <= holds(*old(cons)),
        popped(*old(cons)).len() + load_seen(*final(cons)).last() <= stream_out(*old(cons)).len(),
        load_seen(*final(cons)).last() >= remaining(*old(cons)),
        holds(*final(cons)) == holds(*old(cons)),
        n == lesser(old(out)@.len(), load_seen(*final(cons)).last()),
        remaining(*final(cons)) == load_seen(*final(cons)).last() - n,
        final(out)@.len() == old(out)@.len(),
        final(out)@.skip(n as int) == old(out)@.skip(n as int),
        popped(*final(cons)) == popped(*old(cons)) + final(out)@.take(n as int),
        stream_out(*final(cons)) == stream_out(*old(cons)),
        popped(*final(cons)).is_prefix_of(stream_out(*final(cons))),
{
    cons.inner.pop_slice(out)
}

/// Drops a `ringbuf::HeapProd`, which gives up its hold on the ring, and asks a
/// `ringbuf::wrap::direct::Obs` of that ring, by `ringbuf::traits::Observer::write_is_held`, whether
/// a producing half still holds it.
///
/// Trusted: none does. A ring has one producing half and gets no other, so a ring that none holds has
/// been given all that ever goes into it: what this half has put in.
#[verifier::external_body]
pub(crate) fn close(prod: Producer) -> (held: bool)
    ensures
        !held,
        !held ==> stream_in(prod) == pushed(prod),
{
    let observer = prod.inner.observe();
    drop(prod.inner);
    observer.write_is_held()
}

/// A new ring of [`RING_CAPACITY`] samples, with nothing in it.
pub fn new_ring() -> (halves: (Producer, Consumer))
    ensures
        pushed(halves.0) == Seq::<u32>::empty(),
        popped(halves.1) == Seq::<u32>::empty(),
        room_seen(halves.0) == Seq::<nat>::empty(),
        load_seen(halves.1) == Seq::<nat>::empty(),
        capacity(halves.0) == RING_CAPACITY,
        holds(halves.1) == RING_CAPACITY,
        capacity(halves.0) == 4096,
        holds(halves.1) == 4096,
        spare(halves.0) == RING_CAPACITY,
        remaining(halves.1) == 0,
        stream_in(halves.0) == stream_out(halves.1),
{
    shared_ring(RING_CAPACITY)
}

/// The lesser of two numbers is one of them, and neither is less.
pub proof fn lemma_lesser(a: nat, b: nat)
    ensures
        lesser(a, b) <= a,
        lesser(a, b) <= b,
        lesser(a, b) == a || lesser(a, b) == b,
{
}

/// First in, first out: whatever the two halves of a ring have done so far, the sample that came
/// out at a place is the sample that went in at that place.
pub proof fn lemma_first_in_first_out(prod: Producer, cons: Consumer, k: int)
    requires
        stream_in(prod) == stream_out(cons),
        pushed(prod).is_prefix_of(stream_in(prod)),
        popped(cons).is_prefix_of(stream_out(cons)),
        0 <= k < pushed(prod).len(),
        k < popped(cons).len(),
    ensures
        popped(cons)[k] == pushed(prod)[k],
{
}

/// Nothing but what went in comes out: once the producing half has ended, what the consuming half
/// has taken out, at any time, is a beginning of what was put in.
pub proof fn lemma_nothing_else_comes_out(prod: Producer, cons: Consumer)
    requires
        stream_in(prod) == stream_out(cons),
        stream_in(prod) == pushed(prod),
        popped(cons).is_prefix_of(stream_out(cons)),
    ensures
        popped(cons).is_prefix_of(pushed(prod)),
{
}

} // verus!
