//! Loaded tracks.

use crate::wav::WavSpec;
use vstd::hash_map::StringHashMap;
use vstd::prelude::*;

verus! {

/// A track in memory.
pub struct Track {
    /// Where the track was loaded from; also its name.
    pub path: String,
    /// The number of channels.
    pub channels: usize,
    /// The samples of all channels, interleaved, as the bit patterns of floats.
    pub samples: Vec<u32>,
    /// The number of samples of one channel.
    pub total_frames: usize,
    /// The rate at which the track was recorded.
    pub sample_rate: usize,
}

/// What there is to say of a track.
pub struct TrackView {
    /// Where the track was loaded from.
    pub path: Seq<char>,
    /// The number of channels.
    pub channels: usize,
    /// The samples of all channels, interleaved.
    pub samples: Seq<u32>,
    /// The number of samples of one channel.
    pub total_frames: usize,
    /// The rate at which the track was recorded.
    pub sample_rate: usize,
}

impl View for Track {
    type V = TrackView;

    open spec fn view(&self) -> TrackView {
        TrackView {
            path: self.path@,
            channels: self.channels,
            samples: self.samples@,
            total_frames: self.total_frames,
            sample_rate: self.sample_rate,
        }
    }
}

impl Clone for Track {
    fn clone(&self) -> (copy: Self)
        ensures
            copy@ == self@,
            copy.path@ == self.path@,
            copy.channels == self.channels,
            copy.samples@ == self.samples@,
            copy.total_frames == self.total_frames,
            copy.sample_rate == self.sample_rate,
    {
        let samples = self.samples.clone();
        assert(samples@ =~= self.samples@);
        Track {
            path: self.path.clone(),
            channels: self.channels,
            samples,
            total_frames: self.total_frames,
            sample_rate: self.sample_rate,
        }
    }
}

/// What there is to say of a track is all that it holds: tracks of which the same is said have the
/// same path, the same samples and the same numbers.
pub proof fn lemma_view_is_all(a: Track, b: Track)
    ensures
        a@ == b@ <==> {
            &&& a.path@ == b.path@
            &&& a.channels == b.channels
            &&& a.samples@ == b.samples@
            &&& a.total_frames == b.total_frames
            &&& a.sample_rate == b.sample_rate
        },
        a@.path == a.path@,
        a@.channels == a.channels,
        a@.samples == a.samples@,
        a@.total_frames == a.total_frames,
        a@.sample_rate == a.sample_rate,
{
}

impl TrackView {
    /// Every frame that the track says it has is there, on every channel.
    pub open spec fn wf(self) -> bool {
        &&& self.channels > 0
        &&& self.total_frames == self.samples.len() as int / self.channels as int
    }
}

impl Track {
    /// A track of the samples that were read from `path`, which `wav` describes. The samples may
    /// have been brought to another rate; the track keeps the rate of the recording.
    pub fn new(path: &String, wav: WavSpec, samples: Vec<u32>) -> (track: Self)
        requires
            wav.channels > 0,
        ensures
            track@.wf(),
            track.path@ == path@,
            track.channels == wav.channels,
            track.samples == samples,
            track.total_frames == samples@.len() as int / wav.channels as int,
            track.sample_rate == wav.sample_rate,
    {
        let channels: usize = wav.channels as usize;
        let total_frames: usize = samples.len() / channels;
        Track {
            path: path.clone(),
            channels,
            samples,
            total_frames,
            sample_rate: wav.sample_rate as usize,
        }
    }
}

/// Tracks under their paths.
pub type TrackTable = StringHashMap<Track>;

/// The tracks of a list, each under its path; of two with one path, the later.
pub open spec fn by_path(tracks: Seq<Track>) -> Map<Seq<char>, Track>
    decreases tracks.len(),
{
    if tracks.len() == 0 {
        Map::empty()
    } else {
        by_path(tracks.drop_last()).insert(tracks.last().path@, tracks.last())
    }
}

/// Puts loaded tracks under their paths.
pub fn collect_tracks(tracks: Vec<Track>) -> (table: TrackTable)
    ensures
        table@ == by_path(tracks@),
{
    let ghost all = tracks@;
    let mut table: TrackTable = StringHashMap::new();
    for track in it: tracks.into_iter()
        invariant
            it.seq() == all,
            table@ == by_path(all.take(it.index())),
    {
        proof {
            let next = all.take(it.index() + 1);
            assert(next.drop_last() =~= all.take(it.index()));
            assert(next.last() == track);
        }
        let path: String = track.path.clone();
        table.insert(path, track);
    }
    assert(all.take(all.len() as int) =~= all);
    table
}

/// A path has a track exactly where a track of the list has that path, and then it is one of those.
pub proof fn lemma_by_path(tracks: Seq<Track>, path: Seq<char>)
    ensures
        by_path(tracks).contains_key(path) <==> exists|i: int|
            0 <= i < tracks.len() && (#[trigger] tracks[i]).path@ == path,
        by_path(tracks).contains_key(path) ==> exists|i: int|
            0 <= i < tracks.len() && #[trigger] tracks[i] == by_path(tracks)[path]
                && tracks[i].path@ == path && forall|j: int|
                i < j < tracks.len() ==> (#[trigger] tracks[j]).path@ != path,
    decreases tracks.len(),
{
    if tracks.len() > 0 {
        let front = tracks.drop_last();
        let last = tracks.len() - 1;
        lemma_by_path(front, path);
        if tracks[last].path@ == path {
            assert(tracks[last] == by_path(tracks)[path]);
        } else if by_path(front).contains_key(path) {
            let i = choose|i: int|
                0 <= i < front.len() && #[trigger] front[i] == by_path(front)[path]
                    && front[i].path@ == path && forall|j: int|
                    i < j < front.len() ==> (#[trigger] front[j]).path@ != path;
            assert(tracks[i] == by_path(tracks)[path]);
            assert forall|j: int| i < j < tracks.len() implies (#[trigger] tracks[j]).path@
                != path by {
                if j < last {
                    assert(front[j].path@ != path);
                }
            }
        } else {
            assert forall|i: int| 0 <= i < tracks.len() implies (#[trigger] tracks[i]).path@
                != path by {
                if i < last {
                    assert(front[i] == tracks[i]);
                }
            }
        }
    }
}

} // verus!
