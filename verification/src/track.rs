//! Planar sample buffers with a fixed channel count.

use core::ops::Range;
use vstd::prelude::*;

verus! {

/// `N` parallel channels of samples, all of one length, with the frame
/// offsets at which the concatenated sources ("chapters") end.
#[derive(Debug, Clone)]
pub struct AudioTrack<T, const N: usize> {
    pub data: Vec<Vec<T>>,
    pub chapter_ends: Vec<usize>,
}

/// Every channel of `channels` holds exactly `frames` samples.
pub open spec fn channels_have<T>(channels: Seq<Seq<T>>, frames: nat) -> bool {
    forall|c: int| 0 <= c < channels.len() ==> (#[trigger] channels[c]).len() == frames
}

/// `ends` is strictly increasing and stays within `limit`.
pub open spec fn ends_ascend_within(ends: Seq<usize>, limit: nat) -> bool {
    &&& forall|i: int, j: int| 0 <= i < j < ends.len() ==> ends[i] < ends[j]
    &&& forall|i: int| 0 <= i < ends.len() ==> ends[i] <= limit
}

/// `dst` with the samples at `at .. at + src.len()` replaced by `src`.
pub open spec fn overwrite<T>(dst: Seq<T>, at: int, src: Seq<T>) -> Seq<T> {
    Seq::new(dst.len(), |i: int| if at <= i < at + src.len() { src[i - at] } else { dst[i] })
}

impl<T: Copy, const N: usize> AudioTrack<T, N> {
    /// The channels, each as the sequence of its samples.
    pub open spec fn view(&self) -> Seq<Seq<T>> {
        Seq::new(self.data@.len(), |c: int| self.data@[c]@)
    }

    /// Frames per channel (the padded length); 0 for a track without channels.
    pub open spec fn frames(&self) -> nat {
        if self.data@.len() == 0 { 0 } else { self.data@[0]@.len() }
    }

    /// The track's invariant: `N` channels of equal length, and chapter ends
    /// strictly increasing within that length.
    pub open spec fn wf(&self) -> bool {
        &&& self.data@.len() == N
        &&& channels_have(self@, self.frames())
        &&& ends_ascend_within(self.chapter_ends@, self.frames())
    }

    /// The frame at which playback of this track ends: the last chapter end
    /// where there are chapters, else the padded length.
    pub open spec fn play_end(&self) -> nat {
        if self.chapter_ends@.len() > 0 {
            self.chapter_ends@[self.chapter_ends@.len() - 1] as nat
        } else {
            self.frames()
        }
    }

    /// A track of `frames` frames in which every sample is `silence`.
    pub fn new(frames: usize, silence: T) -> (track: Self)
        ensures
            track.wf(),
            track.frames() == if N == 0 { 0 } else { frames as nat },
            track.chapter_ends@.len() == 0,
            forall|c: int, i: int| 0 <= c < N && 0 <= i < frames ==> track@[c][i] == silence,
    {
        let mut data: Vec<Vec<T>> = Vec::new();
        let mut c: usize = 0;
        while c < N
            invariant
                c <= N,
                data@.len() == c,
                forall|k: int| 0 <= k < c ==> (#[trigger] data@[k])@.len() == frames,
                forall|k: int, i: int| 0 <= k < c && 0 <= i < frames ==> data@[k]@[i] == silence,
            decreases N - c,
        {
            let mut channel: Vec<T> = Vec::new();
            let mut i: usize = 0;
            while i < frames
                invariant
                    i <= frames,
                    channel@.len() == i,
                    forall|j: int| 0 <= j < i ==> channel@[j] == silence,
                decreases frames - i,
            {
                channel.push(silence);
                i += 1;
            }
            data.push(channel);
            c += 1;
        }
        AudioTrack { data, chapter_ends: Vec::new() }
    }

    /// Frames per channel.
    pub fn length(&self) -> (frames: usize)
        ensures
            frames == self.frames(),
    {
        if self.data.len() == 0 {
            0
        } else {
            self.data[0].len()
        }
    }

    /// Whether the track's invariant holds, for a track that was put
    /// together by hand.
    pub fn is_well_formed(&self) -> (ok: bool)
        ensures
            ok == self.wf(),
    {
        if self.data.len() != N {
            return false;
        }
        let frames: usize = self.length();
        let mut c: usize = 0;
        while c < N
            invariant
                c <= N,
                self.data@.len() == N,
                frames == self.frames(),
                forall|k: int| 0 <= k < c ==> (#[trigger] self@[k]).len() == frames,
            decreases N - c,
        {
            if self.data[c].len() != frames {
                assert(self@[c as int].len() != frames);
                return false;
            }
            c += 1;
        }
        let ends = &self.chapter_ends;
        let mut i: usize = 0;
        while i < ends.len()
            invariant
                i <= ends@.len(),
                ends == &self.chapter_ends,
                frames == self.frames(),
                channels_have(self@, self.frames()),
                self.data@.len() == N,
                forall|a: int, b: int| 0 <= a < b < i ==> ends@[a] < ends@[b],
                forall|a: int| 0 <= a < i ==> ends@[a] <= frames,
            decreases ends@.len() - i,
        {
            if ends[i] > frames {
                return false;
            }
            if i > 0 && ends[i - 1] >= ends[i] {
                return false;
            }
            i += 1;
        }
        true
    }

    /// The frame at which playback of this track ends.
    pub fn playback_end(&self) -> (end: usize)
        requires
            self.wf(),
        ensures
            end == self.play_end(),
    {
        let chapters: usize = self.chapter_ends.len();
        if chapters > 0 {
            self.chapter_ends[chapters - 1]
        } else {
            self.length()
        }
    }

    /// A new track that holds the frames `range` of `track`, without chapters.
    pub fn clone_range(track: &AudioTrack<T, N>, range: Range<usize>) -> (copy: Self)
        requires
            track.wf(),
            range.start <= range.end <= track.frames(),
        ensures
            copy.wf(),
            copy.frames() == if N == 0 { 0 } else { (range.end - range.start) as nat },
            copy.chapter_ends@.len() == 0,
            forall|c: int| 0 <= c < N ==> #[trigger] copy@[c] == track@[c].subrange(
                range.start as int,
                range.end as int,
            ),
    {
        let start: usize = range.start;
        let end: usize = range.end;
        let mut data: Vec<Vec<T>> = Vec::new();
        let mut c: usize = 0;
        while c < N
            invariant
                c <= N,
                track.wf(),
                start <= end <= track.frames(),
                data@.len() == c,
                forall|k: int| 0 <= k < c ==> (#[trigger] data@[k])@ == track@[k].subrange(
                    start as int,
                    end as int,
                ),
            decreases N - c,
        {
            let source = &track.data[c];
            assert(track@[c as int].len() == track.frames());
            let mut channel: Vec<T> = Vec::new();
            let mut i: usize = start;
            while i < end
                invariant
                    start <= i <= end <= source@.len(),
                    channel@ == source@.subrange(start as int, i as int),
                decreases end - i,
            {
                channel.push(source[i]);
                assert(channel@ =~= source@.subrange(start as int, i + 1));
                i += 1;
            }
            data.push(channel);
            c += 1;
        }
        let copy = AudioTrack { data, chapter_ends: Vec::new() };
        assert forall|k: int| 0 <= k < N implies #[trigger] copy@[k] == track@[k].subrange(
            start as int,
            end as int,
        ) by {
            assert(copy@[k] == copy.data@[k]@);
        }
        copy
    }

    /// Overwrites the frames `range` of this track with the frames
    /// `other_range` of `other_track`, channel by channel. The two ranges
    /// have one length; everything outside `range` stays as it was.
    #[verifier::loop_isolation(false)]
    pub fn copy_from_range(
        &mut self,
        range: Range<usize>,
        other_track: &AudioTrack<T, N>,
        other_range: Range<usize>,
    )
        requires
            old(self).wf(),
            other_track.wf(),
            range.start <= range.end <= old(self).frames(),
            other_range.start <= other_range.end <= other_track.frames(),
            range.end - range.start == other_range.end - other_range.start,
        ensures
            final(self).wf(),
            final(self).frames() == old(self).frames(),
            final(self).chapter_ends == old(self).chapter_ends,
            forall|c: int| 0 <= c < N ==> #[trigger] final(self)@[c] == overwrite(
                old(self)@[c],
                range.start as int,
                other_track@[c].subrange(other_range.start as int, other_range.end as int),
            ),
    {
        let start: usize = range.start;
        let count: usize = range.end - range.start;
        let from: usize = other_range.start;
        let mut c: usize = 0;
        while c < N
            invariant
                c <= N,
                old(self).wf(),
                other_track.wf(),
                start + count <= old(self).frames(),
                from + count <= other_track.frames(),
                self.data@.len() == N,
                self.chapter_ends == old(self).chapter_ends,
                forall|k: int| c <= k < N ==> (#[trigger] self.data@[k])@ == old(self).data@[k]@,
                forall|k: int| 0 <= k < c ==> (#[trigger] self.data@[k])@ == overwrite(
                    old(self)@[k],
                    start as int,
                    other_track@[k].subrange(from as int, from + count),
                ),
            decreases N - c,
        {
            let source = &other_track.data[c];
            assert(other_track@[c as int].len() == other_track.frames());
            assert(old(self)@[c as int].len() == old(self).frames());
            let ghost channels = self.data@;
            let ghost before = self.data@[c as int]@;
            let limit: usize = self.data[c].len();
            let source_len: usize = source.len();
            let mut i: usize = 0;
            while i < count
                invariant
                    i <= count,
                    c < N,
                    self.data@.len() == N,
                    self.chapter_ends == old(self).chapter_ends,
                    before.len() == limit,
                    start + count <= limit,
                    from + count <= source_len,
                    forall|k: int| 0 <= k < N && k != c ==> #[trigger] self.data@[k] == channels[k],
                    self.data@[c as int]@.len() == limit,
                    forall|j: int|
                        0 <= j < limit ==> self.data@[c as int]@[j] == (if start <= j < start + i {
                            source@[j - start + from]
                        } else {
                            before[j]
                        }),
                decreases count - i,
            {
                self.data[c][start + i] = source[from + i];
                i += 1;
            }
            assert(self.data@[c as int]@ =~= overwrite(
                old(self)@[c as int],
                start as int,
                other_track@[c as int].subrange(from as int, from + count),
            ));
            c += 1;
        }
    }

    /// The frames `range` of every channel, borrowed.
    pub fn get_slice(&self, range: Range<usize>) -> (views: Vec<&[T]>)
        requires
            self.wf(),
            range.start <= range.end <= self.frames(),
        ensures
            views@.len() == N,
            forall|c: int|
                0 <= c < N ==> (#[trigger] views@[c])@ == self@[c].subrange(
                    range.start as int,
                    range.end as int,
                ),
    {
        let start: usize = range.start;
        let end: usize = range.end;
        let mut views: Vec<&[T]> = Vec::new();
        let mut c: usize = 0;
        while c < N
            invariant
                c <= N,
                self.wf(),
                start <= end <= self.frames(),
                views@.len() == c,
                forall|k: int|
                    0 <= k < c ==> (#[trigger] views@[k])@ == self@[k].subrange(
                        start as int,
                        end as int,
                    ),
            decreases N - c,
        {
            assert(self@[c as int].len() == self.frames());
            let channel: &[T] = self.data[c].as_slice();
            views.push(vstd::slice::slice_subrange(channel, start, end));
            c += 1;
        }
        views
    }
}

/// The part `start .. end` of a slice, borrowed for writing.
fn window_mut<T>(slice: &mut [T], start: usize, end: usize) -> (window: &mut [T])
    requires
        start <= end <= old(slice)@.len(),
    ensures
        window@ == old(slice)@.subrange(start as int, end as int),
        final(slice)@ == old(slice)@.subrange(0, start as int) + final(window)@ + old(
            slice,
        )@.subrange(end as int, old(slice)@.len() as int),
{
    let (_, tail) = slice.split_at_mut(start);
    let (window, _) = tail.split_at_mut(end - start);
    window
}

impl<T: Copy> AudioTrack<T, 2> {
    /// The frames `range` of both channels, borrowed for writing. What is
    /// written through the two borrows is written to the track; the frames
    /// outside `range` stay as they are.
    pub fn get_slice_mut(&mut self, range: Range<usize>) -> (views: (&mut [T], &mut [T]))
        requires
            old(self).wf(),
            range.start <= range.end <= old(self).frames(),
        ensures
            views.0@ == old(self)@[0].subrange(range.start as int, range.end as int),
            views.1@ == old(self)@[1].subrange(range.start as int, range.end as int),
            final(self).chapter_ends == old(self).chapter_ends,
            final(self)@.len() == 2,
            final(self)@[0] == old(self)@[0].subrange(0, range.start as int) + final(views.0)@
                + old(self)@[0].subrange(range.end as int, old(self).frames() as int),
            final(self)@[1] == old(self)@[1].subrange(0, range.start as int) + final(views.1)@
                + old(self)@[1].subrange(range.end as int, old(self).frames() as int),
    {
        assert(old(self)@[0].len() == old(self).frames());
        assert(old(self)@[1].len() == old(self).frames());
        let (head, tail) = self.data.as_mut_slice().split_at_mut(1);
        let left = window_mut(head[0].as_mut_slice(), range.start, range.end);
        let right = window_mut(tail[0].as_mut_slice(), range.start, range.end);
        (left, right)
    }
}

} // verus!
