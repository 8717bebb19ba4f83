//! Distributing the resampler's output over the destination tracks.
//!
//! The resampler itself runs outside this library: it consumes one block of
//! raw frames per call and emits a bounded, varying number of output frames.
//! The stage decides where each block's output goes, copies what arrives in
//! the edge buffer across as many destinations as it spans, and keeps the
//! accounts.

use crate::plan::{chapter_length, chapter_start, lemma_rounded_scale_unit, Ratio};
use crate::track::{overwrite, AudioTrack};
use vstd::prelude::*;

verus! {

/// The frames that the first `upto` destinations hold together.
pub open spec fn capacity_before<T: Copy, const N: usize>(
    destinations: Seq<AudioTrack<T, N>>,
    upto: int,
) -> nat
    decreases upto,
{
    if upto <= 0 {
        0
    } else {
        capacity_before(destinations, upto - 1) + destinations[upto - 1].frames()
    }
}

/// Channel `c` of the first `upto` destinations, laid end to end.
pub open spec fn flat_channel<T: Copy, const N: usize>(
    destinations: Seq<AudioTrack<T, N>>,
    c: int,
    upto: int,
) -> Seq<T>
    decreases upto,
{
    if upto <= 0 {
        Seq::empty()
    } else {
        flat_channel(destinations, c, upto - 1) + destinations[upto - 1]@[c]
    }
}

/// Every destination is a well-formed track.
pub open spec fn all_wf<T: Copy, const N: usize>(destinations: Seq<AudioTrack<T, N>>) -> bool {
    forall|j: int| 0 <= j < destinations.len() ==> (#[trigger] destinations[j]).wf()
}

/// Two lists of destinations agree in number and in every track's length.
pub open spec fn same_shape<T: Copy, const N: usize>(
    a: Seq<AudioTrack<T, N>>,
    b: Seq<AudioTrack<T, N>>,
) -> bool {
    &&& a.len() == b.len()
    &&& forall|j: int|
        0 <= j < a.len() ==> (#[trigger] a[j]).frames() == b[j].frames() && a[j].chapter_ends
            == b[j].chapter_ends
}

/// Capacity grows with the number of destinations counted.
pub proof fn lemma_capacity_monotone<T: Copy, const N: usize>(
    destinations: Seq<AudioTrack<T, N>>,
    i: int,
    j: int,
)
    requires
        i <= j,
    ensures
        capacity_before(destinations, i) <= capacity_before(destinations, j),
    decreases j - i,
{
    if i < j {
        lemma_capacity_monotone(destinations, i, j - 1);
    }
}

/// Tracks of the same lengths have the same capacities.
pub proof fn lemma_capacity_of_same_shape<T: Copy, const N: usize>(
    a: Seq<AudioTrack<T, N>>,
    b: Seq<AudioTrack<T, N>>,
    upto: int,
)
    requires
        same_shape(a, b),
        upto <= a.len(),
    ensures
        capacity_before(a, upto) == capacity_before(b, upto),
    decreases upto,
{
    if upto > 0 {
        lemma_capacity_of_same_shape(a, b, upto - 1);
        assert(a[upto - 1].frames() == b[upto - 1].frames());
    }
}

/// A flat channel is as long as the capacity it covers.
pub proof fn lemma_flat_length<T: Copy, const N: usize>(
    destinations: Seq<AudioTrack<T, N>>,
    c: int,
    upto: int,
)
    requires
        all_wf(destinations),
        0 <= c < N,
        upto <= destinations.len(),
    ensures
        flat_channel(destinations, c, upto).len() == capacity_before(destinations, upto),
    decreases upto,
{
    if upto > 0 {
        lemma_flat_length(destinations, c, upto - 1);
        assert(destinations[upto - 1].wf());
        assert(destinations[upto - 1]@[c].len() == destinations[upto - 1].frames());
    }
}

/// Overwriting part of one destination's channel overwrites the same part
/// of the flat channel, at that destination's offset.
pub proof fn lemma_flat_overwrite<T: Copy, const N: usize>(
    before: Seq<AudioTrack<T, N>>,
    after: Seq<AudioTrack<T, N>>,
    c: int,
    j: int,
    at: int,
    source: Seq<T>,
    upto: int,
)
    requires
        all_wf(before),
        before.len() == after.len(),
        0 <= c < N,
        0 <= j < before.len(),
        0 <= upto <= before.len(),
        0 <= at,
        at + source.len() <= before[j].frames(),
        forall|k: int| 0 <= k < before.len() && k != j ==> (#[trigger] after[k])@[c] == before[k]@[c],
        after[j]@[c] == overwrite(before[j]@[c], at, source),
    ensures
        flat_channel(after, c, upto) == if j < upto {
            overwrite(flat_channel(before, c, upto), capacity_before(before, j) + at, source)
        } else {
            flat_channel(before, c, upto)
        },
    decreases upto,
{
    if upto > 0 {
        lemma_flat_overwrite(before, after, c, j, at, source, upto - 1);
        lemma_flat_length(before, c, upto - 1);
        lemma_flat_length(before, c, upto);
        let offset = capacity_before(before, j) + at;
        assert(before[upto - 1].wf());
        assert(before[j].wf());
        assert(before[upto - 1]@[c].len() == before[upto - 1].frames());
        assert(before[j]@[c].len() == before[j].frames());
        if j == upto - 1 {
            assert(flat_channel(after, c, upto) =~= overwrite(
                flat_channel(before, c, upto),
                offset,
                source,
            ));
        } else if j < upto - 1 {
            assert(after[upto - 1]@[c] == before[upto - 1]@[c]);
            lemma_capacity_monotone(before, j + 1, upto - 1);
            assert(flat_channel(after, c, upto) =~= overwrite(
                flat_channel(before, c, upto),
                offset,
                source,
            ));
        } else {
            assert(after[upto - 1]@[c] == before[upto - 1]@[c]);
        }
    }
}

/// Writing the next piece of a source right behind the pieces already
/// written is the same as writing the longer prefix at once.
pub proof fn lemma_overwrite_extends<T>(flat: Seq<T>, at: int, source: Seq<T>, taken: int, more: int)
    requires
        0 <= at,
        0 <= taken,
        0 <= more,
        taken + more <= source.len(),
        at + taken + more <= flat.len(),
    ensures
        overwrite(
            overwrite(flat, at, source.subrange(0, taken)),
            at + taken,
            source.subrange(taken, taken + more),
        ) == overwrite(flat, at, source.subrange(0, taken + more)),
{
    assert(overwrite(
        overwrite(flat, at, source.subrange(0, taken)),
        at + taken,
        source.subrange(taken, taken + more),
    ) =~= overwrite(flat, at, source.subrange(0, taken + more)));
}

/// Where the output of the next block goes.
#[derive(Debug, Clone, Copy, PartialEq, Eq, Structural)]
pub enum BlockTarget {
    /// Straight into destination `destination`, from frame `at` on: the
    /// largest possible output fits there.
    Direct { destination: usize, at: usize },
    /// Into the edge buffer, to be distributed afterwards.
    Edge,
    /// No whole block of raw frames is left.
    Finished,
}

/// The state of one resampling run: the destinations, one per chapter, the
/// edge buffer, and the cursors into the raw buffer and the destinations.
pub struct ResampleStage<T, const N: usize> {
    pub destinations: Vec<AudioTrack<T, N>>,
    pub edge: AudioTrack<T, N>,
    /// The destination that is being filled.
    pub index: usize,
    /// The next free frame of that destination.
    pub cursor: usize,
    /// The raw frame at which the next block starts.
    pub raw_frame: usize,
    /// The length of the padded raw buffer.
    pub raw_frames: usize,
    pub block_size: usize,
    /// The most frames that one resampler call emits.
    pub max_output: usize,
    /// Blocks consumed so far.
    pub blocks: Ghost<nat>,
    /// Frames that the resampler has emitted so far.
    pub produced: Ghost<nat>,
    /// Frames that arrived after the last destination was full.
    pub discarded: Ghost<nat>,
}

impl<T: Copy, const N: usize> ResampleStage<T, N> {
    /// The frames that all destinations hold together.
    pub open spec fn capacity(&self) -> nat {
        capacity_before(self.destinations@, self.destinations@.len() as int)
    }

    /// The output frames placed so far: the flat position of the cursor.
    pub open spec fn filled(&self) -> nat {
        capacity_before(self.destinations@, self.index as int) + self.cursor as nat
    }

    /// The free frames of the current destination; none once all are full.
    pub open spec fn room(&self) -> nat {
        if self.index < self.destinations@.len() {
            (self.destinations@[self.index as int].frames() - self.cursor) as nat
        } else {
            0
        }
    }

    /// Channel `c` of all destinations, laid end to end.
    pub open spec fn flat(&self, c: int) -> Seq<T> {
        flat_channel(self.destinations@, c, self.destinations@.len() as int)
    }

    /// A whole block of raw frames is still to be resampled.
    pub open spec fn pending(&self) -> bool {
        self.raw_frame + self.block_size <= self.raw_frames
    }

    /// The stage's invariant. Besides the shape of the buffers and cursors it
    /// holds the accounts: whole blocks were consumed, and every frame that
    /// the resampler emitted was either placed or arrived after the last
    /// destination was full.
    pub open spec fn wf(&self) -> bool {
        &&& N > 0
        &&& all_wf(self.destinations@)
        &&& self.edge.wf()
        &&& self.edge.frames() == self.max_output
        &&& self.index <= self.destinations@.len()
        &&& self.index < self.destinations@.len() ==> self.cursor
            <= self.destinations@[self.index as int].frames()
        &&& self.index == self.destinations@.len() ==> self.cursor == 0
        &&& self.block_size > 0
        &&& self.raw_frame <= self.raw_frames
        &&& self.raw_frame == self.blocks@ * self.block_size
        &&& self.filled() + self.discarded@ == self.produced@
        &&& self.discarded@ > 0 ==> self.filled() == self.capacity()
    }

    /// A stage at its start: one silent destination per entry of `lengths`,
    /// of that length, and a silent edge buffer of `max_output` frames.
    pub fn new(
        lengths: &Vec<usize>,
        raw_frames: usize,
        block_size: usize,
        max_output: usize,
        silence: T,
    ) -> (stage: Self)
        requires
            N > 0,
            block_size > 0,
        ensures
            stage.wf(),
            stage.destinations@.len() == lengths@.len(),
            forall|j: int|
                0 <= j < lengths@.len() ==> (#[trigger] stage.destinations@[j]).frames()
                    == lengths@[j] && stage.destinations@[j].chapter_ends@.len() == 0,
            forall|j: int, c: int, i: int|
                0 <= j < lengths@.len() && 0 <= c < N && 0 <= i < lengths@[j]
                    ==> #[trigger] stage.destinations@[j]@[c][i] == silence,
            forall|c: int, i: int|
                0 <= c < N && 0 <= i < max_output ==> #[trigger] stage.edge@[c][i] == silence,
            stage.index == 0,
            stage.cursor == 0,
            stage.raw_frame == 0,
            stage.raw_frames == raw_frames,
            stage.block_size == block_size,
            stage.max_output == max_output,
            stage.produced@ == 0,
            stage.discarded@ == 0,
    {
        let mut destinations: Vec<AudioTrack<T, N>> = Vec::new();
        let mut j: usize = 0;
        while j < lengths.len()
            invariant
                N > 0,
                j <= lengths@.len(),
                destinations@.len() == j,
                forall|k: int|
                    0 <= k < j ==> (#[trigger] destinations@[k]).wf() && destinations@[k].frames()
                        == lengths@[k] && destinations@[k].chapter_ends@.len() == 0,
                forall|k: int, c: int, i: int|
                    0 <= k < j && 0 <= c < N && 0 <= i < lengths@[k]
                        ==> #[trigger] destinations@[k]@[c][i] == silence,
            decreases lengths@.len() - j,
        {
            destinations.push(AudioTrack::new(lengths[j], silence));
            j += 1;
        }
        let edge = AudioTrack::new(max_output, silence);
        assert(0 == 0nat * block_size) by (nonlinear_arith);
        ResampleStage {
            destinations,
            edge,
            index: 0,
            cursor: 0,
            raw_frame: 0,
            raw_frames,
            block_size,
            max_output,
            blocks: Ghost(0),
            produced: Ghost(0),
            discarded: Ghost(0),
        }
    }

    /// Where the next block's output goes: nowhere once fewer raw frames
    /// than a block are left; straight into the current destination where
    /// the largest possible output fits behind the cursor; else into the
    /// edge buffer.
    pub fn next_target(&self) -> (target: BlockTarget)
        requires
            self.wf(),
        ensures
            match target {
                BlockTarget::Finished => !self.pending(),
                BlockTarget::Direct { destination, at } => {
                    &&& self.pending()
                    &&& self.index < self.destinations@.len()
                    &&& self.room() >= self.max_output
                    &&& destination == self.index
                    &&& at == self.cursor
                },
                BlockTarget::Edge => self.pending() && (self.index == self.destinations@.len()
                    || self.room() < self.max_output),
            },
    {
        if self.raw_frames - self.raw_frame < self.block_size {
            return BlockTarget::Finished;
        }
        if self.index < self.destinations.len() {
            let room: usize = self.destinations[self.index].length() - self.cursor;
            if room >= self.max_output {
                return BlockTarget::Direct { destination: self.index, at: self.cursor };
            }
        }
        BlockTarget::Edge
    }

    /// Records that the resampler wrote `n` frames straight into the current
    /// destination, behind the cursor.
    pub fn commit_direct(&mut self, n: usize)
        requires
            old(self).wf(),
            old(self).pending(),
            old(self).index < old(self).destinations@.len(),
            n <= old(self).room(),
        ensures
            final(self).wf(),
            final(self).destinations == old(self).destinations,
            final(self).edge == old(self).edge,
            final(self).index == old(self).index,
            final(self).cursor == old(self).cursor + n,
            final(self).raw_frame == old(self).raw_frame + old(self).block_size,
            final(self).raw_frames == old(self).raw_frames,
            final(self).block_size == old(self).block_size,
            final(self).max_output == old(self).max_output,
            final(self).produced@ == old(self).produced@ + n,
            final(self).discarded@ == old(self).discarded@,
    {
        proof {
            lemma_capacity_monotone(
                self.destinations@,
                self.index + 1,
                self.destinations@.len() as int,
            );
            assert((self.blocks@ + 1) * self.block_size == self.blocks@ * self.block_size
                + self.block_size) by (nonlinear_arith);
        }
        let limit: usize = self.destinations[self.index].length();
        assert(self.cursor + n <= limit);
        self.cursor = self.cursor + n;
        self.raw_frame = self.raw_frame + self.block_size;
        self.blocks = Ghost((self.blocks@ + 1) as nat);
        self.produced = Ghost(self.produced@ + n as nat);
    }

    /// Distributes the first `n` frames of the edge buffer over the
    /// destinations, from the cursor on: what fits goes into the current
    /// destination, the rest into the following ones, each filled exactly
    /// before the next begins. Frames for which no destination is left are
    /// counted and returned, never written anywhere.
    ///
    /// Seen flat, the destinations change in one place only: the frames from
    /// the old position on are overwritten by the placed prefix of the edge
    /// buffer. The current destination afterwards is the first, from the old
    /// one on, whose end the stream of `n` frames does not pass.
    #[verifier::loop_isolation(false)]
    pub fn commit_edge(&mut self, n: usize) -> (dropped: usize)
        requires
            old(self).wf(),
            old(self).pending(),
            n <= old(self).max_output,
        ensures
            final(self).wf(),
            same_shape(final(self).destinations@, old(self).destinations@),
            final(self).edge == old(self).edge,
            final(self).raw_frame == old(self).raw_frame + old(self).block_size,
            final(self).raw_frames == old(self).raw_frames,
            final(self).block_size == old(self).block_size,
            final(self).max_output == old(self).max_output,
            final(self).produced@ == old(self).produced@ + n,
            final(self).discarded@ == old(self).discarded@ + dropped,
            dropped <= n,
            n - dropped == if old(self).filled() + n <= old(self).capacity() {
                n as int
            } else {
                old(self).capacity() - old(self).filled()
            },
            final(self).filled() == old(self).filled() + n - dropped,
            forall|c: int|
                0 <= c < N ==> #[trigger] final(self).flat(c) == overwrite(
                    old(self).flat(c),
                    old(self).filled() as int,
                    old(self).edge@[c].subrange(0, n - dropped),
                ),
            old(self).index <= final(self).index <= old(self).destinations@.len(),
            forall|m: int|
                old(self).index <= m < final(self).index ==> #[trigger] capacity_before(
                    old(self).destinations@,
                    m + 1,
                ) < old(self).filled() + n,
            final(self).index < old(self).destinations@.len() ==> old(self).filled() + n
                <= capacity_before(old(self).destinations@, final(self).index + 1),
    {
        let ghost start = self.filled();
        let ghost total = self.capacity();
        let ghost count = self.destinations@.len() as int;
        let mut taken: usize = 0;
        let mut placed: bool = false;
        proof {
            lemma_capacity_monotone(self.destinations@, self.index as int, count);
            if self.index < count {
                lemma_capacity_monotone(self.destinations@, self.index + 1, count);
            }
            assert forall|c: int| 0 <= c < N implies #[trigger] flat_channel(
                self.destinations@,
                c,
                count,
            ) == overwrite(old(self).flat(c), start as int, self.edge@[c].subrange(0, 0)) by {
                assert(old(self).flat(c) =~= overwrite(
                    old(self).flat(c),
                    start as int,
                    self.edge@[c].subrange(0, 0),
                ));
            }
        }
        while !placed && self.index < self.destinations.len()
            invariant
                N > 0,
                all_wf(self.destinations@),
                same_shape(self.destinations@, old(self).destinations@),
                self.edge == old(self).edge,
                self.raw_frame == old(self).raw_frame,
                self.raw_frames == old(self).raw_frames,
                self.block_size == old(self).block_size,
                self.max_output == old(self).max_output,
                self.blocks == old(self).blocks,
                self.produced == old(self).produced,
                self.discarded == old(self).discarded,
                taken <= n,
                placed ==> taken == n,
                old(self).index <= self.index <= count,
                self.index < count ==> self.cursor <= self.destinations@[self.index as int].frames(),
                self.index == count ==> self.cursor == 0,
                self.filled() == start + taken,
                self.filled() <= total,
                forall|c: int|
                    0 <= c < N ==> #[trigger] flat_channel(self.destinations@, c, count)
                        == overwrite(
                        old(self).flat(c),
                        start as int,
                        self.edge@[c].subrange(0, taken as int),
                    ),
                forall|m: int|
                    old(self).index <= m < self.index ==> #[trigger] capacity_before(
                        old(self).destinations@,
                        m + 1,
                    ) < start + n,
                placed && self.index < count ==> start + n <= capacity_before(
                    old(self).destinations@,
                    self.index + 1,
                ),
            decreases count - self.index, if placed { 0int } else { 1int },
        {
            let length: usize = self.destinations[self.index].length();
            let room: usize = length - self.cursor;
            let rest: usize = n - taken;
            let fits: bool = rest <= room;
            let piece: usize = if fits { rest } else { room };
            let ghost before = self.destinations@;
            let ghost at = self.cursor as int;
            let ghost j = self.index as int;
            proof {
                assert(before[j].wf());
                assert(self.edge@[0].len() == self.edge.frames());
                lemma_capacity_of_same_shape(before, old(self).destinations@, j + 1);
                lemma_capacity_of_same_shape(before, old(self).destinations@, j);
                lemma_capacity_of_same_shape(before, old(self).destinations@, count);
                lemma_capacity_monotone(before, j + 1, count);
                assert forall|c: int| 0 <= c < N implies #[trigger] flat_channel(before, c, count)
                    == overwrite(
                    old(self).flat(c),
                    start as int,
                    self.edge@[c].subrange(0, taken as int),
                ) by {}
            }
            self.destinations[self.index].copy_from_range(
                self.cursor..self.cursor + piece,
                &self.edge,
                taken..taken + piece,
            );
            proof {
                let after = self.destinations@;
                assert(after.len() == before.len());
                assert forall|k: int| 0 <= k < count implies (#[trigger] after[k]).wf() by {
                    if k != j {
                        assert(after[k] == before[k]);
                        assert(before[k].wf());
                    }
                }
                assert forall|k: int| 0 <= k < count implies (#[trigger] after[k]).frames()
                    == old(self).destinations@[k].frames() && after[k].chapter_ends == old(
                    self,
                ).destinations@[k].chapter_ends by {
                    if k != j {
                        assert(after[k] == before[k]);
                    }
                    assert(before[k].frames() == old(self).destinations@[k].frames());
                }
                lemma_capacity_of_same_shape(after, before, j);
                lemma_capacity_of_same_shape(after, before, j + 1);
                assert forall|c: int| 0 <= c < N implies #[trigger] flat_channel(after, c, count)
                    == overwrite(
                    old(self).flat(c),
                    start as int,
                    self.edge@[c].subrange(0, taken + piece),
                ) by {
                    let source = self.edge@[c].subrange(taken as int, taken + piece);
                    assert(self.edge.wf());
                    assert(self.edge@[c].len() == self.edge.frames());
                    assert(capacity_before(before, j) + at == start + taken);
                    assert(at + source.len() <= before[j].frames());
                    assert forall|k: int| 0 <= k < count && k != j implies (#[trigger] after[k])@[c]
                        == before[k]@[c] by {
                        assert(after[k] == before[k]);
                    }
                    assert(after[j]@[c] == overwrite(before[j]@[c], at, source));
                    lemma_flat_overwrite(before, after, c, j, at, source, count);
                    lemma_flat_length(old(self).destinations@, c, count);
                    lemma_overwrite_extends(
                        old(self).flat(c),
                        start as int,
                        self.edge@[c],
                        taken as int,
                        piece as int,
                    );
                }
            }
            taken = taken + piece;
            if fits {
                self.cursor = self.cursor + piece;
                placed = true;
            } else {
                self.index = self.index + 1;
                self.cursor = 0;
            }
        }
        let dropped: usize = n - taken;
        proof {
            assert((self.blocks@ + 1) * self.block_size == self.blocks@ * self.block_size
                + self.block_size) by (nonlinear_arith);
            lemma_capacity_of_same_shape(self.destinations@, old(self).destinations@, count);
            if self.index < count {
                lemma_capacity_monotone(self.destinations@, self.index + 1, count);
            }
        }
        self.raw_frame = self.raw_frame + self.block_size;
        self.blocks = Ghost((self.blocks@ + 1) as nat);
        self.produced = Ghost(self.produced@ + n as nat);
        self.discarded = Ghost(self.discarded@ + dropped as nat);
        dropped
    }

    /// Hands the destinations out.
    pub fn finish(self) -> (tracks: Vec<AudioTrack<T, N>>)
        ensures
            tracks == self.destinations,
    {
        self.destinations
    }
}

/// No frame is lost and none is counted twice: once a stage has run out of
/// blocks on a raw buffer of whole blocks, it has consumed that buffer to
/// its end, and the frames that the resampler emitted are the frames placed
/// in the destinations and those that arrived after the last destination
/// was full. Frames are only turned away by full destinations.
pub proof fn lemma_finished_stage_accounts_for_every_frame<T: Copy, const N: usize>(
    stage: ResampleStage<T, N>,
)
    requires
        stage.wf(),
        !stage.pending(),
        stage.raw_frames % stage.block_size == 0,
    ensures
        stage.raw_frame == stage.raw_frames,
        stage.produced@ == stage.filled() + stage.discarded@,
        stage.filled() <= stage.capacity(),
        stage.discarded@ > 0 ==> stage.filled() == stage.capacity(),
{
    let size = stage.block_size as int;
    let blocks = stage.blocks@ as int;
    let whole = stage.raw_frames as int;
    assert(blocks * size == whole) by (nonlinear_arith)
        requires
            size > 0,
            whole % size == 0,
            blocks * size <= whole,
            whole < blocks * size + size,
    ;
    lemma_capacity_monotone(stage.destinations@, stage.index as int, stage.destinations@.len() as int);
    if stage.index < stage.destinations@.len() {
        lemma_capacity_monotone(
            stage.destinations@,
            stage.index + 1,
            stage.destinations@.len() as int,
        );
    }
}

/// A sample of a destination is the sample of the flat channel at the
/// destination's offset plus the frame.
pub proof fn lemma_flat_index<T: Copy, const N: usize>(
    destinations: Seq<AudioTrack<T, N>>,
    c: int,
    k: int,
    frame: int,
    upto: int,
)
    requires
        all_wf(destinations),
        0 <= c < N,
        0 <= k < upto <= destinations.len(),
        0 <= frame < destinations[k].frames(),
    ensures
        capacity_before(destinations, k) + frame < flat_channel(destinations, c, upto).len(),
        flat_channel(destinations, c, upto)[capacity_before(destinations, k) + frame]
            == destinations[k]@[c][frame],
    decreases upto,
{
    lemma_flat_length(destinations, c, upto - 1);
    lemma_flat_length(destinations, c, upto);
    assert(destinations[upto - 1].wf());
    assert(destinations[upto - 1]@[c].len() == destinations[upto - 1].frames());
    if k < upto - 1 {
        lemma_flat_index(destinations, c, k, frame, upto - 1);
    }
}

/// A flat channel of `flat.len()` frames after `blocks` blocks of `raw`, of
/// `block` frames each, went through a resampler that changes nothing: each
/// block is written behind the one before, as far as there is room.
pub open spec fn passed_through<T>(flat: Seq<T>, raw: Seq<T>, block: nat, blocks: nat) -> Seq<T>
    decreases blocks,
{
    if blocks == 0 {
        flat
    } else {
        let done = (blocks - 1) * block;
        let at = if done <= flat.len() {
            done
        } else {
            flat.len() as int
        };
        let fits = if block <= flat.len() - at {
            block as int
        } else {
            flat.len() - at
        };
        overwrite(
            passed_through(flat, raw, block, (blocks - 1) as nat),
            at,
            raw.subrange(done, done + block).subrange(0, fits),
        )
    }
}

/// What went through unchanged is the raw channel, as far as it went and as
/// far as there was room.
pub proof fn lemma_passed_through_is_raw<T>(flat: Seq<T>, raw: Seq<T>, block: nat, blocks: nat)
    requires
        block > 0,
        blocks * block <= raw.len(),
    ensures
        passed_through(flat, raw, block, blocks).len() == flat.len(),
        forall|p: int|
            0 <= p < flat.len() && p < blocks * block ==> #[trigger] passed_through(
                flat,
                raw,
                block,
                blocks,
            )[p] == raw[p],
    decreases blocks,
{
    if blocks > 0 {
        let earlier = (blocks - 1) as nat;
        assert(blocks * block == earlier * block + block && earlier * block >= 0)
            by (nonlinear_arith)
            requires
                blocks == earlier + 1,
        ;
        lemma_passed_through_is_raw(flat, raw, block, earlier);
    } else {
        assert(blocks * block == 0) by (nonlinear_arith)
            requires
                blocks == 0,
        ;
    }
}

/// One more block through an unchanging resampler: where the stage stands
/// behind the blocks done so far, and the edge buffer holds the next raw
/// block, distributing it yields the flat channel of one block more. This is
/// the step that `commit_edge` takes.
pub proof fn lemma_pass_through_step<T>(
    start: Seq<T>,
    raw: Seq<T>,
    block: nat,
    done: nat,
    edge: Seq<T>,
    filled: nat,
    placed: nat,
)
    requires
        (done + 1) * block <= raw.len(),
        block <= edge.len(),
        edge.subrange(0, block as int) == raw.subrange(
            (done * block) as int,
            ((done + 1) * block) as int,
        ),
        filled == if done * block <= start.len() {
            done * block
        } else {
            start.len()
        },
        placed == if filled + block <= start.len() {
            block as int
        } else {
            start.len() - filled
        },
    ensures
        overwrite(passed_through(start, raw, block, done), filled as int, edge.subrange(0, placed as int))
            == passed_through(start, raw, block, done + 1),
{
    assert((done + 1) * block == done * block + block) by (nonlinear_arith);
    assert(edge.subrange(0, placed as int) =~= edge.subrange(0, block as int).subrange(
        0,
        placed as int,
    ));
}

/// Under a ratio of one every chapter keeps its length, so a destination
/// begins in the output where its source begins in the raw buffer.
pub proof fn lemma_unit_ratio_keeps_offsets<T: Copy, const N: usize>(
    destinations: Seq<AudioTrack<T, N>>,
    ends: Seq<usize>,
    ratio: Ratio,
    k: int,
)
    requires
        ratio.wf(),
        ratio.numerator == ratio.denominator,
        destinations.len() == ends.len(),
        forall|j: int|
            0 <= j < ends.len() ==> (#[trigger] destinations[j]).frames() == chapter_length(
                ends,
                j,
                ratio,
            ),
        0 <= k <= ends.len(),
    ensures
        capacity_before(destinations, k) == chapter_start(ends, k),
    decreases k,
{
    if k > 0 {
        lemma_unit_ratio_keeps_offsets(destinations, ends, ratio, k - 1);
        lemma_rounded_scale_unit(ends[k - 1] as nat, ratio.denominator as nat);
        lemma_rounded_scale_unit(chapter_start(ends, k - 1), ratio.denominator as nat);
        assert(destinations[k - 1].frames() == chapter_length(ends, k - 1, ratio));
    }
}

/// Chapter boundaries are exact: under a ratio of one, with a resampler
/// that hands every block on unchanged, each chapter of the output begins
/// with the first raw sample of its source, once the blocks that were
/// processed reach that sample.
pub proof fn lemma_identity_keeps_chapter_starts<T: Copy, const N: usize>(
    before: Seq<AudioTrack<T, N>>,
    after: Seq<AudioTrack<T, N>>,
    ends: Seq<usize>,
    ratio: Ratio,
    raw: Seq<T>,
    block: nat,
    blocks: nat,
    c: int,
    k: int,
)
    requires
        all_wf(before),
        all_wf(after),
        same_shape(after, before),
        0 <= c < N,
        ratio.wf(),
        ratio.numerator == ratio.denominator,
        after.len() == ends.len(),
        forall|j: int|
            0 <= j < ends.len() ==> (#[trigger] after[j]).frames() == chapter_length(ends, j, ratio),
        block > 0,
        blocks * block <= raw.len(),
        flat_channel(after, c, after.len() as int) == passed_through(
            flat_channel(before, c, before.len() as int),
            raw,
            block,
            blocks,
        ),
        0 <= k < after.len(),
        after[k].frames() > 0,
        chapter_start(ends, k) < blocks * block,
    ensures
        after[k]@[c][0] == raw[chapter_start(ends, k) as int],
{
    let count = after.len() as int;
    lemma_unit_ratio_keeps_offsets(after, ends, ratio, k);
    lemma_flat_index(after, c, k, 0, count);
    lemma_flat_length(before, c, count);
    lemma_flat_length(after, c, count);
    lemma_passed_through_is_raw(flat_channel(before, c, count), raw, block, blocks);
}

} // verus!
