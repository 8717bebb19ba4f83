//! The playback scheduler: a sparse table of loaded tracks, one playback
//! cursor with a queue behind it, and the production of interleaved output.

use crate::track::{overwrite, AudioTrack};
use std::collections::VecDeque;
use vstd::prelude::*;

verus! {

/// The playback cursor. It exists once something has been played; without
/// one the engine is idle.
#[derive(Debug, Clone)]
pub struct PlaybackState {
    /// The slot of the active track.
    pub index: usize,
    /// The next frame of that track to be played.
    pub frame: usize,
    pub playing: bool,
    /// The slots to play next, first in, first out.
    pub queue: VecDeque<usize>,
}

/// A playback cursor as a plain value.
pub struct Cursor {
    pub index: usize,
    pub frame: usize,
    pub playing: bool,
    pub queue: Seq<usize>,
}

impl View for PlaybackState {
    type V = Cursor;

    open spec fn view(&self) -> Cursor {
        Cursor { index: self.index, frame: self.frame, playing: self.playing, queue: self.queue@ }
    }
}

/// The cursor of an optional playback state.
pub open spec fn cursor_of(state: Option<PlaybackState>) -> Option<Cursor> {
    match state {
        Some(s) => Some(s@),
        None => None,
    }
}

/// The track table of a stereo player.
pub type Table<T> = Seq<Option<AudioTrack<T, 2>>>;

/// Slot `slot` of `table` holds a track.
pub open spec fn occupied<T>(table: Table<T>, slot: int) -> bool {
    0 <= slot < table.len() && table[slot] is Some
}

/// The first empty slot of `table` from `from` on; the table's length where
/// there is none.
pub open spec fn first_free<T>(table: Table<T>, from: int) -> int
    decreases table.len() - from,
{
    if from >= table.len() {
        table.len() as int
    } else if table[from] is None {
        from
    } else {
        first_free(table, from + 1)
    }
}

/// `table` with `track` in its lowest empty slot, appended where no slot is
/// empty.
pub open spec fn with_track<T>(table: Table<T>, track: AudioTrack<T, 2>) -> Table<T> {
    let slot = first_free(table, 0);
    if slot < table.len() {
        table.update(slot, Some(track))
    } else {
        table.push(Some(track))
    }
}

/// The number of slots up to and including the highest occupied one.
pub open spec fn live_length<T>(table: Table<T>) -> int
    decreases table.len(),
{
    if table.len() == 0 {
        0
    } else if table.last() is Some {
        table.len() as int
    } else {
        live_length(table.drop_last())
    }
}

/// `table` without its trailing empty slots.
pub open spec fn trimmed<T>(table: Table<T>) -> Table<T> {
    table.take(live_length(table))
}

/// `table` after the removal of `slot`: the slot is emptied, and where it was
/// the last one, the trailing empty slots go. A slot past the end changes
/// nothing.
pub open spec fn without_slot<T>(table: Table<T>, slot: int) -> Table<T> {
    if 0 <= slot < table.len() {
        if slot == table.len() - 1 {
            trimmed(table.update(slot, None))
        } else {
            table.update(slot, None)
        }
    } else {
        table
    }
}

/// The first free slot is empty, nothing before it is, and it lies within
/// the table or right behind it.
pub proof fn lemma_first_free<T>(table: Table<T>, from: int)
    requires
        0 <= from <= table.len(),
    ensures
        from <= first_free(table, from) <= table.len(),
        first_free(table, from) < table.len() ==> table[first_free(table, from)] is None,
        forall|i: int| from <= i < first_free(table, from) ==> (#[trigger] table[i]) is Some,
    decreases table.len() - from,
{
    if from < table.len() && table[from] is Some {
        lemma_first_free(table, from + 1);
    }
}

/// The live length ends on an occupied slot, and everything behind it is
/// empty.
pub proof fn lemma_live_length<T>(table: Table<T>)
    ensures
        0 <= live_length(table) <= table.len(),
        live_length(table) > 0 ==> table[live_length(table) - 1] is Some,
        forall|i: int| live_length(table) <= i < table.len() ==> (#[trigger] table[i]) is None,
    decreases table.len(),
{
    if table.len() > 0 && table.last() is None {
        lemma_live_length(table.drop_last());
        assert forall|i: int| live_length(table) <= i < table.len() implies (#[trigger] table[i])
            is None by {
            if i < table.len() - 1 {
                assert(table.drop_last()[i] == table[i]);
            }
        }
    }
}

/// `table` after `tracks` were added one by one, in order.
pub open spec fn with_tracks<T>(table: Table<T>, tracks: Seq<AudioTrack<T, 2>>) -> Table<T>
    decreases tracks.len(),
{
    if tracks.len() == 0 {
        table
    } else {
        with_track(with_tracks(table, tracks.drop_last()), tracks.last())
    }
}

/// The frame at which chapter `chapter` of a track starts: 0 for the first
/// chapter, and for a chapter that the track does not have.
pub open spec fn chapter_frame(chapter_ends: Seq<usize>, chapter: int) -> usize {
    if 1 <= chapter <= chapter_ends.len() {
        chapter_ends[chapter - 1]
    } else {
        0
    }
}

/// A run of frames of one track.
#[derive(Debug, Clone, Copy, PartialEq, Eq, Structural)]
pub struct Segment {
    pub slot: usize,
    pub start: usize,
    pub count: usize,
}

/// What one request for output consists of: the frames of the active track,
/// then, where that track ends within the request and another one follows,
/// the first frames of the next, and whether playback ended.
#[derive(Debug, Clone, Copy, PartialEq, Eq, Structural)]
pub struct RenderPlan {
    pub first: Segment,
    pub second: Segment,
    /// Playback stopped for want of a next track: the one notification of
    /// its end is due.
    pub ended: bool,
}

/// A segment without frames.
pub open spec fn no_segment() -> Segment {
    Segment { slot: 0, start: 0, count: 0 }
}

/// The plan that produces nothing.
pub open spec fn silent_plan() -> RenderPlan {
    RenderPlan { first: no_segment(), second: no_segment(), ended: false }
}

/// The frames of a track from `frame` to the end of playback; none where the
/// cursor is already past it.
pub open spec fn frames_left(play_end: nat, frame: usize) -> nat {
    if frame <= play_end {
        (play_end - frame) as nat
    } else {
        0
    }
}

/// The lesser of two counts.
pub open spec fn at_most(a: nat, b: nat) -> nat {
    if a <= b {
        a
    } else {
        b
    }
}

/// The cursor after a request for `frames_now` frames.
///
/// Without a cursor, or with one whose slot is empty, the engine is idle
/// afterwards. A paused cursor stays. A playing one moves on by the request
/// where the track has that many frames left; else it passes to the head of
/// the queue, at the frame up to which the request reaches into the new
/// track; and where the queue is empty, or its head is an empty slot,
/// playback stops and the cursor returns to frame 0.
pub open spec fn cursor_after<T: Copy>(
    table: Table<T>,
    cursor: Option<Cursor>,
    frames_now: nat,
) -> Option<Cursor> {
    match cursor {
        None => None,
        Some(c) => if !occupied(table, c.index as int) {
            None
        } else if !c.playing {
            Some(c)
        } else {
            let left = frames_left(table[c.index as int]->0.play_end(), c.frame);
            if left >= frames_now {
                Some(Cursor { frame: (c.frame + frames_now) as usize, ..c })
            } else if c.queue.len() > 0 && occupied(table, c.queue[0] as int) {
                Some(
                    Cursor {
                        index: c.queue[0],
                        frame: (frames_now - left) as usize,
                        playing: true,
                        queue: c.queue.drop_first(),
                    },
                )
            } else {
                Some(
                    Cursor {
                        index: c.index,
                        frame: 0,
                        playing: false,
                        queue: if c.queue.len() > 0 {
                            c.queue.drop_first()
                        } else {
                            c.queue
                        },
                    },
                )
            }
        },
    }
}

/// The frames that a request for `frames_now` frames produces.
pub open spec fn plan_of<T: Copy>(
    table: Table<T>,
    cursor: Option<Cursor>,
    frames_now: nat,
) -> RenderPlan {
    match cursor {
        None => silent_plan(),
        Some(c) => if !occupied(table, c.index as int) || !c.playing {
            silent_plan()
        } else {
            let left = frames_left(table[c.index as int]->0.play_end(), c.frame);
            if left >= frames_now {
                RenderPlan {
                    first: Segment { slot: c.index, start: c.frame, count: frames_now as usize },
                    second: no_segment(),
                    ended: false,
                }
            } else if c.queue.len() > 0 && occupied(table, c.queue[0] as int) {
                RenderPlan {
                    first: Segment { slot: c.index, start: c.frame, count: left as usize },
                    second: Segment {
                        slot: c.queue[0],
                        start: 0,
                        count: at_most(
                            (frames_now - left) as nat,
                            table[c.queue[0] as int]->0.frames(),
                        ) as usize,
                    },
                    ended: false,
                }
            } else {
                RenderPlan {
                    first: Segment { slot: c.index, start: c.frame, count: left as usize },
                    second: no_segment(),
                    ended: true,
                }
            }
        },
    }
}

/// The frames `start .. start + count` of a stereo track, interleaved:
/// frame by frame, and within a frame channel 0 before channel 1.
pub open spec fn interleaved<T: Copy>(track: AudioTrack<T, 2>, start: int, count: int) -> Seq<T> {
    Seq::new((2 * count) as nat, |i: int| track@[i % 2][start + i / 2])
}

/// The samples of a segment; none for a segment without frames.
pub open spec fn segment_samples<T: Copy>(table: Table<T>, segment: Segment) -> Seq<T> {
    if segment.count == 0 || !occupied(table, segment.slot as int) {
        Seq::empty()
    } else {
        interleaved(table[segment.slot as int]->0, segment.start as int, segment.count as int)
    }
}

/// A segment lies within an occupied slot's track, or has no frames.
pub open spec fn segment_fits<T: Copy>(table: Table<T>, segment: Segment) -> bool {
    segment.count > 0 ==> occupied(table, segment.slot as int) && segment.start + segment.count
        <= table[segment.slot as int]->0.frames()
}

/// The output buffer after a plan was carried out: its samples replace the
/// start of the buffer, and what lies behind them is as it was.
pub open spec fn rendered<T: Copy>(table: Table<T>, plan: RenderPlan, buffer: Seq<T>) -> Seq<T> {
    overwrite(buffer, 0, segment_samples(table, plan.first) + segment_samples(table, plan.second))
}

/// The bookkeeping half of a request for `frames_now` frames: moves the
/// cursor and says which frames are to be copied. It reads no sample, so the
/// cursor need not be held while the samples are copied.
pub fn advance<T: Copy>(
    state: &mut Option<PlaybackState>,
    tracks: &Vec<Option<AudioTrack<T, 2>>>,
    frames_now: usize,
) -> (plan: RenderPlan)
    requires
        table_wf(tracks@),
    ensures
        cursor_of(*final(state)) == cursor_after(tracks@, cursor_of(*old(state)), frames_now as nat),
        plan == plan_of(tracks@, cursor_of(*old(state)), frames_now as nat),
        segment_fits(tracks@, plan.first),
        segment_fits(tracks@, plan.second),
        plan.first.count + plan.second.count <= frames_now,
{
    let nothing = Segment { slot: 0, start: 0, count: 0 };
    let silent = RenderPlan { first: nothing, second: nothing, ended: false };
    let mut current: PlaybackState = match state.take() {
        Some(current) => current,
        None => {
            return silent;
        },
    };
    if current.index >= tracks.len() {
        return silent;
    }
    let track = match &tracks[current.index] {
        Some(track) => track,
        None => {
            return silent;
        },
    };
    if !current.playing {
        *state = Some(current);
        return silent;
    }
    let end: usize = track.playback_end();
    let left: usize = if current.frame <= end {
        end - current.frame
    } else {
        0
    };
    let first = Segment { slot: current.index, start: current.frame, count: left };
    if left >= frames_now {
        let first = Segment { slot: current.index, start: current.frame, count: frames_now };
        current.frame = current.frame + frames_now;
        *state = Some(current);
        return RenderPlan { first, second: nothing, ended: false };
    }
    let ghost queue = current.queue@;
    let next: Option<usize> = current.queue.pop_front();
    let mut second = nothing;
    let mut ended: bool = true;
    match next {
        Some(slot) => {
            assert(current.queue@ =~= queue.drop_first());
            if slot < tracks.len() {
                match &tracks[slot] {
                    Some(next_track) => {
                        let rest: usize = frames_now - left;
                        let available: usize = next_track.length();
                        let count: usize = if rest <= available {
                            rest
                        } else {
                            available
                        };
                        second = Segment { slot, start: 0, count };
                        ended = false;
                        current.index = slot;
                        current.frame = rest;
                    },
                    None => {},
                }
            }
        },
        None => {},
    }
    if ended {
        current.frame = 0;
        current.playing = false;
    }
    *state = Some(current);
    RenderPlan { first, second, ended }
}

/// Writes the samples of `segment` into `data` from sample `at` on.
fn copy_segment<T: Copy>(
    tracks: &Vec<Option<AudioTrack<T, 2>>>,
    segment: Segment,
    data: &mut [T],
    at: usize,
)
    requires
        table_wf(tracks@),
        segment_fits(tracks@, segment),
        at + 2 * segment.count <= old(data)@.len(),
    ensures
        final(data)@ == overwrite(old(data)@, at as int, segment_samples(tracks@, segment)),
{
    if segment.count == 0 || segment.slot >= tracks.len() {
        assert(data@ =~= overwrite(old(data)@, at as int, segment_samples(tracks@, segment)));
        return ;
    }
    let track = match &tracks[segment.slot] {
        Some(track) => track,
        None => {
            assert(data@ =~= overwrite(old(data)@, at as int, segment_samples(tracks@, segment)));
            return ;
        },
    };
    assert(track.wf());
    assert(track@[0].len() == track.frames());
    assert(track@[1].len() == track.frames());
    let left = &track.data[0];
    let right = &track.data[1];
    let ghost samples = segment_samples(tracks@, segment);
    let size: usize = data.len();
    let frames: usize = left.len();
    let mut frame: usize = 0;
    while frame < segment.count
        invariant
            frame <= segment.count,
            track.wf(),
            data@.len() == old(data)@.len(),
            data@.len() == size,
            at + 2 * segment.count <= size,
            segment.start + segment.count <= frames,
            left@.len() == frames,
            right@.len() == frames,
            left@ == track@[0],
            right@ == track@[1],
            samples == interleaved(*track, segment.start as int, segment.count as int),
            forall|i: int|
                0 <= i < data@.len() ==> data@[i] == (if at <= i < at + 2 * frame {
                    samples[i - at]
                } else {
                    old(data)@[i]
                }),
        decreases segment.count - frame,
    {
        let i: usize = at + 2 * frame;
        data[i] = left[segment.start + frame];
        data[i + 1] = right[segment.start + frame];
        frame += 1;
    }
    assert(data@ =~= overwrite(old(data)@, at as int, samples));
}

/// The copying half of a request: writes the frames of `plan` to the start
/// of `data`, interleaved, and leaves the rest of `data` as it was.
pub fn fill<T: Copy>(tracks: &Vec<Option<AudioTrack<T, 2>>>, plan: &RenderPlan, data: &mut [T])
    requires
        table_wf(tracks@),
        segment_fits(tracks@, plan.first),
        segment_fits(tracks@, plan.second),
        2 * (plan.first.count + plan.second.count) <= old(data)@.len(),
    ensures
        final(data)@ == rendered(tracks@, *plan, old(data)@),
{
    let size: usize = data.len();
    copy_segment(tracks, plan.first, data, 0);
    let ghost first = segment_samples(tracks@, plan.first);
    let ghost second = segment_samples(tracks@, plan.second);
    assert(first.len() == 2 * plan.first.count || first.len() == 0);
    if plan.second.count > 0 {
        assert(first.len() == 2 * plan.first.count);
        copy_segment(tracks, plan.second, data, 2 * plan.first.count);
    }
    assert(data@ =~= overwrite(old(data)@, 0, first + second));
}

/// Removing the last slot of a table leaves a table that ends on an
/// occupied slot or is empty: every slot that the removal left empty at the
/// end is gone, and the slots that stay are as they were.
pub proof fn lemma_removing_last_slot_trims<T: Copy>(table: Table<T>)
    requires
        table_wf(table),
        table.len() > 0,
    ensures
        ({
            let rest = without_slot(table, table.len() - 1);
            &&& table_wf(rest)
            &&& rest.len() < table.len()
            &&& forall|i: int| 0 <= i < rest.len() ==> #[trigger] rest[i] == table[i]
            &&& forall|i: int| rest.len() <= i < table.len() - 1 ==> (#[trigger] table[i]) is None
        }),
{
    let emptied = table.update(table.len() - 1, None);
    lemma_live_length(emptied);
    let rest = trimmed(emptied);
    assert forall|i: int| 0 <= i < rest.len() && (#[trigger] rest[i]) is Some implies rest[i]->0.wf() by {
        assert(rest[i] == table[i]);
    }
    assert forall|i: int| rest.len() <= i < table.len() - 1 implies (#[trigger] table[i]) is None by {
        assert(emptied[i] is None);
    }
}

/// A track added after the removal of a slot that was not the last goes
/// into an empty slot within the table, at or before the removed one, and
/// the table does not grow. Where every slot before the removed one is
/// occupied, it goes into the removed slot itself.
pub proof fn lemma_added_track_reuses_removed_slot<T: Copy>(
    table: Table<T>,
    slot: int,
    track: AudioTrack<T, 2>,
)
    requires
        table_wf(table),
        0 <= slot < table.len() - 1,
    ensures
        ({
            let rest = without_slot(table, slot);
            let reused = first_free(rest, 0);
            &&& reused <= slot
            &&& rest[reused] is None
            &&& with_track(rest, track) == rest.update(reused, Some(track))
            &&& with_track(rest, track).len() == table.len()
            &&& (forall|i: int| 0 <= i < slot ==> (#[trigger] table[i]) is Some) ==> reused == slot
        }),
{
    let rest = without_slot(table, slot);
    lemma_first_free(rest, 0);
    let reused = first_free(rest, 0);
    if reused > slot {
        assert(rest[slot] is Some);
    }
    if forall|i: int| 0 <= i < slot ==> (#[trigger] table[i]) is Some {
        if reused < slot {
            assert(table[reused] is Some);
            assert(rest[reused] == table[reused]);
        }
    }
}

/// The cursor after `requests` requests for `frames_now` frames each.
pub open spec fn cursor_after_requests<T: Copy>(
    table: Table<T>,
    cursor: Option<Cursor>,
    frames_now: nat,
    requests: nat,
) -> Option<Cursor>
    decreases requests,
{
    if requests == 0 {
        cursor
    } else {
        cursor_after(
            table,
            cursor_after_requests(table, cursor, frames_now, (requests - 1) as nat),
            frames_now,
        )
    }
}

/// The plan of request number `request`, counted from 0.
pub open spec fn plan_of_request<T: Copy>(
    table: Table<T>,
    cursor: Option<Cursor>,
    frames_now: nat,
    request: nat,
) -> RenderPlan {
    plan_of(table, cursor_after_requests(table, cursor, frames_now, request), frames_now)
}

/// How many of the first `requests` requests ended playback.
pub open spec fn endings<T: Copy>(
    table: Table<T>,
    cursor: Option<Cursor>,
    frames_now: nat,
    requests: nat,
) -> nat
    decreases requests,
{
    if requests == 0 {
        0
    } else {
        endings(table, cursor, frames_now, (requests - 1) as nat) + if plan_of_request(
            table,
            cursor,
            frames_now,
            (requests - 1) as nat,
        ).ended {
            1nat
        } else {
            0nat
        }
    }
}

/// A cursor that plays slot `slot` from its first frame, with nothing queued.
pub open spec fn fresh_cursor(slot: usize) -> Option<Cursor> {
    Some(Cursor { index: slot, frame: 0, playing: true, queue: Seq::empty() })
}

/// The cursor that is left when playback of slot `slot` has ended.
pub open spec fn ended_cursor(slot: usize) -> Option<Cursor> {
    Some(Cursor { index: slot, frame: 0, playing: false, queue: Seq::empty() })
}

/// Draining one track with nothing queued, by requests of `frames_now`
/// frames each.
///
/// Let `length` be the frame at which the track's playback ends and `whole`
/// the number of requests that it fills completely. The cursor moves on by
/// one request at a time; request number `whole` takes the frames that are
/// left, fewer than a request and possibly none, and ends playback; every
/// later request produces nothing. So the track's frames come out in order,
/// each once, and playback ends exactly once, with request number `whole`.
pub proof fn lemma_drain<T: Copy>(table: Table<T>, slot: usize, frames_now: nat, request: nat)
    requires
        occupied(table, slot as int),
        table[slot as int]->0.wf(),
        frames_now > 0,
    ensures
        ({
            let length = table[slot as int]->0.play_end();
            let whole = length / frames_now;
            let cursor = cursor_after_requests(table, fresh_cursor(slot), frames_now, request);
            let plan = plan_of_request(table, fresh_cursor(slot), frames_now, request);
            let ends = endings(table, fresh_cursor(slot), frames_now, request);
            &&& request <= whole ==> cursor == Some(
                Cursor {
                    index: slot,
                    frame: (request * frames_now) as usize,
                    playing: true,
                    queue: Seq::empty(),
                },
            ) && ends == 0
            &&& request < whole ==> plan == RenderPlan {
                first: Segment {
                    slot,
                    start: (request * frames_now) as usize,
                    count: frames_now as usize,
                },
                second: no_segment(),
                ended: false,
            }
            &&& request == whole ==> plan == RenderPlan {
                first: Segment {
                    slot,
                    start: (whole * frames_now) as usize,
                    count: (length - whole * frames_now) as usize,
                },
                second: no_segment(),
                ended: true,
            }
            &&& request > whole ==> cursor == ended_cursor(slot) && plan == silent_plan() && ends
                == 1
        }),
    decreases request,
{
    let track = table[slot as int]->0;
    let length = track.play_end();
    let whole = length / frames_now;
    assert(length <= usize::MAX) by {
        assert(track.data@[0].len() == track.data@[0]@.len());
    }
    assert(whole * frames_now <= length < whole * frames_now + frames_now) by (nonlinear_arith)
        requires
            whole == length / frames_now,
            frames_now > 0,
    ;
    if request > 0 {
        let earlier = (request - 1) as nat;
        lemma_drain(table, slot, frames_now, earlier);
        assert(request * frames_now == earlier * frames_now + frames_now) by (nonlinear_arith)
            requires
                request == earlier + 1,
        ;
        if earlier < whole {
            assert(request * frames_now <= whole * frames_now) by (nonlinear_arith)
                requires
                    request <= whole,
            ;
        }
    } else {
        assert(0 * frames_now == 0) by (nonlinear_arith);
    }
    if request <= whole {
        assert(request * frames_now <= whole * frames_now) by (nonlinear_arith)
            requires
                request <= whole,
        ;
        if request < whole {
            assert(request * frames_now + frames_now <= whole * frames_now) by (nonlinear_arith)
                requires
                    request < whole,
            ;
        }
    }
}

/// Where the last request is a partial one, the number of requests that
/// drain a track is its length over the request size, rounded up: after
/// that many, playback has ended, once.
pub proof fn lemma_drain_takes_rounded_up_requests<T: Copy>(
    table: Table<T>,
    slot: usize,
    frames_now: nat,
)
    requires
        occupied(table, slot as int),
        table[slot as int]->0.wf(),
        frames_now > 0,
        table[slot as int]->0.play_end() % frames_now != 0,
    ensures
        ({
            let length = table[slot as int]->0.play_end();
            let requests = ((length + frames_now - 1) / frames_now as int) as nat;
            &&& cursor_after_requests(table, fresh_cursor(slot), frames_now, requests)
                == ended_cursor(slot)
            &&& endings(table, fresh_cursor(slot), frames_now, requests) == 1
        }),
{
    let length = table[slot as int]->0.play_end();
    let whole = length / frames_now;
    let requests = ((length + frames_now - 1) / frames_now as int) as nat;
    assert(requests == whole + 1) by (nonlinear_arith)
        requires
            whole == length / frames_now,
            requests == ((length + frames_now - 1) / frames_now as int) as nat,
            length % frames_now != 0,
            frames_now > 0,
    ;
    lemma_drain(table, slot, frames_now, requests);
}

/// A player for stereo tracks of samples `T`.
pub struct AudioPlayer<T> {
    /// The loaded tracks by slot; a removed slot is empty.
    pub tracks: Vec<Option<AudioTrack<T, 2>>>,
    pub playback_state: Option<PlaybackState>,
}

/// Every track of the table is well formed, and the table does not end on an
/// empty slot.
pub open spec fn table_wf<T: Copy>(table: Table<T>) -> bool {
    &&& forall|i: int| 0 <= i < table.len() && (#[trigger] table[i]) is Some ==> table[i]->0.wf()
    &&& table.len() > 0 ==> table.last() is Some
}

impl<T: Copy> AudioPlayer<T> {
    /// The player's invariant, which is that of its table.
    pub open spec fn wf(&self) -> bool {
        table_wf(self.tracks@)
    }

    /// The cursor, as a plain value.
    pub open spec fn cursor(&self) -> Option<Cursor> {
        cursor_of(self.playback_state)
    }

    /// An idle player without tracks.
    pub fn new() -> (player: Self)
        ensures
            player.wf(),
            player.tracks@.len() == 0,
            player.playback_state is None,
    {
        AudioPlayer { tracks: Vec::new(), playback_state: None }
    }

    /// Puts `track` into the lowest empty slot, or behind the last slot
    /// where none is empty, and returns the slot.
    pub fn add_track(&mut self, track: AudioTrack<T, 2>) -> (slot: usize)
        requires
            old(self).wf(),
            track.wf(),
        ensures
            final(self).wf(),
            slot == first_free(old(self).tracks@, 0),
            final(self).tracks@ == with_track(old(self).tracks@, track),
            final(self).playback_state == old(self).playback_state,
    {
        let mut i: usize = 0;
        while i < self.tracks.len() && self.tracks[i].is_some()
            invariant
                *self == *old(self),
                i <= self.tracks@.len(),
                first_free(self.tracks@, 0) == first_free(self.tracks@, i as int),
            decreases self.tracks@.len() - i,
        {
            i += 1;
        }
        if i < self.tracks.len() {
            self.tracks[i] = Some(track);
        } else {
            self.tracks.push(Some(track));
        }
        i
    }

    /// Empties slot `index`; where it was the last slot, the table shrinks
    /// to end on its highest occupied slot.
    pub fn remove_track(&mut self, index: usize)
        requires
            old(self).wf(),
        ensures
            final(self).wf(),
            final(self).tracks@ == without_slot(old(self).tracks@, index as int),
            final(self).playback_state == old(self).playback_state,
    {
        if index >= self.tracks.len() {
            return ;
        }
        self.tracks[index] = None;
        if index == self.tracks.len() - 1 {
            let ghost emptied = self.tracks@;
            proof {
                lemma_live_length(emptied);
            }
            while self.tracks.len() > 0 && self.tracks[self.tracks.len() - 1].is_none()
                invariant
                    self.playback_state == old(self).playback_state,
                    self.tracks@.len() <= emptied.len(),
                    self.tracks@ == emptied.take(self.tracks@.len() as int),
                    live_length(self.tracks@) == live_length(emptied),
                decreases self.tracks@.len(),
            {
                let ghost longer = self.tracks@;
                self.tracks.pop();
                assert(self.tracks@ == longer.drop_last());
                assert(self.tracks@ =~= emptied.take(self.tracks@.len() as int));
            }
            proof {
                lemma_live_length(self.tracks@);
                assert(self.tracks@ =~= trimmed(emptied));
            }
        }
    }

    /// Adds `tracks` one by one, in order, and returns the slot of each.
    pub fn add_tracks(&mut self, tracks: Vec<AudioTrack<T, 2>>) -> (slots: Vec<usize>)
        requires
            old(self).wf(),
            forall|i: int| 0 <= i < tracks@.len() ==> (#[trigger] tracks@[i]).wf(),
        ensures
            final(self).wf(),
            final(self).tracks@ == with_tracks(old(self).tracks@, tracks@),
            final(self).playback_state == old(self).playback_state,
            slots@.len() == tracks@.len(),
            forall|i: int|
                0 <= i < tracks@.len() ==> (#[trigger] slots@[i]) as int == first_free(
                    with_tracks(old(self).tracks@, tracks@.take(i)),
                    0,
                ),
    {
        let mut slots: Vec<usize> = Vec::new();
        let ghost all = tracks@;
        for track in it: tracks
            invariant
                it.seq() == all,
                forall|i: int| 0 <= i < all.len() ==> (#[trigger] all[i]).wf(),
                self.wf(),
                self.playback_state == old(self).playback_state,
                self.tracks@ == with_tracks(old(self).tracks@, all.take(it.index() as int)),
                slots@.len() == it.index(),
                forall|i: int|
                    0 <= i < it.index() ==> (#[trigger] slots@[i]) as int == first_free(
                        with_tracks(old(self).tracks@, all.take(i)),
                        0,
                    ),
        {
            proof {
                let done = it.index() as int;
                assert(all.take(done + 1).drop_last() =~= all.take(done));
                assert(all.take(done + 1).last() == all[done]);
                assert(all[done].wf());
            }
            let slot: usize = self.add_track(track);
            slots.push(slot);
        }
        assert(all.take(all.len() as int) =~= all);
        slots
    }

    /// Starts playing the track in slot `index` from the start of chapter
    /// `chapter`, with an empty queue; whatever was playing or queued is
    /// forgotten. An empty slot changes nothing.
    pub fn play_track(&mut self, index: usize, chapter: usize)
        ensures
            final(self).tracks == old(self).tracks,
            occupied(old(self).tracks@, index as int) ==> final(self).cursor() == Some(
                Cursor {
                    index,
                    frame: chapter_frame(
                        old(self).tracks@[index as int]->0.chapter_ends@,
                        chapter as int,
                    ),
                    playing: true,
                    queue: Seq::empty(),
                },
            ),
            !occupied(old(self).tracks@, index as int) ==> final(self).playback_state == old(
                self,
            ).playback_state,
    {
        if index < self.tracks.len() {
            match &self.tracks[index] {
                Some(track) => {
                    let frame: usize = if 1 <= chapter && chapter <= track.chapter_ends.len() {
                        track.chapter_ends[chapter - 1]
                    } else {
                        0
                    };
                    self.playback_state = Some(
                        PlaybackState { index, frame, playing: true, queue: VecDeque::new() },
                    );
                },
                None => {},
            }
        }
    }

    /// Whether a track is being played.
    pub fn is_playing(&self) -> (playing: bool)
        ensures
            playing == (self.playback_state is Some && self.playback_state->0.playing),
    {
        match &self.playback_state {
            Some(state) => state.playing,
            None => false,
        }
    }

    /// Puts slot `index` at the end of the queue; an idle player has no
    /// queue, and nothing happens.
    pub fn queue_track(&mut self, index: usize)
        ensures
            final(self).tracks == old(self).tracks,
            final(self).cursor() == match old(self).cursor() {
                Some(cursor) => Some(Cursor { queue: cursor.queue.push(index), ..cursor }),
                None => None,
            },
    {
        match &mut self.playback_state {
            Some(state) => {
                state.queue.push_back(index);
            },
            None => {},
        }
    }

    /// Pauses: the cursor stays where it is, and the next request for output
    /// produces nothing.
    pub fn stop(&mut self)
        ensures
            final(self).tracks == old(self).tracks,
            final(self).cursor() == match old(self).cursor() {
                Some(cursor) => Some(Cursor { playing: false, ..cursor }),
                None => None,
            },
    {
        match &mut self.playback_state {
            Some(state) => {
                state.playing = false;
            },
            None => {},
        }
    }

    /// Moves the cursor to `frame` of the active track. The frame is taken
    /// as it is, not clamped to the track.
    pub fn seek(&mut self, frame: usize)
        ensures
            final(self).tracks == old(self).tracks,
            final(self).cursor() == match old(self).cursor() {
                Some(cursor) => Some(Cursor { frame, ..cursor }),
                None => None,
            },
    {
        match &mut self.playback_state {
            Some(state) => {
                state.frame = frame;
            },
            None => {},
        }
    }

    /// Serves one request for output: `data` takes as many whole frames as
    /// it has room for. Returns whether playback ended with this request.
    ///
    /// The frames go to the start of `data`, interleaved; where fewer are
    /// produced than `data` holds, the rest of `data` is left as it was.
    pub fn render(&mut self, data: &mut [T]) -> (ended: bool)
        requires
            old(self).wf(),
        ensures
            final(self).tracks == old(self).tracks,
            final(self).cursor() == cursor_after(
                old(self).tracks@,
                old(self).cursor(),
                old(data)@.len() / 2,
            ),
            final(data)@ == rendered(
                old(self).tracks@,
                plan_of(old(self).tracks@, old(self).cursor(), old(data)@.len() / 2),
                old(data)@,
            ),
            ended == plan_of(old(self).tracks@, old(self).cursor(), old(data)@.len() / 2).ended,
    {
        let frames_now: usize = data.len() / 2;
        let plan = advance(&mut self.playback_state, &self.tracks, frames_now);
        fill(&self.tracks, &plan, data);
        plan.ended
    }
}

} // verus!
