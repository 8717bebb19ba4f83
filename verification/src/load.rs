//! The loader's own steps: the plan of a load, made before any sample is
//! decoded, and the placing of decoded packets in the raw buffer.
//!
//! Opening, probing and decoding the sources, and the resampler, are the
//! caller's; between them the caller runs a `ResampleStage`.

use crate::plan::{
    all_known, ceil_scale, chapter_ends_raw, chapter_length, lemma_total_frames_monotone,
    max_block_output, padded, padded_length, resampled_lengths, total_frames, total_too_long,
    unknown_length, LoadError, Ratio, OUTPUT_RATE, SAFETY_MARGIN,
};
use crate::track::{overwrite, AudioTrack};
use vstd::prelude::*;

verus! {

/// The raw frames that the resampler consumes per call.
pub const BLOCK_SIZE: usize = 1024;

/// All that is fixed about a load before decoding starts.
#[derive(Debug, Clone)]
pub struct LoadPlan {
    /// The cumulative raw frame count at the end of each source.
    pub chapter_ends_raw: Vec<usize>,
    /// The length of the raw buffer: the total, padded to whole blocks.
    pub padded_length: usize,
    pub ratio: Ratio,
    /// The exact output length of each chapter.
    pub lengths: Vec<usize>,
    /// The most frames that the resampler emits per block.
    pub max_output: usize,
}

/// Some chapter's exact output length is not addressable.
pub open spec fn chapter_too_long(ends: Seq<usize>, ratio: Ratio) -> bool {
    exists|i: int| 0 <= i < ends.len() && #[trigger] chapter_length(ends, i, ratio) > usize::MAX
}

/// The sources can be laid out: there is one, all declare their frame
/// counts, and the total is addressable.
pub open spec fn counts_usable(counts: Seq<Option<u64>>) -> bool {
    &&& counts.len() > 0
    &&& all_known(counts, counts.len() as int)
    &&& total_frames(counts) <= usize::MAX
}

/// The cumulative ends of usable counts.
pub open spec fn ends_of(counts: Seq<Option<u64>>) -> Seq<usize> {
    Seq::new(counts.len(), |i: int| total_frames(counts.take(i + 1)) as usize)
}

impl LoadPlan {
    /// The plan is the one for sources of these frame counts at this rate.
    pub open spec fn is_for(&self, counts: Seq<Option<u64>>, source_rate: u32) -> bool {
        &&& self.chapter_ends_raw@ == ends_of(counts)
        &&& self.padded_length == padded(total_frames(counts), BLOCK_SIZE as nat)
        &&& self.ratio == (Ratio { numerator: OUTPUT_RATE, denominator: source_rate })
        &&& self.max_output == ceil_scale(BLOCK_SIZE as nat, OUTPUT_RATE as nat, source_rate as nat)
            + SAFETY_MARGIN
        &&& self.lengths@.len() == counts.len()
        &&& forall|i: int|
            0 <= i < counts.len() ==> (#[trigger] self.lengths@[i]) as int == chapter_length(
                ends_of(counts),
                i,
                self.ratio,
            )
    }
}

/// Plans the load of sources with the declared frame counts `counts`, all
/// at `source_rate` frames per second.
///
/// The steps are taken in this order, and the first that fails decides the
/// error: the cumulative chapter ends, the padded length of the raw buffer,
/// the ratio, the bound on a block's output, the exact chapter lengths.
pub fn plan_load(counts: &Vec<Option<u64>>, source_rate: u32) -> (result: Result<
    LoadPlan,
    LoadError,
>)
    ensures
        match result {
            Ok(plan) => {
                &&& counts_usable(counts@)
                &&& source_rate > 0
                &&& plan.is_for(counts@, source_rate)
            },
            Err(LoadError::EmptyInput) => counts@.len() == 0,
            Err(LoadError::UnknownLength) => unknown_length(counts@),
            Err(LoadError::TooLong) => total_too_long(counts@) || (counts_usable(counts@) && padded(
                total_frames(counts@),
                BLOCK_SIZE as nat,
            ) > usize::MAX),
            Err(LoadError::ResampleFailed) => {
                &&& counts_usable(counts@)
                &&& padded(total_frames(counts@), BLOCK_SIZE as nat) <= usize::MAX
                &&& (source_rate == 0 || ceil_scale(
                    BLOCK_SIZE as nat,
                    OUTPUT_RATE as nat,
                    source_rate as nat,
                ) + SAFETY_MARGIN > usize::MAX || chapter_too_long(
                    ends_of(counts@),
                    Ratio { numerator: OUTPUT_RATE, denominator: source_rate },
                ))
            },
            Err(_) => false,
        },
{
    let chapter_ends_raw = match chapter_ends_raw(counts) {
        Ok(ends) => ends,
        Err(e) => {
            return Err(e);
        },
    };
    proof {
        assert(counts@.take(counts@.len() as int) =~= counts@);
        assert(chapter_ends_raw@ =~= ends_of(counts@));
        assert forall|i: int, j: int| 0 <= i <= j < chapter_ends_raw@.len() implies
            chapter_ends_raw@[i] <= chapter_ends_raw@[j] by {
            lemma_total_frames_monotone(counts@, i + 1, j + 1);
        }
        lemma_total_frames_monotone(counts@, counts@.len() as int - 1, counts@.len() as int);
    }
    let total: usize = chapter_ends_raw[chapter_ends_raw.len() - 1];
    let padded_length = match padded_length(total, BLOCK_SIZE) {
        Ok(length) => length,
        Err(e) => {
            return Err(e);
        },
    };
    let ratio = match Ratio::to_output_rate(source_rate) {
        Ok(ratio) => ratio,
        Err(e) => {
            return Err(e);
        },
    };
    let max_output = match max_block_output(BLOCK_SIZE, ratio) {
        Ok(limit) => limit,
        Err(e) => {
            return Err(e);
        },
    };
    let lengths = match resampled_lengths(&chapter_ends_raw, ratio) {
        Ok(lengths) => lengths,
        Err(e) => {
            return Err(e);
        },
    };
    Ok(LoadPlan { chapter_ends_raw, padded_length, ratio, lengths, max_output })
}

/// The one sample rate of all sources. One ratio serves the whole load, so
/// sources of different rates are refused with `MixedRates`, and a source
/// whose rate is not known with `ProbeFailed`; of the two, the first in the
/// order of the sources decides.
pub fn shared_rate(rates: &Vec<Option<u32>>) -> (result: Result<u32, LoadError>)
    ensures
        match result {
            Ok(rate) => rates@.len() > 0 && forall|i: int|
                0 <= i < rates@.len() ==> #[trigger] rates@[i] == Some(rate),
            Err(LoadError::EmptyInput) => rates@.len() == 0,
            Err(LoadError::ProbeFailed) => exists|i: int|
                0 <= i < rates@.len() && (#[trigger] rates@[i]) is None && forall|j: int|
                    0 <= j < i ==> #[trigger] rates@[j] == rates@[0],
            Err(LoadError::MixedRates) => exists|i: int|
                0 < i < rates@.len() && (#[trigger] rates@[i]) is Some && rates@[i] != rates@[0]
                    && forall|j: int| 0 <= j < i ==> rates@[j] is Some && #[trigger] rates@[j]
                    == rates@[0],
            Err(_) => false,
        },
{
    if rates.len() == 0 {
        return Err(LoadError::EmptyInput);
    }
    let first: u32 = match rates[0] {
        Some(rate) => rate,
        None => {
            return Err(LoadError::ProbeFailed);
        },
    };
    let mut i: usize = 1;
    while i < rates.len()
        invariant
            1 <= i <= rates@.len(),
            rates@[0] == Some(first),
            forall|j: int| 0 <= j < i ==> #[trigger] rates@[j] == Some(first),
        decreases rates@.len() - i,
    {
        match rates[i] {
            None => {
                return Err(LoadError::ProbeFailed);
            },
            Some(rate) => {
                if rate != first {
                    return Err(LoadError::MixedRates);
                }
            },
        }
        i += 1;
    }
    Ok(first)
}

/// Every channel of a packet has `frames` samples, and there are `N` of
/// them.
pub open spec fn packet_shape<T>(packet: Seq<Vec<T>>, channels: nat, frames: nat) -> bool {
    &&& packet.len() == channels
    &&& forall|c: int| 0 <= c < packet.len() ==> (#[trigger] packet[c])@.len() == frames
}

/// The frames of a packet: the length of its first channel.
pub open spec fn packet_frames<T>(packet: Seq<Vec<T>>) -> nat {
    if packet.len() == 0 {
        0
    } else {
        packet[0]@.len()
    }
}

/// A packet can be placed at frame `at` of a raw buffer of `frames` frames
/// and `channels` channels.
pub open spec fn packet_fits<T>(packet: Seq<Vec<T>>, channels: nat, frames: nat, at: nat) -> bool {
    &&& packet_shape(packet, channels, packet_frames(packet))
    &&& at + packet_frames(packet) <= frames
}

/// Places a decoded packet, one vector of samples per channel, in the raw
/// buffer at frame `at`, and returns the frame behind it.
///
/// A packet with another number of channels, with channels of different
/// lengths, or that reaches past the end of the buffer is refused with
/// `DecodeFailed`, and the buffer stays as it was.
#[verifier::loop_isolation(false)]
pub fn write_packet<T: Copy, const N: usize>(
    raw: &mut AudioTrack<T, N>,
    at: usize,
    packet: &Vec<Vec<T>>,
) -> (result: Result<usize, LoadError>)
    requires
        old(raw).wf(),
    ensures
        final(raw).wf(),
        final(raw).frames() == old(raw).frames(),
        final(raw).chapter_ends == old(raw).chapter_ends,
        match result {
            Ok(next) => {
                &&& packet_fits(packet@, N as nat, old(raw).frames(), at as nat)
                &&& next == at + packet_frames(packet@)
                &&& forall|c: int|
                    0 <= c < N ==> #[trigger] final(raw)@[c] == overwrite(
                        old(raw)@[c],
                        at as int,
                        packet@[c]@,
                    )
            },
            Err(e) => {
                &&& e == LoadError::DecodeFailed
                &&& !packet_fits(packet@, N as nat, old(raw).frames(), at as nat)
                &&& *final(raw) == *old(raw)
            },
        },
{
    if packet.len() != N {
        return Err(LoadError::DecodeFailed);
    }
    let frames: usize = if N == 0 {
        0
    } else {
        packet[0].len()
    };
    let mut c: usize = 0;
    while c < N
        invariant
            c <= N,
            forall|k: int| 0 <= k < c ==> (#[trigger] packet@[k])@.len() == frames,
        decreases N - c,
    {
        if packet[c].len() != frames {
            return Err(LoadError::DecodeFailed);
        }
        c += 1;
    }
    let length: usize = raw.length();
    if at > length || frames > length - at {
        return Err(LoadError::DecodeFailed);
    }
    let mut c: usize = 0;
    while c < N
        invariant
            c <= N,
            raw.data@.len() == N,
            raw.chapter_ends == old(raw).chapter_ends,
            forall|k: int| c <= k < N ==> (#[trigger] raw.data@[k])@ == old(raw).data@[k]@,
            forall|k: int|
                0 <= k < c ==> (#[trigger] raw.data@[k])@ == overwrite(
                    old(raw)@[k],
                    at as int,
                    packet@[k]@,
                ),
        decreases N - c,
    {
        let source = &packet[c];
        assert(old(raw)@[c as int].len() == old(raw).frames());
        let ghost channels = raw.data@;
        let ghost before = raw.data@[c as int]@;
        let mut i: usize = 0;
        while i < frames
            invariant
                i <= frames,
                raw.data@.len() == N,
                raw.chapter_ends == old(raw).chapter_ends,
                forall|k: int| 0 <= k < N && k != c ==> #[trigger] raw.data@[k] == channels[k],
                raw.data@[c as int]@.len() == length,
                forall|j: int|
                    0 <= j < length ==> raw.data@[c as int]@[j] == (if at <= j < at + i {
                        source@[j - at]
                    } else {
                        before[j]
                    }),
            decreases frames - i,
        {
            raw.data[c][at + i] = source[i];
            i += 1;
        }
        assert(raw.data@[c as int]@ =~= overwrite(old(raw)@[c as int], at as int, packet@[c as int]@));
        c += 1;
    }
    Ok(at + frames)
}

} // verus!
