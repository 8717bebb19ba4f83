//! Planning a load: cumulative chapter ends, block padding, and the
//! chapter-exact output lengths under a rational resample ratio.

use vstd::prelude::*;

verus! {

/// Why a load was abandoned. A load either yields fully populated tracks or
/// one of these; nothing partial is ever handed out.
#[derive(Debug, Clone, Copy, PartialEq, Eq, Structural)]
pub enum LoadError {
    /// The list of inputs was empty.
    EmptyInput,
    /// A file could not be opened or read.
    Io,
    /// The container format could not be detected.
    ProbeFailed,
    /// No decoder exists for the selected elementary track.
    DecoderUnsupported,
    /// A source does not declare its total frame count.
    UnknownLength,
    /// A packet failed to decode, or did not fit the declared length.
    DecodeFailed,
    /// The resampler failed, or an output length is not addressable.
    ResampleFailed,
    /// The concatenated sources are longer than the machine can address.
    TooLong,
    /// The sources do not all have one sample rate.
    MixedRates,
}

/// Frames that one resampler call can emit beyond the scaled block size.
pub const SAFETY_MARGIN: usize = 10;

/// The frame count of a source, 0 where it declares none.
pub open spec fn known_or_zero(count: Option<u64>) -> nat {
    match count {
        Some(n) => n as nat,
        None => 0,
    }
}

/// The sum of the declared frame counts in `counts`.
pub open spec fn total_frames(counts: Seq<Option<u64>>) -> nat
    decreases counts.len(),
{
    if counts.len() == 0 {
        0
    } else {
        total_frames(counts.drop_last()) + known_or_zero(counts.last())
    }
}

/// Every source among the first `upto` declares its frame count.
pub open spec fn all_known(counts: Seq<Option<u64>>, upto: int) -> bool {
    forall|j: int| 0 <= j < upto ==> (#[trigger] counts[j]) is Some
}

/// A source without a declared frame count is reached before the running
/// total leaves the addressable range.
pub open spec fn unknown_length(counts: Seq<Option<u64>>) -> bool {
    exists|i: int|
        0 <= i < counts.len() && (#[trigger] counts[i]) is None && total_frames(counts.take(i))
            <= usize::MAX
}

/// The running total leaves the addressable range before any source without
/// a declared frame count is reached.
pub open spec fn total_too_long(counts: Seq<Option<u64>>) -> bool {
    exists|i: int|
        0 <= i < counts.len() && all_known(counts, i + 1) && #[trigger] total_frames(
            counts.take(i + 1),
        ) > usize::MAX
}

/// The total grows with the prefix.
pub proof fn lemma_total_frames_monotone(counts: Seq<Option<u64>>, i: int, j: int)
    requires
        0 <= i <= j <= counts.len(),
    ensures
        total_frames(counts.take(i)) <= total_frames(counts.take(j)),
    decreases j - i,
{
    if i < j {
        lemma_total_frames_monotone(counts, i, j - 1);
        assert(counts.take(j).drop_last() =~= counts.take(j - 1));
    }
}

/// The cumulative raw chapter ends of the sources, in order.
///
/// The sources are examined in order, and the first one that either declares
/// no frame count or carries the running total past `usize::MAX` decides the
/// error.
pub fn chapter_ends_raw(counts: &Vec<Option<u64>>) -> (result: Result<Vec<usize>, LoadError>)
    ensures
        match result {
            Ok(ends) => {
                &&& counts@.len() > 0
                &&& all_known(counts@, counts@.len() as int)
                &&& total_frames(counts@) <= usize::MAX
                &&& ends@.len() == counts@.len()
                &&& forall|i: int|
                    0 <= i < ends@.len() ==> (#[trigger] ends@[i]) as nat == total_frames(
                        counts@.take(i + 1),
                    )
            },
            Err(LoadError::EmptyInput) => counts@.len() == 0,
            Err(LoadError::UnknownLength) => unknown_length(counts@),
            Err(LoadError::TooLong) => total_too_long(counts@),
            Err(_) => false,
        },
{
    if counts.len() == 0 {
        return Err(LoadError::EmptyInput);
    }
    let mut ends: Vec<usize> = Vec::new();
    let mut total: usize = 0;
    let mut i: usize = 0;
    assert(counts@.take(0) =~= Seq::<Option<u64>>::empty());
    while i < counts.len()
        invariant
            i <= counts@.len(),
            all_known(counts@, i as int),
            total as nat == total_frames(counts@.take(i as int)),
            ends@.len() == i,
            forall|k: int|
                0 <= k < i ==> (#[trigger] ends@[k]) as nat == total_frames(counts@.take(k + 1)),
        decreases counts@.len() - i,
    {
        proof {
            assert(counts@.take(i + 1).drop_last() =~= counts@.take(i as int));
            assert(counts@.take(i + 1).last() == counts@[i as int]);
        }
        match counts[i] {
            None => {
                return Err(LoadError::UnknownLength);
            },
            Some(n) => {
                if n > (usize::MAX - total) as u64 {
                    proof {
                        assert(all_known(counts@, i + 1));
                        assert(total_frames(counts@.take(i + 1)) > usize::MAX);
                    }
                    return Err(LoadError::TooLong);
                }
                total = total + n as usize;
                ends.push(total);
            },
        }
        i += 1;
    }
    assert(counts@.take(counts@.len() as int) =~= counts@);
    Ok(ends)
}

/// `frames` rounded up to a multiple of `block`.
pub open spec fn padded(frames: nat, block: nat) -> nat {
    ((frames + block - 1) / block as int * block) as nat
}

/// `padded` is the least multiple of the block size that holds the frames.
pub proof fn lemma_padded_is_least_multiple(frames: nat, block: nat)
    requires
        block > 0,
    ensures
        padded(frames, block) % block == 0,
        frames <= padded(frames, block) < frames + block,
{
    let q = (frames + block - 1) / block as int;
    assert(q * block <= frames + block - 1 < q * block + block && q >= 0) by (nonlinear_arith)
        requires
            q == (frames + block - 1) / block as int,
            block > 0,
    ;
    assert((q * block) % (block as int) == 0) by (nonlinear_arith)
        requires
            block > 0,
    ;
}

/// The padded length of a raw buffer of `frames` frames: the least multiple
/// of `block` that is at least `frames`, or `TooLong` where that multiple is
/// past `usize::MAX`.
pub fn padded_length(frames: usize, block: usize) -> (result: Result<usize, LoadError>)
    requires
        block > 0,
    ensures
        match result {
            Ok(length) => length == padded(frames as nat, block as nat),
            Err(e) => e == LoadError::TooLong && padded(frames as nat, block as nat) > usize::MAX,
        },
{
    proof {
        lemma_padded_is_least_multiple(frames as nat, block as nat);
    }
    let rest: usize = frames % block;
    let ghost q = (frames + block - 1) / block as int;
    assert(frames == (frames / block) * block + rest && rest < block) by (nonlinear_arith)
        requires
            rest == frames % block,
            block > 0,
    ;
    if rest == 0 {
        assert(padded(frames as nat, block as nat) == frames) by (nonlinear_arith)
            requires
                frames == (frames / block) * block,
                block > 0,
                frames <= padded(frames as nat, block as nat) < frames + block,
                padded(frames as nat, block as nat) % (block as nat) == 0,
        ;
        Ok(frames)
    } else {
        let up: usize = block - rest;
        assert(padded(frames as nat, block as nat) == frames + up) by (nonlinear_arith)
            requires
                frames == (frames / block) * block + rest,
                0 < rest < block,
                up == block - rest,
                frames <= padded(frames as nat, block as nat) < frames + block,
                padded(frames as nat, block as nat) % (block as nat) == 0,
        ;
        if up > usize::MAX - frames {
            Err(LoadError::TooLong)
        } else {
            Ok(frames + up)
        }
    }
}

/// The sample rate of every loaded track, in frames per second.
pub const OUTPUT_RATE: u32 = 48000;

/// `frames * numerator / denominator`, rounded to the nearest integer, a
/// half rounding up.
pub open spec fn rounded_scale(frames: nat, numerator: nat, denominator: nat) -> nat {
    ((2 * frames * numerator + denominator) as int / (2 * denominator) as int) as nat
}

/// `frames * numerator / denominator`, rounded up.
pub open spec fn ceil_scale(frames: nat, numerator: nat, denominator: nat) -> nat {
    ((frames * numerator + denominator - 1) / denominator as int) as nat
}

/// Scaling is monotone in the frame count.
pub proof fn lemma_rounded_scale_monotone(a: nat, b: nat, numerator: nat, denominator: nat)
    requires
        a <= b,
        denominator > 0,
    ensures
        rounded_scale(a, numerator, denominator) <= rounded_scale(b, numerator, denominator),
{
    let x = (2 * a * numerator + denominator) as int;
    let y = (2 * b * numerator + denominator) as int;
    let d = (2 * denominator) as int;
    assert(x <= y) by (nonlinear_arith)
        requires
            a <= b,
            x == 2 * a * numerator + denominator,
            y == 2 * b * numerator + denominator,
    ;
    assert(x / d <= y / d && 0 <= x / d) by (nonlinear_arith)
        requires
            0 <= x <= y,
            d > 0,
    ;
}

/// A ratio of one leaves every frame count as it is.
pub proof fn lemma_rounded_scale_unit(frames: nat, rate: nat)
    requires
        rate > 0,
    ensures
        rounded_scale(frames, rate, rate) == frames,
{
    let x = (2 * frames * rate + rate) as int;
    let d = (2 * rate) as int;
    assert(x == frames * d + rate) by (nonlinear_arith)
        requires
            x == 2 * frames * rate + rate,
            d == 2 * rate,
    ;
    assert(x / d == frames) by (nonlinear_arith)
        requires
            x == frames * d + rate,
            d == 2 * rate,
            rate > 0,
    ;
}

/// An output rate over a source rate.
#[derive(Debug, Clone, Copy, PartialEq, Eq, Structural)]
pub struct Ratio {
    pub numerator: u32,
    pub denominator: u32,
}

impl Ratio {
    /// A ratio divides by something.
    pub open spec fn wf(&self) -> bool {
        self.denominator > 0
    }

    /// The output position that the raw position `frames` maps to.
    pub open spec fn position(&self, frames: nat) -> nat {
        rounded_scale(frames, self.numerator as nat, self.denominator as nat)
    }

    /// The ratio that takes `source_rate` to the output rate; a source rate
    /// of zero cannot be resampled.
    pub fn to_output_rate(source_rate: u32) -> (result: Result<Ratio, LoadError>)
        ensures
            match result {
                Ok(ratio) => source_rate > 0 && ratio.wf() && ratio.numerator == OUTPUT_RATE
                    && ratio.denominator == source_rate,
                Err(e) => source_rate == 0 && e == LoadError::ResampleFailed,
            },
    {
        if source_rate == 0 {
            Err(LoadError::ResampleFailed)
        } else {
            Ok(Ratio { numerator: OUTPUT_RATE, denominator: source_rate })
        }
    }

    /// The output position of the raw position `frames`.
    pub fn scale(&self, frames: usize) -> (scaled: u128)
        requires
            self.wf(),
        ensures
            scaled == self.position(frames as nat),
    {
        let twice: u128 = 2 * (frames as u128);
        assert(twice * self.numerator <= 0x2_0000_0000_0000_0000 * 0x1_0000_0000) by (nonlinear_arith)
            requires
                twice <= 0x2_0000_0000_0000_0000,
                self.numerator <= 0x1_0000_0000,
        ;
        let dividend: u128 = twice * (self.numerator as u128) + (self.denominator as u128);
        assert(2 * frames * self.numerator == twice * self.numerator) by (nonlinear_arith)
            requires
                twice == 2 * frames,
        ;
        dividend / (2 * (self.denominator as u128))
    }

    /// The most frames that scaling `frames` raw frames can need: the scaled
    /// count rounded up.
    pub fn scale_up(&self, frames: usize) -> (scaled: u128)
        requires
            self.wf(),
        ensures
            scaled == ceil_scale(frames as nat, self.numerator as nat, self.denominator as nat),
    {
        assert(frames * self.numerator <= 0x1_0000_0000_0000_0000 * 0x1_0000_0000) by (nonlinear_arith)
            requires
                frames <= 0x1_0000_0000_0000_0000,
                self.numerator <= 0x1_0000_0000,
        ;
        let dividend: u128 = (frames as u128) * (self.numerator as u128) + (
        self.denominator as u128) - 1;
        dividend / (self.denominator as u128)
    }
}

/// The upper bound on what one resampler call emits for a block of `block`
/// raw frames: the scaled block rounded up, plus the safety margin.
pub fn max_block_output(block: usize, ratio: Ratio) -> (result: Result<usize, LoadError>)
    requires
        ratio.wf(),
    ensures
        match result {
            Ok(limit) => limit == ceil_scale(
                block as nat,
                ratio.numerator as nat,
                ratio.denominator as nat,
            ) + SAFETY_MARGIN,
            Err(e) => e == LoadError::ResampleFailed && ceil_scale(
                block as nat,
                ratio.numerator as nat,
                ratio.denominator as nat,
            ) + SAFETY_MARGIN > usize::MAX,
        },
{
    let scaled: u128 = ratio.scale_up(block);
    if scaled > (usize::MAX - SAFETY_MARGIN) as u128 {
        Err(LoadError::ResampleFailed)
    } else {
        Ok(scaled as usize + SAFETY_MARGIN)
    }
}

/// The raw frame at which chapter `i` starts.
pub open spec fn chapter_start(ends: Seq<usize>, i: int) -> nat {
    if i <= 0 {
        0
    } else {
        ends[i - 1] as nat
    }
}

/// The exact output length of chapter `i`: the difference of the scaled
/// cumulative ends, not the scaled length of the chapter by itself.
pub open spec fn chapter_length(ends: Seq<usize>, i: int, ratio: Ratio) -> int {
    ratio.position(ends[i] as nat) - ratio.position(chapter_start(ends, i))
}

/// `ends` never decreases.
pub open spec fn cumulative(ends: Seq<usize>) -> bool {
    forall|i: int, j: int| 0 <= i <= j < ends.len() ==> ends[i] <= ends[j]
}

/// The sum of `lengths`.
pub open spec fn sum_of(lengths: Seq<usize>) -> nat
    decreases lengths.len(),
{
    if lengths.len() == 0 {
        0
    } else {
        sum_of(lengths.drop_last()) + lengths.last() as nat
    }
}

/// The exact output length of every chapter, in order; `ResampleFailed`
/// where one of them is past `usize::MAX`.
pub fn resampled_lengths(ends: &Vec<usize>, ratio: Ratio) -> (result: Result<
    Vec<usize>,
    LoadError,
>)
    requires
        ratio.wf(),
        cumulative(ends@),
    ensures
        match result {
            Ok(lengths) => {
                &&& lengths@.len() == ends@.len()
                &&& forall|i: int|
                    0 <= i < ends@.len() ==> (#[trigger] lengths@[i]) as int == chapter_length(
                        ends@,
                        i,
                        ratio,
                    )
            },
            Err(e) => e == LoadError::ResampleFailed && exists|i: int|
                0 <= i < ends@.len() && #[trigger] chapter_length(ends@, i, ratio) > usize::MAX,
        },
{
    let mut lengths: Vec<usize> = Vec::new();
    let mut before: u128 = ratio.scale(0);
    let mut i: usize = 0;
    while i < ends.len()
        invariant
            i <= ends@.len(),
            ratio.wf(),
            cumulative(ends@),
            lengths@.len() == i,
            before == ratio.position(chapter_start(ends@, i as int)),
            forall|k: int|
                0 <= k < i ==> (#[trigger] lengths@[k]) as int == chapter_length(ends@, k, ratio),
        decreases ends@.len() - i,
    {
        let here: u128 = ratio.scale(ends[i]);
        proof {
            lemma_rounded_scale_monotone(
                chapter_start(ends@, i as int),
                ends@[i as int] as nat,
                ratio.numerator as nat,
                ratio.denominator as nat,
            );
        }
        let length: u128 = here - before;
        if length > usize::MAX as u128 {
            assert(chapter_length(ends@, i as int, ratio) > usize::MAX);
            return Err(LoadError::ResampleFailed);
        }
        lengths.push(length as usize);
        before = here;
        i += 1;
    }
    Ok(lengths)
}

/// Zero drift: the exact chapter lengths add up to the scaled total, however
/// many chapters there are and however short they are.
pub proof fn lemma_chapter_lengths_sum(ends: Seq<usize>, lengths: Seq<usize>, ratio: Ratio)
    requires
        ratio.wf(),
        lengths.len() == ends.len(),
        forall|i: int|
            0 <= i < ends.len() ==> (#[trigger] lengths[i]) as int == chapter_length(ends, i, ratio),
    ensures
        sum_of(lengths) == ratio.position(chapter_start(ends, ends.len() as int)),
    decreases ends.len(),
{
    if ends.len() == 0 {
        assert(ratio.position(0) == 0) by (nonlinear_arith)
            requires
                ratio.wf(),
                ratio.position(0) == ((2 * 0 * ratio.numerator + ratio.denominator) as int / (2
                    * ratio.denominator) as int) as nat,
        ;
    } else {
        let shorter = ends.drop_last();
        assert forall|i: int| 0 <= i < shorter.len() implies (#[trigger] lengths.drop_last()[i])
            as int == chapter_length(shorter, i, ratio) by {
            assert(lengths.drop_last()[i] == lengths[i]);
            assert(chapter_length(shorter, i, ratio) == chapter_length(ends, i, ratio));
        }
        lemma_chapter_lengths_sum(shorter, lengths.drop_last(), ratio);
        let last = ends.len() - 1;
        assert(chapter_start(shorter, shorter.len() as int) == chapter_start(ends, last));
        assert(lengths.last() as int == chapter_length(ends, last, ratio));
    }
}

} // verus!
