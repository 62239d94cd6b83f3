//! Resampling of animation tracks, baked animations, and sets of clips.

use crate::document::{Document, Track};
use crate::matrix::Matrix4;
use crate::skeleton::{
    buildable, can_build, has_skeleton, lemma_same_skeleton_attached, skeleton_of, Skeleton,
    SkeletonView,
};
use core::cmp::Ordering;
use vstd::prelude::*;
use vstd::std_specs::cmp::{PartialEqSpecImpl, PartialOrdSpecImpl};

verus! {

/// A fraction with a positive denominator.
#[derive(Clone, Copy, Debug, PartialEq, Eq)]
pub struct Ratio {
    pub num: i128,
    pub den: i128,
}

/// What decides one keyframe: its time, the segment of the source track
/// that it falls into, and how far into that segment it lies.
#[derive(Clone, Copy, Debug, PartialEq, Eq)]
pub struct Sample {
    /// Time of the keyframe, in ticks.
    pub start_time: i64,
    /// Position of the source sample that ends the segment; the one before
    /// it starts the segment.
    pub idx_keyframe: usize,
    /// Weight of the segment's end against its start.
    pub alpha: Ratio,
}

/// Duration of a track: from its first sample to its last.
pub open spec fn duration_of(sample_times: Seq<i64>) -> int {
    sample_times[sample_times.len() - 1] - sample_times[0]
}

/// Number of output frames that are resampled at the fixed step: one at each
/// multiple of `frame_time` from 0 to `duration`, both included.
pub open spec fn frame_count(duration: int, frame_time: int) -> nat {
    if duration < 0 {
        0
    } else {
        (duration / frame_time + 1) as nat
    }
}

/// The source segment that `time` falls into, for a cursor that stands at
/// segment `from`: the cursor moves past every segment whose end `time` has
/// reached, while there is a next segment.
pub open spec fn segment_from(sample_times: Seq<i64>, time: int, from: int) -> int
    decreases sample_times.len() - from,
{
    if 1 <= from && from + 1 < sample_times.len() && time >= sample_times[from] {
        segment_from(sample_times, time, from + 1)
    } else {
        from
    }
}

/// The source segment that output frame `frame` falls into. The cursor
/// starts at segment 1 and only moves forward: each output frame takes it
/// from where the frame before left it, past every segment whose end the
/// frame's time has reached.
pub open spec fn segment_at(sample_times: Seq<i64>, frame_time: int, frame: nat) -> int
    decreases frame,
{
    let before = if frame == 0 {
        1
    } else {
        segment_at(sample_times, frame_time, (frame - 1) as nat)
    };
    segment_from(sample_times, frame * frame_time, before)
}

/// How far `time` lies into the segment that ends at source sample
/// `segment`: the time since the segment's start over the segment's length,
/// and zero for a segment without length.
pub open spec fn alpha_at(sample_times: Seq<i64>, segment: int, time: int) -> Ratio {
    let start = sample_times[segment - 1];
    let end = sample_times[segment];
    if end - start > 0 {
        Ratio { num: (time - start) as i128, den: (end - start) as i128 }
    } else {
        Ratio { num: 0, den: 1 }
    }
}

/// The sample for keyframe `key` of a track: the resampled frames at their
/// multiples of `frame_time`, and after them one last keyframe at the
/// duration itself, which takes the end of the last segment.
pub open spec fn sample_at(sample_times: Seq<i64>, frame_time: int, key: nat) -> Sample {
    if key < frame_count(duration_of(sample_times), frame_time) {
        let segment = segment_at(sample_times, frame_time, key);
        Sample {
            start_time: (key * frame_time) as i64,
            idx_keyframe: segment as usize,
            alpha: alpha_at(sample_times, segment, key * frame_time),
        }
    } else {
        Sample {
            start_time: duration_of(sample_times) as i64,
            idx_keyframe: (sample_times.len() - 1) as usize,
            alpha: Ratio { num: 1, den: 1 },
        }
    }
}

/// Where the cursor comes to rest: within the track, not before where it
/// stood, past every segment end that `time` has reached on its way, and at
/// the last segment or at one whose end `time` has not reached.
pub proof fn lemma_segment_from(sample_times: Seq<i64>, time: int, from: int)
    requires
        1 <= from < sample_times.len(),
    ensures
        from <= segment_from(sample_times, time, from) < sample_times.len(),
        segment_from(sample_times, time, from) == sample_times.len() - 1 || time
            < sample_times[segment_from(sample_times, time, from)],
        segment_from(sample_times, time, from) > from ==> time >= sample_times[segment_from(
            sample_times,
            time,
            from,
        ) - 1],
    decreases sample_times.len() - from,
{
    if from + 1 < sample_times.len() && time >= sample_times[from] {
        lemma_segment_from(sample_times, time, from + 1);
    }
}

/// The segment index stays within the track, never moves back, and is the
/// last segment or one whose end the frame's time has not reached.
pub proof fn lemma_segment_at(sample_times: Seq<i64>, frame_time: int, frame: nat)
    requires
        sample_times.len() >= 2,
    ensures
        1 <= segment_at(sample_times, frame_time, frame) < sample_times.len(),
        frame > 0 ==> segment_at(sample_times, frame_time, (frame - 1) as nat) <= segment_at(
            sample_times,
            frame_time,
            frame,
        ),
        segment_at(sample_times, frame_time, frame) == sample_times.len() - 1 || frame * frame_time
            < sample_times[segment_at(sample_times, frame_time, frame)],
    decreases frame,
{
    if frame > 0 {
        lemma_segment_at(sample_times, frame_time, (frame - 1) as nat);
        lemma_segment_from(
            sample_times,
            frame * frame_time,
            segment_at(sample_times, frame_time, (frame - 1) as nat),
        );
    } else {
        lemma_segment_from(sample_times, frame * frame_time, 1);
    }
}

/// Whether the sample times start at 0 and never fall.
pub open spec fn rising_from_zero(sample_times: Seq<i64>) -> bool {
    &&& sample_times.len() >= 2
    &&& sample_times[0] == 0
    &&& forall|i: int, j: int|
        0 <= i <= j < sample_times.len() ==> sample_times[i] <= sample_times[j]
}

/// For sample times that start at 0 and never fall, each resampled frame
/// lies between the two samples of its segment, and its alpha lies between
/// 0 and 1.
pub proof fn lemma_sample_brackets(sample_times: Seq<i64>, frame_time: int, frame: nat)
    requires
        rising_from_zero(sample_times),
        frame_time > 0,
        frame < frame_count(duration_of(sample_times), frame_time),
    ensures
        ({
            let segment = segment_at(sample_times, frame_time, frame);
            let time = frame * frame_time;
            &&& 1 <= segment < sample_times.len()
            &&& sample_times[segment - 1] <= time <= sample_times[segment]
            &&& 0 <= alpha_at(sample_times, segment, time).num <= alpha_at(
                sample_times,
                segment,
                time,
            ).den
            &&& sample_at(sample_times, frame_time, frame).alpha == alpha_at(
                sample_times,
                segment,
                time,
            )
        }),
    decreases frame,
{
    let duration = duration_of(sample_times);
    let time = frame * frame_time;
    assert(0 <= time <= duration) by (nonlinear_arith)
        requires
            0 <= frame <= duration / frame_time,
            frame_time > 0,
            duration >= 0,
            time == frame * frame_time,
    ;
    lemma_segment_at(sample_times, frame_time, frame);
    if frame > 0 {
        let before = (frame - 1) as nat;
        assert(before * frame_time <= time) by (nonlinear_arith)
            requires
                before == frame - 1,
                frame_time > 0,
                time == frame * frame_time,
        ;
        lemma_sample_brackets(sample_times, frame_time, before);
        lemma_segment_from(sample_times, time, segment_at(sample_times, frame_time, before));
    } else {
        lemma_segment_from(sample_times, time, 1);
    }
}

/// Whether a track can be resampled: it has two samples or more, the step is
/// positive, and the duration fits the type of a time.
pub open spec fn resamplable(sample_times: Seq<i64>, frame_time: int) -> bool {
    &&& sample_times.len() >= 2
    &&& frame_time > 0
    &&& i64::MIN <= duration_of(sample_times) <= i64::MAX
}

/// Checks whether a track can be resampled.
pub fn can_resample(sample_times: &Vec<i64>, frame_time: i64) -> (r: bool)
    ensures
        r == resamplable(sample_times@, frame_time as int),
{
    let n = sample_times.len();
    if n < 2 || frame_time <= 0 {
        return false;
    }
    let duration: i128 = sample_times[n - 1] as i128 - sample_times[0] as i128;
    -0x8000_0000_0000_0000 <= duration && duration <= 0x7fff_ffff_ffff_ffff
}

/// Resamples a track at the fixed step `frame_time`: one sample for each
/// keyframe to bake, in the order of their times. Each resampled frame
/// takes the segment that the cursor has reached at its time; the last
/// keyframe takes the end of the last segment.
pub fn resample(sample_times: &Vec<i64>, frame_time: i64) -> (samples: Vec<Sample>)
    requires
        resamplable(sample_times@, frame_time as int),
    ensures
        samples@.len() == frame_count(duration_of(sample_times@), frame_time as int) + 1,
        forall|key: int|
            0 <= key < samples@.len() ==> #[trigger] samples@[key] == sample_at(
                sample_times@,
                frame_time as int,
                key as nat,
            ),
        forall|key: int|
            0 <= key < samples@.len() ==> 1 <= (#[trigger] samples@[key]).idx_keyframe
                < sample_times@.len() && samples@[key].alpha.den > 0,
        forall|key: int|
            1 <= key < samples@.len() ==> samples@[key - 1].idx_keyframe <= (
            #[trigger] samples@[key]).idx_keyframe,
        samples@[samples@.len() - 1] == (Sample {
            start_time: duration_of(sample_times@) as i64,
            idx_keyframe: (sample_times@.len() - 1) as usize,
            alpha: Ratio { num: 1, den: 1 },
        }),
        samples@[samples@.len() - 1].idx_keyframe == sample_times@.len() - 1,
        rising_from_zero(sample_times@) ==> forall|key: int|
            0 <= key < samples@.len() ==> sample_times@[(#[trigger] samples@[key]).idx_keyframe
                - 1] <= samples@[key].start_time <= sample_times@[samples@[key].idx_keyframe as int]
                && 0 <= samples@[key].alpha.num <= samples@[key].alpha.den,
{
    let n = sample_times.len();
    let first: i64 = sample_times[0];
    let last: i64 = sample_times[n - 1];
    let mut samples: Vec<Sample> = Vec::new();
    if last >= first {
        let duration: i64 = last - first;
        let mut idx_keyframe: usize = 1;
        let mut time: i64 = 0;
        assert(samples@.len() * frame_time == 0) by (nonlinear_arith)
            requires
                samples@.len() == 0,
        ;
        loop
            invariant_except_break
                time == samples@.len() * frame_time,
                0 <= time <= duration,
                samples@.len() == 0 ==> idx_keyframe == 1,
                samples@.len() > 0 ==> idx_keyframe == segment_at(
                    sample_times@,
                    frame_time as int,
                    (samples@.len() - 1) as nat,
                ),
            invariant
                n == sample_times@.len(),
                resamplable(sample_times@, frame_time as int),
                duration == duration_of(sample_times@),
                1 <= idx_keyframe < n,
                forall|key: int|
                    0 <= key < samples@.len() && key < frame_count(
                        duration as int,
                        frame_time as int,
                    ) ==> #[trigger] samples@[key] == sample_at(
                        sample_times@,
                        frame_time as int,
                        key as nat,
                    ),
            ensures
                samples@.len() == frame_count(duration as int, frame_time as int),
            decreases duration - time,
        {
            let ghost frame = samples@.len();
            proof {
                lemma_segment_at(sample_times@, frame_time as int, frame);
                lemma_frame_in_range(duration as int, frame_time as int, frame as int);
                assert((frame + 1) * frame_time == frame * frame_time + frame_time)
                    by (nonlinear_arith);
            }
            let ghost entry = idx_keyframe;
            while idx_keyframe + 1 < n && time >= sample_times[idx_keyframe]
                invariant
                    n == sample_times@.len(),
                    1 <= entry <= idx_keyframe < n,
                    segment_from(sample_times@, time as int, idx_keyframe as int) == segment_from(
                        sample_times@,
                        time as int,
                        entry as int,
                    ),
                decreases n - idx_keyframe,
            {
                idx_keyframe += 1;
            }
            assert(idx_keyframe == segment_at(sample_times@, frame_time as int, frame));
            let start: i64 = sample_times[idx_keyframe - 1];
            let end: i64 = sample_times[idx_keyframe];
            let alpha = if end > start {
                Ratio { num: time as i128 - start as i128, den: end as i128 - start as i128 }
            } else {
                Ratio { num: 0, den: 1 }
            };
            samples.push(Sample { start_time: time, idx_keyframe, alpha });
            if duration - time < frame_time {
                proof {
                    lemma_last_frame(duration as int, frame_time as int, frame as int);
                }
                break ;
            }
            time += frame_time;
        }
    }
    samples.push(
        Sample { start_time: last - first, idx_keyframe: n - 1, alpha: Ratio { num: 1, den: 1 } },
    );
    proof {
        let count = frame_count(duration_of(sample_times@), frame_time as int);
        assert forall|key: int| 0 <= key < samples@.len() implies 1 <= (
        #[trigger] samples@[key]).idx_keyframe < sample_times@.len() && samples@[key].alpha.den
            > 0 by {
            lemma_segment_at(sample_times@, frame_time as int, key as nat);
        }
        assert forall|key: int| 1 <= key < samples@.len() implies samples@[key - 1].idx_keyframe
            <= (#[trigger] samples@[key]).idx_keyframe by {
            lemma_segment_at(sample_times@, frame_time as int, key as nat);
            lemma_segment_at(sample_times@, frame_time as int, (key - 1) as nat);
        }
        if rising_from_zero(sample_times@) {
            assert forall|key: int| 0 <= key < samples@.len() implies sample_times@[(
            #[trigger] samples@[key]).idx_keyframe - 1] <= samples@[key].start_time
                <= sample_times@[samples@[key].idx_keyframe as int] && 0 <= samples@[key].alpha.num
                <= samples@[key].alpha.den by {
                if key < count {
                    lemma_sample_brackets(sample_times@, frame_time as int, key as nat);
                    let d = duration_of(sample_times@);
                    assert(0 <= key * frame_time <= d) by (nonlinear_arith)
                        requires
                            0 <= key <= d / (frame_time as int),
                            frame_time > 0,
                            d >= 0,
                    ;
                }
            }
        }
    }
    samples
}

/// A frame whose time does not pass the duration is one of the resampled
/// frames.
pub proof fn lemma_frame_in_range(duration: int, frame_time: int, frame: int)
    requires
        frame_time > 0,
        0 <= frame,
        frame * frame_time <= duration,
    ensures
        frame < frame_count(duration, frame_time),
{
    assert(frame <= duration / frame_time) by (nonlinear_arith)
        requires
            frame_time > 0,
            0 <= frame,
            frame * frame_time <= duration,
    ;
}

/// The frame after which the next step would pass the duration is the last
/// of the resampled frames.
pub proof fn lemma_last_frame(duration: int, frame_time: int, frame: int)
    requires
        frame_time > 0,
        0 <= frame,
        frame * frame_time <= duration < (frame + 1) * frame_time,
    ensures
        frame + 1 == frame_count(duration, frame_time),
{
    assert(duration / frame_time == frame) by (nonlinear_arith)
        requires
            frame_time > 0,
            0 <= frame,
            frame * frame_time <= duration < (frame + 1) * frame_time,
    ;
}

/// One baked keyframe: the final matrix of each bone that has vertices
/// attached, by output slot, and the time at which it holds.
#[derive(Debug)]
pub struct Keyframe {
    pub transforms: Vec<Matrix4>,
    /// Time of the keyframe, in ticks.
    pub start_time: i64,
}

impl PartialEq for Keyframe {
    fn eq(&self, other: &Self) -> (r: bool) {
        self.start_time == other.start_time
    }
}

impl PartialEqSpecImpl for Keyframe {
    open spec fn obeys_eq_spec() -> bool {
        true
    }

    open spec fn eq_spec(&self, other: &Self) -> bool {
        self.start_time == other.start_time
    }
}

impl PartialOrd for Keyframe {
    fn partial_cmp(&self, other: &Self) -> (r: Option<Ordering>) {
        if self.start_time < other.start_time {
            Some(Ordering::Less)
        } else if self.start_time > other.start_time {
            Some(Ordering::Greater)
        } else {
            Some(Ordering::Equal)
        }
    }
}

impl PartialOrdSpecImpl for Keyframe {
    open spec fn obeys_partial_cmp_spec() -> bool {
        true
    }

    open spec fn partial_cmp_spec(&self, other: &Self) -> Option<Ordering> {
        if self.start_time < other.start_time {
            Some(Ordering::Less)
        } else if self.start_time > other.start_time {
            Some(Ordering::Greater)
        } else {
            Some(Ordering::Equal)
        }
    }
}

/// Mathematical model of a baked animation.
pub struct AnimationView {
    pub duration: int,
    pub keys: Seq<Keyframe>,
    pub frame_time: int,
}

impl AnimationView {
    /// What every animation satisfies: a positive step, one keyframe at
    /// each multiple of the step from 0 to the duration, one more at the
    /// duration itself, and as many matrices in each keyframe as in any
    /// other.
    pub open spec fn wf(self) -> bool {
        &&& self.frame_time > 0
        &&& self.keys.len() == frame_count(self.duration, self.frame_time) + 1
        &&& forall|key: int|
            0 <= key < self.keys.len() - 1 ==> (#[trigger] self.keys[key]).start_time == key
                * self.frame_time
        &&& self.keys[self.keys.len() - 1].start_time == self.duration
        &&& forall|key: int|
            0 <= key < self.keys.len() ==> (#[trigger] self.keys[key]).transforms@.len()
                == self.keys[0].transforms@.len()
    }

    /// Whether every keyframe holds `bones` matrices.
    pub open spec fn holds(self, bones: nat) -> bool {
        forall|key: int|
            0 <= key < self.keys.len() ==> (#[trigger] self.keys[key]).transforms@.len() == bones
    }

    /// Position of the keyframe that holds at `time`: the first at or before
    /// time 0, the last at or after the duration, and in between the one at
    /// the last multiple of the step that `time` has reached.
    pub open spec fn key_at(self, time: int) -> int {
        key_index(self.duration, self.frame_time, self.keys.len() as int, time)
    }
}

/// Whether `keys` are the keyframes of a track resampled at `frame_time`
/// for a skeleton with `bones` output slots.
pub open spec fn keys_fit(
    sample_times: Seq<i64>,
    frame_time: int,
    bones: nat,
    keys: Seq<Keyframe>,
) -> bool {
    &&& keys.len() == frame_count(duration_of(sample_times), frame_time) + 1
    &&& forall|key: int|
        0 <= key < keys.len() ==> (#[trigger] keys[key]).start_time == sample_at(
            sample_times,
            frame_time,
            key as nat,
        ).start_time && keys[key].transforms@.len() == bones
}

/// Position of the keyframe that holds at `time`, among `keys` keyframes
/// at the step `frame_time` over `duration`.
pub open spec fn key_index(duration: int, frame_time: int, keys: int, time: int) -> int {
    if time <= 0 {
        0
    } else if time >= duration {
        keys - 1
    } else {
        time / frame_time
    }
}

/// Finds the position of the keyframe that holds at `time`, among `keys`
/// keyframes at the step `frame_time` over `duration`.
pub fn key_at(duration: i64, frame_time: i64, keys: usize, time: i64) -> (key: usize)
    requires
        frame_time > 0,
        keys == frame_count(duration as int, frame_time as int) + 1,
    ensures
        key == key_index(duration as int, frame_time as int, keys as int, time as int),
        key < keys,
{
    if time <= 0 {
        0
    } else if time >= duration {
        keys - 1
    } else {
        assert(0 <= time as int / frame_time as int <= duration as int / frame_time as int)
            by (nonlinear_arith)
            requires
                0 < time < duration,
                frame_time > 0,
        ;
        let frame: i64 = time / frame_time;
        frame as usize
    }
}

/// Finds the position of the keyframe that holds at `time`, or `None` when
/// `keys` is not the number of keyframes at the step `frame_time` over
/// `duration`.
pub fn find_key(duration: i64, frame_time: i64, keys: usize, time: i64) -> (key: Option<usize>)
    ensures
        key.is_some() <==> frame_time > 0 && keys == frame_count(
            duration as int,
            frame_time as int,
        ) + 1,
        key matches Some(k) ==> k == key_index(
            duration as int,
            frame_time as int,
            keys as int,
            time as int,
        ) && k < keys,
{
    if frame_time <= 0 {
        return None;
    }
    let frames: i128 = if duration < 0 {
        0
    } else {
        duration as i128 / frame_time as i128 + 1
    };
    if keys as i128 == frames + 1 {
        Some(key_at(duration, frame_time, keys, time))
    } else {
        None
    }
}

/// Checks whether `keys` are the keyframes of a track resampled at
/// `frame_time` for `skeleton`.
pub fn keys_match(
    skeleton: &Skeleton,
    sample_times: &Vec<i64>,
    frame_time: i64,
    keys: &Vec<Keyframe>,
) -> (r: bool)
    requires
        resamplable(sample_times@, frame_time as int),
    ensures
        r == keys_fit(sample_times@, frame_time as int, skeleton@.attached(), keys@),
{
    let samples = resample(sample_times, frame_time);
    let bones = skeleton.get_num_vertices_attached_bones();
    let n = keys.len();
    if n != samples.len() {
        return false;
    }
    let mut i: usize = 0;
    while i < n
        invariant
            0 <= i <= n,
            n == keys@.len(),
            n == samples@.len(),
            bones == skeleton@.attached(),
            n == frame_count(duration_of(sample_times@), frame_time as int) + 1,
            forall|key: int|
                0 <= key < n ==> #[trigger] samples@[key] == sample_at(
                    sample_times@,
                    frame_time as int,
                    key as nat,
                ),
            forall|key: int|
                0 <= key < i ==> (#[trigger] keys@[key]).start_time == sample_at(
                    sample_times@,
                    frame_time as int,
                    key as nat,
                ).start_time && keys@[key].transforms@.len() == bones,
        decreases n - i,
    {
        if keys[i].start_time != samples[i].start_time || keys[i].transforms.len() != bones {
            assert(samples@[i as int] == sample_at(sample_times@, frame_time as int, i as nat));
            assert(!(keys@[i as int].start_time == sample_at(
                sample_times@,
                frame_time as int,
                i as nat,
            ).start_time && keys@[i as int].transforms@.len() == bones));
            return false;
        }
        assert(samples@[i as int] == sample_at(sample_times@, frame_time as int, i as nat));
        i += 1;
    }
    true
}

/// The keyframe position that a time between 0 and the duration selects is
/// that of a resampled frame.
pub proof fn lemma_key_at_in_range(animation: AnimationView, time: int)
    requires
        animation.wf(),
    ensures
        0 <= animation.key_at(time) < animation.keys.len(),
{
    if 0 < time < animation.duration {
        let d = animation.duration;
        let f = animation.frame_time;
        assert(0 <= time / f <= d / f) by (nonlinear_arith)
            requires
                0 < time < d,
                f > 0,
        ;
    }
}

/// A query at time 0 selects the first keyframe, and a query at the
/// duration selects the last, when the duration is not 0.
pub proof fn lemma_query_ends(animation: AnimationView)
    requires
        animation.wf(),
        animation.duration != 0,
    ensures
        animation.key_at(0) == 0,
        animation.key_at(animation.duration) == animation.keys.len() - 1,
{
}

/// An animation of positive duration has two keyframes more than its
/// duration holds whole steps.
pub proof fn lemma_key_count(animation: AnimationView)
    requires
        animation.wf(),
        animation.duration >= 0,
    ensures
        animation.keys.len() == animation.duration / animation.frame_time + 2,
{
    let d = animation.duration;
    let f = animation.frame_time;
    assert(d / f >= 0) by (nonlinear_arith)
        requires
            d >= 0,
            f > 0,
    ;
}

/// A baked animation: keyframes at a fixed step.
#[derive(Debug)]
pub struct Animation {
    duration: i64,
    keys: Vec<Keyframe>,
    frame_time: i64,
}

impl View for Animation {
    type V = AnimationView;

    closed spec fn view(&self) -> AnimationView {
        AnimationView {
            duration: self.duration as int,
            keys: self.keys@,
            frame_time: self.frame_time as int,
        }
    }
}

impl Animation {
    #[verifier::type_invariant]
    closed spec fn inv(self) -> bool {
        self@.wf()
    }

    /// Makes an animation of the keyframes that were baked for the samples
    /// of the first track.
    pub fn new(
        skeleton: &Skeleton,
        bone_animations: &Vec<Track>,
        frame_time: i64,
        keys: Vec<Keyframe>,
    ) -> (animation: Animation)
        requires
            bone_animations@.len() > 0,
            resamplable(bone_animations@[0].sample_times@, frame_time as int),
            keys_fit(
                bone_animations@[0].sample_times@,
                frame_time as int,
                skeleton@.attached(),
                keys@,
            ),
        ensures
            animation@ == (AnimationView {
                duration: duration_of(bone_animations@[0].sample_times@),
                keys: keys@,
                frame_time: frame_time as int,
            }),
            forall|key: int|
                0 <= key < keys@.len() ==> (#[trigger] animation@.keys[key]).transforms@.len()
                    == skeleton@.attached(),
    {
        let sample_times = &bone_animations[0].sample_times;
        let duration = sample_times[sample_times.len() - 1] - sample_times[0];
        proof {
            let n = keys@.len();
            let times = sample_times@;
            assert forall|key: int| 0 <= key < n - 1 implies (#[trigger] keys@[key]).start_time
                == key * frame_time by {
                assert(keys@[key].start_time == sample_at(
                    times,
                    frame_time as int,
                    key as nat,
                ).start_time);
                let d = duration as int;
                let f = frame_time as int;
                assert(0 <= key * f <= d) by (nonlinear_arith)
                    requires
                        0 <= key <= d / f,
                        f > 0,
                        d >= 0,
                ;
            }
            assert(keys@[n - 1].start_time == sample_at(
                times,
                frame_time as int,
                (n - 1) as nat,
            ).start_time);
        }
        Animation { duration, keys, frame_time }
    }

    /// The matrices of the keyframe that holds at `time`.
    pub fn query(&self, time: i64) -> (transforms: &Vec<Matrix4>)
        ensures
            self@.wf(),
            0 <= self@.key_at(time as int) < self@.keys.len(),
            *transforms == self@.keys[self@.key_at(time as int)].transforms,
    {
        proof {
            use_type_invariant(self);
            lemma_key_at_in_range(self@, time as int);
        }
        let key = &self.keys[key_at(self.duration, self.frame_time, self.keys.len(), time)];
        &key.transforms
    }

    /// The time from the first sample of the source track to its last, in
    /// ticks.
    pub fn get_duration(&self) -> (duration: i64)
        ensures
            duration == self@.duration,
    {
        self.duration
    }

    /// The step between two keyframes, in ticks.
    pub fn get_frame_time(&self) -> (frame_time: i64)
        ensures
            frame_time == self@.frame_time,
    {
        self.frame_time
    }

    /// The keyframes, in the order of their times.
    pub fn get_keys(&self) -> (keys: &Vec<Keyframe>)
        ensures
            self@.wf(),
            keys@ == self@.keys,
    {
        proof {
            use_type_invariant(self);
        }
        &self.keys
    }
}

/// Mathematical model of a set of clips that share a skeleton.
pub struct AnimationsView {
    pub anims: Map<Seq<char>, AnimationView>,
    pub skeleton: SkeletonView,
}

impl AnimationsView {
    /// Whether the set holds exactly one clip.
    pub open spec fn single_clip(self) -> bool {
        self.anims.dom().finite() && self.anims.len() == 1
    }

    /// What every set of clips satisfies: each keyframe of each clip holds
    /// one matrix for each bone of the skeleton that has vertices attached.
    pub open spec fn wf(self) -> bool {
        forall|name: Seq<char>|
            self.anims.dom().contains(name) ==> (#[trigger] self.anims[name]).holds(
                self.skeleton.attached(),
            )
    }

    /// Whether `other` can be merged into this set: it holds exactly one
    /// clip, and its skeleton is the same.
    pub open spec fn accepts(self, other: AnimationsView) -> bool {
        self.skeleton.same(other.skeleton) && other.single_clip()
    }
}

/// Whether a document is animated: it describes a skeleton and has
/// animations.
pub open spec fn animated(doc: Document) -> bool {
    skeleton_of(doc).is_some() && doc.animations.is_some()
}

/// Whether the keyframes `keys` can be made into the clip of a document at
/// the step `frame_time`: a skeleton can be made of the document, and if
/// the document is animated, its first track can be resampled and `keys`
/// are its keyframes.
pub open spec fn clip_ready(doc: Document, frame_time: int, keys: Seq<Keyframe>) -> bool {
    &&& buildable(doc)
    &&& animated(doc) ==> {
        let tracks = doc.animations.unwrap()@;
        &&& tracks.len() > 0
        &&& resamplable(tracks[0].sample_times@, frame_time)
        &&& keys_fit(
            tracks[0].sample_times@,
            frame_time,
            skeleton_of(doc).unwrap().attached(),
            keys,
        )
    }
}

/// Whether the first track of a document can be resampled at the step
/// `frame_time`, where the document is animated.
pub open spec fn track_ready(doc: Document, frame_time: int) -> bool {
    &&& buildable(doc)
    &&& animated(doc) ==> {
        let tracks = doc.animations.unwrap()@;
        &&& tracks.len() > 0
        &&& resamplable(tracks[0].sample_times@, frame_time)
    }
}

/// Checks whether the first track of a document can be resampled at the
/// step `frame_time`, where the document is animated.
pub fn is_track_ready(doc: &Document, frame_time: i64) -> (r: bool)
    ensures
        r == track_ready(*doc, frame_time as int),
{
    if !can_build(doc) {
        return false;
    }
    if !has_skeleton(doc) {
        return true;
    }
    match &doc.animations {
        Some(tracks) => tracks.len() > 0 && can_resample(&tracks[0].sample_times, frame_time),
        None => true,
    }
}

/// Checks whether the keyframes `keys` can be made into the clip of a
/// document at the step `frame_time`.
pub fn is_clip_ready(doc: &Document, frame_time: i64, keys: &Vec<Keyframe>) -> (r: bool)
    ensures
        r == clip_ready(*doc, frame_time as int, keys@),
{
    if !is_track_ready(doc, frame_time) {
        return false;
    }
    let skeleton = match Skeleton::from(doc) {
        Some(skeleton) => skeleton,
        None => {
            return true;
        },
    };
    match &doc.animations {
        Some(tracks) => keys_match(&skeleton, &tracks[0].sample_times, frame_time, keys),
        None => true,
    }
}

/// The set of clips made of a document: its skeleton, and under `name` the
/// animation of the keyframes `keys`.
pub open spec fn clip_of(
    name: Seq<char>,
    doc: Document,
    frame_time: int,
    keys: Seq<Keyframe>,
) -> AnimationsView {
    AnimationsView {
        anims: Map::empty().insert(
            name,
            AnimationView {
                duration: duration_of(doc.animations.unwrap()@[0].sample_times@),
                keys,
                frame_time,
            },
        ),
        skeleton: skeleton_of(doc).unwrap(),
    }
}

/// The clips among the first `n` of `anims`, by name; a later clip replaces
/// an earlier one of the same name.
pub open spec fn clips_of_first(anims: Seq<(String, Animation)>, n: nat) -> Map<
    Seq<char>,
    AnimationView,
>
    decreases n,
{
    if n == 0 || n > anims.len() {
        Map::empty()
    } else {
        clips_of_first(anims, (n - 1) as nat).insert(anims[n - 1].0@, anims[n - 1].1@)
    }
}

/// Whether no two of `anims` have the same name.
pub open spec fn distinct_names(anims: Seq<(String, Animation)>) -> bool {
    forall|i: int, j: int|
        0 <= i < anims.len() && 0 <= j < anims.len() && i != j ==> (#[trigger] anims[i]).0@ != (
        #[trigger] anims[j]).0@
}

/// Merging a single clip puts it under its own name and leaves every other
/// clip as it was.
pub proof fn lemma_merge_single_clip(ours: AnimationsView, theirs: AnimationsView, name: Seq<char>)
    requires
        theirs.single_clip(),
        theirs.anims.dom().contains(name),
    ensures
        ours.anims.union_prefer_right(theirs.anims) == ours.anims.insert(name, theirs.anims[name]),
        forall|other: Seq<char>|
            other != name ==> (ours.anims.union_prefer_right(theirs.anims).dom().contains(other)
                <==> ours.anims.dom().contains(other)),
        forall|other: Seq<char>|
            other != name && ours.anims.dom().contains(other) ==> ours.anims.union_prefer_right(
                theirs.anims,
            )[other] == ours.anims[other],
{
    assert(theirs.anims.dom() =~= set![name]) by {
        Set::lemma_is_singleton(theirs.anims.dom());
    }
    assert(ours.anims.union_prefer_right(theirs.anims) =~= ours.anims.insert(
        name,
        theirs.anims[name],
    ));
}

/// With distinct names, the clips among the first `n` are exactly those
/// `n`, each under its own name.
pub proof fn lemma_clips_of_first(anims: Seq<(String, Animation)>, n: nat)
    requires
        n <= anims.len(),
        distinct_names(anims),
    ensures
        forall|name: Seq<char>|
            clips_of_first(anims, n).dom().contains(name) <==> exists|i: int|
                0 <= i < n && (#[trigger] anims[i]).0@ == name,
        forall|i: int|
            0 <= i < n ==> clips_of_first(anims, n)[(#[trigger] anims[i]).0@] == anims[i].1@,
    decreases n,
{
    if n > 0 {
        let m = (n - 1) as nat;
        lemma_clips_of_first(anims, m);
        let before = clips_of_first(anims, m);
        let after = clips_of_first(anims, n);
        assert(after == before.insert(anims[n - 1].0@, anims[n - 1].1@));
        assert forall|name: Seq<char>| after.dom().contains(name) <==> exists|i: int|
            0 <= i < n && (#[trigger] anims[i]).0@ == name by {
            if after.dom().contains(name) {
                if name == anims[n - 1].0@ {
                    assert(anims[n - 1].0@ == name);
                } else {
                    let i = choose|i: int| 0 <= i < m && (#[trigger] anims[i]).0@ == name;
                    assert(0 <= i < n && anims[i].0@ == name);
                }
            }
            if exists|i: int| 0 <= i < n && (#[trigger] anims[i]).0@ == name {
                let i = choose|i: int| 0 <= i < n && (#[trigger] anims[i]).0@ == name;
                if i < m {
                    assert(before.dom().contains(name));
                }
            }
        }
        assert forall|i: int| 0 <= i < n implies after[(#[trigger] anims[i]).0@] == anims[i].1@ by {
            if i < m {
                assert(anims[i].0@ != anims[n - 1].0@);
            }
        }
    } else {
        assert(clips_of_first(anims, n) == Map::<Seq<char>, AnimationView>::empty());
    }
}

/// The clips baked for one skeleton, by name.
#[derive(Debug)]
pub struct Animations {
    anims: Vec<(String, Animation)>,
    skeleton: Skeleton,
}

impl View for Animations {
    type V = AnimationsView;

    closed spec fn view(&self) -> AnimationsView {
        AnimationsView {
            anims: clips_of_first(self.anims@, self.anims@.len()),
            skeleton: self.skeleton@,
        }
    }
}

impl Animations {
    #[verifier::type_invariant]
    closed spec fn inv(self) -> bool {
        &&& distinct_names(self.anims@)
        &&& forall|i: int|
            0 <= i < self.anims@.len() ==> (#[trigger] self.anims@[i]).1@.holds(
                self.skeleton@.attached(),
            )
    }

    /// Every set of clips is well formed.
    proof fn lemma_wf(self)
        requires
            self.inv(),
        ensures
            self@.wf(),
    {
        lemma_clips_of_first(self.anims@, self.anims@.len());
        assert forall|name: Seq<char>| self@.anims.dom().contains(name) implies (
        #[trigger] self@.anims[name]).holds(self@.skeleton.attached()) by {
            let i = choose|i: int| 0 <= i < self.anims@.len() && (#[trigger] self.anims@[i]).0@ == name;
            assert(self@.anims[name] == self.anims@[i].1@);
        }
    }

    /// Makes the set of clips of a document: its skeleton, and under `name`
    /// the animation of the keyframes `keys`, which were baked for the
    /// samples of the document's first track. `None` when the document is
    /// not animated.
    pub fn new(name: &str, doc: &Document, frame_time: i64, keys: Vec<Keyframe>) -> (animations:
        Option<Self>)
        requires
            clip_ready(*doc, frame_time as int, keys@),
        ensures
            animations.is_some() == animated(*doc),
            animations matches Some(a) ==> a@ == clip_of(name@, *doc, frame_time as int, keys@),
    {
        let skeleton = match Skeleton::from(doc) {
            Some(skeleton) => skeleton,
            None => {
                return None;
            },
        };
        let tracks = match &doc.animations {
            Some(tracks) => tracks,
            None => {
                return None;
            },
        };
        let anim = Animation::new(&skeleton, tracks, frame_time, keys);
        let mut anims: Vec<(String, Animation)> = Vec::new();
        anims.push((name.to_owned(), anim));
        let animations = Animations { anims, skeleton };
        proof {
            assert(clips_of_first(animations.anims@, 1) == clips_of_first(
                animations.anims@,
                0,
            ).insert(animations.anims@[0].0@, animations.anims@[0].1@));
            assert(clips_of_first(animations.anims@, 0) == Map::<
                Seq<char>,
                AnimationView,
            >::empty());
        }
        Some(animations)
    }

    /// Whether `other` can be merged into this set.
    pub fn accepts(&self, other: &Self) -> (r: bool)
        ensures
            r == self@.accepts(other@),
    {
        other.len() == 1 && self.skeleton.is_same(&other.skeleton)
    }

    /// Merges the single clip of `other` into this set if the set accepts
    /// it, and else leaves the set as it was, with no clip of `other` in it.
    pub fn try_append(&mut self, other: Self) -> (merged: bool)
        ensures
            merged == old(self)@.accepts(other@),
            merged ==> final(self)@.skeleton == old(self)@.skeleton && final(self)@.anims == old(
                self,
            )@.anims.union_prefer_right(other@.anims),
            !merged ==> final(self)@ == old(self)@,
    {
        if self.accepts(&other) {
            self.append(other);
            true
        } else {
            false
        }
    }

    /// Merges the single clip of `other` into this set, under its own name;
    /// a clip that this set held under that name is replaced.
    #[verifier::rlimit(50)]
    pub fn append(&mut self, other: Self)
        requires
            old(self)@.accepts(other@),
        ensures
            final(self)@.skeleton == old(self)@.skeleton,
            final(self)@.anims == old(self)@.anims.union_prefer_right(other@.anims),
    {
        proof {
            use_type_invariant(&*self);
            use_type_invariant(&other);
            lemma_clip_count(other.anims@, other.anims@.len());
            lemma_clips_of_first(other.anims@, other.anims@.len());
            lemma_clips_of_first(self.anims@, self.anims@.len());
            lemma_same_skeleton_attached(self@.skeleton, other@.skeleton);
            assert(other.anims@[0].1@.holds(other.skeleton@.attached()));
        }
        let ghost theirs = other@.anims;
        let ghost ours = self@.anims;
        let Animations { anims: mut other_anims, skeleton: _ } = other;
        let (name, anim) = other_anims.pop().unwrap();
        assert(theirs =~= Map::<Seq<char>, AnimationView>::empty().insert(name@, anim@)) by {
            assert(clips_of_first(other.anims@, 1) == clips_of_first(other.anims@, 0).insert(
                other.anims@[0].0@,
                other.anims@[0].1@,
            ));
            assert(clips_of_first(other.anims@, 0) == Map::<Seq<char>, AnimationView>::empty());
        }
        assert(ours.union_prefer_right(theirs) =~= ours.insert(name@, anim@));
        let position = self.position(name.as_str());
        let ghost before = self.anims@;
        let ghost skeleton = self@.skeleton;
        let mut anims: Vec<(String, Animation)> = Vec::new();
        core::mem::swap(&mut anims, &mut self.anims);
        match position {
            Some(i) => {
                anims.set(i, (name, anim));
                proof {
                    assert forall|k: int| 0 <= k < anims@.len() implies (
                    #[trigger] anims@[k]).1@.holds(self.skeleton@.attached()) by {
                        if k != i {
                            assert(anims@[k] == before[k]);
                        }
                    }
                }
                self.anims = anims;
                proof {
                    let after = self.anims@;
                    assert(distinct_names(after)) by {
                        assert forall|a: int, b: int|
                            0 <= a < after.len() && 0 <= b < after.len() && a != b implies (
                        #[trigger] after[a]).0@ != (#[trigger] after[b]).0@ by {
                            assert(after[a].0@ == before[a].0@);
                            assert(after[b].0@ == before[b].0@);
                        }
                    }
                    lemma_clips_of_first(after, after.len());
                    assert forall|key: Seq<char>|
                        self@.anims.dom().contains(key) <==> ours.insert(
                            name@,
                            anim@,
                        ).dom().contains(key) by {
                        if self@.anims.dom().contains(key) {
                            let k = choose|k: int|
                                0 <= k < after.len() && (#[trigger] after[k]).0@ == key;
                            assert(before[k].0@ == key);
                        }
                        if ours.dom().contains(key) {
                            let k = choose|k: int|
                                0 <= k < before.len() && (#[trigger] before[k]).0@ == key;
                            assert(after[k].0@ == key);
                        }
                        if key == name@ {
                            assert(after[i as int].0@ == key);
                        }
                    }
                    assert forall|key: Seq<char>|
                        self@.anims.dom().contains(key) implies self@.anims[key] == ours.insert(
                        name@,
                        anim@,
                    )[key] by {
                        let k = choose|k: int|
                            0 <= k < after.len() && (#[trigger] after[k]).0@ == key;
                        if k != i {
                            assert(after[k] == before[k]);
                        }
                    }
                    assert(self@.anims =~= ours.insert(name@, anim@));
                }
            },
            None => {
                proof {
                    assert forall|a: int| 0 <= a < before.len() implies (#[trigger] before[a]).0@
                        != name@ by {
                        if before[a].0@ == name@ {
                            assert(ours.dom().contains(name@));
                        }
                    }
                }
                anims.push((name, anim));
                proof {
                    assert forall|k: int| 0 <= k < anims@.len() implies (
                    #[trigger] anims@[k]).1@.holds(self.skeleton@.attached()) by {
                        if k < before.len() {
                            assert(anims@[k] == before[k]);
                        }
                    }
                }
                self.anims = anims;
                proof {
                    let after = self.anims@;
                    lemma_clips_prefix(before, after, before.len());
                    assert(clips_of_first(after, after.len()) == clips_of_first(
                        after,
                        before.len(),
                    ).insert(after[before.len() as int].0@, after[before.len() as int].1@));
                }
            },
        }
    }

    /// Position of the clip `name`, if there is one.
    fn position(&self, name: &str) -> (position: Option<usize>)
        ensures
            match position {
                Some(i) => i < self.anims@.len() && self.anims@[i as int].0@ == name@
                    && self@.anims.dom().contains(name@) && self@.anims[name@]
                    == self.anims@[i as int].1@,
                None => !self@.anims.dom().contains(name@),
            },
    {
        proof {
            use_type_invariant(self);
        }
        let wanted = name.to_owned();
        let n = self.anims.len();
        let mut i: usize = 0;
        while i < n
            invariant
                0 <= i <= n,
                n == self.anims@.len(),
                wanted@ == name@,
                distinct_names(self.anims@),
                forall|k: int| 0 <= k < i ==> (#[trigger] self.anims@[k]).0@ != name@,
            decreases n - i,
        {
            if self.anims[i].0 == wanted {
                proof {
                    lemma_clips_of_first(self.anims@, self.anims@.len());
                }
                return Some(i);
            }
            i += 1;
        }
        proof {
            lemma_clips_of_first(self.anims@, self.anims@.len());
        }
        None
    }

    /// The clip `name`, if there is one.
    pub fn get_animation(&self, name: &str) -> (animation: Option<&Animation>)
        ensures
            self@.wf(),
            match animation {
                Some(a) => self@.anims.dom().contains(name@) && a@ == self@.anims[name@],
                None => !self@.anims.dom().contains(name@),
            },
    {
        proof {
            use_type_invariant(self);
            self.lemma_wf();
        }
        match self.position(name) {
            Some(i) => Some(&self.anims[i].1),
            None => None,
        }
    }

    /// The matrices of the keyframe of the clip `name` that holds at `time`.
    pub fn query(&self, name: &str, time: i64) -> (transforms: &Vec<Matrix4>)
        requires
            self@.anims.dom().contains(name@),
        ensures
            self@.wf(),
            self@.anims[name@].wf(),
            *transforms == self@.anims[name@].keys[self@.anims[name@].key_at(
                time as int,
            )].transforms,
            transforms@.len() == self@.skeleton.attached(),
    {
        proof {
            use_type_invariant(self);
            self.lemma_wf();
        }
        let i = self.position(name).unwrap();
        self.anims[i].1.query(time)
    }

    /// The skeleton that the clips were baked for.
    pub fn get_skeleton(&self) -> (skeleton: &Skeleton)
        ensures
            self@.wf(),
            skeleton@ == self@.skeleton,
    {
        proof {
            use_type_invariant(self);
            self.lemma_wf();
        }
        &self.skeleton
    }

    /// The names of the clips.
    pub fn get_names(&self) -> (names: Vec<String>)
        ensures
            names@.len() == self@.anims.len(),
            forall|i: int| 0 <= i < names@.len() ==> self@.anims.dom().contains(#[trigger] names@[i]@),
            forall|name: Seq<char>|
                self@.anims.dom().contains(name) ==> exists|i: int|
                    0 <= i < names@.len() && (#[trigger] names@[i])@ == name,
            forall|i: int, j: int|
                0 <= i < names@.len() && 0 <= j < names@.len() && i != j ==> (#[trigger] names@[i])@
                    != (#[trigger] names@[j])@,
    {
        proof {
            use_type_invariant(self);
            lemma_clip_count(self.anims@, self.anims@.len());
            lemma_clips_of_first(self.anims@, self.anims@.len());
        }
        let n = self.anims.len();
        let mut names: Vec<String> = Vec::new();
        let mut i: usize = 0;
        while i < n
            invariant
                0 <= i <= n,
                n == self.anims@.len(),
                names@.len() == i,
                forall|k: int| 0 <= k < i ==> (#[trigger] names@[k])@ == self.anims@[k].0@,
            decreases n - i,
        {
            names.push(self.anims[i].0.clone());
            i += 1;
        }
        proof {
            assert forall|name: Seq<char>| self@.anims.dom().contains(name) implies exists|i: int|
                0 <= i < names@.len() && (#[trigger] names@[i])@ == name by {
                let k = choose|k: int| 0 <= k < n && (#[trigger] self.anims@[k]).0@ == name;
                assert(names@[k]@ == name);
            }
            assert forall|i: int, j: int|
                0 <= i < names@.len() && 0 <= j < names@.len() && i != j implies (
            #[trigger] names@[i])@ != (#[trigger] names@[j])@ by {
                assert(self.anims@[i].0@ != self.anims@[j].0@);
            }
        }
        names
    }

    /// Number of clips.
    pub fn len(&self) -> (n: usize)
        ensures
            n == self@.anims.len(),
            self@.anims.dom().finite(),
    {
        proof {
            use_type_invariant(self);
            lemma_clip_count(self.anims@, self.anims@.len());
        }
        self.anims.len()
    }
}

/// The clips among the first `n` depend on those `n` alone.
pub proof fn lemma_clips_prefix(a: Seq<(String, Animation)>, b: Seq<(String, Animation)>, n: nat)
    requires
        n <= a.len(),
        n <= b.len(),
        forall|i: int| 0 <= i < n ==> a[i] == b[i],
    ensures
        clips_of_first(a, n) == clips_of_first(b, n),
    decreases n,
{
    if n > 0 {
        lemma_clips_prefix(a, b, (n - 1) as nat);
        assert(clips_of_first(a, n) == clips_of_first(a, (n - 1) as nat).insert(
            a[n - 1].0@,
            a[n - 1].1@,
        ));
    } else {
        assert(clips_of_first(a, n) == Map::<Seq<char>, AnimationView>::empty());
        assert(clips_of_first(b, n) == Map::<Seq<char>, AnimationView>::empty());
    }
}

/// With distinct names, there are as many clips among the first `n` as `n`.
pub proof fn lemma_clip_count(anims: Seq<(String, Animation)>, n: nat)
    requires
        n <= anims.len(),
        distinct_names(anims),
    ensures
        clips_of_first(anims, n).dom().finite(),
        clips_of_first(anims, n).len() == n,
    decreases n,
{
    if n > 0 {
        let m = (n - 1) as nat;
        lemma_clip_count(anims, m);
        lemma_clips_of_first(anims, m);
        let before = clips_of_first(anims, m);
        assert(clips_of_first(anims, n) == before.insert(anims[n - 1].0@, anims[n - 1].1@));
        if before.dom().contains(anims[n - 1].0@) {
            let i = choose|i: int| 0 <= i < m && (#[trigger] anims[i]).0@ == anims[n - 1].0@;
            assert(anims[i].0@ != anims[n - 1].0@);
        }
        assert(before.insert(anims[n - 1].0@, anims[n - 1].1@).dom() =~= before.dom().insert(
            anims[n - 1].0@,
        ));
    } else {
        assert(clips_of_first(anims, n) == Map::<Seq<char>, AnimationView>::empty());
    }
}

} // verus!
