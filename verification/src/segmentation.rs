//! Cuts a video into HLS segments that begin on keyframes.
//!
//! A segment aims at a fixed length. Its end is the keyframe closest to that
//! length, with a preference for the one before it, so that segments differ a
//! little in length and no frame is lost between two of them.

use crate::text::{thousandths, thousandths_string};
use vstd::prelude::*;

verus! {

/// One segment of a video.
#[derive(Debug, Clone, Copy, PartialEq, Eq)]
pub struct Segment {
    /// Place in the playlist, from 0; the last part of the segment's URL.
    pub index: usize,
    /// Where the segment begins: on a keyframe.
    pub start_ms: i64,
    /// Where the segment ends: on the keyframe with which the next one begins, or with
    /// the video.
    pub end_ms: i64,
    /// How long the segment lasts.
    pub duration_ms: i64,
}

// ---------------------------------------------------------------------------
// The keyframe that ends a segment
// ---------------------------------------------------------------------------

/// Timestamps in ascending order.
pub open spec fn sorted(keyframes: Seq<i64>) -> bool {
    forall|i: int, j: int| 0 <= i <= j < keyframes.len() ==> keyframes[i] <= keyframes[j]
}

/// Whether there is a keyframe at `t`.
pub open spec fn is_keyframe(keyframes: Seq<i64>, t: int) -> bool {
    exists|i: int| 0 <= i < keyframes.len() && #[trigger] keyframes[i] == t
}

/// `b` is the last keyframe up to `target`, and lies behind `after`.
pub open spec fn is_last_before(keyframes: Seq<i64>, after: int, target: int, b: int) -> bool {
    &&& is_keyframe(keyframes, b)
    &&& after < b <= target
    &&& forall|i: int|
        0 <= i < keyframes.len() && #[trigger] keyframes[i] <= target ==> keyframes[i] <= b
}

/// `a` is the first keyframe behind both `target` and `after`.
pub open spec fn is_first_past(keyframes: Seq<i64>, after: int, target: int, a: int) -> bool {
    &&& is_keyframe(keyframes, a)
    &&& after < a
    &&& target < a
    &&& forall|i: int|
        0 <= i < keyframes.len() && after < #[trigger] keyframes[i] && target < keyframes[i] ==> a
            <= keyframes[i]
}

/// The last keyframe up to `target`, among those behind `after`.
pub open spec fn last_before(keyframes: Seq<i64>, after: int, target: int) -> Option<int> {
    if exists|b: int| is_last_before(keyframes, after, target, b) {
        Some(choose|b: int| is_last_before(keyframes, after, target, b))
    } else {
        None
    }
}

/// The first keyframe past `target`, among those behind `after`.
pub open spec fn first_past(keyframes: Seq<i64>, after: int, target: int) -> Option<int> {
    if exists|a: int| is_first_past(keyframes, after, target, a) {
        Some(choose|a: int| is_first_past(keyframes, after, target, a))
    } else {
        None
    }
}

/// The keyframe behind `after` at which a segment that aims at `target` ends.
///
/// Of the last one up to `target` and the first one past it, the first is taken,
/// unless the second is closer by far: at less than 40% of the distance. Without
/// any keyframe behind `after` it is `target` itself.
pub open spec fn nearest(keyframes: Seq<i64>, after: int, target: int) -> int {
    match (last_before(keyframes, after, target), first_past(keyframes, after, target)) {
        (Some(b), Some(a)) => if 5 * (a - target) < 2 * (target - b) {
            a
        } else {
            b
        },
        (Some(b), None) => b,
        (None, Some(a)) => a,
        (None, None) => target,
    }
}

/// There is at most one last keyframe up to `target`.
proof fn lemma_last_before(keyframes: Seq<i64>, after: int, target: int, b: int)
    requires
        is_last_before(keyframes, after, target, b),
    ensures
        last_before(keyframes, after, target) == Some(b),
{
    let c = choose|c: int| is_last_before(keyframes, after, target, c);
    assert(is_last_before(keyframes, after, target, c));
}

/// There is at most one first keyframe past `target`.
proof fn lemma_first_past(keyframes: Seq<i64>, after: int, target: int, a: int)
    requires
        is_first_past(keyframes, after, target, a),
    ensures
        first_past(keyframes, after, target) == Some(a),
{
    let c = choose|c: int| is_first_past(keyframes, after, target, c);
    assert(is_first_past(keyframes, after, target, c));
}

/// The number of keyframes up to `t`, of which `from` are known: a binary search.
fn partition_point(keyframes: &[i64], from: usize, t: i64) -> (r: usize)
    requires
        sorted(keyframes@),
        from <= keyframes@.len(),
    ensures
        from <= r <= keyframes@.len(),
        forall|i: int| from <= i < r ==> keyframes@[i] <= t,
        forall|i: int| r <= i < keyframes@.len() ==> keyframes@[i] > t,
{
    let mut lo: usize = from;
    let mut hi: usize = keyframes.len();
    while lo < hi
        invariant
            sorted(keyframes@),
            from <= lo <= hi <= keyframes@.len(),
            forall|i: int| from <= i < lo ==> keyframes@[i] <= t,
            forall|i: int| hi <= i < keyframes@.len() ==> keyframes@[i] > t,
        decreases hi - lo,
    {
        let mid: usize = lo + (hi - lo) / 2;
        if keyframes[mid] <= t {
            lo = mid + 1;
        } else {
            hi = mid;
        }
    }
    lo
}

/// The keyframe behind `after` at which a segment that aims at `target` ends.
///
/// Two binary searches find the two candidates around `target`.
pub fn nearest_keyframe(keyframes: &[i64], after: i64, target: i64) -> (r: i64)
    requires
        sorted(keyframes@),
    ensures
        r == nearest(keyframes@, after as int, target as int),
{
    let ghost kf = keyframes@;
    let start = partition_point(keyframes, 0, after);
    if start >= keyframes.len() {
        assert forall|t: int| is_keyframe(kf, t) implies t <= after by {}
        return target;
    }
    let pivot = partition_point(keyframes, start, target);
    let before: Option<i64> = if pivot > start {
        Some(keyframes[pivot - 1])
    } else {
        None
    };
    let past: Option<i64> = if pivot < keyframes.len() {
        Some(keyframes[pivot])
    } else {
        None
    };
    proof {
        match before {
            Some(b) => {
                assert(is_keyframe(kf, b as int));
                lemma_last_before(kf, after as int, target as int, b as int);
            },
            None => {
                assert forall|b: int| !is_last_before(kf, after as int, target as int, b) by {}
            },
        }
        match past {
            Some(a) => {
                assert(is_keyframe(kf, a as int));
                assert forall|i: int|
                    0 <= i < kf.len() && after < #[trigger] kf[i] && target < kf[i] implies a
                    <= kf[i] by {
                    assert(i >= start);
                    assert(i >= pivot);
                }
                lemma_first_past(kf, after as int, target as int, a as int);
            },
            None => {
                assert forall|a: int| !is_first_past(kf, after as int, target as int, a) by {}
            },
        }
    }
    match (before, past) {
        (Some(b), Some(a)) => {
            let dist_b: i128 = target as i128 - b as i128;
            let dist_a: i128 = a as i128 - target as i128;
            if 5 * dist_a < 2 * dist_b {
                a
            } else {
                b
            }
        },
        (Some(b), None) => b,
        (None, Some(a)) => a,
        (None, None) => target,
    }
}

// ---------------------------------------------------------------------------
// The segments of a video
// ---------------------------------------------------------------------------

/// Where a segment that begins at `start` ends: at the end of the video, if it is
/// within reach or no keyframe is left on the way, else at the keyframe nearest to
/// the length aimed at.
pub open spec fn segment_end(keyframes: Seq<i64>, duration: int, target: int, start: int) -> int {
    if start + target >= duration || keyframes.last() <= start {
        duration
    } else {
        nearest(keyframes, start, start + target)
    }
}

/// Whether `segments` are the segments of a video.
///
/// They begin at the first keyframe, each begins where the one before it ends,
/// and the last one is the first to reach the end of the video.
pub open spec fn is_segmentation(
    keyframes: Seq<i64>,
    duration: int,
    target: int,
    segments: Seq<Segment>,
) -> bool {
    &&& segments.len() > 0
    &&& segments[0].start_ms == keyframes[0]
    &&& forall|i: int|
        0 <= i < segments.len() ==> {
            let s = #[trigger] segments[i];
            &&& s.index == i
            &&& s.end_ms == segment_end(keyframes, duration, target, s.start_ms as int)
            &&& s.duration_ms == s.end_ms - s.start_ms
        }
    &&& forall|i: int, j: int|
        0 <= i && j == i + 1 && j < segments.len() ==> #[trigger] segments[i].end_ms
            == #[trigger] segments[j].start_ms
    &&& forall|i: int|
        0 <= i < segments.len() - 1 ==> #[trigger] segments[i].end_ms < duration
    &&& segments.last().end_ms >= duration
}

/// Whether the lengths on the timeline of a video fit the numbers that hold them.
pub open spec fn span_fits(keyframes: Seq<i64>, duration: int) -> bool {
    keyframes.len() > 0 ==> {
        &&& duration - keyframes[0] <= i64::MAX
        &&& keyframes.last() - keyframes[0] <= i64::MAX
    }
}

/// A segment that does not run to the end of the video ends on a keyframe behind
/// its beginning.
proof fn lemma_segment_end(keyframes: Seq<i64>, duration: int, target: int, start: int)
    requires
        sorted(keyframes),
        keyframes.len() > 0,
    ensures
        ({
            let end = segment_end(keyframes, duration, target, start);
            end == duration || {
                &&& is_keyframe(keyframes, end)
                &&& start < end <= keyframes.last()
            }
        }),
{
    if start + target < duration && start < keyframes.last() {
        assert(keyframes[keyframes.len() - 1] == keyframes.last());
        law_nearest_is_keyframe(keyframes, start, start + target, keyframes.last() as int);
    }
}

/// Whether `segments` are the first segments of a video, up to `start`, where the
/// next one begins.
#[verifier::opaque]
spec fn is_begun(
    keyframes: Seq<i64>,
    duration: int,
    target: int,
    segments: Seq<Segment>,
    start: int,
) -> bool {
    &&& start == if segments.len() == 0 {
        keyframes[0] as int
    } else {
        segments.last().end_ms as int
    }
    &&& segments.len() > 0 ==> segments[0].start_ms == keyframes[0]
    &&& forall|i: int|
        0 <= i < segments.len() ==> {
            let s = #[trigger] segments[i];
            &&& s.index == i
            &&& s.end_ms == segment_end(keyframes, duration, target, s.start_ms as int)
            &&& s.duration_ms == s.end_ms - s.start_ms
            &&& s.end_ms < duration
        }
    &&& forall|i: int, j: int|
        0 <= i && j == i + 1 && j < segments.len() ==> #[trigger] segments[i].end_ms
            == #[trigger] segments[j].start_ms
}

/// One segment more is either the last one or leaves the next one to begin at its end.
proof fn lemma_extend(
    keyframes: Seq<i64>,
    duration: int,
    target: int,
    segments: Seq<Segment>,
    s: Segment,
)
    requires
        is_begun(keyframes, duration, target, segments, s.start_ms as int),
        s.index == segments.len(),
        s.end_ms == segment_end(keyframes, duration, target, s.start_ms as int),
        s.duration_ms == s.end_ms - s.start_ms,
    ensures
        s.end_ms < duration ==> is_begun(
            keyframes,
            duration,
            target,
            segments.push(s),
            s.end_ms as int,
        ),
        s.end_ms >= duration ==> is_segmentation(keyframes, duration, target, segments.push(s)),
{
    reveal(is_begun);
    let all = segments.push(s);
    assert(all.last() == s);
    assert forall|i: int, j: int|
        0 <= i && j == i + 1 && j < all.len() implies #[trigger] all[i].end_ms
        == #[trigger] all[j].start_ms by {
        assert(all[i] == segments[i]);
        if j < segments.len() {
            assert(all[j] == segments[j]);
        }
    }
}

/// How many segments to expect: the length of the video in segments, rounded up,
/// and one more, but not more than there are keyframes.
fn expected_count(keyframes: usize, duration_ms: u64, target_ms: u64) -> (n: usize)
    requires
        0 < duration_ms <= i64::MAX,
        0 < target_ms <= i64::MAX,
    ensures
        ({
            let estimate = (duration_ms + target_ms - 1) / target_ms as int + 1;
            n == if estimate < keyframes {
                estimate
            } else {
                keyframes as int
            }
        }),
{
    let estimate: u64 = (duration_ms - 1) / target_ms + 2;
    assert((duration_ms + target_ms - 1) / target_ms as int == (duration_ms - 1) / target_ms as int
        + 1) by (nonlinear_arith)
        requires
            target_ms > 0,
            duration_ms > 0,
    ;
    if estimate < keyframes as u64 {
        estimate as usize
    } else {
        keyframes
    }
}

/// Cuts a video into segments that begin on keyframes, and end on keyframes or with
/// the video.
///
/// `keyframes_ms` are the keyframes in ascending order, `duration_ms` is the
/// length of the video and `target_ms` the length that a segment aims at. A video
/// without keyframes or without length, and a length of zero or less to aim at,
/// give no segments. What follows the last keyframe is one segment, however long.
pub fn compute_segments(keyframes_ms: &[i64], duration_ms: i64, target_ms: i64) -> (segments: Vec<
    Segment,
>)
    requires
        duration_ms > 0 && target_ms > 0 ==> sorted(keyframes_ms@) && span_fits(
            keyframes_ms@,
            duration_ms as int,
        ),
    ensures
        keyframes_ms@.len() == 0 || duration_ms <= 0 || target_ms <= 0 ==> segments@.len() == 0,
        keyframes_ms@.len() > 0 && duration_ms > 0 && target_ms > 0 ==> is_segmentation(
            keyframes_ms@,
            duration_ms as int,
            target_ms as int,
            segments@,
        ),
{
    if keyframes_ms.len() == 0 || duration_ms <= 0 || target_ms <= 0 {
        return Vec::new();
    }
    let mut segments: Vec<Segment> = Vec::with_capacity(
        expected_count(keyframes_ms.len(), duration_ms as u64, target_ms as u64),
    );
    let last_keyframe: i64 = keyframes_ms[keyframes_ms.len() - 1];
    let ghost kf = keyframes_ms@;
    let ghost (duration, target) = (duration_ms as int, target_ms as int);
    let mut seg_start: i64 = keyframes_ms[0];
    let mut index: usize = 0;
    assert(is_begun(kf, duration, target, segments@, seg_start as int)) by {
        reveal(is_begun);
    }
    loop
        invariant
            kf == keyframes_ms@,
            duration == duration_ms,
            target == target_ms,
            sorted(kf),
            kf.len() > 0,
            last_keyframe == kf.last(),
            span_fits(kf, duration),
            duration > 0,
            target > 0,
            index == segments@.len(),
            kf[0] <= seg_start,
            is_begun(kf, duration, target, segments@, seg_start as int),
        decreases (if seg_start < duration_ms { duration_ms - seg_start } else { 0int }),
    {
        let target_end: i128 = seg_start as i128 + target_ms as i128;
        if target_end >= duration_ms as i128 || last_keyframe <= seg_start {
            let seg = Segment {
                index,
                start_ms: seg_start,
                end_ms: duration_ms,
                duration_ms: duration_ms - seg_start,
            };
            proof {
                lemma_extend(kf, duration, target, segments@, seg);
            }
            segments.push(seg);
            return segments;
        }
        let best_end = nearest_keyframe(keyframes_ms, seg_start, target_end as i64);
        proof {
            lemma_segment_end(kf, duration, target, seg_start as int);
        }
        let seg = Segment {
            index,
            start_ms: seg_start,
            end_ms: best_end,
            duration_ms: best_end - seg_start,
        };
        proof {
            lemma_extend(kf, duration, target, segments@, seg);
        }
        segments.push(seg);
        if best_end >= duration_ms {
            return segments;
        }
        seg_start = best_end;
        index = segments.len();
    }
}

impl Segment {
    /// How long the segment lasts, in seconds with three decimals, as the tag
    /// `#EXTINF` has it.
    pub fn extinf(&self) -> (s: String)
        ensures
            s@ == thousandths(self.duration_ms as int),
    {
        thousandths_string(self.duration_ms)
    }
}

/// The longest duration, or zero where none is longer.
pub open spec fn longest(segments: Seq<Segment>) -> int
    decreases segments.len(),
{
    if segments.len() == 0 {
        0
    } else {
        let rest = longest(segments.drop_last());
        if segments.last().duration_ms > rest {
            segments.last().duration_ms as int
        } else {
            rest
        }
    }
}

/// The longest duration in seconds, rounded up.
pub open spec fn target_duration(segments: Seq<Segment>) -> nat {
    ((longest(segments) + 999) / 1000) as nat
}

/// The longest duration in seconds, rounded up, as the tag
/// `#EXT-X-TARGETDURATION` has it.
pub fn max_segment_duration(segments: &[Segment]) -> (secs: u64)
    ensures
        secs == target_duration(segments@),
{
    let mut max: i64 = 0;
    let mut i: usize = 0;
    while i < segments.len()
        invariant
            0 <= i <= segments@.len(),
            0 <= max,
            max == longest(segments@.take(i as int)),
        decreases segments@.len() - i,
    {
        assert(segments@.take(i + 1).drop_last() =~= segments@.take(i as int));
        if segments[i].duration_ms > max {
            max = segments[i].duration_ms;
        }
        i = i + 1;
    }
    assert(segments@.take(i as int) =~= segments@);
    (max as u64 + 999) / 1000
}

// ---------------------------------------------------------------------------
// Laws
// ---------------------------------------------------------------------------

/// With a keyframe past both `after` and `target`, there is a first one.
proof fn lemma_first_past_exists(keyframes: Seq<i64>, after: int, target: int, k: int)
    requires
        sorted(keyframes),
        0 <= k < keyframes.len(),
        keyframes[k] > after,
        keyframes[k] > target,
    ensures
        first_past(keyframes, after, target) is Some,
        is_first_past(
            keyframes,
            after,
            target,
            first_past(keyframes, after, target).unwrap(),
        ),
    decreases k,
{
    if k > 0 && keyframes[k - 1] > after && keyframes[k - 1] > target {
        lemma_first_past_exists(keyframes, after, target, k - 1);
    } else {
        assert(is_first_past(keyframes, after, target, keyframes[k] as int)) by {
            assert forall|i: int|
                0 <= i < keyframes.len() && after < #[trigger] keyframes[i] && target
                    < keyframes[i] implies keyframes[k] <= keyframes[i] by {
                if i < k {
                    assert(keyframes[i] <= keyframes[k - 1]);
                }
            }
        }
    }
}

/// With a keyframe behind `after` and up to `target`, there is a last one.
proof fn lemma_last_before_exists(keyframes: Seq<i64>, after: int, target: int, k: int)
    requires
        sorted(keyframes),
        0 <= k < keyframes.len(),
        after < keyframes[k] <= target,
    ensures
        last_before(keyframes, after, target) is Some,
        is_last_before(
            keyframes,
            after,
            target,
            last_before(keyframes, after, target).unwrap(),
        ),
    decreases keyframes.len() - k,
{
    if k + 1 < keyframes.len() && keyframes[k + 1] <= target {
        lemma_last_before_exists(keyframes, after, target, k + 1);
    } else {
        assert(is_last_before(keyframes, after, target, keyframes[k] as int)) by {
            assert forall|i: int|
                0 <= i < keyframes.len() && #[trigger] keyframes[i] <= target implies keyframes[i]
                <= keyframes[k] by {
                if i > k {
                    assert(keyframes[k + 1] <= keyframes[i]);
                }
            }
        }
    }
}

/// The end of a segment is a keyframe wherever one is left: with a keyframe
/// behind `after`, the nearest one is a keyframe behind `after`.
pub proof fn law_nearest_is_keyframe(keyframes: Seq<i64>, after: int, target: int, k: int)
    requires
        sorted(keyframes),
        is_keyframe(keyframes, k),
        after < k,
    ensures
        is_keyframe(keyframes, nearest(keyframes, after, target)),
        nearest(keyframes, after, target) > after,
{
    let i = choose|i: int| 0 <= i < keyframes.len() && #[trigger] keyframes[i] == k;
    if k <= target {
        lemma_last_before_exists(keyframes, after, target, i);
    } else {
        lemma_first_past_exists(keyframes, after, target, i);
    }
}

/// The keyframe that is taken is never far behind the best one: no keyframe
/// behind `after` is less than two fifths as far from `target`. Between two
/// keyframes around `target`, it is off by at most five sevenths of their distance.
pub proof fn law_nearest_is_close(keyframes: Seq<i64>, after: int, target: int, k: int)
    requires
        sorted(keyframes),
        is_keyframe(keyframes, k),
        after < k,
    ensures
        ({
            let off = nearest(keyframes, after, target) - target;
            &&& k <= target ==> 2 * off <= 5 * (target - k) && -2 * off <= 5 * (target - k)
            &&& k > target ==> 2 * off <= 5 * (k - target) && -2 * off <= 5 * (k - target)
            &&& match (
                last_before(keyframes, after, target),
                first_past(keyframes, after, target),
            ) {
                (Some(b), Some(a)) => 7 * off <= 5 * (a - b) && -7 * off <= 5 * (a - b),
                _ => true,
            }
        }),
{
    let i = choose|i: int| 0 <= i < keyframes.len() && #[trigger] keyframes[i] == k;
    if k <= target {
        lemma_last_before_exists(keyframes, after, target, i);
    } else {
        lemma_first_past_exists(keyframes, after, target, i);
    }
    match last_before(keyframes, after, target) {
        Some(b) => {
            assert(is_last_before(keyframes, after, target, b));
        },
        None => {},
    }
    match first_past(keyframes, after, target) {
        Some(a) => {
            assert(is_first_past(keyframes, after, target, a));
        },
        None => {},
    }
}

/// Which keyframe ends a segment. Of the keyframes behind `after`, it is the last one up
/// to `target`, or else the first one past it; and one past `target` is taken only where
/// each one in front of it is more than two and a half times as far away. Where no
/// keyframe is left, it is `target`.
pub proof fn law_nearest_prefers_the_one_before(keyframes: Seq<i64>, after: int, target: int)
    requires
        sorted(keyframes),
    ensures
        ({
            let r = nearest(keyframes, after, target);
            if forall|k: int| 0 <= k < keyframes.len() ==> #[trigger] keyframes[k] <= after {
                r == target
            } else {
                &&& after < r
                &&& exists|k: int| 0 <= k < keyframes.len() && #[trigger] keyframes[k] == r
                &&& forall|k: int|
                    0 <= k < keyframes.len() && after < #[trigger] keyframes[k] <= target ==> if r
                        > target {
                        5 * (r - target) < 2 * (target - keyframes[k])
                    } else {
                        keyframes[k] <= r
                    }
                &&& forall|k: int|
                    0 <= k < keyframes.len() && after < #[trigger] keyframes[k] && target
                        < keyframes[k] ==> if r > target {
                        r <= keyframes[k]
                    } else {
                        5 * (keyframes[k] - target) >= 2 * (target - r)
                    }
            }
        }),
{
    if exists|k: int| 0 <= k < keyframes.len() && #[trigger] keyframes[k] > after {
        let k = choose|k: int| 0 <= k < keyframes.len() && #[trigger] keyframes[k] > after;
        law_nearest_is_keyframe(keyframes, after, target, keyframes[k] as int);
        lemma_candidates(keyframes, after, target);
    } else {
        assert(forall|b: int| !is_last_before(keyframes, after, target, b));
        assert(forall|a: int| !is_first_past(keyframes, after, target, a));
    }
}

/// The two candidates: the one up to `target` is there wherever a keyframe is, and so is
/// the one past it.
proof fn lemma_candidates(keyframes: Seq<i64>, after: int, target: int)
    requires
        sorted(keyframes),
    ensures
        match last_before(keyframes, after, target) {
            Some(b) => is_last_before(keyframes, after, target, b),
            None => forall|k: int|
                0 <= k < keyframes.len() ==> !(after < #[trigger] keyframes[k] <= target),
        },
        match first_past(keyframes, after, target) {
            Some(a) => is_first_past(keyframes, after, target, a),
            None => forall|k: int|
                0 <= k < keyframes.len() ==> !(after < #[trigger] keyframes[k] && target
                    < keyframes[k]),
        },
{
    assert forall|k: int|
        0 <= k < keyframes.len() && after < #[trigger] keyframes[k] <= target implies last_before(
        keyframes,
        after,
        target,
    ) is Some by {
        lemma_last_before_exists(keyframes, after, target, k);
    }
    assert forall|k: int|
        0 <= k < keyframes.len() && after < #[trigger] keyframes[k] && target
            < keyframes[k] implies first_past(keyframes, after, target) is Some by {
        lemma_first_past_exists(keyframes, after, target, k);
    }
}

/// Where each segment ends. It runs to the end of the video, if that is within the
/// length aimed at, or if no keyframe is left. Else it ends on a keyframe behind its
/// beginning: the last one within the length aimed at, or the first one past it, which is
/// taken only where each one within is more than two and a half times as far away from
/// that length.
pub proof fn law_segment_ends_near_its_target(
    keyframes: Seq<i64>,
    duration: int,
    target: int,
    segments: Seq<Segment>,
    i: int,
)
    requires
        sorted(keyframes),
        keyframes.len() > 0,
        is_segmentation(keyframes, duration, target, segments),
        0 <= i < segments.len(),
    ensures
        ({
            let start = segments[i].start_ms;
            let end = segments[i].end_ms;
            let aim = start + target;
            if aim >= duration || (forall|k: int|
                0 <= k < keyframes.len() ==> #[trigger] keyframes[k] <= start) {
                &&& end == duration
                &&& i == segments.len() - 1
            } else {
                &&& start < end
                &&& exists|k: int| 0 <= k < keyframes.len() && #[trigger] keyframes[k] == end
                &&& forall|k: int|
                    0 <= k < keyframes.len() && start < #[trigger] keyframes[k] <= aim ==> if end
                        > aim {
                        5 * (end - aim) < 2 * (aim - keyframes[k])
                    } else {
                        keyframes[k] <= end
                    }
                &&& forall|k: int|
                    0 <= k < keyframes.len() && start < #[trigger] keyframes[k] && aim
                        < keyframes[k] ==> if end > aim {
                        end <= keyframes[k]
                    } else {
                        5 * (keyframes[k] - aim) >= 2 * (aim - end)
                    }
                &&& i == segments.len() - 1 <==> end >= duration
            }
        }),
{
    let s = segments[i];
    assert(s.end_ms == segment_end(keyframes, duration, target, s.start_ms as int));
    assert(segments.last() == segments[segments.len() - 1]);
    law_nearest_prefers_the_one_before(keyframes, s.start_ms as int, s.start_ms + target);
    assert(keyframes.last() == keyframes[keyframes.len() - 1]);
    assert(keyframes.last() <= s.start_ms <==> forall|k: int|
        0 <= k < keyframes.len() ==> #[trigger] keyframes[k] <= s.start_ms);
    if i < segments.len() - 1 {
        assert(segments[i].end_ms < duration);
    }
}

/// What a segment says of itself: its place among the others, from zero, where it begins,
/// which is where the one before it ends, and how long it lasts from there to its end.
pub proof fn law_segment_says_what_it_is(
    keyframes: Seq<i64>,
    duration: int,
    target: int,
    segments: Seq<Segment>,
    i: int,
)
    requires
        is_segmentation(keyframes, duration, target, segments),
        0 <= i < segments.len(),
    ensures
        segments[i].index == i,
        segments[i].start_ms == if i == 0 {
            keyframes[0]
        } else {
            segments[i - 1].end_ms
        },
        segments[i].start_ms + segments[i].duration_ms == segments[i].end_ms,
        i < segments.len() - 1 <==> segments[i].end_ms < duration,
{
    assert(segments.last() == segments[segments.len() - 1]);
    if i > 0 {
        assert(segments[i - 1].end_ms == segments[i].start_ms);
    }
    if i < segments.len() - 1 {
        assert(segments[i].end_ms < duration);
    }
}

/// A video has one segmentation only.
pub proof fn law_segmentation_unique(
    keyframes: Seq<i64>,
    duration: int,
    target: int,
    one: Seq<Segment>,
    other: Seq<Segment>,
)
    requires
        is_segmentation(keyframes, duration, target, one),
        is_segmentation(keyframes, duration, target, other),
    ensures
        one == other,
{
    lemma_segmentations_agree(
        keyframes,
        duration,
        target,
        one,
        other,
        if one.len() < other.len() {
            one.len() - 1
        } else {
            other.len() - 1
        },
    );
    assert forall|i: int| 0 <= i < one.len() implies one[i] == other[i] by {
        lemma_segmentations_agree(keyframes, duration, target, one, other, i);
    }
    assert(one =~= other);
}

/// Two segmentations of a video agree on each segment that both have.
proof fn lemma_segmentations_agree(
    keyframes: Seq<i64>,
    duration: int,
    target: int,
    one: Seq<Segment>,
    other: Seq<Segment>,
    i: int,
)
    requires
        is_segmentation(keyframes, duration, target, one),
        is_segmentation(keyframes, duration, target, other),
        0 <= i < one.len(),
        i < other.len(),
    ensures
        one[i] == other[i],
    decreases i,
{
    if i > 0 {
        lemma_segmentations_agree(keyframes, duration, target, one, other, i - 1);
        assert(one[i - 1].end_ms == one[i].start_ms);
        assert(other[i - 1].end_ms == other[i].start_ms);
    }
}

/// The segments from place `j` on, counted from there.
pub open spec fn counted_from(segments: Seq<Segment>, j: int) -> Seq<Segment> {
    segments.skip(j).map_values(
        |s: Segment|
            Segment {
                index: (s.index - j) as usize,
                start_ms: s.start_ms,
                end_ms: s.end_ms,
                duration_ms: s.duration_ms,
            },
    )
}

/// The cuts behind a boundary depend only on the keyframes from that boundary on:
/// with what comes before the keyframe on which a segment begins left out, the video
/// is cut into the same segments from there, counted anew, and into no others.
pub proof fn law_cuts_depend_on_what_follows(
    keyframes: Seq<i64>,
    duration: int,
    target: int,
    segments: Seq<Segment>,
    j: int,
    m: int,
)
    requires
        sorted(keyframes),
        is_segmentation(keyframes, duration, target, segments),
        0 <= j < segments.len(),
        0 <= m < keyframes.len(),
        segments[j].start_ms == keyframes[m],
    ensures
        sorted(keyframes.skip(m)),
        span_fits(keyframes, duration) ==> span_fits(keyframes.skip(m), duration),
        is_segmentation(keyframes.skip(m), duration, target, counted_from(segments, j)),
        forall|other: Seq<Segment>|
            #[trigger] is_segmentation(keyframes.skip(m), duration, target, other) ==> other
                == counted_from(segments, j),
{
    assert(keyframes[0] <= keyframes[m]);
    lemma_counted_from(keyframes, duration, target, segments, j, m);
    assert forall|other: Seq<Segment>| #[trigger]
        is_segmentation(keyframes.skip(m), duration, target, other) implies other == counted_from(
        segments,
        j,
    ) by {
        law_segmentation_unique(
            keyframes.skip(m),
            duration,
            target,
            other,
            counted_from(segments, j),
        );
    }
}

/// The segments from a boundary on are those of the keyframes from there on.
proof fn lemma_counted_from(
    keyframes: Seq<i64>,
    duration: int,
    target: int,
    segments: Seq<Segment>,
    j: int,
    m: int,
)
    requires
        sorted(keyframes),
        is_segmentation(keyframes, duration, target, segments),
        0 <= j < segments.len(),
        0 <= m < keyframes.len(),
        segments[j].start_ms == keyframes[m],
    ensures
        is_segmentation(keyframes.skip(m), duration, target, counted_from(segments, j)),
{
    assert forall|i: int| 0 <= i < segments.len() - j implies {
        let s = #[trigger] counted_from(segments, j)[i];
        &&& s.index == i
        &&& s.end_ms == segment_end(keyframes.skip(m), duration, target, s.start_ms as int)
        &&& s.duration_ms == s.end_ms - s.start_ms
    } by {
        lemma_counted_segment(keyframes, duration, target, segments, j, m, i);
    }
    lemma_counted_chain(keyframes, duration, target, segments, j);
    let out = counted_from(segments, j);
    assert(out[0].start_ms == segments[j].start_ms);
}

/// The segments from a boundary on follow one another as they did before.
proof fn lemma_counted_chain(
    keyframes: Seq<i64>,
    duration: int,
    target: int,
    segments: Seq<Segment>,
    j: int,
)
    requires
        is_segmentation(keyframes, duration, target, segments),
        0 <= j < segments.len(),
    ensures
        ({
            let out = counted_from(segments, j);
            &&& out.len() == segments.len() - j
            &&& forall|i: int, k: int|
                0 <= i && k == i + 1 && k < out.len() ==> #[trigger] out[i].end_ms
                    == #[trigger] out[k].start_ms
            &&& forall|i: int| 0 <= i < out.len() - 1 ==> #[trigger] out[i].end_ms < duration
            &&& out.last().end_ms >= duration
        }),
{
    let out = counted_from(segments, j);
    assert forall|i: int, k: int|
        0 <= i && k == i + 1 && k < out.len() implies #[trigger] out[i].end_ms
        == #[trigger] out[k].start_ms by {
        law_segment_says_what_it_is(keyframes, duration, target, segments, j + k);
    }
    assert forall|i: int| 0 <= i < out.len() - 1 implies #[trigger] out[i].end_ms < duration by {
        law_segment_says_what_it_is(keyframes, duration, target, segments, j + i);
    }
    law_segment_says_what_it_is(keyframes, duration, target, segments, segments.len() - 1);
}

/// Each segment from a boundary on is as the keyframes from there on have it.
proof fn lemma_counted_segment(
    keyframes: Seq<i64>,
    duration: int,
    target: int,
    segments: Seq<Segment>,
    j: int,
    m: int,
    i: int,
)
    requires
        sorted(keyframes),
        is_segmentation(keyframes, duration, target, segments),
        0 <= j,
        0 <= i < segments.len() - j,
        0 <= m < keyframes.len(),
        segments[j].start_ms == keyframes[m],
    ensures
        ({
            let s = counted_from(segments, j)[i];
            &&& s.index == i
            &&& s.end_ms == segment_end(keyframes.skip(m), duration, target, s.start_ms as int)
            &&& s.duration_ms == s.end_ms - s.start_ms
        }),
{
    let s = segments[j + i];
    let start = s.start_ms as int;
    assert(keyframes[m] <= start) by {
        lemma_starts_grow(keyframes, duration, target, segments, j, j + i);
    }
    lemma_end_of_rest(keyframes, m, duration, target, start);
    lemma_counted(segments, j, i);
    law_segment_says_what_it_is(keyframes, duration, target, segments, j + i);
}

/// What counting anew leaves of a segment: all but its index.
proof fn lemma_counted(segments: Seq<Segment>, j: int, i: int)
    requires
        0 <= j,
        0 <= i < segments.len() - j,
        segments[j + i].index == j + i,
    ensures
        ({
            let (s, t) = (segments[j + i], counted_from(segments, j)[i]);
            &&& t.index == i
            &&& t.start_ms == s.start_ms
            &&& t.end_ms == s.end_ms
            &&& t.duration_ms == s.duration_ms
        }),
{
    assert(segments.skip(j)[i] == segments[j + i]);
}

/// A segment that begins at the keyframe at `m` or behind it ends where the keyframes
/// from there on have it end.
proof fn lemma_end_of_rest(keyframes: Seq<i64>, m: int, duration: int, target: int, start: int)
    requires
        sorted(keyframes),
        0 <= m < keyframes.len(),
        keyframes[m] <= start,
    ensures
        segment_end(keyframes.skip(m), duration, target, start) == segment_end(
            keyframes,
            duration,
            target,
            start,
        ),
{
    assert(keyframes.skip(m).last() == keyframes.last());
    lemma_nearest_of_rest(keyframes, m, start, start + target);
}

/// Of two segments, the later one does not begin earlier.
proof fn lemma_starts_grow(
    keyframes: Seq<i64>,
    duration: int,
    target: int,
    segments: Seq<Segment>,
    i: int,
    j: int,
)
    requires
        sorted(keyframes),
        keyframes.len() > 0,
        is_segmentation(keyframes, duration, target, segments),
        0 <= i <= j < segments.len(),
    ensures
        segments[i].start_ms <= segments[j].start_ms,
    decreases j - i,
{
    if i < j {
        lemma_starts_grow(keyframes, duration, target, segments, i, j - 1);
        assert(segments[j - 1].end_ms == segments[j].start_ms);
        assert(segments[j - 1].end_ms < duration);
        lemma_segment_end(keyframes, duration, target, segments[j - 1].start_ms as int);
    }
}

/// Keyframes up to the one at `m` do not count for a segment that begins there or
/// behind it.
proof fn lemma_nearest_of_rest(keyframes: Seq<i64>, m: int, after: int, target: int)
    requires
        sorted(keyframes),
        0 <= m < keyframes.len(),
        keyframes[m] <= after,
    ensures
        nearest(keyframes.skip(m), after, target) == nearest(keyframes, after, target),
{
    let rest = keyframes.skip(m);
    assert forall|t: int| after < t implies is_keyframe(rest, t) == is_keyframe(keyframes, t) by {
        if is_keyframe(keyframes, t) {
            let i = choose|i: int| 0 <= i < keyframes.len() && #[trigger] keyframes[i] == t;
            assert(rest[i - m] == t);
        }
        if is_keyframe(rest, t) {
            let i = choose|i: int| 0 <= i < rest.len() && #[trigger] rest[i] == t;
            assert(keyframes[i + m] == t);
        }
    }
    assert forall|b: int| is_last_before(rest, after, target, b) == is_last_before(
        keyframes,
        after,
        target,
        b,
    ) by {
        if is_last_before(rest, after, target, b) {
            assert forall|i: int|
                0 <= i < keyframes.len() && #[trigger] keyframes[i] <= target implies keyframes[i]
                <= b by {
                if i >= m {
                    assert(rest[i - m] == keyframes[i]);
                }
            }
        }
        if is_last_before(keyframes, after, target, b) {
            assert forall|i: int| 0 <= i < rest.len() && #[trigger] rest[i] <= target implies rest[i]
                <= b by {
                assert(keyframes[i + m] == rest[i]);
            }
        }
    }
    assert forall|a: int| is_first_past(rest, after, target, a) == is_first_past(
        keyframes,
        after,
        target,
        a,
    ) by {
        if is_first_past(rest, after, target, a) {
            assert forall|i: int|
                0 <= i < keyframes.len() && after < #[trigger] keyframes[i] && target
                    < keyframes[i] implies a <= keyframes[i] by {
                assert(rest[i - m] == keyframes[i]);
            }
        }
        if is_first_past(keyframes, after, target, a) {
            assert forall|i: int|
                0 <= i < rest.len() && after < #[trigger] rest[i] && target < rest[i] implies a
                <= rest[i] by {
                assert(keyframes[i + m] == rest[i]);
            }
        }
    }
    if exists|b: int| is_last_before(keyframes, after, target, b) {
        let b = choose|b: int| is_last_before(keyframes, after, target, b);
        lemma_last_before(keyframes, after, target, b);
        lemma_last_before(rest, after, target, b);
    }
    if exists|a: int| is_first_past(keyframes, after, target, a) {
        let a = choose|a: int| is_first_past(keyframes, after, target, a);
        lemma_first_past(keyframes, after, target, a);
        lemma_first_past(rest, after, target, a);
    }
}

/// The durations added up.
pub open spec fn total_duration(segments: Seq<Segment>) -> int
    decreases segments.len(),
{
    if segments.len() == 0 {
        0
    } else {
        total_duration(segments.drop_last()) + segments.last().duration_ms
    }
}

/// The segments cover the video without a gap and without an overlap: they begin
/// at the first keyframe, each begins where the one before it ends, and together
/// they last from the first keyframe to the end of the last segment. That is the
/// end of the video, or a keyframe behind it.
pub proof fn law_segments_cover(
    keyframes: Seq<i64>,
    duration: int,
    target: int,
    segments: Seq<Segment>,
)
    requires
        sorted(keyframes),
        keyframes.len() > 0,
        is_segmentation(keyframes, duration, target, segments),
    ensures
        segments.first().start_ms == keyframes[0],
        forall|i: int|
            0 < i < segments.len() ==> #[trigger] segments[i].start_ms == segments[i - 1].end_ms,
        total_duration(segments) == segments.last().end_ms - keyframes[0],
        segments.last().end_ms == duration || segments.last().end_ms > duration && is_keyframe(
            keyframes,
            segments.last().end_ms as int,
        ),
        keyframes.last() <= duration ==> segments.last().end_ms == duration,
{
    lemma_total_duration(keyframes, duration, target, segments, segments.len() as int);
    assert(segments.take(segments.len() as int) =~= segments);
    assert forall|i: int| 0 < i < segments.len() implies #[trigger] segments[i].start_ms
        == segments[i - 1].end_ms by {
        let j = i - 1;
        assert(segments[j].end_ms == segments[j + 1].start_ms);
    }
    let last = segments[segments.len() - 1];
    lemma_segment_end(keyframes, duration, target, last.start_ms as int);
}

/// The first `n` durations add up to the distance that they cover.
proof fn lemma_total_duration(
    keyframes: Seq<i64>,
    duration: int,
    target: int,
    segments: Seq<Segment>,
    n: int,
)
    requires
        is_segmentation(keyframes, duration, target, segments),
        0 < n <= segments.len(),
    ensures
        total_duration(segments.take(n)) == segments[n - 1].end_ms - keyframes[0],
    decreases n,
{
    let t = segments.take(n);
    assert(t.drop_last() =~= segments.take(n - 1));
    assert(t.last() == segments[n - 1]);
    if n > 1 {
        lemma_total_duration(keyframes, duration, target, segments, n - 1);
        assert(segments[n - 2].end_ms == segments[n - 1].start_ms);
    } else {
        assert(total_duration(t.drop_last()) == 0);
    }
}

/// Every segment begins on a keyframe, and ends on a keyframe or with the video.
pub proof fn law_segments_start_on_keyframes(
    keyframes: Seq<i64>,
    duration: int,
    target: int,
    segments: Seq<Segment>,
)
    requires
        sorted(keyframes),
        keyframes.len() > 0,
        is_segmentation(keyframes, duration, target, segments),
    ensures
        forall|i: int|
            0 <= i < segments.len() ==> is_keyframe(
                keyframes,
                #[trigger] segments[i].start_ms as int,
            ),
        forall|i: int|
            0 <= i < segments.len() ==> #[trigger] segments[i].end_ms == duration || is_keyframe(
                keyframes,
                segments[i].end_ms as int,
            ),
{
    assert forall|i: int| 0 <= i < segments.len() implies is_keyframe(
        keyframes,
        #[trigger] segments[i].start_ms as int,
    ) by {
        if i == 0 {
            assert(keyframes[0] == segments[0].start_ms);
        } else {
            let before = segments[i - 1];
            assert(before.end_ms == segments[i].start_ms);
            assert(before.end_ms < duration);
            lemma_segment_end(keyframes, duration, target, before.start_ms as int);
        }
    }
    assert forall|i: int| 0 <= i < segments.len() implies #[trigger] segments[i].end_ms == duration
        || is_keyframe(keyframes, segments[i].end_ms as int) by {
        lemma_segment_end(keyframes, duration, target, segments[i].start_ms as int);
    }
}

/// A video has no more segments than keyframes.
pub proof fn law_no_more_segments_than_keyframes(
    keyframes: Seq<i64>,
    duration: int,
    target: int,
    segments: Seq<Segment>,
)
    requires
        sorted(keyframes),
        keyframes.len() > 0,
        is_segmentation(keyframes, duration, target, segments),
    ensures
        segments.len() <= keyframes.len(),
{
    let _ = lemma_start_place(keyframes, duration, target, segments, segments.len() - 1);
}

/// The keyframe on which segment `i` begins has at least `i` keyframes before it.
proof fn lemma_start_place(
    keyframes: Seq<i64>,
    duration: int,
    target: int,
    segments: Seq<Segment>,
    i: int,
) -> (k: int)
    requires
        sorted(keyframes),
        keyframes.len() > 0,
        is_segmentation(keyframes, duration, target, segments),
        0 <= i < segments.len(),
    ensures
        i <= k < keyframes.len(),
        keyframes[k] == segments[i].start_ms,
    decreases i,
{
    if i == 0 {
        0
    } else {
        let before = segments[i - 1];
        let j = lemma_start_place(keyframes, duration, target, segments, i - 1);
        assert(before.end_ms == segments[i].start_ms);
        assert(before.end_ms < duration);
        lemma_segment_end(keyframes, duration, target, before.start_ms as int);
        choose|k: int|
            0 <= k < keyframes.len() && #[trigger] keyframes[k] == segments[i].start_ms
    }
}

/// Wherever the first keyframe lies within the video, every segment lasts: it
/// ends behind its beginning.
pub proof fn law_segments_last(
    keyframes: Seq<i64>,
    duration: int,
    target: int,
    segments: Seq<Segment>,
)
    requires
        sorted(keyframes),
        keyframes.len() > 0,
        is_segmentation(keyframes, duration, target, segments),
        keyframes[0] < duration,
    ensures
        forall|i: int| 0 <= i < segments.len() ==> #[trigger] segments[i].duration_ms > 0,
{
    assert forall|i: int| 0 <= i < segments.len() implies #[trigger] segments[i].duration_ms
        > 0 by {
        if i > 0 {
            assert(segments[i - 1].end_ms == segments[i].start_ms);
            assert(segments[i - 1].end_ms < duration);
        }
        lemma_segment_end(keyframes, duration, target, segments[i].start_ms as int);
    }
}

/// The target duration of a playlist is the least whole number of seconds that no
/// segment exceeds.
pub proof fn law_target_duration(segments: Seq<Segment>)
    ensures
        forall|i: int|
            0 <= i < segments.len() ==> #[trigger] segments[i].duration_ms <= 1000
                * target_duration(segments),
        target_duration(segments) > 0 ==> exists|i: int|
            0 <= i < segments.len() && #[trigger] segments[i].duration_ms > 1000 * (
            target_duration(segments) - 1),
{
    lemma_longest(segments);
    if target_duration(segments) > 0 {
        let k = choose|k: int|
            0 <= k < segments.len() && #[trigger] segments[k].duration_ms == longest(segments);
        assert(segments[k].duration_ms > 1000 * (target_duration(segments) - 1));
    }
}

/// No segment is longer than the longest, and one is as long unless that is zero.
proof fn lemma_longest(segments: Seq<Segment>)
    ensures
        longest(segments) >= 0,
        forall|i: int| 0 <= i < segments.len() ==> #[trigger] segments[i].duration_ms <= longest(segments),
        longest(segments) > 0 ==> exists|i: int|
            0 <= i < segments.len() && #[trigger] segments[i].duration_ms == longest(segments),
    decreases segments.len(),
{
    if segments.len() > 0 {
        let rest = segments.drop_last();
        lemma_longest(rest);
        assert forall|i: int| 0 <= i < segments.len() implies #[trigger] segments[i].duration_ms
            <= longest(segments) by {
            if i < rest.len() {
                assert(rest[i] == segments[i]);
            }
        }
        if longest(segments) > 0 {
            if segments.last().duration_ms > longest(rest) {
                assert(segments[segments.len() - 1].duration_ms == longest(segments));
            } else {
                let k = choose|k: int|
                    0 <= k < rest.len() && #[trigger] rest[k].duration_ms == longest(rest);
                assert(segments[k].duration_ms == longest(segments));
            }
        }
    }
}

} // verus!
