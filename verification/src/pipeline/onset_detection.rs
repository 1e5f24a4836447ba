//! Peak picking on an onset-strength curve.
//!
//! Strengths are given as order keys: for the non-negative strengths of an
//! onset curve, the IEEE-754 bit pattern of an `f32` orders exactly as the
//! value does, so every comparison of the algorithm is a comparison of keys.
use vstd::prelude::*;

verus! {

/// Configuration for the peak-picking algorithm.
#[derive(Debug, Clone, Copy, PartialEq, Eq)]
pub struct PeakPickerConfig {
    /// Minimum onset strength to be considered a peak, as an order key.
    pub threshold: u32,
    /// Minimum number of frames between two successive peaks.
    /// Prevents double-detection of the same onset.
    pub min_gap_frames: usize,
    /// Number of frames on each side that must be lower for a point to be a local max.
    pub local_max_window: usize,
}

impl Default for PeakPickerConfig {
    /// A threshold of 0.15, a gap of 4 frames (about 23 ms at a hop of 512
    /// samples at 44.1 kHz) and a window of 2 frames.
    fn default() -> (r: Self)
        ensures
            r.threshold == 0x3e19_999a,
            r.min_gap_frames == 4,
            r.local_max_window == 2,
    {
        Self { threshold: 0x3e19_999a, min_gap_frames: 4, local_max_window: 2 }
    }
}

/// Frame `i` can hold a peak: it has `window` frames on each side, reaches
/// the threshold, and is stronger than every other frame within the window.
pub open spec fn is_candidate(values: Seq<u32>, i: int, threshold: u32, window: int) -> bool {
    &&& window <= i
    &&& i + window < values.len()
    &&& values[i] >= threshold
    &&& forall|d: int| 1 <= d <= window ==> values[i] > #[trigger] values[i - d] && values[i] > values[i + d]
}

/// The peaks among the first `end` frames: scanning forwards, every
/// candidate at least `gap` frames after the previous peak.
pub open spec fn picked_peaks(values: Seq<u32>, threshold: u32, window: int, gap: int, end: int) -> Seq<int>
    decreases end,
{
    if end <= 0 {
        seq![]
    } else {
        let before = picked_peaks(values, threshold, window, gap, end - 1);
        let i = end - 1;
        if is_candidate(values, i, threshold, window) && (before.len() == 0 || i - before.last() >= gap) {
            before.push(i)
        } else {
            before
        }
    }
}

/// Frame indices of the peaks of an onset curve.
pub open spec fn peaks_of(values: Seq<u32>, config: PeakPickerConfig) -> Seq<int> {
    picked_peaks(
        values,
        config.threshold,
        config.local_max_window as int,
        config.min_gap_frames as int,
        values.len() as int,
    )
}

/// Detect discrete onset peaks from an onset curve's strengths.
///
/// Algorithm: local maximum detection with a minimum threshold and a minimum
/// inter-onset gap to suppress multiple detections of the same transient.
/// Returns the frame index of each peak, in increasing order.
pub fn detect_onsets(values: &[u32], config: &PeakPickerConfig) -> (r: Vec<usize>)
    ensures
        r@.map_values(|f: usize| f as int) == peaks_of(values@, *config),
{
    let n = values.len();
    let w = config.local_max_window;
    let mut peaks: Vec<usize> = Vec::new();
    let mut last: Option<usize> = None;
    let upper = if n >= w { n - w } else { 0 };
    let mut i: usize = w;
    proof {
        lemma_no_candidates(values@, config.threshold, w as int, config.min_gap_frames as int, 0, w as int);
        assert(peaks@.map_values(|f: usize| f as int) =~= Seq::<int>::empty());
    }
    while i < upper
        invariant
            n == values@.len(),
            w == config.local_max_window,
            upper == if n >= w { n - w } else { 0 },
            w <= i,
            i <= upper || i == w,
            peaks@.map_values(|f: usize| f as int) == picked_peaks(
                values@,
                config.threshold,
                w as int,
                config.min_gap_frames as int,
                i as int,
            ),
            peaks@.len() == 0 <==> last is None,
            peaks@.len() > 0 ==> last == Some(peaks@.last()) && peaks@.last() < i,
        decreases upper - i,
    {
        let v = values[i];
        let mut local_max = true;
        let mut d: usize = 1;
        while d <= w && local_max
            invariant
                1 <= d <= w + 1,
                w <= i,
                i + w < n,
                n == values@.len(),
                v == values@[i as int],
                local_max == forall|e: int| 1 <= e < d ==> v > #[trigger] values@[i - e] && v > values@[i + e],
            decreases w + 1 - d,
        {
            if !(v > values[i - d] && v > values[i + d]) {
                local_max = false;
            }
            d = d + 1;
        }
        let candidate = v >= config.threshold && local_max;
        assert(candidate == is_candidate(values@, i as int, config.threshold, w as int)) by {
            if !local_max {
                let e = choose|e: int| 1 <= e < d && !(v > #[trigger] values@[i - e] && v > values@[i + e]);
                assert(1 <= e <= w);
            }
        }
        let far_enough = match last {
            None => true,
            Some(l) => i - l >= config.min_gap_frames,
        };
        let ghost before = peaks@;
        if candidate && far_enough {
            peaks.push(i);
            last = Some(i);
            assert(peaks@.map_values(|f: usize| f as int) =~= before.map_values(|f: usize| f as int).push(i as int));
        }
        i = i + 1;
    }
    proof {
        if i <= n {
            lemma_no_candidates(values@, config.threshold, w as int, config.min_gap_frames as int, i as int, n as int);
        } else {
            lemma_no_candidates(values@, config.threshold, w as int, config.min_gap_frames as int, n as int, i as int);
        }
    }
    peaks
}

proof fn lemma_no_candidates(values: Seq<u32>, threshold: u32, window: int, gap: int, a: int, b: int)
    requires
        0 <= a <= b,
        forall|i: int| a <= i < b ==> !is_candidate(values, i, threshold, window),
    ensures
        picked_peaks(values, threshold, window, gap, b) == picked_peaks(values, threshold, window, gap, a),
    decreases b - a,
{
    if a < b {
        lemma_no_candidates(values, threshold, window, gap, a, b - 1);
    }
}

proof fn lemma_picked_properties(values: Seq<u32>, threshold: u32, window: int, gap: int, end: int)
    requires
        0 <= end,
    ensures
        ({
            let p = picked_peaks(values, threshold, window, gap, end);
            &&& forall|a: int, b: int| 0 <= a < b < p.len() ==> p[a] < p[b]
            &&& forall|a: int| 0 <= a < p.len() ==> 0 <= #[trigger] p[a] < end
            &&& forall|a: int| 0 < a < p.len() ==> #[trigger] p[a] - p[a - 1] >= gap
            &&& forall|a: int| 0 <= a < p.len() ==> is_candidate(values, #[trigger] p[a], threshold, window)
            &&& forall|i: int|
                0 <= i < end && is_candidate(values, i, threshold, window) && !p.contains(i) ==> exists|a: int|
                    0 <= a < p.len() && #[trigger] p[a] < i && i - p[a] < gap
        }),
    decreases end,
{
    if end > 0 {
        lemma_picked_properties(values, threshold, window, gap, end - 1);
        let before = picked_peaks(values, threshold, window, gap, end - 1);
        let p = picked_peaks(values, threshold, window, gap, end);
        let i = end - 1;
        assert forall|j: int|
            0 <= j < end && is_candidate(values, j, threshold, window) && !p.contains(j) implies exists|a: int|
            0 <= a < p.len() && #[trigger] p[a] < j && j - p[a] < gap by {
            if j < i {
                assert(!before.contains(j)) by {
                    if before.contains(j) {
                        let a = choose|a: int| 0 <= a < before.len() && before[a] == j;
                        assert(p[a] == j);
                    }
                }
                let a = choose|a: int| 0 <= a < before.len() && #[trigger] before[a] < j && j - before[a] < gap;
                assert(p[a] == before[a]);
            } else {
                if before.len() == 0 || i - before.last() >= gap {
                    assert(p.last() == i);
                    assert(p.contains(i));
                } else {
                    assert(p[before.len() - 1] == before.last());
                }
            }
        }
    }
}

/// What the peaks of a curve are: increasing frame indices at least the
/// minimum gap apart, each reaching the threshold and stronger than every other frame
/// within the window around it, and every such frame left out lies less than
/// the minimum gap after a peak.
pub proof fn lemma_peaks_characterized(values: Seq<u32>, config: PeakPickerConfig)
    ensures
        ({
            let p = peaks_of(values, config);
            &&& forall|a: int, b: int| 0 <= a < b < p.len() ==> p[a] < p[b]
            &&& forall|a: int| 0 < a < p.len() ==> #[trigger] p[a] - p[a - 1] >= config.min_gap_frames
            &&& forall|a: int|
                0 <= a < p.len() ==> is_candidate(values, #[trigger] p[a], config.threshold, config.local_max_window as int)
            &&& forall|i: int|
                0 <= i < values.len() && is_candidate(values, i, config.threshold, config.local_max_window as int)
                    && !p.contains(i) ==> exists|a: int|
                    0 <= a < p.len() && #[trigger] p[a] < i && i - p[a] < config.min_gap_frames
        }),
{
    lemma_picked_properties(
        values,
        config.threshold,
        config.local_max_window as int,
        config.min_gap_frames as int,
        values.len() as int,
    );
}

/// A candidate reaches the threshold and is strictly stronger than each frame
/// within the window on both sides.
proof fn lemma_candidate_strict(values: Seq<u32>, i: int, threshold: u32, window: int)
    requires
        is_candidate(values, i, threshold, window),
    ensures
        window <= i,
        i + window < values.len(),
        values[i] >= threshold,
        forall|d: int| 1 <= d <= window ==> values[i] > #[trigger] values[i - d] && values[i] > values[i + d],
{
}

/// Each peak is a frame that reaches the threshold and is strictly stronger
/// than every frame at each distance from 1 to the window on both sides (so
/// the window fits around it); a frame with those properties that is not a
/// peak lies less than the minimum gap after an earlier peak.
pub proof fn lemma_peaks_are_strict_maxima(values: Seq<u32>, config: PeakPickerConfig)
    ensures
        forall|a: int|
            0 <= a < peaks_of(values, config).len() ==> config.local_max_window <= #[trigger] peaks_of(
                values,
                config,
            )[a] && peaks_of(values, config)[a] + config.local_max_window < values.len() && values[peaks_of(
                values,
                config,
            )[a]] >= config.threshold,
        forall|a: int, d: int|
            0 <= a < peaks_of(values, config).len() && 1 <= d <= config.local_max_window ==> values[peaks_of(
                values,
                config,
            )[a]] > #[trigger] values[#[trigger] peaks_of(values, config)[a] - d] && values[peaks_of(values, config)[a]]
                > values[peaks_of(values, config)[a] + d],
        forall|i: int|
            config.local_max_window <= i && i + config.local_max_window < values.len() && values[i]
                >= config.threshold && (forall|d: int|
                1 <= d <= config.local_max_window ==> values[i] > #[trigger] values[i - d] && values[i] > values[i
                    + d]) && !peaks_of(values, config).contains(i) ==> exists|a: int|
                0 <= a < peaks_of(values, config).len() && #[trigger] peaks_of(values, config)[a] < i && i
                    - peaks_of(values, config)[a] < config.min_gap_frames,
{
    lemma_peaks_characterized(values, config);
    let p = peaks_of(values, config);
    let w = config.local_max_window as int;
    assert forall|a: int| 0 <= a < p.len() implies w <= #[trigger] p[a] && p[a] + w < values.len() && values[p[a]]
        >= config.threshold by {
        lemma_candidate_strict(values, p[a], config.threshold, w);
    }
    assert forall|a: int, d: int| 0 <= a < p.len() && 1 <= d <= w implies values[p[a]] > #[trigger] values[
        #[trigger] p[a] - d] && values[p[a]] > values[p[a] + d] by {
        lemma_candidate_strict(values, p[a], config.threshold, w);
    }
    assert forall|i: int|
        w <= i && i + w < values.len() && values[i] >= config.threshold && (forall|d: int|
            1 <= d <= w ==> values[i] > #[trigger] values[i - d] && values[i] > values[i + d]) && !p.contains(
            i,
        ) implies exists|a: int| 0 <= a < p.len() && #[trigger] p[a] < i && i - p[a] < config.min_gap_frames by {
        assert(is_candidate(values, i, config.threshold, w));
    }
}

/// `j` is where the curve last falls below `half` before `peak`, or the
/// first frame if it never does.
pub open spec fn left_edge(values: Seq<u32>, peak: int, half: u32, j: int) -> bool {
    ||| (0 <= j < peak && values[j] < half && forall|k: int| j < k < peak ==> #[trigger] values[k] >= half)
    ||| (j == 0 && forall|k: int| 0 <= k < peak ==> #[trigger] values[k] >= half)
}

/// `j` is where the curve first falls below `half` after `peak`, or the
/// last frame if it never does.
pub open spec fn right_edge(values: Seq<u32>, peak: int, half: u32, j: int) -> bool {
    ||| (peak < j < values.len() && values[j] < half && forall|k: int| peak < k < j ==> #[trigger] values[k] >= half)
    ||| (j == values.len() - 1 && forall|k: int| peak < k < values.len() ==> #[trigger] values[k] >= half)
}

/// Width in frames of the transient at `peak`: how far apart the curve falls
/// below `half` (half the peak's strength, as an order key) on each side.
pub fn estimate_width_frames(values: &[u32], peak: usize, half: u32) -> (r: usize)
    requires
        peak < values@.len(),
    ensures
        exists|left: int, right: int|
            left_edge(values@, peak as int, half, left) && right_edge(values@, peak as int, half, right) && r
                == right - left,
{
    let n = values.len();
    let mut left: usize = peak;
    let mut found_left = false;
    while left > 0 && !found_left
        invariant
            left <= peak < n,
            n == values@.len(),
            found_left ==> left < peak && values@[left as int] < half,
            forall|k: int| left < k < peak ==> #[trigger] values@[k] >= half,
            !found_left ==> forall|k: int| left <= k < peak ==> #[trigger] values@[k] >= half,
        decreases left + if found_left { 0int } else { 1int },
    {
        if values[left - 1] < half {
            found_left = true;
        }
        left = left - 1;
    }
    let mut right: usize = peak + 1;
    let mut found_right = false;
    while right < n && !found_right
        invariant
            peak < right <= n,
            n == values@.len(),
            found_right ==> right < n && values@[right as int] < half,
            forall|k: int| peak < k < right ==> #[trigger] values@[k] >= half,
        decreases n - right + if found_right { 0int } else { 1int },
    {
        if values[right] < half {
            found_right = true;
        } else {
            right = right + 1;
        }
    }
    if !found_right {
        right = n - 1;
    }
    assert(left_edge(values@, peak as int, half, left as int));
    assert(right_edge(values@, peak as int, half, right as int));
    assert(left <= peak && peak <= right);
    right - left
}

/// Marks the frames that hold an onset: one flag per frame of a curve of
/// `frame_count` frames.
pub fn onsets_to_frame_flags(frames: &[usize], frame_count: usize) -> (r: Vec<bool>)
    ensures
        r@.len() == frame_count,
        forall|k: int| 0 <= k < frame_count ==> (#[trigger] r@[k] <==> frames@.contains(k as usize)),
{
    let mut flags: Vec<bool> = Vec::new();
    let mut k: usize = 0;
    while k < frame_count
        invariant
            k <= frame_count,
            flags@.len() == k,
            forall|q: int| 0 <= q < k ==> !#[trigger] flags@[q],
        decreases frame_count - k,
    {
        flags.push(false);
        k = k + 1;
    }
    let mut i: usize = 0;
    while i < frames.len()
        invariant
            i <= frames@.len(),
            flags@.len() == frame_count,
            forall|q: int| 0 <= q < frame_count ==> (#[trigger] flags@[q] <==> frames@.take(i as int).contains(q as usize)),
        decreases frames@.len() - i,
    {
        let frame = frames[i];
        let ghost before = frames@.take(i as int);
        assert(frames@.take(i + 1) =~= before.push(frame));
        if frame < flags.len() {
            flags.set(frame, true);
        }
        assert forall|q: int| 0 <= q < frame_count implies (#[trigger] flags@[q] <==> frames@.take(i + 1).contains(q as usize)) by {
            if frames@.take(i + 1).contains(q as usize) && q as usize != frame {
                let t = choose|t: int| 0 <= t < i + 1 && #[trigger] frames@.take(i + 1)[t] == q as usize;
                assert(before[t] == q as usize);
            }
            if q as usize == frame {
                assert(frames@.take(i + 1)[i as int] == frame);
            }
        }
        i = i + 1;
    }
    assert(frames@.take(frames@.len() as int) =~= frames@);
    flags
}

} // verus!
