//! Candidate offsets for the arrangement search.
//!
//! Offsets are in microbeats. How the upper bound is derived from the audio
//! duration and the tempo is decided outside; here it is handed in.
use vstd::prelude::*;

verus! {

/// Configures how the offset candidates are built for free (un-pinned)
/// sources.
///
/// When `max_beats` is `None` the upper bound is the one derived from the
/// audio duration (every whole-beat start position within the audio).
///
/// Pinned sources are unaffected: they always get the single candidate they
/// are pinned to.
#[derive(Debug, Clone, Copy, PartialEq, Eq)]
pub struct OffsetSearchConfig {
    /// Minimum offset for free sources (inclusive).
    pub min_beats: i128,
    /// Maximum offset for free sources (inclusive); `None` derives it from
    /// the audio.
    pub max_beats: Option<i128>,
    /// Step between consecutive candidates.
    pub step_beats: i128,
}

/// Candidate offsets bounds whose arithmetic stays in range.
pub open spec fn offsets_ok(x: int) -> bool {
    -0x1_0000_0000_0000_0000_0000_0000 <= x <= 0x1_0000_0000_0000_0000_0000_0000
}

/// Number of candidates from `min` in steps of `step` up to `max`.
pub open spec fn candidate_count(min: int, max: int, step: int) -> int {
    if max < min { 0 } else { (max - min) / step + 1 }
}

impl OffsetSearchConfig {
    /// The upper bound used for free sources: the configured one, or the one
    /// derived from the audio.
    pub open spec fn effective_max(self, derived_max: i128) -> i128 {
        match self.max_beats {
            Some(m) => m,
            None => derived_max,
        }
    }

    /// Build the increasing list of candidate offsets for a free source:
    /// `min_beats`, then every `step_beats` further, up to the upper bound.
    /// `derived_max` is the bound derived from the audio duration at the
    /// tempo tried, used when no maximum is configured.
    pub fn free_candidates(&self, derived_max: i128) -> (r: Vec<i128>)
        requires
            self.step_beats > 0,
            offsets_ok(self.min_beats as int),
            offsets_ok(self.effective_max(derived_max) as int),
            self.step_beats <= 0x1_0000_0000_0000_0000_0000_0000,
        ensures
            r@.len() == candidate_count(
                self.min_beats as int,
                self.effective_max(derived_max) as int,
                self.step_beats as int,
            ),
            forall|k: int| 0 <= k < r@.len() ==> #[trigger] r@[k] == self.min_beats + k * self.step_beats,
    {
        let max = match self.max_beats {
            Some(m) => m,
            None => derived_max,
        };
        let step = self.step_beats;
        let mut v: Vec<i128> = Vec::new();
        let mut o = self.min_beats;
        assert(o == self.min_beats + v@.len() * step) by (nonlinear_arith)
            requires v@.len() == 0, o == self.min_beats;
        while o <= max
            invariant
                step == self.step_beats,
                step > 0,
                step <= 0x1_0000_0000_0000_0000_0000_0000,
                offsets_ok(self.min_beats as int),
                offsets_ok(max as int),
                max == self.effective_max(derived_max),
                o == self.min_beats + v@.len() * step,
                v@.len() == 0 || o <= max + step,
                forall|k: int| 0 <= k < v@.len() ==> #[trigger] v@[k] == self.min_beats + k * step,
                v@.len() > 0 ==> v@.len() - 1 <= (max - self.min_beats) / (step as int),
                v@.len() == 0 || self.min_beats <= max,
            decreases max + step - o,
        {
            let ghost n = v@.len() as int;
            v.push(o);
            proof {
                assert(n <= (max - self.min_beats) / (step as int)) by (nonlinear_arith)
                    requires
                        o == self.min_beats + n * step,
                        o <= max,
                        step > 0,
                        n >= 0,
                ;
            }
            o = o + step;
            assert(o == self.min_beats + v@.len() * step) by (nonlinear_arith)
                requires
                    o == self.min_beats + n * step + step,
                    v@.len() == n + 1,
            ;
        }
        proof {
            let m = self.min_beats as int;
            let n = v@.len() as int;
            if m <= max {
                assert(n == (max - m) / (step as int) + 1) by (nonlinear_arith)
                    requires
                        o == m + n * step,
                        o > max,
                        n > 0 ==> n - 1 <= (max - m) / (step as int),
                        step > 0,
                        m <= max,
                        n >= 0,
                ;
            } else {
                assert(n == 0);
            }
        }
        v
    }
}

/// The candidate offsets of each source: its pinned offset alone, or the
/// free candidates.
pub fn source_candidates(pinned: &[Option<i128>], free: &Vec<i128>) -> (r: Vec<Vec<i128>>)
    ensures
        r@.len() == pinned@.len(),
        forall|j: int|
            0 <= j < r@.len() ==> #[trigger] r@[j]@ == match pinned@[j] {
                Some(p) => seq![p],
                None => free@,
            },
{
    let mut r: Vec<Vec<i128>> = Vec::new();
    let mut j: usize = 0;
    while j < pinned.len()
        invariant
            j <= pinned@.len(),
            r@.len() == j,
            forall|q: int|
                0 <= q < j ==> #[trigger] r@[q]@ == match pinned@[q] {
                    Some(p) => seq![p],
                    None => free@,
                },
        decreases pinned@.len() - j,
    {
        let c: Vec<i128> = match pinned[j] {
            Some(p) => {
                let mut one: Vec<i128> = Vec::new();
                one.push(p);
                assert(one@ =~= seq![p]);
                one
            },
            None => {
                let mut copy: Vec<i128> = Vec::new();
                let mut k: usize = 0;
                while k < free.len()
                    invariant
                        k <= free@.len(),
                        copy@ == free@.take(k as int),
                    decreases free@.len() - k,
                {
                    copy.push(free[k]);
                    assert(free@.take(k + 1) =~= free@.take(k as int).push(free@[k as int]));
                    k = k + 1;
                }
                assert(free@.take(free@.len() as int) =~= free@);
                copy
            },
        };
        r.push(c);
        j = j + 1;
    }
    r
}

} // verus!
