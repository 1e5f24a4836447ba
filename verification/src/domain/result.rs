use vstd::prelude::*;
use crate::domain::expected::ExpectedOnsetCluster;

verus! {

/// One expected onset cluster paired with the nearest observed onset (if any).
#[derive(Debug)]
pub struct MatchedOnsetCluster {
    /// The expected cluster (position + event indices + expected strength).
    pub cluster: ExpectedOnsetCluster,
    /// Position of the matched observed onset (microbeats).
    /// `None` if no observed onset was close enough.
    pub observed_beat: Option<i128>,
    /// `observed_beat - cluster.beat`, in microbeats; 0 when unmatched.
    pub timing_error_beats: i128,
}

impl MatchedOnsetCluster {
    /// True if this cluster was matched to an observed onset.
    pub fn is_matched(&self) -> (r: bool)
        ensures
            r == self.observed_beat is Some,
    {
        self.observed_beat.is_some()
    }
}

/// Named warning conditions surfaced during diagnostics.
#[derive(Debug, Clone, Copy, PartialEq, Eq)]
pub enum AlignmentWarning {
    /// Fewer than 80% of expected clusters were matched.
    LowCoverage { matched: usize, total: usize },
    /// Mean timing error exceeds 0.1 beats: the summed absolute error of the
    /// matched clusters (microbeats) and how many they are.
    HighTimingError { total_error_beats: i128, matched: usize },
    /// Unexplained audio onsets (no expected cluster nearby).
    UnexplainedOnsets { count: usize },
}

/// Summary quality metrics for an arrangement match.
///
/// Coverage is `matched_clusters / total_clusters` (0 without clusters); the
/// mean timing error is `total_timing_error_beats / matched_clusters` (0
/// without matches).
#[derive(Debug)]
pub struct AlignmentDiagnostics {
    /// Total number of expected onset clusters.
    pub total_clusters: usize,
    /// Number of clusters matched to an observed onset.
    pub matched_clusters: usize,
    /// Sum of the absolute timing errors of matched clusters (microbeats).
    pub total_timing_error_beats: i128,
    /// Positions of observed onsets that had no matching expected cluster.
    pub unmatched_observed_beats: Vec<i128>,
    /// Named warnings for low-quality alignments.
    pub warnings: Vec<AlignmentWarning>,
    /// Per-cluster match details (matched and unmatched).
    pub matched_onset_clusters: Vec<MatchedOnsetCluster>,
}

} // verus!
