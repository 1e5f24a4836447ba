use onset_matcher::domain::midi::{MidiEvent, MidiSource, SourceId};
use onset_matcher::domain::result::AlignmentWarning;
use onset_matcher::domain::time::TimeSignature;
use onset_matcher::pipeline::diagnostics::{cluster_notes, compute_diagnostics};

fn ev(tick: u64, note: u8) -> MidiEvent {
    MidiEvent { tick, note, velocity: 100, channel: 9, duration_ticks: None }
}

fn source(name: &str, ppq: u16, events: Vec<MidiEvent>) -> MidiSource {
    MidiSource {
        id: SourceId::new(name.to_string()),
        path: format!("{}.mid", name),
        length_ticks: events.iter().map(|e| e.tick).max().unwrap_or(0),
        embedded_tempo: None,
        ppq,
        events,
    }
}

#[test]
fn diagnostics_of_a_small_arrangement() {
    // Beats 0, 1 and 2 (two notes at beat 2).
    let drums = source("drums", 480, vec![ev(0, 36), ev(480, 38), ev(960, 36), ev(960, 42)]);
    let onsets = vec![10_000, 1_000_000, 3_000_000];
    let d = compute_diagnostics(&[drums], &[0], &onsets, TimeSignature::new(4, 4), 250_000, 500_000);

    assert_eq!(d.total_clusters, 3);
    let beats: Vec<i128> = d.matched_onset_clusters.iter().map(|m| m.cluster.beat).collect();
    assert_eq!(beats, vec![0, 1_000_000, 2_000_000]);
    let indices: Vec<Vec<usize>> =
        d.matched_onset_clusters.iter().map(|m| m.cluster.event_indices.clone()).collect();
    assert_eq!(indices, vec![vec![0], vec![1], vec![2, 3]]);
    assert!(d.matched_onset_clusters.iter().all(|m| m.cluster.expected_strength_permille == 1000));

    // Beat 0 matches the onset 0.01 beat late; beat 1 matches exactly; beat 2
    // is nearest to the onset at beat 1 (tied with beat 3, the first wins),
    // which is a whole beat away.
    assert_eq!(d.matched_onset_clusters[0].observed_beat, Some(10_000));
    assert_eq!(d.matched_onset_clusters[0].timing_error_beats, 10_000);
    assert!(d.matched_onset_clusters[0].is_matched());
    assert_eq!(d.matched_onset_clusters[1].observed_beat, Some(1_000_000));
    assert_eq!(d.matched_onset_clusters[2].observed_beat, None);
    assert_eq!(d.matched_onset_clusters[2].timing_error_beats, 0);
    assert!(!d.matched_onset_clusters[2].is_matched());

    assert_eq!(d.matched_clusters, 2);
    assert_eq!(d.total_timing_error_beats, 10_000);
    assert_eq!(d.unmatched_observed_beats, vec![3_000_000]);
    assert_eq!(
        d.warnings,
        vec![
            AlignmentWarning::LowCoverage { matched: 2, total: 3 },
            AlignmentWarning::UnexplainedOnsets { count: 1 },
        ]
    );
}

#[test]
fn diagnostics_groups_events_by_grid_cell_across_sources() {
    // Two sources; the second placed one beat later, one event before the
    // timeline start (skipped, but still counted in the enumeration).
    let a = source("a", 4, vec![ev(0, 36), ev(1, 42)]);
    let b = source("b", 4, vec![ev(0, 38), ev(4, 38)]);
    // offsets: a at 0, b at -1 beat (its first event falls before 0).
    let onsets = vec![0, 250_000];
    let d = compute_diagnostics(&[a, b], &[0, -1_000_000], &onsets, TimeSignature::new(4, 4), 250_000, 100_000);
    let got: Vec<(i128, Vec<usize>)> = d
        .matched_onset_clusters
        .iter()
        .map(|m| (m.cluster.beat, m.cluster.event_indices.clone()))
        .collect();
    // a's events at 0 and 0.25; b's second event at 0.
    assert_eq!(got, vec![(0, vec![0, 3]), (250_000, vec![1])]);
    assert_eq!(d.matched_clusters, 2);
    assert!(d.warnings.is_empty());
    assert!(d.unmatched_observed_beats.is_empty());
}

#[test]
fn diagnostics_snaps_to_the_nearest_subdivision_within_the_bar() {
    // 3/4 with half-beat cells; an event at beat 2.9 rounds to cell 6 of a
    // bar of 6 cells, which is held at the last cell (beat 2.5).
    let s = source("s", 10, vec![ev(29, 36), ev(31, 36)]);
    let d = compute_diagnostics(&[s], &[], &[], TimeSignature::new(3, 4), 500_000, 100_000);
    let beats: Vec<i128> = d.matched_onset_clusters.iter().map(|m| m.cluster.beat).collect();
    assert_eq!(beats, vec![2_500_000, 3_000_000]);
    assert_eq!(d.matched_clusters, 0);
    assert_eq!(d.warnings, vec![AlignmentWarning::LowCoverage { matched: 0, total: 2 }]);
}

#[test]
fn diagnostics_reports_high_timing_error_and_sorts_unexplained_onsets() {
    let s = source("s", 1, vec![ev(0, 36), ev(4, 36)]);
    let onsets = vec![9_000_000, 200_000, 4_150_000, 7_000_000];
    let d = compute_diagnostics(&[s], &[0], &onsets, TimeSignature::new(4, 4), 250_000, 300_000);
    assert_eq!(d.matched_clusters, 2);
    assert_eq!(d.total_timing_error_beats, 350_000);
    assert_eq!(d.unmatched_observed_beats, vec![7_000_000, 9_000_000]);
    assert_eq!(
        d.warnings,
        vec![
            AlignmentWarning::HighTimingError { total_error_beats: 350_000, matched: 2 },
            AlignmentWarning::UnexplainedOnsets { count: 2 },
        ]
    );
}

#[test]
fn diagnostics_without_events() {
    let d = compute_diagnostics(&[], &[], &[5], TimeSignature::new(4, 4), 250_000, 500_000);
    assert_eq!(d.total_clusters, 0);
    assert_eq!(d.matched_clusters, 0);
    assert_eq!(d.unmatched_observed_beats, vec![5]);
    assert_eq!(d.warnings, vec![AlignmentWarning::UnexplainedOnsets { count: 1 }]);
}

#[test]
fn matched_errors_stay_within_tolerance() {
    let s = source("s", 4, (0..16).map(|t| ev(t, 36)).collect());
    let onsets: Vec<i128> = (0..20).map(|k| k * 230_000).collect();
    let tol = 60_000;
    let d = compute_diagnostics(&[s], &[0], &onsets, TimeSignature::new(4, 4), 250_000, tol);
    assert!(d.matched_clusters <= d.total_clusters);
    assert!(d.total_timing_error_beats <= d.matched_clusters as i128 * tol);
    for m in &d.matched_onset_clusters {
        if m.is_matched() {
            assert!(m.timing_error_beats.abs() <= tol);
        }
    }
    for w in d.matched_onset_clusters.windows(2) {
        assert!(w[0].cluster.beat < w[1].cluster.beat);
    }
    let mut sorted = d.unmatched_observed_beats.clone();
    sorted.sort();
    assert_eq!(sorted, d.unmatched_observed_beats);
}

#[test]
fn cluster_notes_are_sorted_and_distinct() {
    let a = source("a", 4, vec![ev(0, 42), ev(0, 36)]);
    let b = source("b", 4, vec![ev(0, 42), ev(0, 38)]);
    assert_eq!(cluster_notes(&[a, b], &[0, 1, 2]), vec![36, 42]);
    let c = source("c", 4, vec![ev(0, 50)]);
    assert_eq!(cluster_notes(&[c], &[]), Vec::<u8>::new());
}

#[test]
fn diagnostics_with_bars_of_no_beats() {
    // A numerator of 0: the start of the timeline and every later position
    // fall into two cells, both at position 0.
    let s = source("s", 1, vec![ev(0, 36), ev(1, 38), ev(2, 42)]);
    let d = compute_diagnostics(&[s], &[0], &[0, 5_000_000], TimeSignature::new(0, 4), 250_000, 100_000);
    let got: Vec<(i128, Vec<usize>)> = d
        .matched_onset_clusters
        .iter()
        .map(|m| (m.cluster.beat, m.cluster.event_indices.clone()))
        .collect();
    assert_eq!(got, vec![(0, vec![0]), (0, vec![1, 2])]);
    assert_eq!(d.matched_clusters, 2);
    assert_eq!(d.matched_onset_clusters[1].observed_beat, Some(0));
    assert_eq!(d.unmatched_observed_beats, vec![5_000_000]);
    assert_eq!(d.warnings, vec![AlignmentWarning::UnexplainedOnsets { count: 1 }]);
}
