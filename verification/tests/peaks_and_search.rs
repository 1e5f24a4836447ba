use onset_matcher::pipeline::bpm_search::{source_candidates, OffsetSearchConfig};
use onset_matcher::pipeline::onset_detection::{
    detect_onsets, estimate_width_frames, onsets_to_frame_flags, PeakPickerConfig,
};
use onset_matcher::pipeline::search::{
    advance_indices, combination_count, first_candidates, first_indices, select_candidates,
};

fn config(threshold: u32, min_gap_frames: usize, local_max_window: usize) -> PeakPickerConfig {
    PeakPickerConfig { threshold, min_gap_frames, local_max_window }
}

#[test]
fn default_peak_picker_config() {
    let c = PeakPickerConfig::default();
    assert_eq!(c.threshold, 0.15f32.to_bits());
    assert_eq!(c.min_gap_frames, 4);
    assert_eq!(c.local_max_window, 2);
}

#[test]
fn peaks_are_local_maxima_above_threshold() {
    let values = vec![0, 5, 10, 5, 0, 0, 20, 0, 7, 0, 0];
    assert_eq!(detect_onsets(&values, &config(6, 1, 1)), vec![2, 6, 8]);
    // threshold 8 drops the peak of 7
    assert_eq!(detect_onsets(&values, &config(8, 1, 1)), vec![2, 6]);
    // a gap of 3 frames drops the peak 2 frames after the one at 6
    assert_eq!(detect_onsets(&values, &config(6, 3, 1)), vec![2, 6]);
    // a window of 2 frames: frame 8 is within 2 of frame 6 (stronger)
    assert_eq!(detect_onsets(&values, &config(6, 1, 2)), vec![2, 6]);
}

#[test]
fn peaks_need_a_full_window_on_each_side() {
    let values = vec![9, 1, 1, 1, 9];
    // frames 0 and 4 lack a neighbour; frame 2 is no stronger than its own
    assert_eq!(detect_onsets(&values, &config(0, 0, 1)), vec![]);
    assert_eq!(detect_onsets(&values, &config(0, 0, 0)), vec![0, 1, 2, 3, 4]);
    assert_eq!(detect_onsets(&[], &config(0, 0, 3)), vec![]);
    assert_eq!(detect_onsets(&[5, 5], &config(0, 0, 3)), vec![]);
}

#[test]
fn plateaus_hold_no_peak() {
    let values = vec![0, 4, 4, 4, 0];
    assert_eq!(detect_onsets(&values, &config(1, 1, 1)), vec![]);
    let plateau: Vec<u32> = [0.0f32, 0.5, 0.5, 0.0].iter().map(|v| v.to_bits()).collect();
    assert_eq!(detect_onsets(&plateau, &config(0.15f32.to_bits(), 0, 1)), vec![]);
    let rising: Vec<u32> = [0.0f32, 0.5, 0.6, 0.0].iter().map(|v| v.to_bits()).collect();
    assert_eq!(detect_onsets(&rising, &config(0.15f32.to_bits(), 0, 1)), vec![2]);
}

#[test]
fn peak_gaps_respect_the_minimum() {
    let values: Vec<u32> = (0..200).map(|i| ((i * 37) % 11) as u32).collect();
    let c = config(3, 5, 1);
    let peaks = detect_onsets(&values, &c);
    for w in peaks.windows(2) {
        assert!(w[1] - w[0] >= 5);
    }
    for &p in &peaks {
        assert!(values[p] >= 3 && values[p] > values[p - 1] && values[p] > values[p + 1]);
    }
}

#[test]
fn transient_width() {
    let values = vec![0, 2, 6, 10, 8, 6, 1, 0];
    // half of 10 is 5: below at frame 1 on the left and frame 6 on the right
    assert_eq!(estimate_width_frames(&values, 3, 5), 5);
    // never below on either side: from the first to the last frame
    assert_eq!(estimate_width_frames(&[9, 9, 9], 1, 5), 2);
    assert_eq!(estimate_width_frames(&[9], 0, 5), 0);
}

#[test]
fn frame_flags_mark_onset_frames() {
    assert_eq!(onsets_to_frame_flags(&[1, 3, 3, 9], 5), vec![false, true, false, true, false]);
    assert_eq!(onsets_to_frame_flags(&[], 2), vec![false, false]);
    assert_eq!(onsets_to_frame_flags(&[0], 0), Vec::<bool>::new());
}

#[test]
fn mixed_radix_counter_visits_every_combination_once() {
    let counts = vec![2, 3, 2];
    let total = combination_count(&counts).unwrap();
    assert_eq!(total, 12);
    let mut indices = first_indices(&counts);
    assert_eq!(indices, vec![0, 0, 0]);
    let mut seen = Vec::new();
    for step in 0..total {
        seen.push(indices.clone());
        let wrapped = advance_indices(&mut indices, &counts);
        assert_eq!(wrapped, step + 1 == total);
    }
    assert_eq!(indices, vec![0, 0, 0]);
    assert_eq!(seen[1], vec![0, 0, 1]);
    assert_eq!(seen[2], vec![0, 1, 0]);
    assert_eq!(seen[11], vec![1, 2, 1]);
    let mut distinct = seen.clone();
    distinct.sort();
    distinct.dedup();
    assert_eq!(distinct.len(), 12);
}

#[test]
fn counter_without_sources_wraps_at_once() {
    let mut indices: Vec<usize> = Vec::new();
    assert_eq!(combination_count(&[]), Some(1));
    assert!(advance_indices(&mut indices, &[]));
}

#[test]
fn combination_count_overflow() {
    assert_eq!(combination_count(&[usize::MAX, 2]), None);
    assert_eq!(combination_count(&[usize::MAX, 1]), Some(usize::MAX));
}

#[test]
fn selecting_candidates() {
    let candidates = vec![vec![0, 4_000_000], vec![8_000_000], vec![]];
    assert_eq!(first_candidates(&candidates), vec![0, 8_000_000, 0]);
    let two = vec![vec![0, 4_000_000], vec![8_000_000]];
    assert_eq!(select_candidates(&two, &[1, 0]), vec![4_000_000, 8_000_000]);
}

#[test]
fn free_candidates_step_through_the_range() {
    let c = OffsetSearchConfig { min_beats: 0, max_beats: Some(4_000_000), step_beats: 1_000_000 };
    assert_eq!(c.free_candidates(99), vec![0, 1_000_000, 2_000_000, 3_000_000, 4_000_000]);
    let derived = OffsetSearchConfig { min_beats: 500_000, max_beats: None, step_beats: 2_000_000 };
    assert_eq!(derived.free_candidates(5_000_000), vec![500_000, 2_500_000, 4_500_000]);
    let empty = OffsetSearchConfig { min_beats: 3, max_beats: Some(2), step_beats: 1 };
    assert!(empty.free_candidates(0).is_empty());
    let single = OffsetSearchConfig { min_beats: -2, max_beats: Some(-2), step_beats: 7 };
    assert_eq!(single.free_candidates(0), vec![-2]);
}

#[test]
fn pinned_sources_get_one_candidate() {
    let free = vec![0, 1_000_000];
    let c = source_candidates(&[None, Some(8_000_000), None], &free);
    assert_eq!(c, vec![free.clone(), vec![8_000_000], free.clone()]);
    assert!(source_candidates(&[], &free).is_empty());
}
