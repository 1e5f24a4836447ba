use onset_matcher::domain::canonical::{
    CanonicalEvent, CanonicalMusicalContext, CanonicalPlaybackReference, ReferenceProvenance,
};
use onset_matcher::domain::expected::ExpectedOnsetCluster;
use onset_matcher::domain::midi::{MidiEvent, MidiSource, SourceId};
use onset_matcher::domain::result::{AlignmentDiagnostics, MatchedOnsetCluster};
use onset_matcher::domain::time::{Bpm, TimeSignature};
use onset_matcher::pipeline::canonical_builder::{build_canonical, build_test_fixture, DEFAULT_PPQ};
use onset_matcher::pipeline::diagnostics::compute_diagnostics;

fn ev(tick: u64, note: u8, velocity: u8) -> MidiEvent {
    MidiEvent { tick, note, velocity, channel: 9, duration_ticks: None }
}

fn source(name: &str, ppq: u16, length_ticks: u64, events: Vec<MidiEvent>) -> MidiSource {
    MidiSource {
        id: SourceId::new(name.to_string()),
        path: format!("midi/{}.mid", name),
        length_ticks,
        embedded_tempo: Some(500_000),
        ppq,
        events,
    }
}

fn empty_diagnostics() -> AlignmentDiagnostics {
    AlignmentDiagnostics {
        total_clusters: 0,
        matched_clusters: 0,
        total_timing_error_beats: 0,
        unmatched_observed_beats: Vec::new(),
        warnings: Vec::new(),
        matched_onset_clusters: Vec::new(),
    }
}

#[test]
fn canonical_reference_of_two_layers() {
    let kick = source("kick", 4, 16, vec![ev(0, 36, 100), ev(8, 36, 90)]);
    let hat = source("hat", 2, 4, vec![ev(0, 42, 60), ev(1, 42, 50)]);
    let sources = vec![kick, hat];
    let offsets = vec![0, 1_500_000];
    let bpm = Bpm { bits: 120.0f64.to_bits() };
    let ts = TimeSignature::new(4, 4);
    let diagnostics = compute_diagnostics(&sources, &offsets, &[0, 2_000_000], ts, 250_000, 250_000);
    let r = build_canonical("groove", &sources, &offsets, bpm, ts, &diagnostics, "ref.wav", "0.1.0");

    assert_eq!(r.schema_version, "0.1");
    assert_eq!(r.name, "groove");
    assert_eq!(r.musical_context.bpm, bpm);
    assert_eq!(r.musical_context.time_signature, [4, 4]);
    assert_eq!(r.musical_context.ppq, 4);

    assert_eq!(r.sources.len(), 2);
    assert_eq!(r.sources[1].id, "hat");
    assert_eq!(r.sources[1].path, "midi/hat.mid");
    assert_eq!(r.sources[0].length_beats, 4_000_000);

    assert_eq!(r.layers.len(), 2);
    assert_eq!(r.layers[0].id, "layer_1");
    assert_eq!(r.layers[1].id, "layer_2");
    assert_eq!(r.layers[1].source_id, "hat");
    assert_eq!((r.layers[1].start_beat, r.layers[1].end_beat), (1_500_000, 3_500_000));
    assert_eq!(r.layers[1].source_start_beat, 0);

    // kick at 0 and 2, hat at 1.5 and 2 (after the kick at the same beat).
    let events: Vec<(i128, &str, &str, i128, u8, u8)> = r
        .events
        .iter()
        .map(|e| (e.beat, e.source_id.as_str(), e.layer_id.as_str(), e.source_beat, e.note, e.velocity))
        .collect();
    assert_eq!(
        events,
        vec![
            (0, "kick", "layer_1", 0, 36, 100),
            (1_500_000, "hat", "layer_2", 0, 42, 60),
            (2_000_000, "kick", "layer_1", 2_000_000, 36, 90),
            (2_000_000, "hat", "layer_2", 500_000, 42, 50),
        ]
    );

    // Clusters at 0, 1.5 and 2; matched at 0 and 2.
    let clusters: Vec<(i128, Vec<usize>, u16, u16)> = r
        .onset_clusters
        .iter()
        .map(|c| (c.beat, c.event_indices.clone(), c.expected_strength_permille, c.confidence_permille))
        .collect();
    assert_eq!(
        clusters,
        vec![
            (0, vec![0], 1000, 1000),
            (1_500_000, vec![1], 1000, 0),
            (2_000_000, vec![2, 3], 1000, 1000),
        ]
    );

    assert_eq!(r.provenance.generated_by, "onset-matcher 0.1.0");
    assert_eq!(r.provenance.source_audio, "ref.wav");
    assert_eq!(r.provenance.matched_clusters, 2);
    assert_eq!(r.provenance.total_clusters, 3);
    assert_eq!(r.provenance.review_status, "auto");
}

#[test]
fn canonical_reference_clamps_negative_offsets_and_zips_layers() {
    let a = source("a", 1, 2, vec![ev(1, 40, 1)]);
    let b = source("b", 1, 2, vec![ev(0, 41, 1)]);
    // Only one offset: only the first source gets a layer and events.
    let r = build_canonical("x", &[a, b], &[-3_000_000], Bpm { bits: 0 }, TimeSignature::new(3, 8), &empty_diagnostics(), "", "");
    assert_eq!(r.sources.len(), 2);
    assert_eq!(r.layers.len(), 1);
    assert_eq!((r.layers[0].start_beat, r.layers[0].end_beat), (0, 2_000_000));
    assert_eq!(r.events.len(), 1);
    assert_eq!(r.events[0].beat, 1_000_000);
    assert!(r.onset_clusters.is_empty());
    assert_eq!(r.musical_context.time_signature, [3, 8]);
    assert_eq!(r.provenance.generated_by, "onset-matcher ");
}

#[test]
fn canonical_reference_without_sources_uses_default_resolution() {
    let r = build_canonical("none", &[], &[], Bpm { bits: 0 }, TimeSignature::default(), &empty_diagnostics(), "a.wav", "1");
    assert_eq!(r.musical_context.ppq, DEFAULT_PPQ);
    assert_eq!(DEFAULT_PPQ, 960);
    assert!(r.events.is_empty());
}

#[test]
fn canonical_clusters_collect_events_within_a_thousandth_of_a_beat() {
    let s = source("s", 1000, 10, vec![ev(0, 36, 1), ev(1, 38, 1), ev(2, 40, 1)]);
    let cluster = ExpectedOnsetCluster { beat: 1_000, event_indices: vec![0], expected_strength_permille: 250 };
    let d = AlignmentDiagnostics {
        total_clusters: 1,
        matched_clusters: 0,
        total_timing_error_beats: 0,
        unmatched_observed_beats: Vec::new(),
        warnings: Vec::new(),
        matched_onset_clusters: vec![MatchedOnsetCluster { cluster, observed_beat: None, timing_error_beats: 0 }],
    };
    let r = build_canonical("c", &[s], &[0], Bpm { bits: 0 }, TimeSignature::default(), &d, "", "");
    assert_eq!(r.onset_clusters.len(), 1);
    // events at 0, 0.001 and 0.002 beat: all within 0.001 of 0.001.
    assert_eq!(r.onset_clusters[0].event_indices, vec![0, 1, 2]);
    assert_eq!(r.onset_clusters[0].expected_strength_permille, 250);
    assert_eq!(r.onset_clusters[0].confidence_permille, 0);
}

fn canonical_event(beat: i128, note: u8) -> CanonicalEvent {
    CanonicalEvent {
        beat,
        source_id: "s".to_string(),
        layer_id: "layer_1".to_string(),
        source_beat: beat,
        note,
        velocity: 100,
    }
}

#[test]
fn test_fixture_groups_notes_by_beat() {
    let canonical = CanonicalPlaybackReference {
        schema_version: "0.1".to_string(),
        name: "fixture".to_string(),
        musical_context: CanonicalMusicalContext { bpm: Bpm { bits: 7 }, time_signature: [6, 8], ppq: 96 },
        sources: Vec::new(),
        layers: Vec::new(),
        events: vec![
            canonical_event(2_000_000, 42),
            canonical_event(0, 38),
            canonical_event(0, 36),
            canonical_event(0, 38),
            canonical_event(2_000_000, 36),
        ],
        onset_clusters: Vec::new(),
        provenance: ReferenceProvenance {
            generated_by: String::new(),
            source_audio: String::new(),
            matched_clusters: 0,
            total_clusters: 0,
            review_status: String::new(),
        },
    };
    let f = build_test_fixture(&canonical);
    assert_eq!(f.schema_version, "0.1");
    assert_eq!(f.name, "fixture");
    assert_eq!(f.bpm, Bpm { bits: 7 });
    assert_eq!(f.time_signature, [6, 8]);
    let got: Vec<(i128, Vec<u8>)> = f.events.iter().map(|e| (e.beat, e.notes.clone())).collect();
    assert_eq!(got, vec![(0, vec![36, 38]), (2_000_000, vec![36, 42])]);
}

#[test]
fn test_fixture_ignores_event_order_and_velocity() {
    let make = |events: Vec<CanonicalEvent>, ppq: u16| CanonicalPlaybackReference {
        schema_version: "0.1".to_string(),
        name: "same".to_string(),
        musical_context: CanonicalMusicalContext { bpm: Bpm { bits: 9 }, time_signature: [4, 4], ppq },
        sources: Vec::new(),
        layers: Vec::new(),
        events,
        onset_clusters: Vec::new(),
        provenance: ReferenceProvenance {
            generated_by: String::new(),
            source_audio: String::new(),
            matched_clusters: 0,
            total_clusters: 0,
            review_status: String::new(),
        },
    };
    let first = make(
        vec![canonical_event(0, 36), canonical_event(-5, 38), canonical_event(1_500_000, 42)],
        96,
    );
    let mut loud = canonical_event(0, 38);
    loud.velocity = 127;
    loud.source_id = "other".to_string();
    let second = make(
        vec![canonical_event(1_500_000, 42), canonical_event(0, 36), loud, canonical_event(1_500_000, 42)],
        480,
    );
    let a = build_test_fixture(&first);
    let b = build_test_fixture(&second);
    let groups = |f: &onset_matcher::domain::canonical::TestFixture| -> Vec<(i128, Vec<u8>)> {
        f.events.iter().map(|e| (e.beat, e.notes.clone())).collect()
    };
    assert_eq!(groups(&a), vec![(0, vec![36, 38]), (1_500_000, vec![42])]);
    assert_eq!(groups(&a), groups(&b));
    assert_eq!(a.name, b.name);
    assert_eq!(a.bpm, b.bpm);
    assert_eq!(a.time_signature, b.time_signature);
}

#[test]
fn canonical_events_lie_within_their_layers() {
    let a = source("a", 4, 8, vec![ev(0, 36, 1), ev(4, 38, 1), ev(8, 36, 1)]);
    let b = source("b", 3, 3, vec![ev(1, 42, 1), ev(3, 42, 1)]);
    let offsets = vec![-1_000_000, 2_500_000];
    let r = build_canonical("w", &[a, b], &offsets, Bpm { bits: 0 }, TimeSignature::default(), &empty_diagnostics(), "", "");
    assert_eq!(r.events.len(), 5);
    for e in &r.events {
        let layer = r.layers.iter().find(|l| l.id == e.layer_id).expect("every event names a layer");
        assert!(layer.start_beat <= e.beat && e.beat <= layer.end_beat);
    }
    let beats: Vec<i128> = r.events.iter().map(|e| e.beat).collect();
    assert_eq!(beats, vec![0, 1_000_000, 2_000_000, 2_833_333, 3_500_000]);
}
