//! The canonical playback reference and the flattened test fixture.
//!
//! Positions are in microbeats; the tempo is carried unchanged as a `Bpm`.
use vstd::prelude::*;
use crate::domain::time::Bpm;

verus! {

/// Tempo, time signature and tick resolution of the reference.
pub struct CanonicalMusicalContext {
    pub bpm: Bpm,
    /// `[numerator, denominator]`.
    pub time_signature: [u8; 2],
    pub ppq: u16,
}

/// One MIDI source file involved in the arrangement.
pub struct CanonicalSource {
    pub id: String,
    pub path: String,
    pub length_beats: i128,
}

/// Where one source instance plays on the global beat timeline.
pub struct CanonicalLayer {
    pub id: String,
    pub source_id: String,
    pub start_beat: i128,
    pub end_beat: i128,
    pub source_start_beat: i128,
}

/// One expected note-on on the global beat timeline.
pub struct CanonicalEvent {
    pub beat: i128,
    pub source_id: String,
    pub layer_id: String,
    /// The event's position inside its source.
    pub source_beat: i128,
    pub note: u8,
    pub velocity: u8,
}

/// Plain view of a canonical event: beat, source id, layer id, source beat,
/// note and velocity.
pub type CanonicalEventView = (i128, Seq<char>, Seq<char>, i128, u8, u8);

impl View for CanonicalEvent {
    type V = CanonicalEventView;

    open spec fn view(&self) -> CanonicalEventView {
        (self.beat, self.source_id@, self.layer_id@, self.source_beat, self.note, self.velocity)
    }
}

/// A cluster of simultaneous events with its expected strength and
/// confidence, both in thousandths.
pub struct CanonicalOnsetCluster {
    pub beat: i128,
    pub event_indices: Vec<usize>,
    pub expected_strength_permille: u16,
    pub confidence_permille: u16,
}

/// Plain view of a canonical onset cluster: beat, event indices, expected
/// strength and confidence.
pub type CanonicalOnsetClusterView = (i128, Seq<usize>, u16, u16);

impl View for CanonicalOnsetCluster {
    type V = CanonicalOnsetClusterView;

    open spec fn view(&self) -> CanonicalOnsetClusterView {
        (self.beat, self.event_indices@, self.expected_strength_permille, self.confidence_permille)
    }
}

/// Metadata about how the reference was produced. The match score is
/// `matched_clusters / total_clusters` (0 when there are no clusters).
pub struct ReferenceProvenance {
    pub generated_by: String,
    pub source_audio: String,
    pub matched_clusters: usize,
    pub total_clusters: usize,
    pub review_status: String,
}

/// The golden playback reference: how to play the MIDI files so that the
/// result matches the reference audio.
pub struct CanonicalPlaybackReference {
    pub schema_version: String,
    pub name: String,
    pub musical_context: CanonicalMusicalContext,
    pub sources: Vec<CanonicalSource>,
    pub layers: Vec<CanonicalLayer>,
    pub events: Vec<CanonicalEvent>,
    pub onset_clusters: Vec<CanonicalOnsetCluster>,
    pub provenance: ReferenceProvenance,
}

/// The notes that fire together at one beat.
pub struct TestFixtureEvent {
    pub beat: i128,
    /// Sorted, deduplicated MIDI note numbers.
    pub notes: Vec<u8>,
}

/// The flattened, instrument-agnostic test format.
pub struct TestFixture {
    pub schema_version: String,
    pub name: String,
    pub bpm: Bpm,
    pub time_signature: [u8; 2],
    /// Beat clusters in increasing beat order.
    pub events: Vec<TestFixtureEvent>,
}

} // verus!
