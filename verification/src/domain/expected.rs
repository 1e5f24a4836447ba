use vstd::prelude::*;
use crate::domain::arrangement::LayerId;
use crate::domain::midi::SourceId;

verus! {

/// One MIDI note-on event rendered onto the global beat timeline
/// (positions in microbeats).
#[derive(Debug)]
pub struct ExpectedEvent {
    /// Position on the global beat timeline.
    pub beat: i128,
    /// Which MIDI source this event came from.
    pub source_id: SourceId,
    /// Which arrangement layer placed this event.
    pub layer_id: LayerId,
    /// The position *inside* the source MIDI file.
    pub source_beat: i128,
    /// MIDI note number (0–127).
    pub note: u8,
    /// MIDI velocity (1–127).
    pub velocity: u8,
}

/// A group of events that fall into the same subdivision cell of the global
/// beat grid.
///
/// Multiple MIDI notes fired at the same beat (e.g. kick + hihat) produce
/// one audio transient, so they are treated as one cluster for matching.
#[derive(Debug)]
pub struct ExpectedOnsetCluster {
    /// Nominal position of this cluster (microbeats).
    pub beat: i128,
    /// Indices into the global event enumeration.
    pub event_indices: Vec<usize>,
    /// Normalized expected onset strength, in thousandths.
    pub expected_strength_permille: u16,
}

} // verus!
