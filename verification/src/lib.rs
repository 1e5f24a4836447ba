//! Beat-grid alignment of MIDI material against audio onsets.
//!
//! Musical positions are counted in microbeats (millionths of a beat) so that
//! every computation on them is exact integer arithmetic.
pub mod domain;
pub mod sorting;
pub mod pipeline;
pub mod text;
pub mod render;
pub mod midi_spec;
