pub mod canonical_builder;
pub mod diagnostics;
pub mod midi_loader;
pub mod onset_detection;
pub mod search;
pub mod bpm_search;
