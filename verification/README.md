# onset-matcher

Aligns MIDI material against the onsets of a reference recording and
describes the result as a canonical playback reference: which MIDI files
play, where on the beat grid, and which notes fire together.

## Layout

- `src/` — the library, verified with Verus. Musical positions are integers
  (microbeats, a millionth of a beat): a tick becomes `tick * 10^6 / ppq`
  microbeats rounded half up, so a position can differ from the
  floating-point beat in its last digits, and everything computed from the
  positions is exact:
  - `domain/` — sources, layers, time signatures, expected clusters, results
    and the canonical reference types;
  - `pipeline/midi_loader.rs` — decoding Standard MIDI Files (through `midly`)
    into tick-based sources;
  - `pipeline/diagnostics.rs` — grouping events into grid cells, matching the
    cells to observed onsets, coverage and timing metrics;
  - `pipeline/canonical_builder.rs` — the canonical reference and the
    flattened test fixture;
  - `pipeline/onset_detection.rs` — peak picking on an onset-strength curve;
  - `pipeline/search.rs`, `pipeline/bpm_search.rs` — enumerating candidate
    arrangements;
  - `render/console.rs` — what the console grid shows;
  - `sorting.rs`, `text.rs`, `midi_spec.rs` — stable sorting, decimal
    formatting, `path=offset` arguments.
- `app/` — the command-line program: argument handling, audio decoding
  (through `symphonia`), the floating-point signal processing and scoring,
  and printing.
- `tests/` — tests of the library.
