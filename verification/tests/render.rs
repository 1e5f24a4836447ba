use onset_matcher::domain::midi::{MidiEvent, MidiSource, SourceId};
use onset_matcher::domain::time::TimeSignature;
use onset_matcher::render::console::{
    bars_to_show, grid_rows, source_grid_cells, sources_end, sources_grid_cells, truncate_label, ConsoleRendererConfig, AUDIO_ROW_LABEL,
};

fn source(ppq: u16, length_ticks: u64, ticks: &[u64]) -> MidiSource {
    MidiSource {
        id: SourceId::new("s".to_string()),
        path: "s.mid".to_string(),
        length_ticks,
        embedded_tempo: None,
        ppq,
        events: ticks
            .iter()
            .map(|&tick| MidiEvent { tick, note: 36, velocity: 100, channel: 9, duration_ticks: None })
            .collect(),
    }
}

#[test]
fn labels_are_cut_to_their_column() {
    assert_eq!(truncate_label("kick", 12), "kick");
    assert_eq!(truncate_label("exactly_12ch", 12), "exactly_12ch");
    assert_eq!(truncate_label("kick_drum_pattern", 12), "kick_drum_p\u{2026}");
    assert_eq!(truncate_label("ab", 1), "\u{2026}");
    assert_eq!(truncate_label(AUDIO_ROW_LABEL, 12), "audio");
}

#[test]
fn default_renderer_config() {
    let c = ConsoleRendererConfig::default();
    assert_eq!(c.subdivision, 250_000);
    assert_eq!(c.bars_per_row, 4);
    assert!(!c.show_strength);
}

#[test]
fn notes_land_in_grid_cells() {
    // ppq 4: ticks 0, 3, 5 and 17 are beats 0, 0.75, 1.25 and 4.25.
    let s = source(4, 20, &[0, 3, 5, 17]);
    let cells = source_grid_cells(&s, 0, TimeSignature::new(4, 4), 250_000);
    assert_eq!(cells, vec![(0, 0), (0, 3), (0, 5), (1, 1)]);
    // placed half a beat earlier, the first note falls before the timeline
    let shifted = source_grid_cells(&s, -500_000, TimeSignature::new(4, 4), 250_000);
    assert_eq!(shifted, vec![(0, 1), (0, 3), (0, 15)]);
}

#[test]
fn grid_extent() {
    let a = source(4, 16, &[]);
    let b = source(2, 2, &[]);
    assert_eq!(sources_end(&[a.clone(), b.clone()], &[0, 6_000_000]), 7_000_000);
    assert_eq!(sources_end(&[a.clone(), b.clone()], &[]), 4_000_000);
    assert_eq!(sources_end(&[b], &[-5_000_000]), 0);
    assert_eq!(sources_end(&[], &[]), 0);
    assert_eq!(bars_to_show(7_000_000, TimeSignature::new(4, 4)), 2);
    assert_eq!(bars_to_show(8_000_000, TimeSignature::new(4, 4)), 2);
    assert_eq!(bars_to_show(8_000_001, TimeSignature::new(4, 4)), 3);
    assert_eq!(bars_to_show(0, TimeSignature::new(3, 4)), 0);
}

#[test]
fn grid_rows_cover_the_bars() {
    assert_eq!(grid_rows(10, 4), vec![(0, 4), (4, 8), (8, 10)]);
    assert_eq!(grid_rows(8, 4), vec![(0, 4), (4, 8)]);
    assert_eq!(grid_rows(0, 4), Vec::<(usize, usize)>::new());
    assert_eq!(grid_rows(3, 1), vec![(0, 1), (1, 2), (2, 3)]);
}

#[test]
fn missing_offsets_draw_at_zero() {
    let sources = vec![source(4, 16, &[0, 4, 9]), source(2, 6, &[1, 5])];
    let ts = TimeSignature::new(4, 4);
    let short = vec![500_000];
    let padded = vec![500_000, 0];
    let rows_short = sources_grid_cells(&sources, &short, ts, 250_000);
    let rows_padded = sources_grid_cells(&sources, &padded, ts, 250_000);
    assert_eq!(rows_short, rows_padded);
    assert_eq!(rows_short[0], vec![(0, 2), (0, 6), (0, 11)]);
    assert_eq!(rows_short[1], vec![(0, 2), (0, 10)]);
    assert_eq!(rows_short[1], source_grid_cells(&sources[1], 0, ts, 250_000));
    assert_eq!(sources_end(&sources, &short), sources_end(&sources, &padded));
    assert_eq!(sources_end(&sources, &short), 4_500_000);
    let none: Vec<i128> = Vec::new();
    let zeros = vec![0, 0];
    assert_eq!(sources_grid_cells(&sources, &none, ts, 250_000), sources_grid_cells(&sources, &zeros, ts, 250_000));
    assert_eq!(sources_end(&sources, &none), sources_end(&sources, &zeros));
}
