use onset_matcher::domain::arrangement::{Arrangement, ArrangementLayer, LayerId};
use onset_matcher::domain::midi::SourceId;
use onset_matcher::domain::time::{ticks_to_microbeats, Bpm, FrameIndex, TimeSignature, MICROBEATS_PER_BEAT};
use onset_matcher::midi_spec::split_midi_file_spec;
use onset_matcher::text::decimal_string;

#[test]
fn time_signature_basics() {
    let ts = TimeSignature::new(3, 4);
    assert_eq!(ts.numerator, 3);
    assert_eq!(ts.denominator, 4);
    assert_eq!(ts.beats_per_bar(), 3);
    assert_eq!(ts.bar_microbeats(), 3 * MICROBEATS_PER_BEAT);
    let d = TimeSignature::default();
    assert_eq!((d.numerator, d.denominator), (4, 4));
    assert_eq!(FrameIndex(7).0, 7);
}

#[test]
fn ticks_round_to_the_nearest_microbeat() {
    assert_eq!(ticks_to_microbeats(0, 480), 0);
    assert_eq!(ticks_to_microbeats(480, 480), 1_000_000);
    assert_eq!(ticks_to_microbeats(240, 480), 500_000);
    // 1/3 beat: 333333.33 rounds down, 2/3 beat: 666666.67 rounds up.
    assert_eq!(ticks_to_microbeats(1, 3), 333_333);
    assert_eq!(ticks_to_microbeats(2, 3), 666_667);
    // exactly half a microbeat rounds up
    assert_eq!(ticks_to_microbeats(1, 2_000), 500);
    assert_eq!(ticks_to_microbeats(u64::MAX, 1), u64::MAX as i128 * 1_000_000);
}

#[test]
fn bpm_sign_test_follows_float_comparison() {
    let at_most_zero = |x: f64| Bpm { bits: x.to_bits() }.is_at_most_zero();
    assert!(at_most_zero(0.0));
    assert!(at_most_zero(-0.0));
    assert!(at_most_zero(-120.0));
    assert!(at_most_zero(f64::NEG_INFINITY));
    assert!(!at_most_zero(120.0));
    assert!(!at_most_zero(f64::MIN_POSITIVE));
    assert!(!at_most_zero(f64::NAN));
    assert!(!at_most_zero(-f64::NAN));
}

fn layer(start: i128, end: i128) -> ArrangementLayer {
    ArrangementLayer {
        layer_id: LayerId::new("l".to_string()),
        source_id: SourceId::new("s".to_string()),
        start_beat: start,
        end_beat: end,
        source_start_beat: 0,
        gain_bits: None,
        role: None,
    }
}

#[test]
fn arrangement_layers() {
    let mut a: Arrangement<()> = Arrangement::new(());
    assert_eq!(a.total_beats(), 0);
    a.layers.push(layer(0, 8_000_000));
    a.layers.push(layer(4_000_000, 12_000_000));
    a.layers.push(layer(-2_000_000, -1_000_000));
    assert_eq!(a.total_beats(), 12_000_000);
    assert_eq!(a.layers[1].duration_beats(), 8_000_000);
    assert!(a.layers[0].is_active_at(0));
    assert!(!a.layers[0].is_active_at(8_000_000));
    assert_eq!(a.active_layers_at(5_000_000), vec![0, 1]);
    assert_eq!(a.active_layers_at(8_000_000), vec![1]);
    assert_eq!(a.active_layers_at(-1_500_000), vec![2]);
    assert_eq!(a.active_layers_at(20_000_000), Vec::<usize>::new());
}

#[test]
fn ids_display_as_themselves() {
    let l = LayerId::new("layer_3".to_string());
    assert_eq!(l.as_str(), "layer_3");
    assert_eq!(l.display_string(), "layer_3");
    let s = SourceId::new("kick".to_string());
    assert_eq!(s.as_str(), "kick");
    assert_eq!(s.display_string(), "kick");
}

#[test]
fn decimal_strings() {
    assert_eq!(decimal_string(0), "0");
    assert_eq!(decimal_string(7), "7");
    assert_eq!(decimal_string(10), "10");
    assert_eq!(decimal_string(12345), "12345");
    assert_eq!(decimal_string(usize::MAX), usize::MAX.to_string());
}

#[test]
fn midi_file_specs_split_on_the_last_equals() {
    assert_eq!(split_midi_file_spec("intro.mid"), ("intro.mid".to_string(), None));
    assert_eq!(split_midi_file_spec("part1.mid=8"), ("part1.mid".to_string(), Some("8".to_string())));
    assert_eq!(split_midi_file_spec("a=b.mid=2.5"), ("a=b.mid".to_string(), Some("2.5".to_string())));
    assert_eq!(split_midi_file_spec("x.mid="), ("x.mid".to_string(), Some(String::new())));
    assert_eq!(split_midi_file_spec("=4"), (String::new(), Some("4".to_string())));
}

#[test]
fn time_signature_text_form() {
    assert_eq!(TimeSignature::new(6, 8).display_string(), "6/8");
    assert_eq!(TimeSignature::new(12, 16).display_string(), "12/16");
    assert_eq!(TimeSignature::new(0, 0).display_string(), "0/0");
    assert_eq!(TimeSignature::new(255, 4).display_string(), "255/4");
    assert_eq!(TimeSignature::default().display_string(), "4/4");
}

#[test]
fn identifiers_compare_by_text() {
    let a = SourceId::new("kick".to_string());
    assert_eq!(a.as_str(), "kick");
    assert_eq!(a.display_string(), "kick");
    assert!(a == SourceId::new("kick".to_string()));
    assert!(a != SourceId::new("snare".to_string()));
    let l = LayerId::new("layer_1".to_string());
    assert_eq!(l.as_str(), "layer_1");
    assert_eq!(l.display_string(), "layer_1");
    assert!(l == LayerId::new("layer_1".to_string()));
    assert!(l != LayerId::new("layer_2".to_string()));
}
