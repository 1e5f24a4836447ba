use onset_matcher::domain::midi::{MidiEvent, SourceId};
use onset_matcher::domain::time::{Bpm, Tempo};
use onset_matcher::pipeline::midi_loader::{load_midi, load_midi_sources, MidiFile, MidiLoadError};

fn header(division: [u8; 2]) -> Vec<u8> {
    let mut v = vec![0x4d, 0x54, 0x68, 0x64, 0, 0, 0, 6, 0, 0, 0, 1];
    v.extend_from_slice(&division);
    v
}

fn track(events: &[u8]) -> Vec<u8> {
    let mut v = vec![0x4d, 0x54, 0x72, 0x6b];
    v.extend_from_slice(&(events.len() as u32).to_be_bytes());
    v.extend_from_slice(events);
    v
}

/// 480 ticks per beat; a tempo of 500000 us per beat; C4 and E4 at tick 0,
/// both released at tick 480 (E4 by a note-on of velocity 0); a channel-10
/// kick at tick 960 that is never released.
fn drum_file() -> Vec<u8> {
    let mut v = header([0x01, 0xe0]);
    v.extend(track(&[
        0x00, 0xff, 0x51, 0x03, 0x07, 0xa1, 0x20,
        0x00, 0x90, 0x3c, 0x64,
        0x00, 0x90, 0x40, 0x50,
        0x83, 0x60, 0x80, 0x3c, 0x40,
        0x00, 0x90, 0x40, 0x00,
        0x83, 0x60, 0x99, 0x24, 0x7f,
        0x00, 0xff, 0x2f, 0x00,
    ]));
    v
}

fn no_tempo_file() -> Vec<u8> {
    let mut v = header([0x00, 0x60]);
    v.extend(track(&[0x00, 0x90, 0x3c, 0x64, 0x60, 0x80, 0x3c, 0x00, 0x00, 0xff, 0x2f, 0x00]));
    v
}

fn id(s: &str) -> SourceId {
    SourceId::new(s.to_string())
}

#[test]
fn load_midi_reads_notes_in_tick_order() {
    let src = match load_midi(id("drums"), "drums.mid".to_string(), &drum_file(), None) {
        Ok(s) => s,
        Err(_) => panic!("the file should load"),
    };
    assert_eq!(src.id.as_str(), "drums");
    assert_eq!(src.path, "drums.mid");
    assert_eq!(src.ppq, 480);
    assert_eq!(src.length_ticks, 960);
    assert_eq!(src.embedded_tempo, Some(500_000));
    assert_eq!(
        src.events,
        vec![
            MidiEvent { tick: 0, note: 60, velocity: 100, channel: 0, duration_ticks: Some(480) },
            MidiEvent { tick: 0, note: 64, velocity: 80, channel: 0, duration_ticks: Some(480) },
            MidiEvent { tick: 960, note: 36, velocity: 127, channel: 9, duration_ticks: None },
        ]
    );
    assert_eq!(src.length_microbeats(), 2_000_000);
    assert_eq!(src.event_microbeats(2), 2_000_000);
    assert_eq!(src.unique_notes(), vec![36, 60, 64]);
    assert_eq!(src.events_near_beat(1_900_000, 100_000).len(), 1);
    assert_eq!(src.events_near_beat(1_000_000, 100_000).len(), 0);
}

#[test]
fn load_midi_uses_a_given_tempo_without_embedded_one() {
    let bpm = Bpm { bits: 120.0f64.to_bits() };
    let src = load_midi(id("x"), "x.mid".to_string(), &no_tempo_file(), Some(Tempo::Bpm(bpm)));
    match src {
        Ok(s) => {
            assert_eq!(s.embedded_tempo, None);
            assert_eq!(s.ppq, 96);
            assert_eq!(s.length_ticks, 96);
            assert_eq!(s.events.len(), 1);
            assert_eq!(s.events[0].duration_ticks, Some(96));
        }
        Err(_) => panic!("the file should load"),
    }
}

#[test]
fn load_midi_errors() {
    let garbage = vec![1u8, 2, 3, 4, 5];
    assert!(matches!(
        load_midi(id("g"), "g.mid".to_string(), &garbage, None),
        Err(MidiLoadError::Malformed { ref path, .. }) if path == "g.mid"
    ));

    let mut timecode = header([0xe7, 0x28]);
    timecode.extend(track(&[0x00, 0xff, 0x2f, 0x00]));
    assert!(matches!(
        load_midi(id("t"), "t.mid".to_string(), &timecode, None),
        Err(MidiLoadError::TimecodeTiming { ref path }) if path == "t.mid"
    ));


    assert!(matches!(
        load_midi(id("n"), "n.mid".to_string(), &no_tempo_file(), None),
        Err(MidiLoadError::NoTempo { ref path }) if path == "n.mid"
    ));

    let negative = Bpm { bits: (-1.0f64).to_bits() };
    assert!(matches!(
        load_midi(id("d"), "d.mid".to_string(), &drum_file(), Some(Tempo::Bpm(negative))),
        Err(MidiLoadError::NonPositiveBpm { bpm }) if bpm == negative
    ));
    let zero_bpm = Bpm { bits: 0.0f64.to_bits() };
    assert!(matches!(
        load_midi(id("d"), "d.mid".to_string(), &drum_file(), Some(Tempo::Bpm(zero_bpm))),
        Err(MidiLoadError::NonPositiveBpm { .. })
    ));
}

#[test]
fn load_midi_keeps_a_zero_resolution() {
    let mut zero = header([0x00, 0x00]);
    zero.extend(track(&[
        0x00, 0xff, 0x51, 0x03, 0x07, 0xa1, 0x20,
        0x05, 0x90, 0x3c, 0x64,
        0x05, 0x80, 0x3c, 0x00,
        0x00, 0xff, 0x2f, 0x00,
    ]));
    match load_midi(id("z"), "z.mid".to_string(), &zero, None) {
        Ok(s) => {
            assert_eq!(s.ppq, 0);
            assert_eq!(s.length_ticks, 10);
            assert_eq!(s.events, vec![MidiEvent { tick: 5, note: 60, velocity: 100, channel: 0, duration_ticks: Some(5) }]);
        }
        Err(_) => panic!("a file of zero ticks per beat still loads"),
    }
    match load_midi_sources(vec![file("z", Some(zero))], None) {
        Ok((sources, tempo)) => {
            assert_eq!(sources[0].ppq, 0);
            assert_eq!(tempo, Tempo::MicrosPerBeat(500_000));
        }
        Err(_) => panic!("a file of zero ticks per beat still loads"),
    }
}

fn file(name: &str, bytes: Option<Vec<u8>>) -> MidiFile {
    MidiFile { id: id(name), path: format!("{}.mid", name), bytes }
}

#[test]
fn load_midi_sources_takes_the_first_embedded_tempo() {
    let files = vec![file("a", Some(no_tempo_file())), file("b", Some(drum_file()))];
    match load_midi_sources(files, None) {
        Ok((sources, tempo)) => {
            assert_eq!(tempo, Tempo::MicrosPerBeat(500_000));
            assert_eq!(sources.len(), 2);
            assert_eq!(sources[0].id.as_str(), "a");
            assert_eq!(sources[1].events.len(), 3);
        }
        Err(_) => panic!("both files should load"),
    }
}

#[test]
fn load_midi_sources_prefers_the_given_tempo() {
    let bpm = Bpm { bits: 90.0f64.to_bits() };
    match load_midi_sources(vec![file("b", Some(drum_file()))], Some(bpm)) {
        Ok((_, tempo)) => assert_eq!(tempo, Tempo::Bpm(bpm)),
        Err(_) => panic!("the file should load"),
    }
}

#[test]
fn load_midi_sources_errors() {
    assert!(matches!(load_midi_sources(Vec::new(), None), Err(MidiLoadError::NoFiles)));
    assert!(matches!(
        load_midi_sources(vec![file("a", Some(no_tempo_file()))], None),
        Err(MidiLoadError::NoTempoInAnyFile)
    ));
    assert!(matches!(
        load_midi_sources(vec![file("missing", None), file("b", Some(drum_file()))], None),
        Err(MidiLoadError::Unreadable { ref path }) if path == "missing.mid"
    ));
    let garbage = vec![0u8; 3];
    assert!(matches!(
        load_midi_sources(vec![file("b", Some(drum_file())), file("bad", Some(garbage))], None),
        Err(MidiLoadError::Malformed { ref path, .. }) if path == "bad.mid"
    ));
    let negative = Bpm { bits: (-3.0f64).to_bits() };
    assert!(matches!(
        load_midi_sources(vec![file("b", Some(drum_file()))], Some(negative)),
        Err(MidiLoadError::NonPositiveBpm { .. })
    ));
}
