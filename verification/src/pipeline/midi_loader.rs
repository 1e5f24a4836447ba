//! Decoding of Standard MIDI Files into tick-based `MidiSource`s.
use vstd::prelude::*;
use crate::domain::midi::{MidiEvent, MidiSource, SourceId};
use crate::domain::time::{Bpm, Tempo, f64_bits_le_zero};
use crate::sorting::{lemma_stable_sort, sort_by_key_stable, stable_sort_by_key};

verus! {

#[verifier::external_type_specification]
#[verifier::external_body]
pub struct ExSmf<'a>(midly::Smf<'a>);

#[verifier::external_type_specification]
#[verifier::external_body]
pub struct ExMidlyError(midly::Error);

/// The kind of one track event, reduced to what the loader reads.
#[derive(Debug, Clone, Copy, PartialEq, Eq)]
pub enum SmfEventKind {
    NoteOn { channel: u8, key: u8, velocity: u8 },
    NoteOff { channel: u8, key: u8 },
    Tempo { micros_per_beat: u32 },
    Other,
}

/// One track event: ticks since the previous event of its track, and its kind.
#[derive(Debug, Clone, Copy, PartialEq, Eq)]
pub struct SmfEvent {
    pub delta: u32,
    pub kind: SmfEventKind,
}

/// What a byte string decodes to as a Standard MIDI File, if it is one: the
/// header's ticks per beat (`None` for SMPTE timecode timing) and every track's
/// events in file order.
pub uninterp spec fn smf_decode(bytes: Seq<u8>) -> Option<(Option<u16>, Seq<Seq<SmfEvent>>)>;

/// What a parsed file holds, in the same form as `smf_decode`.
pub uninterp spec fn smf_contents(smf: midly::Smf) -> (Option<u16>, Seq<Seq<SmfEvent>>);

/// Calls `midly::Smf::parse`. A parse is a function of the bytes alone: on
/// success the parsed file holds what the bytes decode to, on failure they
/// decode to nothing. The error's contents are not described.
#[verifier::external_body]
fn smf_parse(bytes: &[u8]) -> (r: Result<midly::Smf<'_>, midly::Error>)
    ensures
        r matches Ok(s) ==> smf_decode(bytes@) == Some(smf_contents(s)),
        r is Err ==> smf_decode(bytes@) is None,
{
    midly::Smf::parse(bytes)
}

/// Reads `smf.header.timing`: the ticks per beat of metrical timing (a 15-bit
/// value), or `None` for timecode timing.
#[verifier::external_body]
fn smf_ticks_per_beat(smf: &midly::Smf) -> (r: Option<u16>)
    ensures
        r == smf_contents(*smf).0,
{
    match smf.header.timing {
        midly::Timing::Metrical(t) => Some(t.as_int()),
        midly::Timing::Timecode(..) => None,
    }
}

/// Reads `smf.tracks.len()`.
#[verifier::external_body]
fn smf_track_count(smf: &midly::Smf) -> (r: usize)
    ensures
        r == smf_contents(*smf).1.len(),
{
    smf.tracks.len()
}

/// Reads `smf.tracks[track].len()`.
#[verifier::external_body]
fn smf_track_len(smf: &midly::Smf, track: usize) -> (r: usize)
    requires
        track < smf_contents(*smf).1.len(),
    ensures
        r == smf_contents(*smf).1[track as int].len(),
{
    smf.tracks[track].len()
}

/// Reads `smf.tracks[track][index]`: its delta time and its kind, where a
/// channel note-on, a channel note-off and a tempo meta event keep their data
/// and every other event reads as `Other`.
#[verifier::external_body]
fn smf_event(smf: &midly::Smf, track: usize, index: usize) -> (r: SmfEvent)
    requires
        track < smf_contents(*smf).1.len(),
        index < smf_contents(*smf).1[track as int].len(),
    ensures
        r == smf_contents(*smf).1[track as int][index as int],
{
    let e = &smf.tracks[track][index];
    let kind = match e.kind {
        midly::TrackEventKind::Midi { channel, message: midly::MidiMessage::NoteOn { key, vel } } =>
            SmfEventKind::NoteOn { channel: channel.as_int(), key: key.as_int(), velocity: vel.as_int() },
        midly::TrackEventKind::Midi { channel, message: midly::MidiMessage::NoteOff { key, .. } } =>
            SmfEventKind::NoteOff { channel: channel.as_int(), key: key.as_int() },
        midly::TrackEventKind::Meta(midly::MetaMessage::Tempo(t)) =>
            SmfEventKind::Tempo { micros_per_beat: t.as_int() },
        _ => SmfEventKind::Other,
    };
    SmfEvent { delta: e.delta.as_int(), kind }
}

// ---------------------------------------------------------------------------
// What a file's events mean
// ---------------------------------------------------------------------------

/// Ticks from the start of a track to its event `i`: the sum of the deltas of
/// events `0..=i`.
pub open spec fn track_tick(track: Seq<SmfEvent>, i: int) -> nat
    decreases i + 1,
{
    if i < 0 || i >= track.len() {
        0
    } else {
        track_tick(track, i - 1) + track[i].delta as nat
    }
}

/// A tick count held in 64 bits, saturating at the largest value.
pub open spec fn saturate(n: nat) -> u64 {
    if n > u64::MAX { u64::MAX } else { n as u64 }
}

/// A track's events as (absolute tick, kind).
pub open spec fn track_items(track: Seq<SmfEvent>) -> Seq<(u64, SmfEventKind)> {
    Seq::new(track.len(), |i: int| (saturate(track_tick(track, i)), track[i].kind))
}

/// Every event of a file as (absolute tick, kind): all of track 0, then all of
/// track 1, and so on.
pub open spec fn file_items(tracks: Seq<Seq<SmfEvent>>) -> Seq<(u64, SmfEventKind)>
    decreases tracks.len(),
{
    if tracks.len() == 0 {
        Seq::empty()
    } else {
        file_items(tracks.drop_last()) + track_items(tracks.last())
    }
}

/// Note-ons with a non-zero velocity, as (tick, channel, note, velocity).
pub open spec fn note_ons(items: Seq<(u64, SmfEventKind)>) -> Seq<(u64, u8, u8, u8)>
    decreases items.len(),
{
    if items.len() == 0 {
        Seq::empty()
    } else {
        let p = note_ons(items.drop_last());
        let (tick, kind) = items.last();
        match kind {
            SmfEventKind::NoteOn { channel, key, velocity } => if velocity > 0 {
                p.push((tick, channel, key, velocity))
            } else {
                p
            },
            _ => p,
        }
    }
}

/// Note releases — note-offs and note-ons of velocity 0 — as (tick, channel, note).
pub open spec fn note_offs(items: Seq<(u64, SmfEventKind)>) -> Seq<(u64, u8, u8)>
    decreases items.len(),
{
    if items.len() == 0 {
        Seq::empty()
    } else {
        let p = note_offs(items.drop_last());
        let (tick, kind) = items.last();
        match kind {
            SmfEventKind::NoteOn { channel, key, velocity } => if velocity == 0 {
                p.push((tick, channel, key))
            } else {
                p
            },
            SmfEventKind::NoteOff { channel, key } => p.push((tick, channel, key)),
            _ => p,
        }
    }
}

/// Tempo events as (tick, microseconds per beat).
pub open spec fn tempo_events(items: Seq<(u64, SmfEventKind)>) -> Seq<(u64, u32)>
    decreases items.len(),
{
    if items.len() == 0 {
        Seq::empty()
    } else {
        let p = tempo_events(items.drop_last());
        let (tick, kind) = items.last();
        match kind {
            SmfEventKind::Tempo { micros_per_beat } => p.push((tick, micros_per_beat)),
            _ => p,
        }
    }
}

/// The latest tick of any note-on or note-off, 0 if there is none.
pub open spec fn note_extent(items: Seq<(u64, SmfEventKind)>) -> u64
    decreases items.len(),
{
    if items.len() == 0 {
        0
    } else {
        let p = note_extent(items.drop_last());
        let (tick, kind) = items.last();
        match kind {
            SmfEventKind::NoteOn { .. } | SmfEventKind::NoteOff { .. } => if tick > p {
                tick
            } else {
                p
            },
            _ => p,
        }
    }
}

/// The tempo event with the smallest tick; among several, the first.
pub open spec fn earliest_tempo(tempos: Seq<(u64, u32)>) -> Option<(u64, u32)>
    decreases tempos.len(),
{
    if tempos.len() == 0 {
        None
    } else {
        let p = earliest_tempo(tempos.drop_last());
        let x = tempos.last();
        match p {
            None => Some(x),
            Some(b) => if x.0 < b.0 { Some(x) } else { p },
        }
    }
}

/// The tick of the earliest release of `channel`/`note` strictly after `on`.
pub open spec fn first_release(offs: Seq<(u64, u8, u8)>, channel: u8, note: u8, on: u64) -> Option<u64>
    decreases offs.len(),
{
    if offs.len() == 0 {
        None
    } else {
        let p = first_release(offs.drop_last(), channel, note, on);
        let x = offs.last();
        if x.1 == channel && x.2 == note && x.0 > on {
            match p {
                None => Some(x.0),
                Some(b) => if x.0 < b { Some(x.0) } else { p },
            }
        } else {
            p
        }
    }
}

/// The event a note-on becomes, lasting until its first release.
pub open spec fn note_event(offs: Seq<(u64, u8, u8)>, on: (u64, u8, u8, u8)) -> MidiEvent {
    MidiEvent {
        tick: on.0,
        note: on.2,
        velocity: on.3,
        channel: on.1,
        duration_ticks: match first_release(offs, on.1, on.2, on.0) {
            Some(off) => Some((off - on.0) as u64),
            None => None,
        },
    }
}

/// Note events keyed by tick, in collection order.
pub open spec fn keyed_note_events(ons: Seq<(u64, u8, u8, u8)>, offs: Seq<(u64, u8, u8)>) -> Seq<(i128, MidiEvent)> {
    Seq::new(ons.len(), |i: int| (ons[i].0 as i128, note_event(offs, ons[i])))
}

/// The note events of a file's items, ordered by tick; simultaneous events
/// keep the order of the file.
pub open spec fn file_note_events(items: Seq<(u64, SmfEventKind)>) -> Seq<MidiEvent> {
    stable_sort_by_key(keyed_note_events(note_ons(items), note_offs(items))).map_values(
        |p: (i128, MidiEvent)| p.1,
    )
}

// ---------------------------------------------------------------------------
// Collecting a parsed file's events
// ---------------------------------------------------------------------------

/// Everything the loader gathers from one pass over a file's events.
struct Collected {
    ons: Vec<(u64, u8, u8, u8)>,
    offs: Vec<(u64, u8, u8)>,
    tempos: Vec<(u64, u32)>,
    extent: u64,
}

spec fn collected_from(c: Collected, items: Seq<(u64, SmfEventKind)>) -> bool {
    &&& c.ons@ == note_ons(items)
    &&& c.offs@ == note_offs(items)
    &&& c.tempos@ == tempo_events(items)
    &&& c.extent == note_extent(items)
}

/// Records one more item.
fn collect_item(c: &mut Collected, tick: u64, kind: SmfEventKind, Ghost(items): Ghost<Seq<(u64, SmfEventKind)>>)
    requires
        collected_from(*old(c), items),
    ensures
        collected_from(*final(c), items.push((tick, kind))),
{
    let ghost next = items.push((tick, kind));
    assert(next.drop_last() =~= items);
    match kind {
        SmfEventKind::NoteOn { channel, key, velocity } => {
            if velocity > 0 {
                c.ons.push((tick, channel, key, velocity));
            } else {
                c.offs.push((tick, channel, key));
            }
            if tick > c.extent {
                c.extent = tick;
            }
        },
        SmfEventKind::NoteOff { channel, key } => {
            c.offs.push((tick, channel, key));
            if tick > c.extent {
                c.extent = tick;
            }
        },
        SmfEventKind::Tempo { micros_per_beat } => {
            c.tempos.push((tick, micros_per_beat));
        },
        SmfEventKind::Other => {},
    }
}

/// One pass over every event of every track, in file order.
fn collect_events(smf: &midly::Smf) -> (c: Collected)
    ensures
        collected_from(c, file_items(smf_contents(*smf).1)),
{
    let ghost tracks = smf_contents(*smf).1;
    let mut c = Collected { ons: Vec::new(), offs: Vec::new(), tempos: Vec::new(), extent: 0 };
    let n = smf_track_count(smf);
    let mut t: usize = 0;
    proof {
        assert(tracks.take(0) =~= Seq::<Seq<SmfEvent>>::empty());
    }
    while t < n
        invariant
            n == tracks.len(),
            t <= n,
            tracks == smf_contents(*smf).1,
            collected_from(c, file_items(tracks.take(t as int))),
        decreases n - t,
    {
        let len = smf_track_len(smf, t);
        let ghost track = tracks[t as int];
        let ghost before = file_items(tracks.take(t as int));
        let mut tick: u64 = 0;
        let mut i: usize = 0;
        proof {
            assert(track_items(track).take(0) =~= Seq::<(u64, SmfEventKind)>::empty());
            assert(before + track_items(track).take(0) =~= before);
        }
        while i < len
            invariant
                n == tracks.len(),
                t < n,
                tracks == smf_contents(*smf).1,
                track == tracks[t as int],
                len == track.len(),
                i <= len,
                tick == saturate(track_tick(track, i as int - 1)),
                collected_from(c, before + track_items(track).take(i as int)),
            decreases len - i,
        {
            let e = smf_event(smf, t, i);
            tick = tick.saturating_add(e.delta as u64);
            proof {
                assert(track_tick(track, i as int) == track_tick(track, i as int - 1) + e.delta as nat);
                assert(track_items(track)[i as int] == (tick, e.kind));
            }
            collect_item(&mut c, tick, e.kind, Ghost(before + track_items(track).take(i as int)));
            proof {
                assert((before + track_items(track).take(i as int)).push((tick, e.kind))
                    =~= before + track_items(track).take(i as int + 1));
            }
            i = i + 1;
        }
        proof {
            let next = tracks.take(t as int + 1);
            assert(next.drop_last() =~= tracks.take(t as int));
            assert(next.last() == track);
            assert(track_items(track).take(len as int) =~= track_items(track));
        }
        t = t + 1;
    }
    proof {
        assert(tracks.take(n as int) =~= tracks);
    }
    c
}

/// The earliest tempo event, the first one among several at the same tick.
fn find_earliest_tempo(tempos: &Vec<(u64, u32)>) -> (r: Option<(u64, u32)>)
    ensures
        r == earliest_tempo(tempos@),
{
    let mut best: Option<(u64, u32)> = None;
    let mut i: usize = 0;
    while i < tempos.len()
        invariant
            i <= tempos@.len(),
            best == earliest_tempo(tempos@.take(i as int)),
        decreases tempos@.len() - i,
    {
        let x = tempos[i];
        proof {
            assert(tempos@.take(i as int + 1).drop_last() =~= tempos@.take(i as int));
        }
        match best {
            None => { best = Some(x); },
            Some(b) => if x.0 < b.0 { best = Some(x); },
        }
        i = i + 1;
    }
    proof {
        assert(tempos@.take(i as int) =~= tempos@);
    }
    best
}

/// The tick of the first release of a note strictly after `on`.
fn find_first_release(offs: &Vec<(u64, u8, u8)>, channel: u8, note: u8, on: u64) -> (r: Option<u64>)
    ensures
        r == first_release(offs@, channel, note, on),
        r matches Some(t) ==> t > on,
{
    let mut best: Option<u64> = None;
    let mut i: usize = 0;
    while i < offs.len()
        invariant
            i <= offs@.len(),
            best == first_release(offs@.take(i as int), channel, note, on),
            best matches Some(t) ==> t > on,
        decreases offs@.len() - i,
    {
        let x = offs[i];
        proof {
            assert(offs@.take(i as int + 1).drop_last() =~= offs@.take(i as int));
        }
        if x.1 == channel && x.2 == note && x.0 > on {
            match best {
                None => { best = Some(x.0); },
                Some(b) => if x.0 < b { best = Some(x.0); },
            }
        }
        i = i + 1;
    }
    proof {
        assert(offs@.take(i as int) =~= offs@);
    }
    best
}

/// Every note-on becomes an event lasting until its first release; the events
/// are ordered by tick, simultaneous ones in collection order.
fn build_note_events(ons: &Vec<(u64, u8, u8, u8)>, offs: &Vec<(u64, u8, u8)>) -> (r: Vec<MidiEvent>)
    ensures
        r@ == stable_sort_by_key(keyed_note_events(ons@, offs@)).map_values(|p: (i128, MidiEvent)| p.1),
{
    let mut keyed: Vec<(i128, MidiEvent)> = Vec::new();
    let mut i: usize = 0;
    while i < ons.len()
        invariant
            i <= ons@.len(),
            keyed@ =~= keyed_note_events(ons@, offs@).take(i as int),
        decreases ons@.len() - i,
    {
        let (tick, channel, note, velocity) = ons[i];
        let off = find_first_release(offs, channel, note, tick);
        let duration_ticks = match off {
            Some(t) => Some(t - tick),
            None => None,
        };
        keyed.push((tick as i128, MidiEvent { tick, note, velocity, channel, duration_ticks }));
        i = i + 1;
    }
    let sorted = sort_by_key_stable(keyed);
    let mut events: Vec<MidiEvent> = Vec::new();
    let mut j: usize = 0;
    while j < sorted.len()
        invariant
            j <= sorted@.len(),
            events@ =~= sorted@.take(j as int).map_values(|p: (i128, MidiEvent)| p.1),
        decreases sorted@.len() - j,
    {
        events.push(sorted[j].1);
        j = j + 1;
    }
    proof {
        assert(keyed_note_events(ons@, offs@).take(ons@.len() as int) =~= keyed_note_events(ons@, offs@));
        assert(sorted@.take(j as int) =~= sorted@);
    }
    events
}

// ---------------------------------------------------------------------------
// Loading
// ---------------------------------------------------------------------------

/// Why a MIDI file could not be loaded.
pub enum MidiLoadError {
    /// No MIDI files were given.
    NoFiles,
    /// The file could not be read.
    Unreadable { path: String },
    /// The bytes are not a Standard MIDI File.
    Malformed { path: String, cause: midly::Error },
    /// The file uses SMPTE timecode timing, which is not supported.
    TimecodeTiming { path: String },
    /// The file has no tempo event and no tempo was given.
    NoTempo { path: String },
    /// No file has a tempo event and no tempo was given.
    NoTempoInAnyFile,
    /// The given tempo is not greater than zero.
    NonPositiveBpm { bpm: Bpm },
}

/// The contents of one MIDI file as handed to the loader: its identifier, its
/// path, and its bytes (`None` if it could not be read).
pub struct MidiFile {
    pub id: SourceId,
    pub path: String,
    pub bytes: Option<Vec<u8>>,
}

/// Whether `r` is what loading the bytes of `path` as source `id` gives, with
/// `tempo` in effect (`None`: the file's own tempo is required).
pub open spec fn decoded_as(
    id: SourceId,
    path: String,
    bytes: Seq<u8>,
    tempo: Option<Tempo>,
    r: Result<MidiSource, MidiLoadError>,
) -> bool {
    match smf_decode(bytes) {
        None => r matches Err(MidiLoadError::Malformed { path: p, .. }) && p == path,
        Some((None, _)) => r == Err::<MidiSource, MidiLoadError>(MidiLoadError::TimecodeTiming { path }),
        Some((Some(ppq), tracks)) => {
            let items = file_items(tracks);
            let embedded = earliest_tempo(tempo_events(items));
            if tempo is None && embedded is None {
                r == Err::<MidiSource, MidiLoadError>(MidiLoadError::NoTempo { path })
            } else {
                match tempo {
                    Some(Tempo::Bpm(b)) => if f64_bits_le_zero(b.bits) {
                        r == Err::<MidiSource, MidiLoadError>(MidiLoadError::NonPositiveBpm { bpm: b })
                    } else {
                        loaded_from(id, path, ppq, items, r)
                    },
                    _ => loaded_from(id, path, ppq, items, r),
                }
            }
        },
    }
}

/// `r` is the source loaded from a file's items.
pub open spec fn loaded_from(
    id: SourceId,
    path: String,
    ppq: u16,
    items: Seq<(u64, SmfEventKind)>,
    r: Result<MidiSource, MidiLoadError>,
) -> bool {
    r matches Ok(src) && src.id == id && src.path == path && src.ppq == ppq
        && src.length_ticks == note_extent(items)
        && src.embedded_tempo == (match earliest_tempo(tempo_events(items)) {
            Some(e) => Some(e.1),
            None => None::<u32>,
        })
        && src.events@ == file_note_events(items)
}

/// Load and parse the bytes of a MIDI file into a `MidiSource`.
///
/// Tempo resolution: with `tempo` given it is used (a BPM not greater than
/// zero is refused); otherwise the file must hold a tempo event.
/// Note-ons of velocity 0 count as note-offs; each note lasts until the first
/// release of the same channel and note after it. Events are ordered by tick,
/// simultaneous events in file order. The header's ticks per beat are kept as
/// they are, 0 included; such a source has no beat positions, and placing it
/// on the beat grid needs a positive resolution.
pub fn load_midi(id: SourceId, path: String, bytes: &[u8], tempo: Option<Tempo>) -> (r: Result<MidiSource, MidiLoadError>)
    ensures
        decoded_as(id, path, bytes@, tempo, r),
        r matches Ok(src) ==> forall|i: int, j: int|
            0 <= i <= j < src.events@.len() ==> src.events@[i].tick <= src.events@[j].tick,
        r matches Ok(src) ==> forall|i: int|
            0 <= i < src.events@.len() ==> #[trigger] src.events@[i].velocity > 0,
        r matches Ok(src) ==> forall|i: int|
            0 <= i < src.events@.len() ==> #[trigger] src.events@[i].tick <= src.length_ticks,
        r matches Ok(src) ==> forall|i: int|
            0 <= i < src.events@.len() ==> (#[trigger] src.events@[i].duration_ticks matches Some(d) ==> d > 0),
{
    let smf = match smf_parse(bytes) {
        Ok(s) => s,
        Err(e) => { return Err(MidiLoadError::Malformed { path, cause: e }); },
    };
    let ppq = match smf_ticks_per_beat(&smf) {
        Some(p) => p,
        None => { return Err(MidiLoadError::TimecodeTiming { path }); },
    };
    let c = collect_events(&smf);
    let embedded = find_earliest_tempo(&c.tempos);
    match tempo {
        None => {
            if embedded.is_none() {
                return Err(MidiLoadError::NoTempo { path });
            }
        },
        Some(Tempo::Bpm(b)) => {
            if b.is_at_most_zero() {
                return Err(MidiLoadError::NonPositiveBpm { bpm: b });
            }
        },
        Some(Tempo::MicrosPerBeat(_)) => {},
    }
    let events = build_note_events(&c.ons, &c.offs);
    proof {
        let items = file_items(smf_contents(smf).1);
        lemma_note_events_ordered(items);
    }
    let embedded_tempo = match embedded {
        Some(e) => Some(e.1),
        None => None,
    };
    Ok(MidiSource { id, path, length_ticks: c.extent, embedded_tempo, ppq, events })
}

/// Every collected note-on has a non-zero velocity.
proof fn lemma_note_ons_sound(items: Seq<(u64, SmfEventKind)>)
    ensures
        forall|i: int| 0 <= i < note_ons(items).len() ==> #[trigger] note_ons(items)[i].3 > 0,
    decreases items.len(),
{
    if items.len() > 0 {
        let p = note_ons(items.drop_last());
        lemma_note_ons_sound(items.drop_last());
        assert forall|i: int| 0 <= i < note_ons(items).len() implies #[trigger] note_ons(items)[i].3 > 0 by {
            if i < p.len() {
                assert(note_ons(items)[i] == p[i]);
            }
        }
    }
}

/// Every collected note-on lies within the note extent of the items.
proof fn lemma_note_ons_within_extent(items: Seq<(u64, SmfEventKind)>)
    ensures
        forall|i: int| 0 <= i < note_ons(items).len() ==> #[trigger] note_ons(items)[i].0 <= note_extent(items),
    decreases items.len(),
{
    if items.len() > 0 {
        let d = items.drop_last();
        lemma_note_ons_within_extent(d);
        assert forall|i: int| 0 <= i < note_ons(items).len() implies #[trigger] note_ons(items)[i].0
            <= note_extent(items) by {
            if i < note_ons(d).len() {
                assert(note_ons(items)[i] == note_ons(d)[i]);
            }
        }
    }
}

/// A release found for a note-on comes strictly after it.
proof fn lemma_first_release_after(offs: Seq<(u64, u8, u8)>, channel: u8, note: u8, on: u64)
    ensures
        first_release(offs, channel, note, on) matches Some(t) ==> t > on,
    decreases offs.len(),
{
    if offs.len() > 0 {
        lemma_first_release_after(offs.drop_last(), channel, note, on);
    }
}

/// A file's note events are ordered by tick, all have a non-zero velocity,
/// start no later than the file's note extent, and last a positive number of
/// ticks where they are released.
pub proof fn lemma_note_events_ordered(items: Seq<(u64, SmfEventKind)>)
    ensures
        forall|i: int, j: int|
            0 <= i <= j < file_note_events(items).len() ==> file_note_events(items)[i].tick
                <= file_note_events(items)[j].tick,
        forall|i: int|
            0 <= i < file_note_events(items).len() ==> #[trigger] file_note_events(items)[i].velocity > 0,
        forall|i: int|
            0 <= i < file_note_events(items).len() ==> #[trigger] file_note_events(items)[i].tick <= note_extent(items),
        forall|i: int|
            0 <= i < file_note_events(items).len() ==> (#[trigger] file_note_events(items)[i].duration_ticks matches Some(
                d,
            ) ==> d > 0),
{
    let ons = note_ons(items);
    let offs = note_offs(items);
    let keyed = keyed_note_events(ons, offs);
    let sorted = stable_sort_by_key(keyed);
    lemma_stable_sort(keyed);
    lemma_note_ons_sound(items);
    lemma_note_ons_within_extent(items);
    assert forall|i: int| 0 <= i < sorted.len() implies #[trigger] sorted[i].0 == sorted[i].1.tick as i128
        && sorted[i].1.velocity > 0 && sorted[i].1.tick <= note_extent(items)
        && (sorted[i].1.duration_ticks matches Some(d) ==> d > 0) by {
        broadcast use vstd::seq_lib::group_to_multiset_ensures;
        assert(sorted.contains(sorted[i]));
        assert(sorted.to_multiset().count(sorted[i]) > 0);
        assert(keyed.to_multiset().count(sorted[i]) > 0);
        assert(keyed.contains(sorted[i]));
        let k = choose|k: int| 0 <= k < keyed.len() && keyed[k] == sorted[i];
        assert(keyed[k].1.velocity == ons[k].3);
        assert(ons[k].0 <= note_extent(items));
        lemma_first_release_after(offs, ons[k].1, ons[k].2, ons[k].0);
    }
    let events = file_note_events(items);
    assert forall|i: int, j: int| 0 <= i <= j < events.len() implies events[i].tick <= events[j].tick by {
        assert(sorted[i].0 == sorted[i].1.tick as i128);
        assert(sorted[j].0 == sorted[j].1.tick as i128);
    }
    assert forall|i: int| 0 <= i < events.len() implies #[trigger] events[i].velocity > 0 by {
        assert(sorted[i].0 == sorted[i].1.tick as i128);
    }
    assert forall|i: int| 0 <= i < events.len() implies #[trigger] events[i].tick <= note_extent(items) by {
        assert(sorted[i].0 == sorted[i].1.tick as i128);
    }
    assert forall|i: int| 0 <= i < events.len() implies (#[trigger] events[i].duration_ticks matches Some(d) ==> d > 0) by {
        assert(sorted[i].0 == sorted[i].1.tick as i128);
    }
}

/// The release `first_release` finds is a release of that channel and note
/// strictly after `on`, and no such release comes earlier; it finds none
/// exactly when there is no such release.
proof fn lemma_first_release_earliest(offs: Seq<(u64, u8, u8)>, channel: u8, note: u8, on: u64)
    ensures
        first_release(offs, channel, note, on) matches Some(t) ==> t > on && exists|k: int|
            0 <= k < offs.len() && #[trigger] offs[k] == (t, channel, note),
        first_release(offs, channel, note, on) matches Some(t) ==> forall|k: int|
            0 <= k < offs.len() && (#[trigger] offs[k]).1 == channel && offs[k].2 == note && offs[k].0 > on
                ==> offs[k].0 >= t,
        first_release(offs, channel, note, on) is None ==> forall|k: int|
            0 <= k < offs.len() ==> !((#[trigger] offs[k]).1 == channel && offs[k].2 == note && offs[k].0 > on),
    decreases offs.len(),
{
    if offs.len() > 0 {
        let d = offs.drop_last();
        lemma_first_release_earliest(d, channel, note, on);
        let n = offs.len() - 1;
        assert forall|k: int| 0 <= k < d.len() implies offs[k] == #[trigger] d[k] by {}
        let p = first_release(d, channel, note, on);
        if p is Some {
            let t = p->0;
            let k = choose|k: int| 0 <= k < d.len() && #[trigger] d[k] == (t, channel, note);
            assert(offs[k] == (t, channel, note));
        }
        assert(offs[n] == offs.last());
        let r = first_release(offs, channel, note, on);
        assert(r is Some ==> (p is Some ==> r->0 <= p->0));
        assert forall|k: int|
            0 <= k < offs.len() && (#[trigger] offs[k]).1 == channel && offs[k].2 == note && offs[k].0 > on implies r is Some
                && offs[k].0 >= r->0 by {
            if k < d.len() {
                assert(d[k] == offs[k]);
            }
        }
    }
}

/// How long a loaded note lasts: a note with a duration is released that
/// many ticks after it starts, by a release of the same channel and note, and
/// no release of that channel and note comes between its start and that
/// release; a note without a duration is never released afterwards.
pub proof fn lemma_note_durations(items: Seq<(u64, SmfEventKind)>)
    ensures
        forall|i: int|
            0 <= i < file_note_events(items).len() && (#[trigger] file_note_events(items)[i]).duration_ticks is Some
                ==> exists|k: int|
                0 <= k < note_offs(items).len() && #[trigger] note_offs(items)[k] == (
                    (file_note_events(items)[i].tick + file_note_events(items)[i].duration_ticks->0) as u64,
                    file_note_events(items)[i].channel,
                    file_note_events(items)[i].note,
                ),
        forall|i: int, k: int|
            0 <= i < file_note_events(items).len() && 0 <= k < note_offs(items).len() && (#[trigger] file_note_events(
                items,
            )[i]).duration_ticks is Some && (#[trigger] note_offs(items)[k]).1 == file_note_events(items)[i].channel
                && note_offs(items)[k].2 == file_note_events(items)[i].note && note_offs(items)[k].0
                > file_note_events(items)[i].tick ==> note_offs(items)[k].0 >= file_note_events(items)[i].tick
                + file_note_events(items)[i].duration_ticks->0,
        forall|i: int, k: int|
            0 <= i < file_note_events(items).len() && 0 <= k < note_offs(items).len() && (#[trigger] file_note_events(
                items,
            )[i]).duration_ticks is None ==> !((#[trigger] note_offs(items)[k]).1 == file_note_events(items)[i].channel
                && note_offs(items)[k].2 == file_note_events(items)[i].note && note_offs(items)[k].0
                > file_note_events(items)[i].tick),
{
    broadcast use vstd::seq_lib::group_to_multiset_ensures;

    let ons = note_ons(items);
    let offs = note_offs(items);
    let keyed = keyed_note_events(ons, offs);
    let sorted = stable_sort_by_key(keyed);
    let events = file_note_events(items);
    lemma_stable_sort(keyed);
    assert forall|i: int| 0 <= i < events.len() implies exists|k: int|
        0 <= k < ons.len() && #[trigger] events[i] == note_event(offs, ons[k]) by {
        assert(events[i] == sorted[i].1);
        assert(sorted.to_multiset().count(sorted[i]) > 0);
        assert(keyed.contains(sorted[i]));
        let k = choose|k: int| 0 <= k < keyed.len() && keyed[k] == sorted[i];
        assert(keyed[k].1 == note_event(offs, ons[k]));
    }
    assert forall|i: int| 0 <= i < events.len() && (#[trigger] events[i]).duration_ticks is Some implies exists|k: int|
        0 <= k < offs.len() && #[trigger] offs[k] == (
            (events[i].tick + events[i].duration_ticks->0) as u64,
            events[i].channel,
            events[i].note,
        ) by {
        let q = choose|q: int| 0 <= q < ons.len() && #[trigger] events[i] == note_event(offs, ons[q]);
        lemma_first_release_earliest(offs, ons[q].1, ons[q].2, ons[q].0);
    }
    assert forall|i: int, k: int|
        0 <= i < events.len() && 0 <= k < offs.len() && (#[trigger] events[i]).duration_ticks is Some && (
        #[trigger] offs[k]).1 == events[i].channel && offs[k].2 == events[i].note && offs[k].0 > events[i].tick implies offs[k].0
        >= events[i].tick + events[i].duration_ticks->0 by {
        let q = choose|q: int| 0 <= q < ons.len() && #[trigger] events[i] == note_event(offs, ons[q]);
        lemma_first_release_earliest(offs, ons[q].1, ons[q].2, ons[q].0);
    }
    assert forall|i: int, k: int|
        0 <= i < events.len() && 0 <= k < offs.len() && (#[trigger] events[i]).duration_ticks is None implies !((
        #[trigger] offs[k]).1 == events[i].channel && offs[k].2 == events[i].note && offs[k].0 > events[i].tick) by {
        let q = choose|q: int| 0 <= q < ons.len() && #[trigger] events[i] == note_event(offs, ons[q]);
        lemma_first_release_earliest(offs, ons[q].1, ons[q].2, ons[q].0);
    }
}

/// The tempo events of a file's items are its tempo meta events, each with
/// its tick and tempo.
proof fn lemma_tempo_events_members(items: Seq<(u64, SmfEventKind)>)
    ensures
        forall|i: int| 0 <= i < tempo_events(items).len() ==> exists|k: int|
            0 <= k < items.len() && #[trigger] items[k] == (
                (#[trigger] tempo_events(items)[i]).0,
                SmfEventKind::Tempo { micros_per_beat: tempo_events(items)[i].1 },
            ),
        forall|k: int| 0 <= k < items.len() && (#[trigger] items[k]).1 is Tempo ==> tempo_events(items).contains(
            (items[k].0, items[k].1->micros_per_beat),
        ),
    decreases items.len(),
{
    if items.len() > 0 {
        let d = items.drop_last();
        lemma_tempo_events_members(d);
        let p = tempo_events(d);
        let t = tempo_events(items);
        assert forall|k: int| 0 <= k < d.len() implies items[k] == #[trigger] d[k] by {}
        assert forall|i: int| 0 <= i < t.len() implies exists|k: int|
            0 <= k < items.len() && #[trigger] items[k] == ((#[trigger] t[i]).0, SmfEventKind::Tempo {
                micros_per_beat: t[i].1,
            }) by {
            if i < p.len() {
                assert(t[i] == p[i]);
                let k = choose|k: int| 0 <= k < d.len() && #[trigger] d[k] == (p[i].0, SmfEventKind::Tempo {
                    micros_per_beat: p[i].1,
                });
                assert(items[k] == d[k]);
            } else {
                assert(items[items.len() - 1] == items.last());
            }
        }
        assert forall|k: int| 0 <= k < items.len() && (#[trigger] items[k]).1 is Tempo implies t.contains(
            (items[k].0, items[k].1->micros_per_beat),
        ) by {
            if k < d.len() {
                assert(d[k] == items[k]);
                let i = choose|i: int| 0 <= i < p.len() && p[i] == (d[k].0, d[k].1->micros_per_beat);
                assert(t[i] == p[i]);
            } else {
                assert(items.last() == items[k]);
                assert(t[t.len() - 1] == (items[k].0, items[k].1->micros_per_beat));
            }
        }
    }
}

/// The earliest tempo is the first of the tempos with the smallest tick; there
/// is none exactly when there are no tempos.
pub proof fn lemma_earliest_tempo_first(tempos: Seq<(u64, u32)>)
    ensures
        earliest_tempo(tempos) is None <==> tempos.len() == 0,
        earliest_tempo(tempos) is Some ==> exists|i: int|
            0 <= i < tempos.len() && #[trigger] tempos[i] == earliest_tempo(tempos)->0 && (forall|k: int|
                0 <= k < tempos.len() ==> (#[trigger] tempos[k]).0 >= tempos[i].0) && (forall|k: int|
                0 <= k < i ==> (#[trigger] tempos[k]).0 > tempos[i].0),
    decreases tempos.len(),
{
    if tempos.len() > 0 {
        let d = tempos.drop_last();
        lemma_earliest_tempo_first(d);
        let n = tempos.len() - 1;
        assert forall|k: int| 0 <= k < d.len() implies tempos[k] == #[trigger] d[k] by {}
        match earliest_tempo(d) {
            None => {
                assert(tempos[n] == tempos.last());
            },
            Some(b) => {
                let i = choose|i: int|
                    0 <= i < d.len() && #[trigger] d[i] == b && (forall|k: int|
                        0 <= k < d.len() ==> (#[trigger] d[k]).0 >= d[i].0) && (forall|k: int|
                        0 <= k < i ==> (#[trigger] d[k]).0 > d[i].0);
                let x = tempos.last();
                assert(tempos[n] == x);
                if x.0 < b.0 {
                    assert forall|k: int| 0 <= k < n implies (#[trigger] tempos[k]).0 > x.0 by {
                        assert(d[k].0 >= d[i].0);
                    }
                } else {
                    assert(tempos[i] == b);
                    assert forall|k: int| 0 <= k < tempos.len() implies (#[trigger] tempos[k]).0 >= tempos[i].0 by {
                        if k < n {
                            assert(d[k].0 >= d[i].0);
                        }
                    }
                    assert forall|k: int| 0 <= k < i implies (#[trigger] tempos[k]).0 > tempos[i].0 by {
                        assert(d[k].0 > d[i].0);
                    }
                }
            },
        }
    }
}

/// The embedded tempo of a file: none exactly when the file has no tempo
/// event; otherwise the tempo of a tempo event at the smallest tick of any,
/// the first such event in file order.
pub proof fn lemma_embedded_tempo_earliest(items: Seq<(u64, SmfEventKind)>)
    ensures
        earliest_tempo(tempo_events(items)) is None <==> forall|k: int|
            0 <= k < items.len() ==> !((#[trigger] items[k]).1 is Tempo),
        earliest_tempo(tempo_events(items)) is Some ==> exists|k: int|
            0 <= k < items.len() && #[trigger] items[k] == (
                (earliest_tempo(tempo_events(items))->0).0,
                SmfEventKind::Tempo { micros_per_beat: (earliest_tempo(tempo_events(items))->0).1 },
            ),
        earliest_tempo(tempo_events(items)) is Some ==> forall|k: int|
            0 <= k < items.len() && (#[trigger] items[k]).1 is Tempo ==> items[k].0 >= (earliest_tempo(
                tempo_events(items),
            )->0).0,
{
    let ts = tempo_events(items);
    lemma_tempo_events_members(items);
    lemma_earliest_tempo_first(ts);
    if earliest_tempo(ts) is Some {
        let i = choose|i: int|
            0 <= i < ts.len() && #[trigger] ts[i] == earliest_tempo(ts)->0 && (forall|k: int|
                0 <= k < ts.len() ==> (#[trigger] ts[k]).0 >= ts[i].0) && (forall|k: int|
                0 <= k < i ==> (#[trigger] ts[k]).0 > ts[i].0);
        assert(exists|k: int|
            0 <= k < items.len() && #[trigger] items[k] == ((#[trigger] ts[i]).0, SmfEventKind::Tempo {
                micros_per_beat: ts[i].1,
            }));
        assert forall|k: int| 0 <= k < items.len() && (#[trigger] items[k]).1 is Tempo implies items[k].0 >= ts[i].0 by {
            assert(ts.contains((items[k].0, items[k].1->micros_per_beat)));
            let q = choose|q: int| 0 <= q < ts.len() && ts[q] == (items[k].0, items[k].1->micros_per_beat);
            assert(ts[q].0 >= ts[i].0);
        }
    } else {
        assert forall|k: int| 0 <= k < items.len() implies !((#[trigger] items[k]).1 is Tempo) by {
            if items[k].1 is Tempo {
                assert(ts.contains((items[k].0, items[k].1->micros_per_beat)));
            }
        }
    }
}

/// A file's length is the latest tick of any of its note-ons and note-offs,
/// 0 when it has none.
pub proof fn lemma_length_is_last_note_tick(items: Seq<(u64, SmfEventKind)>)
    ensures
        forall|k: int|
            0 <= k < items.len() && ((#[trigger] items[k]).1 is NoteOn || items[k].1 is NoteOff) ==> items[k].0
                <= note_extent(items),
        note_extent(items) == 0 || exists|k: int|
            0 <= k < items.len() && ((#[trigger] items[k]).1 is NoteOn || items[k].1 is NoteOff) && items[k].0
                == note_extent(items),
    decreases items.len(),
{
    if items.len() > 0 {
        let d = items.drop_last();
        lemma_length_is_last_note_tick(d);
        assert forall|k: int| 0 <= k < d.len() implies items[k] == #[trigger] d[k] by {}
        assert(items[items.len() - 1] == items.last());
        assert(note_extent(items) >= note_extent(d));
        assert forall|k: int|
            0 <= k < items.len() && ((#[trigger] items[k]).1 is NoteOn || items[k].1 is NoteOff) implies items[k].0
                <= note_extent(items) by {
            if k < d.len() {
                assert(d[k] == items[k]);
            }
        }
        if note_extent(d) != 0 && note_extent(items) == note_extent(d) {
            let k = choose|k: int|
                0 <= k < d.len() && ((#[trigger] d[k]).1 is NoteOn || d[k].1 is NoteOff) && d[k].0 == note_extent(d);
            assert(items[k] == d[k]);
        }
    }
}

/// Each collected note-on is a note-on item of the file, with its tick,
/// channel, key and velocity; they are as many as the note-on items of
/// non-zero velocity.
proof fn lemma_note_ons_members(items: Seq<(u64, SmfEventKind)>)
    ensures
        forall|i: int| 0 <= i < note_ons(items).len() ==> exists|k: int|
            0 <= k < items.len() && #[trigger] items[k] == (
                (#[trigger] note_ons(items)[i]).0,
                SmfEventKind::NoteOn {
                    channel: note_ons(items)[i].1,
                    key: note_ons(items)[i].2,
                    velocity: note_ons(items)[i].3,
                },
            ),
        note_ons(items).len() == items.filter(
            |x: (u64, SmfEventKind)| x.1 is NoteOn && x.1->NoteOn_velocity > 0,
        ).len(),
    decreases items.len(),
{
    reveal(Seq::filter);
    if items.len() > 0 {
        let d = items.drop_last();
        lemma_note_ons_members(d);
        let p = note_ons(d);
        let t = note_ons(items);
        assert forall|k: int| 0 <= k < d.len() implies items[k] == #[trigger] d[k] by {}
        assert(items[items.len() - 1] == items.last());
        assert forall|i: int| 0 <= i < t.len() implies exists|k: int|
            0 <= k < items.len() && #[trigger] items[k] == ((#[trigger] t[i]).0, SmfEventKind::NoteOn {
                channel: t[i].1,
                key: t[i].2,
                velocity: t[i].3,
            }) by {
            if i < p.len() {
                assert(t[i] == p[i]);
                let k = choose|k: int| 0 <= k < d.len() && #[trigger] d[k] == (p[i].0, SmfEventKind::NoteOn {
                    channel: p[i].1,
                    key: p[i].2,
                    velocity: p[i].3,
                });
                assert(items[k] == d[k]);
            }
        }
    }
}

/// The loaded notes are the file's note-ons of non-zero velocity, one event
/// for each, with its tick, channel, key and velocity.
pub proof fn lemma_events_are_note_ons(items: Seq<(u64, SmfEventKind)>)
    ensures
        file_note_events(items).len() == items.filter(
            |x: (u64, SmfEventKind)| x.1 is NoteOn && x.1->NoteOn_velocity > 0,
        ).len(),
        forall|i: int| 0 <= i < file_note_events(items).len() ==> exists|k: int|
            0 <= k < items.len() && #[trigger] items[k] == (
                (#[trigger] file_note_events(items)[i]).tick,
                SmfEventKind::NoteOn {
                    channel: file_note_events(items)[i].channel,
                    key: file_note_events(items)[i].note,
                    velocity: file_note_events(items)[i].velocity,
                },
            ),
{
    broadcast use vstd::seq_lib::group_to_multiset_ensures;

    let ons = note_ons(items);
    let offs = note_offs(items);
    let keyed = keyed_note_events(ons, offs);
    let sorted = stable_sort_by_key(keyed);
    let events = file_note_events(items);
    lemma_stable_sort(keyed);
    lemma_note_ons_members(items);
    assert forall|i: int| 0 <= i < events.len() implies exists|k: int|
        0 <= k < items.len() && #[trigger] items[k] == ((#[trigger] events[i]).tick, SmfEventKind::NoteOn {
            channel: events[i].channel,
            key: events[i].note,
            velocity: events[i].velocity,
        }) by {
        assert(events[i] == sorted[i].1);
        assert(sorted.to_multiset().count(sorted[i]) > 0);
        assert(keyed.contains(sorted[i]));
        let q = choose|q: int| 0 <= q < keyed.len() && keyed[q] == sorted[i];
        assert(keyed[q].1 == note_event(offs, ons[q]));
        assert(exists|k: int|
            0 <= k < items.len() && #[trigger] items[k] == ((#[trigger] ons[q]).0, SmfEventKind::NoteOn {
                channel: ons[q].1,
                key: ons[q].2,
                velocity: ons[q].3,
            }));
    }
}

// ---------------------------------------------------------------------------
// Loading several files at one tempo
// ---------------------------------------------------------------------------

/// The first tempo event of a track, in track order.
pub open spec fn track_first_tempo(track: Seq<SmfEvent>) -> Option<u32>
    decreases track.len(),
{
    if track.len() == 0 {
        None
    } else {
        match track_first_tempo(track.drop_last()) {
            Some(m) => Some(m),
            None => match track.last().kind {
                SmfEventKind::Tempo { micros_per_beat } => Some(micros_per_beat),
                _ => None,
            },
        }
    }
}

/// The first tempo event of the first track that has one.
pub open spec fn tracks_first_tempo(tracks: Seq<Seq<SmfEvent>>) -> Option<u32>
    decreases tracks.len(),
{
    if tracks.len() == 0 {
        None
    } else {
        match tracks_first_tempo(tracks.drop_last()) {
            Some(m) => Some(m),
            None => track_first_tempo(tracks.last()),
        }
    }
}

/// The bytes of a file, if it could be read.
pub open spec fn file_bytes(f: MidiFile) -> Option<Seq<u8>> {
    match f.bytes {
        Some(b) => Some(b@),
        None => None,
    }
}

/// Looks through the files in order for a tempo: the first file that cannot be
/// read stops the search (`Err(Some(path))`), a file that does not parse is
/// skipped, and the first tempo found ends it. `Err(None)`: no tempo anywhere.
pub open spec fn tempo_search(files: Seq<MidiFile>) -> Result<u32, Option<String>>
    decreases files.len(),
{
    if files.len() == 0 {
        Err(None)
    } else {
        let p = tempo_search(files.drop_last());
        match p {
            Err(None) => {
                let f = files.last();
                match file_bytes(f) {
                    None => Err(Some(f.path)),
                    Some(b) => match smf_decode(b) {
                        Some((_, tracks)) => match tracks_first_tempo(tracks) {
                            Some(m) => Ok(m),
                            None => Err(None),
                        },
                        None => Err(None),
                    },
                }
            },
            _ => p,
        }
    }
}

/// The tempo that a set of files is loaded at, or why there is none.
pub open spec fn resolved_tempo(files: Seq<MidiFile>, given: Option<Bpm>) -> Result<Tempo, MidiLoadError> {
    match given {
        Some(b) => Ok(Tempo::Bpm(b)),
        None => match tempo_search(files) {
            Ok(m) => Ok(Tempo::MicrosPerBeat(m)),
            Err(Some(path)) => Err(MidiLoadError::Unreadable { path }),
            Err(None) => Err(MidiLoadError::NoTempoInAnyFile),
        },
    }
}

/// Whether a file loads at a tempo.
pub open spec fn file_loads(f: MidiFile, tempo: Tempo) -> bool {
    match file_bytes(f) {
        None => false,
        Some(b) => match smf_decode(b) {
            Some((Some(_), _)) => !(tempo matches Tempo::Bpm(x) && f64_bits_le_zero(x.bits)),
            _ => false,
        },
    }
}

/// Whether `e` is the error of loading file `f` at a tempo.
pub open spec fn file_fails_with(f: MidiFile, tempo: Tempo, e: MidiLoadError) -> bool {
    match file_bytes(f) {
        None => e == MidiLoadError::Unreadable { path: f.path },
        Some(b) => decoded_as(f.id, f.path, b, Some(tempo), Err(e)),
    }
}

/// Load several MIDI files at one tempo.
///
/// The tempo is the given one; otherwise the first tempo event found by
/// `tempo_search`. Every file is then loaded at that tempo, in order; the
/// first file that fails gives the error.
pub fn load_midi_sources(files: Vec<MidiFile>, given: Option<Bpm>) -> (r: Result<(Vec<MidiSource>, Tempo), MidiLoadError>)
    ensures
        files@.len() == 0 ==> r == Err::<(Vec<MidiSource>, Tempo), MidiLoadError>(MidiLoadError::NoFiles),
        files@.len() > 0 && resolved_tempo(files@, given) is Err ==>
            r == Err::<(Vec<MidiSource>, Tempo), MidiLoadError>(resolved_tempo(files@, given)->Err_0),
        files@.len() > 0 ==> (resolved_tempo(files@, given) matches Ok(t) ==> {
            &&& (r is Ok <==> forall|i: int| 0 <= i < files@.len() ==> file_loads(#[trigger] files@[i], t))
            &&& (r matches Ok((srcs, tt)) ==> tt == t && srcs@.len() == files@.len()
                && forall|i: int| 0 <= i < files@.len() ==> decoded_as(files@[i].id, files@[i].path,
                    file_bytes(files@[i])->Some_0, Some(t), Ok(#[trigger] srcs@[i])))
            &&& (r matches Err(e) ==> exists|k: int| 0 <= k < files@.len()
                && (forall|i: int| 0 <= i < k ==> file_loads(#[trigger] files@[i], t))
                && file_fails_with(files@[k], t, e))
        }),
{
    if files.len() == 0 {
        return Err(MidiLoadError::NoFiles);
    }
    let tempo = match given {
        Some(b) => Tempo::Bpm(b),
        None => match search_tempo(&files) {
            Ok(m) => Tempo::MicrosPerBeat(m),
            Err(Some(path)) => { return Err(MidiLoadError::Unreadable { path }); },
            Err(None) => { return Err(MidiLoadError::NoTempoInAnyFile); },
        },
    };
    let ghost orig = files@;
    let mut rest = files;
    let mut sources: Vec<MidiSource> = Vec::new();
    while rest.len() > 0
        invariant
            orig == files@,
            orig.len() > 0,
            resolved_tempo(orig, given) == Ok::<Tempo, MidiLoadError>(tempo),
            0 <= orig.len() - rest@.len() <= orig.len(),
            rest@ == orig.skip(orig.len() - rest@.len()),
            sources@.len() == orig.len() - rest@.len(),
            forall|i: int| 0 <= i < sources@.len() ==> file_loads(#[trigger] orig[i], tempo),
            forall|i: int| 0 <= i < sources@.len() ==> decoded_as(orig[i].id, orig[i].path,
                file_bytes(orig[i])->Some_0, Some(tempo), Ok(#[trigger] sources@[i])),
        decreases rest.len(),
    {
        let ghost k = orig.len() - rest@.len();
        let f = rest.remove(0);
        assert(f == orig[k]);
        proof {
            assert(orig.skip(k + 1) =~= orig.skip(k).remove(0));
        }
        let MidiFile { id, path, bytes } = f;
        let bytes = match bytes {
            Some(b) => b,
            None => {
                let e = MidiLoadError::Unreadable { path };
                assert(file_fails_with(orig[k], tempo, e));
                assert(!file_loads(orig[k], tempo));
                return Err(e);
            },
        };
        match load_midi(id, path, bytes.as_slice(), Some(tempo)) {
            Ok(src) => {
                sources.push(src);
                proof {
                    assert(sources@[k] == src);
                    assert(file_loads(orig[k], tempo));
                }
            },
            Err(e) => {
                assert(file_fails_with(orig[k], tempo, e));
                assert(!file_loads(orig[k], tempo));
                return Err(e);
            },
        }
    }
    Ok((sources, tempo))
}

/// The first tempo event of a parsed file's first track that has one.
fn find_tracks_first_tempo(smf: &midly::Smf) -> (r: Option<u32>)
    ensures
        r == tracks_first_tempo(smf_contents(*smf).1),
{
    let ghost tracks = smf_contents(*smf).1;
    let n = smf_track_count(smf);
    let mut t: usize = 0;
    let mut found: Option<u32> = None;
    while t < n && found.is_none()
        invariant
            n == tracks.len(),
            t <= n,
            tracks == smf_contents(*smf).1,
            found == tracks_first_tempo(tracks.take(t as int)),
        decreases n - t,
    {
        let len = smf_track_len(smf, t);
        let ghost track = tracks[t as int];
        let mut i: usize = 0;
        let mut in_track: Option<u32> = None;
        while i < len && in_track.is_none()
            invariant
                n == tracks.len(),
                t < n,
                tracks == smf_contents(*smf).1,
                track == tracks[t as int],
                len == track.len(),
                i <= len,
                in_track == track_first_tempo(track.take(i as int)),
            decreases len - i,
        {
            let e = smf_event(smf, t, i);
            proof {
                assert(track.take(i as int + 1).drop_last() =~= track.take(i as int));
            }
            match e.kind {
                SmfEventKind::Tempo { micros_per_beat } => { in_track = Some(micros_per_beat); },
                _ => {},
            }
            i = i + 1;
        }
        proof {
            lemma_first_tempo_prefix(track, i as int);
            assert(tracks.take(t as int + 1).drop_last() =~= tracks.take(t as int));
        }
        found = in_track;
        t = t + 1;
    }
    proof {
        lemma_tracks_first_tempo_prefix(tracks, t as int);
    }
    found
}

/// Once a prefix of a track holds a tempo event, so does the track; a whole
/// track is its own prefix.
proof fn lemma_first_tempo_prefix(track: Seq<SmfEvent>, i: int)
    requires
        0 <= i <= track.len(),
        i < track.len() ==> track_first_tempo(track.take(i)) is Some,
    ensures
        track_first_tempo(track) == track_first_tempo(track.take(i)),
    decreases track.len() - i,
{
    if i < track.len() {
        assert(track.take(i + 1).drop_last() =~= track.take(i));
        lemma_first_tempo_prefix(track, i + 1);
    } else {
        assert(track.take(i) =~= track);
    }
}

proof fn lemma_tracks_first_tempo_prefix(tracks: Seq<Seq<SmfEvent>>, t: int)
    requires
        0 <= t <= tracks.len(),
        t < tracks.len() ==> tracks_first_tempo(tracks.take(t)) is Some,
    ensures
        tracks_first_tempo(tracks) == tracks_first_tempo(tracks.take(t)),
    decreases tracks.len() - t,
{
    if t < tracks.len() {
        assert(tracks.take(t + 1).drop_last() =~= tracks.take(t));
        lemma_tracks_first_tempo_prefix(tracks, t + 1);
    } else {
        assert(tracks.take(t) =~= tracks);
    }
}

/// `tempo_search` over the files.
fn search_tempo(files: &Vec<MidiFile>) -> (r: Result<u32, Option<String>>)
    ensures
        r == tempo_search(files@),
{
    let mut i: usize = 0;
    let mut outcome: Result<u32, Option<String>> = Err(None);
    let mut done = false;
    while i < files.len() && !done
        invariant
            i <= files@.len(),
            done == (outcome != Err::<u32, Option<String>>(None)),
            outcome == tempo_search(files@.take(i as int)),
        decreases files@.len() - i,
    {
        proof {
            assert(files@.take(i as int + 1).drop_last() =~= files@.take(i as int));
        }
        match &files[i].bytes {
            None => {
                outcome = Err(Some(files[i].path.clone()));
                done = true;
            },
            Some(b) => match smf_parse(b.as_slice()) {
                Ok(smf) => match find_tracks_first_tempo(&smf) {
                    Some(m) => {
                        outcome = Ok(m);
                        done = true;
                    },
                    None => {},
                },
                Err(_) => {},
            },
        }
        i = i + 1;
    }
    proof {
        lemma_tempo_search_prefix(files@, i as int);
    }
    outcome
}

proof fn lemma_tempo_search_prefix(files: Seq<MidiFile>, i: int)
    requires
        0 <= i <= files.len(),
        i < files.len() ==> tempo_search(files.take(i)) != Err::<u32, Option<String>>(None),
    ensures
        tempo_search(files) == tempo_search(files.take(i)),
    decreases files.len() - i,
{
    if i < files.len() {
        assert(files.take(i + 1).drop_last() =~= files.take(i));
        lemma_tempo_search_prefix(files, i + 1);
    } else {
        assert(files.take(i) =~= files);
    }
}

} // verus!
