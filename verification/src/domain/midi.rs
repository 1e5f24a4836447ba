use vstd::prelude::*;
use vstd::std_specs::cmp::{PartialEqSpec, PartialEqSpecImpl};
use crate::domain::time::{tick_microbeats, ticks_to_microbeats};

verus! {

/// Unique identifier for a MIDI source file.
/// Typically derived from the filename stem or assigned by the user.
#[derive(Debug, Clone, Eq, Hash)]
pub struct SourceId(pub String);

/// Two identifiers are equal when their texts are.
impl PartialEq for SourceId {
    fn eq(&self, other: &Self) -> (r: bool) {
        self.0 == other.0
    }
}

impl PartialEqSpecImpl for SourceId {
    open spec fn obeys_eq_spec() -> bool {
        true
    }

    open spec fn eq_spec(&self, other: &Self) -> bool {
        self.0@ == other.0@
    }
}

/// An identifier made from a text holds it unchanged, and two identifiers
/// made from texts `a` and `b` are equal exactly when `a` and `b` are.
pub proof fn lemma_source_id_equality(x: SourceId, y: SourceId, a: String, b: String)
    requires
        x.0@ == a@,
        y.0@ == b@,
    ensures
        PartialEqSpec::eq_spec(&x, &y) <==> a@ == b@,
{
}

impl SourceId {
    pub fn new(id: String) -> (r: Self)
        ensures
            r.0@ == id@,
    {
        SourceId(id)
    }

    pub fn as_str(&self) -> (r: &str)
        ensures
            r@ == self.0@,
    {
        self.0.as_str()
    }

    /// The text shown for this identifier: the identifier itself.
    pub fn display_string(&self) -> (r: String)
        ensures
            r@ == self.0@,
    {
        self.0.clone()
    }
}

/// A single MIDI note-on event, positioned in MIDI ticks from the start of
/// its source.
///
/// Note-ons with velocity 0 (which the MIDI spec treats as note-off) are
/// excluded during parsing.
#[derive(Debug, Clone, Copy, PartialEq, Eq)]
pub struct MidiEvent {
    /// Tick position within the MIDI source (0 = start of the file).
    pub tick: u64,
    /// MIDI note number (0–127). For drums this is typically the instrument number.
    pub note: u8,
    /// Velocity (1–127).
    pub velocity: u8,
    /// MIDI channel (0-indexed, 0–15).
    pub channel: u8,
    /// Ticks from the note-on to its note-off, if a note-off follows.
    pub duration_ticks: Option<u64>,
}

/// A parsed MIDI file expressed as tick-based symbolic material.
///
/// A `MidiSource` is raw material — it has no position on the global timeline.
/// Placement on the global timeline is done by wrapping it in an `ArrangementLayer`.
#[derive(Debug, Clone)]
pub struct MidiSource {
    /// Unique identifier (typically the filename stem).
    pub id: SourceId,
    /// Path to the original MIDI file.
    pub path: String,
    /// Total length of the MIDI file in ticks (the last note-on or note-off).
    pub length_ticks: u64,
    /// Tempo of the file's earliest tempo event, in microseconds per beat.
    /// `None` if no tempo event was found.
    pub embedded_tempo: Option<u32>,
    /// Ticks per quarter note (PPQ) as declared in the MIDI file header.
    pub ppq: u16,
    /// All note-on events sorted by tick position.
    pub events: Vec<MidiEvent>,
}

/// `notes` is strictly increasing.
pub open spec fn strictly_increasing(notes: Seq<u8>) -> bool {
    forall|i: int, j: int| 0 <= i < j < notes.len() ==> notes[i] < notes[j]
}

/// Whether some event of `events` plays `note`.
pub open spec fn plays_note(events: Seq<MidiEvent>, note: u8) -> bool {
    exists|i: int| 0 <= i < events.len() && #[trigger] events[i].note == note
}

/// Distance in microbeats between two positions.
pub open spec fn distance(a: int, b: int) -> int {
    if a >= b { a - b } else { b - a }
}

/// Whether an event of a source at `ppq` ticks per beat lies within
/// `tolerance` microbeats of `beat`.
pub open spec fn event_is_near(e: MidiEvent, ppq: u16, beat: i128, tolerance: i128) -> bool {
    distance(tick_microbeats(e.tick as int, ppq as int), beat as int) <= tolerance
}

impl MidiSource {
    /// Position of the source's end in microbeats.
    pub fn length_microbeats(&self) -> (r: i128)
        requires
            self.ppq > 0,
        ensures
            r == tick_microbeats(self.length_ticks as int, self.ppq as int),
    {
        ticks_to_microbeats(self.length_ticks, self.ppq)
    }

    /// Position of an event in microbeats from the start of the source.
    pub fn event_microbeats(&self, i: usize) -> (r: i128)
        requires
            self.ppq > 0,
            i < self.events@.len(),
        ensures
            r == tick_microbeats(self.events@[i as int].tick as int, self.ppq as int),
    {
        ticks_to_microbeats(self.events[i].tick, self.ppq)
    }

    /// The distinct note values that appear in this source, in increasing order.
    pub fn unique_notes(&self) -> (r: Vec<u8>)
        ensures
            strictly_increasing(r@),
            forall|n: u8| r@.contains(n) <==> plays_note(self.events@, n),
    {
        let mut notes: Vec<u8> = Vec::new();
        let mut i: usize = 0;
        while i < self.events.len()
            invariant
                i <= self.events@.len(),
                strictly_increasing(notes@),
                forall|n: u8| notes@.contains(n) <==> plays_note(self.events@.take(i as int), n),
            decreases self.events@.len() - i,
        {
            let note = self.events[i].note;
            let ghost before = notes@;
            insert_note(&mut notes, note);
            proof {
                let t = self.events@.take(i as int + 1);
                assert forall|n: u8| notes@.contains(n) <==> plays_note(t, n) by {
                    if plays_note(t, n) {
                        let k = choose|k: int| 0 <= k < t.len() && #[trigger] t[k].note == n;
                        if k < i {
                            assert(self.events@.take(i as int)[k].note == n);
                        }
                    }
                    if before.contains(n) {
                        let k = choose|k: int|
                            0 <= k < i && #[trigger] self.events@.take(i as int)[k].note == n;
                        assert(t[k].note == n);
                    }
                    if n == note {
                        assert(t[i as int].note == n);
                    }
                }
            }
            i = i + 1;
        }
        proof {
            assert(self.events@.take(i as int) =~= self.events@);
        }
        notes
    }

    /// Events at or near a given position (within `tolerance` microbeats), in order.
    pub fn events_near_beat(&self, beat: i128, tolerance: i128) -> (r: Vec<MidiEvent>)
        requires
            self.ppq > 0,
            -0x1_0000_0000_0000_0000_0000_0000 < beat < 0x1_0000_0000_0000_0000_0000_0000,
        ensures
            r@ == self.events@.filter(|e: MidiEvent| event_is_near(e, self.ppq, beat, tolerance)),
    {
        let ghost pred = |e: MidiEvent| event_is_near(e, self.ppq, beat, tolerance);
        let mut r: Vec<MidiEvent> = Vec::new();
        let mut i: usize = 0;
        while i < self.events.len()
            invariant
                i <= self.events@.len(),
                self.ppq > 0,
                -0x1_0000_0000_0000_0000_0000_0000 < beat < 0x1_0000_0000_0000_0000_0000_0000,
                pred == (|e: MidiEvent| event_is_near(e, self.ppq, beat, tolerance)),
                r@ == self.events@.take(i as int).filter(pred),
            decreases self.events@.len() - i,
        {
            let e = self.events[i];
            let pos = ticks_to_microbeats(e.tick, self.ppq);
            let d = if pos >= beat { pos - beat } else { beat - pos };
            proof {
                assert(self.events@.take(i as int + 1).drop_last() =~= self.events@.take(i as int));
                self.events@.take(i as int).lemma_filter_push(e, pred);
                assert(self.events@.take(i as int).push(e) =~= self.events@.take(i as int + 1));
            }
            if d <= tolerance {
                r.push(e);
            }
            i = i + 1;
        }
        proof {
            assert(self.events@.take(i as int) =~= self.events@);
        }
        r
    }
}

/// Inserts `note` into a strictly increasing list unless it is already there.
pub(crate) fn insert_note(notes: &mut Vec<u8>, note: u8)
    requires
        strictly_increasing(old(notes)@),
    ensures
        strictly_increasing(final(notes)@),
        forall|n: u8| final(notes)@.contains(n) <==> (old(notes)@.contains(n) || n == note),
{
    let mut j: usize = 0;
    while j < notes.len() && notes[j] < note
        invariant
            j <= notes@.len(),
            notes@ == old(notes)@,
            strictly_increasing(notes@),
            forall|k: int| 0 <= k < j ==> notes@[k] < note,
        decreases notes@.len() - j,
    {
        j = j + 1;
    }
    if j < notes.len() && notes[j] == note {
        assert(notes@[j as int] == note);
        return;
    }
    let ghost before = notes@;
    notes.insert(j, note);
    proof {
        assert forall|n: u8| notes@.contains(n) <==> (before.contains(n) || n == note) by {
            if before.contains(n) {
                let k = choose|k: int| 0 <= k < before.len() && before[k] == n;
                if k < j {
                    assert(notes@[k] == n);
                } else {
                    assert(notes@[k + 1] == n);
                }
            }
            if notes@.contains(n) {
                let k = choose|k: int| 0 <= k < notes@.len() && notes@[k] == n;
                if k < j {
                    assert(before[k] == n);
                } else if k > j {
                    assert(before[k - 1] == n);
                }
            }
            if n == note {
                assert(notes@[j as int] == n);
            }
        }
        assert(before == old(notes)@);
    }
    assert(forall|n: u8| notes@.contains(n) <==> (old(notes)@.contains(n) || n == note));
}

} // verus!
