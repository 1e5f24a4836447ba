use vstd::prelude::*;
use vstd::std_specs::cmp::{PartialEqSpec, PartialEqSpecImpl};
use crate::domain::midi::SourceId;

verus! {

/// Unique identifier for an arrangement layer.
#[derive(Debug, Clone, Eq, Hash)]
pub struct LayerId(pub String);

/// Two identifiers are equal when their texts are.
impl PartialEq for LayerId {
    fn eq(&self, other: &Self) -> (r: bool) {
        self.0 == other.0
    }
}

impl PartialEqSpecImpl for LayerId {
    open spec fn obeys_eq_spec() -> bool {
        true
    }

    open spec fn eq_spec(&self, other: &Self) -> bool {
        self.0@ == other.0@
    }
}

/// An identifier made from a text holds it unchanged, and two identifiers
/// made from texts `a` and `b` are equal exactly when `a` and `b` are.
pub proof fn lemma_layer_id_equality(x: LayerId, y: LayerId, a: String, b: String)
    requires
        x.0@ == a@,
        y.0@ == b@,
    ensures
        PartialEqSpec::eq_spec(&x, &y) <==> a@ == b@,
{
}

impl LayerId {
    pub fn new(id: String) -> (r: Self)
        ensures
            r.0@ == id@,
    {
        LayerId(id)
    }

    pub fn as_str(&self) -> (r: &str)
        ensures
            r@ == self.0@,
    {
        self.0.as_str()
    }

    /// The text shown for this identifier: the identifier itself.
    pub fn display_string(&self) -> (r: String)
        ensures
            r@ == self.0@,
    {
        self.0.clone()
    }
}

/// One placed instance of a `MidiSource` on the global beat timeline.
///
/// An `ArrangementLayer` says:
///   "Play `source_id` starting at `start_beat` in the global timeline,
///    ending at `end_beat`, beginning from `source_start_beat` within the file."
///
/// Positions are in microbeats. Multiple layers may overlap — two MIDI files
/// can be active simultaneously.
#[derive(Debug)]
pub struct ArrangementLayer {
    pub layer_id: LayerId,
    pub source_id: SourceId,
    /// Where this layer begins on the global beat timeline.
    pub start_beat: i128,
    /// Where this layer ends on the global beat timeline.
    pub end_beat: i128,
    /// Which position within the MIDI source to start playback from.
    pub source_start_beat: i128,
    /// Optional gain adjustment, the bit pattern of an IEEE-754 single.
    pub gain_bits: Option<u32>,
    /// Optional human-readable role label (e.g. "verse", "fill", "transition").
    pub role: Option<String>,
}

/// Largest magnitude of a timeline position for which differences of
/// positions stay within range.
pub open spec fn position_in_range(x: i128) -> bool {
    -0x4000_0000_0000_0000_0000_0000_0000_0000 <= x <= 0x3fff_ffff_ffff_ffff_ffff_ffff_ffff_ffff
}

impl ArrangementLayer {
    /// Duration of this layer in microbeats.
    pub fn duration_beats(&self) -> (r: i128)
        requires
            position_in_range(self.start_beat),
            position_in_range(self.end_beat),
        ensures
            r == self.end_beat - self.start_beat,
    {
        self.end_beat - self.start_beat
    }

    /// True if this layer is active at the given global position.
    pub fn is_active_at(&self, beat: i128) -> (r: bool)
        ensures
            r == (self.start_beat <= beat && beat < self.end_beat),
    {
        beat >= self.start_beat && beat < self.end_beat
    }
}

/// The largest end position of the layers, or 0 if it is larger.
pub open spec fn max_end(layers: Seq<ArrangementLayer>) -> i128
    decreases layers.len(),
{
    if layers.len() == 0 {
        0
    } else {
        let p = max_end(layers.drop_last());
        if layers.last().end_beat > p { layers.last().end_beat } else { p }
    }
}

/// A complete arrangement: a time map plus a collection of placed MIDI layers.
///
/// Layers may overlap freely. The arrangement describes *what plays when*
/// but not the audio waveform. The time map is carried for whoever converts
/// positions to audio time; the layer logic does not read it.
pub struct Arrangement<M> {
    pub time_map: M,
    pub layers: Vec<ArrangementLayer>,
}

impl<M> Arrangement<M> {
    pub fn new(time_map: M) -> (r: Self)
        ensures
            r.time_map == time_map,
            r.layers@.len() == 0,
    {
        Arrangement { time_map, layers: Vec::new() }
    }

    /// Total span of the arrangement (end of last layer), never below 0.
    pub fn total_beats(&self) -> (r: i128)
        ensures
            r == max_end(self.layers@),
            r >= 0,
            forall|i: int| 0 <= i < self.layers@.len() ==> #[trigger] self.layers@[i].end_beat <= r,
    {
        let mut best: i128 = 0;
        let mut i: usize = 0;
        while i < self.layers.len()
            invariant
                i <= self.layers@.len(),
                best == max_end(self.layers@.take(i as int)),
                best >= 0,
                forall|k: int| 0 <= k < i ==> #[trigger] self.layers@[k].end_beat <= best,
            decreases self.layers@.len() - i,
        {
            proof {
                assert(self.layers@.take(i as int + 1).drop_last() =~= self.layers@.take(i as int));
            }
            if self.layers[i].end_beat > best {
                best = self.layers[i].end_beat;
            }
            i = i + 1;
        }
        proof {
            assert(self.layers@.take(i as int) =~= self.layers@);
        }
        best
    }

    /// Indices of the layers active at a given position, in layer order.
    pub fn active_layers_at(&self, beat: i128) -> (r: Vec<usize>)
        ensures
            forall|k: int| 0 <= k < r@.len() ==> #[trigger] r@[k] < self.layers@.len(),
            forall|a: int, b: int| 0 <= a < b < r@.len() ==> r@[a] < r@[b],
            forall|i: int| 0 <= i < self.layers@.len() ==> (r@.contains(i as usize) <==> (
            #[trigger] self.layers@[i].start_beat <= beat && beat < self.layers@[i].end_beat)),
    {
        let mut r: Vec<usize> = Vec::new();
        let mut i: usize = 0;
        while i < self.layers.len()
            invariant
                i <= self.layers@.len(),
                forall|k: int| 0 <= k < r@.len() ==> #[trigger] r@[k] < i,
                forall|a: int, b: int| 0 <= a < b < r@.len() ==> r@[a] < r@[b],
                forall|j: int| 0 <= j < i ==> (r@.contains(j as usize) <==> (
                #[trigger] self.layers@[j].start_beat <= beat && beat < self.layers@[j].end_beat)),
            decreases self.layers@.len() - i,
        {
            let ghost before = r@;
            if self.layers[i].is_active_at(beat) {
                r.push(i);
            }
            proof {
                assert forall|j: int| 0 <= j <= i implies (r@.contains(j as usize) <==> (
                    #[trigger] self.layers@[j].start_beat <= beat && beat < self.layers@[j].end_beat)) by {
                    if j < i {
                        if r@.contains(j as usize) {
                            let k = choose|k: int| 0 <= k < r@.len() && r@[k] == j as usize;
                            if k < before.len() {
                                assert(before[k] == j as usize);
                            }
                        }
                        if before.contains(j as usize) {
                            let k = choose|k: int| 0 <= k < before.len() && before[k] == j as usize;
                            assert(r@[k] == j as usize);
                        }
                    } else {
                        if r@.contains(j as usize) {
                            let k = choose|k: int| 0 <= k < r@.len() && r@[k] == j as usize;
                            if k < before.len() {
                                assert(before[k] < i);
                            }
                        }
                        if self.layers@[j].start_beat <= beat && beat < self.layers@[j].end_beat {
                            assert(r@[before.len() as int] == j as usize);
                        }
                    }
                }
            }
            i = i + 1;
        }
        r
    }
}

} // verus!
