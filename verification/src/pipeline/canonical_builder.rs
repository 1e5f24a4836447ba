//! Building the canonical playback reference and the flattened test fixture.
use vstd::prelude::*;
use vstd::string::StringExecFns;
use crate::domain::canonical::{
    CanonicalEvent, CanonicalEventView, CanonicalLayer, CanonicalMusicalContext, CanonicalOnsetCluster,
    CanonicalOnsetClusterView, CanonicalPlaybackReference, CanonicalSource, ReferenceProvenance,
    TestFixture, TestFixtureEvent,
};
use crate::domain::midi::{distance, insert_note, strictly_increasing, MidiSource};
use crate::domain::result::{AlignmentDiagnostics, MatchedOnsetCluster};
use crate::domain::time::{tick_microbeats, ticks_to_microbeats, Bpm, TimeSignature};
use crate::pipeline::diagnostics::position_ok;
use crate::sorting::{lemma_sort_map_payload, lemma_stable_sort, map_payload, payloads, sort_by_key_stable, stable_sort_by_key};
use crate::text::{decimal, decimal_string};

verus! {

/// The beat a canonical event is grouped under in the test fixture: its
/// beat, held to the range `0..=u64::MAX`.
pub open spec fn fixture_key(beat: i128) -> i128 {
    if beat < 0 {
        0
    } else if beat > u64::MAX {
        u64::MAX as i128
    } else {
        beat
    }
}

/// Some event of `events` plays `note` at fixture beat `key`.
pub open spec fn plays_at(events: Seq<CanonicalEvent>, key: i128, note: u8) -> bool {
    exists|i: int| 0 <= i < events.len() && fixture_key(#[trigger] events[i].beat) == key && events[i].note == note
}

proof fn lemma_plays_at_push(events: Seq<CanonicalEvent>, i: int, key: i128, note: u8)
    requires
        0 <= i < events.len(),
    ensures
        plays_at(events.take(i + 1), key, note) <==> (plays_at(events.take(i), key, note) || (
        fixture_key(events[i].beat) == key && events[i].note == note)),
{
    let a = events.take(i);
    let b = events.take(i + 1);
    if plays_at(b, key, note) {
        let k = choose|k: int| 0 <= k < b.len() && fixture_key(#[trigger] b[k].beat) == key && b[k].note == note;
        if k < i {
            assert(a[k] == b[k]);
        }
    }
    if plays_at(a, key, note) {
        let k = choose|k: int| 0 <= k < a.len() && fixture_key(#[trigger] a[k].beat) == key && a[k].note == note;
        assert(b[k] == a[k]);
    }
    if fixture_key(events[i].beat) == key && events[i].note == note {
        assert(b[i] == events[i]);
    }
}

/// The fixture groups are ordered by beat, hold sorted non-empty note lists,
/// and list exactly the notes the events play at each beat; every event's
/// beat has a group.
pub open spec fn groups_flatten(groups: Seq<TestFixtureEvent>, events: Seq<CanonicalEvent>) -> bool {
    &&& forall|a: int, b: int| 0 <= a < b < groups.len() ==> groups[a].beat < groups[b].beat
    &&& forall|a: int| 0 <= a < groups.len() ==> strictly_increasing(#[trigger] groups[a].notes@)
        && groups[a].notes@.len() > 0
    &&& forall|a: int, n: u8| 0 <= a < groups.len() ==> (#[trigger] groups[a].notes@.contains(n) <==> plays_at(
        events,
        groups[a].beat,
        n,
    ))
    &&& forall|e: int| 0 <= e < events.len() ==> has_group(groups, fixture_key(#[trigger] events[e].beat))
}

/// Some group is at `beat`.
pub open spec fn has_group(groups: Seq<TestFixtureEvent>, beat: i128) -> bool {
    exists|a: int| 0 <= a < groups.len() && #[trigger] groups[a].beat == beat
}

/// Two strictly increasing sequences with the same members are equal.
proof fn lemma_increasing_same_members(s: Seq<int>, t: Seq<int>)
    requires
        forall|a: int, b: int| 0 <= a < b < s.len() ==> s[a] < s[b],
        forall|a: int, b: int| 0 <= a < b < t.len() ==> t[a] < t[b],
        forall|x: int| s.contains(x) <==> t.contains(x),
    ensures
        s == t,
    decreases s.len(),
{
    if s.len() == 0 {
        if t.len() > 0 {
            assert(t.contains(t[0]));
        }
        assert(s =~= t);
    } else {
        assert(s.contains(s[0]));
        assert(t.len() > 0);
        assert(t.contains(t[0]));
        let i = choose|i: int| 0 <= i < t.len() && t[i] == s[0];
        let k = choose|k: int| 0 <= k < s.len() && s[k] == t[0];
        assert(t[0] <= t[i]);
        assert(s[0] <= s[k]);
        assert(s[0] == t[0]);
        let s1 = s.drop_first();
        let t1 = t.drop_first();
        assert forall|x: int| s1.contains(x) implies t1.contains(x) by {
            let a = choose|a: int| 0 <= a < s1.len() && s1[a] == x;
            assert(s[a + 1] == x);
            assert(t.contains(x));
            let b = choose|b: int| 0 <= b < t.len() && t[b] == x;
            assert(b != 0);
            assert(t1[b - 1] == x);
        }
        assert forall|x: int| t1.contains(x) implies s1.contains(x) by {
            let a = choose|a: int| 0 <= a < t1.len() && t1[a] == x;
            assert(t[a + 1] == x);
            assert(s.contains(x));
            let b = choose|b: int| 0 <= b < s.len() && s[b] == x;
            assert(b != 0);
            assert(s1[b - 1] == x);
        }
        lemma_increasing_same_members(s1, t1);
        assert(s =~= t) by {
            assert forall|a: int| 0 <= a < s.len() implies s[a] == t[a] by {
                if a > 0 {
                    assert(s[a] == s1[a - 1]);
                    assert(t[a] == t1[a - 1]);
                }
            }
        }
    }
}

/// The beats of a fixture's groups, in order.
pub open spec fn group_beats(groups: Seq<TestFixtureEvent>) -> Seq<int> {
    groups.map_values(|g: TestFixtureEvent| g.beat as int)
}

/// The notes of a group, as integers.
spec fn note_ints(notes: Seq<u8>) -> Seq<int> {
    notes.map_values(|n: u8| n as int)
}

/// The test fixture depends only on which notes are played at which fixture
/// beats: groups that flatten two event lists playing the same notes at the
/// same beats are the same groups, whatever the events' order, velocities,
/// sources and layers.
pub proof fn lemma_fixture_groups_determined(
    g1: Seq<TestFixtureEvent>,
    e1: Seq<CanonicalEvent>,
    g2: Seq<TestFixtureEvent>,
    e2: Seq<CanonicalEvent>,
)
    requires
        groups_flatten(g1, e1),
        groups_flatten(g2, e2),
        forall|k: i128, n: u8| plays_at(e1, k, n) <==> plays_at(e2, k, n),
    ensures
        g1.len() == g2.len(),
        forall|a: int| 0 <= a < g1.len() ==> #[trigger] g1[a].beat == g2[a].beat && g1[a].notes@ == g2[a].notes@,
{
    let b1 = group_beats(g1);
    let b2 = group_beats(g2);
    assert forall|x: int| b1.contains(x) implies b2.contains(x) by {
        let a = choose|a: int| 0 <= a < b1.len() && b1[a] == x;
        let n = g1[a].notes@[0];
        assert(g1[a].notes@.contains(n));
        assert(plays_at(e2, g1[a].beat, n));
        let e = choose|e: int| 0 <= e < e2.len() && fixture_key(#[trigger] e2[e].beat) == g1[a].beat && e2[e].note == n;
        assert(has_group(g2, fixture_key(e2[e].beat)));
        let c = choose|c: int| 0 <= c < g2.len() && #[trigger] g2[c].beat == fixture_key(e2[e].beat);
        assert(b2[c] == x);
    }
    assert forall|x: int| b2.contains(x) implies b1.contains(x) by {
        let a = choose|a: int| 0 <= a < b2.len() && b2[a] == x;
        let n = g2[a].notes@[0];
        assert(g2[a].notes@.contains(n));
        assert(plays_at(e1, g2[a].beat, n));
        let e = choose|e: int| 0 <= e < e1.len() && fixture_key(#[trigger] e1[e].beat) == g2[a].beat && e1[e].note == n;
        assert(has_group(g1, fixture_key(e1[e].beat)));
        let c = choose|c: int| 0 <= c < g1.len() && #[trigger] g1[c].beat == fixture_key(e1[e].beat);
        assert(b1[c] == x);
    }
    lemma_increasing_same_members(b1, b2);
    assert(b1.len() == b2.len());
    assert forall|a: int| 0 <= a < g1.len() implies #[trigger] g1[a].beat == g2[a].beat && g1[a].notes@ == g2[a].notes@ by {
        assert(b1[a] == b2[a]);
        let n1 = note_ints(g1[a].notes@);
        let n2 = note_ints(g2[a].notes@);
        assert forall|x: int| n1.contains(x) implies n2.contains(x) by {
            let i = choose|i: int| 0 <= i < n1.len() && n1[i] == x;
            let n = g1[a].notes@[i];
            assert(g1[a].notes@.contains(n));
            assert(plays_at(e2, g2[a].beat, n));
            assert(g2[a].notes@.contains(n));
            let j = choose|j: int| 0 <= j < g2[a].notes@.len() && g2[a].notes@[j] == n;
            assert(n2[j] == x);
        }
        assert forall|x: int| n2.contains(x) implies n1.contains(x) by {
            let i = choose|i: int| 0 <= i < n2.len() && n2[i] == x;
            let n = g2[a].notes@[i];
            assert(g2[a].notes@.contains(n));
            assert(plays_at(e1, g1[a].beat, n));
            assert(g1[a].notes@.contains(n));
            let j = choose|j: int| 0 <= j < g1[a].notes@.len() && g1[a].notes@[j] == n;
            assert(n1[j] == x);
        }
        assert(strictly_increasing(g1[a].notes@));
        assert(strictly_increasing(g2[a].notes@));
        lemma_increasing_same_members(n1, n2);
        assert(g1[a].notes@ =~= g2[a].notes@) by {
            assert forall|i: int| 0 <= i < g1[a].notes@.len() implies g1[a].notes@[i] == g2[a].notes@[i] by {
                assert(n1[i] == n2[i]);
            }
        }
    }
}

/// Build a `TestFixture` by flattening a `CanonicalPlaybackReference`.
///
/// All events are grouped by beat.  Velocity is dropped; source and layer IDs
/// are dropped.  Notes within each group are sorted and deduplicated, and the
/// groups are listed in increasing beat order.
pub fn build_test_fixture(canonical: &CanonicalPlaybackReference) -> (r: TestFixture)
    ensures
        r.schema_version@ == "0.1"@,
        r.name@ == canonical.name@,
        r.bpm == canonical.musical_context.bpm,
        r.time_signature == canonical.musical_context.time_signature,
        groups_flatten(r.events@, canonical.events@),
{
    let events = &canonical.events;
    let mut groups: Vec<TestFixtureEvent> = Vec::new();
    let mut i: usize = 0;
    while i < events.len()
        invariant
            i <= events@.len(),
            groups_flatten(groups@, events@.take(i as int)),
        decreases events@.len() - i,
    {
        let beat = events[i].beat;
        let note = events[i].note;
        let key: i128 = if beat < 0 {
            0
        } else if beat > u64::MAX as i128 {
            u64::MAX as i128
        } else {
            beat
        };
        let ghost before = groups@;
        let ghost done = events@.take(i as int);
        let ghost next = events@.take(i as int + 1);
        proof {
            assert forall|k: i128, n: u8| plays_at(next, k, n) <==> (plays_at(done, k, n) || (k == key && n == note)) by {
                lemma_plays_at_push(events@, i as int, k, n);
            }
        }
        let mut j: usize = 0;
        while j < groups.len() && groups[j].beat < key
            invariant
                j <= groups@.len(),
                groups@ == before,
                forall|a: int| 0 <= a < j ==> groups@[a].beat < key,
            decreases groups@.len() - j,
        {
            j = j + 1;
        }
        if j < groups.len() && groups[j].beat == key {
            let mut g = groups.remove(j);
            let ghost old_notes = g.notes@;
            insert_note(&mut g.notes, note);
            groups.insert(j, g);
            proof {
                assert(groups@ =~= before.update(j as int, g));
                assert forall|a: int, b: int| 0 <= a < b < groups@.len() implies groups@[a].beat < groups@[b].beat by {
                    assert(groups@[a].beat == before[a].beat);
                    assert(groups@[b].beat == before[b].beat);
                }
                assert forall|a: int| 0 <= a < groups@.len() implies strictly_increasing(#[trigger] groups@[a].notes@)
                    && groups@[a].notes@.len() > 0 by {
                    if a != j {
                        assert(groups@[a] == before[a]);
                    } else {
                        assert(g.notes@.contains(note));
                    }
                }
                assert forall|a: int, n: u8| 0 <= a < groups@.len() implies (#[trigger] groups@[a].notes@.contains(n)
                    <==> plays_at(next, groups@[a].beat, n)) by {
                    if a != j {
                        assert(groups@[a] == before[a]);
                        assert(before[a].notes@.contains(n) <==> plays_at(done, before[a].beat, n));
                    } else {
                        assert(old_notes.contains(n) <==> plays_at(done, key, n));
                    }
                }
                assert forall|e: int| 0 <= e < next.len() implies has_group(groups@, fixture_key(#[trigger] next[e].beat)) by {
                    if e < i {
                        assert(next[e] == done[e]);
                        assert(has_group(before, fixture_key(done[e].beat)));
                        let a = choose|a: int| 0 <= a < before.len() && #[trigger] before[a].beat == fixture_key(done[e].beat);
                        assert(groups@[a].beat == before[a].beat);
                        assert(0 <= a < groups@.len() && groups@[a].beat == fixture_key(next[e].beat));
                    } else {
                        assert(next[e] == events@[i as int]);
                        assert(groups@[j as int].beat == key);
                        assert(0 <= j < groups@.len() && groups@[j as int].beat == fixture_key(next[e].beat));
                    }
                }
            }
        } else {
            let mut notes: Vec<u8> = Vec::new();
            notes.push(note);
            let g = TestFixtureEvent { beat: key, notes };
            groups.insert(j, g);
            proof {
                assert(notes@ =~= seq![note]);
                assert forall|a: int| 0 <= a < before.len() implies before[a].beat != key by {
                    if a >= j {
                        assert(before[j as int].beat > key);
                    }
                }
                assert forall|n: u8| !plays_at(done, key, n) by {
                    if plays_at(done, key, n) {
                        let e = choose|e: int| 0 <= e < done.len() && fixture_key(#[trigger] done[e].beat) == key
                            && done[e].note == n;
                        assert(has_group(before, fixture_key(done[e].beat)));
                        let a = choose|a: int| 0 <= a < before.len() && #[trigger] before[a].beat == fixture_key(done[e].beat);
                        assert(before[a].beat != key);
                    }
                }
                assert forall|a: int, b: int| 0 <= a < b < groups@.len() implies groups@[a].beat < groups@[b].beat by {
                    if a < j && b == j {
                    } else if a < j && b > j {
                        assert(groups@[b] == before[b - 1]);
                        assert(before[j as int].beat > key);
                    } else if a == j && b > j {
                        assert(groups@[b] == before[b - 1]);
                        assert(before[j as int].beat > key);
                    } else if b < j {
                    } else {
                        assert(groups@[a] == before[a - 1]);
                        assert(groups@[b] == before[b - 1]);
                    }
                }
                assert forall|a: int| 0 <= a < groups@.len() implies strictly_increasing(#[trigger] groups@[a].notes@)
                    && groups@[a].notes@.len() > 0 by {
                    if a < j {
                        assert(groups@[a] == before[a]);
                    } else if a > j {
                        assert(groups@[a] == before[a - 1]);
                    }
                }
                assert forall|a: int, n: u8| 0 <= a < groups@.len() implies (#[trigger] groups@[a].notes@.contains(n)
                    <==> plays_at(next, groups@[a].beat, n)) by {
                    if a < j {
                        assert(groups@[a] == before[a]);
                        assert(before[a].notes@.contains(n) <==> plays_at(done, before[a].beat, n));
                    } else if a > j {
                        assert(groups@[a] == before[a - 1]);
                        assert(before[a - 1].notes@.contains(n) <==> plays_at(done, before[a - 1].beat, n));
                    } else {
                        if n == note {
                            assert(groups@[a].notes@[0] == n);
                        }
                    }
                }
                assert forall|e: int| 0 <= e < next.len() implies has_group(groups@, fixture_key(#[trigger] next[e].beat)) by {
                    if e < i {
                        assert(next[e] == done[e]);
                        assert(has_group(before, fixture_key(done[e].beat)));
                        let a = choose|a: int| 0 <= a < before.len() && #[trigger] before[a].beat == fixture_key(done[e].beat);
                        if a < j {
                            assert(groups@[a] == before[a]);
                        } else {
                            assert(groups@[a + 1] == before[a]);
                        }
                    } else {
                        assert(next[e] == events@[i as int]);
                        assert(groups@[j as int].beat == key);
                    }
                }
            }
        }
        assert(groups_flatten(groups@, next));
        i = i + 1;
    }
    proof {
        assert(events@.take(i as int) =~= events@);
    }
    TestFixture {
        schema_version: String::from_str("0.1"),
        name: canonical.name.clone(),
        bpm: canonical.musical_context.bpm,
        time_signature: canonical.musical_context.time_signature,
        events: groups,
    }
}

// ---------------------------------------------------------------------------
// The canonical playback reference
// ---------------------------------------------------------------------------

/// Events within this many microbeats of a cluster belong to it.
pub const CLUSTER_EPSILON: i128 = 1000;

/// Tick resolution reported when there is no source.
pub const DEFAULT_PPQ: u16 = 960;

/// Identifier of the layer of the source at `index`: `layer_` and the
/// source's 1-based number.
pub open spec fn layer_label(index: int) -> Seq<char> {
    seq!['l', 'a', 'y', 'e', 'r', '_'] + decimal((index + 1) as nat)
}

/// Where a source placed at `offset` starts: the offset, held at 0 or later.
pub open spec fn layer_start(offset: i128) -> int {
    if offset > 0 { offset as int } else { 0 }
}

/// Number of layers: one per source that has an offset.
pub open spec fn layer_count(sources: Seq<MidiSource>, offsets: Seq<i128>) -> int {
    if sources.len() < offsets.len() { sources.len() as int } else { offsets.len() as int }
}

/// The canonical events of the source at `index` placed at `offset`, keyed
/// by global beat, in source order.
pub open spec fn layer_events(source: MidiSource, index: int, offset: i128) -> Seq<(i128, CanonicalEventView)> {
    Seq::new(
        source.events@.len(),
        |e: int|
            {
                let local = tick_microbeats(source.events@[e].tick as int, source.ppq as int);
                let global = (local + layer_start(offset)) as i128;
                (
                    global,
                    (
                        global,
                        source.id.0@,
                        layer_label(index),
                        local as i128,
                        source.events@[e].note,
                        source.events@[e].velocity,
                    ),
                )
            },
    )
}

/// The canonical events of the first `n` layers, keyed by global beat, layer
/// after layer.
pub open spec fn placed_events(sources: Seq<MidiSource>, offsets: Seq<i128>, n: nat) -> Seq<(i128, CanonicalEventView)>
    decreases n,
{
    if n == 0 {
        seq![]
    } else {
        placed_events(sources, offsets, (n - 1) as nat) + layer_events(
            sources[n - 1],
            n - 1,
            offsets[n - 1],
        )
    }
}

/// Indices of the positions within `CLUSTER_EPSILON` of `beat`, increasing.
pub open spec fn near_indices(beats: Seq<i128>, beat: int) -> Seq<usize>
    decreases beats.len(),
{
    if beats.len() == 0 {
        seq![]
    } else {
        let before = near_indices(beats.drop_last(), beat);
        if distance(beats.last() as int, beat) <= CLUSTER_EPSILON {
            before.push((beats.len() - 1) as usize)
        } else {
            before
        }
    }
}

/// The canonical onset cluster of each matched cluster, keyed by beat: the
/// events at its beat, its expected strength, and full confidence when it was
/// matched, none otherwise.
pub open spec fn cluster_entries(ms: Seq<MatchedOnsetCluster>, beats: Seq<i128>) -> Seq<(i128, CanonicalOnsetClusterView)> {
    Seq::new(
        ms.len(),
        |j: int|
            (
                ms[j].cluster.beat,
                (
                    ms[j].cluster.beat,
                    near_indices(beats, ms[j].cluster.beat as int),
                    ms[j].cluster.expected_strength_permille,
                    if ms[j].observed_beat is Some { 1000u16 } else { 0u16 },
                ),
            ),
    )
}

/// Views of canonical events.
pub open spec fn events_view(events: Seq<CanonicalEvent>) -> Seq<CanonicalEventView> {
    events.map_values(|e: CanonicalEvent| e@)
}

/// Views of canonical onset clusters.
pub open spec fn clusters_view(clusters: Seq<CanonicalOnsetCluster>) -> Seq<CanonicalOnsetClusterView> {
    clusters.map_values(|c: CanonicalOnsetCluster| c@)
}

/// Positions of canonical events.
pub open spec fn event_beats(events: Seq<CanonicalEvent>) -> Seq<i128> {
    events.map_values(|e: CanonicalEvent| e.beat)
}

/// Sources and offsets that the reference can be built from.
pub open spec fn placement_ok(sources: Seq<MidiSource>, offsets: Seq<i128>) -> bool {
    &&& forall|i: int| 0 <= i < sources.len() ==> #[trigger] sources[i].ppq > 0
    &&& forall|i: int| 0 <= i < offsets.len() ==> position_ok(#[trigger] offsets[i] as int)
}

proof fn lemma_placed_events_step(sources: Seq<MidiSource>, offsets: Seq<i128>, n: nat)
    ensures
        placed_events(sources, offsets, n + 1) == placed_events(sources, offsets, n) + layer_events(
            sources[n as int],
            n as int,
            offsets[n as int],
        ),
{
}

/// Keyed items with their events in view.
pub open spec fn keyed_views(items: Seq<(i128, CanonicalEvent)>) -> Seq<(i128, CanonicalEventView)> {
    items.map_values(|p: (i128, CanonicalEvent)| (p.0, p.1@))
}

fn layer_id(index: usize) -> (r: String)
    requires
        index < usize::MAX,
    ensures
        r@ == layer_label(index as int),
{
    let mut id = "layer_".to_owned();
    proof {
        reveal_strlit("layer_");
    }
    id.append(decimal_string(index + 1).as_str());
    id
}

/// The canonical events of all layers in global beat order; events at the
/// same beat keep layer order, then source order.
fn canonical_events(sources: &[MidiSource], offsets: &[i128]) -> (r: Vec<CanonicalEvent>)
    requires
        placement_ok(sources@, offsets@),
    ensures
        events_view(r@) == stable_sort_by_key(placed_events(sources@, offsets@, layer_count(sources@, offsets@) as nat))
            .map_values(|p: (i128, CanonicalEventView)| p.1),
        forall|k: int| 0 <= k < r@.len() ==> 0 <= #[trigger] r@[k].beat <= 0x2_0000_0000_0000_0000_0000_0000,
        forall|a: int, b: int| 0 <= a <= b < r@.len() ==> r@[a].beat <= r@[b].beat,
{
    let n = if sources.len() < offsets.len() { sources.len() } else { offsets.len() };
    let mut items: Vec<(i128, CanonicalEvent)> = Vec::new();
    let mut i: usize = 0;
    while i < n
        invariant
            0 <= i <= n,
            n == layer_count(sources@, offsets@),
            placement_ok(sources@, offsets@),
            keyed_views(items@) == placed_events(sources@, offsets@, i as nat),
            forall|k: int| 0 <= k < items@.len() ==> 0 <= #[trigger] items@[k].0 <= 0x2_0000_0000_0000_0000_0000_0000
                && items@[k].0 == items@[k].1.beat,
        decreases n - i,
    {
        let source = &sources[i];
        let offset = offsets[i];
        assert(source.ppq > 0);
        assert(position_ok(offsets@[i as int] as int));
        let start: i128 = if offset > 0 { offset } else { 0 };
        let layer = layer_id(i);
        let ghost before = placed_events(sources@, offsets@, i as nat);
        let ghost here = layer_events(sources@[i as int], i as int, offsets@[i as int]);
        proof {
            lemma_placed_events_step(sources@, offsets@, i as nat);
        }
        let mut e: usize = 0;
        while e < source.events.len()
            invariant
                0 <= e <= source.events@.len(),
                i < sources@.len(),
                i < offsets@.len(),
                *source == sources@[i as int],
                source.ppq > 0,
                offset == offsets@[i as int],
                start == layer_start(offset),
                0 <= start <= 0x1_0000_0000_0000_0000_0000_0000,
                layer@ == layer_label(i as int),
                here == layer_events(sources@[i as int], i as int, offsets@[i as int]),
                keyed_views(items@) == before + here.take(e as int),
                forall|k: int| 0 <= k < items@.len() ==> 0 <= #[trigger] items@[k].0 <= 0x2_0000_0000_0000_0000_0000_0000
                    && items@[k].0 == items@[k].1.beat,
            decreases source.events@.len() - e,
        {
            let event = source.events[e];
            let local = ticks_to_microbeats(event.tick, source.ppq);
            assert(local <= 0x1_0000_0000_0000_0000 * 1_000_000 + 1) by (nonlinear_arith)
                requires
                    local == tick_microbeats(event.tick as int, source.ppq as int),
                    source.ppq > 0,
                    event.tick <= 0xffff_ffff_ffff_ffff,
            ;
            let global = local + start;
            let ce = CanonicalEvent {
                beat: global,
                source_id: source.id.0.clone(),
                layer_id: layer.clone(),
                source_beat: local,
                note: event.note,
                velocity: event.velocity,
            };
            let ghost old_items = items@;
            items.push((global, ce));
            assert(keyed_views(items@) =~= keyed_views(old_items).push((global, ce@)));
            assert(here.take(e + 1) =~= here.take(e as int).push(here[e as int]));
            e = e + 1;
        }
        assert(here.take(source.events@.len() as int) =~= here);
        i = i + 1;
    }
    let ghost unsorted = items@;
    let ghost f = |e: CanonicalEvent| e@;
    assert(map_payload(unsorted, f) =~= keyed_views(unsorted));
    let sorted = sort_by_key_stable(items);
    proof {
        broadcast use vstd::seq_lib::group_to_multiset_ensures;

        lemma_sort_map_payload(unsorted, f);
        assert forall|k: int| 0 <= k < sorted@.len() implies 0 <= #[trigger] sorted@[k].0 <= 0x2_0000_0000_0000_0000_0000_0000
            && sorted@[k].0 == sorted@[k].1.beat by {
            assert(sorted@.to_multiset().count(sorted@[k]) > 0);
            assert(unsorted.to_multiset().count(sorted@[k]) > 0);
            assert(unsorted.contains(sorted@[k]));
        }
    }
    let events = payloads(sorted);
    assert(events_view(events@) =~= map_payload(sorted@, f).map_values(|p: (i128, CanonicalEventView)| p.1));
    assert forall|k: int| 0 <= k < events@.len() implies 0 <= #[trigger] events@[k].beat
        <= 0x2_0000_0000_0000_0000_0000_0000 by {
        assert(events@[k] == sorted@[k].1);
        assert(0 <= sorted@[k].0 <= 0x2_0000_0000_0000_0000_0000_0000 && sorted@[k].0 == sorted@[k].1.beat);
    }
    assert forall|a: int, b: int| 0 <= a <= b < events@.len() implies events@[a].beat <= events@[b].beat by {
        assert(events@[a] == sorted@[a].1);
        assert(events@[b] == sorted@[b].1);
        assert(sorted@[a].0 == sorted@[a].1.beat);
        assert(sorted@[b].0 == sorted@[b].1.beat);
    }
    events
}

/// Keyed items with their clusters in view.
pub open spec fn keyed_cluster_views(items: Seq<(i128, CanonicalOnsetCluster)>) -> Seq<(i128, CanonicalOnsetClusterView)> {
    items.map_values(|p: (i128, CanonicalOnsetCluster)| (p.0, p.1@))
}

/// The canonical onset clusters, one per matched cluster of the diagnostics,
/// in beat order (clusters at the same beat keep their order).
fn canonical_clusters(events: &Vec<CanonicalEvent>, diagnostics: &AlignmentDiagnostics) -> (r: Vec<CanonicalOnsetCluster>)
    requires
        forall|k: int| 0 <= k < events@.len() ==> 0 <= #[trigger] events@[k].beat <= 0x2_0000_0000_0000_0000_0000_0000,
    ensures
        clusters_view(r@) == stable_sort_by_key(
            cluster_entries(diagnostics.matched_onset_clusters@, event_beats(events@)),
        ).map_values(|p: (i128, CanonicalOnsetClusterView)| p.1),
        forall|a: int, b: int| 0 <= a <= b < r@.len() ==> r@[a].beat <= r@[b].beat,
{
    let ms = &diagnostics.matched_onset_clusters;
    let ghost beats = event_beats(events@);
    let mut items: Vec<(i128, CanonicalOnsetCluster)> = Vec::new();
    let mut j: usize = 0;
    while j < ms.len()
        invariant
            0 <= j <= ms@.len(),
            beats == event_beats(events@),
            forall|k: int| 0 <= k < events@.len() ==> 0 <= #[trigger] events@[k].beat <= 0x2_0000_0000_0000_0000_0000_0000,
            keyed_cluster_views(items@) == cluster_entries(ms@.take(j as int), beats),
            forall|q: int| 0 <= q < items@.len() ==> #[trigger] items@[q].0 == items@[q].1.beat,
        decreases ms@.len() - j,
    {
        let mc = &ms[j];
        let beat = mc.cluster.beat;
        let mut indices: Vec<usize> = Vec::new();
        let mut k: usize = 0;
        while k < events.len()
            invariant
                0 <= k <= events@.len(),
                beats == event_beats(events@),
                forall|q: int| 0 <= q < events@.len() ==> 0 <= #[trigger] events@[q].beat <= 0x2_0000_0000_0000_0000_0000_0000,
                indices@ == near_indices(beats.take(k as int), beat as int),
            decreases events@.len() - k,
        {
            let b = events[k].beat;
            assert(beats.take(k + 1).drop_last() =~= beats.take(k as int));
            assert(beats.take(k + 1).last() == b);
            if b - CLUSTER_EPSILON <= beat && beat <= b + CLUSTER_EPSILON {
                indices.push(k);
            }
            k = k + 1;
        }
        assert(beats.take(events@.len() as int) =~= beats);
        let confidence: u16 = if mc.observed_beat.is_some() { 1000 } else { 0 };
        let c = CanonicalOnsetCluster {
            beat,
            event_indices: indices,
            expected_strength_permille: mc.cluster.expected_strength_permille,
            confidence_permille: confidence,
        };
        let ghost old_items = items@;
        items.push((beat, c));
        assert(keyed_cluster_views(items@) =~= keyed_cluster_views(old_items).push((beat, c@)));
        assert(cluster_entries(ms@.take(j + 1), beats) =~= cluster_entries(ms@.take(j as int), beats).push(
            (beat, c@),
        ));
        j = j + 1;
    }
    assert(ms@.take(ms@.len() as int) =~= ms@);
    let ghost unsorted = items@;
    let ghost f = |c: CanonicalOnsetCluster| c@;
    assert(map_payload(unsorted, f) =~= keyed_cluster_views(unsorted));
    let sorted = sort_by_key_stable(items);
    proof {
        broadcast use vstd::seq_lib::group_to_multiset_ensures;

        lemma_sort_map_payload(unsorted, f);
        assert forall|k: int| 0 <= k < sorted@.len() implies #[trigger] sorted@[k].0 == sorted@[k].1.beat by {
            assert(sorted@.to_multiset().count(sorted@[k]) > 0);
            assert(unsorted.to_multiset().count(sorted@[k]) > 0);
            assert(unsorted.contains(sorted@[k]));
        }
    }
    let clusters = payloads(sorted);
    assert(clusters_view(clusters@) =~= map_payload(sorted@, f).map_values(|p: (i128, CanonicalOnsetClusterView)| p.1));
    assert forall|a: int, b: int| 0 <= a <= b < clusters@.len() implies clusters@[a].beat <= clusters@[b].beat by {
        assert(clusters@[a] == sorted@[a].1);
        assert(clusters@[b] == sorted@[b].1);
        assert(sorted@[a].0 == sorted@[a].1.beat);
        assert(sorted@[b].0 == sorted@[b].1.beat);
    }
    clusters
}

/// `c` describes source `s`: its identifier, its path and its length.
pub open spec fn describes_source(c: CanonicalSource, s: MidiSource) -> bool {
    &&& c.id@ == s.id.0@
    &&& c.path@ == s.path@
    &&& c.length_beats == tick_microbeats(s.length_ticks as int, s.ppq as int)
}

/// `l` is the layer of source `s` at `index` placed at `offset`: it starts at
/// the offset held at 0 or later, and lasts as long as the source.
pub open spec fn describes_layer(l: CanonicalLayer, index: int, s: MidiSource, offset: i128) -> bool {
    &&& l.id@ == layer_label(index)
    &&& l.source_id@ == s.id.0@
    &&& l.start_beat == layer_start(offset)
    &&& l.end_beat == layer_start(offset) + tick_microbeats(s.length_ticks as int, s.ppq as int)
    &&& l.source_start_beat == 0
}

/// Build a `CanonicalPlaybackReference` from a completed arrangement.
///
/// - `name`: human-readable name for this fixture (e.g. "my_drum_pattern").
/// - `sources`: MIDI source files in the arrangement.
/// - `offsets`: position of each source on the global timeline, in
///   microbeats (parallel to `sources`; a source without an offset gets no
///   layer).
/// - `bpm`, `time_signature`: the arrangement's tempo and metre.
/// - `diagnostics`: pre-computed alignment diagnostics.
/// - `audio_path`: the reference audio file (for provenance metadata).
/// - `version`: the version of this library, recorded as the generator.
///
/// Events are listed in global beat order, events at the same beat in layer
/// order; onset clusters likewise in beat order.
pub fn build_canonical(
    name: &str,
    sources: &[MidiSource],
    offsets: &[i128],
    bpm: Bpm,
    time_signature: TimeSignature,
    diagnostics: &AlignmentDiagnostics,
    audio_path: &str,
    version: &str,
) -> (r: CanonicalPlaybackReference)
    requires
        placement_ok(sources@, offsets@),
    ensures
        r.schema_version@ == "0.1"@,
        r.name@ == name@,
        r.musical_context.bpm == bpm,
        r.musical_context.time_signature@ == seq![time_signature.numerator, time_signature.denominator],
        r.musical_context.ppq == if sources@.len() > 0 { sources@[0].ppq } else { DEFAULT_PPQ },
        r.sources@.len() == sources@.len(),
        forall|i: int| 0 <= i < sources@.len() ==> describes_source(#[trigger] r.sources@[i], sources@[i]),
        r.layers@.len() == layer_count(sources@, offsets@),
        forall|i: int|
            0 <= i < r.layers@.len() ==> describes_layer(#[trigger] r.layers@[i], i, sources@[i], offsets@[i]),
        events_view(r.events@) == stable_sort_by_key(
            placed_events(sources@, offsets@, layer_count(sources@, offsets@) as nat),
        ).map_values(|p: (i128, CanonicalEventView)| p.1),
        clusters_view(r.onset_clusters@) == stable_sort_by_key(
            cluster_entries(diagnostics.matched_onset_clusters@, event_beats(r.events@)),
        ).map_values(|p: (i128, CanonicalOnsetClusterView)| p.1),
        r.provenance.generated_by@ == "onset-matcher "@ + version@,
        r.provenance.source_audio@ == audio_path@,
        r.provenance.matched_clusters == diagnostics.matched_clusters,
        r.provenance.total_clusters == diagnostics.total_clusters,
        r.provenance.review_status@ == "auto"@,
        forall|a: int, b: int| 0 <= a <= b < r.events@.len() ==> r.events@[a].beat <= r.events@[b].beat,
        forall|a: int, b: int| 0 <= a <= b < r.onset_clusters@.len() ==> r.onset_clusters@[a].beat
            <= r.onset_clusters@[b].beat,
{
    let mut canonical_sources: Vec<CanonicalSource> = Vec::new();
    let mut i: usize = 0;
    while i < sources.len()
        invariant
            0 <= i <= sources@.len(),
            placement_ok(sources@, offsets@),
            canonical_sources@.len() == i,
            forall|k: int| 0 <= k < i ==> describes_source(#[trigger] canonical_sources@[k], sources@[k]),
        decreases sources@.len() - i,
    {
        let source = &sources[i];
        assert(sources@[i as int].ppq > 0);
        canonical_sources.push(
            CanonicalSource {
                id: source.id.0.clone(),
                path: source.path.clone(),
                length_beats: source.length_microbeats(),
            },
        );
        i = i + 1;
    }

    let n = if sources.len() < offsets.len() { sources.len() } else { offsets.len() };
    let mut layers: Vec<CanonicalLayer> = Vec::new();
    let mut i: usize = 0;
    while i < n
        invariant
            0 <= i <= n,
            n == layer_count(sources@, offsets@),
            placement_ok(sources@, offsets@),
            layers@.len() == i,
            forall|k: int| 0 <= k < i ==> describes_layer(#[trigger] layers@[k], k, sources@[k], offsets@[k]),
        decreases n - i,
    {
        let source = &sources[i];
        let offset = offsets[i];
        assert(sources@[i as int].ppq > 0);
        assert(position_ok(offsets@[i as int] as int));
        let start: i128 = if offset > 0 { offset } else { 0 };
        let length = source.length_microbeats();
        assert(length <= 0x1_0000_0000_0000_0000 * 1_000_000 + 1) by (nonlinear_arith)
            requires
                length == tick_microbeats(source.length_ticks as int, source.ppq as int),
                source.ppq > 0,
                source.length_ticks <= 0xffff_ffff_ffff_ffff,
        ;
        layers.push(
            CanonicalLayer {
                id: layer_id(i),
                source_id: source.id.0.clone(),
                start_beat: start,
                end_beat: start + length,
                source_start_beat: 0,
            },
        );
        i = i + 1;
    }

    let events = canonical_events(sources, offsets);
    let onset_clusters = canonical_clusters(&events, diagnostics);
    let ppq = if sources.len() > 0 { sources[0].ppq } else { DEFAULT_PPQ };
    let musical_context = CanonicalMusicalContext {
        bpm,
        time_signature: [time_signature.numerator, time_signature.denominator],
        ppq,
    };
    let mut generated_by = "onset-matcher ".to_owned();
    generated_by.append(version);
    let provenance = ReferenceProvenance {
        generated_by,
        source_audio: audio_path.to_owned(),
        matched_clusters: diagnostics.matched_clusters,
        total_clusters: diagnostics.total_clusters,
        review_status: "auto".to_owned(),
    };
    CanonicalPlaybackReference {
        schema_version: "0.1".to_owned(),
        name: name.to_owned(),
        musical_context,
        sources: canonical_sources,
        layers,
        events,
        onset_clusters,
        provenance,
    }
}

// ---------------------------------------------------------------------------
// Laws
// ---------------------------------------------------------------------------

/// The positions listed by `near_indices` are exactly the indices of the
/// beats within `CLUSTER_EPSILON` of `beat`.
proof fn lemma_near_indices_members(beats: Seq<i128>, beat: int)
    requires
        beats.len() <= usize::MAX,
    ensures
        forall|i: int| 0 <= i < near_indices(beats, beat).len() ==> #[trigger] near_indices(beats, beat)[i] < beats.len(),
        forall|k: int|
            0 <= k < beats.len() ==> (near_indices(beats, beat).contains(k as usize) <==> distance(
                #[trigger] beats[k] as int,
                beat,
            ) <= CLUSTER_EPSILON),
    decreases beats.len(),
{
    if beats.len() > 0 {
        let d = beats.drop_last();
        let before = near_indices(d, beat);
        let now = near_indices(beats, beat);
        lemma_near_indices_members(d, beat);
        let last = (beats.len() - 1) as usize;
        assert forall|i: int| 0 <= i < now.len() implies #[trigger] now[i] < beats.len() by {
            if i < before.len() {
                assert(now[i] == before[i]);
            }
        }
        assert forall|k: int| 0 <= k < beats.len() implies (now.contains(k as usize) <==> distance(
            #[trigger] beats[k] as int,
            beat,
        ) <= CLUSTER_EPSILON) by {
            if k < beats.len() - 1 {
                assert(d[k] == beats[k]);
                if now.contains(k as usize) {
                    let i = choose|i: int| 0 <= i < now.len() && now[i] == k as usize;
                    if i < before.len() {
                        assert(before[i] == now[i]);
                    }
                }
                if before.contains(k as usize) {
                    let i = choose|i: int| 0 <= i < before.len() && before[i] == k as usize;
                    assert(now[i] == before[i]);
                }
            } else {
                if now.contains(k as usize) {
                    let i = choose|i: int| 0 <= i < now.len() && now[i] == k as usize;
                    if i < before.len() {
                        assert(before[i] < d.len());
                    }
                }
                if distance(beats[k] as int, beat) <= CLUSTER_EPSILON {
                    assert(now[before.len() as int] == last);
                }
            }
        }
    }
}

/// Every canonical onset cluster stands for one cluster of the diagnostics
/// and every diagnostics cluster has one: it lies at that cluster's grid
/// position (not at the onset it was matched to), lists exactly the events
/// within `CLUSTER_EPSILON` of that position, keeps its expected strength,
/// and has full confidence exactly when it was matched.
pub proof fn lemma_onset_clusters_at_grid_beats(r: CanonicalPlaybackReference, diagnostics: AlignmentDiagnostics)
    requires
        clusters_view(r.onset_clusters@) == stable_sort_by_key(
            cluster_entries(diagnostics.matched_onset_clusters@, event_beats(r.events@)),
        ).map_values(|p: (i128, CanonicalOnsetClusterView)| p.1),
        r.events@.len() <= usize::MAX,
    ensures
        r.onset_clusters@.len() == diagnostics.matched_onset_clusters@.len(),
        forall|a: int|
            0 <= a < r.onset_clusters@.len() ==> exists|j: int|
                0 <= j < diagnostics.matched_onset_clusters@.len() && stands_for(
                    #[trigger] r.onset_clusters@[a],
                    diagnostics.matched_onset_clusters@[j],
                    r.events@,
                ),
        forall|j: int|
            0 <= j < diagnostics.matched_onset_clusters@.len() ==> exists|a: int|
                0 <= a < r.onset_clusters@.len() && stands_for(
                    r.onset_clusters@[a],
                    #[trigger] diagnostics.matched_onset_clusters@[j],
                    r.events@,
                ),
{
    broadcast use vstd::seq_lib::group_to_multiset_ensures;

    let ms = diagnostics.matched_onset_clusters@;
    let beats = event_beats(r.events@);
    let entries = cluster_entries(ms, beats);
    let sorted = stable_sort_by_key(entries);
    let cs = r.onset_clusters@;
    lemma_stable_sort(entries);
    assert(clusters_view(cs).len() == sorted.len());
    assert forall|j: int| 0 <= j < ms.len() implies stands_for_view(#[trigger] entries[j].1, ms[j], r.events@) by {
        lemma_near_indices_members(beats, ms[j].cluster.beat as int);
        assert forall|k: int| 0 <= k < r.events@.len() implies (entries[j].1.1.contains(k as usize) <==> distance(
            #[trigger] r.events@[k].beat as int,
            ms[j].cluster.beat as int,
        ) <= CLUSTER_EPSILON) by {
            assert(beats[k] == r.events@[k].beat);
        }
        assert forall|i: int| 0 <= i < entries[j].1.1.len() implies #[trigger] entries[j].1.1[i] < r.events@.len() by {
        }
    }
    assert forall|a: int| 0 <= a < cs.len() implies exists|j: int|
        0 <= j < ms.len() && stands_for(#[trigger] cs[a], ms[j], r.events@) by {
        assert(sorted.to_multiset().count(sorted[a]) > 0);
        assert(entries.contains(sorted[a]));
        let j = choose|j: int| 0 <= j < entries.len() && entries[j] == sorted[a];
        assert(clusters_view(cs)[a] == cs[a]@);
        assert(stands_for_view(entries[j].1, ms[j], r.events@));
    }
    assert forall|j: int| 0 <= j < ms.len() implies exists|a: int|
        0 <= a < cs.len() && stands_for(cs[a], #[trigger] ms[j], r.events@) by {
        assert(entries.to_multiset().count(entries[j]) > 0);
        assert(sorted.contains(entries[j]));
        let a = choose|a: int| 0 <= a < sorted.len() && sorted[a] == entries[j];
        assert(clusters_view(cs)[a] == cs[a]@);
        assert(stands_for_view(entries[j].1, ms[j], r.events@));
    }
}

/// The canonical cluster `c` stands for the diagnostics cluster `m`: it is at
/// `m`'s grid position, lists the indices of exactly the events within
/// `CLUSTER_EPSILON` of it, keeps `m`'s expected strength, and is fully
/// confident exactly when `m` was matched.
pub open spec fn stands_for(c: CanonicalOnsetCluster, m: MatchedOnsetCluster, events: Seq<CanonicalEvent>) -> bool {
    stands_for_view(c@, m, events)
}

/// `stands_for`, on the view of a canonical cluster.
pub open spec fn stands_for_view(c: CanonicalOnsetClusterView, m: MatchedOnsetCluster, events: Seq<CanonicalEvent>) -> bool {
    &&& c.0 == m.cluster.beat
    &&& forall|i: int| 0 <= i < c.1.len() ==> #[trigger] c.1[i] < events.len()
    &&& forall|k: int|
        0 <= k < events.len() ==> (c.1.contains(k as usize) <==> distance(
            #[trigger] events[k].beat as int,
            m.cluster.beat as int,
        ) <= CLUSTER_EPSILON)
    &&& c.2 == m.cluster.expected_strength_permille
    &&& c.3 == if m.observed_beat is Some { 1000u16 } else { 0u16 }
}

/// No note of `s` starts after the end of the source.
pub open spec fn notes_within_length(s: MidiSource) -> bool {
    forall|i: int| 0 <= i < s.events@.len() ==> #[trigger] s.events@[i].tick <= s.length_ticks
}

/// The keyed event `e` lies within layer `i`: it carries the layer's
/// identifier and its beat is between the layer's start and end.
pub open spec fn within_layer(
    e: (i128, CanonicalEventView),
    sources: Seq<MidiSource>,
    offsets: Seq<i128>,
    i: int,
) -> bool {
    &&& e.1.2 == layer_label(i)
    &&& layer_start(offsets[i]) <= e.0
    &&& e.0 <= layer_start(offsets[i]) + tick_microbeats(sources[i].length_ticks as int, sources[i].ppq as int)
}

/// The keyed event `e` lies within one of the first `n` layers.
pub open spec fn within_some_layer(e: (i128, CanonicalEventView), sources: Seq<MidiSource>, offsets: Seq<i128>, n: int) -> bool {
    exists|i: int| 0 <= i < n && #[trigger] within_layer(e, sources, offsets, i)
}

proof fn lemma_tick_microbeats_monotone(a: int, b: int, ppq: int)
    requires
        0 <= a <= b,
        ppq > 0,
    ensures
        0 <= tick_microbeats(a, ppq) <= tick_microbeats(b, ppq),
{
    let d = 2 * ppq;
    assert(2 * (a * 1_000_000) + ppq <= 2 * (b * 1_000_000) + ppq) by (nonlinear_arith)
        requires a <= b;
    assert(0 <= 2 * (a * 1_000_000) + ppq) by (nonlinear_arith)
        requires 0 <= a, ppq > 0;
    vstd::arithmetic::div_mod::lemma_div_is_ordered(
        2 * (a * 1_000_000) + ppq,
        2 * (b * 1_000_000) + ppq,
        d,
    );
    vstd::arithmetic::div_mod::lemma_div_pos_is_pos(2 * (a * 1_000_000) + ppq, d);
}

proof fn lemma_placed_within_layers(sources: Seq<MidiSource>, offsets: Seq<i128>, n: nat)
    requires
        placement_ok(sources, offsets),
        n <= layer_count(sources, offsets),
        forall|i: int| 0 <= i < sources.len() ==> notes_within_length(#[trigger] sources[i]),
    ensures
        forall|k: int|
            0 <= k < placed_events(sources, offsets, n).len() ==> within_some_layer(
                #[trigger] placed_events(sources, offsets, n)[k],
                sources,
                offsets,
                n as int,
            ),
    decreases n,
{
    if n > 0 {
        let m = (n - 1) as nat;
        lemma_placed_within_layers(sources, offsets, m);
        let before = placed_events(sources, offsets, m);
        let here = layer_events(sources[m as int], m as int, offsets[m as int]);
        let all = placed_events(sources, offsets, n);
        assert(all == before + here);
        assert forall|k: int| 0 <= k < all.len() implies within_some_layer(#[trigger] all[k], sources, offsets, n as int) by {
            if k < before.len() {
                assert(all[k] == before[k]);
                assert(within_some_layer(before[k], sources, offsets, m as int));
                let i = choose|i: int| 0 <= i < m && #[trigger] within_layer(before[k], sources, offsets, i);
                assert(within_layer(all[k], sources, offsets, i));
            } else {
                let e = k - before.len();
                let s = sources[m as int];
                assert(all[k] == here[e]);
                assert(notes_within_length(s));
                assert(s.events@[e].tick <= s.length_ticks);
                assert(s.ppq > 0);
                assert(position_ok(offsets[m as int] as int));
                lemma_tick_microbeats_monotone(s.events@[e].tick as int, s.length_ticks as int, s.ppq as int);
                assert(tick_microbeats(s.length_ticks as int, s.ppq as int) <= 0x1_0000_0000_0000_0000 * 1_000_000 + 1)
                    by (nonlinear_arith)
                    requires
                        s.ppq > 0,
                        s.length_ticks <= 0xffff_ffff_ffff_ffff,
                ;
                assert(within_layer(all[k], sources, offsets, m as int));
            }
        }
    }
}

/// Every canonical event lies within its layer: it carries the identifier
/// of a layer, and its beat falls between that layer's start and end, when
/// no note of a source starts after the source's end (as holds of loaded
/// sources).
pub proof fn lemma_events_within_layers(sources: Seq<MidiSource>, offsets: Seq<i128>)
    requires
        placement_ok(sources, offsets),
        forall|i: int| 0 <= i < sources.len() ==> notes_within_length(#[trigger] sources[i]),
    ensures
        ({
            let events = stable_sort_by_key(placed_events(sources, offsets, layer_count(sources, offsets) as nat));
            forall|k: int|
                0 <= k < events.len() ==> within_some_layer(#[trigger] events[k], sources, offsets, layer_count(sources, offsets))
        }),
{
    broadcast use vstd::seq_lib::group_to_multiset_ensures;

    let n = layer_count(sources, offsets) as nat;
    let placed = placed_events(sources, offsets, n);
    let events = stable_sort_by_key(placed);
    lemma_placed_within_layers(sources, offsets, n);
    crate::sorting::lemma_stable_sort(placed);
    assert forall|k: int| 0 <= k < events.len() implies within_some_layer(
        #[trigger] events[k],
        sources,
        offsets,
        layer_count(sources, offsets),
    ) by {
        assert(events.to_multiset().count(events[k]) > 0);
        assert(placed.to_multiset().count(events[k]) > 0);
        assert(placed.contains(events[k]));
        let q = choose|q: int| 0 <= q < placed.len() && placed[q] == events[k];
        assert(within_some_layer(placed[q], sources, offsets, n as int));
    }
}

} // verus!
