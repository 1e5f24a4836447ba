//! Cluster-matching diagnostics.
//!
//! Computes quality metrics by matching expected onset clusters (derived from
//! the MIDI arrangement) against observed audio onsets (in beat space).
//! Positions are in microbeats.
use vstd::prelude::*;
use crate::domain::expected::ExpectedOnsetCluster;
use crate::domain::midi::{MidiEvent, MidiSource, distance, insert_note, strictly_increasing};
use crate::domain::result::{AlignmentDiagnostics, AlignmentWarning, MatchedOnsetCluster};
use crate::domain::time::{TimeSignature, MICROBEATS_PER_BEAT, round_div, tick_microbeats, ticks_to_microbeats};
use crate::sorting::{sort_values, values_sorted};
use std::collections::BTreeMap;
use vstd::std_specs::iter::IteratorSpec;
use vstd::std_specs::cmp::OrdSpec;

verus! {

broadcast use vstd::std_specs::btree::group_btree_axioms, vstd::laws_cmp::group_laws_cmp;

// ---------------------------------------------------------------------------
// The subdivision grid
// ---------------------------------------------------------------------------

/// Number of subdivision cells per bar: `bar / subdivision`, rounded.
pub open spec fn cells_per_bar(bar: int, subdivision: int) -> int {
    round_div(bar, subdivision)
}

/// The cell count used to number cells: at least one.
pub open spec fn cell_radix(bar: int, subdivision: int) -> int {
    if cells_per_bar(bar, subdivision) > 0 { cells_per_bar(bar, subdivision) } else { 1 }
}

/// Index of the bar of a non-negative position, held at `usize::MAX`. With
/// bars of length 0 the start of the timeline is bar 0 and every later
/// position lies in bar `usize::MAX`.
pub open spec fn bar_index(position: int, bar: int) -> int {
    if bar > 0 {
        if position / bar < usize::MAX { position / bar } else { usize::MAX as int }
    } else if position == 0 {
        0
    } else {
        usize::MAX as int
    }
}

/// Subdivision cell of a non-negative position within its bar: the nearest
/// subdivision, held below the bar's cell count (cell 0 where bars have
/// length 0).
pub open spec fn cell_in_bar(position: int, bar: int, subdivision: int) -> int {
    if bar > 0 {
        let raw = round_div(position % bar, subdivision);
        if raw < cell_radix(bar, subdivision) - 1 { raw } else { cell_radix(bar, subdivision) - 1 }
    } else {
        0
    }
}

/// Number of the grid cell of a non-negative position: its bar, then its
/// subdivision cell within the bar. Cells are ordered as (bar, cell) pairs.
pub open spec fn cell_key(position: int, bar: int, subdivision: int) -> int {
    bar_index(position, bar) * cell_radix(bar, subdivision) + cell_in_bar(position, bar, subdivision)
}

/// The nominal position of a grid cell: the start of its bar plus its
/// subdivisions.
pub open spec fn cell_position(key: int, bar: int, subdivision: int) -> int {
    (key / cell_radix(bar, subdivision)) * bar + (key % cell_radix(bar, subdivision)) * subdivision
}

/// Bounds under which grid arithmetic stays within range.
pub open spec fn grid_ok(bar: i128, subdivision: i128) -> bool {
    &&& 0 <= bar <= 255 * MICROBEATS_PER_BEAT
    &&& 0 < subdivision <= 0x1000_0000_0000_0000
}

/// Bound on timeline positions handled by the diagnostics.
pub open spec fn position_ok(x: int) -> bool {
    -0x1_0000_0000_0000_0000_0000_0000 <= x <= 0x1_0000_0000_0000_0000_0000_0000
}

/// Grid cell and nominal position of a position, computed exactly as the
/// spec functions state.
fn grid_cell(position: i128, bar: i128, subdivision: i128) -> (r: (i128, i128))
    requires
        grid_ok(bar, subdivision),
        0 <= position <= 0x4_0000_0000_0000_0000_0000_0000,
    ensures
        r.0 == cell_key(position as int, bar as int, subdivision as int),
        r.1 == cell_position(r.0 as int, bar as int, subdivision as int),
        0 <= r.0 <= 0x10_0000_0000_0000_0000_0000_0000,
        0 <= r.1 <= 0x8_0000_0000_0000_0000_0000_0000,
{
    let cells = (2 * bar + subdivision) / (2 * subdivision);
    let radix: i128 = if cells > 0 { cells } else { 1 };
    if bar == 0 {
        assert(cells == 0) by (nonlinear_arith)
            requires
                cells == (2 * bar + subdivision) / (2 * subdivision),
                bar == 0,
                subdivision > 0,
        ;
        let key: i128 = if position == 0 { 0 } else { usize::MAX as i128 };
        assert(cell_radix(0, subdivision as int) == 1);
        assert(key * 1 == key && key % 1 == 0 && key / 1 == key) by (nonlinear_arith);
        assert(cell_key(position as int, 0, subdivision as int) == key);
        assert(cell_position(key as int, 0, subdivision as int) == 0) by (nonlinear_arith)
            requires
                key % 1 == 0,
                key / 1 == key,
                cell_radix(0, subdivision as int) == 1,
        ;
        return (key, 0);
    }
    assert(radix <= bar + 1) by (nonlinear_arith)
        requires
            cells == (2 * bar + subdivision) / (2 * subdivision),
            subdivision > 0,
            bar > 0,
            radix == if cells > 0 { cells } else { 1 },
    ;
    let quotient = position / bar;
    let bar_index: i128 = if quotient < usize::MAX as i128 { quotient } else { usize::MAX as i128 };
    let within = position % bar;
    let raw = (2 * within + subdivision) / (2 * subdivision);
    let sub = if raw < radix - 1 { raw } else { radix - 1 };
    assert(0 <= raw) by (nonlinear_arith)
        requires
            raw == (2 * within + subdivision) / (2 * subdivision),
            subdivision > 0,
            within >= 0,
    ;
    assert(0 <= quotient && bar_index * radix <= position * 2 && bar_index * bar <= position) by (nonlinear_arith)
        requires
            quotient == position / bar,
            0 <= bar_index <= quotient,
            position >= 0,
            bar > 0,
            radix <= bar + 1,
            radix >= 1,
    ;
    let key = bar_index * radix + sub;
    proof {
        vstd::arithmetic::div_mod::lemma_fundamental_div_mod_converse(
            key as int,
            radix as int,
            bar_index as int,
            sub as int,
        );
    }
    assert(0 <= sub * subdivision <= bar * 0x1000_0000_0000_0000) by (nonlinear_arith)
        requires
            0 <= sub < radix,
            radix <= bar + 1,
            0 < subdivision <= 0x1000_0000_0000_0000,
            bar > 0,
    ;
    assert(bar * 0x1000_0000_0000_0000 <= 0x1000_0000 * 0x1000_0000_0000_0000) by (nonlinear_arith)
        requires 0 < bar <= 0x1000_0000;
    assert(0 <= bar_index * bar) by (nonlinear_arith)
        requires bar_index >= 0, bar > 0;
    (key, bar_index * bar + sub * subdivision)
}

// ---------------------------------------------------------------------------
// Enumerating the expected events
// ---------------------------------------------------------------------------

/// The offset of source `i`: its entry in `offsets`, or 0 where `offsets`
/// has none.
pub open spec fn source_offset(offsets: Seq<i128>, i: int) -> int {
    if 0 <= i < offsets.len() { offsets[i] as int } else { 0 }
}

/// Global positions of the events of one source placed at `offset`.
pub open spec fn source_positions(source: MidiSource, offset: int) -> Seq<int> {
    Seq::new(
        source.events@.len(),
        |e: int| tick_microbeats(source.events@[e].tick as int, source.ppq as int) + offset,
    )
}

/// Global positions of the events of all sources, source after source: the
/// global event enumeration.
pub open spec fn event_positions(sources: Seq<MidiSource>, offsets: Seq<i128>) -> Seq<int>
    decreases sources.len(),
{
    if sources.len() == 0 {
        seq![]
    } else {
        event_positions(sources.drop_last(), offsets) + source_positions(
            sources.last(),
            source_offset(offsets, sources.len() - 1),
        )
    }
}

/// The events that fall on the grid (non-negative positions), each as the
/// number of its grid cell and its index in the enumeration.
pub open spec fn cell_entries(positions: Seq<int>, bar: int, subdivision: int) -> Seq<(int, int)>
    decreases positions.len(),
{
    if positions.len() == 0 {
        seq![]
    } else {
        let before = cell_entries(positions.drop_last(), bar, subdivision);
        let p = positions.last();
        if p < 0 {
            before
        } else {
            before.push((cell_key(p, bar, subdivision), positions.len() - 1))
        }
    }
}

/// Integer view of grid entries (cell number, cell position, index): the
/// cell numbers and indices.
pub open spec fn entries_view(entries: Seq<(i128, i128, usize)>) -> Seq<(int, int)> {
    Seq::new(entries.len(), |i: int| (entries[i].0 as int, entries[i].2 as int))
}

/// Each entry carries the nominal position of its cell, within range.
pub open spec fn entries_placed(entries: Seq<(i128, i128, usize)>, bar: int, subdivision: int) -> bool {
    forall|t: int|
        0 <= t < entries.len() ==> #[trigger] entries[t].1 == cell_position(entries[t].0 as int, bar, subdivision)
            && 0 <= entries[t].1 <= 0x8_0000_0000_0000_0000_0000_0000 && 0 <= entries[t].0
}

/// All sources have a tick resolution and positions fit the grid arithmetic.
pub open spec fn sources_ok(sources: Seq<MidiSource>, offsets: Seq<i128>) -> bool {
    &&& forall|i: int| 0 <= i < sources.len() ==> #[trigger] sources[i].ppq > 0
    &&& forall|i: int| 0 <= i < offsets.len() ==> position_ok(#[trigger] offsets[i] as int)
    &&& event_positions(sources, offsets).len() <= usize::MAX
}

proof fn lemma_event_positions_prefix(sources: Seq<MidiSource>, offsets: Seq<i128>, i: int)
    requires
        0 <= i < sources.len(),
    ensures
        event_positions(sources.take(i), offsets).len() + sources[i].events@.len()
            <= event_positions(sources, offsets).len(),
        event_positions(sources.take(i + 1), offsets) == event_positions(sources.take(i), offsets)
            + source_positions(sources[i], source_offset(offsets, i)),
    decreases sources.len(),
{
    assert(sources.take(i + 1).drop_last() =~= sources.take(i));
    if i + 1 < sources.len() {
        lemma_event_positions_prefix(sources.drop_last(), offsets, i);
        assert(sources.drop_last().take(i) =~= sources.take(i));
        assert(sources.drop_last().take(i + 1) =~= sources.take(i + 1));
    } else {
        assert(sources.take(i + 1) =~= sources);
    }
}

/// Lists the events that fall on the grid, each as the number and nominal
/// position of its cell and its index in the global event enumeration.
fn grid_entries(sources: &[MidiSource], offsets: &[i128], bar: i128, subdivision: i128) -> (r: Vec<(i128, i128, usize)>)
    requires
        grid_ok(bar, subdivision),
        sources_ok(sources@, offsets@),
    ensures
        entries_view(r@) == cell_entries(event_positions(sources@, offsets@), bar as int, subdivision as int),
        entries_placed(r@, bar as int, subdivision as int),
{
    let mut entries: Vec<(i128, i128, usize)> = Vec::new();
    let mut counter: usize = 0;
    let mut i: usize = 0;
    while i < sources.len()
        invariant
            0 <= i <= sources@.len(),
            grid_ok(bar, subdivision),
            sources_ok(sources@, offsets@),
            counter == event_positions(sources@.take(i as int), offsets@).len(),
            entries_view(entries@) == cell_entries(
                event_positions(sources@.take(i as int), offsets@),
                bar as int,
                subdivision as int,
            ),
            entries_placed(entries@, bar as int, subdivision as int),
        decreases sources@.len() - i,
    {
        let source = &sources[i];
        let offset: i128 = if i < offsets.len() { offsets[i] } else { 0 };
        let ghost before = event_positions(sources@.take(i as int), offsets@);
        let ghost here = source_positions(sources@[i as int], source_offset(offsets@, i as int));
        proof {
            lemma_event_positions_prefix(sources@, offsets@, i as int);
            assert(sources@[i as int].ppq > 0);
        }
        let mut e: usize = 0;
        while e < source.events.len()
            invariant
                0 <= e <= source.events@.len(),
                i < sources@.len(),
                *source == sources@[i as int],
                source.ppq > 0,
                offset == source_offset(offsets@, i as int),
                position_ok(offset as int),
                grid_ok(bar, subdivision),
                here == source_positions(*source, offset as int),
                before.len() + source.events@.len() <= usize::MAX,
                counter == before.len() + e,
                entries_view(entries@) == cell_entries(before + here.take(e as int), bar as int, subdivision as int),
                entries_placed(entries@, bar as int, subdivision as int),
            decreases source.events@.len() - e,
        {
            let ghost ps = before + here.take(e as int);
            let local = ticks_to_microbeats(source.events[e].tick, source.ppq);
            assert(local <= 0x1_0000_0000_0000_0000 * 1_000_000 + 1) by (nonlinear_arith)
                requires
                    local == tick_microbeats(source.events@[e as int].tick as int, source.ppq as int),
                    source.ppq > 0,
                    source.events@[e as int].tick <= 0xffff_ffff_ffff_ffff,
            ;
            let global = local + offset;
            assert(ps.push(global as int) =~= before + here.take(e + 1));
            assert((before + here.take(e + 1)).drop_last() =~= ps);
            if global >= 0 {
                let (key, cell) = grid_cell(global, bar, subdivision);
                let ghost old_entries = entries@;
                entries.push((key, cell, counter));
                assert(entries_view(entries@) =~= entries_view(old_entries).push((key as int, counter as int)));
            }
            counter = counter + 1;
            e = e + 1;
        }
        assert(here.take(source.events@.len() as int) =~= here);
        i = i + 1;
    }
    assert(sources@.take(sources@.len() as int) =~= sources@);
    entries
}

// ---------------------------------------------------------------------------
// Grouping the events into clusters
// ---------------------------------------------------------------------------

/// Enumeration indices of the entries in cell `beat`, in entry order.
pub open spec fn members_at(entries: Seq<(int, int)>, beat: int) -> Seq<int>
    decreases entries.len(),
{
    if entries.len() == 0 {
        seq![]
    } else {
        let before = members_at(entries.drop_last(), beat);
        if entries.last().0 == beat {
            before.push(entries.last().1)
        } else {
            before
        }
    }
}

/// Integer view of a list of indices.
pub open spec fn indices_view(v: Seq<usize>) -> Seq<int> {
    v.map_values(|x: usize| x as int)
}

/// `clusters` groups `entries` by cell, each cluster's `beat` holding its
/// cell number: one cluster per cell, in increasing cell order, each holding
/// the indices of its entries in entry order, at full strength.
spec fn key_groups(clusters: Seq<ExpectedOnsetCluster>, entries: Seq<(int, int)>) -> bool {
    &&& forall|j: int, k: int| 0 <= j < k < clusters.len() ==> clusters[j].beat < clusters[k].beat
    &&& forall|j: int|
        0 <= j < clusters.len() ==> {
            &&& indices_view(#[trigger] clusters[j].event_indices@) == members_at(entries, clusters[j].beat as int)
            &&& clusters[j].event_indices@.len() > 0
            &&& clusters[j].expected_strength_permille == 1000
        }
    &&& forall|t: int| 0 <= t < entries.len() ==> #[trigger] grouped_key(clusters, entries[t].0)
}

/// Some cluster holds cell number `key`.
spec fn grouped_key(clusters: Seq<ExpectedOnsetCluster>, key: int) -> bool {
    exists|j: int| 0 <= j < clusters.len() && clusters[j].beat == key
}

proof fn lemma_members_absent(entries: Seq<(int, int)>, beat: int)
    requires
        forall|s: int| 0 <= s < entries.len() ==> #[trigger] entries[s].0 != beat,
    ensures
        members_at(entries, beat) == Seq::<int>::empty(),
    decreases entries.len(),
{
    if entries.len() > 0 {
        let d = entries.drop_last();
        assert forall|s: int| 0 <= s < d.len() implies #[trigger] d[s].0 != beat by {
            assert(d[s] == entries[s]);
        }
        lemma_members_absent(d, beat);
        assert(entries.last() == entries[entries.len() - 1]);
    }
}

/// The cells of the first `t` entries, each with the indices of its entries.
spec fn cells_hold(cells: Map<i128, Vec<usize>>, entries: Seq<(int, int)>) -> bool {
    &&& forall|k: i128| #[trigger] cells.contains_key(k) ==> indices_view(cells[k]@) == members_at(entries, k as int)
        && cells[k]@.len() > 0
    &&& forall|t: int| 0 <= t < entries.len() ==> cells.contains_key(#[trigger] entries[t].0 as i128)
    &&& forall|t: int| 0 <= t < entries.len() ==> #[trigger] entries[t].0 == entries[t].0 as i128
}

fn group_cells_map(entries: &Vec<(i128, i128, usize)>) -> (r: BTreeMap<i128, Vec<usize>>)
    ensures
        cells_hold(r@, entries_view(entries@)),
{
    let ghost all = entries_view(entries@);
    let mut cells: BTreeMap<i128, Vec<usize>> = BTreeMap::new();
    let mut t: usize = 0;
    while t < entries.len()
        invariant
            0 <= t <= entries@.len(),
            all == entries_view(entries@),
            cells_hold(cells@, all.take(t as int)),
        decreases entries@.len() - t,
    {
        let (key, _, idx) = entries[t];
        let ghost before = all.take(t as int);
        let ghost after = all.take(t + 1);
        assert(after.drop_last() =~= before);
        assert(after.last() == (key as int, idx as int));
        let ghost old_cells = cells@;
        let mut v = match cells.remove(&key) {
            Some(v) => v,
            None => Vec::new(),
        };
        proof {
            if !old_cells.contains_key(key) {
                lemma_members_absent(before, key as int);
            }
        }
        let ghost old_v = v@;
        v.push(idx);
        assert(indices_view(v@) =~= indices_view(old_v).push(idx as int));
        cells.insert(key, v);
        assert forall|k: i128| #[trigger] cells@.contains_key(k) implies indices_view(cells@[k]@) == members_at(
            after,
            k as int,
        ) && cells@[k]@.len() > 0 by {
            if k != key {
                assert(old_cells.contains_key(k));
            }
        }
        assert forall|s: int| 0 <= s < after.len() implies cells@.contains_key(#[trigger] after[s].0 as i128) by {
            if s < t {
                assert(after[s] == before[s]);
            }
        }
        assert forall|s: int| 0 <= s < after.len() implies #[trigger] after[s].0 == after[s].0 as i128 by {
            if s < t {
                assert(after[s] == before[s]);
            }
        }
        t = t + 1;
    }
    assert(all.take(entries@.len() as int) =~= all);
    cells
}

proof fn lemma_increasing_keys(ks: Seq<i128>)
    requires
        vstd::std_specs::btree::increasing_seq(ks),
    ensures
        forall|j: int, k: int| 0 <= j < k < ks.len() ==> ks[j] < ks[k],
{
    assert forall|j: int, k: int| 0 <= j < k < ks.len() implies ks[j] < ks[k] by {
        assert(ks[j].cmp_spec(&ks[k]) is Less);
    }
}

fn clusters_from_cells(cells: &BTreeMap<i128, Vec<usize>>, Ghost(entries): Ghost<Seq<(int, int)>>) -> (r: Vec<ExpectedOnsetCluster>)
    requires
        cells_hold(cells@, entries),
    ensures
        key_groups(r@, entries),
{
    let mut clusters: Vec<ExpectedOnsetCluster> = Vec::new();
    let ghost whole = vstd::std_specs::btree::spec_btree_map_iter(cells).remaining();
    for (k, v) in it: cells.iter()
        invariant
            cells_hold(cells@, entries),
            it.seq() == whole,
            clusters@.len() == it.index(),
            forall|j: int|
                0 <= j < clusters@.len() ==> (#[trigger] clusters@[j]).beat == *whole[j].0
                    && clusters@[j].event_indices@ == whole[j].1@
                    && clusters@[j].expected_strength_permille == 1000,
    {
        let indices = v.clone();
        assert(indices@ =~= v@);
        clusters.push(ExpectedOnsetCluster { beat: *k, event_indices: indices, expected_strength_permille: 1000 });
    }
    assert(clusters@.len() == whole.len());
    let ghost m = cells@;
    let ghost ks = whole.map_values(|kv: (&i128, &Vec<usize>)| *kv.0);
    assert(vstd::std_specs::btree::increasing_seq(ks));
    proof {
        lemma_increasing_keys(ks);
    }
    assert forall|j: int, k: int| 0 <= j < k < clusters@.len() implies clusters@[j].beat < clusters@[k].beat by {
        assert(ks[j] == clusters@[j].beat);
        assert(ks[k] == clusters@[k].beat);
    }
    assert forall|j: int| 0 <= j < clusters@.len() implies {
        &&& indices_view(#[trigger] clusters@[j].event_indices@) == members_at(entries, clusters@[j].beat as int)
        &&& clusters@[j].event_indices@.len() > 0
        &&& clusters@[j].expected_strength_permille == 1000
    } by {
        assert(m.contains_key(*whole[j].0) && m[*whole[j].0] == *whole[j].1);
    }
    assert forall|t: int| 0 <= t < entries.len() implies #[trigger] grouped_key(clusters@, entries[t].0) by {
        let key = entries[t].0 as i128;
        assert(m.contains_key(key));
        assert(whole.contains((&key, &m[key])));
        let j = choose|j: int| 0 <= j < whole.len() && whole[j] == (&key, &m[key]);
        assert(clusters@[j].beat == key);
    }
    clusters
}

/// Groups keyed indices by key into clusters, in increasing key order; the
/// key of each cluster is held in its `beat` until it is placed.
fn group_cells(entries: &Vec<(i128, i128, usize)>) -> (r: Vec<ExpectedOnsetCluster>)
    ensures
        key_groups(r@, entries_view(entries@)),
{
    let cells = group_cells_map(entries);
    clusters_from_cells(&cells, Ghost(entries_view(entries@)))
}

/// `clusters` is the grouping of `entries` by grid cell, the cells numbered
/// by `keys`: one cluster per cell, in increasing cell order, at the cell's
/// nominal position, each holding the indices of its entries in entry order,
/// at full strength.
pub open spec fn cells_grouped(
    clusters: Seq<ExpectedOnsetCluster>,
    keys: Seq<int>,
    entries: Seq<(int, int)>,
    bar: int,
    subdivision: int,
) -> bool {
    &&& keys.len() == clusters.len()
    &&& forall|j: int, k: int| 0 <= j < k < keys.len() ==> keys[j] < keys[k]
    &&& forall|j: int|
        0 <= j < clusters.len() ==> {
            &&& (#[trigger] clusters[j]).beat == cell_position(keys[j], bar, subdivision)
            &&& indices_view(clusters[j].event_indices@) == members_at(entries, keys[j])
            &&& clusters[j].event_indices@.len() > 0
            &&& clusters[j].expected_strength_permille == 1000
        }
    &&& forall|t: int| 0 <= t < entries.len() ==> #[trigger] has_cell(keys, entries[t].0)
}

/// `key` is one of `keys`.
pub open spec fn has_cell(keys: Seq<int>, key: int) -> bool {
    exists|j: int| 0 <= j < keys.len() && keys[j] == key
}

/// `clusters` is the grouping of `entries` by grid cell (see `cells_grouped`).
pub open spec fn clusters_of(clusters: Seq<ExpectedOnsetCluster>, entries: Seq<(int, int)>, bar: int, subdivision: int) -> bool {
    exists|keys: Seq<int>| cells_grouped(clusters, keys, entries, bar, subdivision)
}

proof fn lemma_members_nonempty(entries: Seq<(int, int)>, beat: int)
    requires
        members_at(entries, beat).len() > 0,
    ensures
        exists|t: int| 0 <= t < entries.len() && #[trigger] entries[t].0 == beat,
{
    if !(exists|t: int| 0 <= t < entries.len() && #[trigger] entries[t].0 == beat) {
        lemma_members_absent(entries, beat);
    }
}

/// The cell numbers held by clusters grouped by cell.
spec fn cluster_keys(groups: Seq<ExpectedOnsetCluster>) -> Seq<int> {
    Seq::new(groups.len(), |j: int| groups[j].beat as int)
}

/// The nominal position of cell `key`, computed as `cell_position` states.
fn key_position(key: i128, bar: i128, subdivision: i128) -> (r: i128)
    requires
        grid_ok(bar, subdivision),
        0 <= key,
        0 <= cell_position(key as int, bar as int, subdivision as int) <= 0x8_0000_0000_0000_0000_0000_0000,
    ensures
        r == cell_position(key as int, bar as int, subdivision as int),
{
    let cells = (2 * bar + subdivision) / (2 * subdivision);
    let radix: i128 = if cells > 0 { cells } else { 1 };
    let q = key / radix;
    let m = key % radix;
    assert(0 <= q * bar && 0 <= m * subdivision) by (nonlinear_arith)
        requires
            q == key / radix,
            m == key % radix,
            key >= 0,
            radix >= 1,
            bar >= 0,
            subdivision > 0,
    ;
    q * bar + m * subdivision
}

/// Sets each cluster, grouped by cell number, at its cell's nominal
/// position.
fn place_clusters(groups: Vec<ExpectedOnsetCluster>, entries: &Vec<(i128, i128, usize)>, bar: i128, subdivision: i128) -> (r: Vec<ExpectedOnsetCluster>)
    requires
        grid_ok(bar, subdivision),
        key_groups(groups@, entries_view(entries@)),
        entries_placed(entries@, bar as int, subdivision as int),
    ensures
        cells_grouped(
            r@,
            cluster_keys(groups@),
            entries_view(entries@),
            bar as int,
            subdivision as int,
        ),
        forall|j: int| 0 <= j < r@.len() ==> 0 <= #[trigger] r@[j].beat <= 0x8_0000_0000_0000_0000_0000_0000,
{
    let ghost all = groups@;
    let ghost ev = entries_view(entries@);
    let ghost keys = cluster_keys(all);
    let mut rest = groups;
    let mut placed: Vec<ExpectedOnsetCluster> = Vec::new();
    while rest.len() > 0
        invariant
            grid_ok(bar, subdivision),
            key_groups(all, ev),
            ev == entries_view(entries@),
            entries_placed(entries@, bar as int, subdivision as int),
            keys == cluster_keys(all),
            placed@.len() + rest@.len() == all.len(),
            rest@ == all.skip(placed@.len() as int),
            forall|j: int|
                0 <= j < placed@.len() ==> {
                    &&& (#[trigger] placed@[j]).beat == cell_position(keys[j], bar as int, subdivision as int)
                    &&& placed@[j].event_indices == all[j].event_indices
                    &&& placed@[j].expected_strength_permille == all[j].expected_strength_permille
                    &&& 0 <= placed@[j].beat <= 0x8_0000_0000_0000_0000_0000_0000
                },
        decreases rest@.len(),
    {
        let ghost n = placed@.len() as int;
        let g = rest.remove(0);
        assert(g == all[n]);
        assert(rest@ =~= all.skip(n + 1));
        proof {
            assert(indices_view(all[n].event_indices@).len() > 0);
            lemma_members_nonempty(ev, g.beat as int);
            let t = choose|t: int| 0 <= t < ev.len() && #[trigger] ev[t].0 == g.beat;
            assert(entries@[t].0 == g.beat);
            assert(entries@[t].1 == cell_position(entries@[t].0 as int, bar as int, subdivision as int));
        }
        let beat = key_position(g.beat, bar, subdivision);
        placed.push(ExpectedOnsetCluster {
            beat,
            event_indices: g.event_indices,
            expected_strength_permille: g.expected_strength_permille,
        });
    }
    proof {
        assert forall|j: int| 0 <= j < placed@.len() implies {
            &&& (#[trigger] placed@[j]).beat == cell_position(keys[j], bar as int, subdivision as int)
            &&& indices_view(placed@[j].event_indices@) == members_at(ev, keys[j])
            &&& placed@[j].event_indices@.len() > 0
            &&& placed@[j].expected_strength_permille == 1000
        } by {
            assert(indices_view(all[j].event_indices@) == members_at(ev, all[j].beat as int));
        }
        assert forall|j: int, k: int| 0 <= j < k < keys.len() implies keys[j] < keys[k] by {
            assert(all[j].beat < all[k].beat);
        }
        let ks = cluster_keys(all);
        assert forall|t: int| 0 <= t < ev.len() implies #[trigger] has_cell(ks, ev[t].0) by {
            assert(grouped_key(all, ev[t].0));
            let j = choose|j: int| 0 <= j < all.len() && all[j].beat == ev[t].0;
            assert(ks[j] == all[j].beat);
        }
        assert(cells_grouped(placed@, cluster_keys(all), ev, bar as int, subdivision as int));
    }
    placed
}

// ---------------------------------------------------------------------------
// Matching clusters to observed onsets
// ---------------------------------------------------------------------------

/// `i` is the first index of an onset nearest to `target`.
pub open spec fn first_nearest(onsets: Seq<i128>, target: int, i: int) -> bool {
    &&& 0 <= i < onsets.len()
    &&& forall|k: int|
        0 <= k < onsets.len() ==> distance(onsets[i] as int, target) <= distance(
            #[trigger] onsets[k] as int,
            target,
        )
    &&& forall|k: int|
        0 <= k < i ==> distance(onsets[i] as int, target) < distance(#[trigger] onsets[k] as int, target)
}

/// The observed onset a cluster at `beat` is matched to: the first nearest
/// onset, where it lies within `tolerance`.
pub open spec fn matched_onset(onsets: Seq<i128>, beat: int, tolerance: int) -> Option<i128> {
    if onsets.len() > 0 {
        let i = choose|i: int| first_nearest(onsets, beat, i);
        if distance(onsets[i] as int, beat) <= tolerance {
            Some(onsets[i])
        } else {
            None
        }
    } else {
        None
    }
}

/// `m` is its cluster matched against `onsets`: the observed position is the
/// matched onset, and the timing error is how far it lies after the cluster.
pub open spec fn matched_as(m: MatchedOnsetCluster, onsets: Seq<i128>, tolerance: int) -> bool {
    &&& m.observed_beat == matched_onset(onsets, m.cluster.beat as int, tolerance)
    &&& m.timing_error_beats == match m.observed_beat {
        Some(o) => o - m.cluster.beat,
        None => 0,
    }
}

/// Onset positions are within the handled range.
pub open spec fn onsets_ok(onsets: Seq<i128>) -> bool {
    forall|k: int| 0 <= k < onsets.len() ==> position_ok(#[trigger] onsets[k] as int)
}

/// There is one first nearest onset.
pub proof fn lemma_first_nearest_unique(onsets: Seq<i128>, target: int, i: int, j: int)
    requires
        first_nearest(onsets, target, i),
        first_nearest(onsets, target, j),
    ensures
        i == j,
{
    if i < j {
        assert(distance(onsets[j] as int, target) < distance(onsets[i] as int, target));
    } else if j < i {
        assert(distance(onsets[i] as int, target) < distance(onsets[j] as int, target));
    }
}

fn abs_diff(a: i128, b: i128) -> (r: i128)
    requires
        -0x40_0000_0000_0000_0000_0000_0000 <= a <= 0x40_0000_0000_0000_0000_0000_0000,
        -0x40_0000_0000_0000_0000_0000_0000 <= b <= 0x40_0000_0000_0000_0000_0000_0000,
    ensures
        r == distance(a as int, b as int),
{
    if a >= b { a - b } else { b - a }
}

/// Matches one cluster to the nearest observed onset within `tolerance`.
fn match_cluster(cluster: ExpectedOnsetCluster, onsets: &[i128], tolerance: i128) -> (m: MatchedOnsetCluster)
    requires
        onsets_ok(onsets@),
        0 <= cluster.beat <= 0x8_0000_0000_0000_0000_0000_0000,
    ensures
        m.cluster == cluster,
        matched_as(m, onsets@, tolerance as int),
{
    if onsets.len() == 0 {
        return MatchedOnsetCluster { cluster, observed_beat: None, timing_error_beats: 0 };
    }
    let beat = cluster.beat;
    let mut best: usize = 0;
    let mut best_distance = abs_diff(onsets[0], beat);
    let mut k: usize = 1;
    while k < onsets.len()
        invariant
            1 <= k <= onsets@.len(),
            onsets_ok(onsets@),
            0 <= beat <= 0x8_0000_0000_0000_0000_0000_0000,
            best < k,
            best_distance == distance(onsets@[best as int] as int, beat as int),
            first_nearest(onsets@.take(k as int), beat as int, best as int),
        decreases onsets@.len() - k,
    {
        assert(position_ok(onsets@[k as int] as int));
        let d = abs_diff(onsets[k], beat);
        let ghost prefix = onsets@.take(k as int);
        let ghost next = onsets@.take(k + 1);
        if d < best_distance {
            best = k;
            best_distance = d;
        }
        assert forall|q: int| 0 <= q < next.len() implies distance(next[best as int] as int, beat as int)
            <= distance(#[trigger] next[q] as int, beat as int) by {
            if q < k {
                assert(next[q] == prefix[q]);
            }
        }
        assert forall|q: int| 0 <= q < best implies distance(next[best as int] as int, beat as int)
            < distance(#[trigger] next[q] as int, beat as int) by {
            assert(next[q] == prefix[q]);
        }
        k = k + 1;
    }
    assert(onsets@.take(onsets@.len() as int) =~= onsets@);
    proof {
        let i = choose|i: int| first_nearest(onsets@, beat as int, i);
        lemma_first_nearest_unique(onsets@, beat as int, i, best as int);
    }
    let observed = onsets[best];
    let err = observed - beat;
    if best_distance <= tolerance {
        MatchedOnsetCluster { cluster, observed_beat: Some(observed), timing_error_beats: err }
    } else {
        MatchedOnsetCluster { cluster, observed_beat: None, timing_error_beats: 0 }
    }
}

/// Match each cluster to the nearest observed onset within `tolerance`.
fn match_clusters_to_onsets(clusters: Vec<ExpectedOnsetCluster>, onsets: &[i128], tolerance: i128) -> (r: Vec<MatchedOnsetCluster>)
    requires
        onsets_ok(onsets@),
        forall|j: int| 0 <= j < clusters@.len() ==> 0 <= #[trigger] clusters@[j].beat <= 0x8_0000_0000_0000_0000_0000_0000,
    ensures
        r@.len() == clusters@.len(),
        forall|j: int| 0 <= j < r@.len() ==> #[trigger] r@[j].cluster == clusters@[j] && matched_as(r@[j], onsets@, tolerance as int),
{
    let ghost all = clusters@;
    let mut rest = clusters;
    let mut matched: Vec<MatchedOnsetCluster> = Vec::new();
    while rest.len() > 0
        invariant
            onsets_ok(onsets@),
            matched@.len() + rest@.len() == all.len(),
            rest@ == all.skip(matched@.len() as int),
            forall|j: int| 0 <= j < all.len() ==> 0 <= #[trigger] all[j].beat <= 0x8_0000_0000_0000_0000_0000_0000,
            forall|j: int| 0 <= j < matched@.len() ==> #[trigger] matched@[j].cluster == all[j] && matched_as(matched@[j], onsets@, tolerance as int),
        decreases rest@.len(),
    {
        let ghost n = matched@.len() as int;
        let c = rest.remove(0);
        assert(c == all[n]);
        assert(rest@ =~= all.skip(n + 1));
        let m = match_cluster(c, onsets, tolerance);
        matched.push(m);
    }
    matched
}

// ---------------------------------------------------------------------------
// Summary metrics
// ---------------------------------------------------------------------------

/// Number of matched clusters.
pub open spec fn matched_count(ms: Seq<MatchedOnsetCluster>) -> int
    decreases ms.len(),
{
    if ms.len() == 0 {
        0
    } else {
        matched_count(ms.drop_last()) + if ms.last().observed_beat is Some { 1int } else { 0int }
    }
}

/// Sum of the absolute timing errors of the matched clusters.
pub open spec fn total_abs_error(ms: Seq<MatchedOnsetCluster>) -> int
    decreases ms.len(),
{
    if ms.len() == 0 {
        0
    } else {
        total_abs_error(ms.drop_last()) + if ms.last().observed_beat is Some {
            distance(ms.last().timing_error_beats as int, 0)
        } else {
            0
        }
    }
}

/// Some matched cluster lies within `tolerance` of the onset at `onset`.
pub open spec fn explained(ms: Seq<MatchedOnsetCluster>, onset: int, tolerance: int) -> bool {
    exists|j: int|
        0 <= j < ms.len() && (#[trigger] ms[j]).observed_beat is Some && distance(
            ms[j].cluster.beat as int,
            onset,
        ) <= tolerance
}

/// The observed onsets that no matched cluster explains, in input order.
pub open spec fn unexplained_onsets(onsets: Seq<i128>, ms: Seq<MatchedOnsetCluster>, tolerance: int) -> Seq<i128>
    decreases onsets.len(),
{
    if onsets.len() == 0 {
        seq![]
    } else {
        let before = unexplained_onsets(onsets.drop_last(), ms, tolerance);
        if explained(ms, onsets.last() as int, tolerance) {
            before
        } else {
            before.push(onsets.last())
        }
    }
}

/// How the diagnostics match clusters to onsets: a cluster is matched exactly
/// when some onset lies within the tolerance of it; it is then matched to the
/// first of the onsets nearest to it, and its timing error is how far that
/// onset lies after it; an unmatched cluster has no timing error.
pub proof fn lemma_matches_first_nearest(
    d: AlignmentDiagnostics,
    sources: Seq<MidiSource>,
    offsets: Seq<i128>,
    onsets: Seq<i128>,
    bar: int,
    subdivision: int,
    tolerance: int,
)
    requires
        diagnostics_of(d, sources, offsets, onsets, bar, subdivision, tolerance),
    ensures
        forall|j: int|
            0 <= j < d.matched_onset_clusters@.len() ==> ((#[trigger] d.matched_onset_clusters@[j]).observed_beat is Some
                <==> exists|k: int|
                0 <= k < onsets.len() && distance(
                    #[trigger] onsets[k] as int,
                    d.matched_onset_clusters@[j].cluster.beat as int,
                ) <= tolerance),
        forall|j: int|
            0 <= j < d.matched_onset_clusters@.len() && (#[trigger] d.matched_onset_clusters@[j]).observed_beat is Some
                ==> exists|i: int|
                0 <= i < onsets.len() && #[trigger] onsets[i] == d.matched_onset_clusters@[j].observed_beat->0
                    && (forall|k: int|
                    0 <= k < onsets.len() ==> distance(onsets[i] as int, d.matched_onset_clusters@[j].cluster.beat as int)
                        <= distance(#[trigger] onsets[k] as int, d.matched_onset_clusters@[j].cluster.beat as int))
                    && (forall|k: int|
                    0 <= k < i ==> distance(onsets[i] as int, d.matched_onset_clusters@[j].cluster.beat as int)
                        < distance(#[trigger] onsets[k] as int, d.matched_onset_clusters@[j].cluster.beat as int)),
        forall|j: int|
            0 <= j < d.matched_onset_clusters@.len() ==> (#[trigger] d.matched_onset_clusters@[j]).timing_error_beats
                == if d.matched_onset_clusters@[j].observed_beat is Some {
                d.matched_onset_clusters@[j].observed_beat->0 - d.matched_onset_clusters@[j].cluster.beat
            } else {
                0
            },
        d.matched_clusters == d.matched_onset_clusters@.filter(|m: MatchedOnsetCluster| m.observed_beat is Some).len(),
{
    let ms = d.matched_onset_clusters@;
    assert forall|j: int| 0 <= j < ms.len() implies {
        &&& ((#[trigger] ms[j]).observed_beat is Some <==> exists|k: int|
            0 <= k < onsets.len() && distance(#[trigger] onsets[k] as int, ms[j].cluster.beat as int) <= tolerance)
        &&& (ms[j].observed_beat is Some ==> exists|i: int|
            0 <= i < onsets.len() && #[trigger] onsets[i] == ms[j].observed_beat->0 && first_nearest(
                onsets,
                ms[j].cluster.beat as int,
                i,
            ))
    } by {
        assert(matched_as(ms[j], onsets, tolerance));
        let beat = ms[j].cluster.beat as int;
        if onsets.len() > 0 {
            lemma_first_nearest_exists(onsets, beat);
            let i = choose|i: int| first_nearest(onsets, beat, i);
            if exists|k: int| 0 <= k < onsets.len() && distance(#[trigger] onsets[k] as int, beat) <= tolerance {
                let k = choose|k: int| 0 <= k < onsets.len() && distance(#[trigger] onsets[k] as int, beat) <= tolerance;
                assert(distance(onsets[i] as int, beat) <= distance(onsets[k] as int, beat));
            }
        }
    }
    assert forall|j: int| 0 <= j < ms.len() && (#[trigger] ms[j]).observed_beat is Some implies exists|i: int|
        0 <= i < onsets.len() && #[trigger] onsets[i] == ms[j].observed_beat->0 && (forall|k: int|
            0 <= k < onsets.len() ==> distance(onsets[i] as int, ms[j].cluster.beat as int) <= distance(
                #[trigger] onsets[k] as int,
                ms[j].cluster.beat as int,
            )) && (forall|k: int|
            0 <= k < i ==> distance(onsets[i] as int, ms[j].cluster.beat as int) < distance(
                #[trigger] onsets[k] as int,
                ms[j].cluster.beat as int,
            )) by {
        let i = choose|i: int|
            0 <= i < onsets.len() && #[trigger] onsets[i] == ms[j].observed_beat->0 && first_nearest(
                onsets,
                ms[j].cluster.beat as int,
                i,
            );
        assert(first_nearest(onsets, ms[j].cluster.beat as int, i));
    }
    assert forall|j: int| 0 <= j < ms.len() implies (#[trigger] ms[j]).timing_error_beats == if ms[j].observed_beat is Some {
        ms[j].observed_beat->0 - ms[j].cluster.beat
    } else {
        0
    } by {
        assert(matched_as(ms[j], onsets, tolerance));
    }
    lemma_matched_count_filter(ms);
}

/// Some onset is a first nearest one to any target.
proof fn lemma_first_nearest_exists(onsets: Seq<i128>, target: int)
    requires
        onsets.len() > 0,
    ensures
        exists|i: int| first_nearest(onsets, target, i),
    decreases onsets.len(),
{
    if onsets.len() == 1 {
        assert(first_nearest(onsets, target, 0));
    } else {
        let d = onsets.drop_last();
        lemma_first_nearest_exists(d, target);
        let i = choose|i: int| first_nearest(d, target, i);
        let n = onsets.len() - 1;
        if distance(onsets[n] as int, target) < distance(d[i] as int, target) {
            assert forall|k: int| 0 <= k < n implies distance(onsets[n] as int, target) < distance(
                #[trigger] onsets[k] as int,
                target,
            ) by {
                assert(onsets[k] == d[k]);
            }
            assert(first_nearest(onsets, target, n));
        } else {
            assert forall|k: int| 0 <= k < onsets.len() implies distance(onsets[i] as int, target) <= distance(
                #[trigger] onsets[k] as int,
                target,
            ) by {
                if k < n {
                    assert(onsets[k] == d[k]);
                }
            }
            assert forall|k: int| 0 <= k < i implies distance(onsets[i] as int, target) < distance(
                #[trigger] onsets[k] as int,
                target,
            ) by {
                assert(onsets[k] == d[k]);
            }
            assert(onsets[i] == d[i]);
            assert(first_nearest(onsets, target, i));
        }
    }
}

/// The matched count is the number of matched clusters.
proof fn lemma_matched_count_filter(ms: Seq<MatchedOnsetCluster>)
    ensures
        matched_count(ms) == ms.filter(|m: MatchedOnsetCluster| m.observed_beat is Some).len(),
    decreases ms.len(),
{
    reveal(Seq::filter);
    if ms.len() > 0 {
        lemma_matched_count_filter(ms.drop_last());
    }
}

/// How often an onset is left unexplained: never when a matched cluster lies
/// within the tolerance of it, otherwise as often as it was observed.
proof fn lemma_unexplained_count(onsets: Seq<i128>, ms: Seq<MatchedOnsetCluster>, tolerance: int, x: i128)
    ensures
        unexplained_onsets(onsets, ms, tolerance).to_multiset().count(x) == if exists|j: int|
            0 <= j < ms.len() && (#[trigger] ms[j]).observed_beat is Some && distance(
                ms[j].cluster.beat as int,
                x as int,
            ) <= tolerance {
            0
        } else {
            onsets.to_multiset().count(x)
        },
    decreases onsets.len(),
{
    broadcast use vstd::seq_lib::group_to_multiset_ensures;

    if onsets.len() > 0 {
        let d = onsets.drop_last();
        lemma_unexplained_count(d, ms, tolerance, x);
        assert(onsets =~= d.push(onsets.last()));
        let y = onsets.last();
        if explained(ms, y as int, tolerance) {
            let j = choose|j: int|
                0 <= j < ms.len() && (#[trigger] ms[j]).observed_beat is Some && distance(
                    ms[j].cluster.beat as int,
                    y as int,
                ) <= tolerance;
            if y == x {
                assert(ms[j].observed_beat is Some);
            }
        } else {
            if y == x {
                assert forall|j: int| 0 <= j < ms.len() && (#[trigger] ms[j]).observed_beat is Some implies distance(
                    ms[j].cluster.beat as int,
                    x as int,
                ) > tolerance by {
                    if distance(ms[j].cluster.beat as int, x as int) <= tolerance {
                        assert(explained(ms, y as int, tolerance));
                    }
                }
            }
        }
    } else {
        assert(onsets.to_multiset() =~= vstd::multiset::Multiset::empty());
        assert(unexplained_onsets(onsets, ms, tolerance) =~= Seq::<i128>::empty());
    }
}

/// The unmatched onsets of the diagnostics are exactly the observed onsets
/// that no matched cluster lies within the tolerance of, each listed as
/// often as it was observed: an onset within the tolerance of a matched
/// cluster is never listed, and an onset that every matched cluster misses is
/// always listed.
pub proof fn lemma_unmatched_onsets_exact(
    d: AlignmentDiagnostics,
    sources: Seq<MidiSource>,
    offsets: Seq<i128>,
    onsets: Seq<i128>,
    bar: int,
    subdivision: int,
    tolerance: int,
)
    requires
        diagnostics_of(d, sources, offsets, onsets, bar, subdivision, tolerance),
    ensures
        forall|x: i128|
            #[trigger] d.unmatched_observed_beats@.to_multiset().count(x) == if exists|j: int|
                0 <= j < d.matched_onset_clusters@.len() && (#[trigger] d.matched_onset_clusters@[j]).observed_beat is Some
                    && distance(d.matched_onset_clusters@[j].cluster.beat as int, x as int) <= tolerance {
                0
            } else {
                onsets.to_multiset().count(x)
            },
        forall|i: int, j: int|
            0 <= i < d.unmatched_observed_beats@.len() && 0 <= j < d.matched_onset_clusters@.len()
                && (#[trigger] d.matched_onset_clusters@[j]).observed_beat is Some ==> distance(
                d.matched_onset_clusters@[j].cluster.beat as int,
                #[trigger] d.unmatched_observed_beats@[i] as int,
            ) > tolerance,
{
    broadcast use vstd::seq_lib::group_to_multiset_ensures;

    let ms = d.matched_onset_clusters@;
    let u = d.unmatched_observed_beats@;
    assert forall|x: i128| #[trigger] u.to_multiset().count(x) == if exists|j: int|
        0 <= j < ms.len() && (#[trigger] ms[j]).observed_beat is Some && distance(ms[j].cluster.beat as int, x as int)
            <= tolerance {
        0
    } else {
        onsets.to_multiset().count(x)
    } by {
        lemma_unexplained_count(onsets, ms, tolerance, x);
    }
    assert forall|i: int, j: int|
        0 <= i < u.len() && 0 <= j < ms.len() && (#[trigger] ms[j]).observed_beat is Some implies distance(
        ms[j].cluster.beat as int,
        #[trigger] u[i] as int,
    ) > tolerance by {
        let x = u[i];
        assert(u.to_multiset().count(x) > 0);
        if distance(ms[j].cluster.beat as int, x as int) <= tolerance {
            assert(u.to_multiset().count(x) == 0);
        }
    }
}

/// The warnings raised for a match: low coverage (under 80% of the clusters
/// matched), high timing error (a mean error over 0.1 beat) and unexplained
/// onsets, in this order.
pub open spec fn diagnostic_warnings(total: usize, matched: usize, total_error: i128, unexplained: usize) -> Seq<AlignmentWarning> {
    let coverage = if total > 0 && 5 * matched < 4 * total {
        seq![AlignmentWarning::LowCoverage { matched, total }]
    } else {
        seq![]
    };
    let timing = if total_error > 100_000 * matched {
        seq![AlignmentWarning::HighTimingError { total_error_beats: total_error, matched }]
    } else {
        seq![]
    };
    let onsets = if unexplained > 0 {
        seq![AlignmentWarning::UnexplainedOnsets { count: unexplained }]
    } else {
        seq![]
    };
    coverage + timing + onsets
}

/// The clusters of a list of matches.
pub open spec fn clusters_of_matches(ms: Seq<MatchedOnsetCluster>) -> Seq<ExpectedOnsetCluster> {
    ms.map_values(|m: MatchedOnsetCluster| m.cluster)
}

/// `d` is the diagnostics of the events of `sources` placed at `offsets`
/// against the observed `onsets`, on a grid of `bar`-long bars divided into
/// cells of `subdivision`.
pub open spec fn diagnostics_of(
    d: AlignmentDiagnostics,
    sources: Seq<MidiSource>,
    offsets: Seq<i128>,
    onsets: Seq<i128>,
    bar: int,
    subdivision: int,
    tolerance: int,
) -> bool {
    let ms = d.matched_onset_clusters@;
    &&& clusters_of(
        clusters_of_matches(ms),
        cell_entries(event_positions(sources, offsets), bar, subdivision),
        bar,
        subdivision,
    )
    &&& forall|j: int| 0 <= j < ms.len() ==> matched_as(#[trigger] ms[j], onsets, tolerance)
    &&& d.total_clusters == ms.len()
    &&& d.matched_clusters == matched_count(ms)
    &&& d.total_timing_error_beats == total_abs_error(ms)
    &&& values_sorted(d.unmatched_observed_beats@)
    &&& d.unmatched_observed_beats@.to_multiset() == unexplained_onsets(onsets, ms, tolerance).to_multiset()
    &&& d.warnings@ == diagnostic_warnings(
        d.total_clusters,
        d.matched_clusters,
        d.total_timing_error_beats,
        d.unmatched_observed_beats@.len() as usize,
    )
}


/// Compute diagnostics for an arrangement against observed audio onsets.
///
/// - `sources`: MIDI source files in the arrangement.
/// - `offsets`: position of each source on the global timeline (parallel to
///   `sources`; a source without an entry is placed at 0).
/// - `grid_onsets`: observed audio onsets mapped to beat space.
/// - `time_signature`: the arrangement's time signature.
/// - `subdivision`: grid resolution (e.g. a quarter beat for 16th notes).
/// - `match_tolerance`: maximum distance for a cluster to count as matched.
///
/// All positions are in microbeats. The result holds the coverage counts, the
/// summed timing error, the unmatched onsets, the per-cluster match details
/// and the named warnings.
pub fn compute_diagnostics(
    sources: &[MidiSource],
    offsets: &[i128],
    grid_onsets: &[i128],
    time_signature: TimeSignature,
    subdivision: i128,
    match_tolerance: i128,
) -> (r: AlignmentDiagnostics)
    requires
        0 < subdivision <= 0x1000_0000_0000_0000,
        match_tolerance <= 0x1000_0000_0000_0000,
        sources_ok(sources@, offsets@),
        onsets_ok(grid_onsets@),
    ensures
        diagnostics_of(
            r,
            sources@,
            offsets@,
            grid_onsets@,
            time_signature.numerator * MICROBEATS_PER_BEAT,
            subdivision as int,
            match_tolerance as int,
        ),
{
    let bar = time_signature.bar_microbeats();
    let entries = grid_entries(sources, offsets, bar, subdivision);
    let groups = group_cells(&entries);
    let ghost keys = cluster_keys(groups@);
    let clusters = place_clusters(groups, &entries, bar, subdivision);
    let ghost cl = clusters@;
    let matched = match_clusters_to_onsets(clusters, grid_onsets, match_tolerance);
    assert(clusters_of_matches(matched@) =~= cl);
    assert(cells_grouped(clusters_of_matches(matched@), keys, entries_view(entries@), bar as int, subdivision as int));
    let total = matched.len();
    let mut n_matched: usize = 0;
    let mut total_error: i128 = 0;
    let mut j: usize = 0;
    while j < matched.len()
        invariant
            0 <= j <= matched@.len(),
            match_tolerance <= 0x1000_0000_0000_0000,
            forall|q: int| 0 <= q < matched@.len() ==> matched_as(#[trigger] matched@[q], grid_onsets@, match_tolerance as int),
            n_matched == matched_count(matched@.take(j as int)),
            n_matched <= j,
            total_error == total_abs_error(matched@.take(j as int)),
            0 <= total_error <= j * 0x1000_0000_0000_0000,
        decreases matched@.len() - j,
    {
        assert(matched@.take(j + 1).drop_last() =~= matched@.take(j as int));
        let m = &matched[j];
        assert(matched_as(matched@[j as int], grid_onsets@, match_tolerance as int));
        if m.observed_beat.is_some() {
            let e = m.timing_error_beats;
            let ae = if e >= 0 { e } else { -e };
            total_error = total_error + ae;
            n_matched = n_matched + 1;
        }
        j = j + 1;
    }
    assert(matched@.take(matched@.len() as int) =~= matched@);

    let mut unexplained: Vec<i128> = Vec::new();
    let mut k: usize = 0;
    while k < grid_onsets.len()
        invariant
            0 <= k <= grid_onsets@.len(),
            onsets_ok(grid_onsets@),
            forall|q: int| 0 <= q < matched@.len() ==> 0 <= #[trigger] matched@[q].cluster.beat
                <= 0x8_0000_0000_0000_0000_0000_0000,
            unexplained@ == unexplained_onsets(grid_onsets@.take(k as int), matched@, match_tolerance as int),
        decreases grid_onsets@.len() - k,
    {
        assert(grid_onsets@.take(k + 1).drop_last() =~= grid_onsets@.take(k as int));
        let onset = grid_onsets[k];
        assert(position_ok(grid_onsets@[k as int] as int));
        let mut found = false;
        let mut q: usize = 0;
        while q < matched.len()
            invariant
                0 <= q <= matched@.len(),
                position_ok(onset as int),
                forall|p: int| 0 <= p < matched@.len() ==> 0 <= #[trigger] matched@[p].cluster.beat
                    <= 0x8_0000_0000_0000_0000_0000_0000,
                found == exists|p: int| 0 <= p < q && (#[trigger] matched@[p]).observed_beat is Some
                    && distance(matched@[p].cluster.beat as int, onset as int) <= match_tolerance,
            decreases matched@.len() - q,
        {
            let m = &matched[q];
            assert(0 <= matched@[q as int].cluster.beat);
            if m.observed_beat.is_some() && abs_diff(m.cluster.beat, onset) <= match_tolerance {
                found = true;
            }
            q = q + 1;
        }
        if !found {
            unexplained.push(onset);
        }
        k = k + 1;
    }
    assert(grid_onsets@.take(grid_onsets@.len() as int) =~= grid_onsets@);
    let unmatched_observed = sort_values(unexplained);

    let mut warnings: Vec<AlignmentWarning> = Vec::new();
    if total > 0 && 5 * (n_matched as u128) < 4 * (total as u128) {
        warnings.push(AlignmentWarning::LowCoverage { matched: n_matched, total });
    }
    if total_error > 100_000 * (n_matched as i128) {
        warnings.push(AlignmentWarning::HighTimingError { total_error_beats: total_error, matched: n_matched });
    }
    if unmatched_observed.len() > 0 {
        warnings.push(AlignmentWarning::UnexplainedOnsets { count: unmatched_observed.len() });
    }
    proof {
        broadcast use vstd::seq_lib::group_to_multiset_ensures;

        assert(unmatched_observed@.len() == unexplained@.len()) by {
            assert(unmatched_observed@.to_multiset().len() == unexplained@.to_multiset().len());
        }
        let w = diagnostic_warnings(total, n_matched, total_error, unmatched_observed@.len() as usize);
        assert(warnings@ =~= w);
    }
    AlignmentDiagnostics {
        total_clusters: total,
        matched_clusters: n_matched,
        total_timing_error_beats: total_error,
        unmatched_observed_beats: unmatched_observed,
        warnings,
        matched_onset_clusters: matched,
    }
}

// ---------------------------------------------------------------------------
// The notes of a cluster
// ---------------------------------------------------------------------------

/// Notes of the events of all sources, in the global event enumeration.
pub open spec fn enumerated_notes(sources: Seq<MidiSource>) -> Seq<u8>
    decreases sources.len(),
{
    if sources.len() == 0 {
        seq![]
    } else {
        enumerated_notes(sources.drop_last()) + sources.last().events@.map_values(|e: MidiEvent| e.note)
    }
}

proof fn lemma_enumerated_notes_prefix(sources: Seq<MidiSource>, i: int)
    requires
        0 <= i < sources.len(),
    ensures
        enumerated_notes(sources.take(i + 1)) == enumerated_notes(sources.take(i)) + sources[i].events@.map_values(
            |e: MidiEvent| e.note,
        ),
{
    assert(sources.take(i + 1).drop_last() =~= sources.take(i));
}

/// The notes played by the events at `indices` of the global enumeration,
/// sorted and without repeats.
pub fn cluster_notes(sources: &[MidiSource], indices: &[usize]) -> (r: Vec<u8>)
    requires
        forall|k: int| 0 <= k < indices@.len() ==> #[trigger] indices@[k] < enumerated_notes(sources@).len(),
    ensures
        strictly_increasing(r@),
        forall|n: u8| r@.contains(n) <==> exists|k: int|
            0 <= k < indices@.len() && #[trigger] enumerated_notes(sources@)[indices@[k] as int] == n,
{
    let mut all: Vec<u8> = Vec::new();
    let mut i: usize = 0;
    while i < sources.len()
        invariant
            i <= sources@.len(),
            all@ == enumerated_notes(sources@.take(i as int)),
        decreases sources@.len() - i,
    {
        let events = &sources[i].events;
        let ghost before = all@;
        proof {
            lemma_enumerated_notes_prefix(sources@, i as int);
        }
        let mut e: usize = 0;
        while e < events.len()
            invariant
                e <= events@.len(),
                *events == sources@[i as int].events,
                all@ == before + events@.map_values(|x: MidiEvent| x.note).take(e as int),
            decreases events@.len() - e,
        {
            all.push(events[e].note);
            assert(events@.map_values(|x: MidiEvent| x.note).take(e + 1) =~= events@.map_values(
                |x: MidiEvent| x.note,
            ).take(e as int).push(events@[e as int].note));
            e = e + 1;
        }
        assert(events@.map_values(|x: MidiEvent| x.note).take(events@.len() as int) =~= events@.map_values(
            |x: MidiEvent| x.note,
        ));
        i = i + 1;
    }
    assert(sources@.take(sources@.len() as int) =~= sources@);
    let ghost notes = enumerated_notes(sources@);
    let mut r: Vec<u8> = Vec::new();
    let mut k: usize = 0;
    while k < indices.len()
        invariant
            k <= indices@.len(),
            all@ == notes,
            notes == enumerated_notes(sources@),
            forall|q: int| 0 <= q < indices@.len() ==> #[trigger] indices@[q] < notes.len(),
            strictly_increasing(r@),
            forall|n: u8| r@.contains(n) <==> exists|q: int| 0 <= q < k && #[trigger] notes[indices@[q] as int] == n,
        decreases indices@.len() - k,
    {
        let note = all[indices[k]];
        insert_note(&mut r, note);
        assert forall|n: u8| r@.contains(n) <==> exists|q: int| 0 <= q < k + 1 && #[trigger] notes[indices@[q] as int] == n by {
            if n == note {
                assert(notes[indices@[k as int] as int] == n);
            }
            if exists|q: int| 0 <= q < k + 1 && #[trigger] notes[indices@[q] as int] == n {
                let q = choose|q: int| 0 <= q < k + 1 && #[trigger] notes[indices@[q] as int] == n;
                if q < k {
                }
            }
        }
        k = k + 1;
    }
    r
}

// ---------------------------------------------------------------------------
// Laws
// ---------------------------------------------------------------------------

/// `n / d` rounded half up is the multiple of `d` nearest to `n`, the
/// larger one where two are equally near.
proof fn lemma_round_div_nearest(n: int, d: int)
    requires
        n >= 0,
        d > 0,
    ensures
        round_div(n, d) >= 0,
        2 * (n - round_div(n, d) * d) < d,
        2 * (round_div(n, d) * d - n) <= d,
{
    let q = round_div(n, d);
    vstd::arithmetic::div_mod::lemma_fundamental_div_mod(2 * n + d, 2 * d);
    vstd::arithmetic::div_mod::lemma_mod_pos_bound(2 * n + d, 2 * d);
    let r = (2 * n + d) % (2 * d);
    assert(2 * n + d == (2 * d) * q + r);
    assert((2 * d) * q == 2 * (q * d)) by (nonlinear_arith);
    assert(q >= 0) by (nonlinear_arith)
        requires
            2 * n + d == (2 * d) * q + r,
            0 <= r < 2 * d,
            n >= 0,
            d > 0,
    ;
}

/// A position's column is the subdivision of its bar nearest to it: the
/// position lies no more than half a subdivision before the column's start,
/// and, unless the column is the bar's last one, less than half a subdivision
/// after it (a position halfway between two columns goes to the later one).
pub proof fn lemma_cell_is_nearest(position: int, bar: int, subdivision: int)
    requires
        position >= 0,
        bar > 0,
        subdivision > 0,
    ensures
        0 <= cell_in_bar(position, bar, subdivision) <= cell_radix(bar, subdivision) - 1,
        cell_in_bar(position, bar, subdivision) < cell_radix(bar, subdivision) - 1 ==> 2 * (position % bar
            - cell_in_bar(position, bar, subdivision) * subdivision) < subdivision,
        2 * (cell_in_bar(position, bar, subdivision) * subdivision - position % bar) <= subdivision,
{
    let w = position % bar;
    vstd::arithmetic::div_mod::lemma_mod_pos_bound(position, bar);
    lemma_round_div_nearest(w, subdivision);
    let raw = round_div(w, subdivision);
    let c = cell_in_bar(position, bar, subdivision);
    let last = cell_radix(bar, subdivision) - 1;
    assert(last >= 0);
    if raw < last {
        assert(c == raw);
    } else {
        assert(c == last);
        assert(raw * subdivision >= last * subdivision) by (nonlinear_arith)
            requires
                raw >= last,
                subdivision > 0,
        ;
    }
}

/// The nominal positions of grid cells increase with the cell number: cells
/// ordered by (bar, subdivision) are ordered by position, so grouping events
/// by cell position groups them by cell.
pub proof fn lemma_cell_position_increasing(k1: int, k2: int, bar: int, subdivision: int)
    requires
        0 <= k1 < k2,
        bar > 0,
        subdivision > 0,
    ensures
        cell_position(k1, bar, subdivision) < cell_position(k2, bar, subdivision),
{
    let r = cell_radix(bar, subdivision);
    let cells = cells_per_bar(bar, subdivision);
    assert((r - 1) * subdivision < bar) by (nonlinear_arith)
        requires
            cells == (2 * bar + subdivision) / (2 * subdivision),
            r == if cells > 0 { cells } else { 1 },
            bar > 0,
            subdivision > 0,
    ;
    let q1 = k1 / r;
    let q2 = k2 / r;
    let m1 = k1 % r;
    let m2 = k2 % r;
    assert(k1 == q1 * r + m1 && 0 <= m1 < r && k2 == q2 * r + m2 && 0 <= m2 < r) by (nonlinear_arith)
        requires q1 == k1 / r, q2 == k2 / r, m1 == k1 % r, m2 == k2 % r, r >= 1;
    assert(q1 <= q2) by (nonlinear_arith)
        requires k1 == q1 * r + m1, k2 == q2 * r + m2, 0 <= m1 < r, 0 <= m2 < r, k1 < k2, r >= 1;
    if q1 == q2 {
        assert(m1 < m2) by (nonlinear_arith)
            requires k1 == q1 * r + m1, k2 == q2 * r + m2, q1 == q2, k1 < k2;
        assert(m1 * subdivision < m2 * subdivision) by (nonlinear_arith)
            requires m1 < m2, subdivision > 0;
    } else {
        assert(q1 * bar + m1 * subdivision < q2 * bar + m2 * subdivision) by (nonlinear_arith)
            requires
                q1 < q2,
                0 <= m1 < r,
                0 <= m2,
                (r - 1) * subdivision < bar,
                subdivision > 0,
                bar > 0,
        ;
    }
}

proof fn lemma_match_totals(ms: Seq<MatchedOnsetCluster>, onsets: Seq<i128>, tolerance: int)
    requires
        forall|j: int| 0 <= j < ms.len() ==> matched_as(#[trigger] ms[j], onsets, tolerance),
    ensures
        0 <= matched_count(ms) <= ms.len(),
        0 <= total_abs_error(ms) <= matched_count(ms) * tolerance,
    decreases ms.len(),
{
    if ms.len() > 0 {
        let d = ms.drop_last();
        assert forall|j: int| 0 <= j < d.len() implies matched_as(#[trigger] d[j], onsets, tolerance) by {
            assert(d[j] == ms[j]);
        }
        lemma_match_totals(d, onsets, tolerance);
        assert(matched_as(ms[ms.len() - 1], onsets, tolerance));
        assert(matched_count(ms) * tolerance == matched_count(d) * tolerance
            + (if ms.last().observed_beat is Some { tolerance } else { 0 })) by (nonlinear_arith)
            requires
                matched_count(ms) == matched_count(d) + if ms.last().observed_beat is Some { 1int } else { 0int },
        ;
    }
}

proof fn lemma_members_contains(entries: Seq<(int, int)>, t: int)
    requires
        0 <= t < entries.len(),
    ensures
        members_at(entries, entries[t].0).contains(entries[t].1),
    decreases entries.len(),
{
    let d = entries.drop_last();
    if t == entries.len() - 1 {
        assert(members_at(entries, entries[t].0).last() == entries[t].1);
    } else {
        lemma_members_contains(d, t);
        assert(d[t] == entries[t]);
        let m = members_at(d, entries[t].0);
        let k = choose|k: int| 0 <= k < m.len() && m[k] == entries[t].1;
        assert(members_at(entries, entries[t].0)[k] == entries[t].1);
    }
}

/// What the diagnostics report holds together: no more clusters are matched
/// than there are, every matched cluster lies within the tolerance of the
/// onset it is matched to (so the summed error is at most the tolerance per
/// match), every event on the grid is listed by the cluster of its grid cell,
/// and with bars of positive length the clusters lie at increasing positions.
pub proof fn lemma_diagnostics_consistent(
    d: AlignmentDiagnostics,
    sources: Seq<MidiSource>,
    offsets: Seq<i128>,
    onsets: Seq<i128>,
    bar: int,
    subdivision: int,
    tolerance: int,
)
    requires
        diagnostics_of(d, sources, offsets, onsets, bar, subdivision, tolerance),
        bar >= 0,
        subdivision > 0,
    ensures
        d.matched_clusters <= d.total_clusters,
        d.total_timing_error_beats <= d.matched_clusters * tolerance,
        forall|j: int|
            0 <= j < d.matched_onset_clusters@.len() && (#[trigger] d.matched_onset_clusters@[j]).observed_beat is Some
                ==> distance(d.matched_onset_clusters@[j].timing_error_beats as int, 0) <= tolerance,
        forall|t: int|
            0 <= t < cell_entries(event_positions(sources, offsets), bar, subdivision).len() ==> exists|j: int|
                0 <= j < d.matched_onset_clusters@.len() && #[trigger] d.matched_onset_clusters@[j].cluster.beat
                    == cell_position(
                    #[trigger] cell_entries(event_positions(sources, offsets), bar, subdivision)[t].0,
                    bar,
                    subdivision,
                ) && indices_view(d.matched_onset_clusters@[j].cluster.event_indices@).contains(
                    cell_entries(event_positions(sources, offsets), bar, subdivision)[t].1,
                ),
        bar > 0 ==> forall|j: int, k: int|
            0 <= j < k < d.matched_onset_clusters@.len() ==> d.matched_onset_clusters@[j].cluster.beat
                < d.matched_onset_clusters@[k].cluster.beat,
{
    let ms = d.matched_onset_clusters@;
    lemma_match_totals(ms, onsets, tolerance);
    let cs = clusters_of_matches(ms);
    let entries = cell_entries(event_positions(sources, offsets), bar, subdivision);
    let keys = choose|keys: Seq<int>| cells_grouped(cs, keys, entries, bar, subdivision);
    lemma_cell_entries_keys(event_positions(sources, offsets), bar, subdivision);
    assert forall|t: int| 0 <= t < entries.len() implies exists|j: int|
        0 <= j < ms.len() && #[trigger] ms[j].cluster.beat == cell_position(#[trigger] entries[t].0, bar, subdivision)
            && indices_view(ms[j].cluster.event_indices@).contains(entries[t].1) by {
        assert(has_cell(keys, entries[t].0));
        let j = choose|j: int| 0 <= j < keys.len() && keys[j] == entries[t].0;
        assert(ms[j].cluster == cs[j]);
        assert(cs[j].beat == cell_position(keys[j], bar, subdivision));
        assert(indices_view(cs[j].event_indices@) == members_at(entries, keys[j]));
        lemma_members_contains(entries, t);
    }
    if bar > 0 {
        assert forall|j: int, k: int| 0 <= j < k < ms.len() implies ms[j].cluster.beat < ms[k].cluster.beat by {
            assert(ms[j].cluster == cs[j]);
            assert(ms[k].cluster == cs[k]);
            assert(cs[j].beat == cell_position(keys[j], bar, subdivision));
            assert(cs[k].beat == cell_position(keys[k], bar, subdivision));
            assert(keys[j] < keys[k]);
            assert(indices_view(cs[j].event_indices@).len() > 0);
            lemma_members_nonempty(entries, keys[j]);
            let t = choose|t: int| 0 <= t < entries.len() && #[trigger] entries[t].0 == keys[j];
            lemma_cell_position_increasing(keys[j], keys[k], bar, subdivision);
        }
    }
}

/// Cell numbers of grid entries are never negative.
proof fn lemma_cell_entries_keys(positions: Seq<int>, bar: int, subdivision: int)
    requires
        bar >= 0,
        subdivision > 0,
    ensures
        forall|t: int| 0 <= t < cell_entries(positions, bar, subdivision).len() ==> 0 <= #[trigger] cell_entries(
            positions,
            bar,
            subdivision,
        )[t].0,
    decreases positions.len(),
{
    if positions.len() > 0 {
        lemma_cell_entries_keys(positions.drop_last(), bar, subdivision);
        let before = cell_entries(positions.drop_last(), bar, subdivision);
        let all = cell_entries(positions, bar, subdivision);
        let p = positions.last();
        assert forall|t: int| 0 <= t < before.len() implies all[t] == before[t] by {}
        if p >= 0 {
            let b = bar_index(p, bar);
            let r = cell_radix(bar, subdivision);
            assert(b >= 0) by {
                if bar > 0 {
                    assert(p / bar >= 0) by (nonlinear_arith)
                        requires p >= 0, bar > 0;
                }
            }
            assert(cell_in_bar(p, bar, subdivision) >= 0) by {
                if bar > 0 {
                    assert((2 * (p % bar) + subdivision) / (2 * subdivision) >= 0) by (nonlinear_arith)
                        requires p % bar >= 0, subdivision > 0;
                }
            }
            assert(b * r >= 0) by (nonlinear_arith)
                requires b >= 0, r >= 1;
        }
    }
}

} // verus!
